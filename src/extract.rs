//! Capture timestamps from decoded EXIF entries.
use vstd::prelude::*;
use vstd::string::StringExecFns;

verus! {

/// EXIF tag number of the original capture date and time.
pub const DATE_TIME_ORIGINAL: u32 = 0x9003;

/// Bytes read from the head of a file when the whole file is not scanned.
pub const HEAD_WINDOW: usize = 65536;

/// One decoded EXIF entry: the tag's number and its value as text.
pub struct TagEntry {
    pub tag: u32,
    pub value: String,
}

/// Why no timestamp could be had from a file.
pub enum ExtractionError {
    /// The file could not be opened or read.
    Io(String),
    /// The decoder rejected the bytes.
    Decode(String),
    /// Decoding succeeded but no capture timestamp tag is present.
    TagNotFound,
}

#[verifier::external_type_specification]
#[verifier::external_body]
pub struct ExExifError(rexif::ExifError);

/// The entries that the EXIF decoder finds in `bytes`, or `None` where it
/// rejects them.
pub uninterp spec fn exif_entries(bytes: Seq<u8>) -> Option<Seq<(u32, Seq<char>)>>;

pub open spec fn entries_view(v: Seq<TagEntry>) -> Seq<(u32, Seq<char>)> {
    v.map_values(|e: TagEntry| (e.tag, e.value@))
}

/// The value of the first capture timestamp entry, if any.
pub open spec fn capture_timestamp_of(entries: Seq<(u32, Seq<char>)>) -> Option<Seq<char>>
    decreases entries.len(),
{
    if entries.len() == 0 {
        None
    } else if entries[0].0 == DATE_TIME_ORIGINAL {
        Some(entries[0].1)
    } else {
        capture_timestamp_of(entries.drop_first())
    }
}

/// What extraction yields for file content `bytes`, with the timestamp as text.
pub open spec fn extraction_outcome(bytes: Seq<u8>, r: Result<String, ExtractionError>) -> bool {
    match exif_entries(bytes) {
        None => r matches Err(ExtractionError::Decode(_)),
        Some(es) => match capture_timestamp_of(es) {
            None => r matches Err(ExtractionError::TagNotFound),
            Some(ts) => r matches Ok(s) && s@ == ts,
        },
    }
}

/// Relies on rexif::parse_buffer_quiet, which decodes a byte buffer and
/// depends on the bytes alone; each entry is given as the number of its
/// `ExifTag` and the text that `TagValue`'s Display writes.
#[verifier::external_body]
fn decode_exif(bytes: &[u8]) -> (r: Result<Vec<TagEntry>, rexif::ExifError>)
    ensures
        r is Ok <==> exif_entries(bytes@) is Some,
        r is Ok ==> entries_view(r->Ok_0@) == exif_entries(bytes@)->Some_0,
{
    match rexif::parse_buffer_quiet(bytes).0 {
        Ok(data) => Ok(
            data.entries.iter().map(|e| TagEntry { tag: e.tag as u32, value: e.value.to_string() }).collect(),
        ),
        Err(e) => Err(e),
    }
}

/// Relies on the Display impl of rexif::ExifError for a readable message.
#[verifier::external_body]
fn decode_error_text(e: &rexif::ExifError) -> String {
    e.to_string()
}

/// Returns the value of the first capture timestamp entry.
pub fn capture_timestamp(entries: &Vec<TagEntry>) -> (r: Option<String>)
    ensures
        match capture_timestamp_of(entries_view(entries@)) {
            None => r is None,
            Some(ts) => r matches Some(s) && s@ == ts,
        },
{
    let ghost all = entries_view(entries@);
    let mut i: usize = 0;
    assert(all.subrange(0, all.len() as int) =~= all);
    while i < entries.len()
        invariant
            i <= entries@.len(),
            all == entries_view(entries@),
            capture_timestamp_of(all) == capture_timestamp_of(all.subrange(i as int, all.len() as int)),
        decreases entries@.len() - i,
    {
        let ghost rest = all.subrange(i as int, all.len() as int);
        assert(rest[0] == (entries@[i as int].tag, entries@[i as int].value@));
        if entries[i].tag == DATE_TIME_ORIGINAL {
            return Some(entries[i].value.clone());
        }
        assert(rest.drop_first() =~= all.subrange(i + 1, all.len() as int));
        i = i + 1;
    }
    None
}

/// Decodes file content and returns its capture timestamp, verbatim.
pub fn extract_timestamp(bytes: &[u8]) -> (r: Result<String, ExtractionError>)
    ensures
        extraction_outcome(bytes@, r),
{
    match decode_exif(bytes) {
        Err(e) => Err(ExtractionError::Decode(decode_error_text(&e))),
        Ok(entries) => match capture_timestamp(&entries) {
            Some(ts) => Ok(ts),
            None => Err(ExtractionError::TagNotFound),
        },
    }
}

impl ExtractionError {
    /// A readable reason for the failure.
    pub fn reason(&self) -> (r: String)
        ensures
            r@ == extraction_reason(*self),
    {
        match self {
            ExtractionError::Io(m) => m.clone(),
            ExtractionError::Decode(m) => m.clone(),
            ExtractionError::TagNotFound => {
                proof {
                    reveal_strlit("no DateTimeOriginal tag");
                }
                String::from_str("no DateTimeOriginal tag")
            },
        }
    }
}

pub open spec fn extraction_reason(e: ExtractionError) -> Seq<char> {
    match e {
        ExtractionError::Io(m) => m@,
        ExtractionError::Decode(m) => m@,
        ExtractionError::TagNotFound => "no DateTimeOriginal tag"@,
    }
}

} // verus!
