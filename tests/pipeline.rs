use exif_rename::extract::{
    capture_timestamp, extract_timestamp, ExtractionError, TagEntry, DATE_TIME_ORIGINAL,
    HEAD_WINDOW,
};
use exif_rename::naming::{assign, make_candidate_name, push_decimal, timestamp_base_name, ClaimedNames};
use exif_rename::plan::{conclude, plan, MoveError, Stage};
use exif_rename::setup::{
    check_directories, eq_ignore_ascii_case, is_candidate, is_jpeg_extension, is_within,
    SetupError,
};

const TS: &str = "2023:05:01 10:00:00";

fn strings(v: &[&str]) -> Vec<String> {
    v.iter().map(|s| s.to_string()).collect()
}

/// A small JPEG whose EXIF block holds one DateTimeOriginal entry.
fn jpeg_with_capture_time(ts: &str) -> Vec<u8> {
    let mut value = ts.as_bytes().to_vec();
    value.push(0);
    let count = value.len() as u32;
    let mut tiff: Vec<u8> = vec![b'I', b'I', 42, 0, 8, 0, 0, 0];
    // IFD0: one entry pointing at the Exif IFD.
    tiff.extend_from_slice(&[1, 0, 0x69, 0x87, 4, 0, 1, 0, 0, 0, 26, 0, 0, 0, 0, 0, 0, 0]);
    // Exif IFD: one ASCII entry stored at offset 44.
    tiff.extend_from_slice(&[1, 0, 0x03, 0x90, 2, 0]);
    tiff.extend_from_slice(&count.to_le_bytes());
    tiff.extend_from_slice(&[44, 0, 0, 0, 0, 0, 0, 0]);
    tiff.extend_from_slice(&value);
    let size = (2 + 6 + tiff.len()) as u16;
    let mut out: Vec<u8> = vec![0xff, 0xd8, 0xff, 0xe1];
    out.extend_from_slice(&size.to_be_bytes());
    out.extend_from_slice(b"Exif\0\0");
    out.extend_from_slice(&tiff);
    out.extend_from_slice(&[0xff, 0xd9]);
    out
}

#[test]
fn base_name_replaces_colons_and_spaces() {
    assert_eq!(timestamp_base_name(TS), "2023-05-01_10-00-00");
    assert_eq!(timestamp_base_name(""), "");
    assert_eq!(timestamp_base_name("a b:c"), "a_b-c");
}

#[test]
fn decimal_digits() {
    for (n, text) in [(0u64, "0"), (7, "7"), (10, "10"), (12345, "12345"), (u64::MAX, "18446744073709551615")] {
        let mut s = String::from("x");
        push_decimal(&mut s, n);
        assert_eq!(s, format!("x{}", text));
    }
}

#[test]
fn candidate_names_follow_counter() {
    let base = String::from("2023-05-01_10-00-00");
    assert_eq!(make_candidate_name(&base, 0), "2023-05-01_10-00-00.jpg");
    assert_eq!(make_candidate_name(&base, 1), "2023-05-01_10-00-00_1.jpg");
    assert_eq!(make_candidate_name(&base, 12), "2023-05-01_10-00-00_12.jpg");
}

#[test]
fn assign_claims_names_in_order() {
    let mut claimed = ClaimedNames::new();
    let existing: Vec<String> = Vec::new();
    assert_eq!(assign(TS, &mut claimed, &existing), "2023-05-01_10-00-00.jpg");
    assert_eq!(assign(TS, &mut claimed, &existing), "2023-05-01_10-00-00_1.jpg");
    assert_eq!(assign(TS, &mut claimed, &existing), "2023-05-01_10-00-00_2.jpg");
    assert_eq!(claimed.len(), 3);
    assert!(claimed.contains(&String::from("2023-05-01_10-00-00_1.jpg")));
    assert!(!claimed.contains(&String::from("2023-05-01_10-00-00_3.jpg")));
}

#[test]
fn assign_skips_existing_entries() {
    let mut claimed = ClaimedNames::new();
    let mut names = vec![String::from("2023-05-01_10-00-00.jpg")];
    for c in 1..=11 {
        names.push(format!("2023-05-01_10-00-00_{}.jpg", c));
    }
    assert_eq!(assign(TS, &mut claimed, &names), "2023-05-01_10-00-00_12.jpg");
}

#[test]
fn assign_is_deterministic_for_same_state() {
    let existing = strings(&["2023-05-01_10-00-00.jpg"]);
    let mut first = ClaimedNames::new();
    let mut second = ClaimedNames::new();
    let a = assign(TS, &mut first, &existing);
    let b = assign(TS, &mut second, &existing);
    assert_eq!(a, b);
}

#[test]
fn existing_destination_is_not_overwritten() {
    let existing = strings(&["2023-05-01_10-00-00.jpg"]);
    let outcomes = vec![Ok(String::from(TS))];
    let p = plan(&outcomes, &existing);
    assert_eq!(p.moves.len(), 1);
    assert_eq!(p.moves[0].source, 0);
    assert_eq!(p.moves[0].dest_name, "2023-05-01_10-00-00_1.jpg");
    assert!(p.failures.is_empty());
}

#[test]
fn same_timestamp_and_missing_exif() {
    let outcomes = vec![Ok(String::from(TS)), Ok(String::from(TS)), Err(ExtractionError::TagNotFound)];
    let p = plan(&outcomes, &Vec::new());
    assert_eq!(p.moves.len(), 2);
    assert_eq!((p.moves[0].source, p.moves[0].dest_name.as_str()), (0, "2023-05-01_10-00-00.jpg"));
    assert_eq!((p.moves[1].source, p.moves[1].dest_name.as_str()), (1, "2023-05-01_10-00-00_1.jpg"));
    assert_eq!(p.failures.len(), 1);
    assert_eq!(p.failures[0].source, 2);
    assert_eq!(p.failures[0].stage, Stage::Extraction);
    assert_eq!(p.failures[0].reason, "no DateTimeOriginal tag");
}

#[test]
fn plan_has_no_collisions() {
    let stamps = ["2023:05:01 10:00:00", "2023:05:01 10:00:01", "2023:05:01 10:00:00", "2023:05:01 10:00:00"];
    let outcomes: Vec<Result<String, ExtractionError>> = stamps.iter().map(|s| Ok(s.to_string())).collect();
    let existing = strings(&["2023-05-01_10-00-00_1.jpg", "other.jpg"]);
    let p = plan(&outcomes, &existing);
    let names: Vec<&str> = p.moves.iter().map(|m| m.dest_name.as_str()).collect();
    assert_eq!(
        names,
        vec![
            "2023-05-01_10-00-00.jpg",
            "2023-05-01_10-00-01.jpg",
            "2023-05-01_10-00-00_2.jpg",
            "2023-05-01_10-00-00_3.jpg"
        ]
    );
    for (i, a) in names.iter().enumerate() {
        assert!(!existing.iter().any(|e| e == a));
        for b in &names[i + 1..] {
            assert_ne!(a, b);
        }
    }
}

#[test]
fn failed_extraction_does_not_stop_others() {
    let outcomes = vec![
        Err(ExtractionError::Decode(String::from("File type unknown"))),
        Ok(String::from(TS)),
        Err(ExtractionError::Io(String::from("permission denied"))),
        Ok(String::from("2024:01:02 03:04:05")),
    ];
    let p = plan(&outcomes, &Vec::new());
    let sources: Vec<usize> = p.moves.iter().map(|m| m.source).collect();
    assert_eq!(sources, vec![1, 3]);
    assert_eq!(p.moves[1].dest_name, "2024-01-02_03-04-05.jpg");
    let failed: Vec<(usize, &str)> = p.failures.iter().map(|f| (f.source, f.reason.as_str())).collect();
    assert_eq!(failed, vec![(0, "File type unknown"), (2, "permission denied")]);
}

#[test]
fn run_report_partitions_candidates() {
    let outcomes = vec![
        Ok(String::from(TS)),
        Err(ExtractionError::TagNotFound),
        Ok(String::from(TS)),
        Ok(String::from("2024:01:02 03:04:05")),
    ];
    let p = plan(&outcomes, &Vec::new());
    let results = vec![Ok(()), Err(MoveError { reason: String::from("disk full") }), Ok(())];
    let r = conclude(&p, &results);
    let moved: Vec<usize> = r.moved.iter().map(|m| m.source).collect();
    assert_eq!(moved, vec![0, 3]);
    let failed: Vec<(usize, Stage)> = r.failures.iter().map(|f| (f.source, f.stage)).collect();
    assert_eq!(failed, vec![(1, Stage::Extraction), (2, Stage::Move)]);
    assert_eq!(r.failures[1].reason, "disk full");
    for i in 0..outcomes.len() {
        let m = moved.iter().filter(|&&s| s == i).count();
        let f = failed.iter().filter(|x| x.0 == i).count();
        assert_eq!(m + f, 1);
    }
}

#[test]
fn empty_batch() {
    let outcomes: Vec<Result<String, ExtractionError>> = Vec::new();
    let p = plan(&outcomes, &Vec::new());
    assert!(p.moves.is_empty() && p.failures.is_empty());
    let r = conclude(&p, &Vec::new());
    assert!(r.moved.is_empty() && r.failures.is_empty());
}

#[test]
fn capture_timestamp_takes_first_match() {
    let entries = vec![
        TagEntry { tag: 0x010f, value: String::from("Camera") },
        TagEntry { tag: DATE_TIME_ORIGINAL, value: String::from("first") },
        TagEntry { tag: DATE_TIME_ORIGINAL, value: String::from("second") },
    ];
    assert_eq!(capture_timestamp(&entries), Some(String::from("first")));
    assert_eq!(capture_timestamp(&entries[..1].iter().map(|e| TagEntry { tag: e.tag, value: e.value.clone() }).collect()), None);
    assert_eq!(capture_timestamp(&Vec::new()), None);
}

#[test]
fn extract_from_jpeg_with_exif() {
    let bytes = jpeg_with_capture_time(TS);
    match extract_timestamp(&bytes) {
        Ok(ts) => assert_eq!(ts, TS),
        Err(e) => panic!("unexpected failure: {}", e.reason()),
    }
}

#[test]
fn extract_rejects_empty_and_unknown_content() {
    assert!(matches!(extract_timestamp(&[]), Err(ExtractionError::Decode(_))));
    assert!(matches!(extract_timestamp(b"not an image at all"), Err(ExtractionError::Decode(_))));
    let mut truncated = jpeg_with_capture_time(TS);
    truncated.truncate(14);
    assert!(matches!(extract_timestamp(&truncated), Err(ExtractionError::Decode(_))));
}

#[test]
fn extract_reports_missing_tag() {
    // Same layout, but the only Exif entry is DateTimeDigitized.
    let mut bytes = jpeg_with_capture_time(TS);
    let pos = bytes.windows(2).position(|w| w == [0x03, 0x90]).unwrap();
    bytes[pos] = 0x04;
    assert!(matches!(extract_timestamp(&bytes), Err(ExtractionError::TagNotFound)));
}

#[test]
fn head_window_is_64_kib() {
    assert_eq!(HEAD_WINDOW, 64 * 1024);
}

#[test]
fn jpeg_extensions() {
    for ext in ["jpg", "JPG", "jpeg", "JpEg", "JPEG"] {
        assert!(is_jpeg_extension(ext), "{}", ext);
    }
    for ext in ["png", "jpgx", "jp", "", "jpe", "tiff"] {
        assert!(!is_jpeg_extension(ext), "{}", ext);
    }
    assert!(is_candidate(true, Some("Jpg")));
    assert!(!is_candidate(false, Some("jpg")));
    assert!(!is_candidate(true, None));
    assert!(!is_candidate(true, Some("png")));
    assert!(eq_ignore_ascii_case("AbC", "aBc"));
    assert!(!eq_ignore_ascii_case("ab", "abc"));
    assert!(!eq_ignore_ascii_case("[", "{"));
}

#[test]
fn output_inside_input_is_refused() {
    let input = strings(&["/", "photos"]);
    let sub = strings(&["/", "photos", "sub"]);
    assert!(matches!(check_directories(true, &input, &sub), Err(SetupError::OutputInsideInput)));
    assert!(matches!(check_directories(true, &input, &input), Err(SetupError::OutputInsideInput)));
}

#[test]
fn directory_checks() {
    let input = strings(&["/", "photos"]);
    let sibling = strings(&["/", "sorted"]);
    let prefix_name = strings(&["/", "photos2"]);
    assert!(check_directories(true, &input, &sibling).is_ok());
    assert!(check_directories(true, &input, &prefix_name).is_ok());
    assert!(matches!(check_directories(false, &input, &sibling), Err(SetupError::InputNotDirectory)));
    assert!(is_within(&input, &sibling) == false);
    assert!(is_within(&strings(&["/"]), &sibling));
}
