//! Which files are candidates, and whether the directories of a run are usable.
use vstd::prelude::*;
use vstd::string::StrSliceExecFns;

verus! {

/// `a` and `b` are equal once ASCII letters are folded to lower case.
pub open spec fn same_ignoring_ascii_case(a: char, b: char) -> bool {
    a == b || ('A' <= a && a <= 'Z' && a as u32 + 32 == b as u32) || ('A' <= b && b <= 'Z'
        && b as u32 + 32 == a as u32)
}

pub open spec fn eq_ignoring_ascii_case(s: Seq<char>, t: Seq<char>) -> bool {
    s.len() == t.len() && forall|i: int|
        0 <= i < s.len() ==> same_ignoring_ascii_case(#[trigger] s[i], t[i])
}

/// A file extension that marks a JPEG file: `jpg` or `jpeg`, in any case.
pub open spec fn is_jpeg_extension_spec(ext: Seq<char>) -> bool {
    eq_ignoring_ascii_case(ext, seq!['j', 'p', 'g']) || eq_ignoring_ascii_case(
        ext,
        seq!['j', 'p', 'e', 'g'],
    )
}

/// Component-wise prefix: the path `p` is `q` or one of its ancestors.
pub open spec fn is_path_prefix(p: Seq<Seq<char>>, q: Seq<Seq<char>>) -> bool {
    p.len() <= q.len() && forall|i: int| 0 <= i < p.len() ==> #[trigger] p[i] == q[i]
}

pub open spec fn components_view(v: Seq<String>) -> Seq<Seq<char>> {
    v.map_values(|s: String| s@)
}

fn same_char_ignoring_ascii_case(a: char, b: char) -> (r: bool)
    ensures
        r == same_ignoring_ascii_case(a, b),
{
    if a == b {
        return true;
    }
    let x = a as u32;
    let y = b as u32;
    ('A' <= a && a <= 'Z' && x + 32 == y) || ('A' <= b && b <= 'Z' && y + 32 == x)
}

/// Whether `s` equals `t` once ASCII letters are folded to lower case.
pub fn eq_ignore_ascii_case(s: &str, t: &str) -> (r: bool)
    ensures
        r == eq_ignoring_ascii_case(s@, t@),
{
    let n = s.unicode_len();
    if n != t.unicode_len() {
        return false;
    }
    let mut i: usize = 0;
    while i < n
        invariant
            n == s@.len(),
            n == t@.len(),
            i <= n,
            forall|k: int| 0 <= k < i ==> same_ignoring_ascii_case(#[trigger] s@[k], t@[k]),
        decreases n - i,
    {
        if !same_char_ignoring_ascii_case(s.get_char(i), t.get_char(i)) {
            return false;
        }
        i = i + 1;
    }
    true
}

/// Whether a file extension is `jpg` or `jpeg`, in any case.
pub fn is_jpeg_extension(ext: &str) -> (r: bool)
    ensures
        r == is_jpeg_extension_spec(ext@),
{
    proof {
        reveal_strlit("jpg");
        reveal_strlit("jpeg");
    }
    eq_ignore_ascii_case(ext, "jpg") || eq_ignore_ascii_case(ext, "jpeg")
}

/// Whether a directory entry is a candidate: a regular file with a JPEG
/// extension. Everything else is never handed to extraction.
pub fn is_candidate(is_file: bool, extension: Option<&str>) -> (r: bool)
    ensures
        r == (is_file && (extension matches Some(e) && is_jpeg_extension_spec(e@))),
{
    match extension {
        Some(e) => is_file && is_jpeg_extension(e),
        None => false,
    }
}

/// Whether the path with components `input` is `output` or one of its ancestors.
pub fn is_within(input: &Vec<String>, output: &Vec<String>) -> (r: bool)
    ensures
        r == is_path_prefix(components_view(input@), components_view(output@)),
{
    if input.len() > output.len() {
        return false;
    }
    let ghost p = components_view(input@);
    let ghost q = components_view(output@);
    let mut i: usize = 0;
    while i < input.len()
        invariant
            input@.len() <= output@.len(),
            p == components_view(input@),
            q == components_view(output@),
            i <= input@.len(),
            forall|k: int| 0 <= k < i ==> #[trigger] p[k] == q[k],
        decreases input@.len() - i,
    {
        if input[i] != output[i] {
            assert(p[i as int] != q[i as int]);
            return false;
        }
        i = i + 1;
    }
    true
}

/// A problem with the run's configuration, found before any file is touched.
pub enum SetupError {
    /// The input directory does not exist or is not a directory.
    InputNotDirectory,
    /// The output directory is the input directory or lies inside it.
    OutputInsideInput,
    /// The output directory could not be created.
    CreateOutput(String),
}

/// Checks the directories of a run, given whether the input is a directory
/// and the components of both paths.
pub fn check_directories(input_is_dir: bool, input: &Vec<String>, output: &Vec<String>) -> (r:
    Result<(), SetupError>)
    ensures
        !input_is_dir ==> r matches Err(SetupError::InputNotDirectory),
        input_is_dir && is_path_prefix(components_view(input@), components_view(output@))
            ==> r matches Err(SetupError::OutputInsideInput),
        r is Ok <==> (input_is_dir && !is_path_prefix(
            components_view(input@),
            components_view(output@),
        )),
{
    if !input_is_dir {
        Err(SetupError::InputNotDirectory)
    } else if is_within(input, output) {
        Err(SetupError::OutputInsideInput)
    } else {
        Ok(())
    }
}

} // verus!
