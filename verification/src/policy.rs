//! Ingestion policy: which files qualify for the corpus. A file is admitted
//! unless it is empty, larger than 50 MiB, or carries a known binary
//! extension (matched case-insensitively).

use crate::paths;
use crate::text;
use vstd::prelude::*;

verus! {

/// Largest admissible file size in bytes: 50 MiB.
pub const MAX_FILE_SIZE: u64 = 52428800;

/// `e` names, after ASCII case folding, one of the excluded binary
/// extensions.
pub open spec fn is_binary_ext(e: Seq<char>) -> bool {
    ||| text::eq_lower(e, "png"@)
    ||| text::eq_lower(e, "jpg"@)
    ||| text::eq_lower(e, "jpeg"@)
    ||| text::eq_lower(e, "gif"@)
    ||| text::eq_lower(e, "pdf"@)
    ||| text::eq_lower(e, "zip"@)
    ||| text::eq_lower(e, "tar"@)
    ||| text::eq_lower(e, "gz"@)
    ||| text::eq_lower(e, "so"@)
    ||| text::eq_lower(e, "dylib"@)
    ||| text::eq_lower(e, "dll"@)
    ||| text::eq_lower(e, "exe"@)
    ||| text::eq_lower(e, "bin"@)
    ||| text::eq_lower(e, "o"@)
    ||| text::eq_lower(e, "a"@)
}

/// Whether the extension `e` is excluded as binary.
pub fn is_binary_extension(e: &str) -> (r: bool)
    ensures
        r == is_binary_ext(e@),
{
    ||| text::eq_ignore_ascii_case(e, "png")
    ||| text::eq_ignore_ascii_case(e, "jpg")
    ||| text::eq_ignore_ascii_case(e, "jpeg")
    ||| text::eq_ignore_ascii_case(e, "gif")
    ||| text::eq_ignore_ascii_case(e, "pdf")
    ||| text::eq_ignore_ascii_case(e, "zip")
    ||| text::eq_ignore_ascii_case(e, "tar")
    ||| text::eq_ignore_ascii_case(e, "gz")
    ||| text::eq_ignore_ascii_case(e, "so")
    ||| text::eq_ignore_ascii_case(e, "dylib")
    ||| text::eq_ignore_ascii_case(e, "dll")
    ||| text::eq_ignore_ascii_case(e, "exe")
    ||| text::eq_ignore_ascii_case(e, "bin")
    ||| text::eq_ignore_ascii_case(e, "o")
    ||| text::eq_ignore_ascii_case(e, "a")
}

/// The path's extension marks it as an excluded binary file.
pub open spec fn path_excluded(p: Seq<char>) -> bool {
    match paths::extension_spec(p) {
        Some(e) => is_binary_ext(e),
        None => false,
    }
}

/// Whether the path `p` is excluded by its extension.
pub fn is_excluded_path(p: &str) -> (r: bool)
    ensures
        r == path_excluded(p@),
{
    match paths::extension_of(p) {
        Some(e) => is_binary_extension(e.as_str()),
        None => false,
    }
}

/// The size passes the ingestion bounds: non-empty and at most 50 MiB.
pub open spec fn size_ok(size: u64) -> bool {
    size != 0 && size <= MAX_FILE_SIZE
}

/// A file at path `p` of `size` bytes qualifies for the corpus.
pub open spec fn admit_spec(p: Seq<char>, size: u64) -> bool {
    size_ok(size) && !path_excluded(p)
}

/// Apply the ingestion policy to a file.
pub fn admits(p: &str, size: u64) -> (r: bool)
    ensures
        r == admit_spec(p@, size),
{
    size != 0 && size <= MAX_FILE_SIZE && !is_excluded_path(p)
}

} // verus!
