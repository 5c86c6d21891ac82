//! Paths as text. The library holds every path as a `String`; taking a path
//! apart and putting one together is the standard library's work, reached
//! through the functions below, whose results are named but not computed
//! here. What a path means depends on the platform the library is built for;
//! on one platform the same texts always give the same result.

use crate::text::text_of;
use vstd::prelude::*;

verus! {

/// What `Path::strip_prefix` leaves of `path` once `base` is taken from its
/// front, or `None` where `base` is no prefix of `path`.
pub uninterp spec fn path_without_prefix(path: Seq<char>, base: Seq<char>) -> Option<Seq<char>>;

/// What `Path::file_name` gives: the last component of `path`, if it has one.
pub uninterp spec fn path_file_name(path: Seq<char>) -> Option<Seq<char>>;

/// What `Path::file_stem` gives: the file name of `path` without its extension.
pub uninterp spec fn path_file_stem(path: Seq<char>) -> Option<Seq<char>>;

/// What `Path::extension` gives: the extension of the file name of `path`.
pub uninterp spec fn path_extension(path: Seq<char>) -> Option<Seq<char>>;

/// What `Path::join` gives: `path` extended by `part`.
pub uninterp spec fn path_join(path: Seq<char>, part: Seq<char>) -> Seq<char>;

/// Calls `std::path::Path::strip_prefix`. Nothing is claimed of the result
/// but that it is the one the standard library gives for these two texts.
#[verifier::external_body]
pub(crate) fn strip_prefix(path: &str, base: &str) -> (rest: Option<String>)
    ensures
        text_of(rest) == path_without_prefix(path@, base@),
{
    std::path::Path::new(path).strip_prefix(base).ok().map(|p| p.to_string_lossy().into_owned())
}

/// Calls `std::path::Path::file_name`. Nothing is claimed of the result but
/// that it is the one the standard library gives for this text.
#[verifier::external_body]
pub(crate) fn file_name(path: &str) -> (name: Option<String>)
    ensures
        text_of(name) == path_file_name(path@),
{
    std::path::Path::new(path).file_name().map(|n| n.to_string_lossy().into_owned())
}

/// Calls `std::path::Path::file_stem`. Nothing is claimed of the result but
/// that it is the one the standard library gives for this text.
#[verifier::external_body]
pub(crate) fn file_stem(path: &str) -> (stem: Option<String>)
    ensures
        text_of(stem) == path_file_stem(path@),
{
    std::path::Path::new(path).file_stem().map(|n| n.to_string_lossy().into_owned())
}

/// Calls `std::path::Path::extension`. Nothing is claimed of the result but
/// that it is the one the standard library gives for this text.
#[verifier::external_body]
pub(crate) fn extension(path: &str) -> (ext: Option<String>)
    ensures
        text_of(ext) == path_extension(path@),
{
    std::path::Path::new(path).extension().map(|n| n.to_string_lossy().into_owned())
}

/// Calls `std::path::Path::join`. Nothing is claimed of the result but that
/// it is the one the standard library gives for these two texts.
#[verifier::external_body]
pub(crate) fn join(path: &str, part: &str) -> (joined: String)
    ensures
        joined@ == path_join(path@, part@),
{
    std::path::Path::new(path).join(part).to_string_lossy().into_owned()
}

} // verus!
