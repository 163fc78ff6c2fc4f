//! Decisions made from file names: supported image extensions, the pixel-row
//! convention of a ground-truth frame, and display names of paths.

use vstd::prelude::*;

use std::path::PathBuf;

use crate::text::{lower_seq, str_eq, to_ascii_lowercase};

verus! {

/// Final component of the path `p` as `std::path::Path::file_name` reads it.
pub uninterp spec fn path_file_name(p: Seq<char>) -> Option<Seq<char>>;

/// Index of the last `c` in `s`, or -1 when there is none.
pub open spec fn last_index_of(s: Seq<char>, c: char) -> int
    decreases s.len(),
{
    if s.len() == 0 {
        -1
    } else if s.last() == c {
        s.len() - 1
    } else {
        last_index_of(s.drop_last(), c)
    }
}

/// Extension of a file name as `std::path::Path::extension` documents it:
/// none without an embedded `.` or when the name's only `.` leads it,
/// otherwise the part after the final `.`.
pub open spec fn name_extension(name: Seq<char>) -> Option<Seq<char>> {
    let k = last_index_of(name, '.');
    if k <= 0 {
        None
    } else {
        Some(name.subrange(k + 1, name.len() as int))
    }
}

/// Extension of the path `p` as `std::path::Path::extension` reads it: the
/// extension of its file name, none without a file name.
pub open spec fn path_extension(p: Seq<char>) -> Option<Seq<char>> {
    match path_file_name(p) {
        Some(n) => name_extension(n),
        None => None,
    }
}

/// `std::path::Path::extension` of `path`, converted to a string (always
/// possible for a path that is itself a string).
#[verifier::external_body]
pub(crate) fn extension_of(path: &str) -> (r: Option<String>)
    ensures
        match r {
            Some(e) => path_extension(path@) == Some(e@),
            None => path_extension(path@) is None,
        },
{
    std::path::Path::new(path).extension().and_then(|e| e.to_str()).map(|e| e.to_owned())
}

/// `std::path::Path::file_name` of `path`, converted to a string.
#[verifier::external_body]
pub(crate) fn file_name_of(path: &str) -> (r: Option<String>)
    ensures
        match r {
            Some(n) => path_file_name(path@) == Some(n@),
            None => path_file_name(path@) is None,
        },
{
    std::path::Path::new(path).file_name().and_then(|n| n.to_str()).map(|n| n.to_owned())
}

/// The text of the path `p` when it is valid Unicode, as
/// `OsString::into_string` gives it back; `None` otherwise.
pub uninterp spec fn path_text(p: PathBuf) -> Option<Seq<char>>;

/// `std::path::PathBuf::into_os_string` then `OsString::into_string`: the
/// path as a string when it is valid Unicode, its error mapped to `None`.
#[verifier::external_body]
fn pathbuf_into_string(path: PathBuf) -> (r: Option<String>)
    ensures
        match r {
            Some(s) => path_text(path) == Some(s@),
            None => path_text(path) is None,
        },
{
    path.into_os_string().into_string().ok()
}

/// The lower-cased extension of `p`, if `p` has one.
pub open spec fn lower_extension(p: Seq<char>) -> Option<Seq<char>> {
    match path_extension(p) {
        Some(e) => Some(lower_seq(e)),
        None => None,
    }
}

/// Image formats the command-line tools read.
pub open spec fn is_image_extension(e: Seq<char>) -> bool {
    e == "bmp"@ || e == "png"@ || e == "jpg"@ || e == "jpeg"@ || e == "tiff"@ || e == "tif"@
}

/// Whether `path` names an image by its extension (bmp, png, jpg, jpeg,
/// tiff, tif; any letter case).
pub fn is_image_ext(path: &str) -> (r: bool)
    ensures
        r == (lower_extension(path@) matches Some(e) && is_image_extension(e)),
{
    match extension_of(path) {
        Some(e) => {
            let l = to_ascii_lowercase(e.as_str());
            str_eq(l.as_str(), "bmp") || str_eq(l.as_str(), "png") || str_eq(l.as_str(), "jpg")
                || str_eq(l.as_str(), "jpeg") || str_eq(l.as_str(), "tiff") || str_eq(
                l.as_str(),
                "tif",
            )
        },
        None => false,
    }
}

/// Pixel-row convention of the astrometry solve that produced a WCS sidecar,
/// relative to a top-down (`+y` down) pixel frame.
#[derive(Debug, Clone, Copy, PartialEq, Eq, Structural)]
pub enum WcsRowConvention {
    /// Rows reached astrometry in top-down order (16-bit TIFF frames).
    TopDown,
    /// Rows were vertically flipped during ingestion (other containers).
    Flipped,
}

impl WcsRowConvention {
    /// Convention for a ground-truth sidecar, keyed by the source frame's
    /// container: TIFF frames are top-down, everything else is flipped.
    pub fn for_image_path(path: &str) -> (r: WcsRowConvention)
        ensures
            r == (if (lower_extension(path@) matches Some(e) && (e == "tif"@ || e == "tiff"@)) {
                WcsRowConvention::TopDown
            } else {
                WcsRowConvention::Flipped
            }),
    {
        match extension_of(path) {
            Some(e) => {
                let l = to_ascii_lowercase(e.as_str());
                if str_eq(l.as_str(), "tif") || str_eq(l.as_str(), "tiff") {
                    WcsRowConvention::TopDown
                } else {
                    WcsRowConvention::Flipped
                }
            },
            None => WcsRowConvention::Flipped,
        }
    }
}

/// Display name of a path: its final component, or empty when it has none.
pub fn file_name(path: &str) -> (r: String)
    ensures
        r@ == (match path_file_name(path@) {
            Some(n) => n,
            None => Seq::<char>::empty(),
        }),
{
    match file_name_of(path) {
        Some(n) => n,
        None => String::new(),
    }
}

/// A picked path as a string; a path that is not valid Unicode is refused.
pub fn path_to_string(path: PathBuf) -> (r: Result<Option<String>, String>)
    ensures
        match path_text(path) {
            Some(s) => r matches Ok(Some(t)) && t@ == s,
            None => r matches Err(m) && m@ == "invalid filesystem path"@,
        },
{
    match pathbuf_into_string(path) {
        Some(s) => Ok(Some(s)),
        None => Err("invalid filesystem path".to_owned()),
    }
}

} // verus!
