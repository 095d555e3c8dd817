//! Recognition of supported image file extensions.
//!
//! The directory walk that feeds the engine lives in the embedding;
//! the rule saying which file extensions count as images lives here.

use vstd::prelude::*;
use vstd::string::StrSliceExecFns;
use vstd::string::StringExecFns;

verus! {

/// The ASCII lowercase of a character: letters between 'A' and 'Z' are
/// shifted to their lowercase forms, every other character is kept.
pub open spec fn lower_char(c: char) -> char {
    if 65 <= c as u32 <= 90 {
        (((c as u32) + 32) as u8) as char
    } else {
        c
    }
}

/// A character sequence with every character ASCII-lowercased.
pub open spec fn lower_seq(s: Seq<char>) -> Seq<char> {
    s.map_values(|c: char| lower_char(c))
}

/// Whether an extension, compared case-insensitively, is one of the
/// supported image formats.
pub open spec fn is_supported_spec(s: Seq<char>) -> bool {
    ||| lower_seq(s) == "jpg"@
    ||| lower_seq(s) == "jpeg"@
    ||| lower_seq(s) == "png"@
    ||| lower_seq(s) == "gif"@
    ||| lower_seq(s) == "bmp"@
    ||| lower_seq(s) == "webp"@
    ||| lower_seq(s) == "tiff"@
    ||| lower_seq(s) == "tif"@
    ||| lower_seq(s) == "ico"@
    ||| lower_seq(s) == "heic"@
    ||| lower_seq(s) == "heif"@
}

fn to_lower(c: char) -> (r: char)
    ensures
        r == lower_char(c),
{
    let u = c as u32;
    if 65 <= u && u <= 90 {
        let l: u8 = (u + 32) as u8;
        l as char
    } else {
        c
    }
}

fn eq_lower(ext: &str, lit: &str) -> (r: bool)
    ensures
        r == (lower_seq(ext@) == lit@),
{
    let n = ext.unicode_len();
    if n != lit.unicode_len() {
        proof {
            assert(lower_seq(ext@).len() == ext@.len());
        }
        return false;
    }
    let mut i: usize = 0;
    while i < n
        invariant
            n == ext@.len(),
            n == lit@.len(),
            i <= n,
            forall|k: int| 0 <= k < i ==> lower_char(ext@[k]) == lit@[k],
        decreases n - i,
    {
        let c = to_lower(ext.get_char(i));
        let d = lit.get_char(i);
        if c != d {
            proof {
                assert(lower_seq(ext@)[i as int] != lit@[i as int]);
            }
            return false;
        }
        i = i + 1;
    }
    proof {
        assert(lower_seq(ext@) =~= lit@);
    }
    true
}

/// Decides whether a file extension names a supported image format,
/// ignoring ASCII case.
pub fn is_supported_extension(ext: &str) -> (r: bool)
    ensures
        r == is_supported_spec(ext@),
{
    eq_lower(ext, "jpg") || eq_lower(ext, "jpeg") || eq_lower(ext, "png") || eq_lower(ext, "gif")
        || eq_lower(ext, "bmp") || eq_lower(ext, "webp") || eq_lower(ext, "tiff") || eq_lower(
        ext,
        "tif",
    ) || eq_lower(ext, "ico") || eq_lower(ext, "heic") || eq_lower(ext, "heif")
}

/// The supported image extensions, in their canonical lowercase form.
pub fn supported_extensions() -> (r: Vec<String>)
    ensures
        r.deep_view() == seq![
            "jpg"@,
            "jpeg"@,
            "png"@,
            "gif"@,
            "bmp"@,
            "webp"@,
            "tiff"@,
            "tif"@,
            "ico"@,
            "heic"@,
            "heif"@,
        ],
{
    let mut r: Vec<String> = Vec::new();
    r.push(String::from_str("jpg"));
    r.push(String::from_str("jpeg"));
    r.push(String::from_str("png"));
    r.push(String::from_str("gif"));
    r.push(String::from_str("bmp"));
    r.push(String::from_str("webp"));
    r.push(String::from_str("tiff"));
    r.push(String::from_str("tif"));
    r.push(String::from_str("ico"));
    r.push(String::from_str("heic"));
    r.push(String::from_str("heif"));
    proof {
        assert(r.deep_view() =~= seq![
            "jpg"@,
            "jpeg"@,
            "png"@,
            "gif"@,
            "bmp"@,
            "webp"@,
            "tiff"@,
            "tif"@,
            "ico"@,
            "heic"@,
            "heif"@,
        ]);
    }
    r
}

} // verus!
