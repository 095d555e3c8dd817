//! Discovery of sidecar files: metadata files that travel with an
//! image and share its name.
//!
//! For an image `dir/name.ext` the sidecars looked for are, per
//! sidecar extension: `dir/name.xmp` (and uppercase `dir/name.XMP`),
//! and the full-name form `dir/name.ext.xmp` that some photo exports
//! use.  Which of these actually exist is a question for the
//! filesystem, so the caller passes the paths that exist; the matching
//! rule itself is pure.

use vstd::prelude::*;
use vstd::string::StrSliceExecFns;
use vstd::string::StringExecFns;
use crate::hashing::str_eq;

verus! {

/// The last position strictly below `upto` where `c` occurs in `s`,
/// or minus one when there is none.
pub open spec fn last_pos(s: Seq<char>, c: char, upto: int) -> int
    decreases upto,
{
    if upto <= 0 {
        -1
    } else if s[upto - 1] == c {
        upto - 1
    } else {
        last_pos(s, c, upto - 1)
    }
}

/// The directory part of a path, up to and including the last slash;
/// empty for a bare file name.
pub open spec fn spec_dir_prefix(path: Seq<char>) -> Seq<char> {
    path.subrange(0, last_pos(path, '/', path.len() as int) + 1)
}

/// The file-name part of a path: everything after the last slash.
pub open spec fn spec_file_name(path: Seq<char>) -> Seq<char> {
    path.subrange(last_pos(path, '/', path.len() as int) + 1, path.len() as int)
}

/// The stem of a path: the file name up to its last dot.  A dot at the
/// very start of the file name marks a hidden file, not an extension,
/// and stays part of the stem.
pub open spec fn spec_stem(path: Seq<char>) -> Seq<char> {
    let name_start = last_pos(path, '/', path.len() as int) + 1;
    let dot = last_pos(path, '.', path.len() as int);
    if dot > name_start {
        path.subrange(name_start, dot)
    } else {
        path.subrange(name_start, path.len() as int)
    }
}

/// Whether `paths` holds `p`.
pub open spec fn spec_path_present(paths: Seq<Seq<char>>, p: Seq<char>) -> bool {
    exists|i: int| 0 <= i < paths.len() && (#[trigger] paths[i]) == p
}

/// The sidecars found for one sidecar extension: the stem form in
/// lowercase, else the stem form in uppercase, else the full-name
/// form; nothing when none of the three exists.
pub open spec fn spec_sidecars_for_ext(
    path: Seq<char>,
    existing: Seq<Seq<char>>,
    lower: Seq<char>,
    upper: Seq<char>,
) -> Seq<Seq<char>> {
    let by_stem = spec_dir_prefix(path) + spec_stem(path) + "."@ + lower;
    let by_stem_upper = spec_dir_prefix(path) + spec_stem(path) + "."@ + upper;
    let by_full_name = spec_dir_prefix(path) + spec_file_name(path) + "."@ + lower;
    if spec_path_present(existing, by_stem) {
        seq![by_stem]
    } else if spec_path_present(existing, by_stem_upper) {
        seq![by_stem_upper]
    } else if spec_path_present(existing, by_full_name) {
        seq![by_full_name]
    } else {
        Seq::empty()
    }
}

/// All sidecars of an image path among the existing paths, in the
/// fixed extension order.
pub open spec fn spec_find_sidecars(path: Seq<char>, existing: Seq<Seq<char>>) -> Seq<Seq<char>> {
    spec_sidecars_for_ext(path, existing, "xmp"@, "XMP"@) + spec_sidecars_for_ext(
        path,
        existing,
        "aae"@,
        "AAE"@,
    ) + spec_sidecars_for_ext(path, existing, "json"@, "JSON"@) + spec_sidecars_for_ext(
        path,
        existing,
        "thm"@,
        "THM"@,
    )
}

fn find_last(s: &str, c: char) -> (r: Option<usize>)
    ensures
        match r {
            Some(i) => i == last_pos(s@, c, s@.len() as int) && i < s@.len(),
            None => last_pos(s@, c, s@.len() as int) == -1,
        },
{
    let n = s.unicode_len();
    let mut i: usize = n;
    while i > 0
        invariant
            i <= n,
            n == s@.len(),
            last_pos(s@, c, n as int) == last_pos(s@, c, i as int),
        decreases i,
    {
        if s.get_char(i - 1) == c {
            return Some(i - 1);
        }
        i = i - 1;
    }
    None
}

fn path_present(existing: &Vec<String>, p: &String) -> (r: bool)
    ensures
        r == spec_path_present(existing.deep_view(), p@),
{
    let n = existing.len();
    let mut i: usize = 0;
    while i < n
        invariant
            i <= n,
            n == existing@.len(),
            forall|k: int| 0 <= k < i ==> existing.deep_view()[k] != p@,
        decreases n - i,
    {
        if str_eq(existing[i].as_str(), p.as_str()) {
            assert(existing.deep_view()[i as int] == p@);
            return true;
        }
        i = i + 1;
    }
    false
}

fn sidecar_for_ext(
    image_path: &String,
    existing: &Vec<String>,
    lower: &str,
    upper: &str,
) -> (r: Option<String>)
    ensures
        match r {
            Some(p) => spec_sidecars_for_ext(image_path@, existing.deep_view(), lower@, upper@)
                == seq![p@],
            None => spec_sidecars_for_ext(image_path@, existing.deep_view(), lower@, upper@)
                == Seq::<Seq<char>>::empty(),
        },
{
    let path = image_path.as_str();
    let n = path.unicode_len();
    let name_start: usize = match find_last(path, '/') {
        Some(i) => i + 1,
        None => 0,
    };
    let stem_end: usize = match find_last(path, '.') {
        Some(d) => {
            if d > name_start {
                d
            } else {
                n
            }
        },
        None => n,
    };
    let prefix = path.substring_char(0, name_start);
    let stem = path.substring_char(name_start, stem_end);
    let file_name = path.substring_char(name_start, n);
    proof {
        assert(prefix@ == spec_dir_prefix(image_path@));
        assert(stem@ == spec_stem(image_path@));
        assert(file_name@ == spec_file_name(image_path@));
    }
    let by_stem = prefix.to_owned().concat(stem).concat(".").concat(lower);
    if path_present(existing, &by_stem) {
        return Some(by_stem);
    }
    let by_stem_upper = prefix.to_owned().concat(stem).concat(".").concat(upper);
    if path_present(existing, &by_stem_upper) {
        return Some(by_stem_upper);
    }
    let by_full_name = prefix.to_owned().concat(file_name).concat(".").concat(lower);
    if path_present(existing, &by_full_name) {
        return Some(by_full_name);
    }
    None
}

/// Finds the sidecar files that belong to an image path among the
/// paths that exist: for each sidecar extension, the stem form
/// (lowercase, else uppercase), else the full-name form used by some
/// photo exports.
pub fn find_sidecars(image_path: &String, existing: &Vec<String>) -> (r: Vec<String>)
    ensures
        r.deep_view() == spec_find_sidecars(image_path@, existing.deep_view()),
{
    let mut r: Vec<String> = Vec::new();
    match sidecar_for_ext(image_path, existing, "xmp", "XMP") {
        Some(p) => r.push(p),
        None => (),
    }
    match sidecar_for_ext(image_path, existing, "aae", "AAE") {
        Some(p) => r.push(p),
        None => (),
    }
    match sidecar_for_ext(image_path, existing, "json", "JSON") {
        Some(p) => r.push(p),
        None => (),
    }
    match sidecar_for_ext(image_path, existing, "thm", "THM") {
        Some(p) => r.push(p),
        None => (),
    }
    proof {
        assert(r.deep_view() =~= spec_find_sidecars(image_path@, existing.deep_view()));
    }
    r
}

} // verus!
