//! File names, stems and extensions of paths, and lower-casing of text.
//!
//! The final component of a path comes from `std::path::Path::file_name` and
//! lower-casing from `str::to_lowercase`; both are trusted. The stem and the
//! extension of a file name are computed here as `Path::file_stem` and
//! `Path::extension` document them: the file name is split at its last `.`,
//! unless it has none or its only `.` is the first byte.
use vstd::prelude::*;
use vstd::string::*;
use vstd::utf8::*;

verus! {

/// What `std::path::Path::file_name` returns for a path, as text.
pub uninterp spec fn file_name_of(path: Seq<char>) -> Option<Seq<char>>;

/// What `str::to_lowercase` returns (full Unicode lower-casing).
pub uninterp spec fn lowercase_of(text: Seq<char>) -> Seq<char>;

/// Calls `std::path::Path::file_name` on `path`. Trusted: the contract only
/// ties the result to the name `file_name_of`; a component of a `&str` path
/// is always valid UTF-8, so the conversion back to text cannot fail.
#[verifier::external_body]
pub(crate) fn file_name(path: &str) -> (r: Option<String>)
    ensures
        match r {
            Some(name) => file_name_of(path@) == Some(name@),
            None => file_name_of(path@) is None,
        },
{
    std::path::Path::new(path).file_name().and_then(|n| n.to_str()).map(|n| n.to_string())
}

/// Calls `str::to_lowercase`. Trusted: the contract only ties the result to
/// the name `lowercase_of`.
#[verifier::external_body]
pub(crate) fn lowercase(text: &str) -> (r: String)
    ensures
        r@ == lowercase_of(text@),
{
    text.to_lowercase()
}

/// Index of the last `.` (byte 46) among the first `end` bytes of `f`, or -1.
pub open spec fn last_dot_before(f: Seq<u8>, end: int) -> int
    decreases end,
{
    if end <= 0 {
        -1
    } else if f[end - 1] == 46 {
        end - 1
    } else {
        last_dot_before(f, end - 1)
    }
}

/// Index of the last `.` of the file name `f`, or -1 when it has none.
pub open spec fn last_dot(f: Seq<u8>) -> int {
    last_dot_before(f, f.len() as int)
}

/// The extension of the file name `f`: what follows its last `.`, unless it
/// has no `.` or only a leading one.
pub open spec fn extension_bytes(f: Seq<u8>) -> Option<Seq<u8>> {
    if last_dot(f) <= 0 {
        None
    } else {
        Some(f.subrange(last_dot(f) + 1, f.len() as int))
    }
}

/// The stem of the file name `f`: what precedes its last `.`, or the whole
/// name when it has no `.` or only a leading one.
pub open spec fn stem_bytes(f: Seq<u8>) -> Seq<u8> {
    if last_dot(f) <= 0 {
        f
    } else {
        f.subrange(0, last_dot(f))
    }
}

/// The bytes of the file name of `path`, if it has one.
pub open spec fn file_name_bytes_of(path: Seq<char>) -> Option<Seq<u8>> {
    match file_name_of(path) {
        Some(n) => Some(encode_utf8(n)),
        None => None,
    }
}

/// The extension of `path` (`Path::extension`), as bytes.
pub open spec fn path_extension(path: Seq<char>) -> Option<Seq<u8>> {
    match file_name_of(path) {
        Some(n) => extension_bytes(encode_utf8(n)),
        None => None,
    }
}

/// The stem of `path` (`Path::file_stem`), as bytes.
pub open spec fn path_stem(path: Seq<char>) -> Option<Seq<u8>> {
    match file_name_of(path) {
        Some(n) => Some(stem_bytes(encode_utf8(n))),
        None => None,
    }
}

pub proof fn lemma_last_dot_before(f: Seq<u8>, end: int)
    requires
        0 <= end <= f.len(),
    ensures
        -1 <= last_dot_before(f, end) < end,
        last_dot_before(f, end) >= 0 ==> f[last_dot_before(f, end)] == 46,
        forall|k: int| last_dot_before(f, end) < k < end ==> f[k] != 46,
    decreases end,
{
    if end > 0 && f[end - 1] != 46 {
        lemma_last_dot_before(f, end - 1);
    }
}

/// A file name with an extension is its stem, a `.` and the extension; the
/// stem is not empty and the extension holds no `.`. A file name without one
/// is its own stem and has no `.` but possibly a leading one.
pub proof fn lemma_name_parts(f: Seq<u8>)
    ensures
        extension_bytes(f) matches Some(e) ==> {
            &&& f == stem_bytes(f) + seq![46u8] + e
            &&& stem_bytes(f).len() > 0
            &&& forall|k: int| 0 <= k < e.len() ==> #[trigger] e[k] != 46
        },
        extension_bytes(f) is None ==> {
            &&& stem_bytes(f) == f
            &&& forall|k: int| 0 < k < f.len() ==> #[trigger] f[k] != 46
        },
{
    lemma_last_dot_before(f, f.len() as int);
    let d = last_dot(f);
    if d > 0 {
        let e = f.subrange(d + 1, f.len() as int);
        assert(f =~= f.subrange(0, d) + seq![46u8] + e);
        assert forall|k: int| 0 <= k < e.len() implies #[trigger] e[k] != 46 by {
            assert(e[k] == f[d + 1 + k]);
        }
    }
}

/// Finds the last `.` of `f`.
pub fn find_last_dot(f: &[u8]) -> (r: Option<usize>)
    ensures
        match r {
            Some(i) => i as int == last_dot(f@),
            None => last_dot(f@) == -1,
        },
{
    let mut end = f.len();
    while end > 0
        invariant
            end <= f@.len(),
            last_dot_before(f@, end as int) == last_dot(f@),
        decreases end,
    {
        if f[end - 1] == 46 {
            return Some(end - 1);
        }
        end = end - 1;
    }
    None
}

/// Once a single-byte character starts at a character boundary, the next
/// index is a boundary too.
proof fn lemma_boundary_after_ascii(b: Seq<u8>, i: int)
    requires
        valid_utf8(b),
        0 <= i < b.len(),
        is_char_boundary(b, i),
        is_leading_byte_width_1(b[i]),
    ensures
        is_char_boundary(b, i + 1),
    decreases b.len(),
{
    reveal_with_fuel(is_char_boundary, 2);
    let l = length_of_first_scalar(b);
    let p = pop_first_scalar(b);
    if i == 0 {
        assert(l == 1);
    } else {
        assert(i >= l);
        assert(p[i - l] == b[i]);
        assert(p.len() < b.len());
        lemma_boundary_after_ascii(p, i - l);
    }
}

/// The extension of the file name `name` (`Path::extension` applied to a
/// path whose file name is `name`).
pub fn name_extension(name: &str) -> (r: Option<String>)
    ensures
        match r {
            Some(e) => extension_bytes(name.spec_bytes()) == Some(encode_utf8(e@)),
            None => extension_bytes(name.spec_bytes()) is None,
        },
{
    let bytes = name.as_bytes();
    let n = bytes.len();
    match find_last_dot(bytes) {
        Some(d) if d > 0 => {
            proof {
                lemma_last_dot_before(name.spec_bytes(), name.spec_bytes().len() as int);
                encode_utf8_valid_utf8(name@);
                is_char_boundary_iff_not_is_continuation_byte(name.spec_bytes(), d as int);
                lemma_boundary_after_ascii(name.spec_bytes(), d as int);
            }
            let (_, rest) = name.split_at(d + 1);
            let ext = rest.to_owned();
            Some(ext)
        },
        _ => None,
    }
}

/// The extension of `path`, as text.
pub fn extension(path: &str) -> (r: Option<String>)
    ensures
        match r {
            Some(e) => path_extension(path@) == Some(encode_utf8(e@)),
            None => path_extension(path@) is None,
        },
{
    match file_name(path) {
        Some(name) => name_extension(name.as_str()),
        None => None,
    }
}

} // verus!
