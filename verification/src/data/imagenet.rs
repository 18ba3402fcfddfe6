//! The ImageNet sample images: JPEG files named `nXXXXXXXX_classname.JPEG`,
//! listed from a directory, labelled from the synset number in their names
//! and ordered by file name.
use vstd::prelude::*;

use crate::paths::{
    extension_bytes, file_name, file_name_bytes_of, find_last_dot, path_extension, path_stem,
    stem_bytes,
};
use super::layout::{interleaved_to_planar, planar_of_interleaved};
use super::{image_extension, image_extension_text, ImageLoadError};
use crate::codec::{decode_resized_rgb8, decoded_resized_rgb8};
use crate::paths::file_name_of;
use crate::text::{bytes_eq_ignore_ascii_case, bytes_le, eq_ignore_ascii_case, lex_le};
use vstd::utf8::encode_utf8;

verus! {

/// Number of ImageNet classes; labels are folded into `0..1000`.
pub const NUM_CLASSES: usize = 1000;

pub open spec fn is_ascii_digit(b: u8) -> bool {
    48 <= b <= 57
}

/// The number written by the decimal digits `s`.
pub open spec fn digits_value(s: Seq<u8>) -> nat
    decreases s.len(),
{
    if s.len() == 0 {
        0
    } else {
        digits_value(s.drop_last()) * 10 + (s.last() - 48) as nat
    }
}

/// Every byte of `s` is a decimal digit.
pub open spec fn all_digits(s: Seq<u8>) -> bool {
    forall|i: int| 0 <= i < s.len() ==> is_ascii_digit(#[trigger] s[i])
}

/// The text `s` without its leading `+`, if it has one.
pub open spec fn unsigned_digits(s: Seq<u8>) -> Seq<u8> {
    if s.len() > 0 && s[0] == 43 {
        s.drop_first()
    } else {
        s
    }
}

/// What `str::parse::<usize>` gives for the text `s`: an optional `+`, then
/// at least one decimal digit and nothing else, with a value that fits.
pub open spec fn parse_unsigned(s: Seq<u8>) -> Option<nat> {
    let digits = unsigned_digits(s);
    if digits.len() > 0 && all_digits(digits) && digits_value(digits) <= usize::MAX {
        Some(digits_value(digits))
    } else {
        None
    }
}

/// The label of an image whose file stem is `stem`: when the stem starts
/// with `n` followed by the eight digits of a synset number
/// (`n01440764_tench`), that number modulo 1000; otherwise 0.
pub open spec fn label_from_stem_spec(stem: Seq<u8>) -> usize {
    if stem.len() >= 9 && stem[0] == 110 {
        match parse_unsigned(stem.subrange(1, 9)) {
            Some(v) => (v % 1000) as usize,
            None => 0,
        }
    } else {
        0
    }
}

/// The label that the file name of `path` gives.
pub open spec fn label_for_path(path: Seq<char>) -> usize {
    match path_stem(path) {
        Some(stem) => label_from_stem_spec(stem),
        None => 0,
    }
}

pub open spec fn pow10(n: nat) -> nat
    decreases n,
{
    if n == 0 {
        1
    } else {
        10 * pow10((n - 1) as nat)
    }
}

proof fn lemma_digits_value_bound(s: Seq<u8>)
    requires
        forall|i: int| 0 <= i < s.len() ==> is_ascii_digit(s[i]),
    ensures
        digits_value(s) < pow10(s.len()),
        s.len() <= 9 ==> digits_value(s) < 1_000_000_000,
    decreases s.len(),
{
    if s.len() > 0 {
        lemma_digits_value_bound(s.drop_last());
    }
    if s.len() <= 9 {
        lemma_pow10_monotone(s.len(), 9);
        assert(pow10(9) == 1_000_000_000) by {
            reveal_with_fuel(pow10, 10);
        }
    }
}

proof fn lemma_pow10_monotone(a: nat, b: nat)
    requires
        a <= b,
    ensures
        pow10(a) <= pow10(b),
    decreases b,
{
    if a < b {
        lemma_pow10_monotone(a, (b - 1) as nat);
    }
}

/// Parses `s` as `str::parse::<usize>` does; `s` has at most nine bytes, so
/// the value always fits.
fn parse_short_unsigned(s: &[u8]) -> (r: Option<usize>)
    requires
        s@.len() <= 9,
    ensures
        match parse_unsigned(s@) {
            Some(v) => r == Some(v as usize),
            None => r is None,
        },
{
    let start: usize = if s.len() > 0 && s[0] == 43 {
        1
    } else {
        0
    };
    let ghost digits = unsigned_digits(s@);
    assert(digits =~= s@.subrange(start as int, s@.len() as int));
    if start == s.len() {
        return None;
    }
    let mut value: usize = 0;
    let mut i: usize = start;
    while i < s.len()
        invariant
            start <= i <= s@.len(),
            s@.len() <= 9,
            digits =~= s@.subrange(start as int, s@.len() as int),
            digits == unsigned_digits(s@),
            forall|k: int| start <= k < i ==> is_ascii_digit(s@[k]),
            value as nat == digits_value(s@.subrange(start as int, i as int)),
            value < 1_000_000_000,
        decreases s@.len() - i,
    {
        let b = s[i];
        if b < 48 || b > 57 {
            assert(digits[i - start] == b);
            assert(!is_ascii_digit(digits[i - start]));

            return None;
        }
        proof {
            assert(s@.subrange(start as int, i + 1).drop_last() =~= s@.subrange(
                start as int,
                i as int,
            ));
            lemma_digits_value_bound(s@.subrange(start as int, i + 1));
        }
        value = value * 10 + (b - 48) as usize;
        i = i + 1;
    }
    proof {
        lemma_digits_value_bound(digits);
    }
    Some(value)
}

proof fn lemma_last_three_digits(s: Seq<u8>)
    requires
        s.len() >= 3,
        all_digits(s),
    ensures
        digits_value(s) == digits_value(s.subrange(0, s.len() - 3)) * 1000 + (s[s.len() - 3] - 48)
            * 100 + (s[s.len() - 2] - 48) * 10 + (s[s.len() - 1] - 48),
{
    let n = s.len() as int;
    let a = s.drop_last();
    let b = a.drop_last();
    let c = b.drop_last();
    assert(c =~= s.subrange(0, n - 3));
    assert(is_ascii_digit(s[n - 1]) && is_ascii_digit(s[n - 2]) && is_ascii_digit(s[n - 3]));
    assert(digits_value(s) == digits_value(a) * 10 + (s[n - 1] - 48));
    assert(digits_value(a) == digits_value(b) * 10 + (s[n - 2] - 48));
    assert(digits_value(b) == digits_value(c) * 10 + (s[n - 3] - 48));
}

/// The label of a stem `n` + eight digits + anything is the number the last
/// three of those digits spell (the synset number modulo 1000), so below
/// 1000. A stem that does not start with `n`, is shorter than nine bytes, or
/// has something else than a digit in bytes 2..9 (byte 1 may also be `+`)
/// gets label 0.
pub proof fn lemma_synset_label(stem: Seq<u8>)
    ensures
        stem.len() < 9 || stem[0] != 110 ==> label_from_stem_spec(stem) == 0,
        stem.len() >= 9 && stem[0] == 110 && (forall|k: int| 1 <= k < 9 ==> 48 <= #[trigger] stem[k] <= 57)
            ==> label_from_stem_spec(stem) == (stem[6] - 48) * 100 + (stem[7] - 48) * 10 + (stem[8]
            - 48),
        stem.len() >= 9 && stem[0] == 110 && (exists|k: int| 2 <= k < 9 && !(48 <= #[trigger] stem[k] <= 57))
            ==> label_from_stem_spec(stem) == 0,
        stem.len() >= 9 && stem[0] == 110 && !(48 <= stem[1] <= 57) && stem[1] != 43 ==> label_from_stem_spec(stem) == 0,
{
    if stem.len() >= 9 && stem[0] == 110 {
        let sub = stem.subrange(1, 9);
        if forall|k: int| 1 <= k < 9 ==> 48 <= #[trigger] stem[k] <= 57 {
            assert(unsigned_digits(sub) == sub);
            assert(all_digits(sub));
            lemma_digits_value_bound(sub);
            lemma_last_three_digits(sub);
            let hi = digits_value(sub.subrange(0, 5));
            let lo = (stem[6] - 48) * 100 + (stem[7] - 48) * 10 + (stem[8] - 48);
            assert(0 <= lo < 1000);
            vstd::arithmetic::div_mod::lemma_fundamental_div_mod_converse(
                digits_value(sub) as int,
                1000,
                hi as int,
                lo as int,
            );
        }
        if exists|k: int| 2 <= k < 9 && !(48 <= #[trigger] stem[k] <= 57) {
            let k = choose|k: int| 2 <= k < 9 && !(48 <= #[trigger] stem[k] <= 57);
            let digits = unsigned_digits(sub);
            if sub[0] == 43 {
                assert(digits[k - 2] == stem[k]);
            } else {
                assert(digits[k - 1] == stem[k]);
            }
            assert(!all_digits(digits));
        }
        if !(48 <= stem[1] <= 57) && stem[1] != 43 {
            assert(unsigned_digits(sub)[0] == stem[1]);
        }
    }
}

/// A JPEG extension is `jpg` or `jpeg` with each letter in either case.
pub proof fn lemma_jpeg_extension(e: Seq<u8>)
    ensures
        is_jpeg_extension_spec(e) <==> (e.len() == 3 && (e[0] == 106 || e[0] == 74) && (e[1] == 112
            || e[1] == 80) && (e[2] == 103 || e[2] == 71)) || (e.len() == 4 && (e[0] == 106 || e[0]
            == 74) && (e[1] == 112 || e[1] == 80) && (e[2] == 101 || e[2] == 69) && (e[3] == 103
            || e[3] == 71)),
{
    let jpeg = seq![106u8, 112, 101, 103];
    let jpg = seq![106u8, 112, 103];
    if e.len() == 4 {
        if eq_ignore_ascii_case(e, jpeg) {
            assert(crate::text::ascii_lower(e[0]) == crate::text::ascii_lower(jpeg[0]));
            assert(crate::text::ascii_lower(e[1]) == crate::text::ascii_lower(jpeg[1]));
            assert(crate::text::ascii_lower(e[2]) == crate::text::ascii_lower(jpeg[2]));
            assert(crate::text::ascii_lower(e[3]) == crate::text::ascii_lower(jpeg[3]));
        }
    }
    if e.len() == 3 {
        if eq_ignore_ascii_case(e, jpg) {
            assert(crate::text::ascii_lower(e[0]) == crate::text::ascii_lower(jpg[0]));
            assert(crate::text::ascii_lower(e[1]) == crate::text::ascii_lower(jpg[1]));
            assert(crate::text::ascii_lower(e[2]) == crate::text::ascii_lower(jpg[2]));
        }
    }
}

/// The label of an image with file stem `stem` (bytes of its name before the
/// extension).
pub fn label_from_stem(stem: &[u8]) -> (r: usize)
    ensures
        r == label_from_stem_spec(stem@),
        r < NUM_CLASSES,
{
    if stem.len() >= 9 && stem[0] == 110 {
        let digits = crate::data::copy_range(stem, 1, 9);
        match parse_short_unsigned(digits.as_slice()) {
            Some(v) => v % 1000,
            None => 0,
        }
    } else {
        0
    }
}

/// The bytes of the stem of `path`, if it has a file name.
pub fn stem_of(path: &str) -> (r: Option<Vec<u8>>)
    ensures
        match r {
            Some(s) => path_stem(path@) == Some(s@),
            None => path_stem(path@) is None,
        },
{
    match file_name(path) {
        Some(name) => {
            let bytes = name.as_str().as_bytes();
            match find_last_dot(bytes) {
                Some(d) if d > 0 => {
                    proof {
                        crate::paths::lemma_last_dot_before(bytes@, bytes@.len() as int);
                    }
                    Some(crate::data::copy_range(bytes, 0, d))
                },
                _ => {
                    let whole = vstd::slice::slice_to_vec(bytes);
                    Some(whole)
                },
            }
        },
        None => None,
    }
}

/// The label that the file name of `path` gives: the synset number in the
/// name modulo 1000 (`n01440764_tench.JPEG` gives 764), or 0 when the name
/// does not start with one.
pub fn extract_label_from_filename(path: &str) -> (r: usize)
    ensures
        r == label_for_path(path@),
        r < NUM_CLASSES,
{
    match stem_of(path) {
        Some(stem) => label_from_stem(stem.as_slice()),
        None => 0,
    }
}

/// The order key of a path: the bytes of its file name, if it has one.
pub open spec fn name_key(path: Seq<char>) -> Option<Seq<u8>> {
    file_name_bytes_of(path)
}

/// The order of `Option<&OsStr>`: no name first, then names in byte order.
pub open spec fn key_le(a: Option<Seq<u8>>, b: Option<Seq<u8>>) -> bool {
    match a {
        None => true,
        Some(x) => match b {
            None => false,
            Some(y) => lex_le(x, y),
        },
    }
}

/// The paths are in order of their file names.
pub open spec fn sorted_by_name(s: Seq<Seq<char>>) -> bool {
    forall|i: int, j: int|
        0 <= i < j < s.len() ==> key_le(name_key(#[trigger] s[i]), name_key(#[trigger] s[j]))
}

/// Selects the paths whose file name is the key `k`.
pub open spec fn has_key(k: Option<Seq<u8>>) -> spec_fn(Seq<char>) -> bool {
    |p: Seq<char>| name_key(p) == k
}

/// `out` is `inp` sorted by file name, paths with the same file name keeping
/// their order (what a stable sort by file name gives).
pub open spec fn stable_sort_by_name(out: Seq<Seq<char>>, inp: Seq<Seq<char>>) -> bool {
    &&& sorted_by_name(out)
    &&& forall|k: Option<Seq<u8>>| #[trigger] out.filter(has_key(k)) == inp.filter(has_key(k))
}

/// Paths are ordered by the bytes of their file names, with a path that has
/// no file name before every other.
pub proof fn lemma_name_order(a: Seq<char>, b: Seq<char>)
    ensures
        name_key(a) == (match file_name_of(a) {
            Some(n) => Some(encode_utf8(n)),
            None => None::<Seq<u8>>,
        }),
        name_key(a) is None ==> key_le(name_key(a), name_key(b)),
        name_key(a) is Some && name_key(b) is None ==> !key_le(name_key(a), name_key(b)),
        match (name_key(a), name_key(b)) {
            (Some(x), Some(y)) => key_le(name_key(a), name_key(b)) == lex_le(x, y),
            _ => true,
        },
{
}

/// Selects the occurrences of `x`.
pub open spec fn same_path(x: Seq<char>) -> spec_fn(Seq<char>) -> bool {
    |y: Seq<char>| y == x
}

proof fn lemma_count_by_filter(s: Seq<Seq<char>>, x: Seq<char>)
    ensures
        s.to_multiset().count(x) == s.filter(same_path(x)).len(),
    decreases s.len(),
{
    if s.len() == 0 {
        reveal(Seq::filter);
        s.to_multiset_ensures();
        assert(!s.contains(x));
    } else {
        let t = s.drop_last();
        assert(t.push(s.last()) =~= s);
        lemma_count_by_filter(t, x);
        t.to_multiset_ensures();
        t.lemma_filter_push(s.last(), same_path(x));
    }
}

proof fn lemma_filter_within(s: Seq<Seq<char>>, p: spec_fn(Seq<char>) -> bool, q: spec_fn(Seq<char>) -> bool)
    requires
        forall|y: Seq<char>| #[trigger] q(y) ==> p(y),
    ensures
        s.filter(p).filter(q) == s.filter(q),
    decreases s.len(),
{
    if s.len() == 0 {
        reveal(Seq::filter);
        assert(s.filter(p) =~= Seq::<Seq<char>>::empty());
        assert(s.filter(p).filter(q) =~= s.filter(q));
    } else {
        let t = s.drop_last();
        let x = s.last();
        assert(t.push(x) =~= s);
        lemma_filter_within(t, p, q);
        t.lemma_filter_push(x, p);
        t.lemma_filter_push(x, q);
        t.filter(p).lemma_filter_push(x, q);
    }
}

/// Sorting by file name, stably, keeps every path as often as it was listed:
/// the result is a rearrangement of the input.
pub proof fn lemma_stable_sort_is_permutation(out: Seq<Seq<char>>, inp: Seq<Seq<char>>)
    requires
        stable_sort_by_name(out, inp),
    ensures
        out.to_multiset() == inp.to_multiset(),
        out.len() == inp.len(),
{
    assert forall|x: Seq<char>| #[trigger] out.to_multiset().count(x) == inp.to_multiset().count(x) by {
        let k = name_key(x);
        assert forall|y: Seq<char>| #[trigger] same_path(x)(y) implies has_key(k)(y) by {}
        lemma_filter_within(out, has_key(k), same_path(x));
        lemma_filter_within(inp, has_key(k), same_path(x));
        assert(out.filter(has_key(k)) == inp.filter(has_key(k)));
        lemma_count_by_filter(out, x);
        lemma_count_by_filter(inp, x);
    }
    assert(out.to_multiset() =~= inp.to_multiset());
    out.to_multiset_ensures();
    inp.to_multiset_ensures();
}

proof fn lemma_key_le_total(a: Option<Seq<u8>>, b: Option<Seq<u8>>)
    ensures
        key_le(a, b) || key_le(b, a),
{
    if a is Some && b is Some {
        crate::text::lemma_lex_le_total(a->0, b->0);
    }
}

proof fn lemma_key_le_reflexive(a: Option<Seq<u8>>)
    ensures
        key_le(a, a),
{
    if a is Some {
        crate::text::lemma_lex_le_reflexive(a->0);
    }
}

proof fn lemma_key_le_transitive(a: Option<Seq<u8>>, b: Option<Seq<u8>>, c: Option<Seq<u8>>)
    requires
        key_le(a, b),
        key_le(b, c),
    ensures
        key_le(a, c),
{
    if a is Some && b is Some && c is Some {
        crate::text::lemma_lex_le_transitive(a->0, b->0, c->0);
    }
}

proof fn lemma_filter_insert(s: Seq<Seq<char>>, pos: int, x: Seq<char>, pred: spec_fn(Seq<char>) -> bool)
    requires
        0 <= pos <= s.len(),
        pred(x) ==> forall|j: int| pos <= j < s.len() ==> !pred(#[trigger] s[j]),
    ensures
        s.insert(pos, x).filter(pred) == (if pred(x) {
            s.filter(pred).push(x)
        } else {
            s.filter(pred)
        }),
{
    broadcast use vstd::seq_lib::group_filter_ensures;

    let pre = s.subrange(0, pos);
    let suf = s.subrange(pos, s.len() as int);
    assert(s =~= pre + suf);
    assert(s.insert(pos, x) =~= pre.push(x) + suf);
    Seq::filter_distributes_over_add(pre, suf, pred);
    Seq::filter_distributes_over_add(pre.push(x), suf, pred);
    pre.lemma_filter_push(x, pred);
    if pred(x) {
        assert(suf.all(|y: Seq<char>| !pred(y)));
        suf.lemma_all_neg_filter_empty(pred);
        assert(suf.filter(pred) =~= Seq::<Seq<char>>::empty());
        assert(pre.filter(pred) + suf.filter(pred) =~= pre.filter(pred));
        assert(pre.filter(pred).push(x) + suf.filter(pred) =~= pre.filter(pred).push(x));
    }
}

/// A listed path with its order key.
struct Keyed {
    path: String,
    key: Option<Vec<u8>>,
    label: usize,
}

spec fn key_view(k: Option<Vec<u8>>) -> Option<Seq<u8>> {
    match k {
        Some(v) => Some(v@),
        None => None,
    }
}

spec fn keyed_paths(v: Seq<Keyed>) -> Seq<Seq<char>> {
    v.map_values(|e: Keyed| e.path@)
}

spec fn keys_match(v: Seq<Keyed>) -> bool {
    forall|i: int|
        0 <= i < v.len() ==> key_view((#[trigger] v[i]).key) == name_key(v[i].path@) && v[i].label
            == label_for_path(v[i].path@)
}

/// The order key of `path`.
fn name_key_of(path: &str) -> (r: Option<Vec<u8>>)
    ensures
        key_view(r) == name_key(path@),
{
    match file_name(path) {
        Some(name) => Some(vstd::slice::slice_to_vec(name.as_str().as_bytes())),
        None => None,
    }
}

fn key_le_exec(a: &Option<Vec<u8>>, b: &Option<Vec<u8>>) -> (r: bool)
    ensures
        r == key_le(key_view(*a), key_view(*b)),
{
    match a {
        None => true,
        Some(x) => match b {
            None => false,
            Some(y) => bytes_le(x.as_slice(), y.as_slice()),
        },
    }
}

/// Inserts `item` after every entry whose key is not greater than its own.
fn insert_by_name(out: &mut Vec<Keyed>, item: Keyed)
    requires
        sorted_by_name(keyed_paths(old(out)@)),
        keys_match(old(out)@),
        key_view(item.key) == name_key(item.path@),
        item.label == label_for_path(item.path@),
    ensures
        sorted_by_name(keyed_paths(final(out)@)),
        keys_match(final(out)@),
        forall|k: Option<Seq<u8>>|
            #[trigger] keyed_paths(final(out)@).filter(has_key(k)) == (if name_key(item.path@)
                == k {
                keyed_paths(old(out)@).filter(has_key(k)).push(item.path@)
            } else {
                keyed_paths(old(out)@).filter(has_key(k))
            }),
{
    let ghost old_paths = keyed_paths(out@);
    let ghost x = item.path@;
    let ghost kx = name_key(x);
    let mut pos: usize = 0;
    while pos < out.len()
        invariant
            pos <= out@.len(),
            out@ == old(out)@,
            old_paths == keyed_paths(out@),
            keys_match(out@),
            kx == key_view(item.key),
            forall|j: int| 0 <= j < pos ==> key_le(name_key(#[trigger] old_paths[j]), kx),
        ensures
            pos <= out@.len(),
            out@ == old(out)@,
            old_paths == keyed_paths(out@),
            keys_match(out@),
            forall|j: int| 0 <= j < pos ==> key_le(name_key(#[trigger] old_paths[j]), kx),
            pos < out@.len() ==> !key_le(name_key(old_paths[pos as int]), kx),
        decreases out@.len() - pos,
    {
        if !key_le_exec(&out[pos].key, &item.key) {
            break;
        }
        pos = pos + 1;
    }
    // every entry from `pos` on has a key greater than the item's
    assert forall|j: int| pos <= j < old_paths.len() implies !key_le(
        name_key(#[trigger] old_paths[j]),
        kx,
    ) && key_le(kx, name_key(old_paths[j])) by {
        assert(!key_le(name_key(old_paths[pos as int]), kx));
        lemma_key_le_total(name_key(old_paths[pos as int]), kx);
        if j > pos {
            if key_le(name_key(old_paths[j]), kx) {
                lemma_key_le_transitive(name_key(old_paths[pos as int]), name_key(old_paths[j]), kx);
            }
            lemma_key_le_total(name_key(old_paths[j]), kx);
        }
    }
    out.insert(pos, item);
    proof {
        let new_paths = keyed_paths(out@);
        assert(new_paths =~= old_paths.insert(pos as int, x));
        assert forall|i: int, j: int| 0 <= i < j < new_paths.len() implies key_le(
            name_key(#[trigger] new_paths[i]),
            name_key(#[trigger] new_paths[j]),
        ) by {
            if j < pos {
            } else if j == pos {
            } else if i < pos {
                lemma_key_le_transitive(name_key(old_paths[i]), kx, name_key(old_paths[j - 1]));
            } else if i == pos {
            } else {
            }
        }
        assert forall|k: Option<Seq<u8>>| #[trigger] new_paths.filter(has_key(k)) == (if kx == k {
            old_paths.filter(has_key(k)).push(x)
        } else {
            old_paths.filter(has_key(k))
        }) by {
            let pred = has_key(k);
            if pred(x) {
                assert forall|j: int| pos <= j < old_paths.len() implies !pred(#[trigger] old_paths[j]) by {
                    lemma_key_le_reflexive(kx);
                }
            }
            lemma_filter_insert(old_paths, pos as int, x, pred);
        }
    }
}

/// The path names a JPEG file: its extension is `jpeg` or `jpg`, in any case.
pub open spec fn is_jpeg_path(path: Seq<char>) -> bool {
    match path_extension(path) {
        Some(e) => is_jpeg_extension_spec(e),
        None => false,
    }
}

/// The texts of a list of paths.
pub open spec fn path_texts(v: Seq<String>) -> Seq<Seq<char>> {
    v.map_values(|p: String| p@)
}

/// The extension is `jpeg` or `jpg`, in any case.
pub open spec fn is_jpeg_extension_spec(e: Seq<u8>) -> bool {
    eq_ignore_ascii_case(e, seq![106u8, 112, 101, 103]) || eq_ignore_ascii_case(
        e,
        seq![106u8, 112, 103],
    )
}

/// Whether an extension (as bytes) is `jpeg` or `jpg`, in any case.
pub fn is_jpeg_extension(e: &[u8]) -> (r: bool)
    ensures
        r == is_jpeg_extension_spec(e@),
{
    let jpeg: Vec<u8> = vec![106u8, 112, 101, 103];
    let jpg: Vec<u8> = vec![106u8, 112, 103];
    assert(jpeg@ =~= seq![106u8, 112, 101, 103]);
    assert(jpg@ =~= seq![106u8, 112, 103]);
    bytes_eq_ignore_ascii_case(e, jpeg.as_slice()) || bytes_eq_ignore_ascii_case(e, jpg.as_slice())
}

/// Whether `path` names a JPEG file.
pub fn is_jpeg_file(path: &str) -> (r: bool)
    ensures
        r == is_jpeg_path(path@),
{
    match crate::paths::extension(path) {
        Some(e) => is_jpeg_extension(e.as_str().as_bytes()),
        None => false,
    }
}

/// The ImageNet sample images: their paths, in order of file name, and the
/// label read from each name.
pub struct ImageNetAttackDataset {
    image_paths: Vec<String>,
    labels: Vec<usize>,
}

impl ImageNetAttackDataset {
    #[verifier::type_invariant]
    spec fn well_formed(&self) -> bool {
        self.image_paths@.len() == self.labels@.len()
    }

    /// The paths of the images.
    pub closed spec fn image_paths(&self) -> Seq<Seq<char>> {
        path_texts(self.image_paths@)
    }

    /// The label of each image.
    pub closed spec fn labels(&self) -> Seq<usize> {
        self.labels@
    }

    /// Builds the dataset from the paths of a directory's entries, in the
    /// order in which the directory lists them: keeps the JPEG files, reads
    /// the label of each from its name, and orders them by file name (a
    /// stable sort).
    pub fn from_paths(paths: &Vec<String>) -> (d: Self)
        ensures
            stable_sort_by_name(
                d.image_paths(),
                path_texts(paths@).filter(|p: Seq<char>| is_jpeg_path(p)),
            ),
            d.labels().len() == d.image_paths().len(),
            forall|i: int|
                0 <= i < d.labels().len() ==> #[trigger] d.labels()[i] == label_for_path(
                    d.image_paths()[i],
                ),
    {
        let ghost inp = path_texts(paths@);
        let ghost jpeg = |p: Seq<char>| is_jpeg_path(p);
        let mut out: Vec<Keyed> = Vec::new();
        let mut i: usize = 0;
        assert(inp.subrange(0, 0).filter(jpeg) =~= Seq::<Seq<char>>::empty()) by {
            reveal(Seq::filter);
        }
        while i < paths.len()
            invariant
                inp == path_texts(paths@),
                jpeg == (|p: Seq<char>| is_jpeg_path(p)),
                i <= paths@.len(),
                sorted_by_name(keyed_paths(out@)),
                keys_match(out@),
                forall|k: Option<Seq<u8>>|
                    #[trigger] keyed_paths(out@).filter(has_key(k)) == inp.subrange(
                        0,
                        i as int,
                    ).filter(jpeg).filter(has_key(k)),
            decreases paths@.len() - i,
        {
            let path = &paths[i];
            assert(inp.subrange(0, i + 1) =~= inp.subrange(0, i as int).push(path@));
            proof {
                inp.subrange(0, i as int).lemma_filter_push(path@, jpeg);
            }
            if is_jpeg_file(path.as_str()) {
                let label = extract_label_from_filename(path.as_str());
                let key = name_key_of(path.as_str());
                let ghost before = keyed_paths(out@);
                insert_by_name(&mut out, Keyed { path: path.clone(), key, label });
                proof {
                    assert forall|k: Option<Seq<u8>>| #[trigger] keyed_paths(out@).filter(has_key(k))
                        == inp.subrange(0, i + 1).filter(jpeg).filter(has_key(k)) by {
                        inp.subrange(0, i as int).filter(jpeg).lemma_filter_push(path@, has_key(k));
                    }
                }
            }
            i = i + 1;
        }
        assert(inp.subrange(0, paths@.len() as int) =~= inp);
        let mut image_paths: Vec<String> = Vec::new();
        let mut labels: Vec<usize> = Vec::new();
        let mut j: usize = 0;
        while j < out.len()
            invariant
                j <= out@.len(),
                keys_match(out@),
                image_paths@.len() == j,
                labels@.len() == j,
                forall|m: int| 0 <= m < j ==> (#[trigger] image_paths@[m])@ == out@[m].path@,
                forall|m: int| 0 <= m < j ==> #[trigger] labels@[m] == out@[m].label,
            decreases out@.len() - j,
        {
            image_paths.push(out[j].path.clone());
            labels.push(out[j].label);
            j = j + 1;
        }
        assert(path_texts(image_paths@) =~= keyed_paths(out@));
        ImageNetAttackDataset { image_paths, labels }
    }

    /// Number of images.
    pub fn len(&self) -> (r: usize)
        ensures
            r == self.image_paths().len(),
            r == self.labels().len(),
    {
        proof {
            use_type_invariant(self);
        }
        self.image_paths.len()
    }

    /// The path and the label of the image at `index`, or `None` past the
    /// last image.
    pub fn get(&self, index: usize) -> (r: Option<(String, usize)>)
        ensures
            index < self.image_paths().len() <==> r is Some,
            r matches Some(e) ==> e.0@ == self.image_paths()[index as int] && e.1
                == self.labels()[index as int],
    {
        proof {
            use_type_invariant(self);
        }
        if index < self.image_paths.len() {
            Some((self.image_paths[index].clone(), self.labels[index]))
        } else {
            None
        }
    }
}

/// Side of the images the Inception V3 model takes, in pixels.
pub const IMAGE_SIDE: u32 = 299;

/// The pixels of an ImageNet image file: decoded, resized to exactly 299x299,
/// converted to 8-bit RGB, then laid out channel by channel (all red values,
/// then all green, then all blue, each row by row).
pub open spec fn imagenet_image(path: Seq<char>, file: Seq<u8>) -> Result<Seq<u8>, ImageLoadError> {
    match image_extension_text(path) {
        None => Err(ImageLoadError::Decode),
        Some(ext) => match decoded_resized_rgb8(ext, file, IMAGE_SIDE, IMAGE_SIDE) {
            None => Err(ImageLoadError::Decode),
            Some(px) => Ok(planar_of_interleaved(px, 299 * 299, 3)),
        },
    }
}

/// An ImageNet image file that decodes gives the 299x299 RGB pixels it is
/// resized to, channel by channel: value `c` of pixel `p` (row by row) is the
/// resized byte `3 * p + c`, found at `89401 * c + p` (89401 = 299 * 299). One that does not
/// decode (or names no format) is refused.
pub proof fn lemma_imagenet_image_file(path: Seq<char>, file: Seq<u8>)
    ensures
        image_extension_text(path) is None ==> imagenet_image(path, file) == Err::<Seq<u8>, ImageLoadError>(
            ImageLoadError::Decode,
        ),
        image_extension_text(path) matches Some(ext) ==> match decoded_resized_rgb8(ext, file, 299, 299) {
            None => imagenet_image(path, file) == Err::<Seq<u8>, ImageLoadError>(ImageLoadError::Decode),
            Some(d) => d.len() == 3 * 299 * 299 ==> (imagenet_image(path, file) matches Ok(px) && px.len()
                == 3 * 299 * 299 && forall|p: int, c: int|
                0 <= p < 89401 && 0 <= c < 3 ==> #[trigger] px[89401 * c + p] == d[3 * p + c]),
        },
{
    if let Some(ext) = image_extension_text(path) {
        if let Some(d) = decoded_resized_rgb8(ext, file, 299, 299) {
            if d.len() == 3 * 299 * 299 {
                let px = planar_of_interleaved(d, 299 * 299, 3);
                assert forall|p: int, c: int| 0 <= p < 89401 && 0 <= c < 3 implies #[trigger] px[89401
                    * c + p] == d[3 * p + c] by {
                    super::layout::lemma_layout_positions(d, 299 * 299, 3, p, c);
                }
            }
        }
    }
}

/// Loads an ImageNet image from the bytes of the file at `path`.
pub fn load_imagenet_image(path: &str, file: &[u8]) -> (r: Result<Vec<u8>, ImageLoadError>)
    ensures
        match r {
            Ok(px) => imagenet_image(path@, file@) == Ok::<Seq<u8>, ImageLoadError>(px@)
                && px@.len() == 3 * 299 * 299,
            Err(e) => imagenet_image(path@, file@) == Err::<Seq<u8>, ImageLoadError>(e),
        },
{
    let ext = match image_extension(path) {
        Some(e) => e,
        None => return Err(ImageLoadError::Decode),
    };
    match decode_resized_rgb8(ext.as_str(), file, IMAGE_SIDE, IMAGE_SIDE) {
        None => Err(ImageLoadError::Decode),
        Some(pixels) => Ok(interleaved_to_planar(pixels.as_slice(), 299 * 299, 3)),
    }
}

} // verus!
