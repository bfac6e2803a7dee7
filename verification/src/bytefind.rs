//! Substring search and non-overlapping replacement over UTF-8 bytes,
//! with the boundary facts that let a verified caller splice strings at
//! match positions.

use crate::text::{lemma_boundary_in_suffix, lemma_encode_utf8_concat, str_bytes};
use vstd::prelude::*;
use vstd::string::StrSliceExecFns;
use vstd::string::StringExecFns;
use vstd::string::StringSliceAdditionalSpecFns;
use vstd::utf8::*;

verus! {

/// The pattern occurs in `b` starting at `i`.
pub open spec fn is_match_at(b: Seq<u8>, pat: Seq<u8>, i: int) -> bool {
    &&& 0 <= i
    &&& i + pat.len() <= b.len()
    &&& b.subrange(i, i + pat.len()) == pat
}

/// Index of the first occurrence of `pat` at or after `from`, or `-1`.
pub open spec fn spec_find_sub(b: Seq<u8>, pat: Seq<u8>, from: int) -> int
    decreases b.len() - from,
    via spec_find_sub_decreases
{
    if from + pat.len() > b.len() {
        -1
    } else if is_match_at(b, pat, from) {
        from
    } else {
        spec_find_sub(b, pat, from + 1)
    }
}

#[via_fn]
proof fn spec_find_sub_decreases(b: Seq<u8>, pat: Seq<u8>, from: int) {
    if 0 <= from && from + pat.len() <= b.len() && pat.len() == 0 {
        // the empty pattern matches everywhere in range, so the scan stops
        assert(b.subrange(from, from + pat.len() as int) =~= pat);
    }
}

pub proof fn lemma_find_sub_props(b: Seq<u8>, pat: Seq<u8>, from: int)
    ensures
        ({
            let r = spec_find_sub(b, pat, from);
            &&& (r == -1 || (r >= from && is_match_at(b, pat, r)))
            &&& (r == -1 ==> forall|i: int| i >= from ==> !is_match_at(b, pat, i))
            &&& forall|i: int| from <= i < r ==> !is_match_at(b, pat, i)
        }),
    decreases b.len() - from,
{
    if from + pat.len() > b.len() {
        assert forall|i: int| i >= from implies !is_match_at(b, pat, i) by {}
    } else if is_match_at(b, pat, from) {
    } else {
        if 0 <= from && pat.len() == 0 {
            assert(b.subrange(from, from + pat.len() as int) =~= pat);
        }
        lemma_find_sub_props(b, pat, from + 1);
    }
}

/// Number of non-overlapping occurrences of `pat` at or after `from`,
/// scanning left to right.
pub open spec fn spec_count_matches(b: Seq<u8>, pat: Seq<u8>, from: int) -> nat
    decreases b.len() - from,
    via spec_count_matches_decreases
{
    let i = spec_find_sub(b, pat, from);
    if pat.len() == 0 || i < 0 {
        0
    } else {
        1 + spec_count_matches(b, pat, i + pat.len())
    }
}

#[via_fn]
proof fn spec_count_matches_decreases(b: Seq<u8>, pat: Seq<u8>, from: int) {
    lemma_find_sub_props(b, pat, from);
}

/// `b[from..]` with every non-overlapping occurrence of `pat` replaced by
/// `rep`, scanning left to right.
pub open spec fn spec_replace_from(b: Seq<u8>, pat: Seq<u8>, rep: Seq<u8>, from: int) -> Seq<u8>
    decreases b.len() - from,
    via spec_replace_from_decreases
{
    let i = spec_find_sub(b, pat, from);
    if pat.len() == 0 || i < 0 {
        b.subrange(from, b.len() as int)
    } else {
        b.subrange(from, i) + rep + spec_replace_from(b, pat, rep, i + pat.len())
    }
}

#[via_fn]
proof fn spec_replace_from_decreases(b: Seq<u8>, pat: Seq<u8>, rep: Seq<u8>, from: int) {
    lemma_find_sub_props(b, pat, from);
}

/// `b` with every non-overlapping occurrence of `pat` replaced by `rep`.
pub open spec fn spec_replace(b: Seq<u8>, pat: Seq<u8>, rep: Seq<u8>) -> Seq<u8> {
    spec_replace_from(b, pat, rep, 0)
}

/// Replacing by something no longer than the pattern never grows the text.
pub proof fn lemma_replace_len(b: Seq<u8>, pat: Seq<u8>, rep: Seq<u8>, from: int)
    requires
        rep.len() <= pat.len(),
        0 <= from <= b.len(),
    ensures
        spec_replace_from(b, pat, rep, from).len() <= b.len() - from,
    decreases b.len() - from,
{
    lemma_find_sub_props(b, pat, from);
    let i = spec_find_sub(b, pat, from);
    if pat.len() != 0 && i >= 0 {
        lemma_replace_len(b, pat, rep, i + pat.len());
    }
}

/// Replacing by something longer multiplies the length at worst by the
/// replacement's length.
pub proof fn lemma_replace_len_grow(b: Seq<u8>, pat: Seq<u8>, rep: Seq<u8>, from: int)
    requires
        pat.len() >= 1,
        rep.len() >= 1,
        0 <= from <= b.len(),
    ensures
        spec_replace_from(b, pat, rep, from).len() <= (b.len() - from) * rep.len(),
    decreases b.len() - from,
{
    lemma_find_sub_props(b, pat, from);
    let i = spec_find_sub(b, pat, from);
    if i >= 0 {
        lemma_replace_len_grow(b, pat, rep, i + pat.len());
        assert((i - from) + rep.len() + (b.len() - i - pat.len()) * rep.len() <= (b.len() - from)
            * rep.len()) by (nonlinear_arith)
            requires
                pat.len() >= 1,
                rep.len() >= 1,
                from <= i,
                i + pat.len() <= b.len(),
        ;
    } else {
        assert(b.len() - from <= (b.len() - from) * rep.len()) by (nonlinear_arith)
            requires
                rep.len() >= 1,
                from <= b.len(),
        ;
    }
}

/// A valid UTF-8 prefix of a valid UTF-8 sequence ends on a character
/// boundary.
pub proof fn lemma_prefix_boundary(t: Seq<u8>, k: int)
    requires
        valid_utf8(t),
        0 <= k <= t.len(),
        valid_utf8(t.subrange(0, k)),
    ensures
        is_char_boundary(t, k),
    decreases k,
{
    if k == 0 {
    } else {
        let p = t.subrange(0, k);
        // same first byte, hence the same scalar width for both sequences
        assert(p[0] == t[0]);
        let w = length_of_first_scalar(t);
        assert(length_of_first_scalar(p) == w);
        assert(w <= k);
        let t2 = pop_first_scalar(t);
        let p2 = pop_first_scalar(p);
        assert(p2 =~= t2.subrange(0, k - w));
        lemma_prefix_boundary(t2, k - w);
    }
}

/// Where a valid UTF-8 pattern matches inside valid UTF-8 text at a
/// character boundary, the end of the match is a character boundary too;
/// and every match of such a pattern starts on a boundary.
pub proof fn lemma_match_boundaries(b: Seq<u8>, pat: Seq<u8>, i: int)
    requires
        valid_utf8(b),
        valid_utf8(pat),
        pat.len() > 0,
        is_match_at(b, pat, i),
    ensures
        is_char_boundary(b, i),
        is_char_boundary(b, i + pat.len()),
{
    // the first byte of a valid scalar encoding is never a continuation byte
    assert(!is_continuation_byte(pat[0]));
    assert(b[i] == pat[0]);
    if i < b.len() {
        is_char_boundary_iff_not_is_continuation_byte(b, i);
    } else {
        is_char_boundary_start_end_of_seq(b);
    }
    lemma_boundary_in_suffix(b, i, pat.len() as int);
    let tail = b.subrange(i, b.len() as int);
    assert(tail.subrange(0, pat.len() as int) =~= pat);
    lemma_prefix_boundary(tail, pat.len() as int);
}

/// True when the pattern occurs in the slice starting at `i`.
pub fn matches_at(h: &[u8], pat: &[u8], i: usize) -> (r: bool)
    requires
        i + pat@.len() <= h@.len(),
    ensures
        r == is_match_at(h@, pat@, i as int),
{
    let n = h.len();
    let m = pat.len();
    let mut j: usize = 0;
    while j < m
        invariant
            0 <= j <= m,
            n == h@.len(),
            m == pat@.len(),
            i + m <= n,
            forall|t: int| 0 <= t < j ==> h@[i + t] == pat@[t],
        decreases m - j,
    {
        if h[i + j] != pat[j] {
            proof {
                assert(h@.subrange(i as int, i as int + m as int)[j as int] != pat@[j as int]);
            }
            return false;
        }
        j = j + 1;
    }
    proof {
        assert(h@.subrange(i as int, i as int + m as int) =~= pat@);
    }
    true
}

/// Index of the first occurrence of `pat` at or after `from`, if any.
pub fn find_sub(h: &[u8], pat: &[u8], from: usize) -> (r: Option<usize>)
    requires
        pat@.len() > 0,
    ensures
        r is Some ==> r.unwrap() == spec_find_sub(h@, pat@, from as int),
        r is None ==> spec_find_sub(h@, pat@, from as int) == -1,
{
    let n = h.len();
    let m = pat.len();
    if m > n {
        proof {
            lemma_find_sub_props(h@, pat@, from as int);
            assert(spec_find_sub(h@, pat@, from as int) == -1);
        }
        return None;
    }
    let mut i = from;
    while i <= n - m
        invariant
            1 <= m <= n,
            n == h@.len(),
            m == pat@.len(),
            from <= i,
            spec_find_sub(h@, pat@, from as int) == spec_find_sub(h@, pat@, i as int),
        ensures
            i > n - m,
            spec_find_sub(h@, pat@, from as int) == spec_find_sub(h@, pat@, i as int),
        decreases n - i,
    {
        if matches_at(h, pat, i) {
            return Some(i);
        }
        i = i + 1;
    }
    None
}

/// Count of non-overlapping occurrences of `pat` in `h`, together with the
/// index of the first occurrence (zero when there is none).
pub fn count_matches(h: &[u8], pat: &[u8]) -> (r: (usize, usize))
    requires
        pat@.len() > 0,
        h@.len() < usize::MAX,
    ensures
        r.0 == spec_count_matches(h@, pat@, 0),
        r.0 > 0 ==> r.1 == spec_find_sub(h@, pat@, 0),
{
    let n = h.len();
    let m = pat.len();
    let mut count: usize = 0;
    let mut first: usize = 0;
    let mut pos: usize = 0;
    loop
        invariant
            n == h@.len() < usize::MAX,
            m == pat@.len() > 0,
            pos <= n,
            count <= pos,
            spec_count_matches(h@, pat@, 0) == count + spec_count_matches(h@, pat@, pos as int),
            count > 0 ==> first == spec_find_sub(h@, pat@, 0),
            count == 0 ==> pos == 0,
        ensures
            count == spec_count_matches(h@, pat@, 0),
            count > 0 ==> first == spec_find_sub(h@, pat@, 0),
        decreases n - pos,
    {
        proof {
            lemma_find_sub_props(h@, pat@, pos as int);
        }
        match find_sub(h, pat, pos) {
            None => {
                break ;
            },
            Some(i) => {
                if count == 0 {
                    first = i;
                }
                count = count + 1;
                pos = i + m;
            },
        }
    }
    (count, first)
}

/// `s` with every non-overlapping occurrence of `pat` replaced by `rep`,
/// scanning left to right.
pub fn replace_str(s: &str, pat: &str, rep: &str) -> (r: String)
    requires
        str_bytes(pat).len() > 0,
        str_bytes(s).len() < usize::MAX,
    ensures
        encode_utf8(r@) == spec_replace(str_bytes(s), str_bytes(pat), str_bytes(rep)),
{
    proof {
        encode_utf8_valid_utf8(s@);
        encode_utf8_valid_utf8(pat@);
        encode_utf8_valid_utf8(rep@);
    }
    let ghost b = str_bytes(s);
    let ghost pb = str_bytes(pat);
    let ghost rb = str_bytes(rep);
    let bytes = s.as_bytes();
    let patb = pat.as_bytes();
    let n = bytes.len();
    let m = patb.len();
    let mut out = String::new();
    let mut pos: usize = 0;
    loop
        invariant_except_break
            encode_utf8(out@) + spec_replace_from(b, pb, rb, pos as int) == spec_replace(b, pb, rb),
        invariant
            b == str_bytes(s),
            pb == str_bytes(pat),
            rb == str_bytes(rep),
            valid_utf8(b),
            valid_utf8(pb),
            bytes@ == b,
            patb@ == pb,
            n == b.len() < usize::MAX,
            m == pb.len() > 0,
            pos <= n,
            is_char_boundary(b, pos as int),
        ensures
            encode_utf8(out@) == spec_replace(b, pb, rb),
        decreases n - pos,
    {
        proof {
            lemma_find_sub_props(b, pb, pos as int);
        }
        match find_sub(bytes, patb, pos) {
            None => {
                let ghost before = out@;
                let (_front, restp) = s.split_at(pos);
                out.append(restp);
                proof {
                    lemma_encode_utf8_concat(before, restp@);
                    assert(restp.spec_bytes() =~= b.subrange(pos as int, n as int));
                    assert(encode_utf8(out@) =~= spec_replace(b, pb, rb));
                }
                break ;
            },
            Some(i) => {
                proof {
                    lemma_match_boundaries(b, pb, i as int);
                    lemma_boundary_in_suffix(b, pos as int, i as int - pos as int);
                }
                let ghost before = out@;
                let (_front, restp) = s.split_at(pos);
                let (gap, _tail) = restp.split_at(i - pos);
                out.append(gap);
                out.append(rep);
                proof {
                    lemma_encode_utf8_concat(before, gap@);
                    lemma_encode_utf8_concat(before + gap@, rep@);
                    assert(gap.spec_bytes() =~= b.subrange(pos as int, i as int));
                    assert(encode_utf8(out@) + spec_replace_from(b, pb, rb, i + m) =~= spec_replace(
                        b,
                        pb,
                        rb,
                    ));
                }
                pos = i + m;
            },
        }
    }
    out
}

} // verus!
