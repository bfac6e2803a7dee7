//! Byte-level model of newline-separated text.
//!
//! Text is modelled as a byte sequence (the UTF-8 encoding of the string's
//! characters); lines are the maximal newline-free segments between `0x0A`
//! bytes.  `spec_find_nl` is the basic forward scan; `line_start`, `line_end`
//! and `prefix_end` derive the k-th line's extent from it, and `num_lines`
//! counts segments.

use vstd::prelude::*;
use vstd::string::StringSliceAdditionalSpecFns;
use vstd::utf8::*;

verus! {

/// The UTF-8 bytes of a string slice.
pub open spec fn str_bytes(s: &str) -> Seq<u8> {
    encode_utf8(s@)
}

/// The line separator byte (`'\n'`).
pub open spec fn nl_byte() -> u8 {
    10u8
}

/// Index of the first newline byte at or after `from`, or `b.len()` if none.
pub open spec fn spec_find_nl(b: Seq<u8>, from: int) -> int
    decreases b.len() - from,
{
    if from >= b.len() || from < 0 {
        b.len() as int
    } else if b[from] == nl_byte() {
        from
    } else {
        spec_find_nl(b, from + 1)
    }
}

/// Number of lines in `b[from..]`: one more than the newlines there.
pub open spec fn num_lines_from(b: Seq<u8>, from: int) -> nat
    decreases b.len() - from,
{
    if from >= b.len() {
        1
    } else {
        num_lines_from(b, from + 1) + (if b[from] == nl_byte() {
            1nat
        } else {
            0nat
        })
    }
}

/// Number of lines in `b`; the empty sequence holds one (empty) line.
pub open spec fn num_lines(b: Seq<u8>) -> nat {
    num_lines_from(b, 0)
}

/// Byte offset at which line `k` begins; `b.len() + 1` when there is no
/// line `k`.
pub open spec fn line_start(b: Seq<u8>, k: int) -> int
    decreases k,
{
    if k <= 0 {
        0
    } else {
        let e = spec_find_nl(b, line_start(b, k - 1));
        if e >= b.len() {
            b.len() + 1int
        } else {
            e + 1
        }
    }
}

/// Byte offset just past the content of line `k` (its newline excluded).
pub open spec fn line_end(b: Seq<u8>, k: int) -> int {
    spec_find_nl(b, line_start(b, k))
}

/// Byte length of the first `k` lines joined by single newlines: the offset
/// just past line `k - 1`.  Zero when `k` is zero.
pub open spec fn prefix_end(b: Seq<u8>, k: int) -> int {
    if k <= 0 {
        0
    } else {
        line_end(b, k - 1)
    }
}

/// Content of line `k` as bytes.
pub open spec fn line_seq(b: Seq<u8>, k: int) -> Seq<u8> {
    b.subrange(line_start(b, k), line_end(b, k))
}

pub proof fn lemma_find_nl_props(b: Seq<u8>, from: int)
    requires
        0 <= from <= b.len(),
    ensures
        from <= spec_find_nl(b, from) <= b.len(),
        spec_find_nl(b, from) < b.len() ==> b[spec_find_nl(b, from)] == nl_byte(),
        forall|i: int| from <= i < spec_find_nl(b, from) ==> b[i] != nl_byte(),
    decreases b.len() - from,
{
    if from < b.len() && b[from] != nl_byte() {
        lemma_find_nl_props(b, from + 1);
    }
}

/// Every stretch of text holds at least one line.
pub proof fn lemma_num_lines_pos(b: Seq<u8>, from: int)
    ensures
        num_lines_from(b, from) >= 1,
    decreases b.len() - from,
{
    if from < b.len() {
        lemma_num_lines_pos(b, from + 1);
    }
}

/// A text of `n` bytes holds at most `n + 1` lines.
pub proof fn lemma_num_lines_bound(b: Seq<u8>, from: int)
    requires
        0 <= from <= b.len(),
    ensures
        num_lines_from(b, from) <= b.len() - from + 1,
    decreases b.len() - from,
{
    if from < b.len() {
        lemma_num_lines_bound(b, from + 1);
    }
}

/// Skipping a newline-free stretch and its terminating newline removes
/// exactly one line from the count.
pub proof fn lemma_num_lines_skip(b: Seq<u8>, from: int)
    requires
        0 <= from <= b.len(),
    ensures
        spec_find_nl(b, from) < b.len() ==> num_lines_from(b, from) == 1 + num_lines_from(
            b,
            spec_find_nl(b, from) + 1,
        ),
        spec_find_nl(b, from) == b.len() ==> num_lines_from(b, from) == 1,
    decreases b.len() - from,
{
    if from < b.len() && b[from] != nl_byte() {
        lemma_num_lines_skip(b, from + 1);
    }
}

/// Structural facts about line `k`: where it starts and ends, how it is
/// delimited by newline bytes, and how many lines remain after it.
pub proof fn lemma_line_struct(b: Seq<u8>, k: int)
    requires
        0 <= k < num_lines(b),
    ensures
        0 <= line_start(b, k) <= line_end(b, k) <= b.len(),
        k > 0 ==> line_start(b, k) == prefix_end(b, k) + 1,
        k > 0 ==> b[line_start(b, k) - 1] == nl_byte(),
        forall|i: int| line_start(b, k) <= i < line_end(b, k) ==> b[i] != nl_byte(),
        k < num_lines(b) - 1 ==> line_end(b, k) < b.len() && b[line_end(b, k)] == nl_byte(),
        k == num_lines(b) - 1 ==> line_end(b, k) == b.len(),
        num_lines_from(b, line_start(b, k)) == num_lines(b) - k,
    decreases k,
{
    if k == 0 {
        lemma_find_nl_props(b, 0);
        lemma_num_lines_skip(b, 0);
        if spec_find_nl(b, 0) < b.len() {
            lemma_num_lines_pos(b, spec_find_nl(b, 0) + 1);
        }
    } else {
        lemma_line_struct(b, k - 1);
        let s0 = line_start(b, k - 1);
        let e0 = spec_find_nl(b, s0);
        lemma_find_nl_props(b, s0);
        lemma_num_lines_skip(b, s0);
        // line k - 1 is not the last line, so e0 lands on a newline.
        assert(num_lines_from(b, s0) == num_lines(b) - (k - 1));
        assert(e0 < b.len());
        lemma_find_nl_props(b, e0 + 1);
        lemma_num_lines_skip(b, e0 + 1);
        if spec_find_nl(b, e0 + 1) < b.len() {
            lemma_num_lines_pos(b, spec_find_nl(b, e0 + 1) + 1);
        }
    }
}

/// Later lines begin at later offsets.
pub proof fn lemma_line_start_mono(b: Seq<u8>, k1: int, k2: int)
    requires
        0 <= k1 <= k2 < num_lines(b),
    ensures
        line_start(b, k1) <= line_start(b, k2),
    decreases k2 - k1,
{
    if k1 < k2 {
        lemma_line_start_mono(b, k1, k2 - 1);
        lemma_line_struct(b, k2 - 1);
        lemma_line_struct(b, k2);
    }
}

/// The first `k` lines always fit inside the text, and taking one line more
/// never shortens the joined prefix (it lengthens it strictly past the
/// first line, whose leading separator costs a byte of its own).
pub proof fn lemma_prefix_end_mono(b: Seq<u8>, k: int)
    requires
        0 <= k < num_lines(b),
    ensures
        0 <= prefix_end(b, k) <= prefix_end(b, k + 1) <= b.len(),
        k > 0 ==> prefix_end(b, k) < prefix_end(b, k + 1),
    decreases k,
{
    lemma_line_struct(b, k);
    if k > 0 {
        lemma_line_struct(b, k - 1);
    }
}

/// Byte offset at which the suffix made of the last `k` lines begins;
/// `b.len()` when `k` is zero.
pub open spec fn suffix_start(b: Seq<u8>, k: int) -> int {
    if k <= 0 {
        b.len() as int
    } else {
        line_start(b, num_lines(b) - k)
    }
}

/// The first character boundary at or after `i`; `b.len()` if none earlier.
pub open spec fn next_boundary(b: Seq<u8>, i: int) -> int
    decreases b.len() - i,
{
    if i >= b.len() || i < 0 {
        b.len() as int
    } else if is_char_boundary(b, i) {
        i
    } else {
        next_boundary(b, i + 1)
    }
}

pub proof fn lemma_next_boundary_props(b: Seq<u8>, i: int)
    requires
        valid_utf8(b),
        0 <= i <= b.len(),
    ensures
        i <= next_boundary(b, i) <= b.len(),
        is_char_boundary(b, next_boundary(b, i)),
        forall|t: int| i <= t < next_boundary(b, i) ==> !is_char_boundary(b, t),
    decreases b.len() - i,
{
    is_char_boundary_start_end_of_seq(b);
    if i < b.len() && !is_char_boundary(b, i) {
        lemma_next_boundary_props(b, i + 1);
    }
}

/// A newline byte is a one-byte character, so both sides of it are
/// character boundaries of the surrounding valid UTF-8 text.
pub proof fn lemma_nl_is_boundary(b: Seq<u8>, i: int)
    requires
        valid_utf8(b),
        0 <= i < b.len(),
        b[i] == nl_byte(),
    ensures
        is_char_boundary(b, i),
        is_char_boundary(b, i + 1),
{
    is_char_boundary_iff_not_is_continuation_byte(b, i);
    if i + 1 == b.len() {
        is_char_boundary_start_end_of_seq(b);
    } else {
        valid_utf8_split(b, i);
        let tail = b.subrange(i, b.len() as int);
        // the newline alone is the first scalar of the tail, so the byte
        // after it starts a fresh scalar and cannot be a continuation byte
        assert(length_of_first_scalar(tail) == 1);
        assert(valid_utf8(pop_first_scalar(tail)));
        assert(pop_first_scalar(tail)[0] == b[i + 1]);
        assert(!is_continuation_byte(b[i + 1]));
        is_char_boundary_iff_not_is_continuation_byte(b, i + 1);
    }
}

/// UTF-8 encoding distributes over concatenation of character sequences.
pub proof fn lemma_encode_utf8_concat(x: Seq<char>, y: Seq<char>)
    ensures
        encode_utf8(x + y) == encode_utf8(x) + encode_utf8(y),
    decreases x.len(),
{
    if x.len() == 0 {
        assert(x + y =~= y);
        assert(encode_utf8(x) + encode_utf8(y) =~= encode_utf8(y));
    } else {
        assert((x + y).drop_first() =~= x.drop_first() + y);
        lemma_encode_utf8_concat(x.drop_first(), y);
        assert(encode_utf8(x + y) =~= encode_utf8(x) + encode_utf8(y));
    }
}

/// Character boundaries of a suffix taken at a character boundary are the
/// boundaries of the whole, shifted.
pub proof fn lemma_boundary_in_suffix(b: Seq<u8>, pos: int, j: int)
    requires
        valid_utf8(b),
        is_char_boundary(b, pos),
        0 <= pos <= b.len(),
        0 <= j <= b.len() - pos,
    ensures
        valid_utf8(b.subrange(pos, b.len() as int)),
        is_char_boundary(b.subrange(pos, b.len() as int), j) <==> is_char_boundary(b, pos + j),
{
    valid_utf8_split(b, pos);
    let tail = b.subrange(pos, b.len() as int);
    if j == tail.len() {
        is_char_boundary_start_end_of_seq(tail);
        is_char_boundary_start_end_of_seq(b);
    } else if j == 0 {
        is_char_boundary_start_end_of_seq(tail);
    } else {
        is_char_boundary_iff_not_is_continuation_byte(tail, j);
        is_char_boundary_iff_not_is_continuation_byte(b, pos + j);
    }
}

/// Line starts and ends computed by the scan are character boundaries.
pub proof fn lemma_line_bounds_are_boundaries(b: Seq<u8>, k: int)
    requires
        valid_utf8(b),
        0 <= k < num_lines(b),
    ensures
        is_char_boundary(b, line_start(b, k)),
        is_char_boundary(b, line_end(b, k)),
        is_char_boundary(b, prefix_end(b, k)),
{
    lemma_line_struct(b, k);
    is_char_boundary_start_end_of_seq(b);
    if k > 0 {
        lemma_line_struct(b, k - 1);
        lemma_nl_is_boundary(b, line_start(b, k) - 1);
    }
    if line_end(b, k) < b.len() {
        lemma_nl_is_boundary(b, line_end(b, k));
    }
    if k > 0 && prefix_end(b, k) < b.len() {
        lemma_nl_is_boundary(b, prefix_end(b, k));
    }
}

/// Index of the first newline byte at or after `from`, or the length of the
/// slice when there is none.
pub fn find_nl(bytes: &[u8], from: usize) -> (r: usize)
    requires
        from <= bytes@.len(),
    ensures
        r == spec_find_nl(bytes@, from as int),
        from <= r <= bytes@.len(),
{
    proof {
        lemma_find_nl_props(bytes@, from as int);
    }
    let n = bytes.len();
    let mut i = from;
    while i < n && bytes[i] != 10u8
        invariant
            from <= i <= n,
            n == bytes@.len(),
            spec_find_nl(bytes@, from as int) == spec_find_nl(bytes@, i as int),
        decreases n - i,
    {
        i = i + 1;
    }
    i
}

/// Walks backward from the end of line `k` to the offset where line `k`
/// begins.
pub fn line_start_before(bytes: &[u8], e: usize, Ghost(k): Ghost<int>) -> (r: usize)
    requires
        0 <= k < num_lines(bytes@),
        e == line_end(bytes@, k),
    ensures
        r == line_start(bytes@, k),
{
    proof {
        lemma_line_struct(bytes@, k);
    }
    let mut q = e;
    while q > 0 && bytes[q - 1] != 10u8
        invariant
            line_start(bytes@, k) <= q <= e,
            e == line_end(bytes@, k) <= bytes@.len(),
            0 <= k < num_lines(bytes@),
            forall|i: int| line_start(bytes@, k) <= i < line_end(bytes@, k) ==> bytes@[i]
                != nl_byte(),
            k > 0 ==> bytes@[line_start(bytes@, k) - 1] == nl_byte(),
            k == 0 ==> line_start(bytes@, k) == 0,
        decreases q,
    {
        q = q - 1;
    }
    q
}

/// Number of lines in the slice: the newline count plus one.
pub fn count_lines(bytes: &[u8]) -> (r: usize)
    requires
        bytes@.len() < usize::MAX,
    ensures
        r == num_lines(bytes@),
{
    let n = bytes.len();
    let mut count: usize = 0;
    let mut i: usize = 0;
    while i < n
        invariant
            0 <= i <= n,
            n == bytes@.len() < usize::MAX,
            count <= i,
            num_lines(bytes@) == count + num_lines_from(bytes@, i as int),
        decreases n - i,
    {
        if bytes[i] == 10u8 {
            count = count + 1;
        }
        i = i + 1;
    }
    count + 1
}

/// How many lines a rendered line view shows: a final empty segment after
/// a trailing newline is not rendered.
pub open spec fn lines_count(b: Seq<u8>) -> nat {
    if b.len() == 0 {
        0
    } else if b.last() == nl_byte() {
        (num_lines(b) - 1) as nat
    } else {
        num_lines(b)
    }
}

/// The lines of `s` as borrowed slices, split at newline bytes.
pub fn split_lines<'a>(s: &'a str) -> (r: Vec<&'a str>)
    requires
        str_bytes(s).len() < usize::MAX,
    ensures
        r@.len() == num_lines(str_bytes(s)),
        forall|k: int|
            0 <= k < r@.len() ==> str_bytes(#[trigger] r@[k]) == line_seq(str_bytes(s), k),
{
    proof {
        encode_utf8_valid_utf8(s@);
        lemma_num_lines_pos(str_bytes(s), 0);
    }
    let ghost b = str_bytes(s);
    let bytes = s.as_bytes();
    let n = bytes.len();
    let total = count_lines(bytes);
    let mut r: Vec<&str> = Vec::new();
    let mut pos: usize = 0;
    let mut k: usize = 0;
    while k < total
        invariant
            b == str_bytes(s),
            valid_utf8(b),
            bytes@ == b,
            n == b.len() < usize::MAX,
            total == num_lines(b),
            0 <= k <= total,
            r@.len() == k,
            k < total ==> pos == line_start(b, k as int),
            forall|j: int| 0 <= j < k ==> str_bytes(#[trigger] r@[j]) == line_seq(b, j),
        decreases total - k,
    {
        proof {
            lemma_line_struct(b, k as int);
            lemma_line_bounds_are_boundaries(b, k as int);
            lemma_boundary_in_suffix(
                b,
                pos as int,
                line_end(b, k as int) - line_start(b, k as int),
            );
        }
        let e = find_nl(bytes, pos);
        let (_front, rest) = s.split_at(pos);
        let (line, _tail) = rest.split_at(e - pos);
        proof {
            assert(line.spec_bytes() =~= line_seq(b, k as int));
        }
        r.push(line);
        k = k + 1;
        if e < n {
            pos = e + 1;
        }
        proof {
            if k < total {
                assert(pos == line_start(b, k as int));
            }
        }
    }
    r
}

/// The lines of `s` as rendered views show them: a final empty segment
/// after a trailing newline is dropped.
pub fn lines_vec<'a>(s: &'a str) -> (r: Vec<&'a str>)
    requires
        str_bytes(s).len() < usize::MAX,
    ensures
        r@.len() == lines_count(str_bytes(s)),
        forall|k: int|
            0 <= k < r@.len() ==> str_bytes(#[trigger] r@[k]) == line_seq(str_bytes(s), k),
{
    let ghost b = str_bytes(s);
    let mut v = split_lines(s);
    let bytes = s.as_bytes();
    let n = bytes.len();
    if n == 0 {
        v.clear();
    } else if bytes[n - 1] == 10u8 {
        proof {
            lemma_num_lines_pos(b, 0);
        }
        let _last = v.pop();
    }
    v
}

/// The byte offset at which each line begins.
pub fn line_offsets(s: &str) -> (r: Vec<usize>)
    requires
        str_bytes(s).len() < usize::MAX,
    ensures
        r@.len() == num_lines(str_bytes(s)),
        forall|k: int| 0 <= k < r@.len() ==> #[trigger] r@[k] == line_start(str_bytes(s), k),
{
    proof {
        encode_utf8_valid_utf8(s@);
        lemma_num_lines_pos(str_bytes(s), 0);
    }
    let ghost b = str_bytes(s);
    let bytes = s.as_bytes();
    let n = bytes.len();
    let total = count_lines(bytes);
    let mut r: Vec<usize> = Vec::new();
    let mut pos: usize = 0;
    let mut k: usize = 0;
    while k < total
        invariant
            b == str_bytes(s),
            bytes@ == b,
            n == b.len() < usize::MAX,
            total == num_lines(b),
            0 <= k <= total,
            r@.len() == k,
            k < total ==> pos == line_start(b, k as int),
            forall|j: int| 0 <= j < k ==> #[trigger] r@[j] == line_start(b, j),
        decreases total - k,
    {
        proof {
            lemma_line_struct(b, k as int);
        }
        r.push(pos);
        let e = find_nl(bytes, pos);
        k = k + 1;
        if e < n {
            pos = e + 1;
        }
        proof {
            if k < total {
                assert(pos == line_start(b, k as int));
            }
        }
    }
    r
}

/// A nonempty string has a nonempty encoding.
pub proof fn lemma_str_bytes_nonempty(s: Seq<char>)
    requires
        s.len() > 0,
    ensures
        encode_utf8(s).len() > 0,
{
    char_is_scalar(s[0]);
    assert(encode_utf8(s) == encode_scalar(s[0] as u32) + encode_utf8(s.drop_first()));
    assert(encode_scalar(s[0] as u32).len() >= 1);
}

/// Character-for-character equality of two string slices.
pub fn str_eq(a: &str, b: &str) -> (r: bool)
    ensures
        r == (a@ == b@),
{
    proof {
        encode_utf8_valid_utf8(a@);
        encode_utf8_valid_utf8(b@);
    }
    let ab = a.as_bytes();
    let bb = b.as_bytes();
    let n = ab.len();
    if n != bb.len() {
        proof {
            // unequal encodings force unequal character sequences
            if a@ == b@ {
                assert(str_bytes(a) == str_bytes(b));
            }
        }
        return false;
    }
    let mut i: usize = 0;
    while i < n
        invariant
            ab@ == str_bytes(a),
            bb@ == str_bytes(b),
            n == ab@.len() == bb@.len(),
            0 <= i <= n,
            forall|t: int| 0 <= t < i ==> ab@[t] == bb@[t],
        decreases n - i,
    {
        if ab[i] != bb[i] {
            proof {
                if a@ == b@ {
                    assert(str_bytes(a) == str_bytes(b));
                }
            }
            return false;
        }
        i = i + 1;
    }
    proof {
        assert(str_bytes(a) =~= str_bytes(b));
        encode_utf8_decode_utf8(a@);
        encode_utf8_decode_utf8(b@);
    }
    true
}

} // verus!
