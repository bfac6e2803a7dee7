//! Deterministic truncation of text to a line ceiling and a byte ceiling,
//! from the head or from the tail, without ever splitting a multi-byte
//! character.

use crate::render::{dec_chars, u64_to_string};
use crate::text::{
    count_lines, find_nl, lemma_boundary_in_suffix, lemma_line_bounds_are_boundaries,
    lemma_line_struct, lemma_next_boundary_props, lemma_num_lines_pos, line_end, line_seq,
    line_start, line_start_before, lines_count, next_boundary, nl_byte, num_lines, prefix_end,
    str_bytes, suffix_start,
};
use vstd::prelude::*;
use vstd::string::StrSliceExecFns;
use vstd::string::StringExecFns;
use vstd::string::StringSliceAdditionalSpecFns;
use vstd::utf8::*;

verus! {

/// Which ceiling cut the output short.
#[derive(Debug, Clone, Copy, PartialEq, Eq)]
pub enum TruncatedBy {
    Lines,
    Bytes,
}

/// Outcome of one truncation: the bounded content and an exact account of
/// what was kept and why.
#[derive(Debug, Clone)]
pub struct TruncationResult {
    pub content: String,
    pub truncated: bool,
    pub truncated_by: Option<TruncatedBy>,
    pub total_lines: usize,
    pub total_bytes: usize,
    pub output_lines: usize,
    pub output_bytes: usize,
    pub last_line_partial: bool,
    pub first_line_exceeds_limit: bool,
    pub max_lines: usize,
    pub max_bytes: usize,
}

/// Bookkeeping shared by head and tail truncation: the limits and totals are
/// reported faithfully, and the text is cut exactly when it is over either
/// ceiling.
pub open spec fn trunc_common(r: TruncationResult, b: Seq<u8>, max_lines: int, max_bytes: int) -> bool {
    &&& r.max_lines == max_lines
    &&& r.max_bytes == max_bytes
    &&& r.total_bytes == b.len()
    &&& r.total_lines == num_lines(b)
    &&& r.truncated == !(num_lines(b) <= max_lines && b.len() <= max_bytes)
    &&& (r.truncated <==> r.truncated_by is Some)
}

/// A text within both ceilings comes back byte-identical.
pub open spec fn trunc_unchanged(r: TruncationResult, s: &str) -> bool {
    &&& r.content@ == s@
    &&& r.output_lines == r.total_lines
    &&& r.output_bytes == r.total_bytes
    &&& !r.last_line_partial
    &&& !r.first_line_exceeds_limit
}

/// Bound a text to at most `max_lines` lines and `max_bytes` bytes, keeping
/// lines from the start.  Each kept line costs its byte length plus one
/// separator byte (none for the first); the first ceiling reached wins.
pub fn truncate_head(content: &str, max_lines: usize, max_bytes: usize) -> (r: TruncationResult)
    requires
        str_bytes(content).len() < usize::MAX,
    ensures
        trunc_common(r, str_bytes(content), max_lines as int, max_bytes as int),
        !r.truncated ==> trunc_unchanged(r, content),
        !r.last_line_partial,
        r.first_line_exceeds_limit <==> (r.truncated && line_end(str_bytes(content), 0)
            > max_bytes),
        r.first_line_exceeds_limit ==> r.content@.len() == 0 && r.output_lines == 0
            && r.output_bytes == 0 && r.truncated_by == Some(TruncatedBy::Bytes),
        r.truncated && !r.first_line_exceeds_limit ==> ({
            let b = str_bytes(content);
            let k = r.output_lines as int;
            &&& encode_utf8(r.content@) == b.subrange(0, prefix_end(b, k))
            &&& r.output_bytes == prefix_end(b, k)
            &&& r.output_bytes <= max_bytes
            &&& k <= max_lines
            &&& k < num_lines(b)
            &&& (r.truncated_by == Some(TruncatedBy::Lines) <==> k == max_lines)
            &&& (k < max_lines ==> r.truncated_by == Some(TruncatedBy::Bytes) && prefix_end(
                b,
                k + 1,
            ) > max_bytes)
        }),
{
    proof {
        encode_utf8_valid_utf8(content@);
        lemma_num_lines_pos(str_bytes(content), 0);
    }
    let ghost b = str_bytes(content);
    let bytes = content.as_bytes();
    let n = bytes.len();
    let total_lines = count_lines(bytes);
    if total_lines <= max_lines && n <= max_bytes {
        return TruncationResult {
            content: content.to_owned(),
            truncated: false,
            truncated_by: None,
            total_lines,
            total_bytes: n,
            output_lines: total_lines,
            output_bytes: n,
            last_line_partial: false,
            first_line_exceeds_limit: false,
            max_lines,
            max_bytes,
        };
    }
    let first_end = find_nl(bytes, 0);
    if first_end > max_bytes {
        return TruncationResult {
            content: String::new(),
            truncated: true,
            truncated_by: Some(TruncatedBy::Bytes),
            total_lines,
            total_bytes: n,
            output_lines: 0,
            output_bytes: 0,
            last_line_partial: false,
            first_line_exceeds_limit: true,
            max_lines,
            max_bytes,
        };
    }
    let mut taken: usize = 0;
    let mut end_pos: usize = 0;
    let mut pos: usize = 0;
    let mut by_lines: bool = false;
    loop
        invariant_except_break
            !by_lines,
        invariant
            n == b.len() < usize::MAX,
            bytes@ == b,
            total_lines == num_lines(b),
            !(total_lines <= max_lines && n <= max_bytes),
            taken <= max_lines,
            taken < total_lines,
            end_pos == prefix_end(b, taken as int),
            end_pos <= max_bytes,
            end_pos <= n,
            pos == line_start(b, taken as int),
            pos <= n,
        ensures
            n == b.len(),
            taken <= max_lines,
            taken < total_lines == num_lines(b),
            end_pos == prefix_end(b, taken as int),
            end_pos <= max_bytes,
            end_pos <= n,
            by_lines ==> taken == max_lines,
            !by_lines ==> taken < max_lines && prefix_end(b, taken as int + 1) > max_bytes,
        decreases max_lines - taken,
    {
        if taken >= max_lines {
            by_lines = true;
            break ;
        }
        proof {
            lemma_line_struct(b, taken as int);
        }
        let e = find_nl(bytes, pos);
        let line_len = e - pos;
        let sep: usize = if taken > 0 {
            1
        } else {
            0
        };
        proof {
            // the start of the accepted prefix plus the separator is where
            // this line begins
            if taken > 0 {
                assert(pos == end_pos + 1);
            }
        }
        if line_len + sep > max_bytes - end_pos {
            proof {
                assert(prefix_end(b, taken as int + 1) == e);
            }
            break ;
        }
        proof {
            // the line just accepted cannot be the last: that would mean the
            // whole text fits both ceilings, against the branch we are in
            if e == n {
                assert(taken as int == num_lines(b) - 1);
                assert(false);
            }
        }
        end_pos = e;
        taken = taken + 1;
        pos = e + 1;
    }
    proof {
        if taken > 0 {
            lemma_line_bounds_are_boundaries(b, taken as int - 1);
        }
    }
    let (head, _rest) = content.split_at(end_pos);
    TruncationResult {
        content: head.to_owned(),
        truncated: true,
        truncated_by: if by_lines {
            Some(TruncatedBy::Lines)
        } else {
            Some(TruncatedBy::Bytes)
        },
        total_lines,
        total_bytes: n,
        output_lines: taken,
        output_bytes: end_pos,
        last_line_partial: false,
        first_line_exceeds_limit: false,
        max_lines,
        max_bytes,
    }
}

/// Everything tail truncation promises of its result, over the text's
/// characters and bytes; shared with the shell-output assembler.
pub open spec fn tail_post(r: TruncationResult, s: Seq<char>, max_lines: int, max_bytes: int) -> bool {
    let b = encode_utf8(s);
    &&& trunc_common(r, b, max_lines, max_bytes)
    &&& (!r.truncated ==> r.content@ == s && r.output_lines == r.total_lines && r.output_bytes
        == r.total_bytes && !r.last_line_partial && !r.first_line_exceeds_limit)
    &&& !r.first_line_exceeds_limit
    &&& (r.truncated && !r.last_line_partial ==> ({
        let k = r.output_lines as int;
        &&& encode_utf8(r.content@) == b.subrange(suffix_start(b, k), b.len() as int)
        &&& r.output_bytes == b.len() - suffix_start(b, k)
        &&& r.output_bytes <= max_bytes
        &&& k <= max_lines
        &&& k < num_lines(b)
        &&& (r.truncated_by == Some(TruncatedBy::Lines) <==> k == max_lines)
        &&& (k < max_lines ==> r.truncated_by == Some(TruncatedBy::Bytes) && b.len()
            - suffix_start(b, k + 1) > max_bytes)
    }))
    &&& (r.last_line_partial ==> ({
        let ps = next_boundary(b, b.len() - max_bytes);
        &&& r.truncated
        &&& r.truncated_by == Some(TruncatedBy::Bytes)
        &&& r.output_lines == 1
        &&& max_bytes > 0
        &&& max_lines >= 1
        &&& b.len() - suffix_start(b, 1) > max_bytes
        &&& encode_utf8(r.content@) == b.subrange(ps, b.len() as int)
        &&& r.output_bytes == b.len() - ps
        &&& r.output_bytes <= max_bytes
    }))
    &&& (r.truncated && max_lines >= 1 && max_bytes > 0 && b.len() - suffix_start(b, 1)
        > max_bytes ==> r.last_line_partial)
}

/// Bound a text to at most `max_lines` lines and `max_bytes` bytes, keeping
/// lines from the end.  When not even the final line fits the byte ceiling,
/// a character-boundary-safe byte suffix of that line is kept instead and
/// marked partial.
pub fn truncate_tail(content: &str, max_lines: usize, max_bytes: usize) -> (r: TruncationResult)
    requires
        str_bytes(content).len() < usize::MAX,
    ensures
        tail_post(r, content@, max_lines as int, max_bytes as int),
{
    proof {
        encode_utf8_valid_utf8(content@);
        lemma_num_lines_pos(str_bytes(content), 0);
    }
    let ghost b = str_bytes(content);
    let bytes = content.as_bytes();
    let n = bytes.len();
    let total_lines = count_lines(bytes);
    if total_lines <= max_lines && n <= max_bytes {
        return TruncationResult {
            content: content.to_owned(),
            truncated: false,
            truncated_by: None,
            total_lines,
            total_bytes: n,
            output_lines: total_lines,
            output_bytes: n,
            last_line_partial: false,
            first_line_exceeds_limit: false,
            max_lines,
            max_bytes,
        };
    }
    let mut taken: usize = 0;
    let mut start: usize = n;
    let mut by_lines: bool = false;
    loop
        invariant_except_break
            !by_lines,
        invariant
            n == b.len() < usize::MAX,
            bytes@ == b,
            total_lines == num_lines(b),
            !(total_lines <= max_lines && n <= max_bytes),
            taken <= max_lines,
            taken < total_lines,
            start == suffix_start(b, taken as int),
            start <= n,
            n - start <= max_bytes,
        ensures
            n == b.len(),
            taken <= max_lines,
            taken < total_lines == num_lines(b),
            start == suffix_start(b, taken as int),
            start <= n,
            n - start <= max_bytes,
            by_lines ==> taken == max_lines,
            !by_lines ==> taken < max_lines && n - suffix_start(b, taken as int + 1) > max_bytes,
        decreases max_lines - taken,
    {
        if taken >= max_lines {
            by_lines = true;
            break ;
        }
        let ghost cand: int = total_lines as int - taken as int - 1;
        proof {
            lemma_line_struct(b, cand);
            if taken > 0 {
                lemma_line_struct(b, cand + 1);
            }
        }
        let e = if taken == 0 {
            n
        } else {
            start - 1
        };
        let cand_start = line_start_before(bytes, e, Ghost(cand));
        let line_len = e - cand_start;
        let sep: usize = if taken > 0 {
            1
        } else {
            0
        };
        if line_len + sep > max_bytes - (n - start) {
            proof {
                assert(suffix_start(b, taken as int + 1) == cand_start);
            }
            break ;
        }
        proof {
            // accepting the very first line of the text would mean the whole
            // text fits both ceilings, against the branch we are in
            if cand == 0 {
                assert(n - line_start(b, 0) <= max_bytes);
                assert(false);
            }
        }
        start = cand_start;
        taken = taken + 1;
    }
    if !by_lines && taken == 0 && max_bytes > 0 {
        // not even the final line fits: keep a boundary-safe suffix of it
        proof {
            lemma_line_struct(b, total_lines as int - 1);
            assert(max_bytes < n);
            lemma_next_boundary_props(b, n as int - max_bytes as int);
        }
        let mut ps: usize = n - max_bytes;
        while !content.is_char_boundary(ps)
            invariant
                b == str_bytes(content),
                valid_utf8(b),
                n == b.len(),
                max_bytes < n,
                n - max_bytes <= ps <= next_boundary(b, n as int - max_bytes as int),
            decreases n - ps,
        {
            proof {
                lemma_next_boundary_props(b, n as int - max_bytes as int);
            }
            ps = ps + 1;
        }
        proof {
            lemma_next_boundary_props(b, n as int - max_bytes as int);
        }
        let (_front, kept) = content.split_at(ps);
        return TruncationResult {
            content: kept.to_owned(),
            truncated: true,
            truncated_by: Some(TruncatedBy::Bytes),
            total_lines,
            total_bytes: n,
            output_lines: 1,
            output_bytes: n - ps,
            last_line_partial: true,
            first_line_exceeds_limit: false,
            max_lines,
            max_bytes,
        };
    }
    proof {
        if taken > 0 {
            lemma_line_bounds_are_boundaries(b, total_lines as int - taken as int);
        } else {
            is_char_boundary_start_end_of_seq(b);
        }
        // this exit never hides a partial case: with positive ceilings, a
        // final line over the byte budget forces the partial branch
        if max_lines >= 1 && max_bytes > 0 && b.len() - suffix_start(b, 1) > max_bytes {
            if taken >= 1 {
                // the accepted suffix contains the final line, and it fit
                lemma_line_struct(b, total_lines as int - 1);
                lemma_line_struct(b, total_lines as int - taken as int);
                crate::text::lemma_line_start_mono(
                    b,
                    total_lines as int - taken as int,
                    total_lines as int - 1,
                );
                assert(false);
            } else {
                assert(by_lines);
                assert(false);
            }
        }
    }
    let (_front, kept) = content.split_at(start);
    TruncationResult {
        content: kept.to_owned(),
        truncated: true,
        truncated_by: if by_lines {
            Some(TruncatedBy::Lines)
        } else {
            Some(TruncatedBy::Bytes)
        },
        total_lines,
        total_bytes: n,
        output_lines: taken,
        output_bytes: n - start,
        last_line_partial: false,
        first_line_exceeds_limit: false,
        max_lines,
        max_bytes,
    }
}

/// Keep a byte suffix of a string that fits `max_bytes`, cut only at a
/// character boundary; a string already within the budget is returned whole.
pub fn truncate_string_to_bytes_from_end(s: &str, max_bytes: usize) -> (r: String)
    requires
        str_bytes(s).len() < usize::MAX,
    ensures
        str_bytes(s).len() <= max_bytes ==> r@ == s@,
        str_bytes(s).len() > max_bytes ==> ({
            let b = str_bytes(s);
            let ps = next_boundary(b, b.len() - max_bytes);
            &&& encode_utf8(r@) == b.subrange(ps, b.len() as int)
            &&& b.len() - ps <= max_bytes
        }),
{
    proof {
        encode_utf8_valid_utf8(s@);
    }
    let ghost b = str_bytes(s);
    let n = s.len();
    if n <= max_bytes {
        return s.to_owned();
    }
    proof {
        lemma_next_boundary_props(b, n as int - max_bytes as int);
    }
    let mut ps: usize = n - max_bytes;
    while !s.is_char_boundary(ps)
        invariant
            b == str_bytes(s),
            valid_utf8(b),
            n == b.len(),
            max_bytes < n,
            n - max_bytes <= ps <= next_boundary(b, n as int - max_bytes as int),
        decreases n - ps,
    {
        proof {
            lemma_next_boundary_props(b, n as int - max_bytes as int);
        }
        ps = ps + 1;
    }
    proof {
        lemma_next_boundary_props(b, n as int - max_bytes as int);
    }
    let (_front, kept) = s.split_at(ps);
    kept.to_owned()
}

/// One search-result line bounded to a character budget.
pub struct TruncateLineResult {
    pub text: String,
    pub was_truncated: bool,
}

/// Bound a single line to `max_chars` characters, appending an explicit
/// marker when anything was cut.
pub fn truncate_line(line: &str, max_chars: usize) -> (r: TruncateLineResult)
    ensures
        r.was_truncated == (line@.len() > max_chars),
        !r.was_truncated ==> r.text@ == line@,
        r.was_truncated ==> r.text@ == line@.take(max_chars as int) + "... [truncated]"@,
{
    let len = line.unicode_len();
    if len <= max_chars {
        return TruncateLineResult { text: line.to_owned(), was_truncated: false };
    }
    let prefix = line.substring_char(0, max_chars);
    let mut text = prefix.to_owned();
    text.append("... [truncated]");
    proof {
        assert(line@.subrange(0, max_chars as int) =~= line@.take(max_chars as int));
    }
    TruncateLineResult { text, was_truncated: true }
}

/// A line with its trailing carriage return removed, as the numbered view
/// renders it.
pub open spec fn strip_cr(l: Seq<u8>) -> Seq<u8> {
    if l.len() > 0 && l.last() == 13u8 {
        l.drop_last()
    } else {
        l
    }
}

/// The rendered form of line `k`: its one-based number, a tab, and the line.
pub open spec fn numbered_line(b: Seq<u8>, start: nat, k: int) -> Seq<char> {
    dec_chars((start + k) as nat) + seq!['\t'] + decode_utf8(strip_cr(line_seq(b, k)))
}

/// The first `k` rendered lines joined by newlines.
pub open spec fn numbered_join(b: Seq<u8>, start: nat, k: int) -> Seq<char>
    decreases k,
{
    if k <= 0 {
        Seq::empty()
    } else if k == 1 {
        numbered_line(b, start, 0)
    } else {
        numbered_join(b, start, k - 1) + seq!['\n'] + numbered_line(b, start, k - 1)
    }
}

/// Prefix every line with its line number and a tab, counting from
/// `start_line`; a trailing carriage return on a line is dropped.
#[verifier::rlimit(60)]
pub fn add_line_numbers(content: &str, start_line: usize) -> (r: String)
    requires
        str_bytes(content).len() < usize::MAX,
        start_line + num_lines(str_bytes(content)) <= usize::MAX,
    ensures
        r@ == numbered_join(str_bytes(content), start_line as nat, lines_count(
            str_bytes(content),
        ) as int),
{
    proof {
        encode_utf8_valid_utf8(content@);
        lemma_num_lines_pos(str_bytes(content), 0);
    }
    let ghost b = str_bytes(content);
    let bytes = content.as_bytes();
    let n = bytes.len();
    let total = count_lines(bytes);
    let lc: usize = if n == 0 {
        0
    } else if bytes[n - 1] == 10u8 {
        proof {
            // a trailing newline means the final segment is empty
            lemma_line_struct(b, total as int - 1);
        }
        total - 1
    } else {
        proof {
            lemma_line_struct(b, total as int - 1);
        }
        total
    };
    proof {
        assert(lc == lines_count(b));
        if n > 0 && b.last() == nl_byte() {
            // the final empty segment starts right after the last newline
            lemma_line_struct(b, total as int - 1);
            if total as int - 2 >= 0 {
                lemma_line_struct(b, total as int - 2);
            }
        }
    }
    let mut out = String::new();
    let mut pos: usize = 0;
    let mut k: usize = 0;
    while k < lc
        invariant
            b == str_bytes(content),
            valid_utf8(b),
            n == b.len() < usize::MAX,
            total == num_lines(b),
            lc == lines_count(b),
            lc <= total,
            start_line + total <= usize::MAX,
            bytes@ == b,
            0 <= k <= lc,
            k < lc ==> pos == line_start(b, k as int),
            out@ == numbered_join(b, start_line as nat, k as int),
        decreases lc - k,
    {
        proof {
            lemma_line_struct(b, k as int);
        }
        let e = find_nl(bytes, pos);
        let e2: usize = if e > pos && bytes[e - 1] == 13u8 {
            e - 1
        } else {
            e
        };
        if k > 0 {
            out.append("\n");
        }
        let num = u64_to_string((start_line + k) as u64);
        out.append(num.as_str());
        out.append("\t");
        proof {
            lemma_line_bounds_are_boundaries(b, k as int);
            lemma_boundary_in_suffix(b, pos as int, e2 as int - pos as int);
            if e2 < e {
                // the carriage return is a one-byte character, so cutting
                // just before it stays on a boundary
                is_char_boundary_iff_not_is_continuation_byte(b, e2 as int);
            }
        }
        let (_front, rest) = content.split_at(pos);
        let (line, _tail) = rest.split_at(e2 - pos);
        out.append(line);
        proof {
            reveal_strlit("\n");
            reveal_strlit("\t");
            assert(line.spec_bytes() =~= b.subrange(pos as int, e2 as int));
            assert(strip_cr(line_seq(b, k as int)) =~= b.subrange(pos as int, e2 as int));
            encode_utf8_decode_utf8(line@);
            assert(out@ == numbered_join(b, start_line as nat, k as int + 1));
        }
        k = k + 1;
        if e < n {
            pos = e + 1;
        }
        proof {
            if k < lc {
                assert(pos == line_start(b, k as int));
            }
        }
    }
    out
}

} // verus!
