//! The shell supervisor's pure parts: merging streamed output lines in
//! arrival order, the capped live-view buffer, and assembly of the final
//! result text with its truncation and exit notices.

use crate::render::{dec_chars, dec_chars_signed, format_size, format_size_chars, i64_to_string, u64_to_string};
use crate::text::{line_start, lines_count, num_lines, str_bytes};
use crate::truncate::{
    tail_post, truncate_string_to_bytes_from_end, truncate_tail, TruncatedBy, TruncationResult,
};
use vstd::prelude::*;
use vstd::string::StrSliceExecFns;
use vstd::string::StringExecFns;
use vstd::utf8::*;

verus! {

/// Byte ceiling of the rolling live-view buffer.
pub const BASH_ROLLING_BUFFER_BYTES: usize = 100 * 1024;

/// A stream line appended to an accumulator, behind a newline separator
/// once the accumulator is nonempty.
pub open spec fn appended(acc: Seq<char>, line: Seq<char>) -> Seq<char> {
    if acc.len() == 0 {
        line
    } else {
        acc + seq!['\n'] + line
    }
}

/// The accumulator after a whole arrival sequence has been appended, one
/// line at a time.
pub open spec fn arrival_fold(lines: Seq<Seq<char>>) -> Seq<char>
    decreases lines.len(),
{
    if lines.len() == 0 {
        Seq::empty()
    } else {
        appended(arrival_fold(lines.drop_last()), lines.last())
    }
}

/// The arrival sequence joined by single newlines.
pub open spec fn joined_lines(lines: Seq<Seq<char>>) -> Seq<char>
    decreases lines.len(),
{
    if lines.len() == 0 {
        Seq::empty()
    } else if lines.len() == 1 {
        lines[0]
    } else {
        joined_lines(lines.drop_last()) + seq!['\n'] + lines.last()
    }
}

/// Law: the merged output holds every arrived line exactly once, joined by
/// newlines, in arrival order — whichever stream each line came from.
/// Appending lines one at a time (the step `append_output` takes) yields
/// exactly the newline-join of the whole arrival sequence, provided the
/// first arrived line is not empty (an empty first line gets no separator
/// before the next line, so it leaves no trace of its own).
pub proof fn lemma_merge_arrival_order(lines: Seq<Seq<char>>)
    requires
        lines.len() > 0 ==> lines[0].len() > 0,
    ensures
        arrival_fold(lines) == joined_lines(lines),
        lines.len() > 0 ==> arrival_fold(lines).len() > 0,
    decreases lines.len(),
{
    if lines.len() == 1 {
        assert(lines.drop_last().len() == 0);
        assert(arrival_fold(lines.drop_last()) =~= Seq::<char>::empty());
        assert(arrival_fold(lines) == appended(arrival_fold(lines.drop_last()), lines.last()));
        assert(lines.last() == lines[0]);
    } else if lines.len() > 1 {
        lemma_merge_arrival_order(lines.drop_last());
        assert(lines.drop_last()[0] == lines[0]);
        assert(arrival_fold(lines) =~= joined_lines(lines.drop_last()) + seq!['\n']
            + lines.last());
    }
}

/// Append one arrived line to both the unbounded accumulator and the
/// rolling live-view buffer; the rolling buffer keeps only a
/// boundary-safe byte suffix once it outgrows its ceiling.  Lines end up
/// in the accumulator in exactly the order they arrive.
pub fn append_output(full: &mut String, rolling: &mut String, line: &str)
    requires
        encode_utf8(old(full)@).len() + str_bytes(line).len() + 1 < usize::MAX,
        encode_utf8(old(rolling)@).len() + str_bytes(line).len() + 1 < usize::MAX,
    ensures
        final (full)@ == appended(old(full)@, line@),
        ({
            let grown = appended(old(rolling)@, line@);
            let gb = encode_utf8(grown);
            &&& (gb.len() <= BASH_ROLLING_BUFFER_BYTES ==> final (rolling)@ == grown)
            &&& (gb.len() > BASH_ROLLING_BUFFER_BYTES ==> encode_utf8(final (rolling)@)
                == gb.subrange(
                crate::text::next_boundary(gb, gb.len() - BASH_ROLLING_BUFFER_BYTES),
                gb.len() as int,
            ))
        }),
{
    proof {
        reveal_strlit("\n");
        assert("\n"@ =~= seq!['\n']);
    }
    if !full.as_str().is_empty() {
        full.append("\n");
    }
    full.append(line);
    proof {
        assert(full@ == appended(old(full)@, line@));
    }
    let ghost grown = appended(old(rolling)@, line@);
    if !rolling.as_str().is_empty() {
        rolling.append("\n");
    }
    rolling.append(line);
    proof {
        assert(rolling@ == grown);
        crate::text::lemma_encode_utf8_concat(old(rolling)@, seq!['\n'] + line@);
        crate::text::lemma_encode_utf8_concat(seq!['\n'], line@);
        lemma_nl_byte_len(old(rolling)@, line@);
    }
    let rb = rolling.as_str().as_bytes();
    if rb.len() > BASH_ROLLING_BUFFER_BYTES {
        let trimmed = truncate_string_to_bytes_from_end(rolling.as_str(), BASH_ROLLING_BUFFER_BYTES);
        *rolling = trimmed;
    }
}

proof fn lemma_nl_byte_len(acc: Seq<char>, line: Seq<char>)
    ensures
        encode_utf8(appended(acc, line)).len() <= encode_utf8(acc).len() + encode_utf8(line).len()
            + 1,
{
    if acc.len() == 0 {
    } else {
        crate::text::lemma_encode_utf8_concat(acc, seq!['\n'] + line);
        crate::text::lemma_encode_utf8_concat(seq!['\n'], line);
        assert(seq!['\n'].drop_first() =~= Seq::<char>::empty());
        assert(encode_utf8(seq!['\n']) =~= encode_scalar('\n' as u32) + encode_utf8(
            seq!['\n'].drop_first(),
        ));
        char_is_scalar('\n');
        assert(encode_scalar('\n' as u32).len() == 1);
        assert(appended(acc, line) == acc + (seq!['\n'] + line)) by {
            assert(acc + seq!['\n'] + line =~= acc + (seq!['\n'] + line));
        }
    }
}

/// Details reported with a finished shell command.
pub struct BashDetails {
    pub exit_code: Option<i32>,
    pub timed_out: bool,
    pub timeout_secs: u64,
    pub total_lines: usize,
    pub output_lines: usize,
    pub truncated: bool,
    pub is_error: bool,
}

/// The final text of a shell result: the tail-bounded output, a note
/// naming which lines are shown and where the full output was spilled,
/// and a trailing timeout or exit-code note.
pub open spec fn bash_text_spec(
    t: TruncationResult,
    last_line_bytes: nat,
    exit_code: Option<i32>,
    timed_out: bool,
    timeout_secs: u64,
    path: Option<Seq<char>>,
) -> Seq<char> {
    let base = if t.content@.len() == 0 {
        "(no output)"@
    } else {
        t.content@
    };
    let start: nat = if t.total_lines >= t.output_lines {
        (t.total_lines - t.output_lines + 1) as nat
    } else {
        1
    };
    let with_notice = if t.truncated && path is Some {
        let p = path.unwrap();
        if t.last_line_partial {
            base + "\n\n[Showing last "@ + format_size_chars(t.output_bytes as nat)
                + " of line "@ + dec_chars(t.total_lines as nat) + " (line is "@
                + format_size_chars(last_line_bytes) + "). Full output: "@ + p + "]"@
        } else if t.truncated_by == Some(TruncatedBy::Lines) {
            base + "\n\n[Showing lines "@ + dec_chars(start) + "-"@ + dec_chars(
                t.total_lines as nat,
            ) + " of "@ + dec_chars(t.total_lines as nat) + ". Full output: "@ + p + "]"@
        } else {
            base + "\n\n[Showing lines "@ + dec_chars(start) + "-"@ + dec_chars(
                t.total_lines as nat,
            ) + " of "@ + dec_chars(t.total_lines as nat) + " ("@ + format_size_chars(
                crate::DEFAULT_MAX_BYTES as nat,
            ) + " limit). Full output: "@ + p + "]"@
        }
    } else {
        base
    };
    if timed_out {
        with_notice + "\n\nCommand timed out after "@ + dec_chars(timeout_secs as nat)
            + " seconds"@
    } else if exit_code is Some && exit_code.unwrap() != 0 {
        with_notice + "\n\nCommand exited with code "@ + dec_chars_signed(exit_code.unwrap() as int)
    } else {
        with_notice
    }
}

/// Assemble the final shell result: bound the accumulated output from the
/// tail, then describe what is shown, whether the command timed out, and
/// how it exited.  A nonzero exit or a timeout marks the result as an
/// error but is still a successful invocation.
pub fn build_bash_output(
    full_output: &str,
    exit_code: Option<i32>,
    timed_out: bool,
    timeout_secs: u64,
    full_output_path: Option<&str>,
) -> (r: (TruncationResult, String, BashDetails))
    requires
        str_bytes(full_output).len() + 1 < usize::MAX,
    ensures
        tail_post(
            r.0,
            full_output@,
            crate::DEFAULT_MAX_LINES as int,
            crate::DEFAULT_MAX_BYTES as int,
        ),
        ({
            let b = str_bytes(full_output);
            let last_line_bytes = (b.len() - line_start(b, num_lines(b) - 1)) as nat;
            r.1@ == bash_text_spec(
                r.0,
                last_line_bytes,
                exit_code,
                timed_out,
                timeout_secs,
                match full_output_path {
                    Some(p) => Some(p@),
                    None => None,
                },
            )
        }),
        r.2.exit_code == exit_code,
        r.2.timed_out == timed_out,
        r.2.timeout_secs == timeout_secs,
        r.2.total_lines == r.0.total_lines,
        r.2.output_lines == r.0.output_lines,
        r.2.truncated == r.0.truncated,
        r.2.is_error == (timed_out || (exit_code matches Some(c) && c != 0)),
{
    proof {
        encode_utf8_valid_utf8(full_output@);
        crate::text::lemma_num_lines_pos(str_bytes(full_output), 0);
        crate::text::lemma_num_lines_bound(str_bytes(full_output), 0);
    }
    let ghost b = str_bytes(full_output);
    let bytes = full_output.as_bytes();
    let n = bytes.len();
    let total = crate::text::count_lines(bytes);
    proof {
        crate::text::lemma_line_struct(b, total as int - 1);
    }
    let last_start = crate::text::line_start_before(bytes, n, Ghost(total as int - 1));
    let last_line_bytes = n - last_start;
    let t = truncate_tail(full_output, crate::DEFAULT_MAX_LINES, crate::DEFAULT_MAX_BYTES);
    let mut text: String = if t.content.as_str().is_empty() {
        "(no output)".to_owned()
    } else {
        t.content.clone()
    };
    proof {
        assert(t.total_lines < usize::MAX);
    }
    let start_line: usize = if t.total_lines >= t.output_lines {
        t.total_lines - t.output_lines + 1
    } else {
        1
    };
    if t.truncated {
        match full_output_path {
            Some(p) => {
                if t.last_line_partial {
                    text.append("\n\n[Showing last ");
                    let a = format_size(t.output_bytes);
                    text.append(a.as_str());
                    text.append(" of line ");
                    let bnum = u64_to_string(t.total_lines as u64);
                    text.append(bnum.as_str());
                    text.append(" (line is ");
                    let c = format_size(last_line_bytes);
                    text.append(c.as_str());
                    text.append("). Full output: ");
                    text.append(p);
                    text.append("]");
                } else if matches!(t.truncated_by, Some(TruncatedBy::Lines)) {
                    text.append("\n\n[Showing lines ");
                    let a = u64_to_string(start_line as u64);
                    text.append(a.as_str());
                    text.append("-");
                    let bnum = u64_to_string(t.total_lines as u64);
                    text.append(bnum.as_str());
                    text.append(" of ");
                    let c = u64_to_string(t.total_lines as u64);
                    text.append(c.as_str());
                    text.append(". Full output: ");
                    text.append(p);
                    text.append("]");
                } else {
                    text.append("\n\n[Showing lines ");
                    let a = u64_to_string(start_line as u64);
                    text.append(a.as_str());
                    text.append("-");
                    let bnum = u64_to_string(t.total_lines as u64);
                    text.append(bnum.as_str());
                    text.append(" of ");
                    let c = u64_to_string(t.total_lines as u64);
                    text.append(c.as_str());
                    text.append(" (");
                    let d = format_size(crate::DEFAULT_MAX_BYTES);
                    text.append(d.as_str());
                    text.append(" limit). Full output: ");
                    text.append(p);
                    text.append("]");
                }
            },
            None => {},
        }
    }
    if timed_out {
        text.append("\n\nCommand timed out after ");
        let a = u64_to_string(timeout_secs);
        text.append(a.as_str());
        text.append(" seconds");
    } else {
        match exit_code {
            Some(c) => {
                if c != 0 {
                    text.append("\n\nCommand exited with code ");
                    let a = i64_to_string(c as i64);
                    text.append(a.as_str());
                }
            },
            None => {},
        }
    }
    let is_error = timed_out || (match exit_code {
        Some(c) => c != 0,
        None => false,
    });
    let details = BashDetails {
        exit_code,
        timed_out,
        timeout_secs,
        total_lines: t.total_lines,
        output_lines: t.output_lines,
        truncated: t.truncated,
        is_error,
    };
    proof {
        assert(text@ =~= bash_text_spec(
            t,
            (b.len() - line_start(b, num_lines(b) - 1)) as nat,
            exit_code,
            timed_out,
            timeout_secs,
            match full_output_path {
                Some(p) => Some(p@),
                None => None::<Seq<char>>,
            },
        ));
    }
    (t, text, details)
}

} // verus!
