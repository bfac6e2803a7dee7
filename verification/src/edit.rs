//! Text-anchored editing: locate a unique anchor span in file content,
//! exactly or after unicode normalization, splice in the replacement, and
//! rebuild the file's original encoding artifacts (byte-order mark,
//! dominant line-ending style).

use crate::bytefind::{
    count_matches, lemma_find_sub_props, lemma_match_boundaries, spec_count_matches, spec_find_sub,
    spec_replace,
};
use crate::normalize::{normalize_line_for_match, spec_norm_line};
use crate::render::{dec_chars, u64_to_string};
use crate::text::{
    count_lines, lemma_line_struct, line_end, line_offsets, line_seq, line_start, lines_count,
    lines_vec, num_lines, split_lines, str_bytes,
};
use vstd::prelude::*;
use vstd::string::StrSliceExecFns;
use vstd::string::StringExecFns;
use vstd::string::StringSliceAdditionalSpecFns;
use vstd::utf8::*;

verus! {

/// Why an edit was rejected.
#[derive(Debug, Clone, Copy, PartialEq, Eq)]
pub enum EditError {
    /// Anchor and replacement are identical after line-ending normalization.
    NoChange,
    /// The anchor occurs nowhere, not even after unicode normalization.
    NotFound,
    /// The anchor occurs literally more than once; the count is carried for
    /// the report.
    AmbiguousExact { count: usize },
    /// The normalized anchor matches more than one block of lines.
    AmbiguousFuzzy,
}

impl EditError {
    /// The human-readable report for this rejection.
    pub fn message(&self) -> (r: String)
        ensures
            *self is NoChange ==> r@ == "oldText and newText are identical. No changes to apply."@,
            *self is NotFound ==> r@
                == "Text not found in file. Make sure the oldText matches exactly, including whitespace."@,
            self matches EditError::AmbiguousExact { count } ==> r@ == "Found "@ + dec_chars(
                count as nat,
            )
                + " occurrences of the text. Please provide more context to make the match unique."@,
            *self is AmbiguousFuzzy ==> r@
                == "Multiple fuzzy matches found. Please provide more context to make the match unique."@,
    {
        match self {
            EditError::NoChange => "oldText and newText are identical. No changes to apply.".to_owned(),
            EditError::NotFound => "Text not found in file. Make sure the oldText matches exactly, including whitespace.".to_owned(),
            EditError::AmbiguousExact { count } => {
                let mut r = "Found ".to_owned();
                let num = u64_to_string(*count as u64);
                r.append(num.as_str());
                r.append(
                    " occurrences of the text. Please provide more context to make the match unique.",
                );
                r
            },
            EditError::AmbiguousFuzzy => "Multiple fuzzy matches found. Please provide more context to make the match unique.".to_owned(),
        }
    }
}

/// The unique anchor occurrence: a byte span of the normalized content and
/// the one-based line number where it begins.
#[derive(Debug, Clone, Copy, PartialEq, Eq)]
pub struct EditMatch {
    pub start: usize,
    pub end: usize,
    pub first_line: usize,
}

/// The byte-order mark's UTF-8 encoding.
pub open spec fn bom_bytes() -> Seq<u8> {
    seq![0xEFu8, 0xBBu8, 0xBFu8]
}

/// Whether the text begins with a byte-order mark.
pub open spec fn has_bom(b: Seq<u8>) -> bool {
    b.len() >= 3 && b.subrange(0, 3) == bom_bytes()
}

/// Split off a leading byte-order mark, reporting whether one was present.
pub fn strip_bom(s: &str) -> (r: (String, bool))
    requires
        str_bytes(s).len() < usize::MAX,
    ensures
        r.1 == has_bom(str_bytes(s)),
        r.1 ==> encode_utf8(r.0@) == str_bytes(s).subrange(3, str_bytes(s).len() as int),
        !r.1 ==> r.0@ == s@,
{
    proof {
        encode_utf8_valid_utf8(s@);
    }
    let ghost b = str_bytes(s);
    let bytes = s.as_bytes();
    if bytes.len() >= 3 && bytes[0] == 0xEFu8 && bytes[1] == 0xBBu8 && bytes[2] == 0xBFu8 {
        proof {
            assert(b.subrange(0, 3) =~= bom_bytes());
            // the mark is a single three-byte character, so offset 3 is a
            // character boundary
            assert(is_leading_byte_width_3(b[0]));
            assert(length_of_first_scalar(b) == 3);
            assert(is_char_boundary(b, 3)) by {
                assert(is_char_boundary(pop_first_scalar(b), 0));
            }
        }
        let (_mark, rest) = s.split_at(3);
        (rest.to_owned(), true)
    } else {
        proof {
            if b.len() >= 3 && b.subrange(0, 3) == bom_bytes() {
                assert(b[0] == 0xEFu8 && b[1] == 0xBBu8 && b[2] == 0xBFu8);
            }
        }
        (s.to_owned(), false)
    }
}

/// The carriage-return/line-feed pair as bytes.
pub open spec fn crlf_bytes() -> Seq<u8> {
    seq![13u8, 10u8]
}

/// The dominant line ending: carriage-return/line-feed if that pair occurs
/// anywhere, else the bare line feed.
pub fn detect_line_ending(s: &str) -> (r: &'static str)
    requires
        str_bytes(s).len() < usize::MAX,
    ensures
        spec_find_sub(str_bytes(s), crlf_bytes(), 0) >= 0 ==> r@ == "\r\n"@,
        spec_find_sub(str_bytes(s), crlf_bytes(), 0) < 0 ==> r@ == "\n"@,
{
    let crlf: &str = "\r\n";
    proof {
        reveal_strlit("\r\n");
        assert(crlf@ =~= seq!['\r', '\n']);
        assert(is_ascii_chars(crlf@));
        is_ascii_chars_encode_utf8(crlf@);
        assert(str_bytes(crlf) =~= crlf_bytes());
    }
    match crate::bytefind::find_sub(s.as_bytes(), crlf.as_bytes(), 0) {
        Some(_i) => "\r\n",
        None => "\n",
    }
}

/// Locate the unique literal occurrence of `old_text` in `content`:
/// exactly one is required, none or several are reported as errors.  The
/// span's first line is the one-based line number at its start.
pub fn find_exact_match(content: &str, old_text: &str) -> (r: Result<EditMatch, EditError>)
    requires
        str_bytes(content).len() < usize::MAX,
    ensures
        ({
            let cb = str_bytes(content);
            let ob = str_bytes(old_text);
            &&& (r is Ok <==> ob.len() > 0 && spec_count_matches(cb, ob, 0) == 1)
            &&& (r is Ok ==> ({
                let m = r.unwrap();
                &&& m.start == spec_find_sub(cb, ob, 0)
                &&& m.end == m.start + ob.len()
                &&& m.end <= cb.len()
                &&& cb.subrange(m.start as int, m.end as int) == ob
                &&& m.first_line == num_lines(cb.subrange(0, m.start as int))
            }))
            &&& (r is Err ==> ({
                let e = r->Err_0;
                &&& (e is NotFound || e is AmbiguousExact)
                &&& (e is NotFound <==> (ob.len() == 0 || spec_count_matches(cb, ob, 0) == 0))
                &&& (e is AmbiguousExact ==> spec_count_matches(cb, ob, 0) > 1 && (e matches
                    EditError::AmbiguousExact { count } && count == spec_count_matches(cb, ob, 0)))
            }))
        }),
{
    proof {
        encode_utf8_valid_utf8(content@);
        encode_utf8_valid_utf8(old_text@);
    }
    let ghost cb = str_bytes(content);
    let ghost ob = str_bytes(old_text);
    if old_text.len() == 0 {
        return Err(EditError::NotFound);
    }
    let (count, first) = count_matches(content.as_bytes(), old_text.as_bytes());
    if count == 0 {
        return Err(EditError::NotFound);
    }
    if count > 1 {
        return Err(EditError::AmbiguousExact { count });
    }
    proof {
        lemma_find_sub_props(cb, ob, 0);
        // one match exists, so the scan finds it
        assert(spec_find_sub(cb, ob, 0) >= 0);
        lemma_match_boundaries(cb, ob, first as int);
    }
    let (prefix, _rest) = content.split_at(first);
    let first_line = count_lines(prefix.as_bytes());
    proof {
        assert(prefix.spec_bytes() =~= cb.subrange(0, first as int));
    }
    Ok(EditMatch { start: first, end: first + old_text.len(), first_line })
}

/// Every line of the text in its normalized form.
pub open spec fn norm_lines(b: Seq<u8>) -> Seq<Seq<char>> {
    Seq::new(num_lines(b), |k: int| spec_norm_line(decode_utf8(line_seq(b, k))))
}

/// The normalized anchor lines match the normalized content lines starting
/// at line `i`.
pub open spec fn fuzzy_window_at(cb: Seq<u8>, ob: Seq<u8>, i: int) -> bool {
    &&& 0 <= i
    &&& i + num_lines(ob) <= num_lines(cb)
    &&& forall|j: int|
        0 <= j < num_lines(ob) ==> norm_lines(cb)[i + j] == #[trigger] norm_lines(ob)[j]
}

/// Locate the unique contiguous block of content lines whose normalized
/// form equals the normalized anchor lines; none or several are errors.
/// The span runs from the start of the first matched line to the end of the
/// last, its newline excluded.
pub fn find_fuzzy_match(content: &str, old_text: &str) -> (r: Result<EditMatch, EditError>)
    requires
        str_bytes(content).len() < usize::MAX,
        str_bytes(old_text).len() < usize::MAX,
    ensures
        ({
            let cb = str_bytes(content);
            let ob = str_bytes(old_text);
            &&& (r is Ok ==> ({
                let m = r.unwrap();
                let i = m.first_line - 1;
                &&& m.first_line >= 1
                &&& fuzzy_window_at(cb, ob, i as int)
                &&& (forall|i2: int| fuzzy_window_at(cb, ob, i2) ==> i2 == i)
                &&& m.start == line_start(cb, i as int)
                &&& m.end == line_end(cb, i as int + num_lines(ob) - 1)
                &&& m.start <= m.end <= cb.len()
            }))
            &&& (r is Err ==> ({
                let e = r->Err_0;
                &&& (e is NotFound || e is AmbiguousFuzzy)
                &&& (e is NotFound ==> forall|i2: int| !fuzzy_window_at(cb, ob, i2))
                &&& (e is AmbiguousFuzzy ==> exists|i1: int, i2: int|
                    i1 < i2 && fuzzy_window_at(cb, ob, i1) && fuzzy_window_at(cb, ob, i2))
            }))
        }),
{
    proof {
        encode_utf8_valid_utf8(content@);
        encode_utf8_valid_utf8(old_text@);
        crate::text::lemma_num_lines_pos(str_bytes(content), 0);
        crate::text::lemma_num_lines_pos(str_bytes(old_text), 0);
    }
    let ghost cb = str_bytes(content);
    let ghost ob = str_bytes(old_text);
    let clines = split_lines(content);
    let olines = split_lines(old_text);
    let nc = clines.len();
    let no = olines.len();
    let mut cnorm: Vec<String> = Vec::new();
    let mut k: usize = 0;
    while k < nc
        invariant
            nc == clines@.len() == num_lines(cb),
            forall|j: int| 0 <= j < nc ==> str_bytes(#[trigger] clines@[j]) == line_seq(cb, j),
            0 <= k <= nc,
            cnorm@.len() == k,
            forall|j: int| 0 <= j < k ==> #[trigger] cnorm@[j]@ == norm_lines(cb)[j],
        decreases nc - k,
    {
        proof {
            encode_utf8_decode_utf8(clines@[k as int]@);
        }
        let normed = normalize_line_for_match(clines[k]);
        cnorm.push(normed);
        k = k + 1;
    }
    let mut onorm: Vec<String> = Vec::new();
    let mut k2: usize = 0;
    while k2 < no
        invariant
            no == olines@.len() == num_lines(ob),
            forall|j: int| 0 <= j < no ==> str_bytes(#[trigger] olines@[j]) == line_seq(ob, j),
            0 <= k2 <= no,
            onorm@.len() == k2,
            forall|j: int| 0 <= j < k2 ==> #[trigger] onorm@[j]@ == norm_lines(ob)[j],
        decreases no - k2,
    {
        proof {
            encode_utf8_decode_utf8(olines@[k2 as int]@);
        }
        let normed = normalize_line_for_match(olines[k2]);
        onorm.push(normed);
        k2 = k2 + 1;
    }
    if nc < no {
        return Err(EditError::NotFound);
    }
    let mut found: Option<usize> = None;
    let mut i: usize = 0;
    while i <= nc - no
        invariant
            cb == str_bytes(content),
            ob == str_bytes(old_text),
            nc == num_lines(cb),
            no == num_lines(ob) >= 1,
            no <= nc,
            nc == cnorm@.len(),
            no == onorm@.len(),
            nc == clines@.len(),
            0 <= i <= nc - no + 1,
            forall|j: int| 0 <= j < nc ==> #[trigger] cnorm@[j]@ == norm_lines(cb)[j],
            forall|j: int| 0 <= j < no ==> #[trigger] onorm@[j]@ == norm_lines(ob)[j],
            found is None ==> forall|i2: int| i2 < i ==> !fuzzy_window_at(cb, ob, i2),
            found is Some ==> ({
                &&& fuzzy_window_at(cb, ob, found.unwrap() as int)
                &&& found.unwrap() < i
                &&& forall|i2: int|
                    i2 < i && i2 != found.unwrap() ==> !fuzzy_window_at(cb, ob, i2)
            }),
        ensures
            i > nc - no,
            found is None ==> forall|i2: int| i2 < i ==> !fuzzy_window_at(cb, ob, i2),
            found is Some ==> ({
                &&& fuzzy_window_at(cb, ob, found.unwrap() as int)
                &&& found.unwrap() < i
                &&& forall|i2: int|
                    i2 < i && i2 != found.unwrap() ==> !fuzzy_window_at(cb, ob, i2)
            }),
        decreases nc - no + 1 - i,
    {
        let mut j: usize = 0;
        let mut window_ok: bool = true;
        while j < no
            invariant
                nc == num_lines(cb),
                no == num_lines(ob),
                no <= nc,
                nc == cnorm@.len(),
                no == onorm@.len(),
                0 <= i <= nc - no,
                0 <= j <= no,
                forall|t: int| 0 <= t < nc ==> #[trigger] cnorm@[t]@ == norm_lines(cb)[t],
                forall|t: int| 0 <= t < no ==> #[trigger] onorm@[t]@ == norm_lines(ob)[t],
                window_ok ==> forall|t: int|
                    0 <= t < j ==> norm_lines(cb)[i + t] == #[trigger] norm_lines(ob)[t],
                !window_ok ==> !fuzzy_window_at(cb, ob, i as int),
            ensures
                window_ok ==> forall|t: int|
                    0 <= t < no ==> norm_lines(cb)[i + t] == #[trigger] norm_lines(ob)[t],
                !window_ok ==> !fuzzy_window_at(cb, ob, i as int),
            decreases no - j,
        {
            if !(cnorm[i + j] == onorm[j]) {
                window_ok = false;
                proof {
                    assert(norm_lines(cb)[i + j] != norm_lines(ob)[j as int]);
                }
                break ;
            }
            j = j + 1;
        }
        if window_ok {
            proof {
                assert(fuzzy_window_at(cb, ob, i as int));
            }
            match found {
                None => {
                    found = Some(i);
                },
                Some(f) => {
                    proof {
                        assert(exists|i1: int, i2: int|
                            i1 < i2 && fuzzy_window_at(str_bytes(content), str_bytes(old_text), i1)
                                && fuzzy_window_at(str_bytes(content), str_bytes(old_text), i2)) by {
                            assert(fuzzy_window_at(str_bytes(content), str_bytes(old_text), f as int));
                            assert(fuzzy_window_at(str_bytes(content), str_bytes(old_text), i as int));
                            assert(f < i);
                        }
                    }
                    return Err(EditError::AmbiguousFuzzy);
                },
            }
        }
        i = i + 1;
    }
    proof {
        assert forall|i2: int| i2 > nc - no implies !fuzzy_window_at(cb, ob, i2) by {}
    }
    match found {
        None => Err(EditError::NotFound),
        Some(f) => {
            proof {
                lemma_line_struct(cb, f as int);
                lemma_line_struct(cb, f as int + no as int - 1);
                crate::text::lemma_line_start_mono(cb, f as int, f as int + no as int - 1);
            }
            let starts = line_offsets(content);
            let last = f + no - 1;
            let start = starts[f];
            let end = starts[last] + clines[last].len();
            Ok(EditMatch { start, end, first_line: f + 1 })
        },
    }
}

/// Index at which the old-line cursor resynchronizes: the first line at or
/// after `i` equal to new line `j`, or the end.
pub open spec fn diff_scan_old(o: Seq<Seq<char>>, n: Seq<Seq<char>>, i: int, j: int) -> int
    decreases o.len() - i,
{
    if i < o.len() && (j >= n.len() || o[i] != n[j]) {
        diff_scan_old(o, n, i + 1, j)
    } else {
        i
    }
}

/// Index at which the new-line cursor resynchronizes against old line `i`.
pub open spec fn diff_scan_new(o: Seq<Seq<char>>, n: Seq<Seq<char>>, i: int, j: int) -> int
    decreases n.len() - j,
{
    if j < n.len() && (i >= o.len() || n[j] != o[i]) {
        diff_scan_new(o, n, i, j + 1)
    } else {
        j
    }
}

proof fn lemma_diff_scan_old_props(o: Seq<Seq<char>>, n: Seq<Seq<char>>, i: int, j: int)
    requires
        i <= o.len(),
    ensures
        i <= diff_scan_old(o, n, i, j) <= o.len(),
    decreases o.len() - i,
{
    if i < o.len() && (j >= n.len() || o[i] != n[j]) {
        lemma_diff_scan_old_props(o, n, i + 1, j);
    }
}

proof fn lemma_diff_scan_new_props(o: Seq<Seq<char>>, n: Seq<Seq<char>>, i: int, j: int)
    requires
        j <= n.len(),
    ensures
        j <= diff_scan_new(o, n, i, j) <= n.len(),
    decreases n.len() - j,
{
    if j < n.len() && (i >= o.len() || n[j] != o[i]) {
        lemma_diff_scan_new_props(o, n, i, j + 1);
    }
}

/// One hunk header line: the one-based start and the count on each side.
pub open spec fn hunk_header(os: int, oc: int, ns: int, nc: int) -> Seq<char> {
    "@@ -"@ + dec_chars((os + 1) as nat) + ","@ + dec_chars(oc as nat) + " +"@ + dec_chars(
        (ns + 1) as nat,
    ) + ","@ + dec_chars(nc as nat) + " @@\n"@
}

/// The removed lines of a hunk, each prefixed with a minus sign.
pub open spec fn removed_block(o: Seq<Seq<char>>, i: int, i2: int) -> Seq<char>
    decreases i2 - i,
{
    if i >= i2 {
        Seq::empty()
    } else {
        seq!['-'] + o[i] + seq!['\n'] + removed_block(o, i + 1, i2)
    }
}

/// The added lines of a hunk, each prefixed with a plus sign.
pub open spec fn added_block(n: Seq<Seq<char>>, j: int, j2: int) -> Seq<char>
    decreases j2 - j,
{
    if j >= j2 {
        Seq::empty()
    } else {
        seq!['+'] + n[j] + seq!['\n'] + added_block(n, j + 1, j2)
    }
}

/// The rendered hunks from cursors `i` and `j` on: matching lines advance
/// both cursors silently; at a mismatch each cursor scans forward to the
/// next point of resynchronization and the skipped lines are emitted.
pub open spec fn diff_body(o: Seq<Seq<char>>, n: Seq<Seq<char>>, i: int, j: int) -> Seq<char>
    decreases o.len() - i + n.len() - j,
    via diff_body_decreases
{
    if i < 0 || j < 0 || i > o.len() || j > n.len() || (i == o.len() && j == n.len()) {
        Seq::empty()
    } else if i < o.len() && j < n.len() && o[i] == n[j] {
        diff_body(o, n, i + 1, j + 1)
    } else {
        let i2 = diff_scan_old(o, n, i, j);
        let j2 = diff_scan_new(o, n, i2, j);
        hunk_header(i, i2 - i, j, j2 - j) + removed_block(o, i, i2) + added_block(n, j, j2)
            + diff_body(o, n, i2, j2)
    }
}

#[via_fn]
proof fn diff_body_decreases(o: Seq<Seq<char>>, n: Seq<Seq<char>>, i: int, j: int) {
    if !(i < 0 || j < 0 || i > o.len() || j > n.len() || (i == o.len() && j == n.len())) {
        if !(i < o.len() && j < n.len() && o[i] == n[j]) {
            lemma_diff_scan_old_props(o, n, i, j);
            let i2 = diff_scan_old(o, n, i, j);
            lemma_diff_scan_new_props(o, n, i2, j);
            if i < o.len() && (j >= n.len() || o[i] != n[j]) {
                // the old-side scan moves at least one line
                lemma_diff_scan_old_props(o, n, i + 1, j);
                assert(diff_scan_old(o, n, i, j) >= i + 1);
            } else {
                // the old side is done or resynchronized at once, so the
                // new-side scan moves at least one line
                assert(i2 == i);
                assert(j < n.len() && (i2 >= o.len() || n[j] != o[i2]));
                lemma_diff_scan_new_props(o, n, i2, j + 1);
                assert(diff_scan_new(o, n, i2, j) >= j + 1);
            }
        }
    }
}

fn render_removed(out: &mut String, lines: &Vec<&str>, i: usize, i2: usize, Ghost(o): Ghost<
    Seq<Seq<char>>,
>)
    requires
        i <= i2 <= lines@.len() == o.len(),
        forall|k: int| 0 <= k < o.len() ==> #[trigger] lines@[k]@ == o[k],
    ensures
        final (out)@ == old(out)@ + removed_block(o, i as int, i2 as int),
{
    let mut t = i;
    while t < i2
        invariant
            i <= t <= i2 <= lines@.len() == o.len(),
            forall|k: int| 0 <= k < o.len() ==> #[trigger] lines@[k]@ == o[k],
            out@ + removed_block(o, t as int, i2 as int) == old(out)@ + removed_block(
                o,
                i as int,
                i2 as int,
            ),
        decreases i2 - t,
    {
        out.append("-");
        out.append(lines[t]);
        out.append("\n");
        proof {
            reveal_strlit("-");
            reveal_strlit("\n");
            assert("-"@ =~= seq!['-']);
            assert("\n"@ =~= seq!['\n']);
        }
        t = t + 1;
    }
    proof {
        assert(out@ =~= old(out)@ + removed_block(o, i as int, i2 as int));
    }
}

fn render_added(out: &mut String, lines: &Vec<&str>, j: usize, j2: usize, Ghost(n): Ghost<
    Seq<Seq<char>>,
>)
    requires
        j <= j2 <= lines@.len() == n.len(),
        forall|k: int| 0 <= k < n.len() ==> #[trigger] lines@[k]@ == n[k],
    ensures
        final (out)@ == old(out)@ + added_block(n, j as int, j2 as int),
{
    let mut t = j;
    while t < j2
        invariant
            j <= t <= j2 <= lines@.len() == n.len(),
            forall|k: int| 0 <= k < n.len() ==> #[trigger] lines@[k]@ == n[k],
            out@ + added_block(n, t as int, j2 as int) == old(out)@ + added_block(
                n,
                j as int,
                j2 as int,
            ),
        decreases j2 - t,
    {
        out.append("+");
        out.append(lines[t]);
        out.append("\n");
        proof {
            reveal_strlit("+");
            reveal_strlit("\n");
            assert("+"@ =~= seq!['+']);
            assert("\n"@ =~= seq!['\n']);
        }
        t = t + 1;
    }
    proof {
        assert(out@ =~= old(out)@ + added_block(n, j as int, j2 as int));
    }
}

fn render_hunk_header(out: &mut String, os: usize, oc: usize, ns: usize, nc: usize)
    requires
        os < usize::MAX,
        ns < usize::MAX,
    ensures
        final (out)@ == old(out)@ + hunk_header(os as int, oc as int, ns as int, nc as int),
{
    out.append("@@ -");
    let a = u64_to_string((os + 1) as u64);
    out.append(a.as_str());
    out.append(",");
    let b = u64_to_string(oc as u64);
    out.append(b.as_str());
    out.append(" +");
    let c = u64_to_string((ns + 1) as u64);
    out.append(c.as_str());
    out.append(",");
    let d = u64_to_string(nc as u64);
    out.append(d.as_str());
    out.append(" @@\n");
    proof {
        assert(out@ =~= old(out)@ + hunk_header(os as int, oc as int, ns as int, nc as int));
    }
}

/// A best-effort unified diff between two newline-separated texts: matching
/// lines advance silently, and at each mismatch both sides scan forward to
/// the next resynchronization point, emitting the skipped lines.
pub fn compute_diff(old_text: &str, new_text: &str, path: &str) -> (r: String)
    requires
        str_bytes(old_text).len() + 1 < usize::MAX,
        str_bytes(new_text).len() + 1 < usize::MAX,
    ensures
        ({
            let o = Seq::new(
                lines_count(str_bytes(old_text)),
                |k: int| decode_utf8(line_seq(str_bytes(old_text), k)),
            );
            let n = Seq::new(
                lines_count(str_bytes(new_text)),
                |k: int| decode_utf8(line_seq(str_bytes(new_text), k)),
            );
            r@ == "--- a/"@ + path@ + "\n+++ b/"@ + path@ + "\n"@ + diff_body(o, n, 0, 0)
        }),
{
    let ghost o = Seq::new(
        lines_count(str_bytes(old_text)),
        |k: int| decode_utf8(line_seq(str_bytes(old_text), k)),
    );
    let ghost n = Seq::new(
        lines_count(str_bytes(new_text)),
        |k: int| decode_utf8(line_seq(str_bytes(new_text), k)),
    );
    let olv = lines_vec(old_text);
    let nlv = lines_vec(new_text);
    proof {
        assert forall|k: int| 0 <= k < o.len() implies #[trigger] olv@[k]@ == o[k] by {
            encode_utf8_decode_utf8(olv@[k]@);
        }
        assert forall|k: int| 0 <= k < n.len() implies #[trigger] nlv@[k]@ == n[k] by {
            encode_utf8_decode_utf8(nlv@[k]@);
        }
        crate::text::lemma_num_lines_bound(str_bytes(old_text), 0);
        crate::text::lemma_num_lines_bound(str_bytes(new_text), 0);
        crate::text::lemma_num_lines_pos(str_bytes(old_text), 0);
        crate::text::lemma_num_lines_pos(str_bytes(new_text), 0);
        assert(lines_count(str_bytes(old_text)) <= num_lines(str_bytes(old_text)));
        assert(lines_count(str_bytes(new_text)) <= num_lines(str_bytes(new_text)));
    }
    let no = olv.len();
    let nn = nlv.len();
    let mut out = "--- a/".to_owned();
    out.append(path);
    out.append("\n+++ b/");
    out.append(path);
    out.append("\n");
    let ghost header = "--- a/"@ + path@ + "\n+++ b/"@ + path@ + "\n"@;
    proof {
        assert(out@ =~= header);
    }
    let mut i: usize = 0;
    let mut j: usize = 0;
    while i < no || j < nn
        invariant
            no == olv@.len() == o.len(),
            nn == nlv@.len() == n.len(),
            no < usize::MAX,
            nn < usize::MAX,
            0 <= i <= no,
            0 <= j <= nn,
            forall|k: int| 0 <= k < o.len() ==> #[trigger] olv@[k]@ == o[k],
            forall|k: int| 0 <= k < n.len() ==> #[trigger] nlv@[k]@ == n[k],
            out@ + diff_body(o, n, i as int, j as int) == header + diff_body(o, n, 0, 0),
        decreases no - i + nn - j,
    {
        if i < no && j < nn && crate::text::str_eq(olv[i], nlv[j]) {
            i = i + 1;
            j = j + 1;
        } else {
            // scan the old side forward to the next line equal to new[j]
            let mut i2 = i;
            while i2 < no && (j >= nn || !crate::text::str_eq(olv[i2], nlv[j]))
                invariant
                    i <= i2 <= no,
                    no == olv@.len() == o.len(),
                    nn == nlv@.len() == n.len(),
                    j <= nn,
                    forall|k: int| 0 <= k < o.len() ==> #[trigger] olv@[k]@ == o[k],
                    forall|k: int| 0 <= k < n.len() ==> #[trigger] nlv@[k]@ == n[k],
                    diff_scan_old(o, n, i as int, j as int) == diff_scan_old(
                        o,
                        n,
                        i2 as int,
                        j as int,
                    ),
                decreases no - i2,
            {
                i2 = i2 + 1;
            }
            // then the new side forward to the next line equal to old[i2]
            let mut j2 = j;
            while j2 < nn && (i2 >= no || !crate::text::str_eq(nlv[j2], olv[i2]))
                invariant
                    j <= j2 <= nn,
                    i2 <= no,
                    no == olv@.len() == o.len(),
                    nn == nlv@.len() == n.len(),
                    forall|k: int| 0 <= k < o.len() ==> #[trigger] olv@[k]@ == o[k],
                    forall|k: int| 0 <= k < n.len() ==> #[trigger] nlv@[k]@ == n[k],
                    diff_scan_new(o, n, i2 as int, j as int) == diff_scan_new(
                        o,
                        n,
                        i2 as int,
                        j2 as int,
                    ),
                decreases nn - j2,
            {
                j2 = j2 + 1;
            }
            render_hunk_header(&mut out, i, i2 - i, j, j2 - j);
            render_removed(&mut out, &olv, i, i2, Ghost(o));
            render_added(&mut out, &nlv, j, j2, Ghost(n));
            proof {
                assert(out@ + diff_body(o, n, i2 as int, j2 as int) =~= header + diff_body(
                    o,
                    n,
                    0,
                    0,
                ));
            }
            i = i2;
            j = j2;
        }
    }
    out
}

/// The text with a leading byte-order mark removed, if one is present.
pub open spec fn stripped_of(b: Seq<u8>) -> Seq<u8> {
    if has_bom(b) {
        b.subrange(3, b.len() as int)
    } else {
        b
    }
}

/// The bare line feed as bytes.
pub open spec fn lf_nl() -> Seq<u8> {
    seq![10u8]
}

/// The text's dominant line ending is the carriage-return pair.
pub open spec fn crlf_dominant(b: Seq<u8>) -> bool {
    spec_find_sub(b, crlf_bytes(), 0) >= 0
}

/// Exactly one block of lines matches the normalized anchor.
pub open spec fn fuzzy_unique(cb: Seq<u8>, ob: Seq<u8>) -> bool {
    &&& exists|i: int| fuzzy_window_at(cb, ob, i)
    &&& forall|i1: int, i2: int|
        fuzzy_window_at(cb, ob, i1) && fuzzy_window_at(cb, ob, i2) ==> i1 == i2
}

/// The line index of the unique normalized match.
pub open spec fn fuzzy_index(cb: Seq<u8>, ob: Seq<u8>) -> int {
    choose|i: int| fuzzy_window_at(cb, ob, i)
}

/// Exactly one literal occurrence of the anchor.
pub open spec fn exact_unique(cb: Seq<u8>, ob: Seq<u8>) -> bool {
    ob.len() > 0 && spec_count_matches(cb, ob, 0) == 1
}

/// The byte span the edit replaces, on line-feed-normalized content: the
/// unique literal occurrence, or failing any literal occurrence, the unique
/// block of lines matching the normalized anchor.
pub open spec fn edit_span(cb: Seq<u8>, ob: Seq<u8>) -> Option<(int, int)> {
    if exact_unique(cb, ob) {
        Some((spec_find_sub(cb, ob, 0), spec_find_sub(cb, ob, 0) + ob.len() as int))
    } else if (ob.len() == 0 || spec_count_matches(cb, ob, 0) == 0) && fuzzy_unique(cb, ob) {
        Some(
            (
                line_start(cb, fuzzy_index(cb, ob)),
                line_end(cb, fuzzy_index(cb, ob) + num_lines(ob) - 1),
            ),
        )
    } else {
        None
    }
}

/// A prepared edit: the exact bytes to write back, the one-based line where
/// the anchor was found, and the rendered diff of the change.
#[derive(Debug)]
pub struct EditOutcome {
    pub output: String,
    pub first_line: usize,
    pub diff: String,
}

/// Prepare an edit of `content`: normalize line endings, locate the unique
/// anchor span, splice in the replacement, and restore the original
/// byte-order mark and dominant line-ending style.  The caller writes the
/// returned bytes back atomically.
#[verifier::rlimit(80)]
pub fn apply_edit(content: &str, old_text: &str, new_text: &str, path: &str) -> (r: Result<
    EditOutcome,
    EditError,
>)
    requires
        str_bytes(content).len() + str_bytes(new_text).len() + 4 < usize::MAX,
        str_bytes(old_text).len() < usize::MAX,
    ensures
        ({
            let cb = str_bytes(content);
            let stripped = stripped_of(cb);
            let lf = spec_replace(stripped, crlf_bytes(), lf_nl());
            let olf = spec_replace(str_bytes(old_text), crlf_bytes(), lf_nl());
            let nlf = spec_replace(str_bytes(new_text), crlf_bytes(), lf_nl());
            &&& ((r is Err && r->Err_0 is NoChange) <==> olf == nlf)
            &&& (r is Ok <==> (olf != nlf && edit_span(lf, olf) is Some))
            &&& (r is Ok ==> ({
                let o = r.unwrap();
                let s = edit_span(lf, olf).unwrap().0;
                let e = edit_span(lf, olf).unwrap().1;
                let spliced = lf.subrange(0, s) + nlf + lf.subrange(e, lf.len() as int);
                let restored = if crlf_dominant(stripped) {
                    spec_replace(spliced, lf_nl(), crlf_bytes())
                } else {
                    spliced
                };
                &&& encode_utf8(o.output@) == (if has_bom(cb) {
                    bom_bytes() + restored
                } else {
                    restored
                })
                &&& (exact_unique(lf, olf) ==> o.first_line == num_lines(lf.subrange(0, s)))
                &&& (!exact_unique(lf, olf) ==> o.first_line == fuzzy_index(lf, olf) + 1)
                &&& o.diff@ == "--- a/"@ + path@ + "\n+++ b/"@ + path@ + "\n"@ + diff_body(
                    Seq::new(lines_count(lf), |k: int| decode_utf8(line_seq(lf, k))),
                    Seq::new(lines_count(spliced), |k: int| decode_utf8(line_seq(spliced, k))),
                    0,
                    0,
                )
            }))
            &&& (r is Err ==> ({
                let err = r->Err_0;
                &&& (err matches EditError::AmbiguousExact { count } ==> spec_count_matches(
                    lf,
                    olf,
                    0,
                ) > 1 && count == spec_count_matches(lf, olf, 0))
                &&& (err is NotFound ==> olf != nlf && !exact_unique(lf, olf) && (forall|i: int|
                    !fuzzy_window_at(lf, olf, i)))
                &&& (err is AmbiguousFuzzy ==> !exact_unique(lf, olf) && exists|i1: int, i2: int|
                    i1 < i2 && fuzzy_window_at(lf, olf, i1) && fuzzy_window_at(lf, olf, i2))
            }))
        }),
{
    proof {
        encode_utf8_valid_utf8(content@);
        encode_utf8_valid_utf8(old_text@);
        encode_utf8_valid_utf8(new_text@);
    }
    let ghost cb = str_bytes(content);
    let ghost stripped = stripped_of(cb);
    let (no_bom, had_bom) = strip_bom(content);
    proof {
        assert(encode_utf8(no_bom@) =~= stripped);
        crate::bytefind::lemma_replace_len(stripped, crlf_bytes(), lf_nl(), 0);
        crate::bytefind::lemma_replace_len(str_bytes(old_text), crlf_bytes(), lf_nl(), 0);
        crate::bytefind::lemma_replace_len(str_bytes(new_text), crlf_bytes(), lf_nl(), 0);
    }
    let crlf_lit: &str = "\r\n";
    let lf_lit: &str = "\n";
    proof {
        reveal_strlit("\r\n");
        reveal_strlit("\n");
        assert(crlf_lit@ =~= seq!['\r', '\n']);
        assert(lf_lit@ =~= seq!['\n']);
        assert(is_ascii_chars(crlf_lit@));
        assert(is_ascii_chars(lf_lit@));
        is_ascii_chars_encode_utf8(crlf_lit@);
        is_ascii_chars_encode_utf8(lf_lit@);
        assert(str_bytes(crlf_lit) =~= crlf_bytes());
        assert(str_bytes(lf_lit) =~= lf_nl());
    }
    let crlf_dom = match crate::bytefind::find_sub(no_bom.as_str().as_bytes(), crlf_lit.as_bytes(), 0) {
        Some(_i) => true,
        None => false,
    };
    proof {
        assert(crlf_dom == crlf_dominant(stripped));
    }
    let content_lf = crate::bytefind::replace_str(no_bom.as_str(), crlf_lit, lf_lit);
    let old_lf = crate::bytefind::replace_str(old_text, crlf_lit, lf_lit);
    let new_lf = crate::bytefind::replace_str(new_text, crlf_lit, lf_lit);
    let ghost lfb = spec_replace(stripped, crlf_bytes(), lf_nl());
    let ghost olf = spec_replace(str_bytes(old_text), crlf_bytes(), lf_nl());
    let ghost nlf = spec_replace(str_bytes(new_text), crlf_bytes(), lf_nl());
    proof {
        assert(encode_utf8(content_lf@) == lfb);
        assert(encode_utf8(old_lf@) == olf);
        assert(encode_utf8(new_lf@) == nlf);
        encode_utf8_decode_utf8(content_lf@);
        encode_utf8_decode_utf8(old_lf@);
        encode_utf8_decode_utf8(new_lf@);
    }
    if old_lf == new_lf {
        proof {
            assert(olf == nlf);
        }
        return Err(EditError::NoChange);
    }
    proof {
        assert(olf != nlf);
    }
    let cls = content_lf.as_str();
    let ols = old_lf.as_str();
    proof {
        assert(str_bytes(cls) == lfb);
        assert(str_bytes(ols) == olf);
    }
    let m = match find_exact_match(cls, ols) {
        Ok(m0) => m0,
        Err(e) => {
            match e {
                EditError::AmbiguousExact { count } => {
                    return Err(EditError::AmbiguousExact { count });
                },
                _ => {
                    match find_fuzzy_match(cls, ols) {
                        Ok(m1) => m1,
                        Err(e2) => {
                            proof {
                                assert(!exact_unique(lfb, olf));
                                if e2 is NotFound {
                                    assert(forall|i: int| !fuzzy_window_at(lfb, olf, i));
                                    assert(!fuzzy_unique(lfb, olf));
                                } else {
                                    assert(exists|i1: int, i2: int|
                                        i1 < i2 && fuzzy_window_at(lfb, olf, i1)
                                            && fuzzy_window_at(lfb, olf, i2));
                                    assert(!fuzzy_unique(lfb, olf));
                                }
                                assert(edit_span(lfb, olf) is None);
                            }
                            return Err(e2);
                        },
                    }
                },
            }
        },
    };
    let ghost is_exact = exact_unique(lfb, olf);
    proof {
        encode_utf8_valid_utf8(content_lf@);
        encode_utf8_valid_utf8(old_lf@);
        if is_exact {
            lemma_match_boundaries(lfb, olf, m.start as int);
        } else {
            // a unique fuzzy window was found, and it names the chosen index
            let f = m.first_line - 1;
            assert(fuzzy_window_at(lfb, olf, f as int));
            assert(fuzzy_unique(lfb, olf));
            assert(fuzzy_index(lfb, olf) == f) by {
                assert(fuzzy_window_at(lfb, olf, fuzzy_index(lfb, olf)));
            }
            crate::text::lemma_num_lines_pos(olf, 0);
            assert(f as int + num_lines(olf) <= num_lines(lfb));
            crate::text::lemma_line_bounds_are_boundaries(lfb, f as int);
            crate::text::lemma_line_bounds_are_boundaries(
                lfb,
                f as int + num_lines(olf) as int - 1,
            );
        }
        assert(edit_span(lfb, olf) is Some);
        assert(edit_span(lfb, olf).unwrap().0 == m.start);
        assert(edit_span(lfb, olf).unwrap().1 == m.end);
    }
    let (pre, _r1) = cls.split_at(m.start);
    let (_r2, post) = cls.split_at(m.end);
    let mut sp = pre.to_owned();
    let ghost sp0 = sp@;
    sp.append(new_lf.as_str());
    let ghost sp1 = sp@;
    sp.append(post);
    let ghost spliced = lfb.subrange(0, m.start as int) + nlf + lfb.subrange(
        m.end as int,
        lfb.len() as int,
    );
    proof {
        crate::text::lemma_encode_utf8_concat(sp0, new_lf@);
        crate::text::lemma_encode_utf8_concat(sp1, post@);
        assert(encode_utf8(sp@) =~= spliced);
    }
    let diff = compute_diff(content_lf.as_str(), sp.as_str(), path);
    let with_endings = if crlf_dom {
        crate::bytefind::replace_str(sp.as_str(), lf_lit, crlf_lit)
    } else {
        sp.clone()
    };
    let ghost restored = if crlf_dominant(stripped) {
        spec_replace(spliced, lf_nl(), crlf_bytes())
    } else {
        spliced
    };
    proof {
        assert(encode_utf8(with_endings@) == restored);
    }
    let output = if had_bom {
        let mut t = "\u{FEFF}".to_owned();
        proof {
            reveal_strlit("\u{FEFF}");
            assert(t@ =~= seq!['\u{FEFF}']);
            assert(('\u{FEFF}' as u32) == 0xFEFFu32);
            assert(has_width_3_encoding(0xFEFFu32));
            assert(0xE0u8 | ((0xFEFFu32 >> 12) & 0x0F) as u8 == 0xEFu8) by (bit_vector);
            assert(0x80u8 | ((0xFEFFu32 >> 6) & 0x3F) as u8 == 0xBBu8) by (bit_vector);
            assert(0x80u8 | (0xFEFFu32 & 0x3F) as u8 == 0xBFu8) by (bit_vector);
            assert(encode_scalar('\u{FEFF}' as u32) =~= bom_bytes());
            assert(seq!['\u{FEFF}'].drop_first() =~= Seq::<char>::empty());
            assert(encode_utf8(t@) =~= encode_scalar('\u{FEFF}' as u32) + encode_utf8(
                seq!['\u{FEFF}'].drop_first(),
            ));
            assert(encode_utf8(t@) =~= bom_bytes());
        }
        let ghost t0 = t@;
        t.append(with_endings.as_str());
        proof {
            crate::text::lemma_encode_utf8_concat(t0, with_endings@);
            assert(encode_utf8(t@) =~= bom_bytes() + restored);
        }
        t
    } else {
        with_endings
    };
    Ok(EditOutcome { output, first_line: m.first_line, diff })
}

} // verus!
