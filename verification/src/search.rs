//! The search adapters' pure parts: interpretation of the content
//! searcher's structured event lines, rendering of match blocks, path
//! relativization for filename search, case-insensitive ordering for
//! directory listings, and the shared limit notices.

use crate::bytefind::spec_find_sub;
use crate::normalize::str_chars;
use crate::render::{dec_chars, string_from_chars, u64_to_string};
use crate::text::{str_bytes, str_eq};
use vstd::prelude::*;
use vstd::string::StrSliceExecFns;
use vstd::string::StringExecFns;
use vstd::utf8::*;

verus! {

/// The event type field of a structured search event line, as the outside
/// parser reads it: a function of the line alone, absent when the line is
/// malformed or carries no such field.
pub uninterp spec fn event_type_of(line: Seq<char>) -> Option<Seq<char>>;

/// The matched file path carried by a structured search event line.
pub uninterp spec fn event_path_of(line: Seq<char>) -> Option<Seq<char>>;

/// The one-based line number carried by a structured search event line.
pub uninterp spec fn event_line_of(line: Seq<char>) -> Option<u64>;

/// Relies on serde_json's from_str, Value::pointer, Value::as_str and
/// Value::as_u64: the three fields a match event carries, each determined
/// by the line alone; a line that does not parse yields no fields, and no
/// input panics.
#[verifier::external_body]
fn extract_event_fields(line: &str) -> (r: (Option<String>, Option<String>, Option<u64>))
    ensures
        (match r.0 {
            Some(t) => event_type_of(line@) == Some(t@),
            None => event_type_of(line@) is None,
        }),
        (match r.1 {
            Some(p) => event_path_of(line@) == Some(p@),
            None => event_path_of(line@) is None,
        }),
        r.2 == event_line_of(line@),
{
    let Ok(v) = serde_json::from_str::<serde_json::Value>(line) else {
        return (None, None, None);
    };
    (
        v.pointer("/type").and_then(|x| x.as_str()).map(|s| s.to_string()),
        v.pointer("/data/path/text").and_then(|x| x.as_str()).map(|s| s.to_string()),
        v.pointer("/data/line_number").and_then(|x| x.as_u64()),
    )
}

/// One match reported by the content searcher: the owning file and the
/// one-based line number.
pub struct GrepMatch {
    pub path: String,
    pub line_number: u64,
}

/// What a match event's extracted fields must yield: a match exactly when
/// the event type is `match` and both the path and the line number are
/// present, carrying those two values.
pub fn interpret_event(
    event_type: Option<String>,
    path: Option<String>,
    line_number: Option<u64>,
) -> (r: Option<GrepMatch>)
    ensures
        ({
            let is_match = event_type matches Some(t) && t@ == "match"@;
            &&& (r is Some <==> (is_match && path is Some && line_number is Some))
            &&& (r matches Some(m) ==> m.path@ == path.unwrap()@ && m.line_number
                == line_number.unwrap())
        }),
{
    let tm: &str = "match";
    match event_type {
        None => None,
        Some(t) => {
            if !str_eq(t.as_str(), tm) {
                return None;
            }
            match (path, line_number) {
                (Some(p), Some(n)) => Some(GrepMatch { path: p, line_number: n }),
                _ => None,
            }
        },
    }
}

/// Parse one line of the searcher's structured event stream: a match comes
/// back exactly when the line carries the `match` event type together with
/// a path and a line number, and it carries those two values.  A malformed
/// line yields nothing rather than failing the search.
pub fn parse_match_event(line: &str) -> (r: Option<GrepMatch>)
    ensures
        (r is Some <==> (event_type_of(line@) matches Some(t) && t == "match"@ && event_path_of(
            line@,
        ) is Some && event_line_of(line@) is Some)),
        r matches Some(m) ==> m.path@ == event_path_of(line@).unwrap() && m.line_number
            == event_line_of(line@).unwrap(),
{
    let (t, p, n) = extract_event_fields(line);
    interpret_event(t, p, n)
}

/// Drop every carriage return from a line.
pub fn sanitize_line(line: &str) -> (r: String)
    ensures
        r@ == line@.filter(|c: char| c != '\r'),
{
    let chars = str_chars(line);
    let mut out: Vec<char> = Vec::new();
    let n = chars.len();
    let mut i: usize = 0;
    proof {
        assert(line@.take(0).filter(|c: char| c != '\r') =~= out@);
    }
    while i < n
        invariant
            n == chars@.len(),
            chars@ == line@,
            0 <= i <= n,
            out@ == line@.take(i as int).filter(|c: char| c != '\r'),
        decreases n - i,
    {
        let c = chars[i];
        if c != '\r' {
            out.push(c);
        }
        i = i + 1;
        proof {
            reveal_with_fuel(Seq::<char>::filter, 2);
            assert(line@.take(i as int).drop_last() =~= line@.take(i as int - 1));
            assert(line@.take(i as int).last() == line@[i as int - 1]);
            assert(out@ =~= line@.take(i as int).filter(|c: char| c != '\r'));
        }
    }
    proof {
        assert(line@.take(n as int) =~= line@);
    }
    string_from_chars(&out)
}

/// Render one line of a match block: `path:n: text` for the matched line,
/// `path-n- text` for its context lines.
pub fn render_grep_line(relative_path: &str, number: u64, text: &str, is_match_line: bool) -> (r:
    String)
    ensures
        is_match_line ==> r@ == relative_path@ + ":"@ + dec_chars(number as nat) + ": "@ + text@,
        !is_match_line ==> r@ == relative_path@ + "-"@ + dec_chars(number as nat) + "- "@ + text@,
{
    let mut out = relative_path.to_owned();
    if is_match_line {
        out.append(":");
        let num = u64_to_string(number);
        out.append(num.as_str());
        out.append(": ");
    } else {
        out.append("-");
        let num = u64_to_string(number);
        out.append(num.as_str());
        out.append("- ");
    }
    out.append(text);
    out
}

/// A single notice line: how many matches the cap allowed, and how to see
/// more.
pub fn grep_limit_notice(limit: usize) -> (r: String)
    requires
        limit * 2 <= usize::MAX,
    ensures
        r@ == dec_chars(limit as nat) + " matches limit reached. Use limit="@ + dec_chars(
            2 * limit as nat,
        ) + " for more, or refine pattern"@,
{
    let mut out = u64_to_string(limit as u64);
    out.append(" matches limit reached. Use limit=");
    let d = u64_to_string((limit * 2) as u64);
    out.append(d.as_str());
    out.append(" for more, or refine pattern");
    out
}

/// A single notice line: how many filename results the cap allowed.
pub fn find_limit_notice(limit: usize) -> (r: String)
    requires
        limit * 2 <= usize::MAX,
    ensures
        r@ == dec_chars(limit as nat) + " results limit reached. Use limit="@ + dec_chars(
            2 * limit as nat,
        ) + " for more, or refine pattern"@,
{
    let mut out = u64_to_string(limit as u64);
    out.append(" results limit reached. Use limit=");
    let d = u64_to_string((limit * 2) as u64);
    out.append(d.as_str());
    out.append(" for more, or refine pattern");
    out
}

/// A single notice line: how many directory entries the cap allowed.
pub fn ls_limit_notice(limit: usize) -> (r: String)
    requires
        limit * 2 <= usize::MAX,
    ensures
        r@ == dec_chars(limit as nat) + " entries limit reached. Use limit="@ + dec_chars(
            2 * limit as nat,
        ) + " for more"@,
{
    let mut out = u64_to_string(limit as u64);
    out.append(" entries limit reached. Use limit=");
    let d = u64_to_string((limit * 2) as u64);
    out.append(d.as_str());
    out.append(" for more");
    out
}

/// A single notice line: the byte ceiling was reached.
pub fn bytes_limit_notice(max_bytes: usize) -> (r: String)
    ensures
        r@ == crate::render::format_size_chars(max_bytes as nat) + " limit reached"@,
{
    let mut out = crate::render::format_size(max_bytes);
    out.append(" limit reached");
    out
}

/// A single notice line: some result lines were cut to the per-line budget.
pub fn lines_truncated_notice(max_chars: usize) -> (r: String)
    ensures
        r@ == "Some lines truncated to "@ + dec_chars(max_chars as nat)
            + " chars. Use read tool to see full lines"@,
{
    let mut out = "Some lines truncated to ".to_owned();
    let d = u64_to_string(max_chars as u64);
    out.append(d.as_str());
    out.append(" chars. Use read tool to see full lines");
    out
}

/// Notice lines joined by a period separator.
pub open spec fn join_notices(s: Seq<Seq<char>>) -> Seq<char>
    decreases s.len(),
{
    if s.len() == 0 {
        Seq::empty()
    } else if s.len() == 1 {
        s[0]
    } else {
        join_notices(s.drop_last()) + ". "@ + s.last()
    }
}

/// Append the bracketed notice block, when there is anything to report.
pub fn append_notices(output: &mut String, notices: &Vec<String>)
    ensures
        notices@.len() == 0 ==> final (output)@ == old(output)@,
        notices@.len() > 0 ==> final (output)@ == old(output)@ + "\n\n["@ + join_notices(
            notices@.map_values(|s: String| s@),
        ) + "]"@,
{
    let n = notices.len();
    if n == 0 {
        return ;
    }
    output.append("\n\n[");
    let mut i: usize = 0;
    while i < n
        invariant
            0 < n == notices@.len(),
            0 <= i <= n,
            output@ == old(output)@ + "\n\n["@ + join_notices(
                notices@.map_values(|s: String| s@).take(i as int),
            ) + (if i > 0 && i < n {
                Seq::<char>::empty()
            } else {
                Seq::<char>::empty()
            }),
        decreases n - i,
    {
        if i > 0 {
            output.append(". ");
        }
        output.append(notices[i].as_str());
        i = i + 1;
        proof {
            let m = notices@.map_values(|s: String| s@);
            assert(m.take(i as int).drop_last() =~= m.take(i as int - 1));
            assert(m.take(i as int).last() == m[i as int - 1]);
        }
    }
    output.append("]");
    proof {
        let m = notices@.map_values(|s: String| s@);
        assert(m.take(n as int) =~= m);
    }
}

/// Byte-wise lexicographic order on text.
pub open spec fn lex_le(a: Seq<u8>, b: Seq<u8>) -> bool
    decreases a.len(),
{
    if a.len() == 0 {
        true
    } else if b.len() == 0 {
        false
    } else if a[0] < b[0] {
        true
    } else if a[0] > b[0] {
        false
    } else {
        lex_le(a.drop_first(), b.drop_first())
    }
}

/// The order is total: of two texts, one is always below the other.
pub proof fn lemma_lex_total(a: Seq<u8>, b: Seq<u8>)
    ensures
        lex_le(a, b) || lex_le(b, a),
    decreases a.len(),
{
    if a.len() > 0 && b.len() > 0 && a[0] == b[0] {
        lemma_lex_total(a.drop_first(), b.drop_first());
    }
}

/// Compare two strings in byte-wise lexicographic order.
pub fn str_lex_le(a: &str, b: &str) -> (r: bool)
    ensures
        r == lex_le(str_bytes(a), str_bytes(b)),
{
    let ab = a.as_bytes();
    let bb = b.as_bytes();
    let an = ab.len();
    let bn = bb.len();
    let mut i: usize = 0;
    proof {
        assert(ab@.subrange(0, an as int) =~= ab@);
        assert(bb@.subrange(0, bn as int) =~= bb@);
    }
    loop
        invariant
            an == ab@.len(),
            bn == bb@.len(),
            ab@ == str_bytes(a),
            bb@ == str_bytes(b),
            0 <= i <= an,
            i <= bn,
            lex_le(str_bytes(a), str_bytes(b)) == lex_le(
                ab@.subrange(i as int, an as int),
                bb@.subrange(i as int, bn as int),
            ),
        ensures
            lex_le(str_bytes(a), str_bytes(b)) == lex_le(
                ab@.subrange(i as int, an as int),
                bb@.subrange(i as int, bn as int),
            ),
            i >= an || i >= bn || ab@[i as int] != bb@[i as int],
        decreases an - i,
    {
        if i >= an || i >= bn {
            break ;
        }
        if ab[i] != bb[i] {
            break ;
        }
        proof {
            let sa = ab@.subrange(i as int, an as int);
            let sb = bb@.subrange(i as int, bn as int);
            assert(sa.drop_first() =~= ab@.subrange(i as int + 1, an as int));
            assert(sb.drop_first() =~= bb@.subrange(i as int + 1, bn as int));
        }
        i = i + 1;
    }
    if i >= an {
        proof {
            assert(ab@.subrange(i as int, an as int).len() == 0);
        }
        true
    } else if i >= bn {
        proof {
            assert(bb@.subrange(i as int, bn as int).len() == 0);
        }
        false
    } else {
        ab[i] < bb[i]
    }
}

/// One directory entry prepared for listing: its ordering key (the
/// lowercased name), the name itself, and whether it is a directory.
pub struct LsEntry {
    pub key: String,
    pub name: String,
    pub is_dir: bool,
}

/// The order holds of every text against itself.
pub proof fn lemma_lex_refl(a: Seq<u8>)
    ensures
        lex_le(a, a),
    decreases a.len(),
{
    if a.len() > 0 {
        lemma_lex_refl(a.drop_first());
    }
}

/// Order directory entries by their keys, smallest first, preserving the
/// collection of entries.
pub fn sort_entries(entries: Vec<LsEntry>) -> (r: Vec<LsEntry>)
    ensures
        r@.len() == entries@.len(),
        r@.map_values(|e: LsEntry| (e.key@, e.name@, e.is_dir)).to_multiset() == entries@.map_values(
            |e: LsEntry| (e.key@, e.name@, e.is_dir),
        ).to_multiset(),
        forall|i: int, j: int|
            0 <= i <= j < r@.len() ==> lex_le(
                encode_utf8(#[trigger] r@[i].key@),
                encode_utf8(#[trigger] r@[j].key@),
            ),
{
    let mut rest = entries;
    let mut out: Vec<LsEntry> = Vec::new();
    proof {
        broadcast use vstd::seq_lib::group_to_multiset_ensures;

        let vm = |e: LsEntry| (e.key@, e.name@, e.is_dir);
        assert(out@.map_values(vm) =~= Seq::<(Seq<char>, Seq<char>, bool)>::empty());
        assert(out@.map_values(vm).to_multiset().add(rest@.map_values(vm).to_multiset())
            =~= rest@.map_values(vm).to_multiset());
    }
    while rest.len() > 0
        invariant
            out@.len() + rest@.len() == entries@.len(),
            out@.map_values(|e: LsEntry| (e.key@, e.name@, e.is_dir)).to_multiset().add(
                rest@.map_values(|e: LsEntry| (e.key@, e.name@, e.is_dir)).to_multiset(),
            ) == entries@.map_values(|e: LsEntry| (e.key@, e.name@, e.is_dir)).to_multiset(),
            forall|i: int, j: int|
                0 <= i <= j < out@.len() ==> lex_le(
                    encode_utf8(#[trigger] out@[i].key@),
                    encode_utf8(#[trigger] out@[j].key@),
                ),
            forall|i: int, j: int|
                0 <= i < out@.len() && 0 <= j < rest@.len() ==> lex_le(
                    encode_utf8(#[trigger] out@[i].key@),
                    encode_utf8(#[trigger] rest@[j].key@),
                ),
        decreases rest@.len(),
    {
        let n = rest.len();
        let mut best: usize = 0;
        let mut idx: usize = 1;
        proof {
            lemma_lex_refl(encode_utf8(rest@[0].key@));
        }
        while idx < n
            invariant
                n == rest@.len(),
                0 <= best < n,
                1 <= idx <= n,
                forall|j: int|
                    0 <= j < idx ==> lex_le(
                        encode_utf8(rest@[best as int].key@),
                        encode_utf8(#[trigger] rest@[j].key@),
                    ),
            decreases n - idx,
        {
            if !str_lex_le(rest[best].key.as_str(), rest[idx].key.as_str()) {
                proof {
                    lemma_lex_total(
                        encode_utf8(rest@[best as int].key@),
                        encode_utf8(rest@[idx as int].key@),
                    );
                    lemma_lex_trans_all();
                    lemma_lex_refl(encode_utf8(rest@[idx as int].key@));
                }
                best = idx;
            } else {
            }
            idx = idx + 1;
        }
        let ghost old_rest = rest@;
        let ghost old_out = out@;
        let picked = rest.remove(best);
        out.push(picked);
        proof {
            broadcast use vstd::seq_lib::group_to_multiset_ensures;

            lemma_lex_trans_all();
            let vm = |e: LsEntry| (e.key@, e.name@, e.is_dir);
            assert(rest@.map_values(vm) =~= old_rest.map_values(vm).remove(best as int));
            assert(out@.map_values(vm) =~= old_out.map_values(vm).push(vm(old_rest[best as int])));
            assert(old_rest.map_values(vm)[best as int] == vm(old_rest[best as int]));
            assert(out@.map_values(vm).to_multiset().add(rest@.map_values(vm).to_multiset())
                =~= old_out.map_values(vm).to_multiset().add(
                old_rest.map_values(vm).to_multiset(),
            ));
        }
    }
    out
}

/// Lexicographic order is transitive.
pub proof fn lemma_lex_trans(a: Seq<u8>, b: Seq<u8>, c: Seq<u8>)
    requires
        #[trigger] lex_le(a, b),
        #[trigger] lex_le(b, c),
    ensures
        lex_le(a, c),
    decreases a.len(),
{
    if a.len() > 0 && b.len() > 0 && c.len() > 0 {
        if a[0] == b[0] && b[0] == c[0] {
            lemma_lex_trans(a.drop_first(), b.drop_first(), c.drop_first());
        }
    }
}

proof fn lemma_lex_trans_all()
    ensures
        forall|a: Seq<u8>, b: Seq<u8>, c: Seq<u8>|
            #[trigger] lex_le(a, b) && #[trigger] lex_le(b, c) ==> lex_le(a, c),
{
    assert forall|a: Seq<u8>, b: Seq<u8>, c: Seq<u8>|
        #[trigger] lex_le(a, b) && #[trigger] lex_le(b, c) implies lex_le(a, c) by {
        lemma_lex_trans(a, b, c);
    }
}

/// The lowercased form of a name, as the outside lowercaser computes it: a
/// function of the characters alone.
pub uninterp spec fn lower_of(s: Seq<char>) -> Seq<char>;

/// Relies on str::to_lowercase: the result depends on the characters
/// alone; the empty string stays empty.
#[verifier::external_body]
pub fn lowercase_str(s: &str) -> (r: String)
    ensures
        r@ == lower_of(s@),
        s@.len() == 0 ==> r@.len() == 0,
{
    s.to_lowercase()
}

/// Format the first `limit` sorted entries, a trailing separator marking
/// each directory; report whether the cap cut the listing short.
pub fn format_ls_lines(sorted: &Vec<LsEntry>, limit: usize) -> (r: (Vec<String>, bool))
    ensures
        r.1 == (sorted@.len() > limit),
        r.0@.len() == (if sorted@.len() <= limit {
            sorted@.len() as int
        } else {
            limit as int
        }),
        forall|k: int|
            0 <= k < r.0@.len() ==> (#[trigger] r.0@[k]@) == (if sorted@[k].is_dir {
                sorted@[k].name@ + "/"@
            } else {
                sorted@[k].name@
            }),
{
    let n = sorted.len();
    let take = if n <= limit {
        n
    } else {
        limit
    };
    let mut out: Vec<String> = Vec::new();
    let mut k: usize = 0;
    while k < take
        invariant
            take <= n == sorted@.len(),
            0 <= k <= take,
            out@.len() == k,
            forall|j: int|
                0 <= j < k ==> (#[trigger] out@[j]@) == (if sorted@[j].is_dir {
                    sorted@[j].name@ + "/"@
                } else {
                    sorted@[j].name@
                }),
        decreases take - k,
    {
        let e = &sorted[k];
        let mut line = e.name.clone();
        if e.is_dir {
            line.append("/");
        }
        out.push(line);
        k = k + 1;
    }
    (out, n > limit)
}

/// A filename-search result line relativized to the search root: an
/// absolute path under the root loses the root prefix and its leading
/// separators, and a trailing separator seen on the raw line is restored.
pub open spec fn spec_relativize(line: Seq<char>, root: Seq<char>) -> Seq<char> {
    let had_slash = line.len() > 0 && (line.last() == '/' || line.last() == '\\');
    let rel = if line.len() > 0 && line[0] == '/' && root.len() <= line.len() && line.subrange(
        0,
        root.len() as int,
    ) == root {
        strip_leading_seps(line.subrange(root.len() as int, line.len() as int))
    } else {
        line
    };
    if had_slash && !(rel.len() > 0 && rel.last() == '/') {
        rel + "/"@
    } else {
        rel
    }
}

/// A path with its leading separators removed.
pub open spec fn strip_leading_seps(p: Seq<char>) -> Seq<char>
    decreases p.len(),
{
    if p.len() > 0 && (p[0] == '/' || p[0] == '\\') {
        strip_leading_seps(p.drop_first())
    } else {
        p
    }
}

/// Relativize one trimmed result line against the search root.
pub fn relativize_line(line: &str, root: &str) -> (r: String)
    ensures
        r@ == spec_relativize(line@, root@),
{
    let chars = str_chars(line);
    let rootc = str_chars(root);
    let n = chars.len();
    let rn = rootc.len();
    let had_slash = n > 0 && (chars[n - 1] == '/' || chars[n - 1] == '\\');
    let mut is_under = n > 0 && chars[0] == '/' && rn <= n;
    if is_under {
        let mut i: usize = 0;
        while i < rn
            invariant_except_break
                0 <= i <= rn,
                is_under,
                forall|t: int| 0 <= t < i ==> chars@[t] == rootc@[t],
            invariant
                rn <= n == chars@.len(),
                rn == rootc@.len(),
                chars@ == line@,
                rootc@ == root@,
            ensures
                is_under ==> forall|t: int| 0 <= t < rn ==> chars@[t] == rootc@[t],
                !is_under ==> line@.subrange(0, rn as int) != root@,
            decreases rn - i,
        {
            if chars[i] != rootc[i] {
                is_under = false;
                proof {
                    assert(line@.subrange(0, rn as int)[i as int] != root@[i as int]);
                }
                break ;
            }
            i = i + 1;
        }
        proof {
            if is_under {
                assert(line@.subrange(0, rn as int) =~= root@);
            }
        }
    } else {
    }
    let mut rel: Vec<char> = Vec::new();
    if is_under {
        let mut s = rn;
        while s < n && (chars[s] == '/' || chars[s] == '\\')
            invariant
                rn <= s <= n == chars@.len(),
                chars@ == line@,
                strip_leading_seps(line@.subrange(rn as int, n as int)) == strip_leading_seps(
                    line@.subrange(s as int, n as int),
                ),
            decreases n - s,
        {
            proof {
                assert(line@.subrange(s as int, n as int).drop_first() =~= line@.subrange(
                    s as int + 1,
                    n as int,
                ));
            }
            s = s + 1;
        }
        let mut i = s;
        while i < n
            invariant
                s <= i <= n == chars@.len(),
                chars@ == line@,
                rel@ =~= line@.subrange(s as int, i as int),
            decreases n - i,
        {
            rel.push(chars[i]);
            i = i + 1;
        }
        proof {
            assert(rel@ =~= strip_leading_seps(line@.subrange(rn as int, n as int)));
        }
    } else {
        let mut i: usize = 0;
        while i < n
            invariant
                0 <= i <= n == chars@.len(),
                chars@ == line@,
                rel@ =~= line@.subrange(0, i as int),
            decreases n - i,
        {
            rel.push(chars[i]);
            i = i + 1;
        }
        proof {
            assert(rel@ =~= line@);
        }
    }
    let rl = rel.len();
    if had_slash && !(rl > 0 && rel[rl - 1] == '/') {
        rel.push('/');
        proof {
            let base = if is_under {
                strip_leading_seps(line@.subrange(rn as int, n as int))
            } else {
                line@
            };
            assert(rel@ =~= base + "/"@) by {
                reveal_strlit("/");
                assert("/"@ =~= seq!['/']);
            }
        }
    }
    string_from_chars(&rel)
}

/// Index of the last occurrence of a character, or `-1`.
pub open spec fn spec_char_rfind(s: Seq<char>, c: char) -> int
    decreases s.len(),
{
    if s.len() == 0 {
        -1
    } else if s.last() == c {
        s.len() - 1
    } else {
        spec_char_rfind(s.drop_last(), c)
    }
}

/// Backslash-to-slash normalization of one character.
pub open spec fn slash_norm(c: char) -> char {
    if c == '\\' {
        '/'
    } else {
        c
    }
}

/// The path under which a content-search match is reported: relative to
/// the search root when searching a directory and the match lies under it
/// (separators normalized), else just the file's name.
pub open spec fn spec_grep_path(fp: Seq<char>, sp: Seq<char>, is_dir: bool) -> Seq<char> {
    let rel = strip_leading_seps(fp.subrange(sp.len() as int, fp.len() as int)).map_values(
        |c: char| slash_norm(c),
    );
    // the match lies under the root only when the prefix ends at a
    // component boundary, not merely at a character boundary
    let at_component = sp.len() == fp.len() || (sp.len() < fp.len() && (fp[sp.len() as int] == '/'
        || fp[sp.len() as int] == '\\')) || (sp.len() > 0 && (sp.last() == '/' || sp.last()
        == '\\'));
    if is_dir && sp.len() <= fp.len() && fp.subrange(0, sp.len() as int) == sp && at_component
        && rel.len() > 0 && !(rel.len() >= 2 && rel[0] == '.' && rel[1] == '.') {
        rel
    } else {
        fp.subrange(spec_char_rfind(fp, '/') + 1, fp.len() as int)
    }
}

/// Report path for one match, relative to the search root where possible.
pub fn format_grep_path(file_path: &str, search_path: &str, is_directory: bool) -> (r: String)
    ensures
        r@ == spec_grep_path(file_path@, search_path@, is_directory),
{
    let fc = str_chars(file_path);
    let sc = str_chars(search_path);
    let n = fc.len();
    let sn = sc.len();
    let mut under = is_directory && sn <= n;
    if under {
        let mut i: usize = 0;
        while i < sn
            invariant_except_break
                0 <= i <= sn,
                under,
                forall|t: int| 0 <= t < i ==> fc@[t] == sc@[t],
            invariant
                sn <= n == fc@.len(),
                sn == sc@.len(),
                fc@ == file_path@,
                sc@ == search_path@,
            ensures
                under ==> forall|t: int| 0 <= t < sn ==> fc@[t] == sc@[t],
                !under ==> file_path@.subrange(0, sn as int) != search_path@,
            decreases sn - i,
        {
            if fc[i] != sc[i] {
                under = false;
                proof {
                    assert(file_path@.subrange(0, sn as int)[i as int] != search_path@[i as int]);
                }
                break ;
            }
            i = i + 1;
        }
        proof {
            if under {
                assert(file_path@.subrange(0, sn as int) =~= search_path@);
            }
        }
    } else {
    }
    if under {
        let at_component = sn == n || fc[sn] == '/' || fc[sn] == '\\' || (sn > 0 && (sc[sn - 1]
            == '/' || sc[sn - 1] == '\\'));
        if !at_component {
            under = false;
        }
    } else {
    }
    if under {
        let mut s = sn;
        while s < n && (fc[s] == '/' || fc[s] == '\\')
            invariant
                sn <= s <= n == fc@.len(),
                fc@ == file_path@,
                strip_leading_seps(file_path@.subrange(sn as int, n as int)) == strip_leading_seps(
                    file_path@.subrange(s as int, n as int),
                ),
            decreases n - s,
        {
            proof {
                assert(file_path@.subrange(s as int, n as int).drop_first() =~= file_path@.subrange(
                    s as int + 1,
                    n as int,
                ));
            }
            s = s + 1;
        }
        let mut rel: Vec<char> = Vec::new();
        let mut i = s;
        while i < n
            invariant
                s <= i <= n == fc@.len(),
                fc@ == file_path@,
                rel@ =~= file_path@.subrange(s as int, i as int).map_values(
                    |c: char| slash_norm(c),
                ),
            decreases n - i,
        {
            let c = fc[i];
            if c == '\\' {
                rel.push('/');
            } else {
                rel.push(c);
            }
            i = i + 1;
            proof {
                assert(rel@ =~= file_path@.subrange(s as int, i as int).map_values(
                    |c: char| slash_norm(c),
                ));
            }
        }
        proof {
            assert(file_path@.subrange(s as int, n as int) =~= strip_leading_seps(
                file_path@.subrange(sn as int, n as int),
            ));
        }
        let rl = rel.len();
        let dotdot = rl >= 2 && rel[0] == '.' && rel[1] == '.';
        if rl > 0 && !dotdot {
            return string_from_chars(&rel);
        }
    }
    // fall back to the file's own name, after the last separator
    let mut q = n;
    proof {
        assert(file_path@.subrange(0, n as int) =~= file_path@);
    }
    while q > 0 && fc[q - 1] != '/'
        invariant
            0 <= q <= n == fc@.len(),
            fc@ == file_path@,
            spec_char_rfind(file_path@, '/') == spec_char_rfind(file_path@.subrange(0, q as int), '/'),
        decreases q,
    {
        proof {
            assert(file_path@.subrange(0, q as int).last() == file_path@[q as int - 1]);
            assert(file_path@.subrange(0, q as int).drop_last() =~= file_path@.subrange(
                0,
                q as int - 1,
            ));
        }
        q = q - 1;
    }
    proof {
        assert(file_path@.subrange(0, n as int) =~= file_path@);
        if q > 0 {
            assert(file_path@.subrange(0, q as int).last() == file_path@[q as int - 1]);
        } else {
            assert(file_path@.subrange(0, 0).len() == 0);
        }
        assert(spec_char_rfind(file_path@, '/') == q - 1);
    }
    let mut name: Vec<char> = Vec::new();
    let mut i = q;
    while i < n
        invariant
            q <= i <= n == fc@.len(),
            fc@ == file_path@,
            name@ =~= file_path@.subrange(q as int, i as int),
        decreases n - i,
    {
        name.push(fc[i]);
        i = i + 1;
    }
    proof {
        assert(name@ =~= file_path@.subrange(
            spec_char_rfind(file_path@, '/') + 1,
            file_path@.len() as int,
        ));
    }
    string_from_chars(&name)
}

/// Whether an ignore-rule candidate file is kept: files under dependency
/// or version-control internals are skipped.
pub open spec fn keep_ignore_file(p: Seq<u8>) -> bool {
    &&& spec_find_sub(p, encode_utf8("node_modules"@), 0) < 0
    &&& spec_find_sub(p, encode_utf8("/.git/"@), 0) < 0
}

/// The candidates from `from` on folded into `acc`: each kept file that is
/// not already present is appended, in order of first occurrence.
pub open spec fn spec_select_ignore(c: Seq<Seq<char>>, from: int, acc: Seq<Seq<char>>) -> Seq<
    Seq<char>,
>
    decreases c.len() - from,
{
    if from < 0 || from >= c.len() {
        acc
    } else {
        let x = c[from];
        let acc2 = if keep_ignore_file(encode_utf8(x)) && !acc.contains(x) {
            acc.push(x)
        } else {
            acc
        };
        spec_select_ignore(c, from + 1, acc2)
    }
}

/// Filter discovered ignore-rule files, dropping dependency and
/// version-control internals and duplicates, keeping first occurrences in
/// order.
pub fn select_ignore_files(candidates: &Vec<String>) -> (r: Vec<String>)
    ensures
        r@.map_values(|s: String| s@) == spec_select_ignore(
            candidates@.map_values(|s: String| s@),
            0,
            Seq::empty(),
        ),
        forall|k: int| 0 <= k < r@.len() ==> keep_ignore_file(encode_utf8(#[trigger] r@[k]@)),
        forall|k1: int, k2: int| 0 <= k1 < k2 < r@.len() ==> r@[k1]@ != r@[k2]@,
        r@.len() <= candidates@.len(),
{
    let nm: &str = "node_modules";
    let gd: &str = "/.git/";
    proof {
        reveal_strlit("node_modules");
        reveal_strlit("/.git/");
        assert(nm@.len() == 12);
        assert(gd@.len() == 6);
        assert(is_ascii_chars(nm@));
        assert(is_ascii_chars(gd@));
        is_ascii_chars_encode_utf8(nm@);
        is_ascii_chars_encode_utf8(gd@);
    }
    let mut r: Vec<String> = Vec::new();
    let n = candidates.len();
    let mut i: usize = 0;
    let ghost cv = candidates@.map_values(|s: String| s@);
    proof {
        assert(r@.map_values(|s: String| s@) =~= Seq::<Seq<char>>::empty());
    }
    while i < n
        invariant
            n == candidates@.len(),
            cv == candidates@.map_values(|s: String| s@),
            nm@ == "node_modules"@,
            gd@ == "/.git/"@,
            str_bytes(nm).len() > 0,
            str_bytes(gd).len() > 0,
            0 <= i <= n,
            r@.len() <= i,
            spec_select_ignore(cv, 0, Seq::empty()) == spec_select_ignore(
                cv,
                i as int,
                r@.map_values(|s: String| s@),
            ),
            forall|k: int| 0 <= k < r@.len() ==> keep_ignore_file(encode_utf8(#[trigger] r@[k]@)),
            forall|k1: int, k2: int| 0 <= k1 < k2 < r@.len() ==> r@[k1]@ != r@[k2]@,
        decreases n - i,
    {
        let ghost acc0 = r@.map_values(|s: String| s@);
        let c = &candidates[i];
        proof {
            crate::bytefind::lemma_find_sub_props(encode_utf8(c@), str_bytes(nm), 0);
            crate::bytefind::lemma_find_sub_props(encode_utf8(c@), str_bytes(gd), 0);
        }
        let keep = crate::bytefind::find_sub(c.as_str().as_bytes(), nm.as_bytes(), 0).is_none()
            && crate::bytefind::find_sub(c.as_str().as_bytes(), gd.as_bytes(), 0).is_none();
        proof {
            assert(keep == keep_ignore_file(encode_utf8(c@)));
        }
        if keep {
            let mut dup = false;
            let m = r.len();
            let mut t: usize = 0;
            while t < m
                invariant_except_break
                    !dup,
                    0 <= t <= m,
                    forall|k: int| 0 <= k < t ==> (#[trigger] r@[k]@) != c@,
                invariant
                    m == r@.len(),
                ensures
                    !dup ==> forall|k: int| 0 <= k < m ==> (#[trigger] r@[k]@) != c@,
                    dup ==> exists|k: int| 0 <= k < m && (#[trigger] r@[k]@) == c@,
                decreases m - t,
            {
                if str_eq(r[t].as_str(), c.as_str()) {
                    dup = true;
                    proof {
                        assert(r@[t as int]@ == c@);
                    }
                    break ;
                }
                t = t + 1;
            }
            if !dup {
                r.push(c.clone());
                proof {
                    assert(r@[r@.len() - 1]@ == candidates@[i as int]@);
                }
            }
            proof {
                let vm = |s: String| s@;
                assert(cv[i as int] == c@);
                assert(acc0.contains(c@) == dup) by {
                    if dup {
                        let kk = choose|k: int| 0 <= k < m && (#[trigger] r@[k]@) == c@;
                        assert(acc0[kk] == c@);
                    } else {
                        if acc0.contains(c@) {
                            let kk = choose|k: int|
                                0 <= k < acc0.len() && #[trigger] acc0[k] == c@;
                            assert(r@[kk]@ == c@);
                        }
                    }
                }
                if !dup {
                    assert(r@.map_values(vm) =~= acc0.push(c@));
                }
                assert(spec_select_ignore(cv, i as int, acc0) == spec_select_ignore(
                    cv,
                    i as int + 1,
                    r@.map_values(vm),
                ));
            }
        } else {
            proof {
                let vm = |s: String| s@;
                assert(cv[i as int] == c@);
                assert(spec_select_ignore(cv, i as int, acc0) == spec_select_ignore(
                    cv,
                    i as int + 1,
                    r@.map_values(vm),
                ));
            }
        }
        i = i + 1;
    }
    r
}

} // verus!
