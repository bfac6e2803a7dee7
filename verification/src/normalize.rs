//! Character normalization used by fuzzy anchor matching: unicode space,
//! quote and dash variants are collapsed to their ASCII counterparts, and
//! trailing whitespace is ignored.

use vstd::prelude::*;

verus! {

/// Unicode space characters that are collapsed to an ASCII space.
pub open spec fn spec_special_space(c: char) -> bool {
    c == '\u{00A0}' || c == '\u{202F}' || c == '\u{205F}' || c == '\u{3000}' || ('\u{2000}' <= c
        && c <= '\u{200A}')
}

/// True for the unicode space variants that matching treats as a plain space.
pub fn is_special_unicode_space(c: char) -> (r: bool)
    ensures
        r == spec_special_space(c),
{
    c == '\u{00A0}' || c == '\u{202F}' || c == '\u{205F}' || c == '\u{3000}' || ('\u{2000}' <= c
        && c <= '\u{200A}')
}

/// Space-variant collapsing, one character at a time.
pub open spec fn space_norm(c: char) -> char {
    if spec_special_space(c) {
        ' '
    } else {
        c
    }
}

/// Quote-variant collapsing: curly single quotes become an apostrophe,
/// curly double quotes a straight double quote.
pub open spec fn quote_norm(c: char) -> char {
    if c == '\u{2018}' || c == '\u{2019}' {
        '\''
    } else if c == '\u{201C}' || c == '\u{201D}' || c == '\u{201E}' || c == '\u{201F}' {
        '"'
    } else {
        c
    }
}

/// Dash-variant collapsing to the ASCII hyphen.
pub open spec fn dash_norm(c: char) -> char {
    if c == '\u{2010}' || c == '\u{2011}' || c == '\u{2012}' || c == '\u{2013}' || c == '\u{2014}'
        || c == '\u{2015}' || c == '\u{2212}' {
        '-'
    } else {
        c
    }
}

/// The full normalization applied before fuzzy comparison.
pub open spec fn match_norm(c: char) -> char {
    dash_norm(quote_norm(space_norm(c)))
}

/// Characters with the Unicode `White_Space` property, as `char::is_whitespace`
/// reports them.
pub open spec fn spec_is_ws(c: char) -> bool {
    c == ' ' || c == '\t' || c == '\n' || c == '\r' || c == '\u{000B}' || c == '\u{000C}' || c
        == '\u{0085}' || c == '\u{00A0}' || c == '\u{1680}' || ('\u{2000}' <= c && c <= '\u{200A}')
        || c == '\u{2028}' || c == '\u{2029}' || c == '\u{202F}' || c == '\u{205F}' || c
        == '\u{3000}'
}

fn is_ws(c: char) -> (r: bool)
    ensures
        r == spec_is_ws(c),
{
    c == ' ' || c == '\t' || c == '\n' || c == '\r' || c == '\u{000B}' || c == '\u{000C}' || c
        == '\u{0085}' || c == '\u{00A0}' || c == '\u{1680}' || ('\u{2000}' <= c && c <= '\u{200A}')
        || c == '\u{2028}' || c == '\u{2029}' || c == '\u{202F}' || c == '\u{205F}' || c
        == '\u{3000}'
}

/// A character sequence with its trailing whitespace removed.
pub open spec fn trim_end_chars(s: Seq<char>) -> Seq<char>
    decreases s.len(),
{
    if s.len() > 0 && spec_is_ws(s.last()) {
        trim_end_chars(s.drop_last())
    } else {
        s
    }
}

/// A character sequence with its leading whitespace removed.
pub open spec fn trim_start_chars(s: Seq<char>) -> Seq<char>
    decreases s.len(),
{
    if s.len() > 0 && spec_is_ws(s.first()) {
        trim_start_chars(s.drop_first())
    } else {
        s
    }
}

/// A line with whitespace removed from both ends.
pub open spec fn spec_trim(s: Seq<char>) -> Seq<char> {
    trim_start_chars(trim_end_chars(s))
}

/// Remove whitespace from both ends of a line.
pub fn trim_both(line: &str) -> (r: String)
    ensures
        r@ == spec_trim(line@),
{
    let chars = str_chars(line);
    let mut end = chars.len();
    proof {
        assert(line@.take(line@.len() as int) =~= line@);
    }
    while end > 0 && is_ws(chars[end - 1])
        invariant
            chars@ == line@,
            0 <= end <= chars@.len(),
            trim_end_chars(line@) == trim_end_chars(line@.take(end as int)),
        decreases end,
    {
        proof {
            assert(line@.take(end as int).drop_last() =~= line@.take(end as int - 1));
        }
        end = end - 1;
    }
    proof {
        if end > 0 {
            assert(!spec_is_ws(line@.take(end as int).last()));
        }
        assert(trim_end_chars(line@.take(end as int)) == line@.take(end as int));
    }
    let ghost te = line@.take(end as int);
    let mut start: usize = 0;
    proof {
        assert(te.subrange(0, end as int) =~= te);
    }
    while start < end && is_ws(chars[start])
        invariant
            chars@ == line@,
            0 <= start <= end <= chars@.len(),
            te == line@.take(end as int),
            trim_start_chars(te) == trim_start_chars(te.subrange(start as int, end as int)),
        decreases end - start,
    {
        proof {
            assert(te.subrange(start as int, end as int).drop_first() =~= te.subrange(
                start as int + 1,
                end as int,
            ));
            assert(te.subrange(start as int, end as int).first() == line@[start as int]);
        }
        start = start + 1;
    }
    proof {
        if start < end {
            assert(te.subrange(start as int, end as int).first() == line@[start as int]);
        }
        assert(trim_start_chars(te.subrange(start as int, end as int)) == te.subrange(
            start as int,
            end as int,
        ));
    }
    let mut out: Vec<char> = Vec::new();
    let mut i = start;
    while i < end
        invariant
            start <= i <= end <= chars@.len(),
            chars@ == line@,
            out@ =~= line@.subrange(start as int, i as int),
        decreases end - i,
    {
        out.push(chars[i]);
        i = i + 1;
    }
    proof {
        assert(line@.subrange(start as int, end as int) =~= line@.take(end as int).subrange(
            start as int,
            end as int,
        ));
        assert(out@ =~= spec_trim(line@));
    }
    crate::render::string_from_chars(&out)
}

/// Relies on str::chars: the characters of the string in order.
#[verifier::external_body]
pub(crate) fn str_chars(s: &str) -> (r: Vec<char>)
    ensures
        r@ == s@,
{
    s.chars().collect()
}

fn match_norm_exec(c: char) -> (r: char)
    ensures
        r == match_norm(c),
{
    let s = if is_special_unicode_space(c) {
        ' '
    } else {
        c
    };
    let q = if s == '\u{2018}' || s == '\u{2019}' {
        '\''
    } else if s == '\u{201C}' || s == '\u{201D}' || s == '\u{201E}' || s == '\u{201F}' {
        '"'
    } else {
        s
    };
    if q == '\u{2010}' || q == '\u{2011}' || q == '\u{2012}' || q == '\u{2013}' || q == '\u{2014}'
        || q == '\u{2015}' || q == '\u{2212}' {
        '-'
    } else {
        q
    }
}

/// Collapse unicode space variants to ASCII spaces.
pub fn normalize_unicode_spaces(s: &str) -> (r: String)
    ensures
        r@ == s@.map_values(|c: char| space_norm(c)),
{
    let chars = str_chars(s);
    let mut out: Vec<char> = Vec::new();
    let n = chars.len();
    let mut i: usize = 0;
    while i < n
        invariant
            n == chars@.len(),
            chars@ == s@,
            0 <= i <= n,
            out@ =~= s@.map_values(|c: char| space_norm(c)).take(i as int),
        decreases n - i,
    {
        let c = chars[i];
        if is_special_unicode_space(c) {
            out.push(' ');
        } else {
            out.push(c);
        }
        i = i + 1;
        proof {
            assert(out@ =~= s@.map_values(|c: char| space_norm(c)).take(i as int));
        }
    }
    proof {
        assert(out@ =~= s@.map_values(|c: char| space_norm(c)));
    }
    crate::render::string_from_chars(&out)
}

/// Collapse curly quote variants to straight quotes.
pub fn normalize_quotes(s: &str) -> (r: String)
    ensures
        r@ == s@.map_values(|c: char| quote_norm(c)),
{
    let chars = str_chars(s);
    let mut out: Vec<char> = Vec::new();
    let n = chars.len();
    let mut i: usize = 0;
    while i < n
        invariant
            n == chars@.len(),
            chars@ == s@,
            0 <= i <= n,
            out@ =~= s@.map_values(|c: char| quote_norm(c)).take(i as int),
        decreases n - i,
    {
        let c = chars[i];
        if c == '\u{2018}' || c == '\u{2019}' {
            out.push('\'');
        } else if c == '\u{201C}' || c == '\u{201D}' || c == '\u{201E}' || c == '\u{201F}' {
            out.push('"');
        } else {
            out.push(c);
        }
        i = i + 1;
        proof {
            assert(out@ =~= s@.map_values(|c: char| quote_norm(c)).take(i as int));
        }
    }
    proof {
        assert(out@ =~= s@.map_values(|c: char| quote_norm(c)));
    }
    crate::render::string_from_chars(&out)
}

/// Collapse unicode dash variants to the ASCII hyphen.
pub fn normalize_dashes(s: &str) -> (r: String)
    ensures
        r@ == s@.map_values(|c: char| dash_norm(c)),
{
    let chars = str_chars(s);
    let mut out: Vec<char> = Vec::new();
    let n = chars.len();
    let mut i: usize = 0;
    while i < n
        invariant
            n == chars@.len(),
            chars@ == s@,
            0 <= i <= n,
            out@ =~= s@.map_values(|c: char| dash_norm(c)).take(i as int),
        decreases n - i,
    {
        let c = chars[i];
        if c == '\u{2010}' || c == '\u{2011}' || c == '\u{2012}' || c == '\u{2013}' || c
            == '\u{2014}' || c == '\u{2015}' || c == '\u{2212}' {
            out.push('-');
        } else {
            out.push(c);
        }
        i = i + 1;
        proof {
            assert(out@ =~= s@.map_values(|c: char| dash_norm(c)).take(i as int));
        }
    }
    proof {
        assert(out@ =~= s@.map_values(|c: char| dash_norm(c)));
    }
    crate::render::string_from_chars(&out)
}

/// Spaces, quotes and dashes collapsed in one pass.
pub fn normalize_for_match(s: &str) -> (r: String)
    ensures
        r@ == s@.map_values(|c: char| match_norm(c)),
{
    let chars = str_chars(s);
    let mut out: Vec<char> = Vec::new();
    let n = chars.len();
    let mut i: usize = 0;
    while i < n
        invariant
            n == chars@.len(),
            chars@ == s@,
            0 <= i <= n,
            out@ =~= s@.map_values(|c: char| match_norm(c)).take(i as int),
        decreases n - i,
    {
        out.push(match_norm_exec(chars[i]));
        i = i + 1;
        proof {
            assert(out@ =~= s@.map_values(|c: char| match_norm(c)).take(i as int));
        }
    }
    proof {
        assert(out@ =~= s@.map_values(|c: char| match_norm(c)));
    }
    crate::render::string_from_chars(&out)
}

/// The normalized form of one line as fuzzy matching compares it: trailing
/// whitespace dropped, then variants collapsed.
pub open spec fn spec_norm_line(s: Seq<char>) -> Seq<char> {
    trim_end_chars(s).map_values(|c: char| match_norm(c))
}

/// Normalize one line for fuzzy comparison.
pub fn normalize_line_for_match(line: &str) -> (r: String)
    ensures
        r@ == spec_norm_line(line@),
{
    let chars = str_chars(line);
    let mut end = chars.len();
    proof {
        assert(line@.take(line@.len() as int) =~= line@);
    }
    while end > 0 && is_ws(chars[end - 1])
        invariant
            chars@ == line@,
            0 <= end <= chars@.len(),
            trim_end_chars(line@) == trim_end_chars(line@.take(end as int)),
        decreases end,
    {
        proof {
            assert(line@.take(end as int).drop_last() =~= line@.take(end as int - 1));
        }
        end = end - 1;
    }
    proof {
        if end > 0 {
            assert(!spec_is_ws(line@.take(end as int).last()));
        }
        assert(trim_end_chars(line@.take(end as int)) == line@.take(end as int));
    }
    let mut out: Vec<char> = Vec::new();
    let mut i: usize = 0;
    while i < end
        invariant
            chars@ == line@,
            0 <= i <= end <= chars@.len(),
            trim_end_chars(line@) == line@.take(end as int),
            out@ =~= line@.take(end as int).map_values(|c: char| match_norm(c)).take(i as int),
        decreases end - i,
    {
        out.push(match_norm_exec(chars[i]));
        i = i + 1;
        proof {
            assert(out@ =~= line@.take(end as int).map_values(|c: char| match_norm(c)).take(
                i as int,
            ));
        }
    }
    proof {
        assert(out@ =~= spec_norm_line(line@));
    }
    crate::render::string_from_chars(&out)
}

} // verus!
