//! Pure helpers for artifact provenance records: license detection from
//! text, repository-URL cleanup, community-author extraction, and archive
//! filename recognition.

use crate::normalize::{spec_trim, str_chars, trim_both};
use crate::render::string_from_chars;
use crate::text::{lemma_str_bytes_nonempty, str_bytes, str_eq};
use crate::tools::{extension_lower, lower_byte, spec_ext};
use vstd::prelude::*;
use vstd::string::StrSliceExecFns;
use vstd::string::StringExecFns;
use vstd::utf8::*;

verus! {

/// ASCII uppercasing of one character.
pub open spec fn upper_ascii(c: char) -> char {
    if 'a' <= c && c <= 'z' {
        ((c as u32) - 32) as char
    } else {
        c
    }
}

/// The text uppercased for license matching.
pub open spec fn upper_of(t: Seq<char>) -> Seq<char> {
    t.map_values(|c: char| upper_ascii(c))
}

/// The prefix test used throughout: the first characters equal the pattern.
pub open spec fn chars_start_with(s: Seq<char>, p: Seq<char>) -> bool {
    p.len() <= s.len() && s.subrange(0, p.len() as int) == p
}

/// The containment test: the pattern occurs somewhere in the text.
pub open spec fn chars_contain(s: Seq<char>, p: Seq<char>) -> bool {
    exists|i: int| 0 <= i && i + p.len() <= s.len() && #[trigger] s.subrange(i, i + p.len()) == p
}

/// True when the text begins with the pattern.
pub fn str_starts_with(s: &str, p: &str) -> (r: bool)
    ensures
        r == chars_start_with(s@, p@),
{
    let sc = str_chars(s);
    let pc = str_chars(p);
    let sn = sc.len();
    let pn = pc.len();
    if pn > sn {
        return false;
    }
    let mut i: usize = 0;
    while i < pn
        invariant
            pn <= sn,
            sn == sc@.len(),
            pn == pc@.len(),
            sc@ == s@,
            pc@ == p@,
            0 <= i <= pn,
            forall|t: int| 0 <= t < i ==> s@[t] == p@[t],
        decreases pn - i,
    {
        if sc[i] != pc[i] {
            proof {
                assert(s@.subrange(0, pn as int)[i as int] != p@[i as int]);
            }
            return false;
        }
        i = i + 1;
    }
    proof {
        assert(s@.subrange(0, pn as int) =~= p@);
    }
    true
}

/// True when the text contains the pattern somewhere.
pub fn str_contains(s: &str, p: &str) -> (r: bool)
    requires
        p@.len() > 0,
        str_bytes(s).len() < usize::MAX,
    ensures
        r == chars_contain(s@, p@),
{
    proof {
        encode_utf8_valid_utf8(s@);
        encode_utf8_valid_utf8(p@);
        lemma_str_bytes_nonempty(p@);
        crate::bytefind::lemma_find_sub_props(str_bytes(s), str_bytes(p), 0);
    }
    let r = match crate::bytefind::find_sub(s.as_bytes(), p.as_bytes(), 0) {
        Some(_i) => true,
        None => false,
    };
    proof {
        lemma_byte_contains_chars(s@, p@);
    }
    r
}

/// A byte-level occurrence of one valid text inside another is exactly a
/// character-level occurrence.
proof fn lemma_byte_contains_chars(s: Seq<char>, p: Seq<char>)
    requires
        p.len() > 0,
    ensures
        (crate::bytefind::spec_find_sub(encode_utf8(s), encode_utf8(p), 0) >= 0) <==> chars_contain(
            s,
            p,
        ),
{
    encode_utf8_valid_utf8(s);
    encode_utf8_valid_utf8(p);
    let sb = encode_utf8(s);
    let pb = encode_utf8(p);
    crate::bytefind::lemma_find_sub_props(sb, pb, 0);
    lemma_str_bytes_nonempty(p);
    if crate::bytefind::spec_find_sub(sb, pb, 0) >= 0 {
        let j = crate::bytefind::spec_find_sub(sb, pb, 0);
        crate::bytefind::lemma_match_boundaries(sb, pb, j);
        decode_utf8_split(sb, j);
        let pre = sb.subrange(0, j);
        let rest = sb.subrange(j, sb.len() as int);
        valid_utf8_split(sb, j);
        crate::text::lemma_boundary_in_suffix(sb, j, pb.len() as int);
        decode_utf8_split(rest, pb.len() as int);
        assert(rest.subrange(0, pb.len() as int) =~= pb);
        let i = decode_utf8(pre).len() as int;
        assert(s =~= decode_utf8(pre) + decode_utf8(pb) + decode_utf8(
            rest.subrange(pb.len() as int, rest.len() as int),
        )) by {
            encode_utf8_decode_utf8(s);
        }
        assert(decode_utf8(pb) == p) by {
            encode_utf8_decode_utf8(p);
        }
        assert(s.subrange(i, i + p.len()) =~= p);
    }
    if chars_contain(s, p) {
        let i = choose|i: int|
            0 <= i && i + p.len() <= s.len() && #[trigger] s.subrange(i, i + p.len()) == p;
        assert(s =~= s.subrange(0, i) + (p + s.subrange(i + p.len(), s.len() as int)));
        crate::text::lemma_encode_utf8_concat(s.subrange(0, i), p + s.subrange(
            i + p.len(),
            s.len() as int,
        ));
        crate::text::lemma_encode_utf8_concat(p, s.subrange(i + p.len(), s.len() as int));
        let j = encode_utf8(s.subrange(0, i)).len() as int;
        assert(sb == encode_utf8(s.subrange(0, i)) + (pb + encode_utf8(
            s.subrange(i + p.len(), s.len() as int),
        )));
        assert(sb.subrange(j, j + pb.len()) =~= pb);
        assert(crate::bytefind::is_match_at(sb, pb, j));
    }
}

/// The license identifier detected from a license text, by its telltale
/// phrases in upper case.
pub open spec fn spdx_of(t: Seq<char>) -> Option<Seq<char>> {
    let u = upper_of(t);
    if chars_contain(u, "MIT LICENSE"@) {
        Some("MIT"@)
    } else if chars_contain(u, "APACHE LICENSE"@) && chars_contain(u, "VERSION 2.0"@) {
        Some("Apache-2.0"@)
    } else if chars_contain(u, "GNU GENERAL PUBLIC LICENSE"@) {
        if chars_contain(u, "VERSION 3"@) {
            Some("GPL-3.0"@)
        } else if chars_contain(u, "VERSION 2"@) {
            Some("GPL-2.0"@)
        } else {
            Some("GPL"@)
        }
    } else if chars_contain(u, "GNU LESSER GENERAL PUBLIC LICENSE"@) {
        if chars_contain(u, "VERSION 3"@) {
            Some("LGPL-3.0"@)
        } else if chars_contain(u, "VERSION 2.1"@) {
            Some("LGPL-2.1"@)
        } else {
            Some("LGPL"@)
        }
    } else {
        None
    }
}

/// Uppercase the ASCII letters of a text.
pub fn to_ascii_upper(t: &str) -> (r: String)
    ensures
        r@ == upper_of(t@),
{
    let chars = str_chars(t);
    let mut out: Vec<char> = Vec::new();
    let n = chars.len();
    let mut i: usize = 0;
    while i < n
        invariant
            n == chars@.len(),
            chars@ == t@,
            0 <= i <= n,
            out@ =~= upper_of(t@).take(i as int),
        decreases n - i,
    {
        let c = chars[i];
        if 'a' <= c && c <= 'z' {
            out.push((((c as u32) - 32) as u8) as char);
            proof {
                assert((((c as u32) - 32) as u8) as char == upper_ascii(c)) by {
                    assert(c as u32 >= 97 && c as u32 <= 122);
                    assert(((c as u32) - 32) <= 0x7F);
                }
            }
        } else {
            out.push(c);
        }
        i = i + 1;
        proof {
            assert(out@ =~= upper_of(t@).take(i as int));
        }
    }
    proof {
        assert(out@ =~= upper_of(t@));
    }
    string_from_chars(&out)
}

/// Detect a license identifier from the text of a license file.
pub fn detect_spdx_from_text(text: &str) -> (r: Option<&'static str>)
    requires
        str_bytes(text).len() < usize::MAX,
    ensures
        match r {
            Some(v) => spdx_of(text@) == Some(v@),
            None => spdx_of(text@) is None,
        },
{
    let upper = to_ascii_upper(text);
    proof {
        reveal_strlit("MIT LICENSE");
        reveal_strlit("APACHE LICENSE");
        reveal_strlit("VERSION 2.0");
        reveal_strlit("GNU GENERAL PUBLIC LICENSE");
        reveal_strlit("VERSION 3");
        reveal_strlit("VERSION 2");
        reveal_strlit("GNU LESSER GENERAL PUBLIC LICENSE");
        reveal_strlit("VERSION 2.1");
        lemma_upper_len(text@);
    }
    let us = upper.as_str();
    if str_contains(us, "MIT LICENSE") {
        Some("MIT")
    } else if str_contains(us, "APACHE LICENSE") && str_contains(us, "VERSION 2.0") {
        Some("Apache-2.0")
    } else if str_contains(us, "GNU GENERAL PUBLIC LICENSE") {
        if str_contains(us, "VERSION 3") {
            Some("GPL-3.0")
        } else if str_contains(us, "VERSION 2") {
            Some("GPL-2.0")
        } else {
            Some("GPL")
        }
    } else if str_contains(us, "GNU LESSER GENERAL PUBLIC LICENSE") {
        if str_contains(us, "VERSION 3") {
            Some("LGPL-3.0")
        } else if str_contains(us, "VERSION 2.1") {
            Some("LGPL-2.1")
        } else {
            Some("LGPL")
        }
    } else {
        None
    }
}

/// Uppercasing ASCII letters keeps the encoding no longer than fourfold
/// per character, so the uppercased text still fits the address space.
proof fn lemma_upper_len(t: Seq<char>)
    requires
        encode_utf8(t).len() < usize::MAX,
    ensures
        encode_utf8(upper_of(t)).len() < usize::MAX,
    decreases t.len(),
{
    if t.len() == 0 {
        assert(upper_of(t) =~= Seq::<char>::empty());
    } else {
        lemma_upper_len_helper(t);
    }
}

proof fn lemma_upper_len_helper(t: Seq<char>)
    ensures
        encode_utf8(upper_of(t)).len() <= encode_utf8(t).len(),
    decreases t.len(),
{
    if t.len() == 0 {
        assert(upper_of(t) =~= Seq::<char>::empty());
    } else {
        lemma_upper_len_helper(t.drop_first());
        assert(upper_of(t).drop_first() =~= upper_of(t.drop_first()));
        let c = t[0] as u32;
        char_is_scalar(t[0]);
        assert(encode_utf8(t) == encode_scalar(c) + encode_utf8(t.drop_first()));
        assert(encode_utf8(upper_of(t)) == encode_scalar(upper_of(t)[0] as u32) + encode_utf8(
            upper_of(t).drop_first(),
        ));
        if 'a' <= t[0] && t[0] <= 'z' {
            assert(c >= 97 && c <= 122);
            assert(upper_of(t)[0] as u32 == c - 32);
            assert(encode_scalar((c - 32) as u32).len() == 1);
            assert(encode_scalar(c).len() == 1);
        } else {
            assert(upper_of(t)[0] == t[0]);
        }
    }
}

/// The index of the first occurrence of a character, if any.
pub open spec fn spec_char_find(s: Seq<char>, c: char) -> int
    decreases s.len(),
{
    if s.len() == 0 {
        -1
    } else if s.first() == c {
        0
    } else {
        let rest = spec_char_find(s.drop_first(), c);
        if rest < 0 {
            -1
        } else {
            1 + rest
        }
    }
}

fn char_find(s: &Vec<char>, c: char, from: usize) -> (r: Option<usize>)
    requires
        from <= s@.len(),
    ensures
        ({
            let f = spec_char_find(s@.subrange(from as int, s@.len() as int), c);
            match r {
                Some(i) => from <= i < s@.len() && f == i - from,
                None => f == -1,
            }
        }),
{
    let n = s.len();
    let mut i = from;
    while i < n
        invariant
            from <= i <= n == s@.len(),
            spec_char_find(s@.subrange(from as int, n as int), c) == (if spec_char_find(
                s@.subrange(i as int, n as int),
                c,
            ) < 0 {
                -1
            } else {
                i - from + spec_char_find(s@.subrange(i as int, n as int), c)
            }),
        decreases n - i,
    {
        if s[i] == c {
            proof {
                assert(s@.subrange(i as int, n as int).first() == s@[i as int]);
            }
            return Some(i);
        }
        proof {
            assert(s@.subrange(i as int, n as int).first() == s@[i as int]);
            assert(s@.subrange(i as int, n as int).drop_first() =~= s@.subrange(
                i as int + 1,
                n as int,
            ));
        }
        i = i + 1;
    }
    proof {
        assert(s@.subrange(i as int, n as int).len() == 0);
    }
    None
}

/// The author slug of a community directory name: the part between the
/// community prefix and the first dash, when it is not blank.
pub open spec fn community_author_of(d: Seq<char>) -> Option<Seq<char>> {
    if !chars_start_with(d, "community/"@) {
        None
    } else {
        let slug = d.subrange("community/"@.len() as int, d.len() as int);
        let dash = spec_char_find(slug, '-');
        if dash < 0 {
            None
        } else {
            let author = slug.subrange(0, dash);
            if spec_trim(author).len() == 0 {
                None
            } else {
                Some(author)
            }
        }
    }
}

/// Extract the community author from a directory name.
pub fn community_author_from_directory(directory: &str) -> (r: Option<String>)
    ensures
        match r {
            Some(a) => community_author_of(directory@) == Some(a@),
            None => community_author_of(directory@) is None,
        },
{
    let pre: &str = "community/";
    proof {
        reveal_strlit("community/");
    }
    if !str_starts_with(directory, pre) {
        return None;
    }
    let chars = str_chars(directory);
    let pn = pre.unicode_len();
    let ghost slug = directory@.subrange(pn as int, directory@.len() as int);
    let dash = match char_find(&chars, '-', pn) {
        None => {
            proof {
                assert(spec_char_find(slug, '-') == -1);
            }
            return None;
        },
        Some(d) => d,
    };
    proof {
        assert(spec_char_find(slug, '-') == dash - pn);
    }
    let mut author: Vec<char> = Vec::new();
    let mut i = pn;
    while i < dash
        invariant
            pn <= i <= dash < chars@.len(),
            chars@ == directory@,
            author@ =~= directory@.subrange(pn as int, i as int),
        decreases dash - i,
    {
        author.push(chars[i]);
        i = i + 1;
    }
    proof {
        assert(author@ =~= slug.subrange(0, dash - pn));
    }
    let astr = string_from_chars(&author);
    let trimmed = trim_both(astr.as_str());
    if trimmed.as_str().unicode_len() == 0 {
        proof {
            assert(spec_trim(author@).len() == 0);
        }
        None
    } else {
        Some(astr)
    }
}

/// A repository URL cleaned for the provenance record: trimmed, with a
/// version-control scheme prefix removed and a trailing repository
/// extension dropped; a blank value yields nothing.
pub open spec fn repo_url_of(raw: Seq<char>) -> Option<Seq<char>> {
    let v = spec_trim(raw);
    if v.len() == 0 {
        None
    } else {
        let v2 = if chars_start_with(v, "git+"@) {
            v.subrange("git+"@.len() as int, v.len() as int)
        } else {
            v
        };
        let cut = if v2.len() >= 4 {
            v2.len() - 4
        } else {
            0
        };
        if spec_ext(encode_utf8(v2)) == seq![103u8, 105u8, 116u8] {
            Some(v2.subrange(0, cut as int))
        } else {
            Some(v2)
        }
    }
}

/// Clean a repository URL read from package metadata.
pub fn normalize_repo_url(raw: &str) -> (r: Option<String>)
    ensures
        match r {
            Some(v) => repo_url_of(raw@) == Some(v@),
            None => repo_url_of(raw@) is None,
        },
{
    proof {
        reveal_strlit("git+");
    }
    let trimmed = trim_both(raw);
    let chars = str_chars(trimmed.as_str());
    let n = chars.len();
    if n == 0 {
        return None;
    }
    let has_scheme = n >= 4 && chars[0] == 'g' && chars[1] == 'i' && chars[2] == 't' && chars[3]
        == '+';
    let start: usize = if has_scheme {
        4
    } else {
        0
    };
    proof {
        let v = spec_trim(raw@);
        if has_scheme {
            assert(v.subrange(0, 4) =~= "git+"@);
        } else {
            if chars_start_with(v, "git+"@) {
                assert(v.subrange(0, 4)[0] == v[0]);
                assert(v.subrange(0, 4)[1] == v[1]);
                assert(v.subrange(0, 4)[2] == v[2]);
                assert(v.subrange(0, 4)[3] == v[3]);
            }
        }
    }
    let mut body: Vec<char> = Vec::new();
    let mut i = start;
    while i < n
        invariant
            start <= i <= n == chars@.len(),
            chars@ == spec_trim(raw@),
            body@ =~= spec_trim(raw@).subrange(start as int, i as int),
        decreases n - i,
    {
        body.push(chars[i]);
        i = i + 1;
    }
    proof {
        if start == 0 {
            assert(spec_trim(raw@).subrange(0, n as int) =~= spec_trim(raw@));
        }
    }
    let body_str = string_from_chars(&body);
    let e = extension_lower(body_str.as_str());
    let is_git = e.len() == 3 && e[0] == 103u8 && e[1] == 105u8 && e[2] == 116u8;
    proof {
        if e@.len() == 3 {
            assert(e@ =~= seq![e@[0], e@[1], e@[2]]);
        }
    }
    if is_git {
        let keep = if body.len() >= 4 {
            body.len() - 4
        } else {
            0
        };
        let mut cut: Vec<char> = Vec::new();
        let mut j: usize = 0;
        while j < keep
            invariant
                0 <= j <= keep <= body@.len(),
                cut@ =~= body@.subrange(0, j as int),
            decreases keep - j,
        {
            cut.push(body[j]);
            j = j + 1;
        }
        proof {
            assert(cut@ =~= body@.subrange(0, keep as int));
        }
        Some(string_from_chars(&cut))
    } else {
        Some(body_str)
    }
}

/// Whether a filename in the report directory is an archived report: it
/// carries the report prefix and the data extension, and is neither the
/// live report nor the trend file.
pub open spec fn is_archive_name(n: Seq<char>) -> bool {
    &&& chars_start_with(n, "conformance_"@)
    &&& spec_ext(encode_utf8(n)) == seq![106u8, 115u8, 111u8, 110u8]
    &&& n != "conformance_report.json"@
    &&& n != "conformance_trend.json"@
}

/// Recognize an archived report filename.
pub fn is_archive_filename(name: &str) -> (r: bool)
    ensures
        r == is_archive_name(name@),
{
    proof {
        reveal_strlit("conformance_");
        reveal_strlit("conformance_report.json");
        reveal_strlit("conformance_trend.json");
    }
    if !str_starts_with(name, "conformance_") {
        return false;
    }
    let e = extension_lower(name);
    let ok_ext = e.len() == 4 && e[0] == 106u8 && e[1] == 115u8 && e[2] == 111u8 && e[3] == 110u8;
    proof {
        if e@.len() == 4 {
            assert(e@ =~= seq![e@[0], e@[1], e@[2], e@[3]]);
        }
    }
    if !ok_ext {
        return false;
    }
    if str_eq(name, "conformance_report.json") {
        return false;
    }
    if str_eq(name, "conformance_trend.json") {
        return false;
    }
    true
}

} // verus!
