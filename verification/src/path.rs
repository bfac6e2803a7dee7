//! Path resolution: unicode-space cleanup, home-directory expansion,
//! joining onto a working directory, and the filename variants tried when a
//! read misses (alternate space, decomposed unicode, curly apostrophe).

use crate::bytefind::{lemma_replace_len_grow, replace_str, spec_replace};
use crate::normalize::{normalize_unicode_spaces, space_norm};
use crate::text::str_bytes;
use unicode_normalization::UnicodeNormalization;
use vstd::prelude::*;
use vstd::string::StrSliceExecFns;
use vstd::string::StringExecFns;
use vstd::string::StringSliceAdditionalSpecFns;
use vstd::utf8::*;

verus! {

/// The path is absolute: it begins with the root separator.
pub open spec fn is_absolute_path(p: Seq<char>) -> bool {
    p.len() > 0 && p[0] == '/'
}

/// A base directory joined with a relative member: a single separator is
/// placed between them unless the base already ends with one or is empty.
pub open spec fn spec_join(base: Seq<char>, rel: Seq<char>) -> Seq<char> {
    if base.len() == 0 {
        rel
    } else if base.last() == '/' {
        base + rel
    } else {
        base + seq!['/'] + rel
    }
}

/// The expansion of a path against an optional home directory: a bare tilde
/// becomes the home directory, a tilde-slash prefix is replaced by it, and
/// anything else is returned as given (spaces already normalized).
pub open spec fn spec_expand(p: Seq<char>, home: Option<Seq<char>>) -> Seq<char> {
    let n = p.map_values(|c: char| space_norm(c));
    if n == seq!['~'] {
        match home {
            Some(h) => h,
            None => seq!['~'],
        }
    } else if n.len() >= 2 && n[0] == '~' && n[1] == '/' {
        match home {
            Some(h) => spec_join(h, n.subrange(2, n.len() as int)),
            None => spec_join(seq!['~'], n.subrange(2, n.len() as int)),
        }
    } else {
        n
    }
}

/// The resolution of a path against a working directory, given the home
/// directory used for tilde expansion.
pub open spec fn spec_resolve(p: Seq<char>, cwd: Seq<char>, home: Option<Seq<char>>) -> Seq<char> {
    let e = spec_expand(p, home);
    if is_absolute_path(e) {
        e
    } else {
        spec_join(cwd, e)
    }
}

/// Relies on dirs::home_dir: the platform home directory, if the system
/// reports one.  The result depends on the environment, so nothing is
/// assumed of its value.
#[verifier::external_body]
fn home_dir_string() -> (r: Option<String>) {
    dirs::home_dir().map(|p| p.to_string_lossy().to_string())
}

/// Join a relative member onto a base directory.
pub fn join_path(base: &str, rel: &str) -> (r: String)
    ensures
        r@ == spec_join(base@, rel@),
{
    let bytes = base.as_bytes();
    let n = bytes.len();
    proof {
        encode_utf8_valid_utf8(base@);
    }
    let mut out = base.to_owned();
    if n == 0 {
        proof {
            assert(base@.len() == 0) by {
                if base@.len() > 0 {
                    char_is_scalar(base@[0]);
                    assert(str_bytes(base) == encode_scalar(base@[0] as u32) + encode_utf8(
                        base@.drop_first(),
                    ));
                    assert(encode_scalar(base@[0] as u32).len() >= 1);
                }
            }
        }
        return rel.to_owned();
    }
    if bytes[n - 1] != 47u8 {
        out.append("/");
        proof {
            reveal_strlit("/");
            assert("/"@ =~= seq!['/']);
        }
    }
    out.append(rel);
    proof {
        // a trailing separator byte is exactly a trailing separator
        // character, the separator being one-byte
        valid_utf8_last(str_bytes(base));
        if base@.last() == '/' {
            lemma_encode_last_ascii(base@);
        } else {
            lemma_encode_last_ascii_ne(base@);
        }
    }
    out
}

/// The final byte of a nonempty text is the separator byte exactly when its
/// final character is the separator.
proof fn lemma_encode_last_ascii(s: Seq<char>)
    requires
        s.len() > 0,
        s.last() == '/',
    ensures
        encode_utf8(s).len() > 0,
        encode_utf8(s).last() == 47u8,
    decreases s.len(),
{
    if s.len() == 1 {
        assert(('/' as u32) == 47);
        assert((47u32 & 0x7F) as u8 == 47u8) by (bit_vector);
        assert(encode_utf8(s) =~= encode_scalar('/' as u32) + encode_utf8(s.drop_first()));
        assert(s.drop_first().len() == 0);
    } else {
        lemma_encode_last_ascii(s.drop_first());
        assert(s.drop_first().last() == s.last());
        assert(encode_utf8(s) == encode_scalar(s[0] as u32) + encode_utf8(s.drop_first()));
        char_is_scalar(s[0]);
        assert(encode_scalar(s[0] as u32).len() >= 1);
    }
}

/// And conversely: if the final character is not the separator, the final
/// byte is not the separator byte.
proof fn lemma_encode_last_ascii_ne(s: Seq<char>)
    requires
        s.len() > 0,
        s.last() != '/',
    ensures
        encode_utf8(s).len() > 0,
        encode_utf8(s).last() != 47u8,
    decreases s.len(),
{
    if s.len() == 1 {
        let c = s[0] as u32;
        char_is_scalar(s[0]);
        assert(encode_utf8(s) =~= encode_scalar(c) + encode_utf8(s.drop_first()));
        assert(s.drop_first().len() == 0);
        if has_width_1_encoding(c) {
            assert(c != 47) by {
                char_u32_cast(s[0], c);
                assert(('/' as u32) == 47);
            }
            assert(encode_utf8(s).last() == (c & 0x7F) as u8);
            assert((c & 0x7F) as u8 != 47u8) by (bit_vector)
                requires
                    c <= 0x7F && c != 47,
            ;
        } else {
            // multi-byte encodings end in a continuation byte, whose high
            // bit is set
            assert(encode_utf8(s).last() == last_continuation_byte(c));
            let bb = (c & 0x3F) as u8;
            assert(0x80u8 | bb != 47u8) by (bit_vector);
        }
    } else {
        lemma_encode_last_ascii_ne(s.drop_first());
        assert(s.drop_first().last() == s.last());
        assert(encode_utf8(s) == encode_scalar(s[0] as u32) + encode_utf8(s.drop_first()));
        char_is_scalar(s[0]);
        assert(encode_scalar(s[0] as u32).len() >= 1);
    }
}

/// Expand a path against a caller-supplied home directory, after unicode
/// space normalization.
pub fn expand_path_with(file_path: &str, home: Option<&String>) -> (r: String)
    ensures
        r@ == spec_expand(
            file_path@,
            match home {
                Some(h) => Some(h@),
                None => None,
            },
        ),
{
    let normalized = normalize_unicode_spaces(file_path);
    let ghost n = file_path@.map_values(|c: char| space_norm(c));
    let tilde: &str = "~";
    proof {
        reveal_strlit("~");
        assert(tilde@ =~= seq!['~']);
    }
    if crate::text::str_eq(normalized.as_str(), tilde) {
        return match home {
            Some(h) => h.clone(),
            None => tilde.to_owned(),
        };
    }
    let chars = crate::normalize::str_chars(normalized.as_str());
    if chars.len() >= 2 && chars[0] == '~' && chars[1] == '/' {
        proof {
            encode_utf8_valid_utf8(normalized@);
            // the two leading marker characters are one byte each
            assert(('~' as u32) == 126 && ('/' as u32) == 47);
            assert(normalized@[0] == '~' && normalized@[1] == '/');
            assert(forall|i: int| 0 <= i < 2 ==> (#[trigger] normalized@[i]) as u32 <= 0x7F);
        }
        let rest = slice_chars_from(normalized.as_str(), 2);
        let base = match home {
            Some(h) => h.as_str(),
            None => tilde,
        };
        join_path(base, rest.as_str())
    } else {
        normalized
    }
}

/// The characters of `s` from character index `k` on, for a string whose
/// first `k` characters are one-byte.
fn slice_chars_from(s: &str, k: usize) -> (r: String)
    requires
        s@.len() >= k,
        forall|i: int| 0 <= i < k ==> (#[trigger] s@[i]) as u32 <= 0x7F,
    ensures
        r@ == s@.subrange(k as int, s@.len() as int),
{
    proof {
        encode_utf8_valid_utf8(s@);
        lemma_ascii_prefix_bytes(s@, k as int);
    }
    let (_front, rest) = s.split_at(k);
    proof {
        assert(rest.spec_bytes() =~= str_bytes(s).subrange(k as int, str_bytes(s).len() as int));
        lemma_encode_split_at_chars(s@, k as int);
        encode_utf8_decode_utf8(rest@);
        encode_utf8_decode_utf8(s@.subrange(k as int, s@.len() as int));
    }
    rest.to_owned()
}

/// An all-ASCII character prefix encodes to one byte per character, so the
/// byte at the character count is a boundary and the suffix bytes encode
/// the suffix characters.
proof fn lemma_ascii_prefix_bytes(s: Seq<char>, k: int)
    requires
        0 <= k <= s.len(),
        forall|i: int| 0 <= i < k ==> (#[trigger] s[i]) as u32 <= 0x7F,
    ensures
        encode_utf8(s).len() >= k,
        is_char_boundary(encode_utf8(s), k),
        encode_utf8(s).subrange(k, encode_utf8(s).len() as int) == encode_utf8(
            s.subrange(k, s.len() as int),
        ),
    decreases k,
{
    encode_utf8_valid_utf8(s);
    if k == 0 {
        is_char_boundary_start_end_of_seq(encode_utf8(s));
        assert(s.subrange(0, s.len() as int) =~= s);
    } else {
        let c = s[0] as u32;
        char_is_scalar(s[0]);
        assert(c <= 0x7F);
        assert(encode_scalar(c).len() == 1);
        lemma_ascii_prefix_bytes(s.drop_first(), k - 1);
        assert(encode_utf8(s) == encode_scalar(c) + encode_utf8(s.drop_first()));
        assert(valid_first_scalar(encode_utf8(s)));
        assert(length_of_first_scalar(encode_utf8(s)) == 1) by {
            assert(encode_utf8(s)[0] == encode_scalar(c)[0]);
            assert((c & 0x7F) as u8 <= 0x7F) by (bit_vector);
        }
        assert(pop_first_scalar(encode_utf8(s)) =~= encode_utf8(s.drop_first()));
        assert(is_char_boundary(encode_utf8(s), k));
        assert(s.drop_first().subrange(k - 1, s.drop_first().len() as int) =~= s.subrange(
            k,
            s.len() as int,
        ));
        assert(encode_utf8(s).subrange(k, encode_utf8(s).len() as int) =~= encode_utf8(
            s.drop_first(),
        ).subrange(k - 1, encode_utf8(s.drop_first()).len() as int));
    }
}

proof fn lemma_encode_split_at_chars(s: Seq<char>, k: int)
    requires
        0 <= k <= s.len(),
        forall|i: int| 0 <= i < k ==> (#[trigger] s[i]) as u32 <= 0x7F,
    ensures
        encode_utf8(s.subrange(k, s.len() as int)) == encode_utf8(s).subrange(
            k,
            encode_utf8(s).len() as int,
        ),
{
    lemma_ascii_prefix_bytes(s, k);
}

/// Expand a leading tilde against the system home directory.  The home
/// directory itself comes from the environment, so the result is pinned
/// only relative to whatever it was.
pub fn expand_path(file_path: &str) -> (r: String)
    ensures
        exists|home: Option<Seq<char>>| r@ == spec_expand(file_path@, home),
{
    let home = home_dir_string();
    let r = expand_path_with(file_path, home.as_ref());
    proof {
        let ghost h = match home {
            Some(hs) => Some(hs@),
            None => None::<Seq<char>>,
        };
        assert(r@ == spec_expand(file_path@, h));
    }
    r
}

/// Resolve a path against the working directory: normalize spaces, expand
/// a leading tilde, and join non-absolute results onto `cwd`.
pub fn resolve_to_cwd(file_path: &str, cwd: &str) -> (r: String)
    ensures
        exists|home: Option<Seq<char>>| r@ == spec_resolve(file_path@, cwd@, home),
        (forall|i: int| 0 <= i < file_path@.len() ==> (#[trigger] file_path@[i]) != '~') ==> r@
            == spec_resolve(file_path@, cwd@, None),
{
    let expanded = expand_path(file_path);
    let ghost home0 = choose|home: Option<Seq<char>>| expanded@ == spec_expand(file_path@, home);
    let bytes = expanded.as_str().as_bytes();
    proof {
        encode_utf8_valid_utf8(expanded@);
        assert(expanded@ == spec_expand(file_path@, home0));
        if expanded@.len() > 0 {
            lemma_first_byte_char(expanded@);
        }
        if forall|i: int| 0 <= i < file_path@.len() ==> (#[trigger] file_path@[i]) != '~' {
            // without a tilde the home directory plays no part
            let n = file_path@.map_values(|c: char| space_norm(c));
            assert forall|h: Option<Seq<char>>| spec_expand(file_path@, h) == n by {
                if n == seq!['~'] {
                    assert(n[0] == '~');
                    assert(space_norm(file_path@[0]) != '~');
                }
                if n.len() >= 2 && n[0] == '~' {
                    assert(space_norm(file_path@[0]) != '~');
                }
            }
            assert(spec_expand(file_path@, home0) == spec_expand(file_path@, None));
        }
    }
    let r = if bytes.len() > 0 && bytes[0] == 47u8 {
        proof {
            assert(is_absolute_path(expanded@));
        }
        expanded
    } else {
        proof {
            assert(!is_absolute_path(expanded@));
        }
        join_path(cwd, expanded.as_str())
    };
    proof {
        assert(r@ == spec_resolve(file_path@, cwd@, home0));
    }
    r
}

/// The first byte of a nonempty text is the separator byte exactly when
/// its first character is the separator.
proof fn lemma_first_byte_char(s: Seq<char>)
    requires
        s.len() > 0,
    ensures
        encode_utf8(s).len() > 0,
        (encode_utf8(s)[0] == 47u8) <==> (s[0] == '/'),
{
    let c = s[0] as u32;
    char_is_scalar(s[0]);
    assert(encode_utf8(s) == encode_scalar(c) + encode_utf8(s.drop_first()));
    if has_width_1_encoding(c) {
        assert(encode_utf8(s)[0] == (c & 0x7F) as u8);
        char_u32_cast(s[0], c);
        assert(((c & 0x7F) as u8 == 47u8) <==> c == 47) by (bit_vector)
            requires
                c <= 0x7F,
        ;
        assert(('/' as u32) == 47);
    } else {
        assert(s[0] != '/') by {
            char_u32_cast(s[0], c);
            assert(('/' as u32) == 47);
        }
        if has_width_2_encoding(c) {
            assert(encode_utf8(s)[0] == leading_byte_width_2(c));
            let bb = ((c >> 6) & 0x1F) as u8;
            assert(0xC0u8 | bb != 47u8) by (bit_vector);
        } else if has_width_3_encoding(c) {
            assert(encode_utf8(s)[0] == leading_byte_width_3(c));
            let bb = ((c >> 12) & 0x0F) as u8;
            assert(0xE0u8 | bb != 47u8) by (bit_vector);
        } else {
            assert(encode_utf8(s)[0] == leading_byte_width_4(c));
            let bb = ((c >> 18) & 0x7) as u8;
            assert(0xF0u8 | bb != 47u8) by (bit_vector);
        }
    }
}

/// Resolve a path against the working directory; the alias every tool uses.
pub fn resolve_path(file_path: &str, cwd: &str) -> (r: String)
    ensures
        exists|home: Option<Seq<char>>| r@ == spec_resolve(file_path@, cwd@, home),
        (forall|i: int| 0 <= i < file_path@.len() ==> (#[trigger] file_path@[i]) != '~') ==> r@
            == spec_resolve(file_path@, cwd@, None),
{
    resolve_to_cwd(file_path, cwd)
}

/// The byte form of the screenshot-name variant: the space before the
/// day-period marker replaced by a narrow no-break space.
pub open spec fn am_pm_variant(b: Seq<u8>) -> Seq<u8> {
    spec_replace(
        spec_replace(b, encode_utf8(" AM."@), encode_utf8("\u{202F}AM."@)),
        encode_utf8(" PM."@),
        encode_utf8("\u{202F}PM."@),
    )
}

/// Replace the plain space before a day-period marker with the narrow
/// no-break space that screenshot filenames carry.
pub fn try_mac_os_screenshot_path(file_path: &str) -> (r: String)
    requires
        str_bytes(file_path).len() * 16 < usize::MAX,
    ensures
        encode_utf8(r@) == am_pm_variant(str_bytes(file_path)),
{
    let am: &str = " AM.";
    let am2: &str = "\u{202F}AM.";
    let pm: &str = " PM.";
    let pm2: &str = "\u{202F}PM.";
    proof {
        reveal_strlit(" AM.");
        reveal_strlit("\u{202F}AM.");
        reveal_strlit(" PM.");
        reveal_strlit("\u{202F}PM.");
        encode_utf8_valid_utf8(am@);
        encode_utf8_valid_utf8(pm@);
        char_is_scalar(am@[0]);
        assert(str_bytes(am).len() >= 1) by {
            assert(str_bytes(am) == encode_scalar(am@[0] as u32) + encode_utf8(am@.drop_first()));
            assert(encode_scalar(am@[0] as u32).len() >= 1);
        }
        assert(str_bytes(pm).len() >= 1) by {
            char_is_scalar(pm@[0]);
            assert(str_bytes(pm) == encode_scalar(pm@[0] as u32) + encode_utf8(pm@.drop_first()));
            assert(encode_scalar(pm@[0] as u32).len() >= 1);
        }
    }
    let step = replace_str(file_path, am, am2);
    proof {
        // the four-character replacement is at most sixteen bytes long, so
        // the first pass grows the text at most sixteenfold
        lemma_bounded_literal_len(am2@);
        lemma_replace_len_grow(str_bytes(file_path), str_bytes(am), str_bytes(am2), 0);
        assert(str_bytes(file_path).len() * str_bytes(am2).len() <= str_bytes(file_path).len()
            * 16) by (nonlinear_arith)
            requires
                str_bytes(am2).len() <= 16,
        ;
    }
    replace_str(step.as_str(), pm, pm2)
}

/// Every character's UTF-8 encoding takes at most four bytes.
proof fn lemma_bounded_literal_len(s: Seq<char>)
    ensures
        encode_utf8(s).len() <= s.len() * 4,
    decreases s.len(),
{
    if s.len() == 0 {
    } else {
        char_is_scalar(s[0] as u32 as char);
        assert(encode_scalar(s[0] as u32).len() <= 4);
        lemma_bounded_literal_len(s.drop_first());
        assert(encode_utf8(s) == encode_scalar(s[0] as u32) + encode_utf8(s.drop_first()));
    }
}

/// Apostrophe substitution, one character at a time: the straight quote
/// becomes the right single quotation mark.
pub open spec fn curly_quote_sub(c: char) -> char {
    if c == '\'' {
        '\u{2019}'
    } else {
        c
    }
}

/// Replace straight apostrophes with the curly apostrophe that screenshot
/// filenames carry.
pub fn try_curly_quote_variant(file_path: &str) -> (r: String)
    ensures
        r@ == file_path@.map_values(|c: char| curly_quote_sub(c)),
{
    let chars = crate::normalize::str_chars(file_path);
    let mut out: Vec<char> = Vec::new();
    let n = chars.len();
    let mut i: usize = 0;
    while i < n
        invariant
            n == chars@.len(),
            chars@ == file_path@,
            0 <= i <= n,
            out@ =~= file_path@.map_values(|c: char| curly_quote_sub(c)).take(i as int),
        decreases n - i,
    {
        let c = chars[i];
        if c == '\'' {
            out.push('\u{2019}');
        } else {
            out.push(c);
        }
        i = i + 1;
        proof {
            assert(out@ =~= file_path@.map_values(|c: char| curly_quote_sub(c)).take(i as int));
        }
    }
    proof {
        assert(out@ =~= file_path@.map_values(|c: char| curly_quote_sub(c)));
    }
    crate::render::string_from_chars(&out)
}

/// The canonical decomposition of a character sequence, as the outside
/// normalizer computes it: a function of the characters alone.
pub uninterp spec fn nfd_of(s: Seq<char>) -> Seq<char>;

/// Relies on unicode-normalization's nfd: canonical decomposition form D,
/// determined by the characters alone; the empty string stays empty.
#[verifier::external_body]
pub(crate) fn nfd_normalize(s: &str) -> (r: String)
    ensures
        r@ == nfd_of(s@),
        s@.len() == 0 ==> r@.len() == 0,
{
    s.nfd().collect()
}

/// The filename variants tried, in order, when a read misses: the resolved
/// path itself, then the narrow-space screenshot form, the canonically
/// decomposed form, the curly-apostrophe form, and the decomposed
/// curly-apostrophe form — each listed only where it differs from the
/// resolved path.
pub open spec fn read_variants(res: Seq<char>) -> Seq<Seq<char>> {
    let am = decode_utf8(am_pm_variant(encode_utf8(res)));
    let nf = nfd_of(res);
    let cu = res.map_values(|c: char| curly_quote_sub(c));
    let nfcu = nf.map_values(|c: char| curly_quote_sub(c));
    seq![res] + (if am != res {
        seq![am]
    } else {
        Seq::empty()
    }) + (if nf != res {
        seq![nf]
    } else {
        Seq::empty()
    }) + (if cu != res {
        seq![cu]
    } else {
        Seq::empty()
    }) + (if nfcu != res {
        seq![nfcu]
    } else {
        Seq::empty()
    })
}

/// The candidate paths a read should try, in order: the resolution of
/// `file_path` against `cwd`, then the filename variants that differ from
/// it.  The caller probes the filesystem and keeps the first that exists.
pub fn read_path_candidates(file_path: &str, cwd: &str) -> (r: Vec<String>)
    ensures
        r@.len() >= 1,
        exists|home: Option<Seq<char>>| r@[0]@ == spec_resolve(file_path@, cwd@, home),
        encode_utf8(r@[0]@).len() < usize::MAX / 16 ==> r@.map_values(|s: String| s@)
            == read_variants(r@[0]@),
{
    let resolved = resolve_path(file_path, cwd);
    proof {
        encode_utf8_valid_utf8(resolved@);
    }
    if resolved.as_str().as_bytes().len() >= usize::MAX / 16 {
        let mut only: Vec<String> = Vec::new();
        only.push(resolved);
        return only;
    }
    proof {
        assert(encode_utf8(resolved@).len() * 16 < usize::MAX) by (nonlinear_arith)
            requires
                encode_utf8(resolved@).len() < usize::MAX / 16,
        ;
    }
    let am = try_mac_os_screenshot_path(resolved.as_str());
    let nf = nfd_normalize(resolved.as_str());
    let cu = try_curly_quote_variant(resolved.as_str());
    let nfcu = try_curly_quote_variant(nf.as_str());
    proof {
        encode_utf8_decode_utf8(am@);
    }
    let mut r: Vec<String> = Vec::new();
    let rs = resolved.as_str();
    let keep_am = !crate::text::str_eq(am.as_str(), rs);
    let keep_nf = !crate::text::str_eq(nf.as_str(), rs);
    let keep_cu = !crate::text::str_eq(cu.as_str(), rs);
    let keep_nfcu = !crate::text::str_eq(nfcu.as_str(), rs);
    r.push(resolved);
    if keep_am {
        r.push(am);
    }
    if keep_nf {
        r.push(nf);
    }
    if keep_cu {
        r.push(cu);
    }
    if keep_nfcu {
        r.push(nfcu);
    }
    proof {
        assert(r@.map_values(|s: String| s@) =~= read_variants(r@[0]@));
    }
    r
}

/// Index of the first candidate reported to exist; the first entry wins
/// outright when it exists, and stands in when none does.
pub open spec fn first_existing(exists_flags: Seq<bool>) -> int
    decreases exists_flags.len(),
{
    if exists_flags.len() == 0 {
        0
    } else if exists_flags[0] {
        0
    } else {
        1 + first_existing(exists_flags.drop_first())
    }
}

/// Pick the path a read should use: the first candidate that exists on
/// disk, or the plain resolution when none does, so the caller can report
/// a precise not-found error.
pub fn pick_read_path(candidates: &Vec<String>, exists_flags: &Vec<bool>) -> (r: String)
    requires
        candidates@.len() == exists_flags@.len(),
        candidates@.len() >= 1,
    ensures
        first_existing(exists_flags@) < exists_flags@.len() ==> r@ == candidates@[first_existing(
            exists_flags@,
        )]@,
        first_existing(exists_flags@) >= exists_flags@.len() ==> r@ == candidates@[0]@,
{
    let n = candidates.len();
    let mut i: usize = 0;
    proof {
        assert(exists_flags@.subrange(0, n as int) =~= exists_flags@);
    }
    while i < n
        invariant
            n == candidates@.len() == exists_flags@.len(),
            n >= 1,
            0 <= i <= n,
            first_existing(exists_flags@) == i + first_existing(
                exists_flags@.subrange(i as int, n as int),
            ),
        decreases n - i,
    {
        if exists_flags[i] {
            proof {
                assert(exists_flags@.subrange(i as int, n as int)[0] == exists_flags@[i as int]);
                assert(first_existing(exists_flags@) == i);
            }
            return candidates[i].clone();
        }
        proof {
            let sub = exists_flags@.subrange(i as int, n as int);
            assert(sub[0] == exists_flags@[i as int]);
            assert(sub.drop_first() =~= exists_flags@.subrange(i as int + 1, n as int));
        }
        i = i + 1;
    }
    proof {
        lemma_first_existing_nonneg(exists_flags@.subrange(n as int, n as int));
        assert(first_existing(exists_flags@) >= n);
    }
    candidates[0].clone()
}

proof fn lemma_first_existing_nonneg(s: Seq<bool>)
    ensures
        first_existing(s) >= 0,
    decreases s.len(),
{
    if s.len() > 0 && !s[0] {
        lemma_first_existing_nonneg(s.drop_first());
    }
}

} // verus!
