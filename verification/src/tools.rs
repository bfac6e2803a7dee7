//! The built-in tools' configuration types and the pure cores of their
//! behavior: line selection for reads, image-name classification, and the
//! encoding of image bytes for transport.

use crate::text::{
    count_lines, lemma_line_bounds_are_boundaries, lemma_line_start_mono, lemma_line_struct,
    lemma_num_lines_pos, line_end, line_start, lines_count, num_lines, str_bytes,
};
use crate::truncate::{add_line_numbers, numbered_join, truncate_head, TruncationResult};
use vstd::prelude::*;
use vstd::string::StringSliceAdditionalSpecFns;
use vstd::utf8::*;

verus! {

/// Configuration of the file-reading tool: the working directory paths are
/// resolved against.
pub struct ReadTool {
    pub cwd: String,
}

impl ReadTool {
    pub fn new(cwd: &str) -> (r: Self)
        ensures
            r.cwd@ == cwd@,
    {
        ReadTool { cwd: cwd.to_owned() }
    }
}

/// Configuration of the shell-command tool.
pub struct BashTool {
    pub cwd: String,
}

impl BashTool {
    pub fn new(cwd: &str) -> (r: Self)
        ensures
            r.cwd@ == cwd@,
    {
        BashTool { cwd: cwd.to_owned() }
    }
}

/// Configuration of the anchored-edit tool.
pub struct EditTool {
    pub cwd: String,
}

impl EditTool {
    pub fn new(cwd: &str) -> (r: Self)
        ensures
            r.cwd@ == cwd@,
    {
        EditTool { cwd: cwd.to_owned() }
    }
}

/// Configuration of the file-writing tool.
pub struct WriteTool {
    pub cwd: String,
}

impl WriteTool {
    pub fn new(cwd: &str) -> (r: Self)
        ensures
            r.cwd@ == cwd@,
    {
        WriteTool { cwd: cwd.to_owned() }
    }
}

/// Configuration of the content-search tool.
pub struct GrepTool {
    pub cwd: String,
}

impl GrepTool {
    pub fn new(cwd: &str) -> (r: Self)
        ensures
            r.cwd@ == cwd@,
    {
        GrepTool { cwd: cwd.to_owned() }
    }
}

/// Configuration of the filename-search tool.
pub struct FindTool {
    pub cwd: String,
}

impl FindTool {
    pub fn new(cwd: &str) -> (r: Self)
        ensures
            r.cwd@ == cwd@,
    {
        FindTool { cwd: cwd.to_owned() }
    }
}

/// Configuration of the directory-listing tool.
pub struct LsTool {
    pub cwd: String,
}

impl LsTool {
    pub fn new(cwd: &str) -> (r: Self)
        ensures
            r.cwd@ == cwd@,
    {
        LsTool { cwd: cwd.to_owned() }
    }
}

/// The joined selection of lines `[start, end)` of the rendered line view:
/// a contiguous byte range of the text, since the separators sit between
/// the selected lines.
pub open spec fn selected_range(b: Seq<u8>, start: int, end: int) -> Seq<u8> {
    if start >= end {
        Seq::empty()
    } else {
        b.subrange(line_start(b, start), line_end(b, end - 1))
    }
}

/// The lines shown by a read with a one-based `offset` and a line `limit`:
/// `offset` is clamped into the text, and `limit` lines are taken from it.
pub fn select_lines(content: &str, offset: usize, limit: usize) -> (r: String)
    requires
        offset >= 1,
        str_bytes(content).len() < usize::MAX,
    ensures
        ({
            let b = str_bytes(content);
            let lc = lines_count(b) as int;
            let start = if offset - 1 <= lc {
                offset - 1
            } else {
                lc
            };
            let end = if start + limit <= lc {
                start + limit
            } else {
                lc
            };
            encode_utf8(r@) == selected_range(b, start, end)
        }),
{
    proof {
        encode_utf8_valid_utf8(content@);
        lemma_num_lines_pos(str_bytes(content), 0);
    }
    let ghost b = str_bytes(content);
    let bytes = content.as_bytes();
    let n = bytes.len();
    let total = count_lines(bytes);
    let lc: usize = if n == 0 {
        0
    } else if bytes[n - 1] == 10u8 {
        proof {
            lemma_line_struct(b, total as int - 1);
        }
        total - 1
    } else {
        total
    };
    proof {
        assert(lc == lines_count(b));
    }
    let start: usize = if offset - 1 <= lc {
        offset - 1
    } else {
        lc
    };
    let end: usize = if limit <= lc - start {
        start + limit
    } else {
        lc
    };
    if start >= end {
        return String::new();
    }
    proof {
        assert(start < lc <= num_lines(b));
        assert(end - 1 < lc <= num_lines(b));
        lemma_line_struct(b, start as int);
        lemma_line_struct(b, end as int - 1);
        lemma_line_start_mono(b, start as int, end as int - 1);
        lemma_line_bounds_are_boundaries(b, start as int);
        lemma_line_bounds_are_boundaries(b, end as int - 1);
    }
    let s_off = crate::text::line_offsets(content);
    let lo = s_off[start];
    let e_start = s_off[end - 1];
    let hi = crate::text::find_nl(bytes, e_start);
    let (_front, rest) = content.split_at(lo);
    proof {
        crate::text::lemma_boundary_in_suffix(b, lo as int, hi as int - lo as int);
    }
    let (mid, _tail) = rest.split_at(hi - lo);
    proof {
        assert(mid.spec_bytes() =~= b.subrange(lo as int, hi as int));
    }
    mid.to_owned()
}

/// Details reported with a read: how much the file holds, how much of it
/// is shown, and which ceiling cut it short.
pub struct ReadDetails {
    pub total_lines: usize,
    pub output_lines: usize,
    pub truncated: bool,
    pub truncated_by: Option<crate::truncate::TruncatedBy>,
}

/// The read tool's rendering: select lines from `offset`, bound them to the
/// byte ceiling, and prefix line numbers.
pub fn render_read_output(content: &str, offset: usize, limit: usize, max_bytes: usize) -> (r: (
    String,
    ReadDetails,
))
    requires
        offset >= 1,
        offset + str_bytes(content).len() + 1 <= usize::MAX,
    ensures
        ({
            let b = str_bytes(content);
            let lc = lines_count(b) as int;
            let start = if offset - 1 <= lc {
                offset - 1
            } else {
                lc
            };
            let end = if start + limit <= lc {
                start + limit
            } else {
                lc
            };
            let sel = selected_range(b, start, end);
            let shown = sel.subrange(0, crate::text::prefix_end(sel, r.1.output_lines as int));
            &&& r.1.total_lines == lines_count(b)
            &&& r.1.truncated == !(num_lines(sel) <= limit && sel.len() <= max_bytes)
            &&& (!r.1.truncated ==> r.0@ == numbered_join(
                sel,
                offset as nat,
                lines_count(sel) as int,
            ) && r.1.output_lines == num_lines(sel))
            &&& (r.1.truncated ==> r.0@ == numbered_join(
                shown,
                offset as nat,
                lines_count(shown) as int,
            ))
            &&& (r.1.truncated_by is Some <==> r.1.truncated)
            &&& (r.1.truncated && line_end(sel, 0) > max_bytes ==> r.1.truncated_by == Some(
                crate::truncate::TruncatedBy::Bytes,
            ) && r.1.output_lines == 0)
            &&& (r.1.truncated && line_end(sel, 0) <= max_bytes ==> (r.1.truncated_by == Some(
                crate::truncate::TruncatedBy::Lines,
            ) <==> r.1.output_lines == limit))
        }),
{
    proof {
        encode_utf8_valid_utf8(content@);
        lemma_num_lines_pos(str_bytes(content), 0);
        crate::text::lemma_num_lines_bound(str_bytes(content), 0);
    }
    let ghost b = str_bytes(content);
    let bytes = content.as_bytes();
    let n = bytes.len();
    let total = count_lines(bytes);
    let lc: usize = if n == 0 {
        0
    } else if bytes[n - 1] == 10u8 {
        proof {
            lemma_line_struct(b, total as int - 1);
        }
        total - 1
    } else {
        total
    };
    proof {
        assert(lc == lines_count(b));
    }
    let selected = select_lines(content, offset, limit);
    proof {
        encode_utf8_valid_utf8(selected@);
        crate::text::lemma_num_lines_bound(encode_utf8(selected@), 0);
        let gstart: int = if offset - 1 <= lc {
            offset - 1
        } else {
            lc as int
        };
        let gend: int = if gstart + limit <= lc {
            gstart + limit
        } else {
            lc as int
        };
        if gstart < gend {
            lemma_line_struct(b, gstart);
            lemma_line_struct(b, gend - 1);
            lemma_line_start_mono(b, gstart, gend - 1);
        }
        assert(encode_utf8(selected@).len() <= b.len());
    }
    let t = truncate_head(selected.as_str(), limit, max_bytes);
    let numbered = if t.truncated {
        proof {
            let selb = encode_utf8(selected@);
            if !t.first_line_exceeds_limit {
                crate::text::lemma_prefix_end_mono(selb, t.output_lines as int);
            }
            assert(encode_utf8(t.content@).len() <= selb.len());
            crate::text::lemma_num_lines_bound(encode_utf8(t.content@), 0);
        }
        add_line_numbers(t.content.as_str(), offset)
    } else {
        add_line_numbers(selected.as_str(), offset)
    };
    (
        numbered,
        ReadDetails {
            total_lines: lc,
            output_lines: t.output_lines,
            truncated: t.truncated,
            truncated_by: t.truncated_by,
        },
    )
}

/// Index of the last occurrence of `c` in `b`, or `-1`.
pub open spec fn spec_rfind_byte(b: Seq<u8>, c: u8) -> int
    decreases b.len(),
{
    if b.len() == 0 {
        -1
    } else if b.last() == c {
        b.len() - 1
    } else {
        spec_rfind_byte(b.drop_last(), c)
    }
}

/// ASCII lowercasing of one byte.
pub open spec fn lower_byte(x: u8) -> u8 {
    if 65 <= x <= 90 {
        (x + 32) as u8
    } else {
        x
    }
}

/// The filename extension of a path, lowercased: the part of the last
/// path component after its last dot, where a dot leading the component
/// does not count (a hidden file has no extension).
pub open spec fn spec_ext(b: Seq<u8>) -> Seq<u8> {
    let comp = spec_rfind_byte(b, 47u8) + 1;
    let rel = spec_rfind_byte(b.subrange(comp, b.len() as int), 46u8);
    if rel <= 0 {
        Seq::empty()
    } else {
        b.subrange(comp + rel + 1, b.len() as int).map_values(|x: u8| lower_byte(x))
    }
}

/// The lowercased extensions treated as images.
pub open spec fn is_image_ext(e: Seq<u8>) -> bool {
    ||| e == seq![106u8, 112u8, 103u8]  // jpg
    ||| e == seq![106u8, 112u8, 101u8, 103u8]  // jpeg
    ||| e == seq![112u8, 110u8, 103u8]  // png
    ||| e == seq![103u8, 105u8, 102u8]  // gif
    ||| e == seq![119u8, 101u8, 98u8, 112u8]  // webp
    ||| e == seq![98u8, 109u8, 112u8]  // bmp
    ||| e == seq![105u8, 99u8, 111u8]  // ico
    ||| e == seq![116u8, 105u8, 102u8, 102u8]  // tiff
    ||| e == seq![116u8, 105u8, 102u8]  // tif
}

pub fn rfind_byte(bytes: &[u8], c: u8, from: usize) -> (r: Option<usize>)
    requires
        from <= bytes@.len(),
    ensures
        ({
            let sub = bytes@.subrange(from as int, bytes@.len() as int);
            match r {
                Some(i) => from <= i < bytes@.len() && spec_rfind_byte(sub, c) == i - from,
                None => spec_rfind_byte(sub, c) == -1,
            }
        }),
{
    let ghost sub = bytes@.subrange(from as int, bytes@.len() as int);
    let n = bytes.len();
    let mut i = n;
    proof {
        assert(sub.subrange(0, sub.len() as int) =~= sub);
    }
    while i > from
        invariant
            from <= i <= n,
            n == bytes@.len(),
            sub == bytes@.subrange(from as int, n as int),
            spec_rfind_byte(sub, c) == spec_rfind_byte(sub.subrange(0, i as int - from), c),
        decreases i,
    {
        if bytes[i - 1] == c {
            proof {
                assert(sub.subrange(0, i as int - from).last() == bytes@[i as int - 1]);
            }
            return Some(i - 1);
        }
        proof {
            assert(sub.subrange(0, i as int - from).last() == bytes@[i as int - 1]);
            assert(sub.subrange(0, i as int - from).drop_last() =~= sub.subrange(
                0,
                i as int - 1 - from,
            ));
        }
        i = i - 1;
    }
    proof {
        assert(sub.subrange(0, 0) =~= Seq::<u8>::empty());
    }
    None
}

/// The lowercased filename extension as bytes; empty when there is none.
pub fn extension_lower(path: &str) -> (r: Vec<u8>)
    ensures
        r@ == spec_ext(str_bytes(path)),
{
    proof {
        encode_utf8_valid_utf8(path@);
    }
    let ghost b = str_bytes(path);
    let bytes = path.as_bytes();
    let n = bytes.len();
    let comp: usize = match rfind_byte(bytes, 47u8, 0) {
        Some(i) => i + 1,
        None => 0,
    };
    proof {
        assert(bytes@.subrange(0, n as int) =~= b);
    }
    let dot = rfind_byte(bytes, 46u8, comp);
    let mut out: Vec<u8> = Vec::new();
    match dot {
        None => {
            proof {
                assert(out@ =~= spec_ext(b));
            }
            out
        },
        Some(d) => {
            if d == comp {
                proof {
                    assert(out@ =~= spec_ext(b));
                }
                return out;
            }
            let mut i = d + 1;
            while i < n
                invariant
                    comp < d + 1 <= i <= n,
                    n == bytes@.len(),
                    bytes@ == b,
                    out@ =~= b.subrange(d as int + 1, n as int).map_values(
                        |x: u8| lower_byte(x),
                    ).take(i as int - d - 1),
                decreases n - i,
            {
                let x = bytes[i];
                if 65u8 <= x && x <= 90u8 {
                    out.push(x + 32);
                } else {
                    out.push(x);
                }
                i = i + 1;
                proof {
                    assert(out@ =~= b.subrange(d as int + 1, n as int).map_values(
                        |x: u8| lower_byte(x),
                    ).take(i as int - d - 1));
                }
            }
            proof {
                assert(out@ =~= spec_ext(b));
            }
            out
        },
    }
}

/// Whether a filename names an image, judged by its extension.
pub fn is_image_file(path: &str) -> (r: bool)
    ensures
        r == is_image_ext(spec_ext(str_bytes(path))),
{
    let e = extension_lower(path);
    let n = e.len();
    let r3 = n == 3 && ((e[0] == 106u8 && e[1] == 112u8 && e[2] == 103u8) || (e[0] == 112u8 && e[1]
        == 110u8 && e[2] == 103u8) || (e[0] == 103u8 && e[1] == 105u8 && e[2] == 102u8) || (e[0]
        == 98u8 && e[1] == 109u8 && e[2] == 112u8) || (e[0] == 105u8 && e[1] == 99u8 && e[2]
        == 111u8) || (e[0] == 116u8 && e[1] == 105u8 && e[2] == 102u8));
    let r4 = n == 4 && ((e[0] == 106u8 && e[1] == 112u8 && e[2] == 101u8 && e[3] == 103u8) || (e[0]
        == 119u8 && e[1] == 101u8 && e[2] == 98u8 && e[3] == 112u8) || (e[0] == 116u8 && e[1]
        == 105u8 && e[2] == 102u8 && e[3] == 102u8));
    proof {
        if r3 || r4 {
            assert(is_image_ext(e@)) by {
                if n == 3 {
                    assert(e@ =~= seq![e@[0], e@[1], e@[2]]);
                } else {
                    assert(e@ =~= seq![e@[0], e@[1], e@[2], e@[3]]);
                }
            }
        } else {
            assert(!is_image_ext(e@)) by {
                if n == 3 {
                    assert(e@ =~= seq![e@[0], e@[1], e@[2]]);
                } else if n == 4 {
                    assert(e@ =~= seq![e@[0], e@[1], e@[2], e@[3]]);
                }
            }
        }
    }
    r3 || r4
}

/// The transport media type for an image filename; the generic byte-stream
/// type when the extension is not a known image kind.
pub open spec fn spec_mime(e: Seq<u8>) -> Seq<char> {
    if e == seq![106u8, 112u8, 103u8] || e == seq![106u8, 112u8, 101u8, 103u8] {
        "image/jpeg"@
    } else if e == seq![112u8, 110u8, 103u8] {
        "image/png"@
    } else if e == seq![103u8, 105u8, 102u8] {
        "image/gif"@
    } else if e == seq![119u8, 101u8, 98u8, 112u8] {
        "image/webp"@
    } else if e == seq![98u8, 109u8, 112u8] {
        "image/bmp"@
    } else if e == seq![105u8, 99u8, 111u8] {
        "image/x-icon"@
    } else if e == seq![116u8, 105u8, 102u8, 102u8] || e == seq![116u8, 105u8, 102u8] {
        "image/tiff"@
    } else {
        "application/octet-stream"@
    }
}

/// The media type reported for an image file, from its extension.
pub fn image_mime_type(path: &str) -> (r: &'static str)
    ensures
        r@ == spec_mime(spec_ext(str_bytes(path))),
{
    let e = extension_lower(path);
    let n = e.len();
    proof {
        if n == 3 {
            assert(e@ =~= seq![e@[0], e@[1], e@[2]]);
        } else if n == 4 {
            assert(e@ =~= seq![e@[0], e@[1], e@[2], e@[3]]);
        }
    }
    if n == 3 && e[0] == 106u8 && e[1] == 112u8 && e[2] == 103u8 {
        "image/jpeg"
    } else if n == 4 && e[0] == 106u8 && e[1] == 112u8 && e[2] == 101u8 && e[3] == 103u8 {
        "image/jpeg"
    } else if n == 3 && e[0] == 112u8 && e[1] == 110u8 && e[2] == 103u8 {
        "image/png"
    } else if n == 3 && e[0] == 103u8 && e[1] == 105u8 && e[2] == 102u8 {
        "image/gif"
    } else if n == 4 && e[0] == 119u8 && e[1] == 101u8 && e[2] == 98u8 && e[3] == 112u8 {
        "image/webp"
    } else if n == 3 && e[0] == 98u8 && e[1] == 109u8 && e[2] == 112u8 {
        "image/bmp"
    } else if n == 3 && e[0] == 105u8 && e[1] == 99u8 && e[2] == 111u8 {
        "image/x-icon"
    } else if n == 4 && e[0] == 116u8 && e[1] == 105u8 && e[2] == 102u8 && e[3] == 102u8 {
        "image/tiff"
    } else if n == 3 && e[0] == 116u8 && e[1] == 105u8 && e[2] == 102u8 {
        "image/tiff"
    } else {
        "application/octet-stream"
    }
}

/// The standard base64 rendering of a byte sequence, as the outside
/// encoder computes it: a function of the bytes alone.
pub uninterp spec fn base64_of(b: Seq<u8>) -> Seq<char>;

/// Relies on base64's standard-alphabet engine: padded encoding determined
/// by the bytes alone, four characters for every started three-byte block.
#[verifier::external_body]
pub fn base64_encode(data: &Vec<u8>) -> (r: String)
    ensures
        r@ == base64_of(data@),
        r@.len() == 4 * ((data@.len() + 2) / 3),
{
    base64::Engine::encode(&base64::engine::general_purpose::STANDARD, data)
}

} // verus!
