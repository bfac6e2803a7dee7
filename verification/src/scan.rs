//! Classification of a TypeScript source file as an extension entry point,
//! a sub-module, or neither, from the export shapes and API references its
//! lines carry.

use crate::bytefind::{find_sub, is_match_at, lemma_find_sub_props, matches_at, spec_find_sub};
use crate::normalize::{spec_trim, trim_both};
use crate::text::{lemma_str_bytes_nonempty, line_seq, num_lines, split_lines, str_bytes};
use crate::tools::spec_rfind_byte;
use vstd::prelude::*;
use vstd::string::StrSliceExecFns;
use vstd::string::StringSliceAdditionalSpecFns;
use vstd::utf8::*;

verus! {

/// The trimmed bytes of line `k`.
#[verifier::opaque]
pub open spec fn tl(b: Seq<u8>, k: int) -> Seq<u8> {
    encode_utf8(spec_trim(decode_utf8(line_seq(b, k))))
}

/// The line begins with the pattern.
pub open spec fn sw(l: Seq<u8>, p: Seq<u8>) -> bool {
    is_match_at(l, p, 0)
}

/// The line contains the pattern.
pub open spec fn ct(l: Seq<u8>, p: Seq<u8>) -> bool {
    spec_find_sub(l, p, 0) >= 0
}

/// The line ends with the pattern.
pub open spec fn ew(l: Seq<u8>, p: Seq<u8>) -> bool {
    p.len() <= l.len() && is_match_at(l, p, l.len() - p.len())
}

/// Some line is a default function export.
#[verifier::opaque]
pub open spec fn flag_edf(b: Seq<u8>) -> bool {
    exists|k: int|
        0 <= k < num_lines(b) && sw(#[trigger] tl(b, k), encode_utf8("export default function"@))
}

/// Some line is a default async function export.
#[verifier::opaque]
pub open spec fn flag_edaf(b: Seq<u8>) -> bool {
    exists|k: int|
        0 <= k < num_lines(b) && sw(
            #[trigger] tl(b, k),
            encode_utf8("export default async function"@),
        )
}

/// Some line re-exports another module's default export.
#[verifier::opaque]
pub open spec fn flag_reexport(b: Seq<u8>) -> bool {
    exists|k: int|
        0 <= k < num_lines(b) && (ct(#[trigger] tl(b, k), encode_utf8("export { default }"@)) || ct(
            tl(b, k),
            encode_utf8("export {default}"@),
        ) || ct(tl(b, k), encode_utf8("export { default,"@)))
}

/// Some line exports an identifier as the default, ended by a semicolon.
#[verifier::opaque]
pub open spec fn flag_edi(b: Seq<u8>) -> bool {
    exists|k: int|
        0 <= k < num_lines(b) && ({
            let l = #[trigger] tl(b, k);
            &&& sw(l, encode_utf8("export default "@))
            &&& !sw(l, encode_utf8("export default function"@))
            &&& !sw(l, encode_utf8("export default async"@))
            &&& !sw(l, encode_utf8("export default class"@))
            &&& !sw(l, encode_utf8("export default {"@))
            &&& !sw(l, encode_utf8("export default ("@))
            &&& l.len() > 0
            &&& l.last() == 59u8
        })
}

/// Some line references the extension interface types.
#[verifier::opaque]
pub open spec fn flag_api(b: Seq<u8>) -> bool {
    exists|k: int|
        0 <= k < num_lines(b) && (ct(#[trigger] tl(b, k), encode_utf8("ExtensionAPI"@)) || ct(
            tl(b, k),
            encode_utf8("ExtensionFactory"@),
        ))
}

/// Some line registers a tool, command, provider or flag.
#[verifier::opaque]
pub open spec fn flag_register(b: Seq<u8>) -> bool {
    exists|k: int|
        0 <= k < num_lines(b) && (ct(#[trigger] tl(b, k), encode_utf8(".registerTool("@)) || ct(
            tl(b, k),
            encode_utf8(".registerCommand("@),
        ) || ct(tl(b, k), encode_utf8(".registerProvider("@)) || ct(
            tl(b, k),
            encode_utf8(".registerFlag("@),
        ))
}

/// Some line subscribes to runtime events.
#[verifier::opaque]
pub open spec fn flag_on(b: Seq<u8>) -> bool {
    exists|k: int|
        0 <= k < num_lines(b) && ct(#[trigger] tl(b, k), encode_utf8(".on("@)) && ct(
            tl(b, k),
            encode_utf8("pi"@),
        )
}

/// Some line touches the event or session surface.
#[verifier::opaque]
pub open spec fn flag_events(b: Seq<u8>) -> bool {
    exists|k: int|
        0 <= k < num_lines(b) && (ct(#[trigger] tl(b, k), encode_utf8("pi.events"@)) || ct(
            tl(b, k),
            encode_utf8("pi.session"@),
        ))
}

/// Some line drives the user-interface surface.
#[verifier::opaque]
pub open spec fn flag_ui(b: Seq<u8>) -> bool {
    exists|k: int|
        0 <= k < num_lines(b) && (ct(#[trigger] tl(b, k), encode_utf8("pi.ui."@)) || ct(
            tl(b, k),
            encode_utf8(".setHeader("@),
        ) || ct(tl(b, k), encode_utf8(".setFooter("@)))
}

/// Some line is an export statement of any shape.
#[verifier::opaque]
pub open spec fn flag_any_export(b: Seq<u8>) -> bool {
    exists|k: int|
        0 <= k < num_lines(b) && (sw(#[trigger] tl(b, k), encode_utf8("export "@)) || sw(
            tl(b, k),
            encode_utf8("export{"@),
        ))
}

/// Some line is a named (non-default) export.
#[verifier::opaque]
pub open spec fn flag_named_export(b: Seq<u8>) -> bool {
    exists|k: int|
        0 <= k < num_lines(b) && (sw(#[trigger] tl(b, k), encode_utf8("export "@)) || sw(
            tl(b, k),
            encode_utf8("export{"@),
        )) && !ct(tl(b, k), encode_utf8("default"@))
}

/// A default export of any of the recognized shapes.
pub open spec fn flag_default(b: Seq<u8>) -> bool {
    flag_edf(b) || flag_edaf(b) || flag_reexport(b) || flag_edi(b)
}

/// A call into the extension runtime of any of the recognized shapes.
pub open spec fn flag_pi_api(b: Seq<u8>) -> bool {
    flag_register(b) || flag_on(b) || flag_events(b) || flag_ui(b)
}

/// Whether the file's name marks it as a test, never an entry point.
#[verifier::opaque]
pub open spec fn is_test_name(p: Seq<u8>) -> bool {
    let f = p.subrange(spec_rfind_byte(p, 47u8) + 1, p.len() as int);
    ew(f, encode_utf8(".test.ts"@)) || ew(f, encode_utf8(".spec.ts"@)) || ew(
        f,
        encode_utf8(".bench.ts"@),
    )
}

/// The classification of a file: entry point, sub-module, non-extension,
/// or unknown.
pub open spec fn classification_of(b: Seq<u8>, rp: Seq<u8>) -> Seq<char> {
    if is_test_name(rp) {
        "non_extension"@
    } else if (flag_default(b) && (flag_api(b) || flag_pi_api(b))) || flag_reexport(b) {
        "entry_point"@
    } else if flag_default(b) {
        "entry_point"@
    } else if flag_named_export(b) || (flag_api(b) && flag_pi_api(b)) {
        "sub_module"@
    } else if !flag_any_export(b) {
        "non_extension"@
    } else {
        "unknown"@
    }
}

/// How certain the classification is.
pub open spec fn confidence_of(b: Seq<u8>, rp: Seq<u8>) -> Seq<char> {
    if is_test_name(rp) {
        "high"@
    } else if (flag_default(b) && (flag_api(b) || flag_pi_api(b))) || flag_reexport(b) {
        "high"@
    } else if flag_default(b) {
        "medium"@
    } else if flag_named_export(b) || (flag_api(b) && flag_pi_api(b)) {
        "high"@
    } else if !flag_any_export(b) {
        "medium"@
    } else {
        "low"@
    }
}

/// The pattern names reported with a classification.
pub open spec fn patterns_of(b: Seq<u8>, rp: Seq<u8>) -> Seq<Seq<char>> {
    if is_test_name(rp) {
        seq!["test_file"@]
    } else {
        (if flag_edf(b) {
            seq!["export_default_function"@]
        } else {
            Seq::empty()
        }) + (if flag_edaf(b) {
            seq!["export_default_async_function"@]
        } else {
            Seq::empty()
        }) + (if flag_reexport(b) {
            seq!["export_default_reexport"@]
        } else {
            Seq::empty()
        }) + (if flag_edi(b) {
            seq!["export_default_identifier"@]
        } else {
            Seq::empty()
        }) + (if flag_api(b) {
            seq!["extension_api_ref"@]
        } else {
            Seq::empty()
        }) + (if flag_register(b) {
            seq!["pi_register_call"@]
        } else {
            Seq::empty()
        }) + (if flag_on(b) {
            seq!["pi_on_event"@]
        } else {
            Seq::empty()
        }) + (if flag_events(b) {
            seq!["pi_events_or_session"@]
        } else {
            Seq::empty()
        }) + (if flag_ui(b) {
            seq!["pi_ui_call"@]
        } else {
            Seq::empty()
        }) + (if !flag_default(b) && flag_api(b) && flag_pi_api(b) && !flag_named_export(b) {
            seq!["named_export_absent"@]
        } else {
            Seq::empty()
        })
    }
}

/// The per-line shapes a scan looks for.
pub struct LineFlags {
    pub edf: bool,
    pub edaf: bool,
    pub reex: bool,
    pub edi: bool,
    pub api: bool,
    pub reg: bool,
    pub onf: bool,
    pub ev: bool,
    pub ui: bool,
    pub anyexp: bool,
    pub named: bool,
}

/// Judge one trimmed line against every shape the scan looks for.
#[verifier::rlimit(60)]
fn line_flags(tb: &[u8]) -> (r: LineFlags)
    ensures
        r.edf == sw(tb@, encode_utf8("export default function"@)),
        r.edaf == sw(tb@, encode_utf8("export default async function"@)),
        r.reex == (ct(tb@, encode_utf8("export { default }"@)) || ct(
            tb@,
            encode_utf8("export {default}"@),
        ) || ct(tb@, encode_utf8("export { default,"@))),
        r.edi == (sw(tb@, encode_utf8("export default "@)) && !sw(
            tb@,
            encode_utf8("export default function"@),
        ) && !sw(tb@, encode_utf8("export default async"@)) && !sw(
            tb@,
            encode_utf8("export default class"@),
        ) && !sw(tb@, encode_utf8("export default {"@)) && !sw(
            tb@,
            encode_utf8("export default ("@),
        ) && tb@.len() > 0 && tb@.last() == 59u8),
        r.api == (ct(tb@, encode_utf8("ExtensionAPI"@)) || ct(
            tb@,
            encode_utf8("ExtensionFactory"@),
        )),
        r.reg == (ct(tb@, encode_utf8(".registerTool("@)) || ct(
            tb@,
            encode_utf8(".registerCommand("@),
        ) || ct(tb@, encode_utf8(".registerProvider("@)) || ct(
            tb@,
            encode_utf8(".registerFlag("@),
        )),
        r.onf == (ct(tb@, encode_utf8(".on("@)) && ct(tb@, encode_utf8("pi"@))),
        r.ev == (ct(tb@, encode_utf8("pi.events"@)) || ct(tb@, encode_utf8("pi.session"@))),
        r.ui == (ct(tb@, encode_utf8("pi.ui."@)) || ct(tb@, encode_utf8(".setHeader("@)) || ct(
            tb@,
            encode_utf8(".setFooter("@),
        )),
        r.anyexp == (sw(tb@, encode_utf8("export "@)) || sw(tb@, encode_utf8("export{"@))),
        r.named == ((sw(tb@, encode_utf8("export "@)) || sw(tb@, encode_utf8("export{"@))) && !ct(
            tb@,
            encode_utf8("default"@),
        )),
{
    proof {
        reveal_strlit("export default function");
        reveal_strlit("export default async function");
        reveal_strlit("export { default }");
        reveal_strlit("export {default}");
        reveal_strlit("export { default,");
        reveal_strlit("export default ");
        reveal_strlit("export default async");
        reveal_strlit("export default class");
        reveal_strlit("export default {");
        reveal_strlit("export default (");
        reveal_strlit("ExtensionAPI");
        reveal_strlit("ExtensionFactory");
        reveal_strlit(".registerTool(");
        reveal_strlit(".registerCommand(");
        reveal_strlit(".registerProvider(");
        reveal_strlit(".registerFlag(");
        reveal_strlit(".on(");
        reveal_strlit("pi");
        reveal_strlit("pi.events");
        reveal_strlit("pi.session");
        reveal_strlit("pi.ui.");
        reveal_strlit(".setHeader(");
        reveal_strlit(".setFooter(");
        reveal_strlit("export ");
        reveal_strlit("export{");
        reveal_strlit("default");
        lemma_str_bytes_nonempty("export { default }"@);
        lemma_str_bytes_nonempty("export {default}"@);
        lemma_str_bytes_nonempty("export { default,"@);
        lemma_str_bytes_nonempty("ExtensionAPI"@);
        lemma_str_bytes_nonempty("ExtensionFactory"@);
        lemma_str_bytes_nonempty(".registerTool("@);
        lemma_str_bytes_nonempty(".registerCommand("@);
        lemma_str_bytes_nonempty(".registerProvider("@);
        lemma_str_bytes_nonempty(".registerFlag("@);
        lemma_str_bytes_nonempty(".on("@);
        lemma_str_bytes_nonempty("pi"@);
        lemma_str_bytes_nonempty("pi.events"@);
        lemma_str_bytes_nonempty("pi.session"@);
        lemma_str_bytes_nonempty("pi.ui."@);
        lemma_str_bytes_nonempty(".setHeader("@);
        lemma_str_bytes_nonempty(".setFooter("@);
        lemma_str_bytes_nonempty("default"@);
    }
    let tn = tb.len();
    let edf = starts_with_b(tb, "export default function".as_bytes());
    let edaf = starts_with_b(tb, "export default async function".as_bytes());
    let reex = contains_b(tb, "export { default }".as_bytes()) || contains_b(
        tb,
        "export {default}".as_bytes(),
    ) || contains_b(tb, "export { default,".as_bytes());
    let edi = starts_with_b(tb, "export default ".as_bytes()) && !starts_with_b(
        tb,
        "export default function".as_bytes(),
    ) && !starts_with_b(tb, "export default async".as_bytes()) && !starts_with_b(
        tb,
        "export default class".as_bytes(),
    ) && !starts_with_b(tb, "export default {".as_bytes()) && !starts_with_b(
        tb,
        "export default (".as_bytes(),
    ) && tn > 0 && tb[tn - 1] == 59u8;
    let api = contains_b(tb, "ExtensionAPI".as_bytes()) || contains_b(
        tb,
        "ExtensionFactory".as_bytes(),
    );
    let reg = contains_b(tb, ".registerTool(".as_bytes()) || contains_b(
        tb,
        ".registerCommand(".as_bytes(),
    ) || contains_b(tb, ".registerProvider(".as_bytes()) || contains_b(
        tb,
        ".registerFlag(".as_bytes(),
    );
    let onf = contains_b(tb, ".on(".as_bytes()) && contains_b(tb, "pi".as_bytes());
    let ev = contains_b(tb, "pi.events".as_bytes()) || contains_b(tb, "pi.session".as_bytes());
    let ui = contains_b(tb, "pi.ui.".as_bytes()) || contains_b(tb, ".setHeader(".as_bytes())
        || contains_b(tb, ".setFooter(".as_bytes());
    let anyexp = starts_with_b(tb, "export ".as_bytes()) || starts_with_b(
        tb,
        "export{".as_bytes(),
    );
    let named = anyexp && !contains_b(tb, "default".as_bytes());
    LineFlags { edf, edaf, reex, edi, api, reg, onf, ev, ui, anyexp, named }
}

/// One file's scan outcome: where it sits, how it was judged, how certain
/// the judgment is, and which patterns drove it.
pub struct EntryPointScan {
    pub path: String,
    pub classification: String,
    pub confidence: String,
    pub patterns_found: Vec<String>,
}

fn starts_with_b(h: &[u8], p: &[u8]) -> (r: bool)
    ensures
        r == sw(h@, p@),
{
    let hl = h.len();
    let pl = p.len();
    if pl > hl {
        return false;
    }
    matches_at(h, p, 0)
}

fn ends_with_b(h: &[u8], p: &[u8]) -> (r: bool)
    ensures
        r == ew(h@, p@),
{
    let hl = h.len();
    let pl = p.len();
    if pl > hl {
        return false;
    }
    matches_at(h, p, hl - pl)
}

fn contains_b(h: &[u8], p: &[u8]) -> (r: bool)
    requires
        p@.len() > 0,
    ensures
        r == ct(h@, p@),
{
    proof {
        lemma_find_sub_props(h@, p@, 0);
    }
    match find_sub(h, p, 0) {
        Some(_i) => true,
        None => false,
    }
}

/// Classify one TypeScript file: a test-named file is never an entry
/// point; otherwise a default export next to API references or runtime
/// calls marks a high-confidence entry point, a bare default export a
/// medium one, named exports a sub-module, and a file without exports a
/// non-extension.
#[verifier::rlimit(100)]
#[verifier::spinoff_prover]
pub fn classify_ts_file(content: &str, rel_path: &str) -> (r: EntryPointScan)
    requires
        str_bytes(content).len() < usize::MAX,
    ensures
        r.path@ == rel_path@,
        r.classification@ == classification_of(str_bytes(content), str_bytes(rel_path)),
        r.confidence@ == confidence_of(str_bytes(content), str_bytes(rel_path)),
        r.patterns_found@.map_values(|s: String| s@) == patterns_of(
            str_bytes(content),
            str_bytes(rel_path),
        ),
{
    proof {
        encode_utf8_valid_utf8(content@);
        encode_utf8_valid_utf8(rel_path@);
        reveal_strlit(".test.ts");
        reveal_strlit(".spec.ts");
        reveal_strlit(".bench.ts");
    }
    let ghost b = str_bytes(content);
    let ghost rp = str_bytes(rel_path);
    let rb = rel_path.as_bytes();
    let rn = rb.len();
    let comp: usize = match crate::tools::rfind_byte(rb, 47u8, 0) {
        Some(i) => i + 1,
        None => 0,
    };
    proof {
        assert(rb@.subrange(0, rn as int) =~= rp);
    }
    let t1: &str = ".test.ts";
    let t2: &str = ".spec.ts";
    let t3: &str = ".bench.ts";
    let mut is_test = false;
    let mut ti: usize = 0;
    while ti < 3
        invariant
            0 <= ti <= 3,
            rn == rp.len(),
            rb@ == rp,
            comp == spec_rfind_byte(rp, 47u8) + 1,
            0 <= comp <= rn,
            t1@ == ".test.ts"@,
            t2@ == ".spec.ts"@,
            t3@ == ".bench.ts"@,
            ti >= 1 ==> (is_test || !ew(
                rp.subrange(comp as int, rn as int),
                encode_utf8(".test.ts"@),
            )),
            ti >= 2 ==> (is_test || !ew(
                rp.subrange(comp as int, rn as int),
                encode_utf8(".spec.ts"@),
            )),
            ti >= 3 ==> (is_test || !ew(
                rp.subrange(comp as int, rn as int),
                encode_utf8(".bench.ts"@),
            )),
            is_test ==> is_test_name(rp),
        decreases 3 - ti,
    {
        let pat: &str = if ti == 0 {
            t1
        } else if ti == 1 {
            t2
        } else {
            t3
        };
        let pb = pat.as_bytes();
        let pl = pb.len();
        proof {
            reveal_strlit(".test.ts");
            reveal_strlit(".spec.ts");
            reveal_strlit(".bench.ts");
            lemma_str_bytes_nonempty(pat@);
        }
        if rn - comp >= pl && matches_at(rb, pb, rn - pl) {
            proof {
                reveal(is_test_name);
                let f = rp.subrange(comp as int, rn as int);
                assert(f.subrange(f.len() - pl, f.len() as int) =~= rp.subrange(
                    rn as int - pl,
                    rn as int,
                ));
                assert(ew(f, str_bytes(pat)));
            }
            is_test = true;
        } else {
            proof {
                let f = rp.subrange(comp as int, rn as int);
                if pl <= f.len() {
                    assert(f.subrange(f.len() - pl, f.len() as int) =~= rp.subrange(
                        rn as int - pl,
                        rn as int,
                    ));
                }
            }
        }
        ti = ti + 1;
    }
    proof {
        if !is_test {
            reveal(is_test_name);
            assert(!is_test_name(rp));
        }
    }
    if is_test {
        let mut pats: Vec<String> = Vec::new();
        pats.push("test_file".to_owned());
        proof {
            assert(pats@.map_values(|s: String| s@) =~= patterns_of(b, rp));
        }
        return EntryPointScan {
            path: rel_path.to_owned(),
            classification: "non_extension".to_owned(),
            confidence: "high".to_owned(),
            patterns_found: pats,
        };
    }
    let lines = split_lines(content);
    let nl = lines.len();
    let mut edf = false;
    let mut edaf = false;
    let mut reex = false;
    let mut edi = false;
    let mut api = false;
    let mut reg = false;
    let mut onf = false;
    let mut ev = false;
    let mut ui = false;
    let mut anyexp = false;
    let mut named = false;
    let mut k: usize = 0;
    while k < nl
        invariant
            nl == lines@.len() == num_lines(b),
            forall|j: int| 0 <= j < nl ==> str_bytes(#[trigger] lines@[j]) == line_seq(b, j),
            0 <= k <= nl,
            edf == exists|j: int|
                0 <= j < k && sw(#[trigger] tl(b, j), encode_utf8("export default function"@)),
            edaf == exists|j: int|
                0 <= j < k && sw(
                    #[trigger] tl(b, j),
                    encode_utf8("export default async function"@),
                ),
            reex == exists|j: int|
                0 <= j < k && (ct(#[trigger] tl(b, j), encode_utf8("export { default }"@)) || ct(
                    tl(b, j),
                    encode_utf8("export {default}"@),
                ) || ct(tl(b, j), encode_utf8("export { default,"@))),
            edi == exists|j: int|
                0 <= j < k && ({
                    let l = #[trigger] tl(b, j);
                    &&& sw(l, encode_utf8("export default "@))
                    &&& !sw(l, encode_utf8("export default function"@))
                    &&& !sw(l, encode_utf8("export default async"@))
                    &&& !sw(l, encode_utf8("export default class"@))
                    &&& !sw(l, encode_utf8("export default {"@))
                    &&& !sw(l, encode_utf8("export default ("@))
                    &&& l.len() > 0
                    &&& l.last() == 59u8
                }),
            api == exists|j: int|
                0 <= j < k && (ct(#[trigger] tl(b, j), encode_utf8("ExtensionAPI"@)) || ct(
                    tl(b, j),
                    encode_utf8("ExtensionFactory"@),
                )),
            reg == exists|j: int|
                0 <= j < k && (ct(#[trigger] tl(b, j), encode_utf8(".registerTool("@)) || ct(
                    tl(b, j),
                    encode_utf8(".registerCommand("@),
                ) || ct(tl(b, j), encode_utf8(".registerProvider("@)) || ct(
                    tl(b, j),
                    encode_utf8(".registerFlag("@),
                )),
            onf == exists|j: int|
                0 <= j < k && ct(#[trigger] tl(b, j), encode_utf8(".on("@)) && ct(
                    tl(b, j),
                    encode_utf8("pi"@),
                ),
            ev == exists|j: int|
                0 <= j < k && (ct(#[trigger] tl(b, j), encode_utf8("pi.events"@)) || ct(
                    tl(b, j),
                    encode_utf8("pi.session"@),
                )),
            ui == exists|j: int|
                0 <= j < k && (ct(#[trigger] tl(b, j), encode_utf8("pi.ui."@)) || ct(
                    tl(b, j),
                    encode_utf8(".setHeader("@),
                ) || ct(tl(b, j), encode_utf8(".setFooter("@))),
            anyexp == exists|j: int|
                0 <= j < k && (sw(#[trigger] tl(b, j), encode_utf8("export "@)) || sw(
                    tl(b, j),
                    encode_utf8("export{"@),
                )),
            named == exists|j: int|
                0 <= j < k && (sw(#[trigger] tl(b, j), encode_utf8("export "@)) || sw(
                    tl(b, j),
                    encode_utf8("export{"@),
                )) && !ct(tl(b, j), encode_utf8("default"@)),
        decreases nl - k,
    {
        proof {
            encode_utf8_decode_utf8(lines@[k as int]@);
        }
        let trimmed = trim_both(lines[k]);
        let tb = trimmed.as_str().as_bytes();
        proof {
            reveal(tl);
            assert(tb@ == tl(b, k as int));
        }
        let f = line_flags(tb);
        edf = edf || f.edf;
        edaf = edaf || f.edaf;
        reex = reex || f.reex;
        edi = edi || f.edi;
        api = api || f.api;
        reg = reg || f.reg;
        onf = onf || f.onf;
        ev = ev || f.ev;
        ui = ui || f.ui;
        anyexp = anyexp || f.anyexp;
        named = named || f.named;
        k = k + 1;
    }
    proof {
        reveal(flag_edf);
        reveal(flag_edaf);
        reveal(flag_reexport);
        reveal(flag_edi);
        reveal(flag_api);
        reveal(flag_register);
        reveal(flag_on);
        reveal(flag_events);
        reveal(flag_ui);
        reveal(flag_any_export);
        reveal(flag_named_export);
        assert(edf == flag_edf(b));
        assert(edaf == flag_edaf(b));
        assert(reex == flag_reexport(b));
        assert(edi == flag_edi(b));
        assert(api == flag_api(b));
        assert(reg == flag_register(b));
        assert(onf == flag_on(b));
        assert(ev == flag_events(b));
        assert(ui == flag_ui(b));
        assert(anyexp == flag_any_export(b));
        assert(named == flag_named_export(b));
        assert(!is_test_name(rp));
    }
    assemble_scan(
        rel_path,
        Ghost(b),
        Ghost(rp),
        edf,
        edaf,
        reex,
        edi,
        api,
        reg,
        onf,
        ev,
        ui,
        anyexp,
        named,
    )
}

/// Build the scan record from the accumulated flags.
#[verifier::rlimit(100)]
#[verifier::spinoff_prover]
fn assemble_scan(
    rel_path: &str,
    Ghost(b): Ghost<Seq<u8>>,
    Ghost(rp): Ghost<Seq<u8>>,
    edf: bool,
    edaf: bool,
    reex: bool,
    edi: bool,
    api: bool,
    reg: bool,
    onf: bool,
    ev: bool,
    ui: bool,
    anyexp: bool,
    named: bool,
) -> (r: EntryPointScan)
    requires
        !is_test_name(rp),
        edf == flag_edf(b),
        edaf == flag_edaf(b),
        reex == flag_reexport(b),
        edi == flag_edi(b),
        api == flag_api(b),
        reg == flag_register(b),
        onf == flag_on(b),
        ev == flag_events(b),
        ui == flag_ui(b),
        anyexp == flag_any_export(b),
        named == flag_named_export(b),
    ensures
        r.path@ == rel_path@,
        r.classification@ == classification_of(b, rp),
        r.confidence@ == confidence_of(b, rp),
        r.patterns_found@.map_values(|s: String| s@) == patterns_of(b, rp),
{
    let has_default = edf || edaf || reex || edi;
    let has_pi = reg || onf || ev || ui;
    let classification: &str = if (has_default && (api || has_pi)) || reex {
        "entry_point"
    } else if has_default {
        "entry_point"
    } else if named || (api && has_pi) {
        "sub_module"
    } else if !anyexp {
        "non_extension"
    } else {
        "unknown"
    };
    let confidence: &str = if (has_default && (api || has_pi)) || reex {
        "high"
    } else if has_default {
        "medium"
    } else if named || (api && has_pi) {
        "high"
    } else if !anyexp {
        "medium"
    } else {
        "low"
    };
    let pats = build_patterns(Ghost(b), Ghost(rp), edf, edaf, reex, edi, api, reg, onf, ev, ui, named);
    EntryPointScan {
        path: rel_path.to_owned(),
        classification: classification.to_owned(),
        confidence: confidence.to_owned(),
        patterns_found: pats,
    }
}

/// Collect the pattern names that drove a (non-test-file) classification,
/// in a fixed category order.
#[verifier::rlimit(100)]
#[verifier::spinoff_prover]
fn build_patterns(
    Ghost(b): Ghost<Seq<u8>>,
    Ghost(rp): Ghost<Seq<u8>>,
    edf: bool,
    edaf: bool,
    reex: bool,
    edi: bool,
    api: bool,
    reg: bool,
    onf: bool,
    ev: bool,
    ui: bool,
    named: bool,
) -> (pats: Vec<String>)
    requires
        !is_test_name(rp),
        edf == flag_edf(b),
        edaf == flag_edaf(b),
        reex == flag_reexport(b),
        edi == flag_edi(b),
        api == flag_api(b),
        reg == flag_register(b),
        onf == flag_on(b),
        ev == flag_events(b),
        ui == flag_ui(b),
        named == flag_named_export(b),
    ensures
        pats@.map_values(|s: String| s@) == patterns_of(b, rp),
{
    let has_default = edf || edaf || reex || edi;
    let has_pi = reg || onf || ev || ui;
    let mut pats: Vec<String> = Vec::new();
    let ghost vm = |s: String| s@;
    if edf {
        pats.push("export_default_function".to_owned());
    }
    let ghost g1 = if flag_edf(b) {
        seq!["export_default_function"@]
    } else {
        Seq::<Seq<char>>::empty()
    };
    proof {
        assert(pats@.map_values(vm) =~= g1);
    }
    if edaf {
        pats.push("export_default_async_function".to_owned());
    }
    let ghost g2 = g1 + (if flag_edaf(b) {
        seq!["export_default_async_function"@]
    } else {
        Seq::<Seq<char>>::empty()
    });
    proof {
        assert(pats@.map_values(vm) =~= g2);
    }
    if reex {
        pats.push("export_default_reexport".to_owned());
    }
    let ghost g3 = g2 + (if flag_reexport(b) {
        seq!["export_default_reexport"@]
    } else {
        Seq::<Seq<char>>::empty()
    });
    proof {
        assert(pats@.map_values(vm) =~= g3);
    }
    if edi {
        pats.push("export_default_identifier".to_owned());
    }
    let ghost g4 = g3 + (if flag_edi(b) {
        seq!["export_default_identifier"@]
    } else {
        Seq::<Seq<char>>::empty()
    });
    proof {
        assert(pats@.map_values(vm) =~= g4);
    }
    if api {
        pats.push("extension_api_ref".to_owned());
    }
    let ghost g5 = g4 + (if flag_api(b) {
        seq!["extension_api_ref"@]
    } else {
        Seq::<Seq<char>>::empty()
    });
    proof {
        assert(pats@.map_values(vm) =~= g5);
    }
    if reg {
        pats.push("pi_register_call".to_owned());
    }
    let ghost g6 = g5 + (if flag_register(b) {
        seq!["pi_register_call"@]
    } else {
        Seq::<Seq<char>>::empty()
    });
    proof {
        assert(pats@.map_values(vm) =~= g6);
    }
    if onf {
        pats.push("pi_on_event".to_owned());
    }
    let ghost g7 = g6 + (if flag_on(b) {
        seq!["pi_on_event"@]
    } else {
        Seq::<Seq<char>>::empty()
    });
    proof {
        assert(pats@.map_values(vm) =~= g7);
    }
    if ev {
        pats.push("pi_events_or_session".to_owned());
    }
    let ghost g8 = g7 + (if flag_events(b) {
        seq!["pi_events_or_session"@]
    } else {
        Seq::<Seq<char>>::empty()
    });
    proof {
        assert(pats@.map_values(vm) =~= g8);
    }
    if ui {
        pats.push("pi_ui_call".to_owned());
    }
    let ghost g9 = g8 + (if flag_ui(b) {
        seq!["pi_ui_call"@]
    } else {
        Seq::<Seq<char>>::empty()
    });
    proof {
        assert(pats@.map_values(vm) =~= g9);
    }
    if !has_default && api && has_pi && !named {
        pats.push("named_export_absent".to_owned());
    }
    let ghost g10 = g9 + (if !flag_default(b) && flag_api(b) && flag_pi_api(b)
        && !flag_named_export(b) {
        seq!["named_export_absent"@]
    } else {
        Seq::<Seq<char>>::empty()
    });
    proof {
        assert(pats@.map_values(vm) =~= g10);
        reveal(is_test_name);
        assert(g10 =~= patterns_of(b, rp));
        assert(pats@.map_values(|s: String| s@) =~= pats@.map_values(vm));
    }
    pats
}

} // verus!
