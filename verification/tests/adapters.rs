use pi_tools::bash::{append_output, build_bash_output};
use pi_tools::path::{
    join_path, pick_read_path, read_path_candidates, resolve_path, try_curly_quote_variant,
    try_mac_os_screenshot_path,
};
use pi_tools::scan::classify_ts_file;
use pi_tools::search::{
    format_grep_path, format_ls_lines, grep_limit_notice, lowercase_str, parse_match_event,
    relativize_line, render_grep_line, sanitize_line, select_ignore_files, sort_entries, LsEntry,
};
use pi_tools::provenance::{
    community_author_from_directory, detect_spdx_from_text, is_archive_filename,
    normalize_repo_url,
};
use pi_tools::tools::{base64_encode, image_mime_type, is_image_file};

#[test]
fn test_resolve_path_absolute() {
    let cwd = "/home/user/project";
    let result = resolve_path("/absolute/path", cwd);
    assert_eq!(result, "/absolute/path");
}

#[test]
fn test_resolve_path_relative() {
    let cwd = "/home/user/project";
    let result = resolve_path("src/main.rs", cwd);
    assert_eq!(result, "/home/user/project/src/main.rs");
}

#[test]
fn test_is_image_file() {
    assert!(is_image_file("image.png"));
    assert!(is_image_file("photo.JPG"));
    assert!(!is_image_file("code.rs"));
    assert!(!is_image_file("no_extension"));
}

#[test]
fn test_classify_synthetic_files() {
    let entry_high = classify_ts_file(
        "import type { ExtensionAPI } from \"@mariozechner/pi-coding-agent\";\nexport default function(pi: ExtensionAPI) {\n    pi.registerTool({ name: \"test\" });\n}",
        "test/index.ts",
    );
    assert_eq!(entry_high.classification, "entry_point");
    assert_eq!(entry_high.confidence, "high");
    assert!(
        entry_high
            .patterns_found
            .contains(&"export_default_function".to_string())
    );
    assert!(
        entry_high
            .patterns_found
            .contains(&"extension_api_ref".to_string())
    );

    let reexport = classify_ts_file("export { default } from \"./extension\";", "test/index.ts");
    assert_eq!(reexport.classification, "entry_point");
    assert_eq!(reexport.confidence, "high");
    assert!(
        reexport
            .patterns_found
            .contains(&"export_default_reexport".to_string())
    );

    let sub = classify_ts_file(
        "export interface Config { name: string; }\n\texport function helper(): void {}",
        "test/utils.ts",
    );
    assert_eq!(sub.classification, "sub_module");

    let non_ext = classify_ts_file("const x = 42;\nconsole.log(x);\n", "test/script.ts");
    assert_eq!(non_ext.classification, "non_extension");

    let test_file = classify_ts_file(
        "import { describe, it } from \"vitest\";\ndescribe(\"test\", () => { it(\"works\", () => {}); });",
        "test/foo.test.ts",
    );
    assert_eq!(test_file.classification, "non_extension");
    assert!(test_file.patterns_found.contains(&"test_file".to_string()));
}

#[test]
fn mime_types_follow_the_extension() {
    assert_eq!(image_mime_type("a.png"), "image/png");
    assert_eq!(image_mime_type("a.JPEG"), "image/jpeg");
    assert_eq!(image_mime_type("a.tif"), "image/tiff");
    assert_eq!(image_mime_type("a.txt"), "application/octet-stream");
    assert_eq!(image_mime_type(".png"), "application/octet-stream");
}

#[test]
fn base64_encoding_is_standard() {
    assert_eq!(base64_encode(&vec![1u8, 2u8, 3u8]), "AQID");
    assert_eq!(base64_encode(&vec![255u8]), "/w==");
    assert_eq!(base64_encode(&Vec::<u8>::new()), "");
}

#[test]
fn join_inserts_one_separator() {
    assert_eq!(join_path("/a/b", "c"), "/a/b/c");
    assert_eq!(join_path("/a/b/", "c"), "/a/b/c");
    assert_eq!(join_path("", "c"), "c");
}

#[test]
fn screenshot_variant_swaps_the_marker_space() {
    assert_eq!(
        try_mac_os_screenshot_path("Shot 1.23 AM.png"),
        "Shot 1.23\u{202F}AM.png"
    );
    assert_eq!(try_mac_os_screenshot_path("plain.png"), "plain.png");
}

#[test]
fn curly_variant_swaps_apostrophes() {
    assert_eq!(try_curly_quote_variant("it's here"), "it\u{2019}s here");
}

#[test]
fn read_candidates_start_with_the_resolution() {
    let c = read_path_candidates("Shot 1 AM.png", "/d");
    assert_eq!(c[0], "/d/Shot 1 AM.png");
    assert!(c.contains(&"/d/Shot 1\u{202F}AM.png".to_string()));

    let exists = vec![false, true];
    let picked = pick_read_path(&c, &vec![false; c.len()]);
    assert_eq!(picked, c[0]);
    let picked2 = pick_read_path(&vec!["x".to_string(), "y".to_string()], &exists);
    assert_eq!(picked2, "y");
}

#[test]
fn merged_output_keeps_arrival_order() {
    let mut full = String::new();
    let mut rolling = String::new();
    append_output(&mut full, &mut rolling, "from stdout");
    append_output(&mut full, &mut rolling, "from stderr");
    append_output(&mut full, &mut rolling, "stdout again");
    assert_eq!(full, "from stdout\nfrom stderr\nstdout again");
    assert_eq!(rolling, full);
}

#[test]
fn bash_result_reports_timeout_as_error() {
    let (t, text, details) = build_bash_output("partial", Some(0), true, 5, None);
    assert!(!t.truncated);
    assert!(details.timed_out);
    assert!(details.is_error);
    assert!(text.ends_with("Command timed out after 5 seconds"));
}

#[test]
fn bash_result_reports_nonzero_exit() {
    let (_t, text, details) = build_bash_output("oops", Some(3), false, 5, None);
    assert!(!details.timed_out);
    assert!(details.is_error);
    assert_eq!(details.exit_code, Some(3));
    assert!(text.ends_with("Command exited with code 3"));
}

#[test]
fn bash_result_success_is_not_an_error() {
    let (_t, text, details) = build_bash_output("fine", Some(0), false, 5, None);
    assert!(!details.is_error);
    assert_eq!(text, "fine");
    let (_t2, text2, _d2) = build_bash_output("", Some(0), false, 5, None);
    assert_eq!(text2, "(no output)");
}

#[test]
fn bash_truncation_notice_names_the_spill_file() {
    let mut lines = String::new();
    let mut rolling = String::new();
    let mut i = 0;
    while i < 2100 {
        append_output(&mut lines, &mut rolling, "line");
        i += 1;
    }
    let (t, text, details) = build_bash_output(&lines, Some(0), false, 5, Some("/tmp/spill"));
    assert!(t.truncated);
    assert!(details.truncated);
    assert!(text.contains("[Showing lines 101-2100 of 2100. Full output: /tmp/spill]"));
}

#[test]
fn grep_event_lines_parse_and_render() {
    let event = "{\"type\":\"match\",\"data\":{\"path\":{\"text\":\"src/lib.rs\"},\"line_number\":7}}";
    let m = parse_match_event(event).unwrap();
    assert_eq!(m.path, "src/lib.rs");
    assert_eq!(m.line_number, 7);
    assert!(parse_match_event("not json at all").is_none());
    assert!(parse_match_event("{\"type\":\"begin\"}").is_none());

    let line = render_grep_line("src/lib.rs", 7, "let x = 1;", true);
    assert_eq!(line, "src/lib.rs:7: let x = 1;");
    let ctx = render_grep_line("src/lib.rs", 6, "prev", false);
    assert_eq!(ctx, "src/lib.rs-6- prev");
}

#[test]
fn grep_paths_are_relativized_or_named() {
    assert_eq!(format_grep_path("/root/src/a.rs", "/root", true), "src/a.rs");
    assert_eq!(format_grep_path("/root/src/a.rs", "/root/", true), "src/a.rs");
    assert_eq!(format_grep_path("/root/src/a.rs", "/root", false), "a.rs");
    assert_eq!(format_grep_path("/elsewhere/a.rs", "/root", true), "a.rs");
    // a sibling that merely shares the root's characters is not under it
    assert_eq!(format_grep_path("/roots/a.rs", "/root", true), "a.rs");
}

#[test]
fn sanitizer_strips_carriage_returns() {
    assert_eq!(sanitize_line("a\rb\r"), "ab");
}

#[test]
fn limit_notice_names_both_limits() {
    assert_eq!(
        grep_limit_notice(1000),
        "1000 matches limit reached. Use limit=2000 for more, or refine pattern"
    );
}

#[test]
fn listing_sorts_case_insensitively_and_marks_directories() {
    let mut entries = Vec::new();
    for (name, is_dir) in [("beta", true), ("Alpha", false), ("gamma", false)] {
        entries.push(LsEntry {
            key: lowercase_str(name),
            name: name.to_string(),
            is_dir,
        });
    }
    let sorted = sort_entries(entries);
    let (lines, hit) = format_ls_lines(&sorted, 10);
    assert_eq!(lines, vec!["Alpha", "beta/", "gamma"]);
    assert!(!hit);
    let (lines2, hit2) = format_ls_lines(&sorted, 2);
    assert_eq!(lines2.len(), 2);
    assert!(hit2);
}

#[test]
fn find_results_are_relativized() {
    assert_eq!(relativize_line("/root/sub/file.rs", "/root"), "sub/file.rs");
    assert_eq!(relativize_line("other/file.rs", "/root"), "other/file.rs");
    assert_eq!(relativize_line("/root/dir/", "/root"), "dir/");
}

#[test]
fn ignore_files_skip_dependency_internals() {
    let candidates = vec![
        "/r/.gitignore".to_string(),
        "/r/node_modules/x/.gitignore".to_string(),
        "/r/.git/info/.gitignore".to_string(),
        "/r/.gitignore".to_string(),
        "/r/sub/.gitignore".to_string(),
    ];
    let kept = select_ignore_files(&candidates);
    assert_eq!(kept, vec!["/r/.gitignore".to_string(), "/r/sub/.gitignore".to_string()]);
}

#[test]
fn nfd_variant_decomposes_accents() {
    // a precomposed accent yields a decomposed read candidate
    let c = read_path_candidates("caf\u{00E9}", "/d");
    assert!(c.contains(&"/d/cafe\u{0301}".to_string()));
}

#[test]
fn lowercasing_folds_case() {
    assert_eq!(lowercase_str("MixedCASE"), "mixedcase");
}

#[test]
fn spdx_detection_reads_telltale_phrases() {
    assert_eq!(detect_spdx_from_text("The MIT License (MIT)"), Some("MIT"));
    assert_eq!(
        detect_spdx_from_text("Apache License\nVersion 2.0, January 2004"),
        Some("Apache-2.0")
    );
    assert_eq!(
        detect_spdx_from_text("GNU GENERAL PUBLIC LICENSE\nVersion 3"),
        Some("GPL-3.0")
    );
    assert_eq!(detect_spdx_from_text("all rights reserved"), None);
}

#[test]
fn community_author_comes_from_the_slug() {
    assert_eq!(
        community_author_from_directory("community/alice-tool"),
        Some("alice".to_string())
    );
    assert_eq!(community_author_from_directory("community/no_dash"), None);
    assert_eq!(community_author_from_directory("official/x-y"), None);
    assert_eq!(community_author_from_directory("community/-tool"), None);
}

#[test]
fn repo_urls_are_cleaned() {
    assert_eq!(
        normalize_repo_url(" git+https://host/owner/repo.git "),
        Some("https://host/owner/repo".to_string())
    );
    assert_eq!(
        normalize_repo_url("https://host/owner/repo"),
        Some("https://host/owner/repo".to_string())
    );
    assert_eq!(normalize_repo_url("   "), None);
}

#[test]
fn archive_names_are_recognized() {
    assert!(is_archive_filename("conformance_2024-01-01.json"));
    assert!(is_archive_filename("conformance_2024-01-01_120000Z_run-1.JSON"));
    assert!(!is_archive_filename("conformance_report.json"));
    assert!(!is_archive_filename("conformance_trend.json"));
    assert!(!is_archive_filename("other_2024.json"));
    assert!(!is_archive_filename("conformance_2024.txt"));
}
