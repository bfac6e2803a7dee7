use pi_tools::render::format_size;
use pi_tools::truncate::{
    add_line_numbers, truncate_head, truncate_line, truncate_string_to_bytes_from_end,
    truncate_tail, TruncatedBy,
};

#[test]
fn test_truncate_head() {
    let content = "line1\nline2\nline3\nline4\nline5";
    let result = truncate_head(content, 3, 1000);

    assert_eq!(result.content, "line1\nline2\nline3");
    assert!(result.truncated);
    assert_eq!(result.truncated_by, Some(TruncatedBy::Lines));
    assert_eq!(result.total_lines, 5);
    assert_eq!(result.output_lines, 3);
}

#[test]
fn test_truncate_tail() {
    let content = "line1\nline2\nline3\nline4\nline5";
    let result = truncate_tail(content, 3, 1000);

    assert_eq!(result.content, "line3\nline4\nline5");
    assert!(result.truncated);
    assert_eq!(result.truncated_by, Some(TruncatedBy::Lines));
    assert_eq!(result.total_lines, 5);
    assert_eq!(result.output_lines, 3);
}

#[test]
fn test_truncate_by_bytes() {
    let content = "short\nthis is a longer line\nanother";
    let result = truncate_head(content, 100, 15);

    assert!(result.truncated);
    assert_eq!(result.truncated_by, Some(TruncatedBy::Bytes));
}

#[test]
fn test_format_size() {
    assert_eq!(format_size(500), "500B");
    assert_eq!(format_size(1024), "1.0KB");
    assert_eq!(format_size(1536), "1.5KB");
    assert_eq!(format_size(1_048_576), "1.0MB");
    assert_eq!(format_size(1_073_741_824), "1024.0MB");
}

#[test]
fn size_formatting_rounds_to_nearest() {
    assert_eq!(format_size(1126), "1.1KB");
    assert_eq!(format_size(1178), "1.2KB");
    // an exact midpoint ties to the even digit
    assert_eq!(format_size(1280), "1.2KB");
}

#[test]
fn test_add_line_numbers() {
    let content = "first\nsecond\nthird";
    let result = add_line_numbers(content, 10);
    assert!(result.contains("10\tfirst"));
    assert!(result.contains("11\tsecond"));
    assert!(result.contains("12\tthird"));
}

#[test]
fn test_truncate_line() {
    let short = "short line";
    let result = truncate_line(short, 100);
    assert_eq!(result.text, "short line");
    assert!(!result.was_truncated);

    let long = "a".repeat(600);
    let result = truncate_line(&long, 500);
    assert!(result.was_truncated);
    assert!(result.text.ends_with("... [truncated]"));
}

#[test]
fn within_limits_returns_text_unchanged() {
    let content = "alpha\nbeta\ngamma";
    let head = truncate_head(content, 3, 1000);
    assert!(!head.truncated);
    assert_eq!(head.content, content);
    assert_eq!(head.output_lines, head.total_lines);
    assert_eq!(head.output_bytes, head.total_bytes);

    let tail = truncate_tail(content, 3, 1000);
    assert!(!tail.truncated);
    assert_eq!(tail.content, content);
    assert_eq!(tail.output_lines, tail.total_lines);
    assert_eq!(tail.output_bytes, tail.total_bytes);
}

#[test]
fn tail_partial_line_cuts_on_character_boundary() {
    // one long line of two-byte characters: the byte budget falls mid-character
    let content = "ééééé";
    let result = truncate_tail(content, 5, 3);
    assert!(result.truncated);
    assert!(result.last_line_partial);
    assert_eq!(result.truncated_by, Some(TruncatedBy::Bytes));
    // only one whole character fits in three bytes
    assert_eq!(result.content, "é");
    assert_eq!(result.output_bytes, 2);
    assert_eq!(result.output_lines, 1);
}

#[test]
fn byte_suffix_never_splits_a_code_point() {
    let s = "abécd";
    let r = truncate_string_to_bytes_from_end(s, 5);
    assert_eq!(r, "bécd");
    let r2 = truncate_string_to_bytes_from_end(s, 4);
    assert_eq!(r2, "écd");
    // a 3-byte suffix would split the two-byte é, so only 2 bytes survive
    let r3 = truncate_string_to_bytes_from_end(s, 3);
    assert_eq!(r3, "cd");
    let r4 = truncate_string_to_bytes_from_end(s, 100);
    assert_eq!(r4, s);
}

#[test]
fn head_first_line_over_budget_yields_empty() {
    let result = truncate_head("this first line is very long\nb", 10, 5);
    assert!(result.truncated);
    assert!(result.first_line_exceeds_limit);
    assert_eq!(result.content, "");
    assert_eq!(result.output_lines, 0);
    assert_eq!(result.truncated_by, Some(TruncatedBy::Bytes));
}

#[test]
fn head_byte_budget_keeps_whole_lines() {
    // lines cost their bytes plus one separator after the first
    let result = truncate_head("aaaa\nbbbb\ncccc", 10, 9);
    assert_eq!(result.content, "aaaa\nbbbb");
    assert_eq!(result.output_lines, 2);
    assert_eq!(result.truncated_by, Some(TruncatedBy::Bytes));
}

#[test]
fn add_line_numbers_exact_rendering() {
    assert_eq!(add_line_numbers("first\nsecond", 1), "1\tfirst\n2\tsecond");
    assert_eq!(add_line_numbers("only\n", 7), "7\tonly");
    assert_eq!(add_line_numbers("", 1), "");
    assert_eq!(add_line_numbers("cr\r\nplain", 2), "2\tcr\n3\tplain");
}

#[test]
fn read_selection_slices_lines() {
    let (text, details) = pi_tools::tools::render_read_output("l1\nl2\nl3\nl4", 2, 2, 1000);
    assert_eq!(text, "2\tl2\n3\tl3");
    assert_eq!(details.total_lines, 4);
    assert!(!details.truncated);
    assert_eq!(details.output_lines, 2);
}

#[test]
fn read_selection_truncates_by_bytes() {
    let (text, details) = pi_tools::tools::render_read_output("aaaa\nbbbb\ncccc", 1, 3, 9);
    assert_eq!(text, "1\taaaa\n2\tbbbb");
    assert!(details.truncated);
    assert_eq!(details.output_lines, 2);
}
