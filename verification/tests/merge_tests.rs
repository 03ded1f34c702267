use modoc::merge_contents;

#[test]
fn readme_into_main() {
    let out = merge_contents("Hello\nWorld", "//! old doc\nfn main() {}");
    assert_eq!(out, "//! Hello\n//! World\nfn main() {}\n");
}

#[test]
fn empty_markdown_leaves_target_lines() {
    let out = merge_contents("", "fn a() {}\nfn b() {}\n");
    assert_eq!(out, "fn a() {}\nfn b() {}\n");
}

#[test]
fn whitespace_only_markdown_counts_as_empty() {
    let out = merge_contents("  \n\t \n", "fn a() {}\n");
    assert_eq!(out, "fn a() {}\n");
}

#[test]
fn missing_final_newline_is_normalized() {
    let out = merge_contents("", "fn a() {}");
    assert_eq!(out, "fn a() {}\n");
}

#[test]
fn markdown_document_is_trimmed_whole() {
    let out = merge_contents("\n\nHi\n\n", "");
    assert_eq!(out, "//! Hi\n");
}

#[test]
fn interior_blank_markdown_lines_are_kept() {
    let out = merge_contents("A\n\nB", "");
    assert_eq!(out, "//! A\n//! \n//! B\n");
}

#[test]
fn merge_twice_gives_same_bytes() {
    let md = "Title\n\nSome text.";
    let target = "//! stale\nuse std::fmt;\n\nfn main() {}\n";
    let once = merge_contents(md, target);
    let twice = merge_contents(md, &once);
    assert_eq!(once, twice);
}

#[test]
fn interleaved_marker_lines_are_all_replaced() {
    let target = "//! one\ncode1\n//! two\ncode2\n//! three";
    let out = merge_contents("Doc", target);
    assert_eq!(out, "//! Doc\ncode1\ncode2\n");
}

#[test]
fn marker_without_space_is_dropped() {
    let out = merge_contents("", "//!bare\ncode\n");
    assert_eq!(out, "code\n");
}

#[test]
fn indented_marker_is_kept() {
    let out = merge_contents("", " //! indented\ncode\n");
    assert_eq!(out, " //! indented\ncode\n");
}

#[test]
fn empty_markdown_and_empty_target() {
    assert_eq!(merge_contents("", ""), "");
}

#[test]
fn unicode_whitespace_markdown_counts_as_empty() {
    let out = merge_contents("\u{b}", "fn a() {}\n");
    assert_eq!(out, "fn a() {}\n");
    let out = merge_contents("\u{a0}\u{2028}", "fn a() {}\n");
    assert_eq!(out, "fn a() {}\n");
}

#[test]
fn crlf_target_is_normalized() {
    assert_eq!(merge_contents("", "a\r\nb"), "a\nb\n");
}

#[test]
fn crlf_markdown_is_normalized() {
    let out = merge_contents("Hello\r\nWorld\r\n", "fn main() {}");
    assert_eq!(out, "//! Hello\n//! World\nfn main() {}\n");
}

#[test]
fn only_one_carriage_return_is_dropped_per_line() {
    assert_eq!(merge_contents("", "x\r\r\n"), "x\r\n");
}

#[test]
fn merge_twice_on_crlf_target_gives_same_bytes() {
    let md = "Title";
    let target = "//! stale\r\nfn main() {}\r\n";
    let once = merge_contents(md, target);
    assert_eq!(once, "//! Title\nfn main() {}\n");
    let twice = merge_contents(md, &once);
    assert_eq!(once, twice);
}
