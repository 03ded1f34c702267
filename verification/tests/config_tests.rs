use modoc::parse_array;
use modoc::parse_config;
use modoc::parse_line;
use modoc::parse_string;
use modoc::ParseError;

#[test]
fn parse_string_test() {
    assert_eq!(parse_string("   \"hello\"   ").unwrap(), "hello");
}

#[test]
fn parse_array_test() {
    assert_eq!(
        parse_array("   [ \"testings\"   ,  \" asdf \"     ]   ").unwrap(),
        [" \"testings\"   ", "  \" asdf \"     "]
    );
}

#[test]
fn parse_line_test() {
    assert_eq!(
        parse_line("\"test.md\" = [ \"one.rs\", \"two.rs\" ] ").unwrap(),
        ("test.md", vec!["one.rs", "two.rs"])
    );
}

#[test]
fn well_formed_line_with_whitespace() {
    assert_eq!(
        parse_line("  \"a b.md\"\t=  [ \"src/x.rs\" ,\t\"src/y.rs\" ]  ").unwrap(),
        ("a b.md", vec!["src/x.rs", "src/y.rs"])
    );
}

#[test]
fn line_with_zero_equals_fails() {
    assert_eq!(parse_line("\"test.md\""), Err(ParseError::MissingRhs));
}

#[test]
fn line_with_two_equals_fails() {
    assert_eq!(
        parse_line("\"test.md\" = [ \"one.rs\" ] = "),
        Err(ParseError::MissingRhs)
    );
}

#[test]
fn string_without_leading_quote_fails() {
    assert_eq!(parse_string("hello\""), Err(ParseError::ExpectedQuotes));
}

#[test]
fn string_without_trailing_quote_fails() {
    assert_eq!(parse_string("\"hello"), Err(ParseError::ExpectedQuotes));
}

#[test]
fn degenerate_one_quote_string_fails() {
    assert_eq!(parse_string("\""), Err(ParseError::ExpectedQuotes));
    assert_eq!(parse_string("   "), Err(ParseError::ExpectedQuotes));
    assert_eq!(parse_string(""), Err(ParseError::ExpectedQuotes));
}

#[test]
fn empty_quoted_string_is_accepted() {
    assert_eq!(parse_string("\"\""), Ok(""));
}

#[test]
fn array_without_leading_bracket_fails() {
    assert_eq!(parse_array(" \"a.rs\" ]"), Err(ParseError::ExpectedBrackets));
}

#[test]
fn array_without_trailing_bracket_fails() {
    assert_eq!(parse_array("[ \"a.rs\" "), Err(ParseError::ExpectedBrackets));
    assert_eq!(parse_array(""), Err(ParseError::ExpectedBrackets));
}

#[test]
fn empty_brackets_hold_one_empty_segment() {
    assert_eq!(parse_array("[]").unwrap(), [""]);
}

#[test]
fn line_with_unquoted_left_side_fails() {
    assert_eq!(
        parse_line("test.md = [ \"one.rs\" ]"),
        Err(ParseError::ExpectedQuotes)
    );
}

#[test]
fn line_with_unbracketed_right_side_fails() {
    assert_eq!(
        parse_line("\"test.md\" = \"one.rs\""),
        Err(ParseError::ExpectedBrackets)
    );
}

#[test]
fn line_with_unquoted_array_element_fails() {
    assert_eq!(
        parse_line("\"test.md\" = [ one.rs ]"),
        Err(ParseError::ExpectedQuotes)
    );
}

#[test]
fn config_with_blank_lines() {
    let text = "\n\"a.md\" = [ \"x.rs\" ]\n\n\"b.md\" = [ \"y.rs\", \"z.rs\" ]\n";
    let entries = parse_config(text).unwrap();
    assert_eq!(entries.len(), 2);
    assert_eq!(entries[0].0, "a.md");
    assert_eq!(entries[0].1, vec!["x.rs"]);
    assert_eq!(entries[1].0, "b.md");
    assert_eq!(entries[1].1, vec!["y.rs", "z.rs"]);
}

#[test]
fn empty_config_has_no_entries() {
    assert_eq!(parse_config("").unwrap().len(), 0);
    assert_eq!(parse_config("\n\n").unwrap().len(), 0);
}

#[test]
fn config_stops_at_first_bad_line() {
    let text = "\"a.md\" = [ \"x.rs\" ]\nbad line\n";
    assert_eq!(parse_config(text), Err(ParseError::MissingRhs));
}

#[test]
fn same_target_may_appear_twice() {
    let text = "\"a.md\" = [ \"x.rs\" ]\n\"b.md\" = [ \"x.rs\" ]\n";
    let entries = parse_config(text).unwrap();
    assert_eq!(entries.len(), 2);
    assert_eq!(entries[0].1, entries[1].1);
}

#[test]
fn error_messages() {
    assert_eq!(ParseError::MissingRhs.message(), "missing right-hand side");
    assert_eq!(ParseError::ExpectedQuotes.message(), "expecting string in quotes");
    assert_eq!(ParseError::ExpectedBrackets.message(), "expecting brackets");
}

#[test]
fn unicode_whitespace_around_tokens_is_ignored() {
    assert_eq!(parse_string("\u{b}\"A\""), Ok("A"));
    assert_eq!(parse_string("\u{a0}\"A\"\u{2003}"), Ok("A"));
    assert_eq!(parse_array("\u{b}[\"x\"]").unwrap(), ["\"x\""]);
    assert_eq!(parse_line("\u{b}\"a\"=[\"b\"]").unwrap(), ("a", vec!["b"]));
}

#[test]
fn config_with_crlf_line_endings() {
    let text = "\"a.md\" = [ \"x.rs\" ]\r\n\r\n\"b.md\" = [ \"y.rs\" ]\r\n";
    let entries = parse_config(text).unwrap();
    assert_eq!(entries.len(), 2);
    assert_eq!(entries[0].0, "a.md");
    assert_eq!(entries[0].1, vec!["x.rs"]);
    assert_eq!(entries[1].0, "b.md");
    assert_eq!(entries[1].1, vec!["y.rs"]);
}
