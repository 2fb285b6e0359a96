use vat::backlog_file::parse_frontmatter as parse;

#[test]
fn detects_frontmatter_when_file_begins_with_delimiter() {
    let input = "---\nversion: 1\n---\nbody\n";
    let r = parse(input);
    assert!(r.frontmatter.present());
    assert_eq!(r.body, "body\n");
}

#[test]
fn no_frontmatter_when_file_does_not_begin_with_delimiter() {
    let input = "hello\n---\nversion: 1\n---\n";
    let r = parse(input);
    assert!(!r.frontmatter.present());
    assert_eq!(r.body, input);
}

#[test]
fn unclosed_frontmatter_is_treated_as_no_frontmatter() {
    let input = "---\nversion: 1\nno closing delimiter\n";
    let r = parse(input);
    assert!(!r.frontmatter.present());
    assert_eq!(r.body, input);
}

#[test]
fn empty_frontmatter_is_recognized() {
    let input = "---\n---\nbody\n";
    let r = parse(input);
    assert!(r.frontmatter.present());
    assert_eq!(r.body, "body\n");
}

#[test]
fn delimiter_with_trailing_whitespace_is_not_recognized() {
    let input = "--- \nversion: 1\n---\n";
    let r = parse(input);
    assert!(!r.frontmatter.present());
    assert_eq!(r.body, input);
}

#[test]
fn line_starting_with_three_dashes_but_not_solely_is_not_a_closing_delimiter() {
    let input = "---\nversion: 1\n---foo\n---\nbody\n";
    let r = parse(input);
    assert!(r.frontmatter.present());
    assert_eq!(r.body, "body\n");
}

#[test]
fn closing_delimiter_without_trailing_newline_is_not_recognized() {
    let input = "---\nversion: 1\n---";
    let r = parse(input);
    assert!(!r.frontmatter.present());
    assert_eq!(r.body, input);
}

#[test]
fn empty_frontmatter_without_trailing_newline_is_not_recognized() {
    let input = "---\n---";
    let r = parse(input);
    assert!(!r.frontmatter.present());
    assert_eq!(r.body, input);
}

#[test]
fn opening_delimiter_alone_at_eof_is_no_frontmatter() {
    let input = "---\n";
    let r = parse(input);
    assert!(!r.frontmatter.present());
    assert_eq!(r.body, input);
}

#[test]
fn line_scan_wins_over_yaml_quoted_multiline() {
    // The double-quoted YAML scalar would semantically span three lines,
    // but the parser's line-based scan terminates frontmatter at the first
    // unindented `---` regardless.
    let input = "---\nweird: \"line1\n---\nline3\"\n---\nbody\n";
    let r = parse(input);
    assert!(r.frontmatter.present());
    assert_eq!(r.body, "line3\"\n---\nbody\n");
    let recombined = format!("{}{}", r.frontmatter.serialize(), r.body);
    assert_eq!(recombined, input);
}

#[test]
fn missing_version_key_defaults_to_1() {
    let input = "---\nother: foo\n---\n";
    let r = parse(input);
    assert_eq!(r.frontmatter.version(), 1);
}

#[test]
fn absent_frontmatter_defaults_to_version_1() {
    let input = "just body\n";
    let r = parse(input);
    assert_eq!(r.frontmatter.version(), 1);
}

#[test]
fn empty_frontmatter_defaults_to_version_1() {
    let input = "---\n---\nbody\n";
    let r = parse(input);
    assert_eq!(r.frontmatter.version(), 1);
}

#[test]
fn non_integer_version_value_defaults_to_1() {
    let input = "---\nversion: \"two\"\n---\n";
    let r = parse(input);
    assert_eq!(r.frontmatter.version(), 1);
}

#[test]
fn version_key_is_exposed_as_u64() {
    let input = "---\nversion: 2\n---\n";
    let r = parse(input);
    assert_eq!(r.frontmatter.version(), 2);
}

#[test]
fn serialize_preserves_unknown_keys_verbatim() {
    let input = "---\nversion: 1\ncustom: hello\nother: value\n---\nbody\n";
    let r = parse(input);
    assert_eq!(
        r.frontmatter.serialize(),
        "---\nversion: 1\ncustom: hello\nother: value\n---\n"
    );
}

#[test]
fn round_trip_preserves_comments_and_blank_lines() {
    let input = "---\n# leading comment\nversion: 1\n\nbar: 42\n---\nbody\n";
    let r = parse(input);
    let recombined = format!("{}{}", r.frontmatter.serialize(), r.body);
    assert_eq!(recombined, input);
}

#[test]
fn round_trip_preserves_nested_yaml_verbatim() {
    let input = "---\nnested:\n  key: value\n  list:\n    - one\n    - two\n---\nbody\n";
    let r = parse(input);
    let recombined = format!("{}{}", r.frontmatter.serialize(), r.body);
    assert_eq!(recombined, input);
}

#[test]
fn round_trip_preserves_multibyte_unicode_in_keys_and_values() {
    let input = "---\nкл: значение\nemoji: \u{1F31F}\n---\nbody\n";
    let r = parse(input);
    assert!(r.frontmatter.present());
    let recombined = format!("{}{}", r.frontmatter.serialize(), r.body);
    assert_eq!(recombined, input);
}

#[test]
fn serialize_when_absent_returns_empty_string() {
    let input = "no frontmatter here\n";
    let r = parse(input);
    assert_eq!(r.frontmatter.serialize(), "");
}

#[test]
fn malformed_yaml_still_round_trips_with_default_version() {
    let input = "---\nkey: value\n  bad: indent under scalar\n---\nbody\n";
    let r = parse(input);
    assert_eq!(r.frontmatter.version(), 1);
    let recombined = format!("{}{}", r.frontmatter.serialize(), r.body);
    assert_eq!(recombined, input);
}

#[test]
fn non_mapping_yaml_round_trips_with_default_version() {
    let input = "---\n- list\n- items\n---\nbody\n";
    let r = parse(input);
    assert_eq!(r.frontmatter.version(), 1);
    let recombined = format!("{}{}", r.frontmatter.serialize(), r.body);
    assert_eq!(recombined, input);
}

#[test]
fn empty_input_is_no_frontmatter() {
    let input = "";
    let r = parse(input);
    assert!(!r.frontmatter.present());
    assert_eq!(r.body, "");
}
