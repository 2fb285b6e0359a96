use vat::line_endings::normalize_line_endings;

#[test]
fn normalizes_crlf_to_lf() {
    assert_eq!(normalize_line_endings("a\r\nb\r\nc"), "a\nb\nc");
}

#[test]
fn normalizes_bare_cr_to_lf() {
    assert_eq!(normalize_line_endings("a\rb\rc"), "a\nb\nc");
}

#[test]
fn normalizes_trailing_lone_cr() {
    assert_eq!(normalize_line_endings("a\nb\r"), "a\nb\n");
}

#[test]
fn normalizes_mixed_crlf_lf_and_bare_cr() {
    assert_eq!(normalize_line_endings("a\r\nb\nc\rd\r\n"), "a\nb\nc\nd\n");
}

#[test]
fn passes_lf_only_input_through_unchanged() {
    let input = "a\nb\nc\n";
    assert_eq!(normalize_line_endings(input), input);
}

#[test]
fn empty_input_is_empty_output() {
    assert_eq!(normalize_line_endings(""), "");
}

#[test]
fn preserves_multibyte_unicode_around_line_endings() {
    assert_eq!(normalize_line_endings("héllo\r\nwörld\r"), "héllo\nwörld\n");
}

#[test]
fn collapses_consecutive_crlf() {
    assert_eq!(normalize_line_endings("\r\n\r\n"), "\n\n");
}

#[test]
fn collapses_consecutive_bare_cr() {
    assert_eq!(normalize_line_endings("\r\r\r"), "\n\n\n");
}
