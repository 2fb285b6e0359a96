use vat::item_file::{append_item_contents, new_item_contents, read, strip_notes};


// -------------------- strip_notes / SYNC-NOTES-004 --------------------

#[test]
fn strip_notes_empty_input_is_empty() {
    assert_eq!(strip_notes(""), "");
}

#[test]
fn strip_notes_only_blank_lines_is_empty() {
    assert_eq!(strip_notes("\n\n   \n\t\n"), "");
}

#[test]
fn strip_notes_single_line_no_indent_unchanged() {
    assert_eq!(strip_notes("foo"), "foo");
}

#[test]
fn strip_notes_strips_common_space_indent() {
    assert_eq!(strip_notes("  foo\n  bar"), "foo\nbar");
}

#[test]
fn strip_notes_strips_common_tab_indent() {
    assert_eq!(strip_notes("\tfoo\n\tbar"), "foo\nbar");
}

#[test]
fn strip_notes_uses_byte_prefix_for_mixed_ws() {
    // first leading ws = "\t  ", second = "\t ", common byte prefix = "\t "
    assert_eq!(strip_notes("\t  foo\n\t bar"), " foo\nbar");
}

#[test]
fn strip_notes_no_common_prefix_means_no_strip() {
    // tab-led vs space-led share no leading-ws prefix
    assert_eq!(strip_notes("\tfoo\n bar"), "\tfoo\n bar");
}

#[test]
fn strip_notes_trims_leading_blank_lines() {
    assert_eq!(strip_notes("\n\n  foo\n  bar"), "foo\nbar");
}

#[test]
fn strip_notes_trims_trailing_blank_lines() {
    assert_eq!(strip_notes("  foo\n  bar\n\n  \n"), "foo\nbar");
}

#[test]
fn strip_notes_preserves_interior_blank_lines_as_empty() {
    assert_eq!(strip_notes("  foo\n\n  bar"), "foo\n\nbar");
}

#[test]
fn strip_notes_interior_blank_does_not_force_zero_indent() {
    // The interior blank line (zero-indent) must not pull the common prefix to "".
    assert_eq!(strip_notes("  foo\n\n  bar\n  baz"), "foo\n\nbar\nbaz");
}

#[test]
fn strip_notes_is_idempotent() {
    let once = strip_notes("  foo\n  bar");
    let twice = strip_notes(&once);
    assert_eq!(once, twice);
}

#[test]
fn strip_notes_normalizes_crlf() {
    // CRLF input must not leave stray `\r` bytes on the kept lines.
    let out = strip_notes("  foo\r\n  bar\r\n");
    assert_eq!(out, "foo\nbar");
    assert!(!out.contains('\r'));
}

#[test]
fn strip_notes_normalizes_bare_cr() {
    // Old-Mac bare-CR line endings must also be normalized (FMT-WS-001),
    // otherwise the dedent and join would carry a stray `\r` into the file.
    let out = strip_notes("  foo\r  bar\r");
    assert_eq!(out, "foo\nbar");
    assert!(!out.contains('\r'));
}

// -------------------- read / FMT-ITEM-003 + FMT-WS-001 --------------------

#[test]
fn read_exposes_filename_stem_as_id() {
    let contents = new_item_contents("foo-7k2", "body");
    let f = read("foo-7k2", &contents).unwrap();
    assert_eq!(f.id(), "foo-7k2");
}

#[test]
fn appended_item_reads_back_with_old_body_blank_line_and_new_notes() {
    let existing = "---\nid: abc-def\n---\n\nold\n\n\n";
    let t = append_item_contents(existing, "  new\n").unwrap();
    let f = read("abc-def", &t).unwrap();
    assert_eq!(f.body(), "\nold\n\nnew\n");
    assert!(t.starts_with("---\nid: abc-def\n---\n"));
}

#[test]
fn new_item_reads_back_with_its_notes() {
    let t = new_item_contents("abc-def", "\n    x\n      y\n");
    let f = read("abc-def", &t).unwrap();
    assert_eq!(f.id(), "abc-def");
    assert_eq!(f.body(), "\nx\n  y\n");
}

#[test]
fn stripped_notes_have_no_carriage_return_and_non_blank_ends() {
    let s = strip_notes("\r\n  \r\n    a\r\n\r\n      b  \r\n\r\n");
    assert_eq!(s, "a\n\n  b  ");
    assert!(!s.contains('\r'));
    assert_eq!(strip_notes(" \r\n\t\n"), "");
}
