use vat::bullet::{Bullet, BulletError};

fn b(
    id: Option<&str>,
    in_progress: bool,
    by: Option<&str>,
    blocked_by: Option<&str>,
    title: &str,
) -> Bullet {
    Bullet {
        id: id.map(str::to_string),
        in_progress,
        by: by.map(str::to_string),
        blocked_by: blocked_by.map(str::to_string),
        title: title.to_string(),
    }
}

// ===================================================================
// FMT-MARK-001 — id marker
// ===================================================================

#[test]
fn parse_extracts_valid_id_marker() {
    let bullet = Bullet::parse("- [vat-g5y] My task\n").unwrap();
    assert_eq!(bullet.id, Some("vat-g5y".to_string()));
    assert_eq!(bullet.title, "My task");
}

#[test]
fn parse_id_marker_normalizes_to_lowercase() {
    let bullet = Bullet::parse("- [VAT-G5Y] My task\n").unwrap();
    assert_eq!(bullet.id, Some("vat-g5y".to_string()));
}

#[test]
fn parse_id_wrong_length_not_recognized() {
    // "abcde-fg" — prefix is 5 chars, not 3
    let bullet = Bullet::parse("- [abcde-fg] title\n").unwrap();
    assert_eq!(bullet.id, None);
    assert_eq!(bullet.title, "[abcde-fg] title");
}

#[test]
fn parse_id_with_ambiguous_base32_chars_not_recognized() {
    // 'o' and 'i' are excluded from Crockford base32
    let bullet = Bullet::parse("- [oii-abc] title\n").unwrap();
    assert_eq!(bullet.id, None);
    assert_eq!(bullet.title, "[oii-abc] title");
}

#[test]
fn parse_id_without_dash_separator_not_recognized() {
    let bullet = Bullet::parse("- [vatg5yy] title\n").unwrap();
    assert_eq!(bullet.id, None);
    assert_eq!(bullet.title, "[vatg5yy] title");
}

// ===================================================================
// FMT-MARK-002 — [by:<name>]
// ===================================================================

#[test]
fn parse_extracts_by_marker() {
    let bullet = Bullet::parse("- [by:jared] My task\n").unwrap();
    assert_eq!(bullet.by, Some("jared".to_string()));
    assert_eq!(bullet.title, "My task");
}

#[test]
fn parse_by_accepts_alphanumeric_dot_underscore_hyphen() {
    let bullet = Bullet::parse("- [by:john.doe_2-dev] title\n").unwrap();
    assert_eq!(bullet.by, Some("john.doe_2-dev".to_string()));
}

#[test]
fn parse_by_with_space_in_name_not_recognized() {
    let bullet = Bullet::parse("- [by:hello world] title\n").unwrap();
    assert_eq!(bullet.by, None);
    assert_eq!(bullet.title, "[by:hello world] title");
}

#[test]
fn parse_by_with_empty_name_not_recognized() {
    let bullet = Bullet::parse("- [by:] title\n").unwrap();
    assert_eq!(bullet.by, None);
    assert_eq!(bullet.title, "[by:] title");
}

// ===================================================================
// FMT-MARK-003 — [blocked-by:<id>]
// ===================================================================

#[test]
fn parse_extracts_blocked_by_marker() {
    let bullet = Bullet::parse("- [blocked-by:vat-f1w] title\n").unwrap();
    assert_eq!(bullet.blocked_by, Some("vat-f1w".to_string()));
}

#[test]
fn parse_blocked_by_normalizes_id_to_lowercase() {
    let bullet = Bullet::parse("- [blocked-by:VAT-F1W] title\n").unwrap();
    assert_eq!(bullet.blocked_by, Some("vat-f1w".to_string()));
}

#[test]
fn parse_blocked_by_with_invalid_id_not_recognized() {
    // "invalid-id" — prefix is 7 chars, not 3
    let bullet = Bullet::parse("- [blocked-by:invalid-id] title\n").unwrap();
    assert_eq!(bullet.blocked_by, None);
    assert_eq!(bullet.title, "[blocked-by:invalid-id] title");
}

// ===================================================================
// FMT-MARK-004 — canonical serialization order
// ===================================================================

#[test]
fn serialize_emits_markers_in_canonical_order() {
    let bullet = b(
        Some("vat-g5y"),
        true,
        Some("jared"),
        Some("vat-f1w"),
        "My task",
    );
    assert_eq!(
        bullet.serialize(),
        "- [vat-g5y] [in-progress] [by:jared] [blocked-by:vat-f1w] My task\n"
    );
}

#[test]
fn parse_out_of_order_markers_serialize_normalizes_to_canonical_order() {
    // Input has in-progress before id
    let bullet = Bullet::parse("- [in-progress] [vat-g5y] My task\n").unwrap();
    assert_eq!(bullet.in_progress, true);
    assert_eq!(bullet.id, Some("vat-g5y".to_string()));
    assert_eq!(
        bullet.serialize(),
        "- [vat-g5y] [in-progress] My task\n"
    );
}

#[test]
fn serialize_omits_absent_markers() {
    let bullet = b(Some("vat-g5y"), false, None, None, "title");
    assert_eq!(bullet.serialize(), "- [vat-g5y] title\n");
}

// ===================================================================
// FMT-MARK-005 — single space between markers
// ===================================================================

#[test]
fn serialize_single_space_between_adjacent_markers() {
    let bullet = b(Some("vat-g5y"), true, None, None, "title");
    let s = bullet.serialize();
    assert_eq!(s, "- [vat-g5y] [in-progress] title\n");
    assert!(
        s.contains("] ["),
        "should have exactly one space between adjacent markers"
    );
    assert!(!s.contains("]  ["), "must not have double space between markers");
}

#[test]
fn parse_double_spaces_between_markers_normalized_on_serialize() {
    let bullet = Bullet::parse("- [vat-g5y]  [in-progress]  title\n").unwrap();
    assert_eq!(bullet.serialize(), "- [vat-g5y] [in-progress] title\n");
}

// ===================================================================
// FMT-MARK-006 — unknown [...] → title
// ===================================================================

#[test]
fn parse_unknown_marker_at_front_becomes_title() {
    let bullet = Bullet::parse("- [agent-ready] some task\n").unwrap();
    assert_eq!(bullet.id, None);
    assert_eq!(bullet.title, "[agent-ready] some task");
}

#[test]
fn parse_unknown_marker_after_known_stops_and_becomes_title() {
    let bullet = Bullet::parse("- [vat-g5y] [unknown] task title\n").unwrap();
    assert_eq!(bullet.id, Some("vat-g5y".to_string()));
    assert_eq!(bullet.title, "[unknown] task title");
}

#[test]
fn parse_todo_marker_is_not_known() {
    // [TODO] — 4-char inner, not a valid id format, not a known literal
    let bullet = Bullet::parse("- [TODO] do something\n").unwrap();
    assert_eq!(bullet.id, None);
    assert_eq!(bullet.title, "[TODO] do something");
}

// ===================================================================
// FMT-MARK-007 — only first [blocked-by:...] preserved
// ===================================================================

#[test]
fn parse_multiple_blocked_by_keeps_only_first() {
    let bullet =
        Bullet::parse("- [vat-g5y] [blocked-by:vat-f1w] [blocked-by:vat-h8x] title\n")
            .unwrap();
    assert_eq!(bullet.blocked_by, Some("vat-f1w".to_string()));
}

#[test]
fn parse_multiple_blocked_by_continues_parsing_past_second() {
    // After the second [blocked-by:...] there is still title text; make
    // sure the parser doesn't stop at the second occurrence.
    let bullet =
        Bullet::parse("- [blocked-by:vat-f1w] [blocked-by:vat-h8x] My task\n").unwrap();
    assert_eq!(bullet.blocked_by, Some("vat-f1w".to_string()));
    assert_eq!(bullet.title, "My task");
}

// ===================================================================
// FMT-PARSE-006 — empty title
// ===================================================================

#[test]
fn parse_bullet_with_no_title_returns_empty_title_error() {
    assert_eq!(
        Bullet::parse("- [vat-g5y]\n"),
        Err(BulletError::EmptyTitle)
    );
}

#[test]
fn parse_bullet_with_whitespace_only_title_returns_empty_title_error() {
    assert_eq!(
        Bullet::parse("- [vat-g5y]   \n"),
        Err(BulletError::EmptyTitle)
    );
}

#[test]
fn parse_bare_bullet_no_markers_no_title_returns_empty_title_error() {
    assert_eq!(Bullet::parse("- \n"), Err(BulletError::EmptyTitle));
}

#[test]
fn parse_empty_body_after_prefix_returns_empty_title_error() {
    assert_eq!(Bullet::parse("- "), Err(BulletError::EmptyTitle));
}

// ===================================================================
// FMT-WS-002 — trailing whitespace stripped on serialize
// ===================================================================

#[test]
fn serialize_strips_trailing_whitespace_from_title() {
    let bullet = Bullet {
        id: None,
        in_progress: false,
        by: None,
        blocked_by: None,
        title: "My task   ".to_string(),
    };
    assert_eq!(bullet.serialize(), "- My task\n");
}

#[test]
fn serialize_strips_trailing_whitespace_when_markers_present() {
    let bullet = b(Some("vat-g5y"), false, None, None, "title  ");
    assert_eq!(bullet.serialize(), "- [vat-g5y] title\n");
}

// ===================================================================
// Round-trip: tokenize → serialize on canonical-form bullets
// ===================================================================

#[test]
fn round_trip_full_canonical_bullet() {
    let line =
        "- [vat-g5y] [in-progress] [by:jared] [blocked-by:vat-f1w] My task\n";
    let bullet = Bullet::parse(line).unwrap();
    assert_eq!(bullet.serialize(), line);
}

#[test]
fn round_trip_id_only() {
    let line = "- [vat-g5y] My task\n";
    assert_eq!(Bullet::parse(line).unwrap().serialize(), line);
}

#[test]
fn round_trip_no_markers() {
    let line = "- My plain task\n";
    assert_eq!(Bullet::parse(line).unwrap().serialize(), line);
}

#[test]
fn round_trip_real_backlog_bullet_with_unknown_marker() {
    // [agent-ready] is unknown to VAT and becomes part of the title.
    let line =
        "- [vat-g5y] [agent-ready] Bullet line tokenizer (markers + title)\n";
    let bullet = Bullet::parse(line).unwrap();
    assert_eq!(bullet.id, Some("vat-g5y".to_string()));
    assert_eq!(
        bullet.title,
        "[agent-ready] Bullet line tokenizer (markers + title)"
    );
    assert_eq!(bullet.serialize(), line);
}

#[test]
fn round_trip_id_and_by_only() {
    let line = "- [vat-g5y] [by:alice] Do the thing\n";
    assert_eq!(Bullet::parse(line).unwrap().serialize(), line);
}

#[test]
fn round_trip_blocked_only() {
    let line = "- [blocked-by:vat-f1w] Waiting task\n";
    assert_eq!(Bullet::parse(line).unwrap().serialize(), line);
}

// ===================================================================
// Misc
// ===================================================================

#[test]
fn parse_without_bullet_prefix_uses_full_line_as_body() {
    let bullet = Bullet::parse("[vat-g5y] My task\n").unwrap();
    assert_eq!(bullet.id, Some("vat-g5y".to_string()));
    assert_eq!(bullet.title, "My task");
}

#[test]
fn parse_title_only_no_markers() {
    let bullet = Bullet::parse("- My task without any markers\n").unwrap();
    assert_eq!(bullet.id, None);
    assert_eq!(bullet.in_progress, false);
    assert_eq!(bullet.by, None);
    assert_eq!(bullet.blocked_by, None);
    assert_eq!(bullet.title, "My task without any markers");
}

#[test]
fn parse_in_progress_alone() {
    let bullet = Bullet::parse("- [in-progress] A task\n").unwrap();
    assert_eq!(bullet.id, None);
    assert_eq!(bullet.in_progress, true);
    assert_eq!(bullet.title, "A task");
}

#[test]
fn parse_all_markers_in_canonical_order() {
    let line =
        "- [vat-g5y] [in-progress] [by:alice] [blocked-by:vat-f1w] Do the thing\n";
    let bullet = Bullet::parse(line).unwrap();
    assert_eq!(bullet.id, Some("vat-g5y".to_string()));
    assert_eq!(bullet.in_progress, true);
    assert_eq!(bullet.by, Some("alice".to_string()));
    assert_eq!(bullet.blocked_by, Some("vat-f1w".to_string()));
    assert_eq!(bullet.title, "Do the thing");
}

#[test]
fn serialize_title_only() {
    let bullet = b(None, false, None, None, "some task");
    assert_eq!(bullet.serialize(), "- some task\n");
}

#[test]
fn whitespace_before_the_title_is_not_title_text() {
    let b = Bullet::parse("- [vat-t1h]  [in-progress]\t Title\n").unwrap();
    assert_eq!(b.id, Some("vat-t1h".to_string()));
    assert!(b.in_progress);
    assert_eq!(b.title, "Title");
    assert_eq!(b.serialize(), "- [vat-t1h] [in-progress] Title\n");
}
