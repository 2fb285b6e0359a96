use rand::rngs::StdRng;
use rand::SeedableRng;
use vat::sync::{render_sync, sync_plan, SyncError, SyncPlan};

fn plan(input: &str, used_ids: &str, existing: &[&str]) -> SyncPlan {
    let existing: Vec<String> = existing.iter().map(|s| s.to_string()).collect();
    let mut rng = StdRng::from_seed([0u8; 32]);
    sync_plan(input, used_ids, "vat", &existing, &mut rng).unwrap()
}

fn plan_err(input: &str, used_ids: &str) -> SyncError {
    let mut rng = StdRng::from_seed([0u8; 32]);
    sync_plan(input, used_ids, "vat", &Vec::new(), &mut rng).unwrap_err()
}

#[test]
fn run_warns_when_a_second_blocked_by_is_dropped() {
    let p = plan(
        "- [vat-t1h] [blocked-by:vat-f1w] [blocked-by:vat-h8x] Finish auth\n",
        "",
        &[],
    );
    assert!(p.changed);
    assert_eq!(p.output, "- [vat-t1h] [blocked-by:vat-f1w] Finish auth\n");
    assert_eq!(p.warnings.len(), 1, "exactly one warning: {:?}", p.warnings);
    assert_eq!(
        p.warnings[0],
        r#"warning: bullet #1 drops extra [blocked-by:vat-h8x] (only the first [blocked-by:] is kept): "- [vat-t1h] [blocked-by:vat-f1w] [blocked-by:vat-h8x] Finish auth""#
    );
}

#[test]
fn run_warns_once_per_dropped_blocker() {
    let p = plan(
        "- [vat-t1h] [blocked-by:vat-f1w] [blocked-by:vat-h8x] [blocked-by:vat-k2m] Title\n",
        "",
        &[],
    );
    assert_eq!(p.output, "- [vat-t1h] [blocked-by:vat-f1w] Title\n");
    assert_eq!(p.warnings.len(), 2, "one warning per dropped blocker: {:?}", p.warnings);
    assert!(p.warnings[0].contains("[blocked-by:vat-h8x]"));
    assert!(p.warnings[1].contains("[blocked-by:vat-k2m]"));
}

#[test]
fn run_warns_and_preserves_marker_only_bullet() {
    let content = "- [vat-t1h] First\n- [vat-g5y]\n";
    let p = plan(content, "", &[]);
    assert!(!p.changed, "nothing else to change");
    assert_eq!(p.output, content, "line preserved verbatim");
    assert_eq!(p.warnings.len(), 1, "exactly one warning: {:?}", p.warnings);
    assert_eq!(
        p.warnings[0],
        r#"warning: bullet #2 has no title, skipping: "- [vat-g5y]""#
    );
}

#[test]
fn run_skips_title_less_bullet_for_id_assignment() {
    let p = plan("- \n", "", &[]);
    assert_eq!(p.output, "- \n");
    assert!(p.new_ids.is_empty(), "no id assigned");
    assert_eq!(p.warnings.len(), 1, "warned: {:?}", p.warnings);
}

#[test]
fn run_errors_when_backlog_version_too_high() {
    let err = plan_err("---\nversion: 99\n---\n- [vat-t1h] Title\n", "");
    assert!(matches!(err, SyncError::Version(_)), "expected Version error, got {err:?}");
    assert!(err.message().contains("please upgrade vat"));
}

#[test]
fn run_errors_on_malformed_used_ids() {
    let err = plan_err("- Title\n", "vat-abc\nnot an id\n");
    assert!(matches!(err, SyncError::Tombstone(_)), "got {err:?}");
    assert_eq!(err.message(), "malformed line 2 in .used-ids: \"not an id\"");
}

#[test]
fn run_errors_on_duplicate_ids() {
    let err = plan_err("- [vat-abc] One\n- [vat-abc] Two\n", "");
    assert_eq!(err.message(), "duplicate id in parsed region: vat-abc");
}

#[test]
fn no_backlog_message_points_at_init() {
    assert_eq!(
        SyncError::NoBacklog.message(),
        "backlog/backlog.md not found; run `vat init`"
    );
}

#[test]
fn run_removes_note_lines_and_queues_item_file() {
    let p = plan("- [vat-t1h] Title\n  note line\n", "", &[]);
    assert_eq!(p.output, "- [vat-t1h] Title (see ./items/vat-t1h.md)\n");
    assert_eq!(p.pending.len(), 1);
    assert_eq!(p.pending[0].id, "vat-t1h");
    assert_eq!(p.pending[0].stripped, "note line");
}

#[test]
fn run_blank_notes_are_cleared_without_item_file() {
    let p = plan("- [vat-t1h] Title\n   \n\n", "", &[]);
    assert_eq!(p.output, "- [vat-t1h] Title\n");
    assert!(p.pending.is_empty());
}

#[test]
fn run_assigns_fresh_ids_avoiding_tombstones() {
    // The seeded generator draws "da2" first; it is tombstoned, so it is skipped.
    let p = plan("- New task\n", "vat-da2\n", &[]);
    assert_eq!(p.new_ids.len(), 1);
    assert_ne!(p.new_ids[0], "vat-da2");
    assert!(p.new_ids[0].starts_with("vat-"));
    assert_eq!(p.output, format!("- [{}] New task\n", p.new_ids[0]));
    assert_eq!(p.slots, vec![Some(p.new_ids[0].clone())]);
}

#[test]
fn run_warns_on_foreign_prefix_and_keeps_it() {
    let p = plan("- [bar-abc] Foreign\n", "", &[]);
    assert!(!p.changed);
    assert_eq!(
        p.warnings,
        vec![r#"warning: id "bar-abc" has prefix "bar", expected "vat"; leaving unchanged"#.to_string()]
    );
}

#[test]
fn run_malformed_bullet_keeps_its_notes() {
    let content = "- [vat-g5y]\n  keep me\n";
    let p = plan(content, "", &[]);
    assert_eq!(p.output, content);
    assert!(p.pending.is_empty());
}

#[test]
fn second_sync_is_byte_identical() {
    let input = "---\nversion: 1\n---\n# Tasks\n\n- First\n  a note\n- [vat-t1h]   [by:bob] Second\n- \n---\nfree text\n";
    let first = plan(input, "", &[]);
    assert!(first.changed);
    let mut existing: Vec<&str> = Vec::new();
    for pw in &first.pending {
        existing.push(pw.id.as_str());
    }
    let second = plan(&first.output, "", &existing);
    assert!(!second.changed);
    assert_eq!(second.output, first.output);
    assert!(second.new_ids.is_empty());
    assert!(second.pending.is_empty());
}

#[test]
fn render_sync_uses_the_given_ids() {
    let (out, pending) = render_sync(
        "- One\n- [vat-abc] Two\n",
        &vec![Some("vat-xyz".to_string()), Some("vat-abc".to_string())],
        &Vec::new(),
    );
    assert_eq!(out, "- [vat-xyz] One\n- [vat-abc] Two\n");
    assert!(pending.is_empty());
}

#[test]
fn run_respaces_markers_to_single_spaces() {
    let p = plan("- [vat-t1h]  [in-progress]\t Title\n", "", &[]);
    assert_eq!(p.output, "- [vat-t1h] [in-progress] Title\n");
}

#[test]
fn second_plan_over_assigned_ids_succeeds_and_changes_nothing() {
    let first = plan("- Task A\n- Task B\n    some notes\n", "", &[]);
    assert_eq!(first.new_ids.len(), 2);
    let mut used = String::new();
    for id in &first.new_ids {
        used.push_str(id);
        used.push('\n');
    }
    let existing: Vec<&str> = first.pending.iter().map(|w| w.id.as_str()).collect();
    let second = plan(&first.output, &used, &existing);
    assert!(!second.changed);
    assert_eq!(second.output, first.output);
    assert!(second.pending.is_empty());
    assert!(second.new_ids.is_empty());
}
