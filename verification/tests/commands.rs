use vat::backlog_file::ParsedRegion;
use vat::commands::{
    block, block_ids, done, find_entry_index, start, tombstone_after_done, unblock, CommandError,
    EntryLookup,
};

const HEADER: &str = "---\nversion: 1\n---\n\n";

fn two_tasks() -> String {
    format!("{HEADER}- [vat-g5y] First\n- [vat-f1w] Second\n")
}

// ---------------------------------------------------------------- lookup

#[test]
fn lookup_finds_bullet_by_lowercase_id() {
    let region = ParsedRegion::parse("intro\n- [vat-aaa] A\n- [VAT-BBB] B\n");
    match find_entry_index(&region, "vat-bbb") {
        EntryLookup::Found(i, b) => {
            assert_eq!(i, 1);
            assert_eq!(b.title, "B");
        }
        _ => panic!("expected Found"),
    }
    assert!(matches!(find_entry_index(&region, "vat-ccc"), EntryLookup::NotFound));
}

#[test]
fn lookup_reports_title_less_bullet_as_malformed() {
    let region = ParsedRegion::parse("- [vat-g5y]\n- [vat-f1w] Second\n");
    assert!(matches!(find_entry_index(&region, "vat-g5y"), EntryLookup::Malformed(_)));
}

// ---------------------------------------------------------------- start

#[test]
fn start_aborts_when_user_name_is_missing() {
    let err = start(&format!("{HEADER}- [vat-g5y] A task\n"), "vat-g5y", None).unwrap_err();
    assert!(err.message().contains("vat config set user.name"), "{}", err.message());
}

#[test]
fn start_aborts_on_unsupported_backlog_version() {
    let err = start("---\nversion: 2\n---\n- [vat-g5y] A task\n", "vat-g5y", Some("alice"))
        .unwrap_err();
    assert!(matches!(err, CommandError::Version(_)));
    assert!(err.message().contains("upgrade"));
}

#[test]
fn start_aborts_on_unknown_id() {
    let err = start(&format!("{HEADER}- [vat-g5y] A task\n"), "vat-x9z", Some("alice"))
        .unwrap_err();
    assert_eq!(err.message(), "unknown id: vat-x9z");
}

#[test]
fn start_aborts_when_in_progress_only() {
    let err = start(&format!("{HEADER}- [vat-g5y] [in-progress] A task\n"), "vat-g5y", Some("alice"))
        .unwrap_err();
    assert_eq!(err.message(), "vat-g5y already in progress");
}

#[test]
fn start_aborts_when_fully_claimed_and_names_claimer() {
    let err = start(
        &format!("{HEADER}- [vat-g5y] [in-progress] [by:bob] A task\n"),
        "vat-g5y",
        Some("alice"),
    )
    .unwrap_err();
    assert_eq!(err.message(), "vat-g5y already claimed by bob");
}

#[test]
fn start_adds_in_progress_and_by_in_canonical_order() {
    let (msg, out) = start(&format!("{HEADER}- [vat-g5y] A task\n"), "vat-g5y", Some("alice")).unwrap();
    assert_eq!(msg, "started vat-g5y");
    assert_eq!(out, format!("{HEADER}- [vat-g5y] [in-progress] [by:alice] A task\n"));
}

#[test]
fn start_accepts_id_in_uppercase() {
    let (msg, out) = start(&format!("{HEADER}- [vat-g5y] A task\n"), "VAT-G5Y", Some("alice")).unwrap();
    assert_eq!(msg, "started vat-g5y");
    assert!(out.contains("[in-progress] [by:alice]"), "{out}");
}

#[test]
fn start_preserves_notes_preamble_and_freeform() {
    let input = "---\nversion: 1\n---\n# Title\n\n- [vat-g5y] [blocked-by:vat-f1w] A task\n  note line\n- [vat-h8x]  Second\n---\nFreeform\n";
    let (_, out) = start(input, "vat-g5y", Some("alice")).unwrap();
    assert_eq!(
        out,
        "---\nversion: 1\n---\n# Title\n\n- [vat-g5y] [in-progress] [by:alice] [blocked-by:vat-f1w] A task\n  note line\n- [vat-h8x]  Second\n---\nFreeform\n"
    );
}

// ---------------------------------------------------------------- block

#[test]
fn block_self_block_guard_fires_before_file_read() {
    let err = block_ids("vat-zzz", "VAT-ZZZ").unwrap_err();
    assert_eq!(err.message(), "cannot block vat-zzz by itself");
}

#[test]
fn block_adds_marker_in_canonical_position() {
    let (msg, out) = block(&two_tasks(), "vat-g5y", "vat-f1w").unwrap();
    assert_eq!(msg, "blocked vat-g5y by vat-f1w");
    assert_eq!(
        out.unwrap(),
        format!("{HEADER}- [vat-g5y] [blocked-by:vat-f1w] First\n- [vat-f1w] Second\n")
    );
}

#[test]
fn block_same_blocker_is_noop_success() {
    let input = format!("{HEADER}- [vat-g5y]   [blocked-by:vat-f1w] First\n- [vat-f1w] Second\n");
    let (msg, out) = block(&input, "VAT-G5Y", "vat-F1W").unwrap();
    assert_eq!(msg, "blocked vat-g5y by vat-f1w");
    assert!(out.is_none());
}

#[test]
fn block_replaces_existing_different_blocker() {
    let input = format!("{HEADER}- [vat-g5y] [blocked-by:vat-h8x] First\n- [vat-f1w] Second\n- [vat-h8x] Third\n");
    let (_, out) = block(&input, "vat-g5y", "vat-f1w").unwrap();
    assert!(out.unwrap().contains("- [vat-g5y] [blocked-by:vat-f1w] First\n"));
}

#[test]
fn block_aborts_when_blocker_not_in_region() {
    let err = block(&format!("{HEADER}- [vat-g5y] First\n"), "vat-g5y", "vat-h8x").unwrap_err();
    assert_eq!(err.message(), "unknown blocker: vat-h8x");
}

#[test]
fn block_reports_parse_error_when_blocker_bullet_malformed() {
    let err = block(&format!("{HEADER}- [vat-g5y] First\n- [vat-f1w]\n"), "vat-g5y", "vat-f1w")
        .unwrap_err();
    assert_eq!(
        err.message(),
        "blocker vat-f1w found but its bullet could not be parsed: bullet has no title after markers"
    );
}

#[test]
fn block_reports_parse_error_when_target_bullet_malformed() {
    let err = block(&format!("{HEADER}- [vat-g5y]\n- [vat-f1w] Second\n"), "vat-g5y", "vat-f1w")
        .unwrap_err();
    assert!(err.message().contains("could not be parsed"));
    assert!(!err.message().contains("unknown id"));
}

// ---------------------------------------------------------------- unblock

#[test]
fn unblock_removes_marker() {
    let input = format!("{HEADER}- [vat-g5y] [in-progress] [by:alice] [blocked-by:vat-f1w] A task\n");
    let (msg, out) = unblock(&input, "vat-g5y").unwrap();
    assert_eq!(msg, "unblocked vat-g5y");
    assert_eq!(out.unwrap(), format!("{HEADER}- [vat-g5y] [in-progress] [by:alice] A task\n"));
}

#[test]
fn unblock_not_blocked_is_noop() {
    let input = format!("{HEADER}- [vat-g5y]   [in-progress]   A task\n");
    let (msg, out) = unblock(&input, "vat-g5y").unwrap();
    assert_eq!(msg, "vat-g5y is not blocked");
    assert!(out.is_none());
}

#[test]
fn unblock_unknown_id() {
    let err = unblock(&format!("{HEADER}- [vat-g5y] A task\n"), "vat-x9z").unwrap_err();
    assert!(matches!(err, CommandError::UnknownId(_)));
}

// ---------------------------------------------------------------- done

#[test]
fn done_removes_entry_with_its_notes() {
    let input = format!("{HEADER}- [vat-aaa] First\n  note a\n\n- [vat-bbb] Second\n\n- [vat-ccc] Third\n");
    let (msg, out) = done(&input, "vat-bbb").unwrap();
    assert_eq!(msg, "done vat-bbb");
    assert_eq!(out, format!("{HEADER}- [vat-aaa] First\n  note a\n\n- [vat-ccc] Third\n"));
}

#[test]
fn done_unblocks_dependents() {
    let input = format!(
        "{HEADER}- [vat-g5y] Blocker\n- [vat-h8x] [in-progress] [by:alice] [blocked-by:vat-g5y] Dependent\n- [vat-j2k] [blocked-by:vat-f1w] Other\n"
    );
    let (_, out) = done(&input, "VAT-G5Y").unwrap();
    assert_eq!(
        out,
        format!("{HEADER}- [vat-h8x] [in-progress] [by:alice] Dependent\n- [vat-j2k] [blocked-by:vat-f1w] Other\n")
    );
}

#[test]
fn done_keeps_freeform_region() {
    let input = "- [vat-aaa] Only\n---\nfree\n";
    let (_, out) = done(input, "vat-aaa").unwrap();
    assert_eq!(out, "---\nfree\n");
}

#[test]
fn done_tombstones_id_once() {
    assert_eq!(tombstone_after_done("", "vat-g5y").unwrap(), Some("vat-g5y\n".to_string()));
    assert_eq!(
        tombstone_after_done("vat-abc", "vat-g5y").unwrap(),
        Some("\nvat-g5y\n".to_string())
    );
    assert_eq!(tombstone_after_done("VAT-G5Y\n", "vat-g5y").unwrap(), None);
}

#[test]
fn done_unknown_id() {
    let err = done(&two_tasks(), "vat-x9z").unwrap_err();
    assert_eq!(err.message(), "unknown id: vat-x9z");
}

// ---------------------------------------------------------------- read back

#[test]
fn started_task_reads_back_claimed() {
    let (_, out) = start(&two_tasks(), "VAT-G5Y", Some("alice")).unwrap();
    let again = start(&out, "vat-g5y", Some("bob")).unwrap_err();
    assert_eq!(
        again,
        CommandError::AlreadyClaimed { id: "vat-g5y".to_string(), by: "alice".to_string() }
    );
}

#[test]
fn blocked_task_reads_back_blocked_and_unblocks() {
    let (_, out) = block(&two_tasks(), "vat-g5y", "vat-f1w").unwrap();
    let out = out.unwrap();
    let (_, none) = block(&out, "vat-g5y", "VAT-F1W").unwrap();
    assert!(none.is_none());
    let (msg, back) = unblock(&out, "vat-g5y").unwrap();
    assert_eq!(msg, "unblocked vat-g5y");
    assert_eq!(back.unwrap(), two_tasks());
}

#[test]
fn done_output_reads_back_without_the_task_and_with_dependents_unblocked() {
    let input = format!("{HEADER}- [vat-g5y] First\n- [vat-f1w] [blocked-by:vat-g5y] Second\n");
    let (_, out) = done(&input, "vat-g5y").unwrap();
    assert_eq!(out, format!("{HEADER}- [vat-f1w] Second\n"));
    assert_eq!(
        done(&out, "vat-g5y").unwrap_err(),
        CommandError::UnknownId("vat-g5y".to_string())
    );
    let (msg, none) = unblock(&out, "vat-f1w").unwrap();
    assert_eq!(msg, "vat-f1w is not blocked");
    assert!(none.is_none());
}

#[test]
fn done_on_the_only_task_before_a_freeform_region_without_frontmatter() {
    let input = "- [vat-g5y] First\n---\nnotes\n---\nmore\n";
    let (_, out) = done(input, "vat-g5y").unwrap();
    assert_eq!(out, "---\nnotes\n---\nmore\n");
}
