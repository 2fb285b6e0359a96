use rand::rngs::StdRng;
use rand::SeedableRng;
use vat::item_file::{append_item_contents_stripped, new_item_contents_stripped};
use vat::sync::{sync_plan, SyncPlan};
use vat::tombstone::append_text;

fn plan(input: &str, existing: &[&str]) -> SyncPlan {
    let existing: Vec<String> = existing.iter().map(|s| s.to_string()).collect();
    let mut rng = StdRng::from_seed([7u8; 32]);
    sync_plan(input, "", "vat", &existing, &mut rng).unwrap()
}

/// Replaces every `vat-` followed by three alphanumerics with a placeholder.
fn mask_ids(s: &str) -> String {
    let b: Vec<char> = s.chars().collect();
    let mut out = String::new();
    let mut i = 0;
    while i < b.len() {
        if i + 7 <= b.len()
            && b[i..i + 4] == ['v', 'a', 't', '-']
            && b[i + 4..i + 7].iter().all(|c| c.is_ascii_alphanumeric())
            && (i + 7 == b.len() || !b[i + 7].is_ascii_alphanumeric())
        {
            out.push_str("vat-@@@");
            i += 7;
        } else {
            out.push(b[i]);
            i += 1;
        }
    }
    out
}

#[test]
fn golden_new_bullets_get_ids_assigned() {
    let input = "---\nversion: 1\n---\n\n- First task\n- [in-progress] Second task\n";
    let p = plan(input, &[]);
    assert_eq!(
        mask_ids(&p.output),
        "---\nversion: 1\n---\n\n- [vat-@@@] First task\n- [vat-@@@] [in-progress] Second task\n"
    );
    assert_eq!(p.new_ids.len(), 2);
    let used = append_text("", &p.new_ids).unwrap();
    assert_eq!(mask_ids(&used), "vat-@@@\nvat-@@@\n");
    for id in &p.new_ids {
        assert!(p.output.contains(&format!("[{id}]")));
    }
}

#[test]
fn golden_notes_append_to_existing_item_file() {
    let input = "- [vat-t1h] Write docs\n    more detail\n      nested\n";
    let p = plan(input, &["vat-t1h"]);
    assert_eq!(p.output, "- [vat-t1h] Write docs (see ./items/vat-t1h.md)\n");
    assert_eq!(p.pending.len(), 1);
    let existing_item = "---\nid: vat-t1h\n---\n\nearlier notes\n\n";
    let appended = append_item_contents_stripped(existing_item, &p.pending[0].stripped).unwrap();
    assert_eq!(
        appended,
        "---\nid: vat-t1h\n---\n\nearlier notes\n\nmore detail\n  nested\n"
    );
}

#[test]
fn golden_dangling_blocked_by_left_alone() {
    let input = "- [vat-t1h] [blocked-by:vat-zzz] Waiting on something gone\n";
    let p = plan(input, &[]);
    assert!(!p.changed);
    assert_eq!(p.output, input);
}

#[test]
fn golden_pointer_suffix_appended_when_item_file_exists() {
    let input = "- [vat-t1h] Has an item file\n- [vat-g5y] Has none\n";
    let p = plan(input, &["vat-t1h"]);
    assert_eq!(
        p.output,
        "- [vat-t1h] Has an item file (see ./items/vat-t1h.md)\n- [vat-g5y] Has none\n"
    );
    let again = plan(&p.output, &["vat-t1h"]);
    assert!(!again.changed);
}

#[test]
fn golden_frontmatter_preserved() {
    let input = "---\nversion: 1\nowner: team # keep\n---\n# Backlog\n\n- [vat-t1h]  [by:ann]   Task\n  notes here\n---\nFree-form\n- not a task\n";
    let p = plan(input, &[]);
    assert_eq!(
        p.output,
        "---\nversion: 1\nowner: team # keep\n---\n# Backlog\n\n- [vat-t1h] [by:ann] Task (see ./items/vat-t1h.md)\n---\nFree-form\n- not a task\n"
    );
    assert_eq!(
        new_item_contents_stripped(&p.pending[0].id, &p.pending[0].stripped),
        "---\nid: vat-t1h\n---\n\nnotes here\n"
    );
}
