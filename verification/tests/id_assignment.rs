use rand::rngs::StdRng;
use rand::SeedableRng;
use std::collections::HashSet;
use vat::id_assignment::{assign_ids, IdAssignmentError};
use vat::sync_id::MAX_RETRIES;


fn seeded_rng() -> StdRng {
    StdRng::from_seed([0u8; 32])
}

#[test]
fn assigns_id_to_entry_without_one() {
    let mut ids = vec![None];
    let mut used: Vec<String> = Vec::new();
    let mut rng = seeded_rng();
    let (new_ids, warnings) = assign_ids(&mut ids, &mut used, "foo", &mut rng).unwrap();
    assert_eq!(new_ids.len(), 1);
    assert!(warnings.is_empty());
    assert!(ids[0].is_some());
    let id = ids[0].as_ref().unwrap();
    assert!(id.starts_with("foo-"), "id {id:?} should start with foo-");
}

#[test]
fn assigned_id_has_correct_structure() {
    let mut ids = vec![None];
    let mut used: Vec<String> = Vec::new();
    let mut rng = seeded_rng();
    let (new_ids, _) = assign_ids(&mut ids, &mut used, "vat", &mut rng).unwrap();
    let id = &new_ids[0];
    let parts: Vec<&str> = id.splitn(2, '-').collect();
    assert_eq!(parts.len(), 2);
    assert_eq!(parts[0], "vat");
    assert_eq!(parts[1].len(), 3);
}

#[test]
fn assigns_ids_to_multiple_entries_without_ids() {
    let mut ids = vec![None, None, None];
    let mut used: Vec<String> = Vec::new();
    let mut rng = seeded_rng();
    let (new_ids, warnings) = assign_ids(&mut ids, &mut used, "foo", &mut rng).unwrap();
    assert_eq!(new_ids.len(), 3);
    assert!(warnings.is_empty());
    assert!(ids.iter().all(Option::is_some));
    // All assigned IDs must be distinct.
    let id_set: HashSet<&str> = new_ids.iter().map(String::as_str).collect();
    assert_eq!(id_set.len(), 3);
}

#[test]
fn skips_entries_that_already_have_ids() {
    let mut ids = vec![Some("foo-abc".to_owned()), None, Some("foo-def".to_owned())];
    let mut used: Vec<String> = ["foo-abc".to_owned(), "foo-def".to_owned()]
        .into_iter()
        .collect();
    let mut rng = seeded_rng();
    let (new_ids, _) = assign_ids(&mut ids, &mut used, "foo", &mut rng).unwrap();
    assert_eq!(new_ids.len(), 1);
    assert_eq!(ids[0].as_deref(), Some("foo-abc"));
    assert_eq!(ids[2].as_deref(), Some("foo-def"));
    assert!(ids[1].is_some());
}

#[test]
fn empty_entry_list_is_a_noop() {
    let mut ids: Vec<Option<String>> = vec![];
    let mut used: Vec<String> = Vec::new();
    let mut rng = seeded_rng();
    let (new_ids, warnings) = assign_ids(&mut ids, &mut used, "foo", &mut rng).unwrap();
    assert!(new_ids.is_empty());
    assert!(warnings.is_empty());
}

#[test]
fn new_ids_are_added_to_used_set() {
    let mut ids = vec![None];
    let mut used: Vec<String> = Vec::new();
    let mut rng = seeded_rng();
    assign_ids(&mut ids, &mut used, "foo", &mut rng).unwrap();
    let id = ids[0].as_ref().unwrap();
    assert!(
        used.contains(id),
        "used set should contain the new id {id:?}"
    );
}

#[test]
fn skips_candidates_already_in_used_set() {
    // Force a collision on the first candidate by pre-seeding `used`.
    // We know seed [0;32] produces "da2" as the first 3 chars; seed that candidate.
    let mut ids = vec![None];
    let mut rng = seeded_rng();
    // Peek at what the first candidate would be.
    let first_suffix = {
        let mut r = StdRng::from_seed([0u8; 32]);
        vat::base32::random(3, &mut r)
    };
    let first_candidate = format!("vat-{first_suffix}");
    let mut used: Vec<String> = [first_candidate.clone()].into_iter().collect();
    let (new_ids, _) = assign_ids(&mut ids, &mut used, "vat", &mut rng).unwrap();
    assert_ne!(
        new_ids[0], first_candidate,
        "should have skipped the pre-used candidate"
    );
    assert!(new_ids[0].starts_with("vat-"));
}

#[test]
fn candidates_are_unique_across_entries_in_same_run() {
    let mut ids = vec![None, None, None, None, None];
    let mut used: Vec<String> = Vec::new();
    let mut rng = seeded_rng();
    let (new_ids, _) = assign_ids(&mut ids, &mut used, "foo", &mut rng).unwrap();
    let id_set: HashSet<&str> = new_ids.iter().map(String::as_str).collect();
    assert_eq!(
        id_set.len(),
        new_ids.len(),
        "no duplicate IDs assigned in same run"
    );
}

#[test]
fn returns_retry_exhausted_error_when_namespace_is_full() {
    let alphabet: &[u8] = b"0123456789abcdefghjkmnpqrstvwxyz";
    let mut used: Vec<String> = Vec::new();
    // Fill every possible 3-char suffix for prefix "vat".
    for a in alphabet {
        for b in alphabet {
            for c in alphabet {
                used.push(format!("vat-{}{}{}", *a as char, *b as char, *c as char));
            }
        }
    }
    let mut ids = vec![None];
    let mut rng = seeded_rng();
    let err = assign_ids(&mut ids, &mut used, "vat", &mut rng).unwrap_err();
    assert_eq!(err, IdAssignmentError::RetryExhausted("vat".to_owned()));
}

#[test]
fn retry_exhausted_message_names_the_prefix() {
    let mut ids = vec![None];
    // Fill just enough to exhaust MAX_RETRIES retries.
    let alphabet: &[u8] = b"0123456789abcdefghjkmnpqrstvwxyz";
    let mut used: Vec<String> = Vec::new();
    for a in alphabet {
        for b in alphabet {
            for c in alphabet {
                used.push(format!("abc-{}{}{}", *a as char, *b as char, *c as char));
            }
        }
    }
    let mut rng = seeded_rng();
    let err = assign_ids(&mut ids, &mut used, "abc", &mut rng).unwrap_err();
    let msg = err.message();
    assert!(
        msg.contains("abc"),
        "error message should name the prefix; got: {msg:?}"
    );
    assert!(
        msg.contains(&MAX_RETRIES.to_string()),
        "error message should name the retry cap; got: {msg:?}"
    );
}

#[test]
fn warns_on_foreign_prefix() {
    let mut ids = vec![Some("bar-abc".to_owned())];
    let mut used: Vec<String> = ["bar-abc".to_owned()].into_iter().collect();
    let mut rng = seeded_rng();
    let (new_ids, warnings) = assign_ids(&mut ids, &mut used, "foo", &mut rng).unwrap();
    assert!(new_ids.is_empty());
    assert_eq!(warnings.len(), 1);
    assert!(
        warnings[0].contains("bar-abc"),
        "warning should mention the offending id: {warnings:?}"
    );
}

#[test]
fn foreign_prefix_entry_is_left_unchanged() {
    let mut ids = vec![Some("bar-abc".to_owned())];
    let mut used: Vec<String> = ["bar-abc".to_owned()].into_iter().collect();
    let mut rng = seeded_rng();
    assign_ids(&mut ids, &mut used, "foo", &mut rng).unwrap();
    assert_eq!(ids[0].as_deref(), Some("bar-abc"));
}

#[test]
fn no_warning_when_prefix_matches() {
    let mut ids = vec![Some("foo-abc".to_owned())];
    let mut used: Vec<String> = ["foo-abc".to_owned()].into_iter().collect();
    let mut rng = seeded_rng();
    let (_, warnings) = assign_ids(&mut ids, &mut used, "foo", &mut rng).unwrap();
    assert!(warnings.is_empty());
}

#[test]
fn aborts_on_duplicate_ids() {
    let mut ids = vec![
        Some("foo-abc".to_owned()),
        Some("foo-def".to_owned()),
        Some("foo-abc".to_owned()),
    ];
    let mut used: Vec<String> = Vec::new();
    let mut rng = seeded_rng();
    let err = assign_ids(&mut ids, &mut used, "foo", &mut rng).unwrap_err();
    assert_eq!(err, IdAssignmentError::DuplicateId("foo-abc".to_owned()));
}

#[test]
fn duplicate_detection_happens_before_any_assignment() {
    // The first entry needs an ID; entries 1 and 2 are duplicates.
    // The duplicate error must be returned without assigning anything.
    let mut ids = vec![None, Some("foo-aaa".to_owned()), Some("foo-aaa".to_owned())];
    let mut used: Vec<String> = Vec::new();
    let mut rng = seeded_rng();
    let result = assign_ids(&mut ids, &mut used, "foo", &mut rng);
    assert!(result.is_err());
    // The None slot must remain None — no partial assignment.
    assert!(
        ids[0].is_none(),
        "partial assignment must not occur on duplicate error"
    );
}
