use vat::init::{init_files, InitError};
use vat::project_config::parse;

#[test]
fn init_uses_supplied_prefix() {
    let files = init_files("vat").unwrap();
    assert_eq!(files.message, "initialized backlog/ with prefix vat");
}

#[test]
fn init_rejects_prefix_that_is_too_short() {
    let err = init_files("fo").unwrap_err();
    assert!(
        matches!(err, InitError::InvalidPrefix(_)),
        "two-char prefix should be invalid"
    );
}

#[test]
fn init_rejects_prefix_that_is_too_long() {
    let err = init_files("fooo").unwrap_err();
    assert!(
        matches!(err, InitError::InvalidPrefix(_)),
        "four-char prefix should be invalid"
    );
}

#[test]
fn init_rejects_prefix_with_invalid_crockford_chars() {
    // 'l', 'i', 'o', 'u' are excluded from the Crockford alphabet.
    let err = init_files("lol").unwrap_err();
    assert!(matches!(err, InitError::InvalidPrefix(_)));
}

#[test]
fn init_rejects_empty_prefix() {
    let err = init_files("").unwrap_err();
    assert!(matches!(err, InitError::InvalidPrefix(_)));
}

#[test]
fn init_files_hold_the_normalized_prefix() {
    let files = init_files("VaT").unwrap();
    assert_eq!(files.message, "initialized backlog/ with prefix vat");
    assert_eq!(files.backlog_md, "---\nversion: 1\n---\n");
    assert_eq!(files.used_ids, "");
    assert_eq!(parse(&files.vat_toml).unwrap().project_id(), "vat");
    assert!(files.readme.contains("vat-7k2"));
    assert!(!files.readme.contains("{prefix}"));
}

#[test]
fn already_initialized_message() {
    assert_eq!(
        InitError::AlreadyInitialized.message(),
        "backlog/ already exists; vat is initialized"
    );
}
