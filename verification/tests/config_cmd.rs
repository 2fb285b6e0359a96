use vat::config_cmd::{check_project_id_change, config_key, ids_exist_with_prefix, ConfigCmdError, ConfigKey};

#[test]
fn config_keys() {
    assert_eq!(config_key("user.name").unwrap(), ConfigKey::UserName);
    assert_eq!(config_key("project.id").unwrap(), ConfigKey::ProjectId);
    let err = config_key("foo").unwrap_err();
    assert_eq!(err.message(), "unknown config key: foo");
}

#[test]
fn ids_exist_from_tombstone_or_backlog() {
    assert!(ids_exist_with_prefix("vat", "vat-abc\n", None).unwrap());
    assert!(!ids_exist_with_prefix("vat", "bar-abc\n", None).unwrap());
    assert!(ids_exist_with_prefix("vat", "", Some("- [vat-abc] Task\n")).unwrap());
    assert!(!ids_exist_with_prefix("vat", "", Some("- Task mentioning vat-abc\n")).unwrap());
    assert!(ids_exist_with_prefix("vat", "bad line\n", None).is_err());
}

#[test]
fn project_id_change_refused_while_ids_exist() {
    let err = check_project_id_change("vat", "foo", "vat-abc\n", None).unwrap_err();
    assert_eq!(
        err,
        ConfigCmdError::PrefixInUse("vat".to_string())
    );
    assert_eq!(
        err.message(),
        "cannot change project.id: existing IDs use prefix 'vat'; edit vat.toml directly if you need to rename the project prefix"
    );
}

#[test]
fn project_id_change_allowed_without_ids_or_when_unchanged() {
    assert!(check_project_id_change("vat", "foo", "", Some("- Task\n")).is_ok());
    assert!(check_project_id_change("vat", "VAT", "vat-abc\n", None).is_ok());
}
