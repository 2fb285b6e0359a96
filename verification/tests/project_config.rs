use vat::project_config::{parse, project_id_setting, ConfigError, ProjectConfig};
use vat::base32::Base32Error;


#[test]
fn parse_accepts_valid_project_id() {
    let input = "[project]\nid = \"bar\"\n";
    let cfg = parse(input).expect("valid config should parse");
    assert_eq!(cfg.project_id(), "bar");
}

#[test]
fn parse_normalizes_uppercase_project_id_to_lowercase() {
    let input = "[project]\nid = \"BaR\"\n";
    let cfg = parse(input).expect("mixed-case base32 should parse");
    assert_eq!(cfg.project_id(), "bar");
}

#[test]
fn parse_rejects_missing_project_table() {
    let input = "[other]\nkey = \"value\"\n";
    assert_eq!(parse(input).err(), Some(ConfigError::MissingProject));
}

#[test]
fn parse_rejects_empty_input() {
    assert_eq!(parse("").err(), Some(ConfigError::MissingProject));
}

#[test]
fn parse_rejects_missing_project_id_key() {
    let input = "[project]\n";
    assert_eq!(parse(input).err(), Some(ConfigError::MissingProjectId));
}

#[test]
fn parse_rejects_non_string_project_id() {
    let input = "[project]\nid = 42\n";
    assert_eq!(parse(input).err(), Some(ConfigError::ProjectIdNotString));
}

#[test]
fn parse_rejects_wrong_length_project_id() {
    let input = "[project]\nid = \"fooo\"\n";
    assert_eq!(
        parse(input).err(),
        Some(ConfigError::InvalidProjectId(Base32Error::WrongLength {
            expected: 3,
            got: 4,
        }))
    );
}

#[test]
fn parse_rejects_invalid_char_in_project_id() {
    let input = "[project]\nid = \"abl\"\n";
    assert_eq!(
        parse(input).err(),
        Some(ConfigError::InvalidProjectId(Base32Error::InvalidChar {
            ch: 'l',
            pos: 2,
        }))
    );
}

#[test]
fn project_config_parse_rejects_malformed_toml() {
    let input = "[project\nid = \"bar\"\n";
    match parse(input) {
        Err(ConfigError::Parse(_)) => {}
        other => panic!("expected ConfigError::Parse, got {other:?}"),
    }
}

#[test]
fn error_messages_point_users_at_vat_init() {
    for err in [
        ConfigError::MissingProject,
        ConfigError::MissingProjectId,
        ConfigError::ProjectIdNotString,
        ConfigError::InvalidProjectId(Base32Error::WrongLength {
            expected: 3,
            got: 4,
        }),
        ConfigError::NotFound("backlog/vat.toml".to_string()),
    ] {
        let msg = err.message();
        assert!(
            msg.contains("vat init"),
            "error message {msg:?} should mention `vat init`"
        );
    }
}

#[test]
fn round_trip_preserves_unknown_top_level_sections() {
    let input = "[project]\nid = \"bar\"\n\n[user]\nname = \"jared\"\n";
    let cfg = parse(input).unwrap();
    let out = cfg.serialize();
    let reparsed: toml::Value = out.parse().unwrap();
    assert_eq!(
        reparsed
            .get("user")
            .and_then(|v| v.get("name"))
            .and_then(|v| v.as_str()),
        Some("jared")
    );
    assert_eq!(
        reparsed
            .get("project")
            .and_then(|v| v.get("id"))
            .and_then(|v| v.as_str()),
        Some("bar")
    );
}

#[test]
fn round_trip_preserves_unknown_keys_in_project_table() {
    let input = "[project]\nid = \"bar\"\nextra = \"keep me\"\nnumber = 42\n";
    let cfg = parse(input).unwrap();
    let out = cfg.serialize();
    let reparsed: toml::Value = out.parse().unwrap();
    let project = reparsed.get("project").unwrap();
    assert_eq!(project.get("id").and_then(|v| v.as_str()), Some("bar"));
    assert_eq!(
        project.get("extra").and_then(|v| v.as_str()),
        Some("keep me")
    );
    assert_eq!(
        project.get("number").and_then(toml::Value::as_integer),
        Some(42)
    );
}

#[test]
fn new_creates_config_with_normalized_id() {
    let cfg = ProjectConfig::new("BaR").unwrap();
    assert_eq!(cfg.project_id(), "bar");
    let serialized = cfg.serialize();
    let reparsed = parse(&serialized).unwrap();
    assert_eq!(reparsed.project_id(), "bar");
}

#[test]
fn new_rejects_invalid_project_id() {
    assert!(matches!(
        ProjectConfig::new("ab"),
        Err(ConfigError::InvalidProjectId(Base32Error::WrongLength {
            expected: 3,
            got: 2,
        }))
    ));
}

#[test]
fn set_project_id_updates_value_and_preserves_unknown_sections() {
    let input = "[project]\nid = \"bar\"\n\n[user]\nname = \"jared\"\n";
    let mut cfg = parse(input).unwrap();
    cfg.set_project_id("BaZ").unwrap();
    assert_eq!(cfg.project_id(), "baz");
    let serialized = cfg.serialize();
    let reparsed = parse(&serialized).unwrap();
    assert_eq!(reparsed.project_id(), "baz");
    let raw: toml::Value = serialized.parse().unwrap();
    assert_eq!(
        raw.get("user")
            .and_then(|v| v.get("name"))
            .and_then(|v| v.as_str()),
        Some("jared")
    );
}

#[test]
fn set_project_id_rejects_invalid_id_without_mutating() {
    let input = "[project]\nid = \"bar\"\n";
    let mut cfg = parse(input).unwrap();
    assert!(cfg.set_project_id("bad-id").is_err());
    assert_eq!(cfg.project_id(), "bar");
}

#[test]
fn project_id_setting_reads_the_stored_id_or_nothing() {
    assert_eq!(project_id_setting(None).unwrap(), None);
    assert_eq!(project_id_setting(Some("[project]\nid = \"ABC\"\n")).unwrap(), Some("abc".to_string()));
    assert!(project_id_setting(Some("[other]\n")).is_err());
}
