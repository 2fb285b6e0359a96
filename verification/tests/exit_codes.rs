use vat::backlog_file::{UnsupportedVersion, SUPPORTED_MAJOR};
use vat::base32::Base32Error;
use vat::commands::CommandError;
use vat::config_cmd::ConfigCmdError;
use vat::project_config::ConfigError;
use vat::user_config::UserConfigError;

#[test]
fn config_parse_error_is_internal() {
    assert_eq!(ConfigError::Parse("bad toml".to_owned()).exit_code(), 2);
}

#[test]
fn config_project_id_not_string_is_user() {
    assert_eq!(ConfigError::ProjectIdNotString.exit_code(), 1);
}

#[test]
fn config_not_found_is_user() {
    assert_eq!(ConfigError::NotFound("backlog/vat.toml".to_owned()).exit_code(), 1);
}

#[test]
fn config_missing_project_is_user() {
    assert_eq!(ConfigError::MissingProject.exit_code(), 1);
}

#[test]
fn config_invalid_project_id_is_user() {
    let e = ConfigError::InvalidProjectId(Base32Error::WrongLength {
        expected: 3,
        got: 2,
    });
    assert_eq!(e.exit_code(), 1);
}

#[test]
fn user_config_parse_error_is_internal() {
    assert_eq!(UserConfigError::Parse("bad toml".to_owned()).exit_code(), 2);
}

#[test]
fn user_config_name_not_string_is_user() {
    assert_eq!(UserConfigError::UserNameNotString.exit_code(), 1);
}

#[test]
fn user_config_no_home_is_user() {
    assert_eq!(UserConfigError::NoHome.exit_code(), 1);
}

#[test]
fn user_config_name_empty_is_user() {
    assert_eq!(UserConfigError::UserNameEmpty.exit_code(), 1);
}

#[test]
fn unsupported_version_is_user() {
    let e = CommandError::Version(UnsupportedVersion {
        found: SUPPORTED_MAJOR + 1,
        supported: SUPPORTED_MAJOR,
    });
    assert_eq!(e.exit_code(), 1);
}

#[test]
fn user_error_is_user() {
    assert_eq!(CommandError::UnknownId("foo".to_owned()).exit_code(), 1);
}

#[test]
fn unknown_config_key_is_internal() {
    assert_eq!(ConfigCmdError::UnknownKey("foo".to_owned()).exit_code(), 2);
}
