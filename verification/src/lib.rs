//! Versioned Addressable Tasks: a backlog in plain markdown, with item files
//! for notes, a record of assigned IDs and a project configuration.
pub mod backlog_file;
pub mod base32;
pub mod bullet;
pub mod commands;
pub mod commands_laws;
pub mod completions;
pub mod config_cmd;
pub mod id_assignment;
pub mod init;
pub mod item_file;
pub mod line_endings;
pub mod prefix;
pub mod project_config;
pub mod readme_template;
pub mod region_shape;
pub mod strip_laws;
pub mod sync;
pub mod sync_id;
pub mod sync_laws;
pub mod text;
pub mod tombstone;
pub mod tombstone_laws;
pub mod toml_doc;
pub mod user_config;
