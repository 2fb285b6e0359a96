//! `vat init`: the files a new backlog starts with.
use vstd::prelude::*;
use crate::project_config::{normalized_id, ConfigError, ProjectConfig};
use crate::readme_template::{render, replace_all, BACKLOG_README_TEMPLATE};
use crate::text::push_str;
use crate::toml_doc::toml_assign_of;

verus! {

/// Why `vat init` refuses.
#[derive(Debug, Clone, PartialEq, Eq)]
pub enum InitError {
    /// `backlog/` exists already.
    AlreadyInitialized,
    /// The prefix is not a valid project ID.
    InvalidPrefix(ConfigError),
}

impl InitError {
    pub open spec fn message_text(&self) -> Seq<char> {
        match self {
            InitError::AlreadyInitialized => "backlog/ already exists; vat is initialized"@,
            InitError::InvalidPrefix(e) => e.message_text(),
        }
    }

    /// The user-facing description.
    pub fn message(&self) -> (r: String)
        ensures
            r@ == self.message_text(),
    {
        match self {
            InitError::AlreadyInitialized => {
                let mut out = String::new();
                push_str(&mut out, "backlog/ already exists; vat is initialized");
                out
            },
            InitError::InvalidPrefix(e) => e.message(),
        }
    }
}

/// The contents of a new `backlog/` directory, and the confirmation.
#[derive(Debug)]
pub struct InitFiles {
    /// `vat.toml`.
    pub vat_toml: String,
    /// `backlog.md`: the frontmatter and nothing else.
    pub backlog_md: String,
    /// `.used-ids`: empty.
    pub used_ids: String,
    /// `README.md`.
    pub readme: String,
    /// The confirmation to print.
    pub message: String,
}

/// What `vat init <prefix>` writes: a configuration holding the normalized
/// prefix, an empty version-1 backlog, an empty `.used-ids` and the README
/// for the prefix. An invalid prefix is refused.
pub fn init_files(prefix: &str) -> (r: Result<InitFiles, InitError>)
    ensures
        match normalized_id(prefix@) {
            Err(e) => r matches Err(InitError::InvalidPrefix(ConfigError::InvalidProjectId(e2)))
                && e2 == e,
            Ok(n) => r matches Ok(files) && toml_assign_of(""@, "project"@, "id"@, n) == Ok::<
                Seq<char>,
                Seq<char>,
            >(files.vat_toml@) && files.backlog_md@ == "---\nversion: 1\n---\n"@
                && files.used_ids@.len() == 0 && files.readme@ == replace_all(
                BACKLOG_README_TEMPLATE@,
                "{prefix}"@,
                n,
            ) && files.message@ == "initialized backlog/ with prefix "@ + n,
        },
{
    let config = match ProjectConfig::new(prefix) {
        Ok(c) => c,
        Err(e) => return Err(InitError::InvalidPrefix(e)),
    };
    let normalized = config.project_id();
    let mut backlog_md = String::new();
    push_str(&mut backlog_md, "---\nversion: 1\n---\n");
    let mut message = String::new();
    push_str(&mut message, "initialized backlog/ with prefix ");
    push_str(&mut message, normalized);
    Ok(InitFiles {
        vat_toml: config.serialize(),
        backlog_md,
        used_ids: String::new(),
        readme: render(normalized),
        message,
    })
}

} // verus!
