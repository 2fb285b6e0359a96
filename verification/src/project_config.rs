//! `backlog/vat.toml`: the project configuration. Its `[project].id` is the
//! prefix of every generated ID; every other table and key is kept as it is.
use vstd::prelude::*;
use crate::base32::{spec_validate, validate, Base32Error};
use crate::text::{lower, push_str, to_ascii_lowercase, to_owned_string};
use crate::toml_doc::{toml_assign, toml_assign_of, toml_read, toml_read_of, TomlField, TomlFieldView};

verus! {

/// A project ID is exactly this many Crockford base32 characters.
pub const PROJECT_ID_LEN: usize = 3;

/// Why `vat.toml` cannot be used.
#[derive(Debug, Clone, PartialEq, Eq)]
pub enum ConfigError {
    /// The text is not TOML; the parser's message.
    Parse(String),
    /// There is no `[project]` table.
    MissingProject,
    /// `[project]` has no `id`.
    MissingProjectId,
    /// `[project].id` is not a string.
    ProjectIdNotString,
    /// `[project].id` is not three Crockford base32 characters.
    InvalidProjectId(Base32Error),
    /// The file does not exist at this path.
    NotFound(String),
}

impl ConfigError {
    pub open spec fn message_text(&self) -> Seq<char> {
        match self {
            ConfigError::Parse(m) => "malformed vat.toml: "@ + m@,
            ConfigError::MissingProject => "vat.toml is missing the [project] table; run `vat init`"@,
            ConfigError::MissingProjectId => "vat.toml [project] table has no `id` key; run `vat init`"@,
            ConfigError::ProjectIdNotString => "vat.toml [project].id must be a string; run `vat init`"@,
            ConfigError::InvalidProjectId(e) => "vat.toml [project].id is invalid: "@ + e.message_text()
                + "; run `vat init`"@,
            ConfigError::NotFound(p) => "vat.toml not found at "@ + p@ + "; run `vat init`"@,
        }
    }

    /// The user-facing description.
    pub fn message(&self) -> (r: String)
        ensures
            r@ == self.message_text(),
    {
        let mut out = String::new();
        match self {
            ConfigError::Parse(m) => {
                push_str(&mut out, "malformed vat.toml: ");
                push_str(&mut out, m.as_str());
            },
            ConfigError::MissingProject => {
                push_str(&mut out, "vat.toml is missing the [project] table; run `vat init`");
            },
            ConfigError::MissingProjectId => {
                push_str(&mut out, "vat.toml [project] table has no `id` key; run `vat init`");
            },
            ConfigError::ProjectIdNotString => {
                push_str(&mut out, "vat.toml [project].id must be a string; run `vat init`");
            },
            ConfigError::InvalidProjectId(e) => {
                push_str(&mut out, "vat.toml [project].id is invalid: ");
                let m = e.message();
                push_str(&mut out, m.as_str());
                push_str(&mut out, "; run `vat init`");
            },
            ConfigError::NotFound(p) => {
                push_str(&mut out, "vat.toml not found at ");
                push_str(&mut out, p.as_str());
                push_str(&mut out, "; run `vat init`");
            },
        }
        out
    }

    /// The process exit code for this error: a file that is not TOML is an
    /// internal failure (2); everything else is the user's to fix (1).
    pub fn exit_code(&self) -> (r: i32)
        ensures
            r == if self is Parse { 2i32 } else { 1i32 },
    {
        match self {
            ConfigError::Parse(_) => 2,
            _ => 1,
        }
    }
}

/// A project ID as it is stored: validated, then lowercased.
pub open spec fn normalized_id(id: Seq<char>) -> Result<Seq<char>, Base32Error> {
    match spec_validate(id, 3) {
        Ok(()) => Ok(lower(id)),
        Err(e) => Err(e),
    }
}

/// Validates a project ID and lowercases it.
pub fn validate_and_normalize(id: &str) -> (r: Result<String, ConfigError>)
    ensures
        match normalized_id(id@) {
            Ok(n) => r matches Ok(s) && s@ == n,
            Err(e) => r matches Err(ConfigError::InvalidProjectId(e2)) && e2 == e,
        },
{
    match validate(id, PROJECT_ID_LEN) {
        Ok(()) => Ok(to_ascii_lowercase(id)),
        Err(e) => Err(ConfigError::InvalidProjectId(e)),
    }
}

/// A project configuration: the TOML document as it is written back, and its
/// normalized project ID.
#[derive(Debug)]
pub struct ProjectConfig {
    document: String,
    project_id: String,
}

pub struct ProjectConfigView {
    pub document: Seq<char>,
    pub project_id: Seq<char>,
}

impl View for ProjectConfig {
    type V = ProjectConfigView;

    closed spec fn view(&self) -> ProjectConfigView {
        ProjectConfigView { document: self.document@, project_id: self.project_id@ }
    }
}

/// The configuration that reading `input` gives, when it gives one.
pub open spec fn spec_parse_project(input: Seq<char>) -> Option<ProjectConfigView> {
    match toml_read_of(input, "project"@, "id"@) {
        Ok((TomlFieldView::Text(s), c)) => match normalized_id(s) {
            Ok(n) => Some(ProjectConfigView { document: c, project_id: n }),
            Err(_) => None,
        },
        _ => None,
    }
}

/// Reads the text of `vat.toml`. The errors come in this order: not TOML, no
/// `[project]` table, no `id`, `id` not a string, `id` not valid.
pub fn parse(input: &str) -> (r: Result<ProjectConfig, ConfigError>)
    ensures
        match toml_read_of(input@, "project"@, "id"@) {
            Err(m) => r matches Err(ConfigError::Parse(x)) && x@ == m,
            Ok((TomlFieldView::NoTable, _)) => r matches Err(ConfigError::MissingProject),
            Ok((TomlFieldView::NoKey, _)) => r matches Err(ConfigError::MissingProjectId),
            Ok((TomlFieldView::NotString, _)) => r matches Err(ConfigError::ProjectIdNotString),
            Ok((TomlFieldView::Text(s), _)) => match normalized_id(s) {
                Err(e) => r matches Err(ConfigError::InvalidProjectId(e2)) && e2 == e,
                Ok(_) => r matches Ok(cfg) && spec_parse_project(input@) == Some(cfg@),
            },
        },
{
    let (field, canonical) = match toml_read(input, "project", "id") {
        Ok(x) => x,
        Err(m) => return Err(ConfigError::Parse(m)),
    };
    match field {
        TomlField::NoTable => Err(ConfigError::MissingProject),
        TomlField::NoKey => Err(ConfigError::MissingProjectId),
        TomlField::NotString => Err(ConfigError::ProjectIdNotString),
        TomlField::Text(s) => {
            let project_id = validate_and_normalize(s.as_str())?;
            Ok(ProjectConfig { document: canonical, project_id })
        },
    }
}

/// The value that `vat config get project.id` prints, from the text of
/// `vat.toml` (`None` when there is no file): the stored project ID; the
/// file's errors as [`parse`] gives them.
pub fn project_id_setting(text: Option<&str>) -> (r: Result<Option<String>, ConfigError>)
    ensures
        match text {
            None => r matches Ok(None),
            Some(t) => match toml_read_of(t@, "project"@, "id"@) {
                Err(m) => r matches Err(ConfigError::Parse(x)) && x@ == m,
                Ok((TomlFieldView::NoTable, _)) => r matches Err(ConfigError::MissingProject),
                Ok((TomlFieldView::NoKey, _)) => r matches Err(ConfigError::MissingProjectId),
                Ok((TomlFieldView::NotString, _)) => r matches Err(ConfigError::ProjectIdNotString),
                Ok((TomlFieldView::Text(s), _)) => match normalized_id(s) {
                    Err(e) => r matches Err(ConfigError::InvalidProjectId(e2)) && e2 == e,
                    Ok(n) => r matches Ok(Some(x)) && x@ == n,
                },
            },
        },
{
    match text {
        None => Ok(None),
        Some(t) => match parse(t) {
            Err(e) => Err(e),
            Ok(cfg) => Ok(Some(crate::text::to_owned_string(cfg.project_id()))),
        },
    }
}

impl ProjectConfig {
    /// A configuration that holds nothing but `[project].id`.
    pub fn new(project_id: &str) -> (r: Result<Self, ConfigError>)
        ensures
            match normalized_id(project_id@) {
                Err(e) => r matches Err(ConfigError::InvalidProjectId(e2)) && e2 == e,
                Ok(n) => r matches Ok(cfg) && cfg@.project_id == n && toml_assign_of(
                    ""@,
                    "project"@,
                    "id"@,
                    n,
                ) == Ok::<Seq<char>, Seq<char>>(cfg@.document),
            },
    {
        let normalized = validate_and_normalize(project_id)?;
        proof {
            reveal_strlit("");
        }
        let document = match toml_assign("", "project", "id", normalized.as_str()) {
            Ok(o) => o,
            Err(_) => String::new(),
        };
        Ok(ProjectConfig { document, project_id: normalized })
    }

    /// The normalized project ID.
    pub fn project_id(&self) -> (r: &str)
        ensures
            r@ == self@.project_id,
    {
        self.project_id.as_str()
    }

    /// Sets `[project].id`. An invalid ID is refused and nothing changes.
    pub fn set_project_id(&mut self, id: &str) -> (r: Result<(), ConfigError>)
        ensures
            match normalized_id(id@) {
                Err(e) => r matches Err(ConfigError::InvalidProjectId(e2)) && e2 == e
                    && final(self)@ == old(self)@,
                Ok(n) => match toml_assign_of(old(self)@.document, "project"@, "id"@, n) {
                    Ok(o) => r is Ok && final(self)@ == (ProjectConfigView {
                        document: o,
                        project_id: n,
                    }),
                    Err(m) => r matches Err(ConfigError::Parse(x)) && x@ == m && final(self)@
                        == old(self)@,
                },
            },
    {
        let normalized = validate_and_normalize(id)?;
        let document = match toml_assign(self.document.as_str(), "project", "id", normalized.as_str()) {
            Ok(o) => o,
            Err(m) => return Err(ConfigError::Parse(m)),
        };
        self.document = document;
        self.project_id = normalized;
        Ok(())
    }

    /// The TOML text of the configuration.
    pub fn serialize(&self) -> (r: String)
        ensures
            r@ == self@.document,
    {
        self.document.clone()
    }
}

/// A normalized ID normalizes to itself.
pub proof fn lemma_normalized_stable(id: Seq<char>)
    ensures
        normalized_id(id) matches Ok(n) ==> normalized_id(n) == Ok::<Seq<char>, Base32Error>(n),
{
    if let Ok(n) = normalized_id(id) {
        crate::base32::lemma_validate_lower(id, 3);
        crate::text::lemma_lower_idempotent(id);
    }
}

} // verus!
