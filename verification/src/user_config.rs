//! The per-user configuration (`~/.config/vat/config.toml`): an optional
//! `[user].name`, which must be a non-empty string when it is there; every
//! other table and key is kept as it is.
use vstd::prelude::*;
use crate::text::{push_str, str_eq};
use crate::toml_doc::{toml_assign, toml_assign_of, toml_read, toml_read_of, TomlField, TomlFieldView};

verus! {

/// Why the user configuration cannot be used.
#[derive(Debug, Clone, PartialEq, Eq)]
pub enum UserConfigError {
    /// The text is not TOML; the parser's message.
    Parse(String),
    /// `[user].name` is not a string.
    UserNameNotString,
    /// `[user].name` is the empty string.
    UserNameEmpty,
    /// The file does not exist.
    NotFound,
    /// Neither an absolute `XDG_CONFIG_HOME` nor `HOME` is set.
    NoHome,
}

impl UserConfigError {
    pub open spec fn message_text(&self) -> Seq<char> {
        match self {
            UserConfigError::Parse(m) => "malformed user config: "@ + m@,
            UserConfigError::UserNameNotString => "[user].name must be a string"@,
            UserConfigError::UserNameEmpty => "[user].name must not be empty"@,
            UserConfigError::NotFound => "user config file not found"@,
            UserConfigError::NoHome => "cannot determine user config path: neither XDG_CONFIG_HOME (absolute) nor HOME is set"@,
        }
    }

    /// The user-facing description.
    pub fn message(&self) -> (r: String)
        ensures
            r@ == self.message_text(),
    {
        let mut out = String::new();
        match self {
            UserConfigError::Parse(m) => {
                push_str(&mut out, "malformed user config: ");
                push_str(&mut out, m.as_str());
            },
            UserConfigError::UserNameNotString => {
                push_str(&mut out, "[user].name must be a string");
            },
            UserConfigError::UserNameEmpty => {
                push_str(&mut out, "[user].name must not be empty");
            },
            UserConfigError::NotFound => {
                push_str(&mut out, "user config file not found");
            },
            UserConfigError::NoHome => {
                push_str(
                    &mut out,
                    "cannot determine user config path: neither XDG_CONFIG_HOME (absolute) nor HOME is set",
                );
            },
        }
        out
    }

    /// The process exit code for this error: a file that is not TOML is an
    /// internal failure (2); everything else is the user's to fix (1).
    pub fn exit_code(&self) -> (r: i32)
        ensures
            r == if self is Parse { 2i32 } else { 1i32 },
    {
        match self {
            UserConfigError::Parse(_) => 2,
            _ => 1,
        }
    }
}

/// A user configuration: the TOML document as it is written back, and the
/// user name it holds.
#[derive(Debug)]
pub struct UserConfig {
    document: String,
    name: Option<String>,
}

pub struct UserConfigView {
    pub document: Seq<char>,
    pub name: Option<Seq<char>>,
}

impl View for UserConfig {
    type V = UserConfigView;

    closed spec fn view(&self) -> UserConfigView {
        UserConfigView {
            document: self.document@,
            name: match self.name {
                Some(n) => Some(n@),
                None => None,
            },
        }
    }
}

/// The configuration that reading `input` gives, when it gives one.
pub open spec fn spec_parse_user(input: Seq<char>) -> Option<UserConfigView> {
    match toml_read_of(input, "user"@, "name"@) {
        Ok((TomlFieldView::Text(s), c)) => if s.len() == 0 {
            None
        } else {
            Some(UserConfigView { document: c, name: Some(s) })
        },
        Ok((TomlFieldView::NotString, _)) => None,
        Ok((_, c)) => Some(UserConfigView { document: c, name: None }),
        Err(_) => None,
    }
}

/// Reads the text of the user configuration. A missing `[user]` table or
/// `name` key is no error: there is then no user name.
pub fn parse(input: &str) -> (r: Result<UserConfig, UserConfigError>)
    ensures
        match toml_read_of(input@, "user"@, "name"@) {
            Err(m) => r matches Err(UserConfigError::Parse(x)) && x@ == m,
            Ok((TomlFieldView::NotString, _)) => r matches Err(UserConfigError::UserNameNotString),
            Ok((TomlFieldView::Text(s), _)) => if s.len() == 0 {
                r matches Err(UserConfigError::UserNameEmpty)
            } else {
                r matches Ok(cfg) && spec_parse_user(input@) == Some(cfg@)
            },
            Ok(_) => r matches Ok(cfg) && spec_parse_user(input@) == Some(cfg@),
        },
{
    let (field, canonical) = match toml_read(input, "user", "name") {
        Ok(x) => x,
        Err(m) => return Err(UserConfigError::Parse(m)),
    };
    match field {
        TomlField::NoTable => Ok(UserConfig { document: canonical, name: None }),
        TomlField::NoKey => Ok(UserConfig { document: canonical, name: None }),
        TomlField::NotString => Err(UserConfigError::UserNameNotString),
        TomlField::Text(s) => {
            if s.as_str().is_empty() {
                return Err(UserConfigError::UserNameEmpty);
            }
            Ok(UserConfig { document: canonical, name: Some(s) })
        },
    }
}

/// The value that `vat config get user.name` prints, from the text of the
/// user configuration file (`None` when there is no file): nothing when no
/// name is set, the name when one is; the file's errors as [`parse`] gives
/// them.
pub fn user_name_setting(text: Option<&str>) -> (r: Result<Option<String>, UserConfigError>)
    ensures
        match text {
            None => r matches Ok(None),
            Some(t) => match toml_read_of(t@, "user"@, "name"@) {
                Err(m) => r matches Err(UserConfigError::Parse(x)) && x@ == m,
                Ok((TomlFieldView::NotString, _)) => r matches Err(
                    UserConfigError::UserNameNotString,
                ),
                Ok((TomlFieldView::Text(s), _)) => if s.len() == 0 {
                    r matches Err(UserConfigError::UserNameEmpty)
                } else {
                    r matches Ok(Some(n)) && n@ == s
                },
                Ok(_) => r matches Ok(None),
            },
        },
{
    match text {
        None => Ok(None),
        Some(t) => match parse(t) {
            Err(e) => Err(e),
            Ok(cfg) => match cfg.user_name() {
                Some(n) => Ok(Some(crate::text::to_owned_string(n))),
                None => Ok(None),
            },
        },
    }
}

impl UserConfig {
    /// The configuration of a user who has none yet: an empty document.
    pub fn empty() -> (r: Self)
        ensures
            r@.document.len() == 0,
            r@.name is None,
    {
        UserConfig { document: String::new(), name: None }
    }

    /// The user name, when one is set.
    pub fn user_name(&self) -> (r: Option<&str>)
        ensures
            match r {
                Some(s) => self@.name == Some(s@),
                None => self@.name is None,
            },
    {
        match &self.name {
            Some(n) => Some(n.as_str()),
            None => None,
        }
    }

    /// Sets `[user].name`. An empty name is refused and nothing changes.
    pub fn set_user_name(&mut self, name: &str) -> (r: Result<(), UserConfigError>)
        ensures
            name@.len() == 0 ==> (r matches Err(UserConfigError::UserNameEmpty) && final(self)@
                == old(self)@),
            name@.len() > 0 ==> match toml_assign_of(old(self)@.document, "user"@, "name"@, name@) {
                Ok(o) => r is Ok && final(self)@ == (UserConfigView { document: o, name: Some(name@) }),
                Err(m) => r matches Err(UserConfigError::Parse(x)) && x@ == m && final(self)@
                    == old(self)@,
            },
    {
        if name.is_empty() {
            return Err(UserConfigError::UserNameEmpty);
        }
        let document = match toml_assign(self.document.as_str(), "user", "name", name) {
            Ok(o) => o,
            Err(m) => return Err(UserConfigError::Parse(m)),
        };
        self.document = document;
        self.name = Some(crate::text::to_owned_string(name));
        Ok(())
    }

    /// The TOML text of the configuration.
    pub fn serialize(&self) -> (r: String)
        ensures
            r@ == self@.document,
    {
        self.document.clone()
    }
}

// ---------------------------------------------------------------------------
// Where the file lives
// ---------------------------------------------------------------------------

/// `base` joined with the relative path `rest`, one `/` between them
/// (`Path::join` with a relative path on Unix).
pub open spec fn join_path(base: Seq<char>, rest: Seq<char>) -> Seq<char> {
    if base.len() > 0 && base.last() == '/' {
        base + rest
    } else {
        base + "/"@ + rest
    }
}

/// Where the user configuration lives: under an absolute, non-empty
/// `XDG_CONFIG_HOME`, else under a non-empty `HOME`.
pub open spec fn spec_config_path(
    xdg: Option<Seq<char>>,
    xdg_absolute: bool,
    home: Option<Seq<char>>,
) -> Option<Seq<char>> {
    match xdg {
        Some(x) if x.len() > 0 && xdg_absolute => Some(join_path(x, "vat/config.toml"@)),
        _ => match home {
            Some(h) if h.len() > 0 => Some(join_path(h, ".config/vat/config.toml"@)),
            _ => None,
        },
    }
}

pub open spec fn opt_str_view(o: Option<&str>) -> Option<Seq<char>> {
    match o {
        Some(s) => Some(s@),
        None => None,
    }
}

fn join_path_exec(base: &str, rest: &str) -> (r: String)
    ensures
        r@ == join_path(base@, rest@),
{
    let mut out = crate::text::to_owned_string(base);
    let v = crate::text::chars_of(base);
    if !(v.len() > 0 && v[v.len() - 1] == '/') {
        push_str(&mut out, "/");
    }
    push_str(&mut out, rest);
    proof {
        reveal_strlit("/");
    }
    out
}

/// The user configuration path, given the values of `XDG_CONFIG_HOME` and
/// `HOME` and whether the former is an absolute path.
pub fn config_path_choice(xdg: Option<&str>, xdg_absolute: bool, home: Option<&str>) -> (r: Result<
    String,
    UserConfigError,
>)
    ensures
        match spec_config_path(opt_str_view(xdg), xdg_absolute, opt_str_view(home)) {
            Some(p) => r matches Ok(s) && s@ == p,
            None => r matches Err(UserConfigError::NoHome),
        },
{
    if let Some(x) = xdg {
        if !x.is_empty() && xdg_absolute {
            return Ok(join_path_exec(x, "vat/config.toml"));
        }
    }
    if let Some(h) = home {
        if !h.is_empty() {
            return Ok(join_path_exec(h, ".config/vat/config.toml"));
        }
    }
    Err(UserConfigError::NoHome)
}

/// A Unix absolute path: one that starts at the root `/`.
pub open spec fn is_unix_absolute(p: Seq<char>) -> bool {
    p.len() > 0 && p[0] == '/'
}

/// `p` is an absolute path (`Path::is_absolute`). The library builds its
/// paths with `/` for Unix, where std documents that a path is absolute
/// exactly when it starts with the root; the contract states that rule.
#[verifier::external_body]
fn path_is_absolute(p: &str) -> (r: bool)
    ensures
        r == is_unix_absolute(p@),
{
    std::path::Path::new(p).is_absolute()
}

/// The user configuration path from the values of `XDG_CONFIG_HOME` and
/// `HOME`: under a non-empty, absolute `XDG_CONFIG_HOME`, else under a
/// non-empty `HOME`, else no path.
pub fn config_path_from_env(xdg: Option<&str>, home: Option<&str>) -> (r: Result<
    String,
    UserConfigError,
>)
    ensures
        match spec_config_path(
            opt_str_view(xdg),
            xdg matches Some(x) && is_unix_absolute(x@),
            opt_str_view(home),
        ) {
            Some(p) => r matches Ok(s) && s@ == p,
            None => r matches Err(UserConfigError::NoHome),
        },
{
    let abs = match xdg {
        Some(x) => path_is_absolute(x),
        None => false,
    };
    config_path_choice(xdg, abs, home)
}

} // verus!
