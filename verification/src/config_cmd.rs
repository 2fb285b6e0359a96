//! `vat config get|set`: which keys exist, and when changing the project ID
//! is refused.
use vstd::prelude::*;
use crate::text::{
    contains_seq, contains_text, lower, push_str, starts_with, str_eq, to_ascii_lowercase,
};
use crate::tombstone::{
    first_malformed, line_content, read as read_tombstones, recorded_ids, strings_view, text_lines,
    TombstoneError,
};

verus! {

/// A configuration key that `vat config` knows.
#[derive(Debug, Clone, Copy, PartialEq, Eq, Structural)]
pub enum ConfigKey {
    /// `user.name`, in the user configuration.
    UserName,
    /// `project.id`, in `vat.toml`.
    ProjectId,
}

/// Why `vat config` refuses.
#[derive(Debug, Clone, PartialEq, Eq)]
pub enum ConfigCmdError {
    /// The key is neither `user.name` nor `project.id`.
    UnknownKey(String),
    /// IDs with the old prefix exist, so the prefix cannot change.
    PrefixInUse(String),
    /// `.used-ids` cannot be read.
    Tombstone(TombstoneError),
}

impl ConfigCmdError {
    pub open spec fn message_text(&self) -> Seq<char> {
        match self {
            ConfigCmdError::UnknownKey(k) => "unknown config key: "@ + k@,
            ConfigCmdError::PrefixInUse(p) => "cannot change project.id: existing IDs use prefix '"@
                + p@ + "'; edit vat.toml directly if you need to rename the project prefix"@,
            ConfigCmdError::Tombstone(e) => e.message_text(),
        }
    }

    /// The user-facing description.
    pub fn message(&self) -> (r: String)
        ensures
            r@ == self.message_text(),
    {
        match self {
            ConfigCmdError::UnknownKey(k) => {
                let mut out = String::new();
                push_str(&mut out, "unknown config key: ");
                push_str(&mut out, k.as_str());
                out
            },
            ConfigCmdError::PrefixInUse(p) => {
                let mut out = String::new();
                push_str(&mut out, "cannot change project.id: existing IDs use prefix '");
                push_str(&mut out, p.as_str());
                push_str(
                    &mut out,
                    "'; edit vat.toml directly if you need to rename the project prefix",
                );
                out
            },
            ConfigCmdError::Tombstone(e) => e.message(),
        }
    }

    /// None of these is a typed user error, so each exits with code 2.
    pub fn exit_code(&self) -> (r: i32)
        ensures
            r == 2,
    {
        2
    }
}

/// Reads a configuration key.
pub fn config_key(key: &str) -> (r: Result<ConfigKey, ConfigCmdError>)
    ensures
        key@ == "user.name"@ ==> r == Ok::<ConfigKey, ConfigCmdError>(ConfigKey::UserName),
        key@ == "project.id"@ ==> r == Ok::<ConfigKey, ConfigCmdError>(ConfigKey::ProjectId),
        key@ != "user.name"@ && key@ != "project.id"@ ==> (r matches Err(
            ConfigCmdError::UnknownKey(k),
        ) && k@ == key@),
{
    proof {
        reveal_strlit("user.name");
        reveal_strlit("project.id");
        assert("user.name"@.len() != "project.id"@.len());
    }
    if str_eq(key, "user.name") {
        Ok(ConfigKey::UserName)
    } else if str_eq(key, "project.id") {
        Ok(ConfigKey::ProjectId)
    } else {
        Err(ConfigCmdError::UnknownKey(crate::text::to_owned_string(key)))
    }
}

/// Some ID is in use with `prefix`: one recorded in `.used-ids` starts with
/// `<prefix>-`, or the backlog text holds `[<prefix>-`.
pub open spec fn prefix_in_use(prefix: Seq<char>, used: Set<Seq<char>>, backlog: Option<Seq<char>>) -> bool {
    (exists|id: Seq<char>| used.contains(id) && starts_with(id, prefix + "-"@)) || (
    backlog matches Some(b) && contains_seq(b, "["@ + prefix + "-"@))
}

/// Whether IDs with `prefix` exist, from the text of `.used-ids` and the text
/// of `backlog.md` (`None` when it does not exist).
pub fn ids_exist_with_prefix(prefix: &str, used_ids: &str, backlog: Option<&str>) -> (r: Result<
    bool,
    TombstoneError,
>)
    ensures
        ({
            let tl = text_lines(used_ids@);
            match first_malformed(tl, 0) {
                Some(k) => r matches Err(TombstoneError::MalformedLine { line_no, content })
                    && line_no == k + 1 && content@ == line_content(tl[k]),
                None => r == Ok::<bool, TombstoneError>(
                    prefix_in_use(
                        prefix@,
                        recorded_ids(tl),
                        match backlog {
                            Some(b) => Some(b@),
                            None => None,
                        },
                    ),
                ),
            }
        }),
{
    let ids = match read_tombstones(used_ids) {
        Ok(ids) => ids,
        Err(e) => return Err(e),
    };
    let ghost iv = strings_view(ids@);
    let ghost used = recorded_ids(text_lines(used_ids@));
    assert(first_malformed(text_lines(used_ids@), 0) is None);
    assert(iv.to_set() == used);
    let mut dash = crate::text::to_owned_string(prefix);
    push_str(&mut dash, "-");
    let mut k: usize = 0;
    while k < ids.len()
        invariant
            k <= ids@.len(),
            iv == strings_view(ids@),
            iv.to_set() == used,
            used == recorded_ids(text_lines(used_ids@)),
            first_malformed(text_lines(used_ids@), 0) is None,
            dash@ == prefix@ + "-"@,
            forall|q: int| 0 <= q < k ==> !starts_with(#[trigger] iv[q], prefix@ + "-"@),
        decreases ids@.len() - k,
    {
        if starts_with_text(ids[k].as_str(), dash.as_str()) {
            assert(iv[k as int] == ids@[k as int]@);
            assert(iv.contains(iv[k as int]));
            assert(used.contains(iv[k as int]));
            assert(used.contains(iv[k as int]) && starts_with(iv[k as int], prefix@ + "-"@));
            return Ok(true);
        }
        k += 1;
    }
    assert forall|id: Seq<char>| used.contains(id) implies !starts_with(id, prefix@ + "-"@) by {
        assert(iv.to_set().contains(id));
        let q = choose|q: int| 0 <= q < iv.len() && iv[q] == id;
    }
    match backlog {
        Some(b) => {
            let mut needle = String::new();
            push_str(&mut needle, "[");
            push_str(&mut needle, prefix);
            push_str(&mut needle, "-");
            Ok(contains_text(b, needle.as_str()))
        },
        None => Ok(false),
    }
}

/// `p` is a prefix of `s` (`str::starts_with`).
fn starts_with_text(s: &str, p: &str) -> (r: bool)
    ensures
        r == starts_with(s@, p@),
{
    let v = crate::text::chars_of(s);
    let w = crate::text::chars_of(p);
    let r = crate::text::occurs_at_exec(&v, 0, &w);
    r
}

/// The guard of `vat config set project.id`: changing the prefix away from
/// `old` is refused while IDs with `old` exist. Setting the prefix it has
/// already (in any case) is always allowed and reads nothing.
pub fn check_project_id_change(old: &str, value: &str, used_ids: &str, backlog: Option<&str>) -> (r:
    Result<(), ConfigCmdError>)
    ensures
        old@ == lower(value@) ==> r is Ok,
        old@ != lower(value@) ==> match first_malformed(text_lines(used_ids@), 0) {
            Some(k) => r matches Err(ConfigCmdError::Tombstone(_)),
            None => if prefix_in_use(
                old@,
                recorded_ids(text_lines(used_ids@)),
                match backlog {
                    Some(b) => Some(b@),
                    None => None,
                },
            ) {
                r matches Err(ConfigCmdError::PrefixInUse(p)) && p@ == old@
            } else {
                r is Ok
            },
        },
{
    let lowered = to_ascii_lowercase(value);
    if str_eq(old, lowered.as_str()) {
        return Ok(());
    }
    match ids_exist_with_prefix(old, used_ids, backlog) {
        Err(e) => Err(ConfigCmdError::Tombstone(e)),
        Ok(true) => Err(ConfigCmdError::PrefixInUse(crate::text::to_owned_string(old))),
        Ok(false) => Ok(()),
    }
}

} // verus!
