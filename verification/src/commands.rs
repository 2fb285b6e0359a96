//! The bullet-editing commands `start`, `block`, `unblock` and `done`,
//! computed on the text of `backlog.md`.
//!
//! Each command takes the text and returns the new text (or none, when the
//! file is to be left alone) and its confirmation message; reading and
//! writing files is the caller's. A command that fails writes nothing.
use vstd::prelude::*;
use crate::backlog_file::{
    check_version, ends_line, lemma_backlog_round_trip, lemma_region_lines,
    lemma_replace_ends_line, replace_bullet, spec_backlog_parse, spec_file_serialize, spec_region,
    spec_region_serialize, BacklogFile, ParsedRegion, RegionView, UnsupportedVersion,
    SUPPORTED_MAJOR,
};
use crate::bullet::{spec_parse, spec_read, spec_serialize, Bullet, BulletError, BulletView};
use crate::bullet::is_id_token;
use crate::text::{push_str, str_eq, to_lowercase, unicode_lower};
use crate::tombstone::{
    append_text, first_bad_id, first_malformed, line_content, read as read_tombstones,
    recorded_ids, spec_append_text, strings_view, text_lines, TombstoneError,
};

verus! {

// ---------------------------------------------------------------------------
// Finding the entry a command acts on
// ---------------------------------------------------------------------------

/// The entry that carries an ID.
pub enum EntryLookup {
    /// The index of the entry and its bullet.
    Found(usize, Bullet),
    /// The entry's bullet line carries the ID but cannot be read as a task.
    Malformed(BulletError),
    /// No bullet line carries the ID.
    NotFound,
}

/// The first entry at or after `i` whose bullet line carries the ID marker
/// `id`, whether or not the line has a title.
pub open spec fn first_carrying(es: Seq<(Seq<char>, Seq<char>)>, id: Seq<char>, i: int) -> Option<
    int,
>
    decreases es.len() - i,
{
    if i < 0 || i >= es.len() {
        None
    } else if spec_read(es[i].0).0.id == Some(id) {
        Some(i)
    } else {
        first_carrying(es, id, i + 1)
    }
}

proof fn lemma_first_carrying(es: Seq<(Seq<char>, Seq<char>)>, id: Seq<char>, i: int)
    requires
        0 <= i,
    ensures
        first_carrying(es, id, i) matches Some(k) ==> i <= k < es.len(),
    decreases es.len() - i,
{
    if i < es.len() && spec_read(es[i].0).0.id != Some(id) {
        lemma_first_carrying(es, id, i + 1);
    }
}

/// Looks up the entry whose bullet line carries `id_lower` (IDs are stored
/// lowercase): the first such entry is reported, well-formed or not.
pub fn find_entry_index(region: &ParsedRegion, id_lower: &str) -> (r: EntryLookup)
    ensures
        match first_carrying(region@.entries, id_lower@, 0) {
            None => r is NotFound,
            Some(i) => match spec_parse(region@.entries[i].0) {
                Ok(b) => r matches EntryLookup::Found(j, b2) && j == i && b2@ == b,
                Err(e) => r matches EntryLookup::Malformed(e2) && e2 == e,
            },
        },
{
    let ghost es = region@.entries;
    let mut i: usize = 0;
    while i < region.entries.len()
        invariant
            i <= region.entries@.len(),
            es == region@.entries,
            es.len() == region.entries@.len(),
            first_carrying(es, id_lower@, 0) == first_carrying(es, id_lower@, i as int),
        decreases region.entries@.len() - i,
    {
        let line = region.entries[i].bullet_line;
        assert(es[i as int].0 == line@);
        let mid = Bullet::marked_id(line);
        let hit = match &mid {
            Some(m) => str_eq(m.as_str(), id_lower),
            None => false,
        };
        if hit {
            return match Bullet::parse(line) {
                Ok(b) => EntryLookup::Found(i, b),
                Err(e) => EntryLookup::Malformed(e),
            };
        }
        i += 1;
    }
    EntryLookup::NotFound
}

/// An ID as the commands find and record it: lowercased (`str::to_lowercase`).
pub fn lowercase_id(id: &str) -> (r: String)
    ensures
        r@ == unicode_lower(id@),
{
    to_lowercase(id)
}

// ---------------------------------------------------------------------------
// Errors
// ---------------------------------------------------------------------------

/// Why a command refuses to act.
#[derive(Debug, Clone, PartialEq, Eq)]
pub enum CommandError {
    /// The backlog declares a schema newer than this library understands.
    Version(UnsupportedVersion),
    /// `start` needs a user name and none is configured.
    NoUserName,
    /// No bullet carries the ID (as the user typed it).
    UnknownId(String),
    /// The bullet that carries the ID has no title.
    Malformed { id: String, err: BulletError },
    /// The task is claimed already, by this user.
    AlreadyClaimed { id: String, by: String },
    /// The task is in progress already, by nobody in particular.
    AlreadyInProgress(String),
    /// `block` was asked to block a task by itself (the lowercased ID).
    SelfBlock(String),
    /// No bullet carries the blocker's ID (as the user typed it).
    UnknownBlocker(String),
    /// The bullet that carries the blocker's ID has no title.
    MalformedBlocker { id: String, err: BulletError },
}

impl CommandError {
    pub open spec fn message_text(&self) -> Seq<char> {
        match self {
            CommandError::Version(v) => v.message_text(),
            CommandError::NoUserName => "set user.name first: vat config set user.name <name>"@,
            CommandError::UnknownId(id) => "unknown id: "@ + id@,
            CommandError::Malformed { id, err } => id@ + " found but its bullet could not be parsed: "@
                + err.message_text(),
            CommandError::AlreadyClaimed { id, by } => id@ + " already claimed by "@ + by@,
            CommandError::AlreadyInProgress(id) => id@ + " already in progress"@,
            CommandError::SelfBlock(id) => "cannot block "@ + id@ + " by itself"@,
            CommandError::UnknownBlocker(id) => "unknown blocker: "@ + id@,
            CommandError::MalformedBlocker { id, err } => "blocker "@ + id@
                + " found but its bullet could not be parsed: "@ + err.message_text(),
        }
    }

    /// The user-facing description.
    pub fn message(&self) -> (r: String)
        ensures
            r@ == self.message_text(),
    {
        let mut out = String::new();
        match self {
            CommandError::Version(v) => {
                out = v.message();
            },
            CommandError::NoUserName => {
                push_str(&mut out, "set user.name first: vat config set user.name <name>");
            },
            CommandError::UnknownId(id) => {
                push_str(&mut out, "unknown id: ");
                push_str(&mut out, id.as_str());
            },
            CommandError::Malformed { id, err } => {
                push_str(&mut out, id.as_str());
                push_str(&mut out, " found but its bullet could not be parsed: ");
                let m = err.message();
                push_str(&mut out, m.as_str());
            },
            CommandError::AlreadyClaimed { id, by } => {
                push_str(&mut out, id.as_str());
                push_str(&mut out, " already claimed by ");
                push_str(&mut out, by.as_str());
            },
            CommandError::AlreadyInProgress(id) => {
                push_str(&mut out, id.as_str());
                push_str(&mut out, " already in progress");
            },
            CommandError::SelfBlock(id) => {
                push_str(&mut out, "cannot block ");
                push_str(&mut out, id.as_str());
                push_str(&mut out, " by itself");
            },
            CommandError::UnknownBlocker(id) => {
                push_str(&mut out, "unknown blocker: ");
                push_str(&mut out, id.as_str());
            },
            CommandError::MalformedBlocker { id, err } => {
                push_str(&mut out, "blocker ");
                push_str(&mut out, id.as_str());
                push_str(&mut out, " found but its bullet could not be parsed: ");
                let m = err.message();
                push_str(&mut out, m.as_str());
            },
        }
        out
    }

    /// Every refusal is the user's to fix: exit code 1.
    pub fn exit_code(&self) -> (r: i32)
        ensures
            r == 1,
    {
        1
    }
}

// ---------------------------------------------------------------------------
// Shared pieces
// ---------------------------------------------------------------------------

/// The backlog text with the bullet line of entry `idx` replaced by `line`.
pub open spec fn replaced_output(input: Seq<char>, idx: int, line: Seq<char>) -> Seq<char> {
    let f = spec_backlog_parse(input);
    let r = spec_region(f.parsed);
    spec_file_serialize(
        f,
        spec_region_serialize(
            RegionView { preamble: r.preamble, entries: replace_bullet(r.entries, idx, line) },
        ),
    )
}

/// The schema check of a command.
pub open spec fn version_error(input: Seq<char>) -> Option<UnsupportedVersion> {
    let v = spec_backlog_parse(input).frontmatter.version;
    if v > SUPPORTED_MAJOR {
        Some(UnsupportedVersion { found: v, supported: SUPPORTED_MAJOR })
    } else {
        None
    }
}

/// The entries of a backlog text.
pub open spec fn entries_of(input: Seq<char>) -> Seq<(Seq<char>, Seq<char>)> {
    spec_region(spec_backlog_parse(input).parsed).entries
}

/// The bullet with `[in-progress]` and `[by:<name>]` set.
pub open spec fn with_claim(b: BulletView, name: Seq<char>) -> BulletView {
    BulletView {
        id: b.id,
        in_progress: true,
        by: Some(name),
        blocked_by: b.blocked_by,
        title: b.title,
    }
}

/// The bullet with its `[blocked-by:...]` set to `blocker`.
pub open spec fn with_blocker(b: BulletView, blocker: Option<Seq<char>>) -> BulletView {
    BulletView { id: b.id, in_progress: b.in_progress, by: b.by, blocked_by: blocker, title: b.title }
}

/// Writes the backlog back with entry `idx` holding `b` in canonical form.
fn rewrite_bullet(input: &str, bf: &BacklogFile, region: &ParsedRegion, idx: usize, b: &Bullet) -> (r:
    String)
    requires
        bf@ == spec_backlog_parse(input@),
        region@ == spec_region(bf@.parsed),
    ensures
        r@ == replaced_output(input@, idx as int, spec_serialize(b@)),
{
    let line = b.serialize();
    let new_parsed = region.serialize_with_replaced_bullet(idx, line.as_str());
    proof {
        lemma_backlog_round_trip(input@);
        assert(line@.last() == '\n');
        if bf@.freeform is Some {
            lemma_replace_ends_line(bf@.parsed, idx as int, line@);
        }
    }
    bf.serialize(new_parsed.as_str())
}

// ---------------------------------------------------------------------------
// start
// ---------------------------------------------------------------------------

/// `vat start <id>`: marks the task in progress and claims it for
/// `user_name`. Refused without a user name, on a newer schema, for an ID no
/// bullet carries, for a bullet without a title, and for a task that is
/// claimed or in progress already. Returns the confirmation, which names
/// the claimed ID, and the new text.
pub fn start(input: &str, id: &str, user_name: Option<&str>) -> (r: Result<
    (String, String),
    CommandError,
>)
    ensures
        ({
            let es = entries_of(input@);
            let idl = unicode_lower(id@);
            match user_name {
                None => r matches Err(CommandError::NoUserName),
                Some(name) => match version_error(input@) {
                    Some(v) => r matches Err(CommandError::Version(v2)) && v2 == v,
                    None => match first_carrying(es, idl, 0) {
                        None => r matches Err(CommandError::UnknownId(x)) && x@ == id@,
                        Some(i) => match spec_parse(es[i].0) {
                            Err(e) => r matches Err(CommandError::Malformed { id: x, err }) && x@
                                == id@ && err == e,
                            Ok(b) => if b.by is Some {
                                r matches Err(CommandError::AlreadyClaimed { id: x, by: y }) && x@
                                    == id@ && b.by == Some(y@)
                            } else if b.in_progress {
                                r matches Err(CommandError::AlreadyInProgress(x)) && x@ == id@
                            } else {
                                r matches Ok((msg, out)) && msg@ == "started "@ + idl && out@
                                    == replaced_output(input@, i, spec_serialize(with_claim(b, name@)))
                            },
                        },
                    },
                },
            }
        }),
{
    let name = match user_name {
        Some(n) => n,
        None => return Err(CommandError::NoUserName),
    };
    let bf = BacklogFile::parse(input);
    if let Err(v) = check_version(bf.frontmatter()) {
        return Err(CommandError::Version(v));
    }
    let id_lower = to_lowercase(id);
    let region = ParsedRegion::parse(bf.parsed());
    let (idx, mut bullet) = match find_entry_index(&region, id_lower.as_str()) {
        EntryLookup::Found(i, b) => (i, b),
        EntryLookup::Malformed(err) => {
            return Err(CommandError::Malformed { id: crate::text::to_owned_string(id), err });
        },
        EntryLookup::NotFound => return Err(CommandError::UnknownId(crate::text::to_owned_string(id))),
    };
    proof {
        lemma_first_carrying(region@.entries, id_lower@, 0);
    }
    if let Some(by) = &bullet.by {
        return Err(
            CommandError::AlreadyClaimed { id: crate::text::to_owned_string(id), by: by.clone() },
        );
    }
    if bullet.in_progress {
        return Err(CommandError::AlreadyInProgress(crate::text::to_owned_string(id)));
    }
    bullet.in_progress = true;
    bullet.by = Some(crate::text::to_owned_string(name));
    let out = rewrite_bullet(input, &bf, &region, idx, &bullet);
    let mut msg = String::new();
    push_str(&mut msg, "started ");
    push_str(&mut msg, id_lower.as_str());
    Ok((msg, out))
}

// ---------------------------------------------------------------------------
// block and unblock
// ---------------------------------------------------------------------------

/// The two IDs of `vat block`, lowercased; a task cannot block itself. This
/// check needs no file, so it comes before anything is read.
pub fn block_ids(id: &str, blocker_id: &str) -> (r: Result<(String, String), CommandError>)
    ensures
        unicode_lower(id@) == unicode_lower(blocker_id@) ==> (r matches Err(
            CommandError::SelfBlock(x),
        ) && x@ == unicode_lower(id@)),
        unicode_lower(id@) != unicode_lower(blocker_id@) ==> (r matches Ok((a, b)) && a@
            == unicode_lower(id@) && b@ == unicode_lower(blocker_id@)),
{
    let id_lower = to_lowercase(id);
    let blocker_lower = to_lowercase(blocker_id);
    if str_eq(id_lower.as_str(), blocker_lower.as_str()) {
        return Err(CommandError::SelfBlock(id_lower));
    }
    Ok((id_lower, blocker_lower))
}

/// The confirmation of `vat block`.
pub open spec fn blocked_message(id: Seq<char>, blocker: Seq<char>) -> Seq<char> {
    "blocked "@ + id + " by "@ + blocker
}

/// `vat block <id> <blocker>`: sets the task's single `[blocked-by:...]` to
/// the blocker, replacing a different one. Blocking by the blocker it has
/// already changes nothing (no new text). Refused for a task blocking itself,
/// on a newer schema, for an ID or a blocker that no bullet carries, and when
/// either bullet has no title.
pub fn block(input: &str, id: &str, blocker_id: &str) -> (r: Result<
    (String, Option<String>),
    CommandError,
>)
    ensures
        ({
            let es = entries_of(input@);
            let idl = unicode_lower(id@);
            let bl = unicode_lower(blocker_id@);
            if idl == bl {
                r matches Err(CommandError::SelfBlock(x)) && x@ == idl
            } else {
                match version_error(input@) {
                    Some(v) => r matches Err(CommandError::Version(v2)) && v2 == v,
                    None => match first_carrying(es, idl, 0) {
                        None => r matches Err(CommandError::UnknownId(x)) && x@ == id@,
                        Some(i) => match spec_parse(es[i].0) {
                            Err(e) => r matches Err(CommandError::Malformed { id: x, err }) && x@
                                == id@ && err == e,
                            Ok(b) => match first_carrying(es, bl, 0) {
                                None => r matches Err(CommandError::UnknownBlocker(x)) && x@
                                    == blocker_id@,
                                Some(j) => match spec_parse(es[j].0) {
                                    Err(e) => r matches Err(
                                        CommandError::MalformedBlocker { id: x, err },
                                    ) && x@ == blocker_id@ && err == e,
                                    Ok(_) => r matches Ok((msg, out)) && msg@ == blocked_message(
                                        idl,
                                        bl,
                                    ) && (if b.blocked_by == Some(bl) {
                                        out is None
                                    } else {
                                        out matches Some(o) && o@ == replaced_output(
                                            input@,
                                            i,
                                            spec_serialize(with_blocker(b, Some(bl))),
                                        )
                                    }),
                                },
                            },
                        },
                    },
                }
            }
        }),
{
    let (id_lower, blocker_lower) = block_ids(id, blocker_id)?;
    let bf = BacklogFile::parse(input);
    if let Err(v) = check_version(bf.frontmatter()) {
        return Err(CommandError::Version(v));
    }
    let region = ParsedRegion::parse(bf.parsed());
    let (idx, mut bullet) = match find_entry_index(&region, id_lower.as_str()) {
        EntryLookup::Found(i, b) => (i, b),
        EntryLookup::Malformed(err) => {
            return Err(CommandError::Malformed { id: crate::text::to_owned_string(id), err });
        },
        EntryLookup::NotFound => return Err(CommandError::UnknownId(crate::text::to_owned_string(id))),
    };
    proof {
        lemma_first_carrying(region@.entries, id_lower@, 0);
        lemma_first_carrying(region@.entries, blocker_lower@, 0);
    }
    match find_entry_index(&region, blocker_lower.as_str()) {
        EntryLookup::Found(..) => {},
        EntryLookup::Malformed(err) => {
            return Err(
                CommandError::MalformedBlocker { id: crate::text::to_owned_string(blocker_id), err },
            );
        },
        EntryLookup::NotFound => {
            return Err(CommandError::UnknownBlocker(crate::text::to_owned_string(blocker_id)));
        },
    }
    let mut msg = String::new();
    push_str(&mut msg, "blocked ");
    push_str(&mut msg, id_lower.as_str());
    push_str(&mut msg, " by ");
    push_str(&mut msg, blocker_lower.as_str());
    let same = match &bullet.blocked_by {
        Some(x) => str_eq(x.as_str(), blocker_lower.as_str()),
        None => false,
    };
    if same {
        return Ok((msg, None));
    }
    bullet.blocked_by = Some(blocker_lower);
    let out = rewrite_bullet(input, &bf, &region, idx, &bullet);
    Ok((msg, Some(out)))
}

/// `vat unblock <id>`: removes the task's `[blocked-by:...]`. A task that is
/// not blocked is left alone (no new text). Refused on a newer schema, for an
/// ID no bullet carries, and for a bullet without a title.
pub fn unblock(input: &str, id: &str) -> (r: Result<(String, Option<String>), CommandError>)
    ensures
        ({
            let es = entries_of(input@);
            let idl = unicode_lower(id@);
            match version_error(input@) {
                Some(v) => r matches Err(CommandError::Version(v2)) && v2 == v,
                None => match first_carrying(es, idl, 0) {
                    None => r matches Err(CommandError::UnknownId(x)) && x@ == id@,
                    Some(i) => match spec_parse(es[i].0) {
                        Err(e) => r matches Err(CommandError::Malformed { id: x, err }) && x@ == id@
                            && err == e,
                        Ok(b) => if b.blocked_by is None {
                            r matches Ok((msg, out)) && msg@ == idl + " is not blocked"@ && out is None
                        } else {
                            r matches Ok((msg, out)) && msg@ == "unblocked "@ + idl && (out matches Some(
                                o,
                            ) && o@ == replaced_output(input@, i, spec_serialize(with_blocker(b, None))))
                        },
                    },
                },
            }
        }),
{
    let bf = BacklogFile::parse(input);
    if let Err(v) = check_version(bf.frontmatter()) {
        return Err(CommandError::Version(v));
    }
    let id_lower = to_lowercase(id);
    let region = ParsedRegion::parse(bf.parsed());
    let (idx, mut bullet) = match find_entry_index(&region, id_lower.as_str()) {
        EntryLookup::Found(i, b) => (i, b),
        EntryLookup::Malformed(err) => {
            return Err(CommandError::Malformed { id: crate::text::to_owned_string(id), err });
        },
        EntryLookup::NotFound => return Err(CommandError::UnknownId(crate::text::to_owned_string(id))),
    };
    proof {
        lemma_first_carrying(region@.entries, id_lower@, 0);
    }
    let mut msg = String::new();
    if bullet.blocked_by.is_none() {
        push_str(&mut msg, id_lower.as_str());
        push_str(&mut msg, " is not blocked");
        return Ok((msg, None));
    }
    push_str(&mut msg, "unblocked ");
    push_str(&mut msg, id_lower.as_str());
    bullet.blocked_by = None;
    let out = rewrite_bullet(input, &bf, &region, idx, &bullet);
    Ok((msg, Some(out)))
}

// ---------------------------------------------------------------------------
// done
// ---------------------------------------------------------------------------

/// How an entry other than the completed one is written back: a bullet that
/// was blocked by the completed task loses that marker and is written in
/// canonical form; every other entry stays verbatim. Notes are kept.
pub open spec fn completing_entry(e: (Seq<char>, Seq<char>), done_id: Seq<char>) -> Seq<char> {
    match spec_parse(e.0) {
        Ok(b) => if b.blocked_by == Some(done_id) {
            spec_serialize(with_blocker(b, None)) + e.1
        } else {
            e.0 + e.1
        },
        Err(_) => e.0 + e.1,
    }
}

/// The first `n` entries written back with entry `target` dropped in full.
pub open spec fn completing_entries(
    es: Seq<(Seq<char>, Seq<char>)>,
    n: int,
    target: int,
    done_id: Seq<char>,
) -> Seq<char>
    decreases n,
{
    if n <= 0 || n > es.len() {
        Seq::empty()
    } else {
        completing_entries(es, n - 1, target, done_id) + if n - 1 == target {
            Seq::empty()
        } else {
            completing_entry(es[n - 1], done_id)
        }
    }
}

/// The backlog text once the task at entry `target` is done.
pub open spec fn completed_output(input: Seq<char>, target: int, done_id: Seq<char>) -> Seq<char> {
    let f = spec_backlog_parse(input);
    let r = spec_region(f.parsed);
    spec_file_serialize(f, r.preamble + completing_entries(r.entries, r.entries.len() as int, target, done_id))
}

/// The region written by `done` ends a line when the old one did.
pub proof fn lemma_completing_ends_line(s: Seq<char>, target: int, done_id: Seq<char>)
    requires
        ends_line(s),
        0 <= target < spec_region(s).entries.len(),
    ensures
        ends_line(
            spec_region(s).preamble + completing_entries(
                spec_region(s).entries,
                spec_region(s).entries.len() as int,
                target,
                done_id,
            ),
        ),
{
    let r = spec_region(s);
    let es = r.entries;
    lemma_region_lines(s);
    lemma_completing_entries_ends_line(es, es.len() as int, target, done_id);
    let c = completing_entries(es, es.len() as int, target, done_id);
    if c.len() > 0 {
        assert((r.preamble + c).last() == c.last());
    } else {
        assert(r.preamble + c =~= r.preamble);
    }
}

proof fn lemma_completing_entries_ends_line(
    es: Seq<(Seq<char>, Seq<char>)>,
    n: int,
    target: int,
    done_id: Seq<char>,
)
    requires
        0 <= n <= es.len(),
        forall|k: int|
            0 <= k < es.len() ==> #[trigger] es[k].0.len() > 0 && ends_line(es[k].0 + es[k].1),
    ensures
        ends_line(completing_entries(es, n, target, done_id)),
    decreases n,
{
    if n > 0 {
        lemma_completing_entries_ends_line(es, n - 1, target, done_id);
        let prev = completing_entries(es, n - 1, target, done_id);
        if n - 1 != target {
            let e = es[n - 1];
            let piece = completing_entry(e, done_id);
            assert(e.0.len() > 0 && ends_line(e.0 + e.1));
            if let Ok(b) = spec_parse(e.0) {
                if b.blocked_by == Some(done_id) {
                    let line = spec_serialize(with_blocker(b, None));
                    if e.1.len() > 0 {
                        assert((line + e.1).last() == e.1.last());
                        assert((e.0 + e.1).last() == e.1.last());
                    } else {
                        assert(line + e.1 =~= line);
                    }
                }
            }
            assert(piece.len() > 0);
            assert((prev + piece).last() == piece.last());
        } else {
            assert(prev + Seq::<char>::empty() =~= prev);
        }
    }
}

/// Writes the region back with entry `target_idx` dropped (bullet line and
/// notes) and every bullet blocked by `done_id` unblocked.
fn serialize_completing(region: &ParsedRegion, target_idx: usize, done_id: &str) -> (r: String)
    ensures
        r@ == region@.preamble + completing_entries(
            region@.entries,
            region@.entries.len() as int,
            target_idx as int,
            done_id@,
        ),
{
    let ghost es = region@.entries;
    let mut out = String::new();
    push_str(&mut out, region.preamble);
    let mut i: usize = 0;
    while i < region.entries.len()
        invariant
            i <= region.entries@.len(),
            es == region@.entries,
            es.len() == region.entries@.len(),
            out@ == region@.preamble + completing_entries(es, i as int, target_idx as int, done_id@),
        decreases region.entries@.len() - i,
    {
        let entry = &region.entries[i];
        assert(es[i as int] == (entry.bullet_line@, entry.notes@));
        let ghost out0 = out@;
        if i != target_idx {
            match Bullet::parse(entry.bullet_line) {
                Ok(mut b) => {
                    let hit = match &b.blocked_by {
                        Some(x) => str_eq(x.as_str(), done_id),
                        None => false,
                    };
                    if hit {
                        b.blocked_by = None;
                        let line = b.serialize();
                        push_str(&mut out, line.as_str());
                    } else {
                        push_str(&mut out, entry.bullet_line);
                    }
                },
                Err(_) => {
                    push_str(&mut out, entry.bullet_line);
                },
            }
            push_str(&mut out, entry.notes);
        }
        assert(out@ =~= out0 + if i == target_idx {
            Seq::<char>::empty()
        } else {
            completing_entry(es[i as int], done_id@)
        });
        i += 1;
    }
    out
}

/// `vat done <id>`: removes the task's entry (bullet line and notes) and
/// drops `[blocked-by:<id>]` from every task it blocked. Refused on a newer
/// schema, for an ID no bullet carries, and for a bullet without a title.
/// Returns the confirmation and the new text.
pub fn done(input: &str, id: &str) -> (r: Result<(String, String), CommandError>)
    ensures
        ({
            let es = entries_of(input@);
            let idl = unicode_lower(id@);
            match version_error(input@) {
                Some(v) => r matches Err(CommandError::Version(v2)) && v2 == v,
                None => match first_carrying(es, idl, 0) {
                    None => r matches Err(CommandError::UnknownId(x)) && x@ == id@,
                    Some(i) => match spec_parse(es[i].0) {
                        Err(e) => r matches Err(CommandError::Malformed { id: x, err }) && x@ == id@
                            && err == e,
                        Ok(_) => r matches Ok((msg, out)) && msg@ == "done "@ + idl && out@
                            == completed_output(input@, i, idl),
                    },
                },
            }
        }),
{
    let bf = BacklogFile::parse(input);
    if let Err(v) = check_version(bf.frontmatter()) {
        return Err(CommandError::Version(v));
    }
    let id_lower = to_lowercase(id);
    let region = ParsedRegion::parse(bf.parsed());
    let idx = match find_entry_index(&region, id_lower.as_str()) {
        EntryLookup::Found(i, _) => i,
        EntryLookup::Malformed(err) => {
            return Err(CommandError::Malformed { id: crate::text::to_owned_string(id), err });
        },
        EntryLookup::NotFound => return Err(CommandError::UnknownId(crate::text::to_owned_string(id))),
    };
    proof {
        lemma_first_carrying(region@.entries, id_lower@, 0);
        lemma_backlog_round_trip(input@);
        if bf@.freeform is Some {
            lemma_completing_ends_line(bf@.parsed, idx as int, id_lower@);
        }
    }
    let new_parsed = serialize_completing(&region, idx, id_lower.as_str());
    let out = bf.serialize(new_parsed.as_str());
    let mut msg = String::new();
    push_str(&mut msg, "done ");
    push_str(&mut msg, id_lower.as_str());
    Ok((msg, out))
}

/// What `vat done` appends to `.used-ids` (whose text is `used_ids`): nothing
/// when the ID is recorded already, else the ID on a line of its own.
pub fn tombstone_after_done(used_ids: &str, id_lower: &str) -> (r: Result<Option<String>, TombstoneError>)
    ensures
        ({
            let tl = text_lines(used_ids@);
            match first_malformed(tl, 0) {
                Some(k) => r matches Err(TombstoneError::MalformedLine { line_no, content })
                    && line_no == k + 1 && content@ == line_content(tl[k]),
                None => if recorded_ids(tl).contains(id_lower@) {
                    r matches Ok(None)
                } else if is_id_token(id_lower@) {
                    r matches Ok(Some(t)) && t@ == spec_append_text(used_ids@, seq![id_lower@])
                } else {
                    r matches Err(TombstoneError::MalformedLine { line_no, content }) && line_no == 1
                        && content@ == id_lower@
                },
            }
        }),
{
    let ids = match read_tombstones(used_ids) {
        Ok(ids) => ids,
        Err(e) => return Err(e),
    };
    let ghost iv = strings_view(ids@);
    assert(first_malformed(text_lines(used_ids@), 0) is None);
    assert(iv.to_set() == recorded_ids(text_lines(used_ids@)));
    let mut k: usize = 0;
    while k < ids.len()
        invariant
            k <= ids@.len(),
            iv == strings_view(ids@),
            first_malformed(text_lines(used_ids@), 0) is None,
            iv.to_set() == recorded_ids(text_lines(used_ids@)),
            forall|q: int| 0 <= q < k ==> iv[q] != id_lower@,
        decreases ids@.len() - k,
    {
        if str_eq(ids[k].as_str(), id_lower) {
            assert(iv[k as int] == id_lower@);
            assert(iv.contains(id_lower@));
            assert(iv.to_set().contains(id_lower@));
            assert(recorded_ids(text_lines(used_ids@)).contains(id_lower@));
            return Ok(None);
        }
        k += 1;
    }
    assert(!iv.contains(id_lower@));
    assert(!iv.to_set().contains(id_lower@));
    let mut batch: Vec<String> = Vec::new();
    batch.push(crate::text::to_owned_string(id_lower));
    assert(strings_view(batch@) =~= seq![id_lower@]);
    let r = append_text(used_ids, &batch);
    proof {
        if !is_id_token(id_lower@) {
            assert(first_bad_id(seq![id_lower@], 0) == Some(0int));
        } else {
            assert(first_bad_id(seq![id_lower@], 1) is None);
            assert(first_bad_id(seq![id_lower@], 0) is None);
        }
    }
    match r {
        Ok(t) => Ok(Some(t)),
        Err(e) => Err(e),
    }
}

} // verus!
