//! The `vat sync` pass over the text of `backlog.md`: canonical markers, ID
//! assignment, notes extraction and item-file pointers.
//!
//! Everything here is computed from plain values: the backlog text, the text of
//! `.used-ids`, the project prefix and the IDs whose item files already exist.
//! Reading and writing the files is left to the caller.
use vstd::prelude::*;
use rand::rngs::StdRng;
use crate::backlog_file::{
    check_version, concat_entries, ends_line, entries_from, lemma_backlog_round_trip,
    lemma_next_bullet, lemma_region_round_trip, next_bullet, spec_backlog_parse,
    spec_file_serialize, spec_region, BacklogFile, ParsedRegion, UnsupportedVersion,
    SUPPORTED_MAJOR,
};
use crate::bullet::{opt_string_view, spec_dropped, spec_parse, spec_serialize, Bullet, BulletView};
use crate::id_assignment::{
    assign_ids, filled, first_dup_slot, slot_warnings, slots_view, IdAssignmentError,
};
use crate::item_file::{spec_strip_notes, strip_notes};
use crate::sync_id::{contains_str, is_generated};
use crate::text::{
    debug_quoted, debug_string, decimal, ends_with, ends_with_str, lemma_line_end_bounds, line_end,
    push_decimal, push_str, str_eq, trim_end, trim_end_str,
};
use crate::tombstone::{
    first_malformed, line_content, read as read_tombstones, recorded_ids, strings_view, text_lines,
    TombstoneError,
};

verus! {

// ---------------------------------------------------------------------------
// The model of one sync pass
// ---------------------------------------------------------------------------

/// The task entries of a backlog text: bullet line and notes, in order.
pub open spec fn input_entries(input: Seq<char>) -> Seq<(Seq<char>, Seq<char>)> {
    spec_region(spec_backlog_parse(input).parsed).entries
}

/// The ID slots of the well-formed bullets among the first `n` entries: one
/// per bullet that has a title, holding the ID it carries (if any).
pub open spec fn parsed_slots(es: Seq<(Seq<char>, Seq<char>)>, n: int) -> Seq<Option<Seq<char>>>
    decreases n,
{
    if n <= 0 || n > es.len() {
        Seq::empty()
    } else {
        match spec_parse(es[n - 1].0) {
            Ok(b) => parsed_slots(es, n - 1).push(b.id),
            Err(_) => parsed_slots(es, n - 1),
        }
    }
}

/// The ID slots of every well-formed bullet of a backlog text.
pub open spec fn input_slots(input: Seq<char>) -> Seq<Option<Seq<char>>> {
    parsed_slots(input_entries(input), input_entries(input).len() as int)
}

/// The pointer appended to the title of a bullet that has an item file.
pub open spec fn pointer_suffix(id: Seq<char>) -> Seq<char> {
    " (see ./items/"@ + id + ".md)"@
}

/// A bullet with ID `id` moves its notes into an item file: it has notes, and
/// they are not blank once stripped.
pub open spec fn extracts(notes: Seq<char>, id: Option<Seq<char>>) -> bool {
    id is Some && notes.len() > 0 && spec_strip_notes(notes).len() > 0
}

/// The bullet as it is written back: with its assigned ID, and with the
/// pointer suffix appended to its title when an item file exists for that ID
/// (one already on disk, or one the notes are moved into) and the title does
/// not end with it yet.
pub open spec fn linked(
    b: BulletView,
    id: Option<Seq<char>>,
    notes: Seq<char>,
    existing: Seq<Seq<char>>,
) -> BulletView {
    let title = match id {
        Some(x) => if (extracts(notes, id) || existing.contains(x)) && !ends_with(
            b.title,
            pointer_suffix(x),
        ) {
            b.title + pointer_suffix(x)
        } else {
            b.title
        },
        None => b.title,
    };
    BulletView {
        id,
        in_progress: b.in_progress,
        by: b.by,
        blocked_by: b.blocked_by,
        title,
    }
}

/// How one entry is written back: a well-formed bullet in canonical form and
/// without its notes, a bullet without a title verbatim with its notes.
pub open spec fn rendered_entry(
    e: (Seq<char>, Seq<char>),
    id: Option<Seq<char>>,
    existing: Seq<Seq<char>>,
) -> Seq<char> {
    match spec_parse(e.0) {
        Ok(b) => spec_serialize(linked(b, id, e.1, existing)),
        Err(_) => e.0 + e.1,
    }
}

/// The first `n` entries written back, the well-formed bullets taking their
/// IDs from `fin` in order.
pub open spec fn render_entries(
    es: Seq<(Seq<char>, Seq<char>)>,
    n: int,
    fin: Seq<Option<Seq<char>>>,
    existing: Seq<Seq<char>>,
) -> Seq<char>
    decreases n,
{
    if n <= 0 || n > es.len() {
        Seq::empty()
    } else {
        render_entries(es, n - 1, fin, existing) + rendered_entry(
            es[n - 1],
            fin[parsed_slots(es, n - 1).len() as int],
            existing,
        )
    }
}

/// The item-file writes the first `n` entries ask for: the ID and the
/// stripped notes of every well-formed bullet that extracts its notes.
pub open spec fn pending_writes(
    es: Seq<(Seq<char>, Seq<char>)>,
    n: int,
    fin: Seq<Option<Seq<char>>>,
) -> Seq<(Seq<char>, Seq<char>)>
    decreases n,
{
    if n <= 0 || n > es.len() {
        Seq::empty()
    } else {
        let prev = pending_writes(es, n - 1, fin);
        let id = fin[parsed_slots(es, n - 1).len() as int];
        if spec_parse(es[n - 1].0) is Ok && extracts(es[n - 1].1, id) {
            prev.push((id.unwrap(), spec_strip_notes(es[n - 1].1)))
        } else {
            prev
        }
    }
}

/// The new text of `backlog.md`: frontmatter and freeform region kept, the
/// parsed region's preamble kept and every entry written back.
pub open spec fn spec_sync_output(
    input: Seq<char>,
    fin: Seq<Option<Seq<char>>>,
    existing: Seq<Seq<char>>,
) -> Seq<char> {
    let f = spec_backlog_parse(input);
    let r = spec_region(f.parsed);
    spec_file_serialize(f, r.preamble + render_entries(r.entries, r.entries.len() as int, fin, existing))
}

/// The item-file writes of a sync pass over `input`.
pub open spec fn spec_sync_pending(input: Seq<char>, fin: Seq<Option<Seq<char>>>) -> Seq<
    (Seq<char>, Seq<char>),
> {
    pending_writes(input_entries(input), input_entries(input).len() as int, fin)
}

/// The warning for an extra `[blocked-by:...]` that bullet number `n` drops.
pub open spec fn drop_warning(n: nat, target: Seq<char>, line: Seq<char>) -> Seq<char> {
    "warning: bullet #"@ + decimal(n) + " drops extra [blocked-by:"@ + target
        + "] (only the first [blocked-by:] is kept): "@ + debug_quoted(trim_end(line))
}

/// The warning for bullet number `n`, which has no title.
pub open spec fn untitled_warning(n: nat, line: Seq<char>) -> Seq<char> {
    "warning: bullet #"@ + decimal(n) + " has no title, skipping: "@ + debug_quoted(trim_end(line))
}

/// The warnings that reading the first `n` bullets gives, in order.
pub open spec fn parse_warnings(es: Seq<(Seq<char>, Seq<char>)>, n: int) -> Seq<Seq<char>>
    decreases n,
{
    if n <= 0 || n > es.len() {
        Seq::empty()
    } else {
        let prev = parse_warnings(es, n - 1);
        let line = es[n - 1].0;
        match spec_parse(line) {
            Ok(_) => prev + spec_dropped(line).map_values(
                |d: Seq<char>| drop_warning(n as nat, d, line),
            ),
            Err(_) => prev.push(untitled_warning(n as nat, line)),
        }
    }
}

// ---------------------------------------------------------------------------
// Lemmas on the model
// ---------------------------------------------------------------------------

/// Counting slots one entry further adds one slot exactly for a well-formed
/// bullet.
pub proof fn lemma_parsed_slots_step(es: Seq<(Seq<char>, Seq<char>)>, i: int)
    requires
        0 <= i < es.len(),
    ensures
        parsed_slots(es, i + 1).len() == parsed_slots(es, i).len() + if spec_parse(es[i].0) is Ok {
            1int
        } else {
            0int
        },
{
}

/// The slot count grows with the number of entries.
pub proof fn lemma_parsed_slots_mono(es: Seq<(Seq<char>, Seq<char>)>, i: int, j: int)
    requires
        0 <= i <= j <= es.len(),
    ensures
        parsed_slots(es, i).len() <= parsed_slots(es, j).len(),
    decreases j - i,
{
    if i < j {
        lemma_parsed_slots_mono(es, i, j - 1);
    }
}

// ---------------------------------------------------------------------------
// Reading the bullets
// ---------------------------------------------------------------------------

/// The warning text for an extra `[blocked-by:...]`, from the bullet number,
/// the dropped target and the already-quoted bullet line.
fn drop_warning_text(n: usize, target: &str, quoted_line: &str) -> (r: String)
    ensures
        r@ == "warning: bullet #"@ + decimal(n as nat) + " drops extra [blocked-by:"@ + target@
            + "] (only the first [blocked-by:] is kept): "@ + quoted_line@,
{
    let mut out = String::new();
    push_str(&mut out, "warning: bullet #");
    push_decimal(&mut out, n as u64);
    push_str(&mut out, " drops extra [blocked-by:");
    push_str(&mut out, target);
    push_str(&mut out, "] (only the first [blocked-by:] is kept): ");
    push_str(&mut out, quoted_line);
    out
}

/// The warning text for a bullet without a title.
fn untitled_warning_text(n: usize, quoted_line: &str) -> (r: String)
    ensures
        r@ == "warning: bullet #"@ + decimal(n as nat) + " has no title, skipping: "@ + quoted_line@,
{
    let mut out = String::new();
    push_str(&mut out, "warning: bullet #");
    push_decimal(&mut out, n as u64);
    push_str(&mut out, " has no title, skipping: ");
    push_str(&mut out, quoted_line);
    out
}

/// Reads every bullet of the region: the ID slots of the well-formed ones and
/// the warnings for dropped markers and missing titles.
fn read_entries(region: &ParsedRegion) -> (r: (Vec<Option<String>>, Vec<String>))
    ensures
        slots_view(r.0@) == parsed_slots(region@.entries, region@.entries.len() as int),
        strings_view(r.1@) == parse_warnings(region@.entries, region@.entries.len() as int),
{
    let ghost es = region@.entries;
    let mut slots: Vec<Option<String>> = Vec::new();
    let mut warnings: Vec<String> = Vec::new();
    let mut i: usize = 0;
    while i < region.entries.len()
        invariant
            i <= region.entries@.len(),
            es == region@.entries,
            es.len() == region.entries@.len(),
            slots_view(slots@) == parsed_slots(es, i as int),
            strings_view(warnings@) == parse_warnings(es, i as int),
        decreases region.entries@.len() - i,
    {
        let entry = &region.entries[i];
        let line = entry.bullet_line;
        assert(es[i as int].0 == line@);
        let quoted = debug_string(trim_end_str(line));
        let n = i + 1;
        let ghost w0 = strings_view(warnings@);
        let ghost s0 = slots_view(slots@);
        match Bullet::parse_reporting_dropped(line) {
            Ok((b, dropped)) => {
                let ghost ds = spec_dropped(line@);
                let mut j: usize = 0;
                while j < dropped.len()
                    invariant
                        j <= dropped@.len(),
                        dropped@.map_values(|x: String| x@) == ds,
                        quoted@ == debug_quoted(trim_end(line@)),
                        n == i + 1,
                        strings_view(warnings@) == w0 + ds.take(j as int).map_values(
                            |d: Seq<char>| drop_warning(n as nat, d, line@),
                        ),
                    decreases dropped@.len() - j,
                {
                    let w = drop_warning_text(n, dropped[j].as_str(), quoted.as_str());
                    let ghost wv = strings_view(warnings@);
                    warnings.push(w);
                    assert(ds[j as int] == dropped@[j as int]@);
                    assert(strings_view(warnings@) =~= wv.push(w@));
                    assert(ds.take(j + 1).map_values(|d: Seq<char>| drop_warning(n as nat, d, line@))
                        =~= ds.take(j as int).map_values(|d: Seq<char>| drop_warning(n as nat, d, line@)).push(
                        drop_warning(n as nat, ds[j as int], line@)));
                    j += 1;
                }
                assert(ds.take(j as int) =~= ds);
                slots.push(b.id);
                assert(slots_view(slots@) =~= s0.push(b@.id));
            },
            Err(_) => {
                let w = untitled_warning_text(n, quoted.as_str());
                warnings.push(w);
                assert(strings_view(warnings@) =~= w0.push(w@));
            },
        }
        i += 1;
    }
    (slots, warnings)
}

// ---------------------------------------------------------------------------
// Writing the entries back
// ---------------------------------------------------------------------------

/// An item file that a sync pass creates or appends to.
#[derive(Debug)]
pub struct PendingWrite {
    /// The ID of the bullet, which names the file `items/<id>.md`.
    pub id: String,
    /// The bullet's notes, stripped.
    pub stripped: String,
}

pub open spec fn pending_view(v: Seq<PendingWrite>) -> Seq<(Seq<char>, Seq<char>)> {
    v.map_values(|p: PendingWrite| (p.id@, p.stripped@))
}

/// The pointer suffix ` (see ./items/<id>.md)`.
pub fn pointer_suffix_string(id: &str) -> (r: String)
    ensures
        r@ == pointer_suffix(id@),
{
    let mut out = String::new();
    push_str(&mut out, " (see ./items/");
    push_str(&mut out, id);
    push_str(&mut out, ".md)");
    out
}

fn clone_slot(o: &Option<String>) -> (r: Option<String>)
    ensures
        opt_string_view(r) == opt_string_view(*o),
{
    match o {
        Some(s) => Some(s.clone()),
        None => None,
    }
}

/// Writes one well-formed bullet back with its assigned ID: its notes are
/// queued for an item file when they are not blank, and its title gets the
/// pointer suffix when an item file exists for the ID.
fn link_entry(b: Bullet, id: Option<String>, notes: &str, existing: &Vec<String>) -> (r: (
    String,
    Option<PendingWrite>,
))
    ensures
        r.0@ == spec_serialize(linked(b@, opt_string_view(id), notes@, strings_view(existing@))),
        r.1 is Some <==> extracts(notes@, opt_string_view(id)),
        r.1 matches Some(p) ==> p.id@ == opt_string_view(id).unwrap() && p.stripped@
            == spec_strip_notes(notes@),
{
    let ghost b0 = b@;
    let idc = clone_slot(&id);
    let mut b = b;
    b.id = id;
    let mut pw: Option<PendingWrite> = None;
    if let Some(x) = idc {
        let mut extracting = false;
        if !notes.is_empty() {
            let stripped = strip_notes(notes);
            if !stripped.as_str().is_empty() {
                pw = Some(PendingWrite { id: x.clone(), stripped });
                extracting = true;
            }
        }
        if extracting || contains_str(existing, &x) {
            let suf = pointer_suffix_string(x.as_str());
            if !ends_with_str(b.title.as_str(), suf.as_str()) {
                push_str(&mut b.title, suf.as_str());
            }
        }
    }
    assert(b@ == linked(b0, b@.id, notes@, strings_view(existing@)));
    (b.serialize(), pw)
}

/// Writes the parsed region back (see [`render_entries`]) and collects the
/// item-file writes (see [`pending_writes`]).
fn render_region(region: &ParsedRegion, slots: &Vec<Option<String>>, existing: &Vec<String>) -> (r:
    (String, Vec<PendingWrite>))
    requires
        slots@.len() == parsed_slots(region@.entries, region@.entries.len() as int).len(),
    ensures
        r.0@ == region@.preamble + render_entries(
            region@.entries,
            region@.entries.len() as int,
            slots_view(slots@),
            strings_view(existing@),
        ),
        pending_view(r.1@) == pending_writes(
            region@.entries,
            region@.entries.len() as int,
            slots_view(slots@),
        ),
{
    let ghost es = region@.entries;
    let ghost fin = slots_view(slots@);
    let ghost ex = strings_view(existing@);
    let mut out = String::new();
    push_str(&mut out, region.preamble);
    let mut pending: Vec<PendingWrite> = Vec::new();
    let nslots = slots.len();
    let mut k: usize = 0;
    let mut i: usize = 0;
    while i < region.entries.len()
        invariant
            nslots == slots@.len(),
            i <= region.entries@.len(),
            es == region@.entries,
            es.len() == region.entries@.len(),
            fin == slots_view(slots@),
            ex == strings_view(existing@),
            slots@.len() == parsed_slots(es, es.len() as int).len(),
            k == parsed_slots(es, i as int).len(),
            out@ == region@.preamble + render_entries(es, i as int, fin, ex),
            pending_view(pending@) == pending_writes(es, i as int, fin),
        decreases region.entries@.len() - i,
    {
        let entry = &region.entries[i];
        assert(es[i as int] == (entry.bullet_line@, entry.notes@));
        proof {
            lemma_parsed_slots_step(es, i as int);
            lemma_parsed_slots_mono(es, i + 1, es.len() as int);
        }
        let ghost out0 = out@;
        let ghost pv0 = pending_view(pending@);
        match Bullet::parse(entry.bullet_line) {
            Ok(b) => {
                assert(k < nslots);
                let id = clone_slot(&slots[k]);
                assert(fin[k as int] == opt_string_view(slots@[k as int]));
                let (line, pw) = link_entry(b, id, entry.notes, existing);
                push_str(&mut out, line.as_str());
                if let Some(p) = pw {
                    pending.push(p);
                    assert(pending_view(pending@) =~= pv0.push((p.id@, p.stripped@)));
                }
                k += 1;
            },
            Err(_) => {
                push_str(&mut out, entry.bullet_line);
                push_str(&mut out, entry.notes);
            },
        }
        assert(out@ == out0 + rendered_entry(es[i as int], fin[parsed_slots(es, i as int).len() as int], ex));
        i += 1;
    }
    (out, pending)
}

/// The backlog text that a sync pass writes, given the final ID of every
/// well-formed bullet (`slots`, in order) and the IDs whose item files exist
/// already; and the item-file writes it asks for.
pub fn render_sync(input: &str, slots: &Vec<Option<String>>, existing_items: &Vec<String>) -> (r: (
    String,
    Vec<PendingWrite>,
))
    requires
        slots@.len() == input_slots(input@).len(),
    ensures
        r.0@ == spec_sync_output(input@, slots_view(slots@), strings_view(existing_items@)),
        pending_view(r.1@) == spec_sync_pending(input@, slots_view(slots@)),
{
    let bf = BacklogFile::parse(input);
    let region = ParsedRegion::parse(bf.parsed());
    let (new_parsed, pending) = render_region(&region, slots, existing_items);
    proof {
        lemma_backlog_round_trip(input@);
        lemma_render_keeps_line_end(
            spec_backlog_parse(input@).parsed,
            slots_view(slots@),
            strings_view(existing_items@),
        );
    }
    (bf.serialize(new_parsed.as_str()), pending)
}

/// Writing a region back keeps it ending with a newline (or empty).
pub proof fn lemma_render_keeps_line_end(parsed: Seq<char>, fin: Seq<Option<Seq<char>>>, ex: Seq<Seq<char>>)
    ensures
        ends_line(parsed) ==> ends_line(
            spec_region(parsed).preamble + render_entries(
                spec_region(parsed).entries,
                spec_region(parsed).entries.len() as int,
                fin,
                ex,
            ),
        ),
{
    let r = spec_region(parsed);
    let es = r.entries;
    lemma_region_round_trip(parsed);
    if es.len() == 0 {
        assert(render_entries(es, 0, fin, ex) =~= Seq::<char>::empty());
        assert(concat_entries(es) =~= Seq::<char>::empty());
        assert(r.preamble + render_entries(es, 0, fin, ex) =~= parsed);
    } else {
        lemma_next_bullet(parsed, 0);
        lemma_entries_nonempty(parsed, next_bullet(parsed, 0));
        let last = es.last();
        assert(es[es.len() - 1].0.len() > 0);
        lemma_render_ends_line(es, es.len() as int, fin, ex);
        assert(concat_entries(es) == concat_entries(es.drop_last()) + last.0 + last.1);
        assert(parsed =~= (r.preamble + concat_entries(es.drop_last())) + (last.0 + last.1));
        if ends_line(parsed) {
            assert(parsed.last() == (last.0 + last.1).last());
        }
        let out = render_entries(es, es.len() as int, fin, ex);
        assert((r.preamble + out).last() == out.last());
    }
}

/// A written-back region of at least one entry ends with a newline whenever its
/// last entry, taken verbatim, would.
pub proof fn lemma_render_ends_line(
    es: Seq<(Seq<char>, Seq<char>)>,
    n: int,
    fin: Seq<Option<Seq<char>>>,
    ex: Seq<Seq<char>>,
)
    requires
        0 < n <= es.len(),
        es[n - 1].0.len() > 0,
    ensures
        ends_line(es[n - 1].0 + es[n - 1].1) ==> ends_line(render_entries(es, n, fin, ex)),
        render_entries(es, n, fin, ex).len() > 0,
{
    let e = es[n - 1];
    let re = rendered_entry(e, fin[parsed_slots(es, n - 1).len() as int], ex);
    let prev = render_entries(es, n - 1, fin, ex);
    assert(render_entries(es, n, fin, ex) == prev + re);
    match spec_parse(e.0) {
        Ok(b) => {
            let s = spec_serialize(linked(b, fin[parsed_slots(es, n - 1).len() as int], e.1, ex));
            assert(s.last() == '\n');
            assert((prev + re).last() == re.last());
        },
        Err(_) => {
            if ends_line(e.0 + e.1) && (e.0 + e.1).len() > 0 {
                assert((prev + re).last() == re.last());
            }
        },
    }
}

/// Every task entry has a non-empty bullet line.
proof fn lemma_entries_nonempty(s: Seq<char>, b: int)
    ensures
        forall|i: int|
            0 <= i < entries_from(s, b).len() ==> #[trigger] entries_from(s, b)[i].0.len() > 0,
    decreases s.len() - b,
{
    if 0 <= b < s.len() {
        lemma_line_end_bounds(s, b);
        let e = line_end(s, b);
        lemma_next_bullet(s, e);
        let n = next_bullet(s, e);
        lemma_entries_nonempty(s, n);
        let es = entries_from(s, b);
        assert(es == seq![(s.subrange(b, e), s.subrange(e, n))] + entries_from(s, n));
        assert forall|i: int| 0 <= i < es.len() implies #[trigger] es[i].0.len() > 0 by {
            if i > 0 {
                assert(es[i] == entries_from(s, n)[i - 1]);
                assert(entries_from(s, n)[i - 1].0.len() > 0);
            } else {
                assert(es[0] == (s.subrange(b, e), s.subrange(e, n)));
                assert(s.subrange(b, e).len() == e - b);
            }
        }
    }
}

// ---------------------------------------------------------------------------
// The whole pass
// ---------------------------------------------------------------------------

/// Why a sync pass cannot run.
#[derive(Debug, PartialEq, Eq)]
pub enum SyncError {
    /// `backlog/backlog.md` does not exist.
    NoBacklog,
    /// The backlog declares a schema newer than this library understands.
    Version(UnsupportedVersion),
    /// Two bullets share an ID, or no fresh ID could be drawn.
    IdAssignment(IdAssignmentError),
    /// `.used-ids` holds a line that is not an ID.
    Tombstone(TombstoneError),
}

impl SyncError {
    pub open spec fn message_text(&self) -> Seq<char> {
        match self {
            SyncError::NoBacklog => "backlog/backlog.md not found; run `vat init`"@,
            SyncError::Version(v) => v.message_text(),
            SyncError::IdAssignment(e) => e.message_text(),
            SyncError::Tombstone(e) => e.message_text(),
        }
    }

    /// The user-facing description.
    pub fn message(&self) -> (r: String)
        ensures
            r@ == self.message_text(),
    {
        match self {
            SyncError::NoBacklog => {
                let mut out = String::new();
                push_str(&mut out, "backlog/backlog.md not found; run `vat init`");
                out
            },
            SyncError::Version(v) => v.message(),
            SyncError::IdAssignment(e) => e.message(),
            SyncError::Tombstone(e) => e.message(),
        }
    }
}

/// What a sync pass computed: the new text of `backlog.md` and everything the
/// caller must write along with it.
#[derive(Debug)]
pub struct SyncPlan {
    /// The new text of `backlog.md`.
    pub output: String,
    /// The new text differs from the old one (otherwise nothing is written).
    pub changed: bool,
    /// The item files to create or append to, in bullet order.
    pub pending: Vec<PendingWrite>,
    /// The final ID of every well-formed bullet, in order.
    pub slots: Vec<Option<String>>,
    /// The newly assigned IDs, in bullet order, for `.used-ids`.
    pub new_ids: Vec<String>,
    /// The warnings to print, in order.
    pub warnings: Vec<String>,
}

/// What a sync pass over `input` gives, with `.used-ids` holding `used_ids`
/// and the item files `existing` on disk (see [`sync_plan`]).
pub open spec fn sync_plan_post(
    input: Seq<char>,
    used_ids: Seq<char>,
    project_id: Seq<char>,
    existing: Seq<Seq<char>>,
    r: Result<SyncPlan, SyncError>,
) -> bool {
    let f = spec_backlog_parse(input);
    let es = input_entries(input);
    let s0 = input_slots(input);
    let tl = text_lines(used_ids);
    let version_ok = f.frontmatter.version <= SUPPORTED_MAJOR;
    let tomb_ok = first_malformed(tl, 0) is None;
    let no_dup = first_dup_slot(s0, 0) is None;
    match r {
        Err(SyncError::Version(v)) => !version_ok && v == (UnsupportedVersion {
            found: f.frontmatter.version,
            supported: SUPPORTED_MAJOR,
        }),
        Err(SyncError::Tombstone(TombstoneError::MalformedLine { line_no, content })) => {
            &&& version_ok
            &&& 1 <= line_no
            &&& first_malformed(tl, 0) == Some(line_no - 1)
            &&& content@ == line_content(tl[line_no - 1])
        },
        Err(SyncError::IdAssignment(IdAssignmentError::DuplicateId(x))) => version_ok && tomb_ok
            && first_dup_slot(s0, 0) == Some(x@),
        Err(SyncError::IdAssignment(IdAssignmentError::RetryExhausted(p))) => version_ok && tomb_ok
            && no_dup && p@ == project_id && exists|i: int|
            0 <= i < s0.len() && (#[trigger] s0[i]) is None && ((exists|u: Seq<char>|
                (recorded_ids(tl).contains(u) || s0.contains(Some(u))) && #[trigger] is_generated(
                    u,
                    project_id,
                )) || exists|q: int| 0 <= q < i && (#[trigger] s0[q]) is None),
        Err(SyncError::NoBacklog) => false,
        Ok(p) => {
            let fin = slots_view(p.slots@);
            &&& version_ok
            &&& tomb_ok
            &&& no_dup
            &&& fin.len() == s0.len()
            &&& forall|i: int| 0 <= i < s0.len() && s0[i] is Some ==> #[trigger] fin[i] == s0[i]
            &&& forall|i: int|
                0 <= i < s0.len() && s0[i] is None ==> {
                    &&& #[trigger] fin[i] is Some
                    &&& is_generated(fin[i].unwrap(), project_id)
                    &&& !recorded_ids(tl).contains(fin[i].unwrap())
                    &&& !s0.contains(fin[i])
                }
            &&& strings_view(p.new_ids@) == filled(s0, fin, s0.len() as int)
            &&& strings_view(p.new_ids@).no_duplicates()
            &&& strings_view(p.warnings@) == parse_warnings(es, es.len() as int) + slot_warnings(
                s0,
                s0.len() as int,
                project_id,
            )
            &&& p.output@ == spec_sync_output(input, fin, existing)
            &&& pending_view(p.pending@) == spec_sync_pending(input, fin)
            &&& p.changed == (p.output@ != input)
        },
    }
}

/// A sync pass over the text of `backlog.md`.
///
/// The version gate comes first, then `.used-ids` (`used_ids`, empty when the
/// file is missing) is read, then IDs are assigned: every well-formed bullet
/// without an ID gets a fresh `<project_id>-<3 chars>` ID that is neither
/// tombstoned nor carried by another bullet. The new text writes every
/// well-formed bullet in canonical form without its notes; notes that are not
/// blank go to the bullet's item file, and a bullet whose item file exists
/// (listed in `existing_items`, or created now) gets the pointer suffix.
pub fn sync_plan(
    input: &str,
    used_ids: &str,
    project_id: &str,
    existing_items: &Vec<String>,
    rng: &mut StdRng,
) -> (r: Result<SyncPlan, SyncError>)
    ensures
        sync_plan_post(input@, used_ids@, project_id@, strings_view(existing_items@), r),
{
    let bf = BacklogFile::parse(input);
    if let Err(v) = check_version(bf.frontmatter()) {
        return Err(SyncError::Version(v));
    }
    let region = ParsedRegion::parse(bf.parsed());
    let (mut slots, mut warnings) = read_entries(&region);
    let ghost s0 = slots_view(slots@);
    let tomb = match read_tombstones(used_ids) {
        Ok(t) => t,
        Err(e) => return Err(SyncError::Tombstone(e)),
    };
    let ghost tv = strings_view(tomb@);
    // Collisions are avoided against the tombstones and every ID in the region.
    let mut used = tomb;
    let mut j: usize = 0;
    while j < slots.len()
        invariant
            j <= slots@.len(),
            s0 == slots_view(slots@),
            tv.len() <= used@.len(),
            strings_view(used@).subrange(0, tv.len() as int) == tv,
            forall|q: int|
                0 <= q < j && s0[q] is Some ==> strings_view(used@).contains(
                    #[trigger] s0[q].unwrap(),
                ),
            forall|w: int|
                tv.len() <= w < strings_view(used@).len() ==> s0.contains(
                    Some(#[trigger] strings_view(used@)[w]),
                ),
        decreases slots@.len() - j,
    {
        if let Some(x) = &slots[j] {
            let ghost u0 = strings_view(used@);
            used.push(x.clone());
            assert(strings_view(used@) =~= u0.push(x@));
            assert(s0[j as int] == Some(x@));
            assert forall|w: int| tv.len() <= w < strings_view(used@).len() implies s0.contains(
                Some(#[trigger] strings_view(used@)[w]),
            ) by {
                if w < u0.len() {
                    assert(strings_view(used@)[w] == u0[w]);
                } else {
                    assert(strings_view(used@)[w] == x@);
                    assert(s0[j as int] == Some(x@));
                }
            }
            assert forall|q: int| 0 <= q <= j && s0[q] is Some implies strings_view(used@).contains(
                #[trigger] s0[q].unwrap(),
            ) by {
                if q < j {
                    let w = choose|w: int| 0 <= w < u0.len() && u0[w] == s0[q].unwrap();
                    assert(strings_view(used@)[w] == u0[w]);
                } else {
                    assert(strings_view(used@)[u0.len() as int] == x@);
                }
            }
            assert(strings_view(used@).subrange(0, tv.len() as int) =~= u0.subrange(0, tv.len() as int));
        }
        j += 1;
    }
    let ghost used0 = strings_view(used@);
    let (new_ids, id_warnings) = match assign_ids(&mut slots, &mut used, project_id, rng) {
        Ok(x) => x,
        Err(e) => {
            proof {
                if let IdAssignmentError::RetryExhausted(_) = e {
                    let i = choose|i: int|
                        0 <= i < s0.len() && (#[trigger] s0[i]) is None && ((exists|u: Seq<char>|
                            used0.contains(u) && #[trigger] is_generated(u, project_id@)) || exists|q: int|
                            0 <= q < i && (#[trigger] s0[q]) is None);
                    if exists|u: Seq<char>| used0.contains(u) && #[trigger] is_generated(u, project_id@) {
                        let u = choose|u: Seq<char>| used0.contains(u) && #[trigger] is_generated(u, project_id@);
                        let w = choose|w: int| 0 <= w < used0.len() && used0[w] == u;
                        if w < tv.len() {
                            assert(tv[w] == u);
                            assert(tv.contains(u));
                            assert(tv.to_set().contains(u));
                        } else {
                            assert(s0.contains(Some(used0[w])));
                        }
                    }
                }
            }
            return Err(SyncError::IdAssignment(e));
        },
    };
    let ghost fin = slots_view(slots@);
    proof {
        assert forall|i: int| 0 <= i < s0.len() && s0[i] is None implies {
            &&& !recorded_ids(text_lines(used_ids@)).contains(#[trigger] fin[i].unwrap())
            &&& !s0.contains(fin[i])
        } by {
            let y = fin[i].unwrap();
            if tv.contains(y) {
                let w = choose|w: int| 0 <= w < tv.len() && tv[w] == y;
                assert(used0[w] == y);
            }
            assert(tv.to_set().contains(y) == tv.contains(y));
            if s0.contains(fin[i]) {
                let q = choose|q: int| 0 <= q < s0.len() && s0[q] == fin[i];
                assert(used0.contains(s0[q].unwrap()));
            }
        }
    }
    let ghost w0 = strings_view(warnings@);
    let mut id_warnings = id_warnings;
    warnings.append(&mut id_warnings);
    assert(strings_view(warnings@) =~= w0 + slot_warnings(s0, s0.len() as int, project_id@));
    let (output, pending) = render_sync(input, &slots, existing_items);
    let changed = !str_eq(output.as_str(), input);
    Ok(SyncPlan { output, changed, pending, slots, new_ids, warnings })
}

} // verus!
