//! What a sync pass promises of a second pass over its own output: nothing
//! changes.
use vstd::prelude::*;
use crate::backlog_file::{
    concat_entries, lemma_backlog_round_trip, lemma_region_round_trip, spec_backlog_parse,
    spec_file_serialize, spec_fm_body, spec_region, RegionView,
};
use crate::base32::is_b32;
use crate::bullet::{
    blocked_by_part, by_part, consumable, id_part, in_progress_part, is_id_token, is_name,
    lemma_bullet_round_trip, lemma_find_in_prefix, lemma_parsed_well_formed, lit_blocked_by,
    lit_by, lit_dash_space, lit_in_progress, marker_prefix, no_newline, spec_parse,
    spec_serialize, spec_try_blocked_by, spec_try_by, well_formed, BulletView,
};
use crate::region_shape::{
    bullet_line_shape, ends_nl, entries_shape, entry_shape, is_line_start,
    lemma_bullet_line_no_sep, lemma_concat_no_sep, lemma_file_reparse, lemma_no_sep_concat,
    lemma_no_sep_scan, lemma_parsed_no_sep, lemma_region_of_shape, lemma_region_shape,
    no_bullet_lines, no_sep_line,
};
use crate::base32::is_canonical_b32;
use crate::id_assignment::{filled, first_dup_slot, repeats, slots_view};
use crate::project_config::normalized_id;
use crate::sync_id::is_generated;
use crate::sync::{
    pending_view, sync_plan_post, SyncPlan, extracts, input_slots, lemma_parsed_slots_mono, lemma_parsed_slots_step,
    lemma_render_keeps_line_end, linked, parsed_slots, pending_writes, pointer_suffix,
    render_entries, rendered_entry, spec_sync_output, spec_sync_pending,
};
use crate::text::{
    ends_with, find_from, lemma_find_from, lemma_trim_end_id, lower, lower_char, starts_with,
    trim_end,
};

verus! {

/// How one entry is written back, as a bullet line and its notes.
pub open spec fn rendered_pair(
    e: (Seq<char>, Seq<char>),
    id: Option<Seq<char>>,
    existing: Seq<Seq<char>>,
) -> (Seq<char>, Seq<char>) {
    match spec_parse(e.0) {
        Ok(b) => (spec_serialize(linked(b, id, e.1, existing)), Seq::empty()),
        Err(_) => e,
    }
}

/// Every entry written back, the well-formed bullets taking their IDs from
/// `fin` in order.
pub open spec fn rendered_entries(
    es: Seq<(Seq<char>, Seq<char>)>,
    fin: Seq<Option<Seq<char>>>,
    existing: Seq<Seq<char>>,
) -> Seq<(Seq<char>, Seq<char>)> {
    Seq::new(
        es.len(),
        |i: int| rendered_pair(es[i], fin[parsed_slots(es, i).len() as int], existing),
    )
}

/// Writing the entries back one by one is writing back the list of written
/// entries.
pub proof fn lemma_render_is_concat(
    es: Seq<(Seq<char>, Seq<char>)>,
    n: int,
    fin: Seq<Option<Seq<char>>>,
    ex: Seq<Seq<char>>,
)
    requires
        0 <= n <= es.len(),
    ensures
        render_entries(es, n, fin, ex) == concat_entries(rendered_entries(es, fin, ex).take(n)),
    decreases n,
{
    let rs = rendered_entries(es, fin, ex);
    if n == 0 {
        assert(rs.take(0) =~= Seq::<(Seq<char>, Seq<char>)>::empty());
    } else {
        lemma_render_is_concat(es, n - 1, fin, ex);
        assert(rs.take(n).drop_last() =~= rs.take(n - 1));
        let p = rs[n - 1];
        assert(rs.take(n).last() == p);
        assert(rendered_entry(es[n - 1], fin[parsed_slots(es, n - 1).len() as int], ex) == p.0 + p.1)
            by {
            if spec_parse(es[n - 1].0) is Ok {
                assert(p.0 + p.1 =~= p.0);
            }
        }
        assert(render_entries(es, n, fin, ex) =~= concat_entries(rs.take(n - 1)) + p.0 + p.1);
    }
}

/// Concatenated texts without newlines have none.
pub proof fn lemma_no_newline_concat(a: Seq<char>, b: Seq<char>)
    requires
        no_newline(a),
        no_newline(b),
    ensures
        no_newline(a + b),
{
    assert forall|k: int| 0 <= k < (a + b).len() implies #[trigger] (a + b)[k] != '\n' by {
        if k < a.len() {
            assert((a + b)[k] == a[k]);
        } else {
            assert((a + b)[k] == b[k - a.len()]);
        }
    }
}

/// The characters of an ID token.
pub proof fn lemma_id_token_chars(x: Seq<char>)
    requires
        is_id_token(x),
    ensures
        forall|k: int| 0 <= k < x.len() ==> #[trigger] x[k] != '\n' && x[k] != ']' && x[k] != ' ',
{
    assert forall|k: int| 0 <= k < x.len() implies #[trigger] x[k] != '\n' && x[k] != ']' && x[k]
        != ' ' by {
        if k != 3 {
            assert(is_b32(x[k]));
        }
    }
}

/// The pointer suffix opens with a space and holds no newline and no `]`.
pub proof fn lemma_suffix_chars(x: Seq<char>)
    requires
        is_id_token(x),
    ensures
        pointer_suffix(x).len() > 0,
        pointer_suffix(x)[0] == ' ',
        pointer_suffix(x).last() == ')',
        forall|k: int|
            0 <= k < pointer_suffix(x).len() ==> #[trigger] pointer_suffix(x)[k] != '\n'
                && pointer_suffix(x)[k] != ']',
{
    reveal_strlit(" (see ./items/");
    reveal_strlit(".md)");
    lemma_id_token_chars(x);
    let a = " (see ./items/"@;
    let c = ".md)"@;
    let sfx = a + x + c;
    assert(pointer_suffix(x) == sfx);
    assert forall|k: int| 0 <= k < sfx.len() implies #[trigger] sfx[k] != '\n' && sfx[k] != ']' by {
        if k < a.len() {
            assert(sfx[k] == a[k]);
        } else if k < a.len() + x.len() {
            assert(sfx[k] == x[k - a.len()]);
        } else {
            assert(sfx[k] == c[k - a.len() - x.len()]);
        }
    }
}

/// A marker that the reader takes at the front of a title with the pointer
/// suffix it already takes at the front of the title alone.
proof fn lemma_suffix_not_consumable(t: Seq<char>, x: Seq<char>, b: BulletView)
    requires
        t.len() > 0,
        is_id_token(x),
        b.id is Some,
        consumable(t + pointer_suffix(x), b),
    ensures
        consumable(t, b),
{
    let sfx = pointer_suffix(x);
    let t2 = t + sfx;
    lemma_suffix_chars(x);
    assert(t2.subrange(0, t.len() as int) =~= t);
    assert(t2[t.len() as int] == ' ');
    if !b.in_progress && starts_with(t2, lit_in_progress()) {
        if t.len() < 13 {
            assert(t2.subrange(0, 13)[t.len() as int] == lit_in_progress()[t.len() as int]);
        } else {
            assert(t.subrange(0, 13) =~= t2.subrange(0, 13));
        }
    } else if b.by is None && spec_try_by(t2) is Some {
        if t.len() < 4 {
            assert(t2.subrange(0, 4)[t.len() as int] == lit_by()[t.len() as int]);
        } else {
            assert(t.subrange(0, 4) =~= t2.subrange(0, 4));
            lemma_find_from(t2, 4, ']');
            let c = find_from(t2, 4, ']').unwrap();
            if c >= t.len() {
                assert(t2[c] == sfx[c - t.len()]);
            }
            lemma_find_in_prefix(t, t2, 4, ']');
            assert(t.subrange(4, c) =~= t2.subrange(4, c));
        }
    } else {
        assert(spec_try_blocked_by(t2) is Some);
        if t.len() < 12 {
            assert(t2.subrange(0, 12)[t.len() as int] == lit_blocked_by()[t.len() as int]);
        } else {
            assert(t.subrange(0, 12) =~= t2.subrange(0, 12));
            lemma_find_from(t2, 12, ']');
            let c = find_from(t2, 12, ']').unwrap();
            if c >= t.len() {
                assert(t2[c] == sfx[c - t.len()]);
            }
            lemma_find_in_prefix(t, t2, 12, ']');
            assert(t.subrange(12, c) =~= t2.subrange(12, c));
        }
    }
}

/// A well-formed bullet with an assigned lowercase ID, linked, is still
/// well-formed, and its title still holds no newline.
pub proof fn lemma_linked_well_formed(
    b: BulletView,
    x: Seq<char>,
    notes: Seq<char>,
    ex: Seq<Seq<char>>,
)
    requires
        well_formed(b),
        no_newline(b.title),
        is_id_token(x),
        lower(x) == x,
    ensures
        well_formed(linked(b, Some(x), notes, ex)),
        no_newline(linked(b, Some(x), notes, ex).title),
{
    let b2 = linked(b, Some(x), notes, ex);
    let b1 = BulletView { id: Some(x), ..b };
    if b2.title == b.title {
        assert(b2 == BulletView { title: b.title, ..b1 });
        if b.title[0] == '[' && consumable(b.title, b2) {
            assert(consumable(b.title, b));
        }
    } else {
        let t2 = b.title + pointer_suffix(x);
        assert(b2.title == t2);
        lemma_suffix_chars(x);
        lemma_trim_end_id(t2);
        assert(t2[0] == b.title[0]);
        if t2[0] == '[' && consumable(t2, b2) {
            lemma_suffix_not_consumable(b.title, x, b2);
            assert(consumable(b.title, b));
        }
        assert(no_newline(pointer_suffix(x)));
        lemma_no_newline_concat(b.title, pointer_suffix(x));
    }
}

/// The canonical line of a well-formed bullet whose title holds no newline is
/// a bullet line that ends with its only newline.
pub proof fn lemma_serialize_line_shape(b: BulletView)
    requires
        well_formed(b),
        no_newline(b.title),
    ensures
        bullet_line_shape(spec_serialize(b)),
        spec_serialize(b).last() == '\n',
        spec_serialize(b).len() >= 4,
{
    let mp = marker_prefix(b);
    assert(no_newline(id_part(b))) by {
        if let Some(id) = b.id {
            lemma_id_token_chars(id);
            assert forall|k: int| 0 <= k < id_part(b).len() implies #[trigger] id_part(b)[k] != '\n' by {
                if 1 <= k < 1 + id.len() {
                    assert(id_part(b)[k] == id[k - 1]);
                }
            }
        }
    }
    assert(no_newline(in_progress_part(b)));
    assert(no_newline(by_part(b))) by {
        if let Some(n) = b.by {
            assert forall|k: int| 0 <= k < by_part(b).len() implies #[trigger] by_part(b)[k] != '\n' by {
                if 4 <= k < 4 + n.len() {
                    assert(by_part(b)[k] == n[k - 4]);
                    assert(crate::bullet::is_name_char(n[k - 4]));
                }
            }
        }
    }
    assert(no_newline(blocked_by_part(b))) by {
        if let Some(id) = b.blocked_by {
            lemma_id_token_chars(id);
            assert forall|k: int| 0 <= k < blocked_by_part(b).len() implies #[trigger] blocked_by_part(
                b,
            )[k] != '\n' by {
                if 12 <= k < 12 + id.len() {
                    assert(blocked_by_part(b)[k] == id[k - 12]);
                }
            }
        }
    }
    lemma_no_newline_concat(id_part(b), in_progress_part(b));
    lemma_no_newline_concat(id_part(b) + in_progress_part(b), by_part(b));
    lemma_no_newline_concat(id_part(b) + in_progress_part(b) + by_part(b), blocked_by_part(b));
    assert(no_newline(lit_dash_space()));
    lemma_no_newline_concat(lit_dash_space(), mp);
    lemma_no_newline_concat(lit_dash_space() + mp, b.title);
    let head = lit_dash_space() + mp + b.title;
    let line = spec_serialize(b);
    assert(line == head + seq!['\n']);
    assert forall|k: int| 0 <= k < line.len() - 1 implies #[trigger] line[k] != '\n' by {
        assert(line[k] == head[k]);
    }
    assert(line[0] == '-');
    assert(line[1] == ' ');
}

// ---------------------------------------------------------------------------
// Slots, pending writes and IDs over the written entries
// ---------------------------------------------------------------------------

/// The slot index of entry `i`: how many well-formed bullets precede it.
pub open spec fn slot_of(es: Seq<(Seq<char>, Seq<char>)>, i: int) -> int {
    parsed_slots(es, i).len() as int
}

/// Two slots of a list without repeated IDs hold different IDs.
pub proof fn lemma_no_dup_distinct(s: Seq<Option<Seq<char>>>, j: int)
    requires
        0 <= j,
        first_dup_slot(s, j) is None,
    ensures
        forall|a: int, b: int| 0 <= a < b < s.len() && j <= b && s[b] is Some ==> s[a] != s[b],
    decreases s.len() - j,
{
    if j < s.len() {
        assert(!repeats(s, j));
        lemma_no_dup_distinct(s, j + 1);
        assert forall|a: int, b: int| 0 <= a < b < s.len() && j <= b && s[b] is Some implies s[a]
            != s[b] by {
            if b == j && s[a] == s[b] {
                assert(repeats(s, j));
            }
        }
    }
}

/// Slot indices of well-formed bullets increase along the entries.
pub proof fn lemma_slots_increase(es: Seq<(Seq<char>, Seq<char>)>, j: int, i: int)
    requires
        0 <= j < i < es.len(),
        spec_parse(es[j].0) is Ok,
    ensures
        slot_of(es, j) < slot_of(es, i),
{
    lemma_parsed_slots_step(es, j);
    lemma_parsed_slots_mono(es, j + 1, i);
}

/// An ID among the pending writes comes from a well-formed bullet that
/// extracts its notes.
pub proof fn lemma_pending_id_source(
    es: Seq<(Seq<char>, Seq<char>)>,
    n: int,
    fin: Seq<Option<Seq<char>>>,
    x: Seq<char>,
)
    requires
        0 <= n <= es.len(),
        pending_writes(es, n, fin).map_values(|w: (Seq<char>, Seq<char>)| w.0).contains(x),
    ensures
        exists|j: int|
            0 <= j < n && spec_parse(es[j].0) is Ok && extracts(es[j].1, fin[slot_of(es, j)])
                && #[trigger] fin[slot_of(es, j)] == Some(x),
    decreases n,
{
    let ids = pending_writes(es, n, fin).map_values(|w: (Seq<char>, Seq<char>)| w.0);
    let q = choose|q: int| 0 <= q < ids.len() && ids[q] == x;
    let prev = pending_writes(es, n - 1, fin);
    let prev_ids = prev.map_values(|w: (Seq<char>, Seq<char>)| w.0);
    let id = fin[slot_of(es, n - 1)];
    if spec_parse(es[n - 1].0) is Ok && extracts(es[n - 1].1, id) {
        if q == prev.len() {
            assert(ids[q] == id.unwrap());
        } else {
            assert(prev_ids[q] == ids[q]);
            lemma_pending_id_source(es, n - 1, fin, x);
        }
    } else {
        assert(prev_ids[q] == ids[q]);
        lemma_pending_id_source(es, n - 1, fin, x);
    }
}

/// Written entries with empty notes ask for no item-file writes.
pub proof fn lemma_no_pending(es: Seq<(Seq<char>, Seq<char>)>, n: int, fin: Seq<Option<Seq<char>>>)
    requires
        0 <= n <= es.len(),
        forall|i: int| 0 <= i < es.len() && spec_parse(es[i].0) is Ok ==> #[trigger] es[i].1.len() == 0,
    ensures
        pending_writes(es, n, fin).len() == 0,
    decreases n,
{
    if n > 0 {
        lemma_no_pending(es, n - 1, fin);
        if spec_parse(es[n - 1].0) is Ok {
            assert(es[n - 1].1.len() == 0);
        }
    }
}

/// The text of entries is at least as long as any of their bullet lines.
pub proof fn lemma_concat_len(es: Seq<(Seq<char>, Seq<char>)>, i: int)
    requires
        0 <= i < es.len(),
    ensures
        concat_entries(es).len() >= es[i].0.len(),
    decreases es.len(),
{
    if i < es.len() - 1 {
        lemma_concat_len(es.drop_last(), i);
        assert(es.drop_last()[i] == es[i]);
    }
}

// ---------------------------------------------------------------------------
// The written entries
// ---------------------------------------------------------------------------

/// IDs fit to be assigned: every slot holds a lowercase ID token.
pub open spec fn valid_ids(fin: Seq<Option<Seq<char>>>) -> bool {
    forall|k: int|
        0 <= k < fin.len() ==> (#[trigger] fin[k] matches Some(x) && is_id_token(x) && lower(x) == x)
}

/// A well-formed bullet of the input, written back with its ID, reads back as
/// itself from a bullet line that ends with its only newline.
pub proof fn lemma_entry_written(
    es: Seq<(Seq<char>, Seq<char>)>,
    i: int,
    fin: Seq<Option<Seq<char>>>,
    ex: Seq<Seq<char>>,
)
    requires
        0 <= i < es.len(),
        entries_shape(es),
        valid_ids(fin),
        fin.len() == parsed_slots(es, es.len() as int).len(),
        spec_parse(es[i].0) is Ok,
    ensures
        slot_of(es, i) < fin.len(),
        ({
            let b = spec_parse(es[i].0).unwrap();
            let b2 = linked(b, fin[slot_of(es, i)], es[i].1, ex);
            let line = spec_serialize(b2);
            &&& well_formed(b2)
            &&& b2.id == fin[slot_of(es, i)]
            &&& spec_parse(line) == Ok::<BulletView, crate::bullet::BulletError>(b2)
            &&& bullet_line_shape(line)
            &&& line.last() == '\n'
            &&& line.len() >= 4
        }),
{
    lemma_parsed_slots_step(es, i);
    lemma_parsed_slots_mono(es, i + 1, es.len() as int);
    let k = slot_of(es, i);
    let b = spec_parse(es[i].0).unwrap();
    assert(entry_shape(es[i], i == es.len() - 1));
    lemma_parsed_well_formed(es[i].0);
    let x = fin[k].unwrap();
    assert(fin[k] matches Some(y) && is_id_token(y) && lower(y) == y);
    lemma_linked_well_formed(b, x, es[i].1, ex);
    let b2 = linked(b, fin[k], es[i].1, ex);
    lemma_bullet_round_trip(b2);
    lemma_serialize_line_shape(b2);
}

/// The written entries have the shape that reads back, a bullet line is
/// well-formed in them exactly where it was in the input, and every
/// well-formed one has empty notes.
pub proof fn lemma_rendered_shape(
    es: Seq<(Seq<char>, Seq<char>)>,
    fin: Seq<Option<Seq<char>>>,
    ex: Seq<Seq<char>>,
)
    requires
        entries_shape(es),
        valid_ids(fin),
        fin.len() == parsed_slots(es, es.len() as int).len(),
    ensures
        ({
            let es2 = rendered_entries(es, fin, ex);
            &&& es2.len() == es.len()
            &&& entries_shape(es2)
            &&& forall|i: int|
                0 <= i < es.len() ==> (spec_parse(#[trigger] es2[i].0) is Ok <==> spec_parse(
                    es[i].0,
                ) is Ok)
            &&& forall|i: int|
                0 <= i < es.len() && spec_parse(es[i].0) is Ok ==> #[trigger] es2[i].1.len() == 0
                    && spec_parse(es2[i].0) == Ok::<BulletView, crate::bullet::BulletError>(
                    linked(spec_parse(es[i].0).unwrap(), fin[slot_of(es, i)], es[i].1, ex),
                ) && es2[i].0.len() >= 4
            &&& forall|i: int| 0 <= i < es.len() && spec_parse(es[i].0) is Err ==> #[trigger] es2[i] == es[i]
        }),
{
    let es2 = rendered_entries(es, fin, ex);
    assert forall|i: int| 0 <= i < es.len() implies entry_shape(#[trigger] es2[i], i == es2.len() - 1)
        && (spec_parse(es2[i].0) is Ok <==> spec_parse(es[i].0) is Ok) && (spec_parse(es[i].0) is Ok
        ==> es2[i].1.len() == 0 && spec_parse(es2[i].0) == Ok::<BulletView, crate::bullet::BulletError>(
        linked(spec_parse(es[i].0).unwrap(), fin[slot_of(es, i)], es[i].1, ex),
    ) && es2[i].0.len() >= 4) && (spec_parse(es[i].0) is Err ==> es2[i] == es[i]) by {
        assert(entry_shape(es[i], i == es.len() - 1));
        if spec_parse(es[i].0) is Ok {
            lemma_entry_written(es, i, fin, ex);
            assert(no_bullet_lines(Seq::<char>::empty()));
        }
    }
}

/// The slots of the written entries are the assigned IDs, in order.
pub proof fn lemma_rendered_slots(
    es: Seq<(Seq<char>, Seq<char>)>,
    fin: Seq<Option<Seq<char>>>,
    ex: Seq<Seq<char>>,
    m: int,
)
    requires
        0 <= m <= es.len(),
        entries_shape(es),
        valid_ids(fin),
        fin.len() == parsed_slots(es, es.len() as int).len(),
    ensures
        parsed_slots(rendered_entries(es, fin, ex), m) == fin.take(slot_of(es, m)),
    decreases m,
{
    let es2 = rendered_entries(es, fin, ex);
    lemma_rendered_shape(es, fin, ex);
    lemma_parsed_slots_mono(es, m, es.len() as int);
    if m == 0 {
        assert(fin.take(0) =~= Seq::<Option<Seq<char>>>::empty());
    } else {
        lemma_rendered_slots(es, fin, ex, m - 1);
        lemma_parsed_slots_mono(es, m - 1, es.len() as int);
        if spec_parse(es[m - 1].0) is Ok {
            lemma_entry_written(es, m - 1, fin, ex);
            assert(spec_parse(es2[m - 1].0) is Ok);
            assert(fin.take(slot_of(es, m)) =~= fin.take(slot_of(es, m - 1)).push(fin[slot_of(es, m - 1)]));
        } else {
            assert(es2[m - 1] == es[m - 1]);
        }
    }
}

/// Linking a linked bullet again, without notes and with the item files that
/// exist once the first linking's writes are done, changes nothing.
pub proof fn lemma_relink_identity(
    b: BulletView,
    x: Seq<char>,
    notes: Seq<char>,
    ex: Seq<Seq<char>>,
    ex2: Seq<Seq<char>>,
)
    requires
        ex2.contains(x) <==> (extracts(notes, Some(x)) || ex.contains(x)),
    ensures
        linked(linked(b, Some(x), notes, ex), Some(x), Seq::empty(), ex2) == linked(
            b,
            Some(x),
            notes,
            ex,
        ),
{
    let b2 = linked(b, Some(x), notes, ex);
    let sfx = pointer_suffix(x);
    assert(!extracts(Seq::<char>::empty(), Some(x)));
    if ex2.contains(x) {
        if !ends_with(b.title, sfx) {
            let t = b.title + sfx;
            assert(t.subrange(t.len() - sfx.len(), t.len() as int) =~= sfx);
        }
        assert(ends_with(b2.title, sfx));
    }
}

/// The IDs of pending item-file writes.
pub open spec fn pending_ids(p: Seq<(Seq<char>, Seq<char>)>) -> Seq<Seq<char>> {
    p.map_values(|w: (Seq<char>, Seq<char>)| w.0)
}

/// Syncing the output of a sync pass once more changes nothing.
///
/// Take a pass over `input` that gave its well-formed bullets the IDs `fin`
/// (lowercase ID tokens, no two alike) with the item files `ex` on disk.
/// A second pass over its output, with the same IDs and the item files `ex2`
/// that exist after the first pass's writes, reads the same frontmatter, finds
/// exactly those IDs (so nothing is assigned), asks for no item-file write,
/// and writes back the output byte for byte.
#[verifier::spinoff_prover]
#[verifier::rlimit(60)]
pub proof fn lemma_sync_idempotent(
    input: Seq<char>,
    fin: Seq<Option<Seq<char>>>,
    ex: Seq<Seq<char>>,
    ex2: Seq<Seq<char>>,
)
    requires
        fin.len() == input_slots(input).len(),
        valid_ids(fin),
        first_dup_slot(fin, 0) is None,
        forall|x: Seq<char>|
            #[trigger] ex2.contains(x) <==> (ex.contains(x) || pending_ids(
                spec_sync_pending(input, fin),
            ).contains(x)),
    ensures
        ({
            let o = spec_sync_output(input, fin, ex);
            &&& spec_backlog_parse(o).frontmatter == spec_backlog_parse(input).frontmatter
            &&& input_slots(o) == fin
            &&& spec_sync_pending(o, fin).len() == 0
            &&& spec_sync_output(o, fin, ex2) == o
        }),
{
    let f = spec_backlog_parse(input);
    let pp = f.parsed;
    let r = spec_region(pp);
    let pre = r.preamble;
    let es = r.entries;
    let n = es.len() as int;
    let es2 = rendered_entries(es, fin, ex);
    let np = pre + render_entries(es, n, fin, ex);
    let o = spec_sync_output(input, fin, ex);
    assert(o == spec_file_serialize(f, np));
    lemma_render_is_concat(es, n, fin, ex);
    assert(es2.take(n) =~= es2);
    assert(np == pre + concat_entries(es2));
    // The shape of the input region and of the written one.
    lemma_region_shape(pp);
    lemma_rendered_shape(es, fin, ex);
    lemma_region_of_shape(pre, es2);
    assert(spec_region(np) == (RegionView { preamble: pre, entries: es2 }));
    // No separator line in the written region.
    lemma_region_round_trip(pp);
    assert(pp == pre + concat_entries(es));
    lemma_parsed_no_sep(spec_fm_body(input));
    assert forall|i: int| 0 <= i < es.len() - 1 implies ends_nl(#[trigger] es[i].0 + es[i].1) by {
        assert(entry_shape(es[i], false));
        if es[i].1.len() > 0 {
            assert((es[i].0 + es[i].1).last() == es[i].1.last());
        } else {
            assert(es[i].0 + es[i].1 =~= es[i].0);
        }
    }
    assert forall|i: int| 0 <= i < es2.len() - 1 implies ends_nl(#[trigger] es2[i].0 + es2[i].1) by {
        assert(entry_shape(es2[i], false));
        if es2[i].1.len() > 0 {
            assert((es2[i].0 + es2[i].1).last() == es2[i].1.last());
        } else {
            assert(es2[i].0 + es2[i].1 =~= es2[i].0);
        }
    }
    lemma_concat_no_sep(es);
    lemma_concat_no_sep(es2);
    if es.len() > 0 {
        lemma_no_sep_concat(pre, concat_entries(es));
        lemma_no_sep_concat(pre, concat_entries(es2));
    } else {
        assert(concat_entries(es) =~= Seq::<char>::empty());
        assert(concat_entries(es2) =~= Seq::<char>::empty());
        assert(pp =~= pre);
        assert(np =~= pre);
    }
    assert forall|i: int| 0 <= i < es2.len() implies no_sep_line(#[trigger] es2[i].0 + es2[i].1) by {
        if spec_parse(es[i].0) is Ok {
            lemma_entry_written(es, i, fin, ex);
            assert(es2[i].0 + es2[i].1 =~= es2[i].0);
            lemma_bullet_line_no_sep(es2[i].0);
        } else {
            assert(es2[i] == es[i]);
        }
    }
    assert(no_sep_line(np));
    lemma_no_sep_scan(np, 0);
    // A freeform region still follows a line end.
    lemma_backlog_round_trip(input);
    lemma_render_keeps_line_end(pp, fin, ex);
    // The written region cannot open a frontmatter block.
    if !f.frontmatter.present && np != pp {
        if forall|i: int| 0 <= i < es.len() ==> spec_parse(#[trigger] es[i].0) is Err {
            assert(es2 =~= es);
        }
        let i = choose|i: int| 0 <= i < es.len() && spec_parse(#[trigger] es[i].0) is Ok;
        lemma_concat_len(es2, i);
        assert(is_line_start(np, 0));
    }
    lemma_file_reparse(input, np);
    let f2 = spec_backlog_parse(o);
    assert(f2.parsed == np);
    // The second pass finds the assigned IDs.
    lemma_rendered_slots(es, fin, ex, n);
    assert(fin.take(fin.len() as int) =~= fin);
    assert(input_slots(o) == fin);
    // It asks for no writes.
    lemma_no_pending(es2, n, fin);
    // It writes every entry back as it is.
    lemma_no_dup_distinct(fin, 0);
    let es3 = rendered_entries(es2, fin, ex2);
    assert forall|i: int| 0 <= i < es2.len() implies #[trigger] es3[i] == es2[i] by {
        lemma_rendered_slots(es, fin, ex, i);
        lemma_parsed_slots_mono(es, i, n);
        assert(slot_of(es2, i) == slot_of(es, i));
        if spec_parse(es[i].0) is Ok {
            lemma_entry_written(es, i, fin, ex);
            let k = slot_of(es, i);
            let x = fin[k].unwrap();
            let b = spec_parse(es[i].0).unwrap();
            assert(ex2.contains(x) <==> (extracts(es[i].1, Some(x)) || ex.contains(x))) by {
                if pending_ids(spec_sync_pending(input, fin)).contains(x) {
                    lemma_pending_id_source(es, n, fin, x);
                    let j = choose|j: int|
                        0 <= j < n && spec_parse(es[j].0) is Ok && extracts(
                            es[j].1,
                            fin[slot_of(es, j)],
                        ) && #[trigger] fin[slot_of(es, j)] == Some(x);
                    if j != i {
                        lemma_parsed_slots_mono(es, j, n);
                        lemma_entry_written(es, j, fin, ex);
                        if j < i {
                            lemma_slots_increase(es, j, i);
                        } else {
                            lemma_slots_increase(es, i, j);
                        }
                    }
                }
                if extracts(es[i].1, Some(x)) {
                    assert(spec_sync_pending(input, fin) == pending_writes(es, n, fin));
                    lemma_pending_has(es, n, fin, i);
                }
            }
            lemma_relink_identity(b, x, es[i].1, ex, ex2);
        } else {
            assert(es2[i] == es[i]);
        }
    }
    assert(es3 =~= es2);
    lemma_render_is_concat(es2, n, fin, ex2);
    assert(es3.take(n) =~= es3);
    lemma_backlog_round_trip(o);
}

/// A well-formed bullet that extracts its notes has its ID among the pending
/// writes.
pub proof fn lemma_pending_has(
    es: Seq<(Seq<char>, Seq<char>)>,
    n: int,
    fin: Seq<Option<Seq<char>>>,
    i: int,
)
    requires
        0 <= i < n <= es.len(),
        spec_parse(es[i].0) is Ok,
        extracts(es[i].1, fin[slot_of(es, i)]),
    ensures
        pending_ids(pending_writes(es, n, fin)).contains(fin[slot_of(es, i)].unwrap()),
    decreases n,
{
    let prev = pending_writes(es, n - 1, fin);
    if i < n - 1 {
        lemma_pending_has(es, n - 1, fin, i);
        let ids = pending_ids(prev);
        let q = choose|q: int| 0 <= q < ids.len() && ids[q] == fin[slot_of(es, i)].unwrap();
        let id = fin[slot_of(es, n - 1)];
        if spec_parse(es[n - 1].0) is Ok && extracts(es[n - 1].1, id) {
            assert(pending_ids(pending_writes(es, n, fin))[q] == ids[q]);
        } else {
            assert(pending_writes(es, n, fin) == prev);
        }
    } else {
        let w = pending_writes(es, n, fin);
        assert(pending_ids(w)[prev.len() as int] == fin[slot_of(es, i)].unwrap());
    }
}

// ---------------------------------------------------------------------------
// The IDs a sync pass assigns
// ---------------------------------------------------------------------------

/// Every ID a region's well-formed bullets carry is a lowercase ID token.
pub proof fn lemma_input_slots_valid(es: Seq<(Seq<char>, Seq<char>)>, n: int)
    requires
        0 <= n <= es.len(),
    ensures
        forall|k: int|
            0 <= k < parsed_slots(es, n).len() ==> (#[trigger] parsed_slots(es, n)[k] matches Some(x)
                ==> is_id_token(x) && lower(x) == x),
    decreases n,
{
    if n > 0 {
        lemma_input_slots_valid(es, n - 1);
        lemma_parsed_well_formed(es[n - 1].0);
        if spec_parse(es[n - 1].0) is Ok {
            let prev = parsed_slots(es, n - 1);
            assert forall|k: int| 0 <= k < parsed_slots(es, n).len() implies (#[trigger] parsed_slots(
                es,
                n,
            )[k] matches Some(x) ==> is_id_token(x) && lower(x) == x) by {
                if k < prev.len() {
                    assert(parsed_slots(es, n)[k] == prev[k]);
                }
            }
        }
    }
}

/// A generated ID for a stored project ID is a lowercase ID token.
pub proof fn lemma_generated_valid(c: Seq<char>, project: Seq<char>)
    requires
        normalized_id(project) == Ok::<Seq<char>, crate::base32::Base32Error>(project),
        is_generated(c, project),
    ensures
        is_id_token(c),
        lower(c) == c,
{
    crate::base32::lemma_validate_ok(project, 3);
    assert(project.len() == 3);
    assert forall|k: int| 0 <= k < 3 implies #[trigger] c[k] == project[k] by {
        assert(c.subrange(0, 3)[k] == c[k]);
    }
    assert(lower(project) == project);
    assert forall|k: int| 0 <= k < 3 implies is_b32(#[trigger] c[k]) && lower_char(c[k]) == c[k] by {
        assert(lower(project)[k] == lower_char(project[k]));
    }
    assert(is_canonical_b32(c[4]) && is_canonical_b32(c[5]) && is_canonical_b32(c[6]));
    assert(lower(c) =~= c) by {
        assert forall|k: int| 0 <= k < c.len() implies lower(c)[k] == c[k] by {
            if k > 3 {
                assert(is_canonical_b32(c[k]));
            }
        }
    }
}

/// Distinct filled IDs, read from the list of new IDs.
pub proof fn lemma_filled_distinct(
    s0: Seq<Option<Seq<char>>>,
    fin: Seq<Option<Seq<char>>>,
    n: int,
)
    requires
        0 <= n <= s0.len(),
        n <= fin.len(),
        filled(s0, fin, n).no_duplicates(),
    ensures
        forall|i: int, j: int|
            0 <= i < j < n && s0[i] is None && s0[j] is None ==> #[trigger] fin[i].unwrap() != #[trigger] fin[j].unwrap(),
        forall|i: int| 0 <= i < n && s0[i] is None ==> filled(s0, fin, n).contains(#[trigger] fin[i].unwrap()),
    decreases n,
{
    if n > 0 {
        let prev = filled(s0, fin, n - 1);
        if s0[n - 1] is None {
            assert(prev =~= filled(s0, fin, n).drop_last());
            assert forall|a: int, b: int| 0 <= a < b < prev.len() implies prev[a] != prev[b] by {
                assert(filled(s0, fin, n)[a] == prev[a]);
                assert(filled(s0, fin, n)[b] == prev[b]);
            }
        }
        lemma_filled_distinct(s0, fin, n - 1);
        let cur = filled(s0, fin, n);
        assert forall|i: int| 0 <= i < n && s0[i] is None implies cur.contains(#[trigger] fin[i].unwrap()) by {
            if i < n - 1 {
                let q = choose|q: int| 0 <= q < prev.len() && prev[q] == fin[i].unwrap();
                if s0[n - 1] is None {
                    assert(cur[q] == prev[q]);
                }
            } else {
                assert(cur[prev.len() as int] == fin[i].unwrap());
            }
        }
        assert forall|i: int, j: int|
            0 <= i < j < n && s0[i] is None && s0[j] is None implies #[trigger] fin[i].unwrap() != #[trigger] fin[j].unwrap() by {
            if j == n - 1 {
                let q = choose|q: int| 0 <= q < prev.len() && prev[q] == fin[i].unwrap();
                assert(cur[q] == prev[q]);
                assert(cur[prev.len() as int] == fin[j].unwrap());
            }
        }
    }
}

/// A list of slots with pairwise different IDs repeats none.
pub proof fn lemma_distinct_no_dup(s: Seq<Option<Seq<char>>>, j: int)
    requires
        0 <= j,
        forall|a: int, b: int| 0 <= a < b < s.len() && s[b] is Some ==> s[a] != s[b],
    ensures
        first_dup_slot(s, j) is None,
    decreases s.len() - j,
{
    if j < s.len() {
        lemma_distinct_no_dup(s, j + 1);
    }
}

/// Syncing the output of a successful sync pass once more changes nothing.
///
/// Whatever IDs `sync_plan` drew for `input` (under a stored project ID, with
/// the item files `ex`), the IDs it reports meet what
/// [`lemma_sync_idempotent`] needs: a second pass over its output, with the
/// item files `ex2` that exist once the first pass's writes are done, finds
/// those IDs, assigns none, writes no item file and reproduces the output.
pub proof fn lemma_sync_plan_fixed_point(
    input: Seq<char>,
    project: Seq<char>,
    used_ids: Seq<char>,
    fin: Seq<Option<Seq<char>>>,
    new_ids: Seq<Seq<char>>,
    ex: Seq<Seq<char>>,
    ex2: Seq<Seq<char>>,
)
    requires
        normalized_id(project) == Ok::<Seq<char>, crate::base32::Base32Error>(project),
        first_dup_slot(input_slots(input), 0) is None,
        fin.len() == input_slots(input).len(),
        forall|i: int|
            0 <= i < fin.len() && input_slots(input)[i] is Some ==> #[trigger] fin[i]
                == input_slots(input)[i],
        forall|i: int|
            0 <= i < fin.len() && input_slots(input)[i] is None ==> {
                &&& #[trigger] fin[i] is Some
                &&& is_generated(fin[i].unwrap(), project)
                &&& !input_slots(input).contains(fin[i])
            },
        new_ids == filled(input_slots(input), fin, fin.len() as int),
        new_ids.no_duplicates(),
        forall|x: Seq<char>|
            #[trigger] ex2.contains(x) <==> (ex.contains(x) || pending_ids(
                spec_sync_pending(input, fin),
            ).contains(x)),
    ensures
        first_dup_slot(fin, 0) is None,
        ({
            let o = spec_sync_output(input, fin, ex);
            &&& spec_backlog_parse(o).frontmatter == spec_backlog_parse(input).frontmatter
            &&& input_slots(o) == fin
            &&& spec_sync_pending(o, fin).len() == 0
            &&& spec_sync_output(o, fin, ex2) == o
        }),
{
    let s0 = input_slots(input);
    let es = crate::sync::input_entries(input);
    lemma_input_slots_valid(es, es.len() as int);
    assert(valid_ids(fin)) by {
        assert forall|k: int| 0 <= k < fin.len() implies (#[trigger] fin[k] matches Some(x)
            && is_id_token(x) && lower(x) == x) by {
            if s0[k] is None {
                lemma_generated_valid(fin[k].unwrap(), project);
            }
        }
    }
    lemma_no_dup_distinct(s0, 0);
    lemma_filled_distinct(s0, fin, fin.len() as int);
    assert forall|a: int, b: int| 0 <= a < b < fin.len() && fin[b] is Some implies fin[a] != fin[b] by {
        if s0[a] is Some && s0[b] is Some {
        } else if s0[a] is None && s0[b] is None {
            assert(fin[a].unwrap() != fin[b].unwrap());
        } else if s0[a] is None {
            assert(s0[b] == fin[b]);
            if fin[a] == fin[b] {
                assert(s0.contains(fin[a]));
            }
        } else {
            assert(s0[a] == fin[a]);
            if fin[a] == fin[b] {
                assert(s0.contains(fin[b]));
            }
        }
    }
    lemma_distinct_no_dup(fin, 0);
    lemma_sync_idempotent(input, fin, ex, ex2);
}

/// The IDs filled into empty slots are those slots' new IDs.
proof fn lemma_filled_generated(
    s0: Seq<Option<Seq<char>>>,
    fin: Seq<Option<Seq<char>>>,
    project: Seq<char>,
    n: int,
)
    requires
        0 <= n <= s0.len() <= fin.len(),
        forall|i: int|
            0 <= i < s0.len() && s0[i] is None ==> (#[trigger] fin[i]) is Some && is_generated(
                fin[i].unwrap(),
                project,
            ),
    ensures
        forall|k: int|
            0 <= k < filled(s0, fin, n).len() ==> is_generated(#[trigger] filled(s0, fin, n)[k], project),
    decreases n,
{
    if n > 0 {
        lemma_filled_generated(s0, fin, project, n - 1);
        if s0[n - 1] is None {
            let p = filled(s0, fin, n - 1);
            assert forall|k: int| 0 <= k < p.push(fin[n - 1].unwrap()).len() implies is_generated(
                #[trigger] p.push(fin[n - 1].unwrap())[k],
                project,
            ) by {
                if k < p.len() {
                    assert(p.push(fin[n - 1].unwrap())[k] == p[k]);
                }
            }
        }
    }
}

/// Slots that all hold an ID have nothing filled in.
proof fn lemma_filled_none(s0: Seq<Option<Seq<char>>>, fin: Seq<Option<Seq<char>>>, n: int)
    requires
        0 <= n <= s0.len(),
        forall|i: int| 0 <= i < s0.len() ==> (#[trigger] s0[i]) is Some,
    ensures
        filled(s0, fin, n).len() == 0,
    decreases n,
{
    if n > 0 {
        lemma_filled_none(s0, fin, n - 1);
    }
}

/// Syncing twice: a second `sync_plan` over the output of a successful one,
/// with `.used-ids` holding what it held plus the IDs the first pass
/// assigned and the item files that exist once its writes are done, succeeds,
/// keeps every ID, assigns none, asks for no item-file write and gives back
/// its input unchanged, so nothing is written (for a stored, normalized
/// project ID).
pub proof fn lemma_second_sync_plan(
    input: Seq<char>,
    used1: Seq<char>,
    project: Seq<char>,
    ex: Seq<Seq<char>>,
    p1: SyncPlan,
    ex2: Seq<Seq<char>>,
    r2: Result<SyncPlan, crate::sync::SyncError>,
)
    requires
        normalized_id(project) == Ok::<Seq<char>, crate::base32::Base32Error>(project),
        sync_plan_post(input, used1, project, ex, Ok::<SyncPlan, crate::sync::SyncError>(p1)),
        forall|x: Seq<char>|
            #[trigger] ex2.contains(x) <==> (ex.contains(x) || pending_ids(
                pending_view(p1.pending@),
            ).contains(x)),
        sync_plan_post(
            p1.output@,
            used1 + crate::tombstone::spec_append_text(used1, crate::tombstone::strings_view(p1.new_ids@)),
            project,
            ex2,
            r2,
        ),
    ensures
        r2 matches Ok(p2) && p2.output@ == p1.output@ && !p2.changed && p2.pending@.len() == 0
            && p2.new_ids@.len() == 0 && slots_view(p2.slots@) == slots_view(p1.slots@),
{
    let s0 = input_slots(input);
    let fin = slots_view(p1.slots@);
    let new_ids = crate::tombstone::strings_view(p1.new_ids@);
    lemma_sync_plan_fixed_point(input, project, used1, fin, new_ids, ex, ex2);
    let o = p1.output@;
    assert(o == spec_sync_output(input, fin, ex));
    // The second pass reads a well-formed `.used-ids`.
    lemma_filled_generated(s0, fin, project, s0.len() as int);
    assert forall|k: int| 0 <= k < new_ids.len() implies is_id_token(#[trigger] new_ids[k]) by {
        lemma_generated_valid(new_ids[k], project);
    }
    crate::tombstone_laws::lemma_first_bad_id_from(new_ids, 0);
    crate::tombstone_laws::lemma_append_then_read(used1, new_ids);
    // Every slot of the output holds an ID, so none is drawn.
    assert forall|i: int| 0 <= i < fin.len() implies (#[trigger] fin[i]) is Some by {
        if s0[i] is Some {
            assert(fin[i] == s0[i]);
        }
    }
    assert(input_slots(o) == fin);
    if let Ok(p2) = r2 {
        let fin2 = slots_view(p2.slots@);
        assert(fin2 =~= fin) by {
            assert forall|i: int| 0 <= i < fin.len() implies fin2[i] == fin[i] by {
                assert(input_slots(o)[i] is Some);
            }
        }
        lemma_filled_none(fin, fin2, fin.len() as int);
        assert(pending_view(p2.pending@).len() == p2.pending@.len());
    } else {
        match r2 {
            Err(crate::sync::SyncError::IdAssignment(
                crate::id_assignment::IdAssignmentError::RetryExhausted(_),
            )) => {
                let i = choose|i: int| 0 <= i < input_slots(o).len() && (#[trigger] input_slots(o)[i]) is None;
                assert(fin[i] is Some);
            },
            _ => {},
        }
    }
}

} // verus!
