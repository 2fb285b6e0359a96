//! What the bullet-editing commands' new text reads back as.
use vstd::prelude::*;
use crate::backlog_file::{
    concat_entries, lemma_concat_entries_cons, sep, lemma_backlog_round_trip, lemma_region_round_trip, lemma_replace_ends_line,
    replace_bullet, spec_backlog_parse, spec_file_serialize, spec_fm_body, spec_region,
    RegionView,
};
use crate::bullet::{
    consumable, is_name, lemma_bullet_round_trip, lemma_parsed_well_formed, no_newline, spec_parse,
    spec_serialize, well_formed, BulletError, BulletView,
};
use crate::commands::{
    completed_output, completing_entries, completing_entry, entries_of, lemma_completing_ends_line,
    replaced_output, with_blocker, with_claim,
};
use crate::region_shape::{
    bullet_line_shape, ends_nl, entries_shape, entry_shape, is_line_start, lemma_bullet_line_no_sep,
    lemma_concat_no_sep, lemma_file_reparse, lemma_no_sep_concat, lemma_no_sep_scan,
    lemma_parsed_no_sep, lemma_region_of_shape, lemma_region_shape, no_sep_line,
};
use crate::sync_laws::{lemma_concat_len, lemma_serialize_line_shape};
use crate::text::occurs_at;

verus! {

/// A bullet read from an entry of a backlog is well-formed and its title is
/// on one line.
pub proof fn lemma_entry_bullet(input: Seq<char>, i: int)
    requires
        0 <= i < entries_of(input).len(),
    ensures
        spec_parse(entries_of(input)[i].0) matches Ok(b) ==> well_formed(b) && no_newline(b.title),
{
    let es = entries_of(input);
    lemma_region_shape(spec_backlog_parse(input).parsed);
    assert(entry_shape(es[i], i == es.len() - 1));
    lemma_parsed_well_formed(es[i].0);
}

/// Every entry but the last of a region ends a line.
proof fn lemma_entries_end_lines(es: Seq<(Seq<char>, Seq<char>)>)
    requires
        entries_shape(es),
    ensures
        forall|i: int| 0 <= i < es.len() - 1 ==> ends_nl(#[trigger] es[i].0 + es[i].1),
{
    assert forall|i: int| 0 <= i < es.len() - 1 implies ends_nl(#[trigger] es[i].0 + es[i].1) by {
        assert(entry_shape(es[i], false));
        if es[i].1.len() > 0 {
            assert((es[i].0 + es[i].1).last() == es[i].1.last());
        } else {
            assert(es[i].0 + es[i].1 =~= es[i].0);
        }
    }
}

/// A backlog written back with one entry's bullet line replaced by the
/// canonical line of a well-formed bullet reads back with the same
/// frontmatter, preamble and freeform region, and the same entries but that
/// one, whose bullet line is the new line and reads as the bullet.
pub proof fn lemma_replaced_reparse(input: Seq<char>, idx: int, b: BulletView)
    requires
        0 <= idx < entries_of(input).len(),
        well_formed(b),
        no_newline(b.title),
    ensures
        ({
            let o = replaced_output(input, idx, spec_serialize(b));
            let f = spec_backlog_parse(input);
            &&& spec_backlog_parse(o).frontmatter == f.frontmatter
            &&& spec_backlog_parse(o).freeform == f.freeform
            &&& spec_region(spec_backlog_parse(o).parsed).preamble == spec_region(f.parsed).preamble
            &&& entries_of(o) == replace_bullet(entries_of(input), idx, spec_serialize(b))
            &&& spec_parse(entries_of(o)[idx].0) == Ok::<BulletView, BulletError>(b)
        }),
{
    let f = spec_backlog_parse(input);
    let pp = f.parsed;
    let r = spec_region(pp);
    let pre = r.preamble;
    let es = r.entries;
    let line = spec_serialize(b);
    lemma_serialize_line_shape(b);
    lemma_bullet_round_trip(b);
    let es2 = replace_bullet(es, idx, line);
    assert(es2 == es.update(idx, (line, es[idx].1)));
    let np = pre + concat_entries(es2);
    let o = replaced_output(input, idx, line);
    assert(o == spec_file_serialize(f, np));
    // The written region has the shape that reads back.
    lemma_region_shape(pp);
    assert forall|i: int| 0 <= i < es2.len() implies entry_shape(#[trigger] es2[i], i == es2.len() - 1) by {
        assert(entry_shape(es[i], i == es.len() - 1));
    }
    lemma_region_of_shape(pre, es2);
    // It holds no separator line.
    lemma_region_round_trip(pp);
    lemma_parsed_no_sep(spec_fm_body(input));
    lemma_entries_end_lines(es);
    lemma_entries_end_lines(es2);
    lemma_concat_no_sep(es);
    lemma_concat_no_sep(es2);
    lemma_no_sep_concat(pre, concat_entries(es));
    lemma_no_sep_concat(pre, concat_entries(es2));
    assert forall|i: int| 0 <= i < es2.len() implies no_sep_line(#[trigger] es2[i].0 + es2[i].1) by {
        if i == idx {
            let old = es[idx];
            assert(no_sep_line(es[i].0 + es[i].1));
            assert(entry_shape(old, idx == es.len() - 1));
            lemma_bullet_line_no_sep(line);
            if old.1.len() > 0 {
                lemma_no_sep_concat(old.0, old.1);
                lemma_no_sep_concat(line, old.1);
            } else {
                assert(line + old.1 =~= line);
            }
        }
    }
    assert(no_sep_line(np));
    lemma_no_sep_scan(np, 0);
    // A freeform region still follows a line end.
    lemma_backlog_round_trip(input);
    if f.freeform is Some {
        lemma_replace_ends_line(pp, idx, line);
    }
    // The written region cannot open a frontmatter block.
    lemma_concat_len(es2, idx);
    assert(is_line_start(np, 0));
    lemma_file_reparse(input, np);
}

/// `start` writes a bullet that reads back in progress and claimed by the
/// user, for a user name that a `[by:...]` marker can hold; nothing else in
/// the file changes.
pub proof fn lemma_start_reads_back(input: Seq<char>, i: int, name: Seq<char>)
    requires
        0 <= i < entries_of(input).len(),
        spec_parse(entries_of(input)[i].0) is Ok,
        is_name(name),
    ensures
        ({
            let b = spec_parse(entries_of(input)[i].0).unwrap();
            let o = replaced_output(input, i, spec_serialize(with_claim(b, name)));
            &&& spec_backlog_parse(o).frontmatter == spec_backlog_parse(input).frontmatter
            &&& spec_backlog_parse(o).freeform == spec_backlog_parse(input).freeform
            &&& entries_of(o).len() == entries_of(input).len()
            &&& forall|j: int| 0 <= j < entries_of(o).len() && j != i ==> #[trigger] entries_of(o)[j] == entries_of(input)[j]
            &&& entries_of(o)[i].1 == entries_of(input)[i].1
            &&& spec_parse(entries_of(o)[i].0) == Ok::<BulletView, BulletError>(with_claim(b, name))
        }),
{
    let b = spec_parse(entries_of(input)[i].0).unwrap();
    lemma_entry_bullet(input, i);
    let c = with_claim(b, name);
    if c.title[0] == '[' && consumable(c.title, c) {
        assert(consumable(b.title, b));
    }
    lemma_replaced_reparse(input, i, c);
}

/// `block` writes a bullet that reads back blocked by the blocker it was
/// given (an ID that a bullet carries, lowercased); `unblock` (`None`) one
/// that reads back unblocked. Nothing else in the file changes.
pub proof fn lemma_blocker_reads_back(input: Seq<char>, i: int, blocker: Option<Seq<char>>)
    requires
        0 <= i < entries_of(input).len(),
        spec_parse(entries_of(input)[i].0) is Ok,
        blocker matches Some(x) ==> crate::bullet::is_id_token(x) && crate::text::lower(x) == x,
    ensures
        ({
            let b = spec_parse(entries_of(input)[i].0).unwrap();
            let o = replaced_output(input, i, spec_serialize(with_blocker(b, blocker)));
            &&& spec_backlog_parse(o).frontmatter == spec_backlog_parse(input).frontmatter
            &&& spec_backlog_parse(o).freeform == spec_backlog_parse(input).freeform
            &&& entries_of(o).len() == entries_of(input).len()
            &&& forall|j: int| 0 <= j < entries_of(o).len() && j != i ==> #[trigger] entries_of(o)[j] == entries_of(input)[j]
            &&& entries_of(o)[i].1 == entries_of(input)[i].1
            &&& spec_parse(entries_of(o)[i].0) == Ok::<BulletView, BulletError>(with_blocker(b, blocker))
        }),
{
    let b = spec_parse(entries_of(input)[i].0).unwrap();
    lemma_entry_bullet(input, i);
    let c = with_blocker(b, blocker);
    if c.title[0] == '[' && consumable(c.title, c) {
        assert(consumable(b.title, b));
    }
    lemma_replaced_reparse(input, i, c);
}

/// An entry as `done` writes it back: unblocked, in canonical form, when the
/// completed task blocked it; as it was otherwise.
pub open spec fn done_entry(e: (Seq<char>, Seq<char>), done_id: Seq<char>) -> (Seq<char>, Seq<char>) {
    match spec_parse(e.0) {
        Ok(b) => if b.blocked_by == Some(done_id) {
            (spec_serialize(with_blocker(b, None)), e.1)
        } else {
            e
        },
        Err(_) => e,
    }
}

/// The first `n` entries as `done` writes them back, without entry `target`.
pub open spec fn done_entries(
    es: Seq<(Seq<char>, Seq<char>)>,
    n: int,
    target: int,
    done_id: Seq<char>,
) -> Seq<(Seq<char>, Seq<char>)>
    decreases n,
{
    if n <= 0 || n > es.len() {
        Seq::empty()
    } else if n - 1 == target {
        done_entries(es, n - 1, target, done_id)
    } else {
        done_entries(es, n - 1, target, done_id).push(done_entry(es[n - 1], done_id))
    }
}

proof fn lemma_done_entries_concat(
    es: Seq<(Seq<char>, Seq<char>)>,
    n: int,
    target: int,
    done_id: Seq<char>,
)
    requires
        0 <= n <= es.len(),
    ensures
        concat_entries(done_entries(es, n, target, done_id)) == completing_entries(
            es,
            n,
            target,
            done_id,
        ),
    decreases n,
{
    if n > 0 {
        lemma_done_entries_concat(es, n - 1, target, done_id);
        let p = done_entries(es, n - 1, target, done_id);
        if n - 1 == target {
            assert(completing_entries(es, n - 1, target, done_id) + Seq::<char>::empty()
                =~= completing_entries(es, n - 1, target, done_id));
        } else {
            let x = done_entry(es[n - 1], done_id);
            assert(p.push(x).drop_last() =~= p);
            assert(completing_entry(es[n - 1], done_id) == x.0 + x.1);
            assert(concat_entries(p.push(x)) =~= concat_entries(p) + (x.0 + x.1));
        }
    } else {
        assert(concat_entries(done_entries(es, n, target, done_id)) =~= Seq::<char>::empty());
    }
}

/// Where each entry that `done` writes back comes from.
proof fn lemma_done_entries_index(
    es: Seq<(Seq<char>, Seq<char>)>,
    n: int,
    target: int,
    done_id: Seq<char>,
)
    requires
        0 <= n <= es.len(),
        0 <= target,
    ensures
        done_entries(es, n, target, done_id).len() == if target < n { n - 1 } else { n },
        forall|k: int|
            0 <= k < done_entries(es, n, target, done_id).len() ==> #[trigger] done_entries(
                es,
                n,
                target,
                done_id,
            )[k] == done_entry(es[if k < target { k } else { k + 1 }], done_id),
    decreases n,
{
    if n > 0 {
        lemma_done_entries_index(es, n - 1, target, done_id);
    }
}

/// `done` writes a backlog that reads back with the same frontmatter and
/// freeform region, without the task's entry, and with every other entry in
/// order: unblocked where the task blocked it, as it was otherwise.
///
/// One input is left out: without frontmatter, removing the only entry of a
/// backlog with no preamble and a freeform region leaves a file that opens
/// with the separator line, and that line then reads as the opening of a
/// frontmatter block.
pub proof fn lemma_done_reads_back(input: Seq<char>, target: int, done_id: Seq<char>)
    requires
        0 <= target < entries_of(input).len(),
        spec_backlog_parse(input).frontmatter.present || spec_backlog_parse(input).freeform is None
            || spec_region(spec_backlog_parse(input).parsed).preamble.len() > 0
            || entries_of(input).len() > 1,
    ensures
        ({
            let o = completed_output(input, target, done_id);
            let es = entries_of(input);
            &&& spec_backlog_parse(o).frontmatter == spec_backlog_parse(input).frontmatter
            &&& spec_backlog_parse(o).freeform == spec_backlog_parse(input).freeform
            &&& entries_of(o) == done_entries(es, es.len() as int, target, done_id)
        }),
{
    let f = spec_backlog_parse(input);
    let pp = f.parsed;
    let r = spec_region(pp);
    let pre = r.preamble;
    let es = r.entries;
    let n = es.len() as int;
    let es2 = done_entries(es, n, target, done_id);
    let np = pre + concat_entries(es2);
    let o = completed_output(input, target, done_id);
    lemma_done_entries_concat(es, n, target, done_id);
    assert(o == spec_file_serialize(f, np));
    lemma_done_entries_index(es, n, target, done_id);
    lemma_region_shape(pp);
    // Each written entry keeps the shape, and holds no separator line.
    lemma_region_round_trip(pp);
    lemma_parsed_no_sep(spec_fm_body(input));
    lemma_entries_end_lines(es);
    lemma_concat_no_sep(es);
    lemma_no_sep_concat(pre, concat_entries(es));
    assert forall|k: int| 0 <= k < es2.len() implies entry_shape(#[trigger] es2[k], k == es2.len() - 1)
        && no_sep_line(es2[k].0 + es2[k].1) by {
        let m = if k < target { k } else { k + 1 };
        let e = es[m];
        assert(entry_shape(es[m], m == es.len() - 1));
        assert(no_sep_line(es[m].0 + es[m].1));
        assert(m < es.len() - 1 ==> k < es2.len() - 1 || true);
        if k < es2.len() - 1 {
            assert(m < es.len() - 1);
        }
        lemma_entry_bullet(input, m);
        if let Ok(b) = spec_parse(e.0) {
            if b.blocked_by == Some(done_id) {
                let c = with_blocker(b, None);
                if c.title[0] == '[' && consumable(c.title, c) {
                    assert(consumable(b.title, b));
                }
                lemma_serialize_line_shape(c);
                let line = spec_serialize(c);
                lemma_bullet_line_no_sep(line);
                if e.1.len() > 0 {
                    lemma_no_sep_concat(e.0, e.1);
                    lemma_no_sep_concat(line, e.1);
                } else {
                    assert(line + e.1 =~= line);
                }
            }
        }
    }
    lemma_region_of_shape(pre, es2);
    lemma_entries_end_lines(es2);
    lemma_concat_no_sep(es2);
    if es2.len() > 0 {
        lemma_no_sep_concat(pre, concat_entries(es2));
    } else {
        assert(concat_entries(es2) =~= Seq::<char>::empty());
        assert(np =~= pre);
        assert(pp == pre + concat_entries(es));
        lemma_no_sep_concat(pre, concat_entries(es));
    }
    assert(no_sep_line(np));
    lemma_no_sep_scan(np, 0);
    // A freeform region still follows a line end.
    lemma_backlog_round_trip(input);
    if f.freeform is Some {
        lemma_completing_ends_line(pp, target, done_id);
    }
    // The written region cannot open a frontmatter block.
    if !f.frontmatter.present && f.freeform is Some && np != pp {
        if pre.len() >= 4 {
            assert(np.subrange(0, 4) =~= pre.subrange(0, 4));
            assert(pp.subrange(0, 4) =~= pre.subrange(0, 4));
            assert(is_line_start(pp, 0));
            assert(!occurs_at(np, 0, sep()));
        } else if pre.len() > 0 {
            assert(np[pre.len() - 1] == pre[pre.len() - 1]);
            assert(np[pre.len() - 1] != '-');
        } else {
            assert(es2.len() > 0);
            assert(entry_shape(es2[0], 0 == es2.len() - 1));
            lemma_concat_entries_cons(es2[0], es2.drop_first());
            assert(seq![es2[0]] + es2.drop_first() =~= es2);
            assert(np =~= es2[0].0 + es2[0].1 + concat_entries(es2.drop_first()));
            assert(np[1] == es2[0].0[1]);
        }
    } else if !f.frontmatter.present && np != pp && np.len() >= 4 {
        assert(is_line_start(np, 0));
    }
    lemma_file_reparse(input, np);
}

/// What `done` leaves of every other task: reading its output back gives,
/// in order, each entry but the completed one with its notes exactly as they
/// were. The bullet line of a task that the completed one blocked reads back
/// as the same bullet without that blocker; every other bullet line is
/// unchanged. Frontmatter and freeform region are kept. (The one input left
/// out is that of [`lemma_done_reads_back`].)
pub proof fn lemma_done_keeps_other_entries(input: Seq<char>, target: int, done_id: Seq<char>)
    requires
        0 <= target < entries_of(input).len(),
        spec_backlog_parse(input).frontmatter.present || spec_backlog_parse(input).freeform is None
            || spec_region(spec_backlog_parse(input).parsed).preamble.len() > 0
            || entries_of(input).len() > 1,
    ensures
        ({
            let o = completed_output(input, target, done_id);
            let es = entries_of(input);
            let es2 = entries_of(o);
            &&& spec_backlog_parse(o).frontmatter == spec_backlog_parse(input).frontmatter
            &&& spec_backlog_parse(o).freeform == spec_backlog_parse(input).freeform
            &&& es2.len() == es.len() - 1
            &&& forall|k: int|
                #![trigger es2[k]]
                0 <= k < es2.len() ==> {
                    let m = if k < target { k } else { k + 1 };
                    &&& es2[k].1 == es[m].1
                    &&& match spec_parse(es[m].0) {
                        Ok(b) => if b.blocked_by == Some(done_id) {
                            spec_parse(es2[k].0) == Ok::<BulletView, BulletError>(
                                BulletView { blocked_by: None, ..b },
                            )
                        } else {
                            es2[k].0 == es[m].0
                        },
                        Err(_) => es2[k].0 == es[m].0,
                    }
                }
        }),
{
    let es = entries_of(input);
    let n = es.len() as int;
    lemma_done_reads_back(input, target, done_id);
    lemma_done_entries_index(es, n, target, done_id);
    let es2 = entries_of(completed_output(input, target, done_id));
    assert forall|k: int| #![trigger es2[k]] 0 <= k < es2.len() implies {
        let m = if k < target { k } else { k + 1 };
        &&& es2[k].1 == es[m].1
        &&& match spec_parse(es[m].0) {
            Ok(b) => if b.blocked_by == Some(done_id) {
                spec_parse(es2[k].0) == Ok::<BulletView, BulletError>(
                    BulletView { blocked_by: None, ..b },
                )
            } else {
                es2[k].0 == es[m].0
            },
            Err(_) => es2[k].0 == es[m].0,
        }
    } by {
        let m = if k < target { k } else { k + 1 };
        assert(es2[k] == done_entry(es[m], done_id));
        lemma_entry_bullet(input, m);
        if let Ok(b) = spec_parse(es[m].0) {
            if b.blocked_by == Some(done_id) {
                let c = with_blocker(b, None);
                if c.title[0] == '[' && consumable(c.title, c) {
                    assert(consumable(b.title, b));
                }
                lemma_bullet_round_trip(c);
                assert(c == BulletView { blocked_by: None, ..b });
            }
        }
    }
}

} // verus!
