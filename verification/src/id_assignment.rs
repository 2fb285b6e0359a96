//! ID assignment over the ID slots of the well-formed bullets.
use vstd::prelude::*;
use rand::rngs::StdRng;
use crate::bullet::opt_string_view;
use crate::sync_id::{contains_str, dash_prefix, generate_id, is_generated};
use crate::text::{debug_quoted, debug_string, push_str, str_eq};
use crate::tombstone::strings_view;

verus! {

/// Why IDs could not be assigned.
#[derive(Debug, PartialEq, Eq)]
pub enum IdAssignmentError {
    /// Two slots carry the same ID.
    DuplicateId(String),
    /// No unused candidate turned up within 100 draws for this project prefix.
    RetryExhausted(String),
}

impl IdAssignmentError {
    /// The user-facing description.
    pub open spec fn message_text(&self) -> Seq<char> {
        match self {
            IdAssignmentError::DuplicateId(id) => "duplicate id in parsed region: "@ + id@,
            IdAssignmentError::RetryExhausted(p) => "ID generation exceeded 100 retries for project prefix "@
                + p@ + "; namespace may be full"@,
        }
    }

    /// The user-facing description.
    pub fn message(&self) -> (r: String)
        ensures
            r@ == self.message_text(),
    {
        let mut out = String::new();
        match self {
            IdAssignmentError::DuplicateId(id) => {
                push_str(&mut out, "duplicate id in parsed region: ");
                push_str(&mut out, id.as_str());
            },
            IdAssignmentError::RetryExhausted(p) => {
                push_str(&mut out, "ID generation exceeded 100 retries for project prefix ");
                push_str(&mut out, p.as_str());
                push_str(&mut out, "; namespace may be full");
            },
        }
        out
    }
}

pub open spec fn slots_view(v: Seq<Option<String>>) -> Seq<Option<Seq<char>>> {
    v.map_values(|o: Option<String>| opt_string_view(o))
}

/// Slot `j` repeats the ID of an earlier slot.
pub open spec fn repeats(s: Seq<Option<Seq<char>>>, j: int) -> bool {
    s[j] is Some && exists|k: int| 0 <= k < j && s[k] == s[j]
}

/// The ID of the first slot at or after `j` that repeats an earlier one.
pub open spec fn first_dup_slot(s: Seq<Option<Seq<char>>>, j: int) -> Option<Seq<char>>
    decreases s.len() - j,
{
    if j < 0 || j >= s.len() {
        None
    } else if repeats(s, j) {
        s[j]
    } else {
        first_dup_slot(s, j + 1)
    }
}

/// The warning for an existing ID whose prefix is not the project's.
pub open spec fn prefix_warning(id: Seq<char>, project: Seq<char>) -> Seq<char> {
    "warning: id "@ + debug_quoted(id) + " has prefix "@ + debug_quoted(dash_prefix(id))
        + ", expected "@ + debug_quoted(project) + "; leaving unchanged"@
}

/// The warnings for the first `n` slots.
pub open spec fn slot_warnings(s: Seq<Option<Seq<char>>>, n: int, project: Seq<char>) -> Seq<
    Seq<char>,
>
    decreases n,
{
    if n <= 0 || n > s.len() {
        Seq::empty()
    } else {
        let prev = slot_warnings(s, n - 1, project);
        match s[n - 1] {
            Some(x) => if dash_prefix(x) != project {
                prev.push(prefix_warning(x, project))
            } else {
                prev
            },
            None => prev,
        }
    }
}

/// The IDs that filling the empty slots among the first `n` put there, in
/// slot order.
pub open spec fn filled(old: Seq<Option<Seq<char>>>, fin: Seq<Option<Seq<char>>>, n: int) -> Seq<
    Seq<char>,
>
    decreases n,
{
    if n <= 0 {
        Seq::empty()
    } else if old[n - 1] is None {
        filled(old, fin, n - 1).push(fin[n - 1].unwrap())
    } else {
        filled(old, fin, n - 1)
    }
}

/// Composes the prefix warning from the already-quoted pieces.
pub fn prefix_warning_text(quoted_id: &str, quoted_prefix: &str, quoted_project: &str) -> (r:
    String)
    ensures
        r@ == "warning: id "@ + quoted_id@ + " has prefix "@ + quoted_prefix@ + ", expected "@
            + quoted_project@ + "; leaving unchanged"@,
{
    let mut out = String::new();
    push_str(&mut out, "warning: id ");
    push_str(&mut out, quoted_id);
    push_str(&mut out, " has prefix ");
    push_str(&mut out, quoted_prefix);
    push_str(&mut out, ", expected ");
    push_str(&mut out, quoted_project);
    push_str(&mut out, "; leaving unchanged");
    out
}

fn dash_prefix_of(x: &String) -> (r: String)
    ensures
        r@ == dash_prefix(x@),
{
    let v = crate::text::chars_of(x.as_str());
    proof {
        crate::text::lemma_find_from(v@, 0, '-');
    }
    match crate::text::find_char_from(&v, 0, '-') {
        Some(k) => crate::text::string_from(&v, 0, k),
        None => crate::text::string_of(&v),
    }
}

fn opt_eq(a: &Option<String>, b: &Option<String>) -> (r: bool)
    ensures
        r == (opt_string_view(*a) == opt_string_view(*b)),
{
    match (a, b) {
        (Some(x), Some(y)) => *x == *y,
        (None, None) => true,
        _ => false,
    }
}

/// Fills every empty slot with a fresh `<project>-<3 chars>` ID that is not in
/// `used` (which holds the tombstoned IDs and every ID already in a slot) and
/// adds each new ID to `used`. Two slots with the same ID are refused before
/// anything is filled. Returns the new IDs in slot order and a warning for
/// every existing ID whose prefix is not `project_id`.
pub fn assign_ids(
    entry_ids: &mut Vec<Option<String>>,
    used: &mut Vec<String>,
    project_id: &str,
    rng: &mut StdRng,
) -> (r: Result<(Vec<String>, Vec<String>), IdAssignmentError>)
    requires
        first_dup_slot(slots_view(old(entry_ids)@), 0) is None ==> forall|i: int|
            0 <= i < old(entry_ids)@.len() && old(entry_ids)@[i] is Some ==> strings_view(
                old(used)@,
            ).contains(#[trigger] slots_view(old(entry_ids)@)[i].unwrap()),
    ensures
        ({
            let old_s = slots_view(old(entry_ids)@);
            let fin = slots_view(final(entry_ids)@);
            match r {
                Ok((new_ids, warnings)) => {
                    &&& first_dup_slot(old_s, 0) is None
                    &&& fin.len() == old_s.len()
                    &&& forall|i: int| 0 <= i < old_s.len() && old_s[i] is Some ==> #[trigger] fin[i]
                        == old_s[i]
                    &&& forall|i: int|
                        0 <= i < old_s.len() && old_s[i] is None ==> #[trigger] fin[i] is Some
                            && is_generated(fin[i].unwrap(), project_id@) && !strings_view(
                            old(used)@,
                        ).contains(fin[i].unwrap())
                    &&& strings_view(new_ids@) == filled(old_s, fin, old_s.len() as int)
                    &&& strings_view(new_ids@).no_duplicates()
                    &&& strings_view(final(used)@) == strings_view(old(used)@) + strings_view(
                        new_ids@,
                    )
                    &&& strings_view(warnings@) == slot_warnings(
                        old_s,
                        old_s.len() as int,
                        project_id@,
                    )
                },
                Err(IdAssignmentError::DuplicateId(x)) => first_dup_slot(old_s, 0) == Some(x@)
                    && fin == old_s && final(used)@ == old(used)@,
                Err(IdAssignmentError::RetryExhausted(p)) => p@ == project_id@ && first_dup_slot(
                    old_s,
                    0,
                ) is None && exists|i: int| 0 <= i < old_s.len() && (#[trigger] old_s[i]) is None && (
                (exists|u: Seq<char>|
                    strings_view(old(used)@).contains(u) && #[trigger] is_generated(u, project_id@))
                    || exists|q: int| 0 <= q < i && (#[trigger] old_s[q]) is None),
            }
        }),
{
    let ghost old_s = slots_view(entry_ids@);
    let ghost old_used = strings_view(used@);
    let n = entry_ids.len();
    // Duplicates are detected before any slot is filled.
    let mut j: usize = 0;
    while j < n
        invariant
            j <= n == entry_ids@.len(),
            entry_ids@ == old(entry_ids)@,
            used@ == old(used)@,
            old_s == slots_view(entry_ids@),
            first_dup_slot(old_s, 0) == first_dup_slot(old_s, j as int),
        decreases n - j,
    {
        if entry_ids[j].is_some() {
            let mut k: usize = 0;
            while k < j
                invariant
                    k <= j < n == entry_ids@.len(),
                    entry_ids@ == old(entry_ids)@,
                    used@ == old(used)@,
                    old_s == slots_view(entry_ids@),
                    first_dup_slot(old_s, 0) == first_dup_slot(old_s, j as int),
                    old_s[j as int] is Some,
                    forall|q: int| 0 <= q < k ==> old_s[q] != old_s[j as int],
                decreases j - k,
            {
                if opt_eq(&entry_ids[k], &entry_ids[j]) {
                    assert(old_s[k as int] == opt_string_view(entry_ids@[k as int]));
                    assert(old_s[j as int] == opt_string_view(entry_ids@[j as int]));
                    assert(repeats(old_s, j as int));
                    let x = match &entry_ids[j] {
                        Some(s) => s.clone(),
                        None => String::new(),
                    };
                    return Err(IdAssignmentError::DuplicateId(x));
                }
                k += 1;
            }
            assert(!repeats(old_s, j as int));
        } else {
            assert(!repeats(old_s, j as int));
        }
        j += 1;
    }
    let quoted_project = debug_string(project_id);
    let mut new_ids: Vec<String> = Vec::new();
    let mut warnings: Vec<String> = Vec::new();
    let mut i: usize = 0;
    while i < n
        invariant
            i <= n == entry_ids@.len(),
            old_s.len() == n,
            old_s == slots_view(old(entry_ids)@),
            old_used == strings_view(old(used)@),
            first_dup_slot(old_s, 0) is None,
            forall|q: int| 0 <= q < n && old_s[q] is Some ==> old_used.contains(
                #[trigger] old_s[q].unwrap(),
            ),
            quoted_project@ == debug_quoted(project_id@),
            forall|q: int| i <= q < n ==> #[trigger] slots_view(entry_ids@)[q] == old_s[q],
            forall|q: int| 0 <= q < i && old_s[q] is Some ==> #[trigger] slots_view(entry_ids@)[q]
                == old_s[q],
            forall|q: int|
                0 <= q < i && old_s[q] is None ==> #[trigger] slots_view(entry_ids@)[q] is Some
                    && is_generated(slots_view(entry_ids@)[q].unwrap(), project_id@)
                    && !old_used.contains(slots_view(entry_ids@)[q].unwrap()),
            strings_view(new_ids@) == filled(old_s, slots_view(entry_ids@), i as int),
            strings_view(new_ids@).no_duplicates(),
            strings_view(used@) == old_used + strings_view(new_ids@),
            strings_view(warnings@) == slot_warnings(old_s, i as int, project_id@),
        decreases n - i,
    {
        let ghost before = slots_view(entry_ids@);
        let ghost nv0 = strings_view(new_ids@);
        match &entry_ids[i] {
            Some(existing) => {
                let prefix = dash_prefix_of(existing);
                if !str_eq(prefix.as_str(), project_id) {
                    let qi = debug_string(existing.as_str());
                    let qp = debug_string(prefix.as_str());
                    let w = prefix_warning_text(qi.as_str(), qp.as_str(), quoted_project.as_str());
                    let ghost w0 = strings_view(warnings@);
                    warnings.push(w);
                    assert(strings_view(warnings@) =~= w0.push(w@));
                }
                proof {
                    assert(filled(old_s, before, i + 1) == filled(old_s, before, i as int));
                    lemma_filled_stable(old_s, before, before, i as int);
                }
            },
            None => {
                let id = match generate_id(project_id, used, rng) {
                    Some(id) => id,
                    None => {
                        proof {
                            assert(old_s[i as int] is None);
                            let u = choose|u: Seq<char>|
                                strings_view(used@).contains(u) && #[trigger] is_generated(u, project_id@);
                            let w = choose|w: int|
                                0 <= w < strings_view(used@).len() && strings_view(used@)[w] == u;
                            if w < old_used.len() {
                                assert(old_used[w] == u);
                            } else {
                                assert(nv0.len() > 0);
                                lemma_filled_has_empty(old_s, before, i as int);
                            }
                        }
                        return Err(IdAssignmentError::RetryExhausted(crate::text::to_owned_string(project_id)));
                    },
                };
                let ghost idv = id@;
                let ghost u0 = strings_view(used@);
                used.push(id.clone());
                new_ids.push(id.clone());
                entry_ids.set(i, Some(id));
                proof {
                    let fin = slots_view(entry_ids@);
                    assert(fin =~= before.update(i as int, Some(idv)));
                    assert(strings_view(used@) =~= u0.push(idv));
                    assert(strings_view(new_ids@) =~= nv0.push(idv));
                    lemma_filled_stable(old_s, before, fin, i as int);
                    assert(!nv0.contains(idv)) by {
                        if nv0.contains(idv) {
                            let q = choose|q: int| 0 <= q < nv0.len() && nv0[q] == idv;
                            assert(u0[old_used.len() + q] == idv);
                        }
                    };
                    assert(!old_used.contains(idv)) by {
                        if old_used.contains(idv) {
                            let q = choose|q: int| 0 <= q < old_used.len() && old_used[q] == idv;
                            assert(u0[q] == idv);
                        }
                    };
                    assert forall|p: int, q: int| 0 <= p < q < nv0.len() + 1 implies strings_view(new_ids@)[p] != strings_view(new_ids@)[q] by {
                        if q == nv0.len() {
                            assert(nv0.contains(nv0[p]));
                        }
                    }
                }
            },
        }
        i += 1;
    }
    Ok((new_ids, warnings))
}

/// Something filled in means an empty slot before `n`.
pub proof fn lemma_filled_has_empty(old: Seq<Option<Seq<char>>>, fin: Seq<Option<Seq<char>>>, n: int)
    requires
        filled(old, fin, n).len() > 0,
    ensures
        exists|q: int| 0 <= q < n && (#[trigger] old[q]) is None,
    decreases n,
{
    if n > 0 && old[n - 1] is Some {
        lemma_filled_has_empty(old, fin, n - 1);
    }
}

/// `filled` only looks at the slots it has passed.
pub proof fn lemma_filled_stable(
    old: Seq<Option<Seq<char>>>,
    a: Seq<Option<Seq<char>>>,
    b: Seq<Option<Seq<char>>>,
    n: int,
)
    requires
        0 <= n <= a.len(),
        n <= b.len(),
        forall|q: int| 0 <= q < n ==> a[q] == b[q],
    ensures
        filled(old, a, n) == filled(old, b, n),
    decreases n,
{
    if n > 0 {
        lemma_filled_stable(old, a, b, n - 1);
    }
}

} // verus!
