//! `backlog/.used-ids`: every ID ever assigned, one per line.
use vstd::prelude::*;
use crate::bullet::is_id_token;
use crate::base32::is_base32_char;
use crate::text::{
    chars_of, debug_quoted, debug_string, decimal, is_ascii_whitespace, is_ascii_ws, trim_ascii,
    lemma_line_end_bounds, line_end, line_end_exec, lower, lower_string, push_char, push_decimal,
    push_str, string_from,
};

verus! {

/// A line of `.used-ids` that is not a well-formed ID.
#[derive(Debug, Clone, PartialEq, Eq)]
pub enum TombstoneError {
    /// The 1-based line number and the offending (trimmed) content.
    MalformedLine { line_no: usize, content: String },
}

impl TombstoneError {
    /// The user-facing description.
    pub open spec fn message_text(&self) -> Seq<char> {
        match self {
            TombstoneError::MalformedLine { line_no, content } => "malformed line "@ + decimal(
                *line_no as nat,
            ) + " in .used-ids: "@ + debug_quoted(content@),
        }
    }

    /// The user-facing description.
    pub fn message(&self) -> (r: String)
        ensures
            r@ == self.message_text(),
    {
        match self {
            TombstoneError::MalformedLine { line_no, content } => {
                let mut out = String::new();
                push_str(&mut out, "malformed line ");
                push_decimal(&mut out, *line_no as u64);
                push_str(&mut out, " in .used-ids: ");
                let q = debug_string(content.as_str());
                push_str(&mut out, q.as_str());
                out
            },
        }
    }
}

/// The lines of `s` from line start `i` on, each with its newline.
pub open spec fn lines_from(s: Seq<char>, i: int) -> Seq<Seq<char>>
    decreases s.len() - i,
{
    if i < 0 || i >= s.len() {
        Seq::empty()
    } else {
        proof {
            lemma_line_end_bounds(s, i);
        }
        seq![s.subrange(i, line_end(s, i))] + lines_from(s, line_end(s, i))
    }
}

/// The lines of a text (`str::lines`, before trimming).
pub open spec fn text_lines(s: Seq<char>) -> Seq<Seq<char>> {
    lines_from(s, 0)
}

/// The ID a line holds: the line without surrounding ASCII whitespace.
pub open spec fn line_content(l: Seq<char>) -> Seq<char> {
    trim_ascii(l)
}

/// The first line at or after `i` whose content is not a well-formed ID.
pub open spec fn first_malformed(lines: Seq<Seq<char>>, i: int) -> Option<int>
    decreases lines.len() - i,
{
    if i < 0 || i >= lines.len() {
        None
    } else if !is_id_token(line_content(lines[i])) {
        Some(i)
    } else {
        first_malformed(lines, i + 1)
    }
}

/// The lowercased IDs that the lines record.
pub open spec fn recorded_ids(lines: Seq<Seq<char>>) -> Set<Seq<char>> {
    lines.map_values(|l: Seq<char>| lower(line_content(l))).to_set()
}

pub open spec fn strings_view(v: Seq<String>) -> Seq<Seq<char>> {
    v.map_values(|s: String| s@)
}

/// A well-formed ID: `<3>-<3>` Crockford base32, either case.
pub fn is_valid_id(s: &str) -> (r: bool)
    ensures
        r == is_id_token(s@),
{
    let v = chars_of(s);
    is_id_chars(&v, 0, v.len())
}

fn is_id_chars(v: &Vec<char>, lo: usize, hi: usize) -> (r: bool)
    requires
        lo <= hi <= v@.len(),
    ensures
        r == is_id_token(v@.subrange(lo as int, hi as int)),
{
    hi - lo == 7 && v[lo + 3] == '-' && is_base32_char(v[lo]) && is_base32_char(v[lo + 1])
        && is_base32_char(v[lo + 2]) && is_base32_char(v[lo + 4]) && is_base32_char(v[lo + 5])
        && is_base32_char(v[lo + 6])
}

/// The bounds of `v[lo..hi]` without surrounding ASCII whitespace.
fn trim_ascii_bounds(v: &Vec<char>, lo: usize, hi: usize) -> (r: (usize, usize))
    requires
        lo <= hi <= v@.len(),
    ensures
        lo <= r.0 <= r.1 <= hi,
        v@.subrange(r.0 as int, r.1 as int) == trim_ascii(v@.subrange(lo as int, hi as int)),
{
    let ghost orig = v@.subrange(lo as int, hi as int);
    let mut a = lo;
    while a < hi && is_ascii_whitespace(v[a])
        invariant
            lo <= a <= hi <= v@.len(),
            trim_ascii(v@.subrange(a as int, hi as int)) == trim_ascii(orig),
        decreases hi - a,
    {
        assert(v@.subrange(a + 1, hi as int) =~= v@.subrange(a as int, hi as int).drop_first());
        a += 1;
    }
    let mut b = hi;
    while b > a && is_ascii_whitespace(v[b - 1])
        invariant
            lo <= a <= b <= hi <= v@.len(),
            a < b ==> !is_ascii_ws(v@[a as int]),
            a < hi ==> !is_ascii_ws(v@[a as int]),
            trim_ascii(v@.subrange(a as int, b as int)) == trim_ascii(orig),
        decreases b,
    {
        assert(v@.subrange(a as int, b - 1) =~= v@.subrange(a as int, b as int).drop_last());
        b -= 1;
    }
    (a, b)
}

fn contains_string(ids: &Vec<String>, x: &String) -> (r: bool)
    ensures
        r == strings_view(ids@).contains(x@),
{
    let mut i: usize = 0;
    while i < ids.len()
        invariant
            i <= ids@.len(),
            forall|k: int| 0 <= k < i ==> ids@[k]@ != x@,
        decreases ids@.len() - i,
    {
        if ids[i] == *x {
            assert(strings_view(ids@)[i as int] == x@);
            return true;
        }
        i += 1;
    }
    assert forall|k: int| 0 <= k < strings_view(ids@).len() implies strings_view(ids@)[k] != x@ by {
        assert(strings_view(ids@)[k] == ids@[k]@);
    }
    false
}

/// Reads the text of `.used-ids`: every line, once stripped of surrounding
/// ASCII whitespace, must be a well-formed ID; the IDs come back lowercased
/// and without repeats. The first bad line is reported with its 1-based
/// number and trimmed content.
pub fn read(contents: &str) -> (r: Result<Vec<String>, TombstoneError>)
    ensures
        match r {
            Ok(ids) => first_malformed(text_lines(contents@), 0) is None && strings_view(
                ids@,
            ).no_duplicates() && strings_view(ids@).to_set() == recorded_ids(text_lines(contents@)),
            Err(TombstoneError::MalformedLine { line_no, content }) => first_malformed(
                text_lines(contents@),
                0,
            ) == Some(line_no - 1) && 1 <= line_no && content@ == line_content(
                text_lines(contents@)[line_no - 1],
            ),
        },
{
    let v = chars_of(contents);
    let ghost lines = text_lines(v@);
    let mut ids: Vec<String> = Vec::new();
    let mut i: usize = 0;
    let mut idx: usize = 0;
    let ghost seen: Seq<Seq<char>> = Seq::empty();
    while i < v.len()
        invariant
            i <= v@.len(),
            v@ == contents@,
            lines == text_lines(v@),
            seen + lines_from(v@, i as int) == lines,
            idx == seen.len(),
            idx <= i,
            first_malformed(lines, 0) == first_malformed(lines, idx as int),
            strings_view(ids@).no_duplicates(),
            strings_view(ids@).to_set() == recorded_ids(seen),
        decreases v@.len() - i,
    {
        proof {
            lemma_line_end_bounds(v@, i as int);
        }
        let e = line_end_exec(&v, i);
        let (a, b) = trim_ascii_bounds(&v, i, e);
        let ghost line = v@.subrange(i as int, e as int);
        assert(lines_from(v@, i as int) == seq![line] + lines_from(v@, e as int));
        assert(lines[idx as int] == line) by {
            assert((seen + lines_from(v@, i as int))[idx as int] == line);
        };
        if !is_id_chars(&v, a, b) {
            return Err(TombstoneError::MalformedLine { line_no: idx + 1, content: string_from(&v, a, b) });
        }
        let id = lower_string(&v, a, b);
        let ghost old_ids = strings_view(ids@);
        let ghost x = lower(line_content(line));
        assert(id@ == x);
        let present = contains_string(&ids, &id);
        if !present {
            ids.push(id);
            proof {
                assert(strings_view(ids@) =~= old_ids + seq![x]);
                Seq::<Seq<char>>::lemma_to_set_insert_commutes(old_ids, x);
                assert forall|p: int, q: int| 0 <= p < q < strings_view(ids@).len() implies strings_view(ids@)[p] != strings_view(ids@)[q] by {
                    if q == old_ids.len() {
                        assert(old_ids.contains(old_ids[p]));
                    }
                }
            }
        } else {
            proof {
                assert(old_ids.to_set().contains(x));
                assert(old_ids.to_set().insert(x) =~= old_ids.to_set());
            }
        }
        proof {
            let f = |l: Seq<char>| lower(line_content(l));
            assert(seen.push(line).map_values(f) =~= seen.map_values(f) + seq![f(line)]);
            Seq::<Seq<char>>::lemma_to_set_insert_commutes(seen.map_values(f), f(line));
            assert(seen + lines_from(v@, i as int) =~= seen.push(line) + lines_from(v@, e as int));
            seen = seen.push(line);
        }
        idx += 1;
        i = e;
    }
    proof {
        assert(lines_from(v@, i as int) =~= Seq::<Seq<char>>::empty());
        assert(seen =~= lines);
    }
    Ok(ids)
}

/// The text to append to `.used-ids` holding `existing`, so that it then
/// records `new_ids`: one ID per line in input order, without deduplication,
/// after a newline when `existing` is non-empty and does not end in one.
pub open spec fn spec_append_text(existing: Seq<char>, new_ids: Seq<Seq<char>>) -> Seq<char> {
    if new_ids.len() == 0 {
        Seq::empty()
    } else if existing.len() > 0 && existing.last() != '\n' {
        seq!['\n'] + id_lines(new_ids)
    } else {
        id_lines(new_ids)
    }
}

/// Each ID followed by a newline.
pub open spec fn id_lines(ids: Seq<Seq<char>>) -> Seq<char>
    decreases ids.len(),
{
    if ids.len() == 0 {
        Seq::empty()
    } else {
        id_lines(ids.drop_last()) + ids.last() + seq!['\n']
    }
}

/// The first ID at or after `i` that is not well-formed.
pub open spec fn first_bad_id(ids: Seq<Seq<char>>, i: int) -> Option<int>
    decreases ids.len() - i,
{
    if i < 0 || i >= ids.len() {
        None
    } else if !is_id_token(ids[i]) {
        Some(i)
    } else {
        first_bad_id(ids, i + 1)
    }
}

/// Validates `new_ids` and composes the text that appending them to a file
/// holding `existing` adds. A malformed ID (one that is not `<3>-<3>` base32,
/// such as one with an embedded newline) is refused with its 1-based position
/// in the batch, before anything would be written.
pub fn append_text(existing: &str, new_ids: &Vec<String>) -> (r: Result<String, TombstoneError>)
    ensures
        match r {
            Ok(t) => first_bad_id(strings_view(new_ids@), 0) is None && t@ == spec_append_text(
                existing@,
                strings_view(new_ids@),
            ),
            Err(TombstoneError::MalformedLine { line_no, content }) => first_bad_id(
                strings_view(new_ids@),
                0,
            ) == Some(line_no - 1) && 1 <= line_no && content@ == new_ids@[line_no - 1]@,
        },
{
    let ghost ids = strings_view(new_ids@);
    let mut k: usize = 0;
    while k < new_ids.len()
        invariant
            k <= new_ids@.len(),
            ids == strings_view(new_ids@),
            first_bad_id(ids, 0) == first_bad_id(ids, k as int),
        decreases new_ids@.len() - k,
    {
        let ok = is_valid_id(new_ids[k].as_str());
        assert(ids[k as int] == new_ids@[k as int]@);
        if !ok {
            return Err(TombstoneError::MalformedLine { line_no: k + 1, content: new_ids[k].clone() });
        }
        k += 1;
    }
    let mut out = String::new();
    if new_ids.len() == 0 {
        return Ok(out);
    }
    let ev = chars_of(existing);
    if ev.len() > 0 && ev[ev.len() - 1] != '\n' {
        push_char(&mut out, '\n');
    }
    let ghost lead = out@;
    let mut j: usize = 0;
    while j < new_ids.len()
        invariant
            j <= new_ids@.len(),
            ids == strings_view(new_ids@),
            out@ == lead + id_lines(ids.take(j as int)),
        decreases new_ids@.len() - j,
    {
        push_str(&mut out, new_ids[j].as_str());
        push_char(&mut out, '\n');
        assert(ids.take(j + 1).drop_last() =~= ids.take(j as int));
        assert(ids.take(j + 1).last() == new_ids@[j as int]@);
        assert(out@ =~= lead + id_lines(ids.take(j + 1)));
        j += 1;
    }
    assert(ids.take(j as int) =~= ids);
    Ok(out)
}

} // verus!
