//! What reading `.used-ids` gives back after IDs were appended to it.
use vstd::prelude::*;
use crate::bullet::is_id_token;
use crate::text::{
    is_ascii_ws, lemma_line_end_bounds, lemma_trim_ascii_newline, line_end, lower, trim_ascii,
};
use crate::tombstone::{
    first_bad_id, first_malformed, id_lines, line_content, lines_from, recorded_ids,
    spec_append_text, text_lines,
};

verus! {

/// The trimmed contents of a list of lines.
pub open spec fn contents_of(lines: Seq<Seq<char>>) -> Seq<Seq<char>> {
    lines.map_values(|l: Seq<char>| line_content(l))
}

/// The trimmed contents of the lines of a text.
pub open spec fn line_contents(s: Seq<char>) -> Seq<Seq<char>> {
    contents_of(text_lines(s))
}

/// The lowercase forms of a list of IDs, as a set.
pub open spec fn lowered_set(ids: Seq<Seq<char>>) -> Set<Seq<char>> {
    ids.map_values(|x: Seq<char>| lower(x)).to_set()
}

proof fn lemma_first_malformed_from(lines: Seq<Seq<char>>, i: int)
    requires
        0 <= i <= lines.len(),
    ensures
        first_malformed(lines, i) is None <==> forall|k: int|
            i <= k < lines.len() ==> is_id_token(#[trigger] contents_of(lines)[k]),
    decreases lines.len() - i,
{
    if i < lines.len() {
        lemma_first_malformed_from(lines, i + 1);
        assert(contents_of(lines)[i] == line_content(lines[i]));
    }
}

pub proof fn lemma_first_bad_id_from(ids: Seq<Seq<char>>, i: int)
    requires
        0 <= i <= ids.len(),
    ensures
        first_bad_id(ids, i) is None <==> forall|k: int| i <= k < ids.len() ==> is_id_token(#[trigger] ids[k]),
    decreases ids.len() - i,
{
    if i < ids.len() {
        lemma_first_bad_id_from(ids, i + 1);
    }
}

proof fn lemma_recorded_ids_contents(lines: Seq<Seq<char>>)
    ensures
        recorded_ids(lines) == lowered_set(contents_of(lines)),
{
    assert(lines.map_values(|l: Seq<char>| lower(line_content(l))) =~= contents_of(lines).map_values(
        |x: Seq<char>| lower(x),
    ));
}

proof fn lemma_lowered_concat(a: Seq<Seq<char>>, b: Seq<Seq<char>>)
    ensures
        lowered_set(a + b) == lowered_set(a).union(lowered_set(b)),
{
    let f = |x: Seq<char>| lower(x);
    let ma = a.map_values(f);
    let mb = b.map_values(f);
    assert((a + b).map_values(f) =~= ma + mb);
    assert forall|y: Seq<char>| (ma + mb).contains(y) <==> (ma.contains(y) || mb.contains(y)) by {
        if (ma + mb).contains(y) {
            let k = choose|k: int| 0 <= k < (ma + mb).len() && (ma + mb)[k] == y;
            if k < ma.len() {
                assert(ma[k] == y);
            } else {
                assert(mb[k - ma.len()] == y);
            }
        }
        if ma.contains(y) {
            let k = choose|k: int| 0 <= k < ma.len() && ma[k] == y;
            assert((ma + mb)[k] == y);
        }
        if mb.contains(y) {
            let k = choose|k: int| 0 <= k < mb.len() && mb[k] == y;
            assert((ma + mb)[ma.len() + k] == y);
        }
    }
    assert((ma + mb).to_set() =~= ma.to_set().union(mb.to_set()));
}

/// Where a line ends does not change when text is appended, as long as the
/// line ends with a newline inside `a` or `a` itself ends with one.
proof fn lemma_line_end_prefix(a: Seq<char>, b: Seq<char>, i: int)
    requires
        0 <= i < a.len(),
        line_end(a, i) < a.len() || a[a.len() - 1] == '\n',
    ensures
        line_end(a + b, i) == line_end(a, i),
    decreases a.len() - i,
{
    assert((a + b)[i] == a[i]);
    if a[i] != '\n' {
        assert(line_end(a, i) == line_end(a, i + 1));
        if i + 1 == a.len() {
            assert(line_end(a, i + 1) == a.len());
        }
        lemma_line_end_prefix(a, b, i + 1);
    }
}

/// Line ends in `b` are those in `a + b`, shifted by the length of `a`.
proof fn lemma_line_end_shift(a: Seq<char>, b: Seq<char>, j: int)
    requires
        0 <= j <= b.len(),
    ensures
        line_end(a + b, a.len() + j) == a.len() + line_end(b, j),
    decreases b.len() - j,
{
    if j < b.len() {
        assert((a + b)[a.len() + j] == b[j]);
        if b[j] != '\n' {
            lemma_line_end_shift(a, b, j + 1);
        }
    }
}

/// A run without a newline does not end a line.
proof fn lemma_line_end_skip(s: Seq<char>, i: int, j: int)
    requires
        0 <= i <= j <= s.len(),
        forall|k: int| i <= k < j ==> s[k] != '\n',
    ensures
        line_end(s, i) == line_end(s, j),
    decreases j - i,
{
    if i < j {
        lemma_line_end_skip(s, i + 1, j);
    }
}

proof fn lemma_lines_shift(a: Seq<char>, b: Seq<char>, j: int)
    requires
        0 <= j <= b.len(),
    ensures
        lines_from(a + b, a.len() + j) == lines_from(b, j),
    decreases b.len() - j,
{
    if j < b.len() {
        lemma_line_end_shift(a, b, j);
        lemma_line_end_bounds(b, j);
        let e = line_end(b, j);
        assert((a + b).subrange(a.len() + j, a.len() + e) =~= b.subrange(j, e));
        lemma_lines_shift(a, b, e);
    }
}

proof fn lemma_lines_prefix(a: Seq<char>, b: Seq<char>, i: int)
    requires
        0 <= i <= a.len(),
        a.len() == 0 || a[a.len() - 1] == '\n',
    ensures
        lines_from(a + b, i) == lines_from(a, i) + lines_from(b, 0),
    decreases a.len() - i,
{
    if i == a.len() {
        lemma_lines_shift(a, b, 0);
        assert(lines_from(a, i) + lines_from(b, 0) =~= lines_from(b, 0));
    } else {
        lemma_line_end_prefix(a, b, i);
        lemma_line_end_bounds(a, i);
        let e = line_end(a, i);
        assert((a + b).subrange(i, e) =~= a.subrange(i, e));
        lemma_lines_prefix(a, b, e);
        let x = a.subrange(i, e);
        assert(seq![x] + (lines_from(a, e) + lines_from(b, 0)) =~= (seq![x] + lines_from(a, e))
            + lines_from(b, 0));
    }
}

/// The lines of two texts joined where the first ends a line.
proof fn lemma_text_lines_concat(a: Seq<char>, b: Seq<char>)
    requires
        a.len() == 0 || a[a.len() - 1] == '\n',
    ensures
        line_contents(a + b) == line_contents(a) + line_contents(b),
{
    lemma_lines_prefix(a, b, 0);
    assert(contents_of(text_lines(a) + text_lines(b)) =~= contents_of(text_lines(a)) + contents_of(
        text_lines(b),
    ));
}

/// Closing the last line of a text with a newline changes no line's content.
proof fn lemma_lines_close(a: Seq<char>, i: int)
    requires
        0 <= i < a.len(),
        a[a.len() - 1] != '\n',
    ensures
        contents_of(lines_from(a + seq!['\n'], i)) == contents_of(lines_from(a, i)),
    decreases a.len() - i,
{
    let nl = seq!['\n'];
    let s = a + nl;
    lemma_line_end_bounds(a, i);
    let e = line_end(a, i);
    if e < a.len() {
        lemma_line_end_prefix(a, nl, i);
        assert(s.subrange(i, e) =~= a.subrange(i, e));
        lemma_lines_close(a, e);
        let x = a.subrange(i, e);
        assert(contents_of(seq![x] + lines_from(s, e)) =~= seq![line_content(x)] + contents_of(
            lines_from(s, e),
        ));
        assert(contents_of(seq![x] + lines_from(a, e)) =~= seq![line_content(x)] + contents_of(
            lines_from(a, e),
        ));
    } else {
        assert forall|k: int| i <= k < a.len() implies s[k] != '\n' by {
            assert(s[k] == a[k]);
        }
        lemma_line_end_skip(s, i, a.len() as int);
        assert(s[a.len() as int] == '\n');
        assert(line_end(s, a.len() as int) == a.len() + 1);
        let x = a.subrange(i, a.len() as int);
        assert(s.subrange(i, a.len() + 1int) =~= x + nl);
        lemma_trim_ascii_newline(x);
        assert(lines_from(s, a.len() + 1int) =~= Seq::<Seq<char>>::empty());
        assert(lines_from(a, a.len() as int) =~= Seq::<Seq<char>>::empty());
        assert(contents_of(lines_from(s, i)) =~= seq![line_content(x + nl)]);
        assert(contents_of(lines_from(a, i)) =~= seq![line_content(x)]);
    }
}

/// An ID token holds no whitespace.
proof fn lemma_token_chars(x: Seq<char>)
    requires
        is_id_token(x),
    ensures
        forall|k: int| 0 <= k < x.len() ==> !is_ascii_ws(#[trigger] x[k]) && x[k] != '\n',
{
}

/// The one line of an ID token followed by a newline, and its content.
proof fn lemma_token_line(x: Seq<char>)
    requires
        is_id_token(x),
    ensures
        line_contents(x + seq!['\n']) == seq![x],
{
    let nl = seq!['\n'];
    let s = x + nl;
    lemma_token_chars(x);
    assert forall|k: int| 0 <= k < 7 implies s[k] != '\n' by {
        assert(s[k] == x[k]);
    }
    lemma_line_end_skip(s, 0, 7);
    assert(s[7] == '\n');
    assert(line_end(s, 7) == 8);
    assert(s.subrange(0, 8) =~= s);
    assert(lines_from(s, 8) =~= Seq::<Seq<char>>::empty());
    assert(text_lines(s) =~= seq![s]);
    lemma_trim_ascii_newline(x);
    assert(!is_ascii_ws(x[0]) && !is_ascii_ws(x[6]));
    assert(trim_ascii(x) == x);
    assert(line_content(s) == x);
    assert(line_contents(s) =~= seq![x]);
}

proof fn lemma_id_lines_ends(ids: Seq<Seq<char>>)
    ensures
        id_lines(ids).len() == 0 || id_lines(ids)[id_lines(ids).len() - 1] == '\n',
{
    if ids.len() > 0 {
        let t = id_lines(ids.drop_last()) + ids.last() + seq!['\n'];
        assert(t[t.len() - 1] == '\n');
    }
}

/// The lines that appended IDs make hold exactly those IDs.
proof fn lemma_id_lines_contents(ids: Seq<Seq<char>>)
    requires
        forall|k: int| 0 <= k < ids.len() ==> is_id_token(#[trigger] ids[k]),
    ensures
        line_contents(id_lines(ids)) == ids,
    decreases ids.len(),
{
    if ids.len() == 0 {
        assert(text_lines(Seq::<char>::empty()) =~= Seq::<Seq<char>>::empty());
        assert(line_contents(id_lines(ids)) =~= ids);
    } else {
        let dl = ids.drop_last();
        let x = ids.last();
        assert(is_id_token(ids[ids.len() - 1]));
        lemma_id_lines_contents(dl);
        lemma_id_lines_ends(dl);
        assert(id_lines(ids) =~= id_lines(dl) + (x + seq!['\n']));
        lemma_text_lines_concat(id_lines(dl), x + seq!['\n']);
        lemma_token_line(x);
        assert(dl + seq![x] =~= ids);
    }
}

/// Appending IDs to `.used-ids` keeps every line well-formed, and the file
/// then records exactly what it recorded before together with the new IDs,
/// lowercased: `read` of the text after the append gives that set.
pub proof fn lemma_append_then_read(existing: Seq<char>, new_ids: Seq<Seq<char>>)
    requires
        first_malformed(text_lines(existing), 0) is None,
        first_bad_id(new_ids, 0) is None,
    ensures
        first_malformed(text_lines(existing + spec_append_text(existing, new_ids)), 0) is None,
        recorded_ids(text_lines(existing + spec_append_text(existing, new_ids))) == recorded_ids(
            text_lines(existing),
        ).union(lowered_set(new_ids)),
{
    let after = existing + spec_append_text(existing, new_ids);
    lemma_first_bad_id_from(new_ids, 0);
    lemma_first_malformed_from(text_lines(existing), 0);
    if new_ids.len() == 0 {
        assert(after =~= existing);
        assert(line_contents(after) =~= line_contents(existing) + new_ids);
    } else if existing.len() == 0 || existing[existing.len() - 1] == '\n' {
        assert(existing.len() > 0 ==> existing.last() == existing[existing.len() - 1]);
        lemma_text_lines_concat(existing, id_lines(new_ids));
        lemma_id_lines_contents(new_ids);
    } else {
        let nl = seq!['\n'];
        assert(existing.last() == existing[existing.len() - 1]);
        assert(after =~= (existing + nl) + id_lines(new_ids));
        lemma_lines_close(existing, 0);
        let e2 = existing + nl;
        assert(e2[e2.len() - 1] == '\n');
        lemma_text_lines_concat(e2, id_lines(new_ids));
        lemma_id_lines_contents(new_ids);
    }
    assert(line_contents(after) == line_contents(existing) + new_ids);
    lemma_first_malformed_from(text_lines(after), 0);
    assert forall|k: int| 0 <= k < text_lines(after).len() implies is_id_token(
        #[trigger] contents_of(text_lines(after))[k],
    ) by {
        let c = line_contents(existing);
        if k < c.len() {
            assert(contents_of(text_lines(after))[k] == c[k]);
        } else {
            assert(contents_of(text_lines(after))[k] == new_ids[k - c.len()]);
        }
    }
    lemma_recorded_ids_contents(text_lines(after));
    lemma_recorded_ids_contents(text_lines(existing));
    lemma_lowered_concat(line_contents(existing), new_ids);
}

} // verus!
