//! Stripping notes twice strips nothing more.
use vstd::prelude::*;
use crate::item_file::{
    common_indent, dedent, first_nonblank, indent_len, is_indent, join_nl, lcp_len,
    lemma_common_indent_prefix, lemma_first_nonblank_prefix, lemma_indent_len_bound,
    lemma_lcp_bound, lemma_nonblank_end_after_first, nonblank_end, spec_strip_notes, split_from,
    split_nl,
};
use crate::line_endings::{lemma_normalize_identity, lemma_normalize_no_cr, no_cr, normalize};
use crate::text::{find_from, is_blank, is_ws, lemma_find_from};

verus! {

/// `s` holds no newline.
pub open spec fn no_nl(s: Seq<char>) -> bool {
    forall|i: int| 0 <= i < s.len() ==> #[trigger] s[i] != '\n'
}

// ---------------------------------------------------------------------------
// Splitting and joining lines
// ---------------------------------------------------------------------------

/// `find_from` is the first occurrence.
proof fn lemma_find_is(s: Seq<char>, i: int, c: char, k: Option<int>)
    requires
        0 <= i <= s.len(),
        match k {
            Some(k) => i <= k < s.len() && s[k] == c && forall|j: int| i <= j < k ==> s[j] != c,
            None => forall|j: int| i <= j < s.len() ==> s[j] != c,
        },
    ensures
        find_from(s, i, c) == k,
    decreases s.len() - i,
{
    if i < s.len() && s[i] != c {
        lemma_find_is(s, i + 1, c, k);
    }
}

/// The pieces of a split hold no newline, and no carriage return when the
/// text holds none.
proof fn lemma_split_pieces(s: Seq<char>, i: int)
    requires
        0 <= i <= s.len(),
    ensures
        split_from(s, i).len() >= 1,
        forall|k: int| 0 <= k < split_from(s, i).len() ==> no_nl(#[trigger] split_from(s, i)[k]),
        no_cr(s) ==> forall|k: int| 0 <= k < split_from(s, i).len() ==> no_cr(
            #[trigger] split_from(s, i)[k],
        ),
    decreases s.len() - i,
{
    lemma_find_from(s, i, '\n');
    match find_from(s, i, '\n') {
        Some(e) => {
            lemma_split_pieces(s, e + 1);
            let first = s.subrange(i, e);
            let rest = split_from(s, e + 1);
            assert(split_from(s, i) == seq![first] + rest);
            assert forall|k: int| 0 <= k < split_from(s, i).len() implies no_nl(
                #[trigger] split_from(s, i)[k],
            ) by {
                if k == 0 {
                    assert forall|q: int| 0 <= q < first.len() implies first[q] != '\n' by {
                        assert(first[q] == s[i + q]);
                    }
                } else {
                    assert(split_from(s, i)[k] == rest[k - 1]);
                }
            }
            if no_cr(s) {
                assert forall|k: int| 0 <= k < split_from(s, i).len() implies no_cr(
                    #[trigger] split_from(s, i)[k],
                ) by {
                    if k == 0 {
                        assert forall|q: int| 0 <= q < first.len() implies #[trigger] first[q]
                            != '\r' by {
                            assert(first[q] == s[i + q]);
                        }
                    } else {
                        assert(split_from(s, i)[k] == rest[k - 1]);
                    }
                }
            }
        },
        None => {
            let only = s.subrange(i, s.len() as int);
            assert(split_from(s, i) == seq![only]);
            assert forall|q: int| 0 <= q < only.len() implies only[q] != '\n' by {
                assert(only[q] == s[i + q]);
            }
            if no_cr(s) {
                assert forall|q: int| 0 <= q < only.len() implies #[trigger] only[q] != '\r' by {
                    assert(only[q] == s[i + q]);
                }
            }
        },
    }
}

proof fn lemma_split_shift(a: Seq<char>, b: Seq<char>, j: int)
    requires
        0 <= j <= b.len(),
    ensures
        split_from(a + b, a.len() + j) == split_from(b, j),
    decreases b.len() - j,
{
    let s = a + b;
    let i = a.len() + j;
    lemma_find_from(b, j, '\n');
    match find_from(b, j, '\n') {
        Some(e) => {
            assert forall|q: int| i <= q < a.len() + e implies s[q] != '\n' by {
                assert(s[q] == b[q - a.len()]);
            }
            assert(s[a.len() + e] == b[e]);
            lemma_find_is(s, i, '\n', Some(a.len() + e));
            assert(s.subrange(i, a.len() + e) =~= b.subrange(j, e));
            lemma_split_shift(a, b, e + 1);
        },
        None => {
            assert forall|q: int| i <= q < s.len() implies s[q] != '\n' by {
                assert(s[q] == b[q - a.len()]);
            }
            lemma_find_is(s, i, '\n', None);
            assert(s.subrange(i, s.len() as int) =~= b.subrange(j, b.len() as int));
        },
    }
}

/// Splitting at a newline between `a` and `b` gives the pieces of each.
proof fn lemma_split_concat(a: Seq<char>, b: Seq<char>, i: int)
    requires
        0 <= i <= a.len(),
    ensures
        split_from(a + seq!['\n'] + b, i) == split_from(a, i) + split_from(b, 0),
    decreases a.len() - i,
{
    let s = a + seq!['\n'] + b;
    assert(s.len() == a.len() + 1 + b.len());
    lemma_find_from(a, i, '\n');
    match find_from(a, i, '\n') {
        Some(e) => {
            assert forall|q: int| i <= q < e implies s[q] != '\n' by {
                assert(s[q] == a[q]);
            }
            assert(s[e] == a[e]);
            lemma_find_is(s, i, '\n', Some(e));
            assert(s.subrange(i, e) =~= a.subrange(i, e));
            lemma_split_concat(a, b, e + 1);
            assert(seq![a.subrange(i, e)] + (split_from(a, e + 1) + split_from(b, 0)) =~= (seq![
                a.subrange(i, e),
            ] + split_from(a, e + 1)) + split_from(b, 0));
        },
        None => {
            assert forall|q: int| i <= q < a.len() implies s[q] != '\n' by {
                assert(s[q] == a[q]);
            }
            assert(s[a.len() as int] == '\n');
            lemma_find_is(s, i, '\n', Some(a.len() as int));
            assert(s.subrange(i, a.len() as int) =~= a.subrange(i, a.len() as int));
            assert(s =~= (a + seq!['\n']) + b);
            lemma_split_shift(a + seq!['\n'], b, 0);
        },
    }
}

/// Lines without newlines, joined and split again.
proof fn lemma_split_join(ls: Seq<Seq<char>>)
    requires
        ls.len() >= 1,
        forall|k: int| 0 <= k < ls.len() ==> no_nl(#[trigger] ls[k]),
    ensures
        split_nl(join_nl(ls)) == ls,
    decreases ls.len(),
{
    if ls.len() == 1 {
        let l = ls[0];
        assert(no_nl(ls[0]));
        lemma_find_is(l, 0, '\n', None);
        assert(l.subrange(0, l.len() as int) =~= l);
        assert(split_nl(l) =~= ls);
    } else {
        let dl = ls.drop_last();
        assert forall|k: int| 0 <= k < dl.len() implies no_nl(#[trigger] dl[k]) by {
            assert(dl[k] == ls[k]);
        }
        lemma_split_join(dl);
        let l = ls.last();
        assert(no_nl(ls[ls.len() - 1]));
        lemma_split_concat(join_nl(dl), l, 0);
        lemma_find_is(l, 0, '\n', None);
        assert(l.subrange(0, l.len() as int) =~= l);
        assert(split_from(l, 0) =~= seq![l]);
        assert(dl + seq![l] =~= ls);
    }
}

proof fn lemma_no_cr_join(ls: Seq<Seq<char>>)
    requires
        forall|k: int| 0 <= k < ls.len() ==> no_cr(#[trigger] ls[k]),
    ensures
        no_cr(join_nl(ls)),
    decreases ls.len(),
{
    if ls.len() == 1 {
        assert(no_cr(ls[0]));
    } else if ls.len() > 1 {
        let dl = ls.drop_last();
        assert forall|k: int| 0 <= k < dl.len() implies no_cr(#[trigger] dl[k]) by {
            assert(dl[k] == ls[k]);
        }
        lemma_no_cr_join(dl);
        let l = ls.last();
        assert(no_cr(ls[ls.len() - 1]));
        let j = join_nl(ls);
        assert(j == join_nl(dl) + seq!['\n'] + l);
        assert forall|i: int| 0 <= i < j.len() implies #[trigger] j[i] != '\r' by {
            if i < join_nl(dl).len() {
                assert(j[i] == join_nl(dl)[i]);
            } else if i > join_nl(dl).len() {
                assert(j[i] == l[i - join_nl(dl).len() - 1]);
            }
        }
    }
}

// ---------------------------------------------------------------------------
// Indentation
// ---------------------------------------------------------------------------

/// The leading indentation of a line.
pub open spec fn ws_of(l: Seq<char>) -> Seq<char> {
    l.take(indent_len(l) as int)
}

/// Skipping part of the indentation leaves the rest of it.
proof fn lemma_indent_skip(l: Seq<char>, p: nat)
    requires
        p <= indent_len(l),
    ensures
        indent_len(l.skip(p as int)) == indent_len(l) - p,
    decreases p,
{
    lemma_indent_len_bound(l);
    if p > 0 {
        assert(l.len() > 0 && is_indent(l[0]));
        assert(indent_len(l) == 1 + indent_len(l.skip(1)));
        assert(l.skip(1).skip(p - 1) =~= l.skip(p as int));
        lemma_indent_skip(l.skip(1), (p - 1) as nat);
    } else {
        assert(l.skip(0) =~= l);
    }
}

/// A non-blank line keeps a non-whitespace character past its indentation.
proof fn lemma_nonblank_past_indent(l: Seq<char>, p: nat)
    requires
        !is_blank(l),
        p <= indent_len(l),
    ensures
        !is_blank(l.skip(p as int)),
{
    lemma_indent_len_bound(l);
    let k = choose|k: int| 0 <= k < l.len() && !is_ws(l[k]);
    assert(k >= p) by {
        if k < p {
            assert(is_indent(l[k]));
        }
    }
    assert(l.skip(p as int)[k - p] == l[k]);
}

/// What the common indentation of lines with at least one non-blank line is:
/// a prefix of every non-blank line's indentation, as long as one of them or
/// one character short of two that differ.
proof fn lemma_common_indent_longest(lines: Seq<Seq<char>>)
    requires
        common_indent(lines) is Some,
    ensures
        exists|k: int| 0 <= k < lines.len() && !is_blank(#[trigger] lines[k]),
        ({
            let p = common_indent(lines).unwrap();
            &&& forall|k: int|
                0 <= k < lines.len() && !is_blank(lines[k]) ==> p.len() <= indent_len(
                    #[trigger] lines[k],
                ) && lines[k].take(p.len() as int) == p
            &&& (exists|k: int|
                0 <= k < lines.len() && !is_blank(lines[k]) && indent_len(#[trigger] lines[k])
                    == p.len()) || (exists|k1: int, k2: int|
                0 <= k1 < lines.len() && 0 <= k2 < lines.len() && !is_blank(lines[k1])
                    && !is_blank(lines[k2]) && p.len() < indent_len(#[trigger] lines[k1])
                    && p.len() < indent_len(#[trigger] lines[k2]) && lines[k1][p.len() as int]
                    != lines[k2][p.len() as int])
        }),
    decreases lines.len(),
{
    let init = lines.drop_last();
    let l = lines.last();
    lemma_indent_len_bound(l);
    let ws = ws_of(l);
    let p = common_indent(lines).unwrap();
    lemma_common_indent_prefix(lines);
    lemma_common_indent_prefix(init);
    if is_blank(l) {
        lemma_common_indent_longest(init);
        let q = common_indent(init).unwrap();
        assert(q == p);
        let w = choose|k: int| 0 <= k < init.len() && !is_blank(#[trigger] init[k]);
        assert(lines[w] == init[w]);
        assert forall|k: int| 0 <= k < lines.len() && !is_blank(lines[k]) implies p.len()
            <= indent_len(#[trigger] lines[k]) && lines[k].take(p.len() as int) == p by {
            assert(k < lines.len() - 1);
            assert(lines[k] == init[k]);
        }
        if exists|k: int|
            0 <= k < init.len() && !is_blank(init[k]) && indent_len(#[trigger] init[k]) == q.len() {
            let k = choose|k: int|
                0 <= k < init.len() && !is_blank(init[k]) && indent_len(#[trigger] init[k])
                    == q.len();
            assert(lines[k] == init[k]);
        } else {
            let (k1, k2) = choose|k1: int, k2: int|
                0 <= k1 < init.len() && 0 <= k2 < init.len() && !is_blank(init[k1]) && !is_blank(
                    init[k2],
                ) && q.len() < indent_len(#[trigger] init[k1]) && q.len() < indent_len(
                    #[trigger] init[k2],
                ) && init[k1][q.len() as int] != init[k2][q.len() as int];
            assert(lines[k1] == init[k1]);
            assert(lines[k2] == init[k2]);
        }
    } else {
        let last = lines.len() - 1;
        assert(lines[last] == l);
        assert(!is_blank(lines[last]));
        match common_indent(init) {
            None => {
                assert(p == ws);
                assert forall|k: int| 0 <= k < lines.len() && !is_blank(lines[k]) implies p.len()
                    <= indent_len(#[trigger] lines[k]) && lines[k].take(p.len() as int) == p by {
                    if k < last {
                        assert(lines[k] == init[k]);
                        assert(is_blank(init[k]));
                    }
                }
            },
            Some(q) => {
                lemma_common_indent_longest(init);
                lemma_lcp_bound(q, ws);
                lemma_lcp_stop(q, ws);
                let c = lcp_len(q, ws);
                assert(p == q.take(c as int));
                // Every earlier non-blank line has `q` as the start of its
                // indentation, so it is at least `c` long too.
                assert forall|k: int| 0 <= k < lines.len() && !is_blank(lines[k]) implies p.len()
                    <= indent_len(#[trigger] lines[k]) && lines[k].take(p.len() as int) == p by {
                    if k < last {
                        assert(lines[k] == init[k]);
                        assert(lines[k].take(c as int) =~= lines[k].take(q.len() as int).take(
                            c as int,
                        ));
                    } else {
                        assert(l.take(c as int) =~= p);
                    }
                }
                if c == q.len() {
                    assert(p =~= q);
                    if exists|k: int|
                        0 <= k < init.len() && !is_blank(init[k]) && indent_len(#[trigger] init[k])
                            == q.len() {
                        let k = choose|k: int|
                            0 <= k < init.len() && !is_blank(init[k]) && indent_len(
                                #[trigger] init[k],
                            ) == q.len();
                        assert(lines[k] == init[k]);
                    } else {
                        let (k1, k2) = choose|k1: int, k2: int|
                            0 <= k1 < init.len() && 0 <= k2 < init.len() && !is_blank(init[k1])
                                && !is_blank(init[k2]) && q.len() < indent_len(#[trigger] init[k1])
                                && q.len() < indent_len(#[trigger] init[k2])
                                && init[k1][q.len() as int] != init[k2][q.len() as int];
                        assert(lines[k1] == init[k1]);
                        assert(lines[k2] == init[k2]);
                    }
                } else if c == ws.len() {
                    assert(indent_len(lines[last]) == p.len());
                } else {
                    // The first difference between `q` and the last line's
                    // indentation is a difference with an earlier line.
                    assert(q[c as int] != ws[c as int]);
                    let k0 = choose|k: int| 0 <= k < init.len() && !is_blank(#[trigger] init[k]);
                    assert(q.len() <= indent_len(init[k0]) && init[k0].take(q.len() as int) == q);
                    assert(init[k0][c as int] == q[c as int]) by {
                        assert(init[k0].take(q.len() as int)[c as int] == init[k0][c as int]);
                    }
                    assert(l[c as int] == ws[c as int]);
                    assert(lines[k0] == init[k0]);
                    assert(lines[k0][p.len() as int] != lines[last][p.len() as int]);
                }
            },
        }
    }
}

/// Where the longest common prefix stops short of both texts, they differ.
proof fn lemma_lcp_stop(a: Seq<char>, b: Seq<char>)
    ensures
        lcp_len(a, b) < a.len() && lcp_len(a, b) < b.len() ==> a[lcp_len(a, b) as int]
            != b[lcp_len(a, b) as int],
    decreases a.len(),
{
    if a.len() > 0 && b.len() > 0 && a[0] == b[0] {
        lemma_lcp_stop(a.skip(1), b.skip(1));
        let c = lcp_len(a.skip(1), b.skip(1));
        if c < a.skip(1).len() && c < b.skip(1).len() {
            assert(a[c + 1int] == a.skip(1)[c as int]);
            assert(b[c + 1int] == b.skip(1)[c as int]);
        }
    }
}

/// The last line before `nonblank_end` is not blank.
proof fn lemma_nonblank_end_last(lines: Seq<Seq<char>>)
    requires
        nonblank_end(lines) > 0,
    ensures
        nonblank_end(lines) <= lines.len(),
        !is_blank(lines[nonblank_end(lines) - 1]),
    decreases lines.len(),
{
    if lines.len() > 0 && is_blank(lines.last()) {
        let dl = lines.drop_last();
        lemma_nonblank_end_last(dl);
        assert(lines[nonblank_end(dl) - 1] == dl[nonblank_end(dl) - 1]);
    }
}

/// Notes lines with the common indentation `pl` removed.
pub open spec fn dedented(kept: Seq<Seq<char>>, pl: nat) -> Seq<Seq<char>> {
    kept.map_values(|l: Seq<char>| dedent(l, pl))
}

/// Removing at most the indentation keeps blank and non-blank lines apart and
/// brings no newline or carriage return in.
proof fn lemma_dedented_lines(kept: Seq<Seq<char>>, pl: nat)
    requires
        forall|k: int| 0 <= k < kept.len() ==> no_nl(#[trigger] kept[k]) && no_cr(kept[k]),
        forall|k: int| 0 <= k < kept.len() && !is_blank(kept[k]) ==> pl <= indent_len(#[trigger] kept[k]),
    ensures
        forall|k: int| 0 <= k < kept.len() ==> {
            &&& no_nl(#[trigger] dedented(kept, pl)[k])
            &&& no_cr(dedented(kept, pl)[k])
            &&& is_blank(dedented(kept, pl)[k]) == is_blank(kept[k])
            &&& is_blank(dedented(kept, pl)[k]) ==> dedented(kept, pl)[k].len() == 0
            &&& !is_blank(dedented(kept, pl)[k]) ==> dedented(kept, pl)[k] == kept[k].skip(pl as int)
                && indent_len(dedented(kept, pl)[k]) == indent_len(kept[k]) - pl
        },
{
    let d = dedented(kept, pl);
    assert forall|k: int| 0 <= k < kept.len() implies {
        &&& no_nl(#[trigger] d[k])
        &&& no_cr(d[k])
        &&& is_blank(d[k]) == is_blank(kept[k])
        &&& is_blank(d[k]) ==> d[k].len() == 0
        &&& !is_blank(d[k]) ==> d[k] == kept[k].skip(pl as int) && indent_len(d[k])
            == indent_len(kept[k]) - pl
    } by {
        let l = kept[k];
        assert(no_nl(kept[k]) && no_cr(kept[k]));
        assert(d[k] == dedent(l, pl));
        if is_blank(l) {
            assert(d[k] == Seq::<char>::empty());
        } else {
            assert(pl <= indent_len(l));
            lemma_indent_len_bound(l);
            assert(d[k] == l.skip(pl as int));
            lemma_nonblank_past_indent(l, pl);
            lemma_indent_skip(l, pl);
            assert forall|q: int| 0 <= q < d[k].len() implies d[k][q] != '\n' && #[trigger] d[k][q]
                != '\r' by {
                assert(d[k][q] == l[q + pl]);
            }
        }
    }
}

/// Once the common indentation is removed, the lines share none.
proof fn lemma_dedented_indent(kept: Seq<Seq<char>>)
    requires
        common_indent(kept) is Some,
        forall|k: int| 0 <= k < kept.len() ==> no_nl(#[trigger] kept[k]) && no_cr(kept[k]),
    ensures
        common_indent(dedented(kept, common_indent(kept).unwrap().len())) matches Some(q) && q.len()
            == 0,
{
    let pl = common_indent(kept).unwrap().len();
    lemma_common_indent_longest(kept);
    lemma_dedented_lines(kept, pl);
    let d = dedented(kept, pl);
    let w = choose|k: int| 0 <= k < kept.len() && !is_blank(#[trigger] kept[k]);
    assert(!is_blank(d[w]));
    lemma_common_indent_prefix(d);
    lemma_common_indent_longest(d);
    let q = common_indent(d).unwrap();
    if q.len() > 0 {
        if exists|k: int|
            0 <= k < kept.len() && !is_blank(kept[k]) && indent_len(#[trigger] kept[k]) == pl {
            let k = choose|k: int|
                0 <= k < kept.len() && !is_blank(kept[k]) && indent_len(#[trigger] kept[k]) == pl;
            assert(!is_blank(d[k]));
        } else {
            let (k1, k2) = choose|k1: int, k2: int|
                0 <= k1 < kept.len() && 0 <= k2 < kept.len() && !is_blank(kept[k1]) && !is_blank(
                    kept[k2],
                ) && pl < indent_len(#[trigger] kept[k1]) && pl < indent_len(#[trigger] kept[k2])
                    && kept[k1][pl as int] != kept[k2][pl as int];
            assert(!is_blank(d[k1]) && !is_blank(d[k2]));
            lemma_indent_len_bound(kept[k1]);
            lemma_indent_len_bound(kept[k2]);
            assert(d[k1][0] == kept[k1][pl as int]);
            assert(d[k2][0] == kept[k2][pl as int]);
            assert(d[k1].take(q.len() as int)[0] == d[k1][0]);
            assert(d[k2].take(q.len() as int)[0] == d[k2][0]);
        }
    }
}

/// Stripping notes that were stripped already changes nothing.
pub proof fn lemma_strip_notes_idempotent(notes: Seq<char>)
    ensures
        spec_strip_notes(spec_strip_notes(notes)) == spec_strip_notes(notes),
{
    let n = normalize(notes);
    lemma_normalize_no_cr(notes);
    let lines = split_nl(n);
    lemma_split_pieces(n, 0);
    lemma_first_nonblank_prefix(lines, 0);
    match first_nonblank(lines, 0) {
        None => {
            let r = Seq::<char>::empty();
            assert(spec_strip_notes(notes) == r);
            lemma_normalize_identity(r);
            lemma_find_is(r, 0, '\n', None);
            assert(r.subrange(0, 0) =~= r);
            assert(split_nl(r) =~= seq![r]);
            assert(is_blank(r));
            assert(first_nonblank(seq![r], 1) is None);
        },
        Some(st) => {
            lemma_nonblank_end_after_first(lines, st);
            let en = nonblank_end(lines);
            lemma_nonblank_end_last(lines);
            let kept = lines.subrange(st, en);
            assert forall|k: int| 0 <= k < kept.len() implies no_nl(#[trigger] kept[k]) && no_cr(
                kept[k],
            ) by {
                assert(kept[k] == lines[st + k]);
            }
            assert(kept[0] == lines[st]);
            lemma_common_indent_prefix(kept);
            let pl = common_indent(kept).unwrap().len();
            lemma_common_indent_longest(kept);
            lemma_dedented_lines(kept, pl);
            lemma_dedented_indent(kept);
            let d = dedented(kept, pl);
            let r = join_nl(d);
            assert(spec_strip_notes(notes) == r);
            lemma_no_cr_join(d);
            lemma_normalize_identity(r);
            lemma_split_join(d);
            assert(!is_blank(d[0]));
            assert(first_nonblank(d, 0) == Some(0int));
            assert(kept[kept.len() - 1] == lines[en - 1]);
            assert(!is_blank(d[d.len() - 1]));
            assert(nonblank_end(d) == d.len());
            assert(d.subrange(0, d.len() as int) =~= d);
            assert(dedented(d, 0) =~= d) by {
                assert forall|k: int| 0 <= k < d.len() implies dedent(d[k], 0) == d[k] by {
                    if !is_blank(d[k]) {
                        assert(d[k].skip(0) =~= d[k]);
                    } else {
                        assert(d[k] =~= Seq::<char>::empty());
                    }
                }
            }
            assert(spec_strip_notes(r) == join_nl(dedented(d, 0)));
        },
    }
}

/// What stripping gives: text without carriage returns that is empty exactly
/// when every line of the notes is blank, and otherwise has a non-blank
/// first and last line.
pub proof fn lemma_strip_notes_shape(notes: Seq<char>)
    ensures
        no_cr(spec_strip_notes(notes)),
        spec_strip_notes(notes).len() == 0 <==> forall|k: int|
            0 <= k < split_nl(normalize(notes)).len() ==> is_blank(
                #[trigger] split_nl(normalize(notes))[k],
            ),
        spec_strip_notes(notes).len() > 0 ==> !is_blank(split_nl(spec_strip_notes(notes))[0])
            && !is_blank(
            split_nl(spec_strip_notes(notes))[split_nl(spec_strip_notes(notes)).len() - 1],
        ),
{
    let n = normalize(notes);
    lemma_normalize_no_cr(notes);
    let lines = split_nl(n);
    lemma_split_pieces(n, 0);
    lemma_first_nonblank_prefix(lines, 0);
    let empty = Seq::<char>::empty();
    lemma_find_is(empty, 0, '\n', None);
    assert(empty.subrange(0, 0) =~= empty);
    assert(split_nl(empty) =~= seq![empty]);
    match first_nonblank(lines, 0) {
        None => {
            assert(spec_strip_notes(notes) == empty);
        },
        Some(st) => {
            lemma_nonblank_end_after_first(lines, st);
            let en = nonblank_end(lines);
            lemma_nonblank_end_last(lines);
            let kept = lines.subrange(st, en);
            assert forall|k: int| 0 <= k < kept.len() implies no_nl(#[trigger] kept[k]) && no_cr(
                kept[k],
            ) by {
                assert(kept[k] == lines[st + k]);
            }
            assert(kept[0] == lines[st]);
            lemma_common_indent_prefix(kept);
            let pl = common_indent(kept).unwrap().len();
            lemma_common_indent_longest(kept);
            lemma_dedented_lines(kept, pl);
            let d = dedented(kept, pl);
            let r = join_nl(d);
            assert(spec_strip_notes(notes) == r);
            lemma_no_cr_join(d);
            lemma_split_join(d);
            assert(!is_blank(d[0]));
            assert(kept[kept.len() - 1] == lines[en - 1]);
            assert(!is_blank(d[d.len() - 1]));
            if r.len() == 0 {
                assert(r =~= empty);
                assert(d[0] == empty);
                assert(is_blank(empty));
            }
            assert(!is_blank(lines[st]));
        },
    }
}

} // verus!
