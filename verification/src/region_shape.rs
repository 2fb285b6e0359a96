//! The shape of a parsed region's text: which texts the entry grammar reads
//! back as a given preamble and list of entries.
use vstd::prelude::*;
use crate::backlog_file::{
    concat_entries, entries_from, fm_end, is_bullet_at, lemma_backlog_round_trip,
    lemma_concat_entries_cons, lemma_frontmatter_round_trip, lemma_next_bullet,
    lemma_next_bullet_line_start, lemma_sep_line_from, next_bullet, sep, sep_line_from,
    spec_backlog_parse, spec_file_serialize, spec_fm_body, spec_fm_raw, spec_fm_serialize,
    spec_region, RegionView,
};
use crate::text::{lemma_line_end_bounds, line_end, occurs_at};

verus! {

/// Position `j` of `n` opens `- `.
pub open spec fn opens_bullet(n: Seq<char>, j: int) -> bool {
    n[j] == '-' && j + 1 < n.len() && n[j + 1] == ' '
}

/// Position `j` of `n` starts a line.
pub open spec fn is_line_start(n: Seq<char>, j: int) -> bool {
    j == 0 || n[j - 1] == '\n'
}

/// No line of `n` (a standalone text) opens with `- `.
pub open spec fn no_bullet_lines(n: Seq<char>) -> bool {
    forall|j: int| 0 <= j < n.len() && is_line_start(n, j) ==> !#[trigger] opens_bullet(n, j)
}

/// A text that is empty or ends with a newline.
pub open spec fn ends_nl(s: Seq<char>) -> bool {
    s.len() == 0 || s.last() == '\n'
}

/// A bullet line: opens with `- `, and holds no newline before its last
/// character.
pub open spec fn bullet_line_shape(l: Seq<char>) -> bool {
    &&& l.len() >= 2
    &&& l[0] == '-'
    &&& l[1] == ' '
    &&& forall|k: int| 0 <= k < l.len() - 1 ==> #[trigger] l[k] != '\n'
}

/// An entry that the grammar reads back as itself: a bullet line, then notes
/// with no bullet line; only the last entry may end without a newline, and a
/// line without newline has no notes.
pub open spec fn entry_shape(e: (Seq<char>, Seq<char>), last: bool) -> bool {
    &&& bullet_line_shape(e.0)
    &&& no_bullet_lines(e.1)
    &&& (e.1.len() > 0 ==> e.0.last() == '\n')
    &&& (!last ==> e.0.last() == '\n' && ends_nl(e.1))
}

pub open spec fn entries_shape(es: Seq<(Seq<char>, Seq<char>)>) -> bool {
    forall|i: int| 0 <= i < es.len() ==> entry_shape(#[trigger] es[i], i == es.len() - 1)
}

/// The line that starts at `i` runs to just past the first newline of the
/// segment `[i, i + len)` when the segment holds one only at its end.
pub proof fn lemma_line_end_segment(t: Seq<char>, i: int, len: int)
    requires
        0 <= i,
        0 < len,
        i + len <= t.len(),
        forall|k: int| i <= k < i + len - 1 ==> t[k] != '\n',
        t[i + len - 1] == '\n' || i + len == t.len(),
    ensures
        line_end(t, i) == i + len,
    decreases len,
{
    if t[i] != '\n' {
        if len > 1 {
            lemma_line_end_segment(t, i + 1, len - 1);
        }
    }
}

/// Scanning for a bullet from a line start crosses a stretch of lines without
/// bullet lines and stops right after it, at a bullet line or at the end.
pub proof fn lemma_next_bullet_over(t: Seq<char>, e: int, n: Seq<char>, i: int)
    requires
        0 <= e <= i <= e + n.len() <= t.len(),
        t.subrange(e, e + n.len()) == n,
        no_bullet_lines(n),
        i == e || i == t.len() || n[i - e - 1] == '\n',
        n.len() == 0 || n.last() == '\n' || e + n.len() == t.len(),
        e + n.len() == t.len() || is_bullet_at(t, e + n.len()),
    ensures
        next_bullet(t, i) == e + n.len(),
    decreases e + n.len() - i,
{
    let end = e + n.len();
    if i < end {
        let j = i - e;
        assert(j == 0 || n[j - 1] == '\n');
        assert(t[i] == n[j]) by {
            assert(t.subrange(e, end)[j] == t[i]);
        }
        if j + 1 < n.len() {
            assert(t[i + 1] == n[j + 1]) by {
                assert(t.subrange(e, end)[j + 1] == t[i + 1]);
            }
        }
        assert(is_line_start(n, j));
        assert(!opens_bullet(n, j));
        if j + 1 == n.len() && end < t.len() {
            assert(n.last() == '\n');
            assert(n[j] == '\n');
        }
        assert(!is_bullet_at(t, i));
        lemma_line_end_bounds(t, i);
        let le = line_end(t, i);
        if n.len() > 0 && n.last() == '\n' {
            assert(t[end - 1] == '\n') by {
                assert(t.subrange(e, end)[n.len() - 1] == t[end - 1]);
            }
        }
        assert(le <= end);
        if le < end {
            assert(t[le - 1] == '\n');
            assert(n[le - e - 1] == t[le - 1]) by {
                assert(t.subrange(e, end)[le - e - 1] == t[le - 1]);
            }
        }
        lemma_next_bullet_over(t, e, n, le);
    }
}

/// Entries of the right shape, written one after another behind any text,
/// are read back from where they start as exactly those entries.
pub proof fn lemma_entries_of_shape(a: Seq<char>, es: Seq<(Seq<char>, Seq<char>)>)
    requires
        entries_shape(es),
    ensures
        entries_from(a + concat_entries(es), a.len() as int) == es,
    decreases es.len(),
{
    let t = a + concat_entries(es);
    if es.len() == 0 {
        assert(concat_entries(es) =~= Seq::<char>::empty());
        assert(t =~= a);
        assert(entries_from(t, a.len() as int) =~= es);
    } else {
        let x = es[0];
        let rest = es.drop_first();
        assert(es =~= seq![x] + rest);
        lemma_concat_entries_cons(x, rest);
        let l = x.0;
        let n = x.1;
        let b = a.len() as int;
        let e = b + l.len();
        let nb = e + n.len();
        let a2 = a + l + n;
        assert(t =~= a2 + concat_entries(rest));
        assert(entry_shape(es[0], 0 == es.len() - 1));
        assert forall|i: int| 0 <= i < rest.len() implies entry_shape(
            #[trigger] rest[i],
            i == rest.len() - 1,
        ) by {
            assert(rest[i] == es[i + 1]);
            assert(entry_shape(es[i + 1], i + 1 == es.len() - 1));
        }
        if rest.len() == 0 {
            assert(concat_entries(rest) =~= Seq::<char>::empty());
        }
        // The bullet line.
        assert forall|k: int| b <= k < b + l.len() - 1 implies t[k] != '\n' by {
            assert(t[k] == l[k - b]);
        }
        assert(t[e - 1] == l[l.len() - 1]);
        lemma_line_end_segment(t, b, l.len() as int);
        // The notes.
        assert(t.subrange(e, nb) =~= n);
        if rest.len() > 0 {
            let y = rest[0];
            assert(entry_shape(rest[0], 0 == rest.len() - 1));
            assert(rest =~= seq![y] + rest.drop_first());
            lemma_concat_entries_cons(y, rest.drop_first());
            assert(t[nb] == y.0[0]);
            assert(t[nb + 1] == y.0[1]);
        }
        lemma_next_bullet_over(t, e, n, e);
        assert(t.subrange(b, e) =~= l);
        assert(entries_from(t, b) == seq![(t.subrange(b, e), t.subrange(e, nb))] + entries_from(t, nb));
        lemma_entries_of_shape(a2, rest);
        assert(a2.len() == nb);
        assert(entries_from(t, b) =~= es);
    }
}

/// The lines that a scan for the next bullet passes over hold no bullet line.
pub proof fn lemma_next_bullet_skipped(s: Seq<char>, i: int)
    requires
        0 <= i <= s.len(),
        i == 0 || i == s.len() || s[i - 1] == '\n',
    ensures
        no_bullet_lines(s.subrange(i, next_bullet(s, i))),
    decreases s.len() - i,
{
    lemma_next_bullet(s, i);
    let n = next_bullet(s, i);
    let sub = s.subrange(i, n);
    if i < s.len() && !is_bullet_at(s, i) {
        lemma_line_end_bounds(s, i);
        let le = line_end(s, i);
        if le < s.len() {
            assert(s[le - 1] == '\n');
        }
        lemma_next_bullet_skipped(s, le);
        lemma_next_bullet(s, le);
        let sub2 = s.subrange(le, n);
        assert forall|j: int| 0 <= j < sub.len() && is_line_start(sub, j) implies !#[trigger] opens_bullet(
            sub,
            j,
        ) by {
            if j == 0 {
                assert(sub[0] == s[i]);
                if 1 < sub.len() {
                    assert(sub[1] == s[i + 1]);
                }
            } else {
                assert(sub[j - 1] == s[i + j - 1]);
                assert(i + j >= le) by {
                    if i + j < le {
                        assert(s[i + j - 1] != '\n');
                    }
                }
                let j2 = i + j - le;
                assert(sub[j] == sub2[j2]);
                if j2 > 0 {
                    assert(sub2[j2 - 1] == sub[j - 1]);
                }
                assert(is_line_start(sub2, j2));
                assert(!opens_bullet(sub2, j2));
                if j + 1 < sub.len() {
                    assert(sub[j + 1] == sub2[j2 + 1]);
                }
            }
        }
    } else {
        assert(sub.len() == 0);
    }
}

/// The entries read from a bullet position have the shape that reads back.
pub proof fn lemma_entries_shape_from(s: Seq<char>, b: int)
    requires
        0 <= b <= s.len(),
        b == 0 || b == s.len() || s[b - 1] == '\n',
        b < s.len() ==> is_bullet_at(s, b),
    ensures
        entries_shape(entries_from(s, b)),
    decreases s.len() - b,
{
    if b < s.len() {
        lemma_line_end_bounds(s, b);
        let e = line_end(s, b);
        lemma_next_bullet(s, e);
        let n = next_bullet(s, e);
        if e < s.len() {
            assert(s[e - 1] == '\n');
        }
        lemma_next_bullet_skipped(s, e);
        if e < s.len() {
            lemma_next_bullet_line_start(s, e);
        }
        lemma_entries_shape_from(s, n);
        let l = s.subrange(b, e);
        let notes = s.subrange(e, n);
        let rest = entries_from(s, n);
        let es = entries_from(s, b);
        assert(es == seq![(l, notes)] + rest);
        assert(e >= b + 2) by {
            if e < b + 2 {
                assert(s[b] != '\n');
            }
        }
        assert(bullet_line_shape(l)) by {
            assert(l[0] == s[b]);
            assert(l[1] == s[b + 1]);
            assert forall|k: int| 0 <= k < l.len() - 1 implies #[trigger] l[k] != '\n' by {
                assert(l[k] == s[b + k]);
            }
        }
        if notes.len() > 0 {
            assert(l.last() == s[e - 1]);
        }
        if rest.len() > 0 {
            assert(n < s.len());
            assert(s[n - 1] == '\n');
            if notes.len() > 0 {
                assert(notes.last() == s[n - 1]);
                assert(l.last() == s[e - 1]);
            } else {
                assert(l.last() == s[e - 1]);
            }
        }
        assert(entry_shape(es[0], 0 == es.len() - 1));
        assert forall|i: int| 0 <= i < es.len() implies entry_shape(#[trigger] es[i], i == es.len() - 1) by {
            if i > 0 {
                assert(es[i] == rest[i - 1]);
                assert(entry_shape(rest[i - 1], i - 1 == rest.len() - 1));
            }
        }
    }
}

/// The preamble of a region holds no bullet line and, when entries follow,
/// ends with a newline; the entries have the shape that reads back.
pub proof fn lemma_region_shape(s: Seq<char>)
    ensures
        no_bullet_lines(spec_region(s).preamble),
        spec_region(s).entries.len() > 0 ==> ends_nl(spec_region(s).preamble),
        entries_shape(spec_region(s).entries),
{
    lemma_next_bullet(s, 0);
    let p = next_bullet(s, 0);
    lemma_next_bullet_skipped(s, 0);
    lemma_next_bullet_line_start(s, 0);
    lemma_entries_shape_from(s, p);
    if spec_region(s).entries.len() > 0 && p > 0 {
        assert(spec_region(s).preamble.last() == s[p - 1]);
    }
}

/// A preamble without bullet lines followed by entries of the right shape is
/// read back as that preamble and those entries.
pub proof fn lemma_region_of_shape(pre: Seq<char>, es: Seq<(Seq<char>, Seq<char>)>)
    requires
        no_bullet_lines(pre),
        es.len() > 0 ==> ends_nl(pre),
        entries_shape(es),
    ensures
        spec_region(pre + concat_entries(es)) == (RegionView { preamble: pre, entries: es }),
{
    let t = pre + concat_entries(es);
    assert(t.subrange(0, pre.len() as int) =~= pre);
    if es.len() > 0 {
        let x = es[0];
        assert(es =~= seq![x] + es.drop_first());
        lemma_concat_entries_cons(x, es.drop_first());
        assert(entry_shape(es[0], 0 == es.len() - 1));
        assert(t[pre.len() as int] == x.0[0]);
        assert(t[pre.len() as int + 1] == x.0[1]);
    } else {
        assert(concat_entries(es) =~= Seq::<char>::empty());
    }
    lemma_next_bullet_over(t, 0, pre, 0);
    lemma_entries_of_shape(pre, es);
}

// ---------------------------------------------------------------------------
// Scans over texts that agree in part
// ---------------------------------------------------------------------------

/// Two texts that agree on a line (newline included) end that line at the
/// same place.
pub proof fn lemma_line_end_agree(s: Seq<char>, t: Seq<char>, i: int, e: int)
    requires
        0 <= i < e <= s.len(),
        e <= t.len(),
        e == line_end(s, i),
        s[e - 1] == '\n',
        forall|k: int| i <= k < e ==> s[k] == t[k],
    ensures
        line_end(t, i) == e,
    decreases e - i,
{
    assert(s[i] == t[i]);
    if s[i] != '\n' {
        lemma_line_end_bounds(s, i + 1);
        lemma_line_end_agree(s, t, i + 1, e);
    }
}

/// A separator scan that ends inside a prefix two texts share ends at the same
/// place in both.
pub proof fn lemma_sep_scan_agree(s: Seq<char>, t: Seq<char>, i: int, k: int)
    requires
        0 <= i <= k,
        k + 4 <= s.len(),
        k + 4 <= t.len(),
        s.subrange(0, k + 4) == t.subrange(0, k + 4),
        sep_line_from(s, i) == Some(k),
    ensures
        sep_line_from(t, i) == Some(k),
    decreases k - i,
{
    assert forall|j: int| 0 <= j < k + 4 implies s[j] == t[j] by {
        assert(s.subrange(0, k + 4)[j] == s[j]);
        assert(t.subrange(0, k + 4)[j] == t[j]);
    }
    if i == k {
        lemma_sep_line_from(s, k);
        assert(occurs_at(s, k, sep()));
        assert(t.subrange(k, k + 4) =~= s.subrange(k, k + 4));
    } else {
        assert(!occurs_at(s, i, sep()));
        assert(!occurs_at(t, i, sep())) by {
            if occurs_at(t, i, sep()) {
                assert(s.subrange(i, i + 4) =~= t.subrange(i, i + 4));
            }
        }
        lemma_line_end_bounds(s, i);
        let le = line_end(s, i);
        lemma_sep_line_from(s, le);
        assert(le <= k);
        assert(s[le - 1] == '\n') by {
            if le < s.len() {
            }
        }
        lemma_line_end_agree(s, t, i, le);
        lemma_sep_scan_agree(s, t, le, k);
    }
}

/// Scanning for a separator through a newline-terminated text without one,
/// followed by anything, reaches the end of that text.
pub proof fn lemma_sep_scan_into(np: Seq<char>, x: Seq<char>, i: int)
    requires
        0 <= i <= np.len(),
        i == 0 || np[i - 1] == '\n',
        ends_nl(np),
        sep_line_from(np, i) is None,
    ensures
        sep_line_from(np + x, i) == sep_line_from(np + x, np.len() as int),
    decreases np.len() - i,
{
    let t = np + x;
    if i < np.len() {
        assert(!occurs_at(np, i, sep()));
        assert(!occurs_at(t, i, sep())) by {
            if occurs_at(t, i, sep()) {
                if i + 4 <= np.len() {
                    assert(np.subrange(i, i + 4) =~= t.subrange(i, i + 4));
                } else {
                    let m = np.len() - 1 - i;
                    assert(t[i + m] == np[np.len() - 1]);
                    assert(t.subrange(i, i + 4)[m] == t[i + m]);
                    assert(sep()[m] == '-');
                }
            }
        }
        lemma_line_end_bounds(np, i);
        let le = line_end(np, i);
        assert(np[le - 1] == '\n') by {
            if le == np.len() {
                assert(np.last() == np[le - 1]);
            }
        }
        assert forall|k: int| i <= k < le implies np[k] == t[k] by {}
        lemma_line_end_agree(np, t, i, le);
        lemma_sep_scan_into(np, x, le);
    }
}

/// A text written as the frontmatter that `s` opens with, followed by `np`
/// and `x`, reads back with that frontmatter and `np + x` as its body (when
/// `s` has no frontmatter, the new text must not open with a separator line).
#[verifier::spinoff_prover]
#[verifier::rlimit(40)]
pub proof fn lemma_fm_of_written(s: Seq<char>, np: Seq<char>, x: Seq<char>)
    requires
        spec_backlog_parse(s).frontmatter.present || !occurs_at(np + x, 0, sep()),
    ensures
        ({
            let o = spec_fm_serialize(spec_backlog_parse(s).frontmatter) + (np + x);
            &&& (fm_end(o) is Some) == (fm_end(s) is Some)
            &&& spec_fm_raw(o) == spec_fm_raw(s)
            &&& spec_fm_body(o) == np + x
        }),
{
    let f = spec_backlog_parse(s);
    let fser = spec_fm_serialize(f.frontmatter);
    let body2 = np + x;
    let o = fser + body2;
    lemma_frontmatter_round_trip(s);
    if f.frontmatter.present {
        let k = fm_end(s).unwrap();
        lemma_sep_line_from(s, 4);
        assert(fser =~= s.subrange(0, k + 4));
        assert(o.subrange(0, k + 4) =~= s.subrange(0, k + 4));
        assert(occurs_at(o, 0, sep())) by {
            assert(o.subrange(0, 4) =~= s.subrange(0, 4));
        }
        lemma_sep_scan_agree(s, o, 4, k);
        assert(fm_end(o) == Some(k));
        assert(spec_fm_raw(o) =~= spec_fm_raw(s));
        assert(spec_fm_body(o) =~= body2);
    } else {
        assert(fser =~= Seq::<char>::empty());
        assert(o =~= body2);
        assert(fm_end(o) is None);
        assert(spec_fm_raw(o) =~= spec_fm_raw(s));
    }
}

/// The parsed and freeform parts of a body made of `np` and the old freeform
/// part.
proof fn lemma_split_of_written(np: Seq<char>, ff: Option<Seq<char>>)
    requires
        sep_line_from(np, 0) is None,
        ff is Some ==> ends_nl(np),
    ensures
        ({
            let x = match ff {
                Some(f) => sep() + f,
                None => Seq::<char>::empty(),
            };
            &&& crate::backlog_file::spec_split_parsed(np + x) == np
            &&& crate::backlog_file::spec_split_freeform(np + x) == ff
        }),
{
    match ff {
        Some(f) => {
            let x = sep() + f;
            let body2 = np + x;
            lemma_sep_scan_into(np, x, 0);
            assert(occurs_at(body2, np.len() as int, sep())) by {
                assert(body2.subrange(np.len() as int, np.len() as int + 4) =~= sep());
            }
            assert(sep_line_from(body2, np.len() as int) == Some(np.len() as int));
            assert(body2.subrange(0, np.len() as int) =~= np);
            assert(body2.subrange(np.len() as int + 4, body2.len() as int) =~= f);
        },
        None => {
            assert(np + Seq::<char>::empty() =~= np);
        },
    }
}

/// The backlog text written with a new parsed region `np` reads back with
/// the same frontmatter and freeform region and `np` as its parsed region,
/// when `np` holds no separator line, ends with a newline if a freeform region
/// follows, and cannot be taken for a frontmatter block's opening: `np`
/// opens with a line other than the separator, or with a character other
/// than `-` among its first three.
pub proof fn lemma_file_reparse(s: Seq<char>, np: Seq<char>)
    requires
        sep_line_from(np, 0) is None,
        spec_backlog_parse(s).freeform is Some ==> ends_nl(np),
        spec_backlog_parse(s).frontmatter.present || np == spec_backlog_parse(s).parsed || (
        np.len() >= 4 && !occurs_at(np, 0, sep())) || (exists|k: int|
            0 <= k < np.len() && k < 3 && #[trigger] np[k] != '-') || (spec_backlog_parse(
            s,
        ).freeform is None && !occurs_at(np, 0, sep())),
    ensures
        spec_backlog_parse(spec_file_serialize(spec_backlog_parse(s), np)) == (
        crate::backlog_file::BacklogFileView {
            frontmatter: spec_backlog_parse(s).frontmatter,
            parsed: np,
            freeform: spec_backlog_parse(s).freeform,
        }),
{
    let f = spec_backlog_parse(s);
    let o = spec_file_serialize(f, np);
    lemma_backlog_round_trip(s);
    if np == f.parsed {
        assert(o == s);
    } else {
        let x = match f.freeform {
            Some(ff) => sep() + ff,
            None => Seq::<char>::empty(),
        };
        assert(o =~= spec_fm_serialize(f.frontmatter) + (np + x));
        assert(f.frontmatter.present || !occurs_at(np + x, 0, sep())) by {
            if occurs_at(np + x, 0, sep()) {
                let t = np + x;
                assert(t.subrange(0, 4) == sep());
                if f.freeform is None {
                    assert(t =~= np);
                } else if np.len() >= 4 {
                    assert(np.subrange(0, 4) =~= t.subrange(0, 4));
                } else if !f.frontmatter.present {
                    let k = choose|k: int| 0 <= k < np.len() && k < 3 && #[trigger] np[k] != '-';
                    assert(t[k] == np[k]);
                    assert(t.subrange(0, 4)[k] == t[k]);
                }
            }
        }
        lemma_fm_of_written(s, np, x);
        lemma_split_of_written(np, f.freeform);
    }
}

// ---------------------------------------------------------------------------
// Separator lines
// ---------------------------------------------------------------------------

/// No line of `t` is exactly the separator `---\n`.
pub open spec fn no_sep_line(t: Seq<char>) -> bool {
    forall|j: int| 0 <= j < t.len() && is_line_start(t, j) ==> !#[trigger] occurs_at(t, j, sep())
}

/// Without a separator line, a scan for one from a line start finds none.
pub proof fn lemma_no_sep_scan(t: Seq<char>, i: int)
    requires
        no_sep_line(t),
        0 <= i <= t.len(),
        i == 0 || i == t.len() || t[i - 1] == '\n',
    ensures
        sep_line_from(t, i) is None,
    decreases t.len() - i,
{
    if i < t.len() {
        assert(is_line_start(t, i));
        lemma_line_end_bounds(t, i);
        let le = line_end(t, i);
        lemma_no_sep_scan(t, le);
    }
}

/// A scan for a separator from a line start passes only lines that are not
/// separators.
pub proof fn lemma_sep_scan_passes(t: Seq<char>, i: int)
    requires
        0 <= i <= t.len(),
        i == 0 || i == t.len() || t[i - 1] == '\n',
    ensures
        forall|j: int|
            i <= j < (match sep_line_from(t, i) {
                Some(o) => o,
                None => t.len() as int,
            }) && is_line_start(t, j) ==> !#[trigger] occurs_at(t, j, sep()),
    decreases t.len() - i,
{
    if i < t.len() && !occurs_at(t, i, sep()) {
        lemma_line_end_bounds(t, i);
        let le = line_end(t, i);
        lemma_sep_scan_passes(t, le);
        lemma_sep_line_from(t, le);
        assert forall|j: int|
            i <= j < (match sep_line_from(t, i) {
                Some(o) => o,
                None => t.len() as int,
            }) && is_line_start(t, j) implies !#[trigger] occurs_at(t, j, sep()) by {
            if i < j && j < le {
                assert(t[j - 1] != '\n');
            }
        }
    }
}

/// The parsed region of a body holds no separator line.
pub proof fn lemma_parsed_no_sep(body: Seq<char>)
    ensures
        no_sep_line(crate::backlog_file::spec_split_parsed(body)),
{
    let p = crate::backlog_file::spec_split_parsed(body);
    lemma_sep_scan_passes(body, 0);
    lemma_sep_line_from(body, 0);
    assert forall|j: int| 0 <= j < p.len() && is_line_start(p, j) implies !#[trigger] occurs_at(
        p,
        j,
        sep(),
    ) by {
        assert(p[j] == body[j]);
        if j > 0 {
            assert(p[j - 1] == body[j - 1]);
        }
        assert(is_line_start(body, j));
        if occurs_at(p, j, sep()) {
            assert(p.subrange(j, j + 4) =~= body.subrange(j, j + 4));
            assert(occurs_at(body, j, sep()));
        }
    }
}

/// Separator-free pieces joined at a line end give a separator-free text,
/// and the pieces of a separator-free text split at a line end are
/// separator-free.
pub proof fn lemma_no_sep_concat(a: Seq<char>, b: Seq<char>)
    requires
        ends_nl(a),
    ensures
        no_sep_line(a + b) <==> (no_sep_line(a) && no_sep_line(b)),
{
    let t = a + b;
    if no_sep_line(a) && no_sep_line(b) {
        assert forall|j: int| 0 <= j < t.len() && is_line_start(t, j) implies !#[trigger] occurs_at(
            t,
            j,
            sep(),
        ) by {
            if j < a.len() {
                assert(t[j] == a[j]);
                if j > 0 {
                    assert(t[j - 1] == a[j - 1]);
                }
                assert(is_line_start(a, j));
                if occurs_at(t, j, sep()) {
                    if j + 4 <= a.len() {
                        assert(a.subrange(j, j + 4) =~= t.subrange(j, j + 4));
                        assert(occurs_at(a, j, sep()));
                    } else {
                        let m = a.len() - 1 - j;
                        assert(t[j + m] == a[a.len() - 1]);
                        assert(t.subrange(j, j + 4)[m] == t[j + m]);
                    }
                }
            } else {
                let j2 = j - a.len();
                assert(t[j] == b[j2]);
                if j2 > 0 {
                    assert(t[j - 1] == b[j2 - 1]);
                }
                assert(is_line_start(b, j2));
                if occurs_at(t, j, sep()) {
                    assert(b.subrange(j2, j2 + 4) =~= t.subrange(j, j + 4));
                    assert(occurs_at(b, j2, sep()));
                }
            }
        }
    }
    if no_sep_line(t) {
        assert forall|j: int| 0 <= j < a.len() && is_line_start(a, j) implies !#[trigger] occurs_at(
            a,
            j,
            sep(),
        ) by {
            assert(t[j] == a[j]);
            if j > 0 {
                assert(t[j - 1] == a[j - 1]);
            }
            assert(is_line_start(t, j));
            if occurs_at(a, j, sep()) {
                assert(a.subrange(j, j + 4) =~= t.subrange(j, j + 4));
                assert(occurs_at(t, j, sep()));
            }
        }
        assert forall|j: int| 0 <= j < b.len() && is_line_start(b, j) implies !#[trigger] occurs_at(
            b,
            j,
            sep(),
        ) by {
            let k = j + a.len();
            assert(t[k] == b[j]);
            if j > 0 {
                assert(t[k - 1] == b[j - 1]);
            } else if a.len() > 0 {
                assert(t[k - 1] == a.last());
            }
            assert(is_line_start(t, k));
            if occurs_at(b, j, sep()) {
                assert(b.subrange(j, j + 4) =~= t.subrange(k, k + 4));
                assert(occurs_at(t, k, sep()));
            }
        }
    }
}

/// A bullet line is no separator line.
pub proof fn lemma_bullet_line_no_sep(l: Seq<char>)
    requires
        bullet_line_shape(l),
    ensures
        no_sep_line(l),
{
    assert forall|j: int| 0 <= j < l.len() && is_line_start(l, j) implies !#[trigger] occurs_at(
        l,
        j,
        sep(),
    ) by {
        if j > 0 {
            assert(l[j - 1] != '\n');
        } else if occurs_at(l, 0, sep()) {
            assert(l.subrange(0, 4)[1] == l[1]);
        }
    }
}

/// The text of entries is separator-free exactly when each entry's text is,
/// given that every entry but the last ends with a newline.
pub proof fn lemma_concat_no_sep(es: Seq<(Seq<char>, Seq<char>)>)
    requires
        forall|i: int| 0 <= i < es.len() - 1 ==> ends_nl(#[trigger] es[i].0 + es[i].1),
    ensures
        no_sep_line(concat_entries(es)) <==> (forall|i: int|
            0 <= i < es.len() ==> no_sep_line(#[trigger] es[i].0 + es[i].1)),
    decreases es.len(),
{
    if es.len() > 0 {
        let init = es.drop_last();
        let last = es.last();
        lemma_concat_no_sep(init);
        assert forall|k: int| 0 <= k < init.len() implies ends_nl(#[trigger] init[k].0 + init[k].1) by {
            assert(init[k] == es[k]);
        }
        crate::backlog_file::lemma_concat_ends_line(init);
        let c = concat_entries(init);
        assert(concat_entries(es) =~= c + (last.0 + last.1));
        lemma_no_sep_concat(c, last.0 + last.1);
        if no_sep_line(concat_entries(es)) {
            assert forall|i: int| 0 <= i < es.len() implies no_sep_line(#[trigger] es[i].0 + es[i].1) by {
                if i < es.len() - 1 {
                    assert(es[i] == init[i]);
                }
            }
        }
        if forall|i: int| 0 <= i < es.len() ==> no_sep_line(#[trigger] es[i].0 + es[i].1) {
            assert forall|i: int| 0 <= i < init.len() implies no_sep_line(#[trigger] init[i].0 + init[i].1) by {
                assert(init[i] == es[i]);
            }
            assert(no_sep_line(es[es.len() - 1].0 + es[es.len() - 1].1));
        }
    } else {
        assert(concat_entries(es) =~= Seq::<char>::empty());
    }
}

} // verus!
