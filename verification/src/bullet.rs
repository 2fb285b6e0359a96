//! Bullet lines: `- [id] [in-progress] [by:name] [blocked-by:id] title`.
use vstd::prelude::*;
use crate::base32::{is_b32, is_base32_char};
use crate::text::{
    chars_of, find_from, is_ascii_alnum, is_ascii_alphanumeric, is_whitespace, is_ws,
    lemma_find_from, lemma_strip_run_end_prefix, lemma_trim_end_prefix, lemma_trim_start_suffix,
    lower, lower_char, lower_string, push_str, starts_with, string_from, strip_run_end, trim_end,
    trim_end_index, trim_start,
};

verus! {

/// Why a bullet line cannot be read as a task.
#[derive(Debug, Clone, Copy, PartialEq, Eq, Structural)]
pub enum BulletError {
    /// Nothing but markers (or whitespace) follows the `- `.
    EmptyTitle,
}

impl BulletError {
    pub open spec fn message_text(&self) -> Seq<char> {
        "bullet has no title after markers"@
    }

    /// The user-facing description.
    pub fn message(&self) -> (r: String)
        ensures
            r@ == self.message_text(),
    {
        let mut out = String::new();
        push_str(&mut out, "bullet has no title after markers");
        out
    }
}

/// A parsed bullet line: its markers and its title.
#[derive(Debug, Clone, PartialEq, Eq)]
pub struct Bullet {
    pub id: Option<String>,
    pub in_progress: bool,
    pub by: Option<String>,
    pub blocked_by: Option<String>,
    pub title: String,
}

pub struct BulletView {
    pub id: Option<Seq<char>>,
    pub in_progress: bool,
    pub by: Option<Seq<char>>,
    pub blocked_by: Option<Seq<char>>,
    pub title: Seq<char>,
}

/// The view of an optional owned string.
pub open spec fn opt_string_view(o: Option<String>) -> Option<Seq<char>> {
    match o {
        Some(s) => Some(s@),
        None => None,
    }
}

impl View for Bullet {
    type V = BulletView;

    open spec fn view(&self) -> BulletView {
        BulletView {
            id: opt_string_view(self.id),
            in_progress: self.in_progress,
            by: opt_string_view(self.by),
            blocked_by: opt_string_view(self.blocked_by),
            title: self.title@,
        }
    }
}

// ---------------------------------------------------------------------------
// Marker grammar
// ---------------------------------------------------------------------------

/// `<3>-<3>` with both segments in the Crockford alphabet.
pub open spec fn is_id_token(s: Seq<char>) -> bool {
    &&& s.len() == 7
    &&& s[3] == '-'
    &&& is_b32(s[0]) && is_b32(s[1]) && is_b32(s[2])
    &&& is_b32(s[4]) && is_b32(s[5]) && is_b32(s[6])
}

/// A character allowed in a `[by:<name>]` marker: `[A-Za-z0-9_.-]`.
pub open spec fn is_name_char(c: char) -> bool {
    is_ascii_alnum(c) || c == '_' || c == '.' || c == '-'
}

/// A non-empty `[by:...]` name.
pub open spec fn is_name(s: Seq<char>) -> bool {
    s.len() > 0 && forall|i: int| 0 <= i < s.len() ==> is_name_char(#[trigger] s[i])
}

pub open spec fn lit_in_progress() -> Seq<char> {
    seq!['[', 'i', 'n', '-', 'p', 'r', 'o', 'g', 'r', 'e', 's', 's', ']']
}

pub open spec fn lit_by() -> Seq<char> {
    seq!['[', 'b', 'y', ':']
}

pub open spec fn lit_blocked_by() -> Seq<char> {
    seq!['[', 'b', 'l', 'o', 'c', 'k', 'e', 'd', '-', 'b', 'y', ':']
}

/// An `[<id>]` marker at the front of `r`: the lowercased id and the number of
/// characters the marker spans.
pub open spec fn spec_try_id(r: Seq<char>) -> Option<(Seq<char>, int)> {
    if r.len() > 0 && r[0] == '[' {
        match find_from(r, 1, ']') {
            Some(c) => if is_id_token(r.subrange(1, c)) {
                Some((lower(r.subrange(1, c)), c + 1))
            } else {
                None
            },
            None => None,
        }
    } else {
        None
    }
}

/// A `[by:<name>]` marker at the front of `r`.
pub open spec fn spec_try_by(r: Seq<char>) -> Option<(Seq<char>, int)> {
    if starts_with(r, lit_by()) {
        match find_from(r, 4, ']') {
            Some(c) => if is_name(r.subrange(4, c)) {
                Some((r.subrange(4, c), c + 1))
            } else {
                None
            },
            None => None,
        }
    } else {
        None
    }
}

/// A `[blocked-by:<id>]` marker at the front of `r`.
pub open spec fn spec_try_blocked_by(r: Seq<char>) -> Option<(Seq<char>, int)> {
    if starts_with(r, lit_blocked_by()) {
        match find_from(r, 12, ']') {
            Some(c) => if is_id_token(r.subrange(12, c)) {
                Some((lower(r.subrange(12, c)), c + 1))
            } else {
                None
            },
            None => None,
        }
    } else {
        None
    }
}

/// The markers read so far, plus every extra `[blocked-by:...]` target that
/// was read but not kept.
pub struct MarkerState {
    pub id: Option<Seq<char>>,
    pub in_progress: bool,
    pub by: Option<Seq<char>>,
    pub blocked_by: Option<Seq<char>>,
    pub dropped: Seq<Seq<char>>,
}

pub open spec fn empty_state() -> MarkerState {
    MarkerState { id: None, in_progress: false, by: None, blocked_by: None, dropped: Seq::empty() }
}

pub proof fn lemma_try_consumes(r: Seq<char>)
    ensures
        spec_try_id(r) matches Some((_, n)) ==> 0 < n <= r.len(),
        spec_try_by(r) matches Some((_, n)) ==> 0 < n <= r.len(),
        spec_try_blocked_by(r) matches Some((_, n)) ==> 0 < n <= r.len(),
{
    lemma_find_from(r, 1, ']');
    lemma_find_from(r, 4, ']');
    lemma_find_from(r, 12, ']');
}

/// Greedy, front-loaded marker reading: whitespace is skipped, then the first
/// token that is not a still-open marker ends the markers. A repeated
/// `[blocked-by:...]` is read and dropped.
pub open spec fn parse_markers(rest: Seq<char>, st: MarkerState) -> (MarkerState, Seq<char>)
    decreases rest.len(),
{
    let r = trim_start(rest);
    proof {
        lemma_trim_start_suffix(rest);
        lemma_try_consumes(r);
    }
    if !(r.len() > 0 && r[0] == '[') {
        (st, r)
    } else if st.id is None && spec_try_id(r) is Some {
        let (id, n) = spec_try_id(r).unwrap();
        parse_markers(r.skip(n), MarkerState { id: Some(id), ..st })
    } else if !st.in_progress && starts_with(r, lit_in_progress()) {
        parse_markers(r.skip(13), MarkerState { in_progress: true, ..st })
    } else if st.by is None && spec_try_by(r) is Some {
        let (name, n) = spec_try_by(r).unwrap();
        parse_markers(r.skip(n), MarkerState { by: Some(name), ..st })
    } else if spec_try_blocked_by(r) is Some {
        let (id, n) = spec_try_blocked_by(r).unwrap();
        if st.blocked_by is None {
            parse_markers(r.skip(n), MarkerState { blocked_by: Some(id), ..st })
        } else {
            parse_markers(r.skip(n), MarkerState { dropped: st.dropped.push(id), ..st })
        }
    } else {
        (st, r)
    }
}

pub open spec fn lit_dash_space() -> Seq<char> {
    seq!['-', ' ']
}

/// The body of a bullet line: without its `- ` prefix, then without trailing
/// newlines, then without trailing carriage returns.
pub open spec fn bullet_body(line: Seq<char>) -> Seq<char> {
    let b = if starts_with(line, lit_dash_space()) {
        line.skip(2)
    } else {
        line
    };
    strip_run_end(strip_run_end(b, '\n'), '\r')
}

/// Markers and remaining text of a bullet line.
pub open spec fn spec_read(line: Seq<char>) -> (MarkerState, Seq<char>) {
    parse_markers(bullet_body(line), empty_state())
}

/// How a bullet line reads: markers, then the trimmed title, which must not
/// be empty.
pub open spec fn spec_parse(line: Seq<char>) -> Result<BulletView, BulletError> {
    let (st, r) = spec_read(line);
    let title = trim_end(r);
    if title.len() == 0 {
        Err(BulletError::EmptyTitle)
    } else {
        Ok(
            BulletView {
                id: st.id,
                in_progress: st.in_progress,
                by: st.by,
                blocked_by: st.blocked_by,
                title,
            },
        )
    }
}

/// The `[blocked-by:...]` targets that reading `line` drops, in order.
pub open spec fn spec_dropped(line: Seq<char>) -> Seq<Seq<char>> {
    spec_read(line).0.dropped
}

pub open spec fn id_part(b: BulletView) -> Seq<char> {
    match b.id {
        Some(id) => seq!['['] + id + seq![']', ' '],
        None => Seq::empty(),
    }
}

pub open spec fn in_progress_part(b: BulletView) -> Seq<char> {
    if b.in_progress {
        lit_in_progress() + seq![' ']
    } else {
        Seq::empty()
    }
}

pub open spec fn by_part(b: BulletView) -> Seq<char> {
    match b.by {
        Some(n) => lit_by() + n + seq![']', ' '],
        None => Seq::empty(),
    }
}

pub open spec fn blocked_by_part(b: BulletView) -> Seq<char> {
    match b.blocked_by {
        Some(id) => lit_blocked_by() + id + seq![']', ' '],
        None => Seq::empty(),
    }
}

/// The canonical marker prefix, each marker followed by one space.
pub open spec fn marker_prefix(b: BulletView) -> Seq<char> {
    id_part(b) + in_progress_part(b) + by_part(b) + blocked_by_part(b)
}

/// The canonical bullet line: `- `, the markers in canonical order, the title
/// without trailing whitespace, and a newline.
pub open spec fn spec_serialize(b: BulletView) -> Seq<char> {
    lit_dash_space() + marker_prefix(b) + trim_end(b.title) + seq!['\n']
}

// ---------------------------------------------------------------------------
// Executable reading
// ---------------------------------------------------------------------------

/// Exec counterpart of [`find_from`] over `v[lo..hi]`, with the search
/// starting at relative offset `from`.
fn find_in(v: &Vec<char>, lo: usize, hi: usize, from: usize, c: char) -> (r: Option<usize>)
    requires
        lo <= hi <= v@.len(),
        from <= hi - lo,
    ensures
        match r {
            Some(k) => find_from(v@.subrange(lo as int, hi as int), from as int, c) == Some(k as int),
            None => find_from(v@.subrange(lo as int, hi as int), from as int, c) is None,
        },
{
    let ghost s = v@.subrange(lo as int, hi as int);
    let mut k = from;
    while k < hi - lo
        invariant
            lo <= hi <= v@.len(),
            s == v@.subrange(lo as int, hi as int),
            from <= k <= hi - lo,
            find_from(s, from as int, c) == find_from(s, k as int, c),
        decreases hi - lo - k,
    {
        if v[lo + k] == c {
            assert(s[k as int] == v@[lo + k]);
            return Some(k);
        }
        k += 1;
    }
    None
}

fn is_id_token_at(v: &Vec<char>, lo: usize, hi: usize) -> (r: bool)
    requires
        lo <= hi <= v@.len(),
    ensures
        r == is_id_token(v@.subrange(lo as int, hi as int)),
{
    hi - lo == 7 && v[lo + 3] == '-' && is_base32_char(v[lo]) && is_base32_char(v[lo + 1])
        && is_base32_char(v[lo + 2]) && is_base32_char(v[lo + 4]) && is_base32_char(v[lo + 5])
        && is_base32_char(v[lo + 6])
}

fn is_name_at(v: &Vec<char>, lo: usize, hi: usize) -> (r: bool)
    requires
        lo <= hi <= v@.len(),
    ensures
        r == is_name(v@.subrange(lo as int, hi as int)),
{
    if lo == hi {
        return false;
    }
    let ghost s = v@.subrange(lo as int, hi as int);
    let mut k = lo;
    while k < hi
        invariant
            lo <= k <= hi <= v@.len(),
            s == v@.subrange(lo as int, hi as int),
            forall|i: int| 0 <= i < k - lo ==> is_name_char(#[trigger] s[i]),
        decreases hi - k,
    {
        let c = v[k];
        if !(is_ascii_alphanumeric(c) || c == '_' || c == '.' || c == '-') {
            assert(!is_name_char(s[k - lo]));
            return false;
        }
        k += 1;
    }
    true
}

/// `v[lo..hi]` starts with the literal `p`.
fn starts_with_at(v: &Vec<char>, lo: usize, hi: usize, p: &Vec<char>) -> (r: bool)
    requires
        lo <= hi <= v@.len(),
    ensures
        r == starts_with(v@.subrange(lo as int, hi as int), p@),
{
    if p.len() > hi - lo {
        return false;
    }
    let mut k: usize = 0;
    while k < p.len()
        invariant
            lo <= hi <= v@.len(),
            p@.len() <= hi - lo,
            k <= p@.len(),
            forall|j: int| 0 <= j < k ==> v@[lo + j] == p@[j],
        decreases p@.len() - k,
    {
        if v[lo + k] != p[k] {
            assert(v@.subrange(lo as int, hi as int).subrange(0, p@.len() as int)[k as int] != p@[k as int]);
            return false;
        }
        k += 1;
    }
    assert(v@.subrange(lo as int, hi as int).subrange(0, p@.len() as int) =~= p@);
    true
}

/// Literal marker texts.
struct Lits {
    in_progress: Vec<char>,
    by: Vec<char>,
    blocked_by: Vec<char>,
}

fn lits() -> (r: Lits)
    ensures
        r.in_progress@ == lit_in_progress(),
        r.by@ == lit_by(),
        r.blocked_by@ == lit_blocked_by(),
{
    let r = Lits {
        in_progress: chars_of("[in-progress]"),
        by: chars_of("[by:"),
        blocked_by: chars_of("[blocked-by:"),
    };
    proof {
        reveal_strlit("[in-progress]");
        reveal_strlit("[by:");
        reveal_strlit("[blocked-by:");
    }
    r
}

/// An `[<id>]` marker at the front of `v[pos..end]`: the lowercased id and the
/// position just after the marker.
fn try_id(v: &Vec<char>, pos: usize, end: usize) -> (r: Option<(String, usize)>)
    requires
        pos <= end <= v@.len(),
    ensures
        match r {
            Some((id, np)) => spec_try_id(v@.subrange(pos as int, end as int)) == Some(
                (id@, np - pos),
            ) && pos < np <= end,
            None => spec_try_id(v@.subrange(pos as int, end as int)) is None,
        },
{
    let ghost s = v@.subrange(pos as int, end as int);
    if !(pos < end && v[pos] == '[') {
        return None;
    }
    let close = match find_in(v, pos, end, 1, ']') {
        Some(c) => c,
        None => return None,
    };
    proof {
        lemma_find_from(s, 1, ']');
        assert(s.subrange(1, close as int) =~= v@.subrange(pos + 1, pos + close));
    }
    if !is_id_token_at(v, pos + 1, pos + close) {
        return None;
    }
    let id = lower_string(v, pos + 1, pos + close);
    Some((id, pos + close + 1))
}

/// A `[by:<name>]` marker at the front of `v[pos..end]`.
fn try_by(v: &Vec<char>, pos: usize, end: usize, l: &Lits) -> (r: Option<(String, usize)>)
    requires
        pos <= end <= v@.len(),
        l.by@ == lit_by(),
    ensures
        match r {
            Some((name, np)) => spec_try_by(v@.subrange(pos as int, end as int)) == Some(
                (name@, np - pos),
            ) && pos < np <= end,
            None => spec_try_by(v@.subrange(pos as int, end as int)) is None,
        },
{
    let ghost s = v@.subrange(pos as int, end as int);
    if !starts_with_at(v, pos, end, &l.by) {
        return None;
    }
    let close = match find_in(v, pos, end, 4, ']') {
        Some(c) => c,
        None => return None,
    };
    proof {
        lemma_find_from(s, 4, ']');
        assert(s.subrange(4, close as int) =~= v@.subrange(pos + 4, pos + close));
    }
    if !is_name_at(v, pos + 4, pos + close) {
        return None;
    }
    let name = string_from(v, pos + 4, pos + close);
    Some((name, pos + close + 1))
}

/// A `[blocked-by:<id>]` marker at the front of `v[pos..end]`.
fn try_blocked_by(v: &Vec<char>, pos: usize, end: usize, l: &Lits) -> (r: Option<(String, usize)>)
    requires
        pos <= end <= v@.len(),
        l.blocked_by@ == lit_blocked_by(),
    ensures
        match r {
            Some((id, np)) => spec_try_blocked_by(v@.subrange(pos as int, end as int)) == Some(
                (id@, np - pos),
            ) && pos < np <= end,
            None => spec_try_blocked_by(v@.subrange(pos as int, end as int)) is None,
        },
{
    let ghost s = v@.subrange(pos as int, end as int);
    if !starts_with_at(v, pos, end, &l.blocked_by) {
        return None;
    }
    let close = match find_in(v, pos, end, 12, ']') {
        Some(c) => c,
        None => return None,
    };
    proof {
        lemma_find_from(s, 12, ']');
        assert(s.subrange(12, close as int) =~= v@.subrange(pos + 12, pos + close));
    }
    if !is_id_token_at(v, pos + 12, pos + close) {
        return None;
    }
    let id = lower_string(v, pos + 12, pos + close);
    Some((id, pos + close + 1))
}

/// The bounds of the body of the bullet line `v`.
fn body_bounds(v: &Vec<char>) -> (r: (usize, usize))
    ensures
        r.0 <= r.1 <= v@.len(),
        v@.subrange(r.0 as int, r.1 as int) == bullet_body(v@),
{
    let start: usize = if v.len() >= 2 && v[0] == '-' && v[1] == ' ' {
        2
    } else {
        0
    };
    let ghost b = if starts_with(v@, lit_dash_space()) {
        v@.skip(2)
    } else {
        v@
    };
    proof {
        if v@.len() >= 2 {
            if start == 2 {
                assert(v@.subrange(0, 2) =~= lit_dash_space());
            } else {
                assert(v@.subrange(0, 2)[0] == v@[0]);
                assert(v@.subrange(0, 2)[1] == v@[1]);
            }
        }
    }
    assert(b =~= v@.subrange(start as int, v@.len() as int));
    let mut end = v.len();
    while end > start && v[end - 1] == '\n'
        invariant
            start <= end <= v@.len(),
            b == v@.subrange(start as int, v@.len() as int),
            strip_run_end(v@.subrange(start as int, end as int), '\n') == strip_run_end(b, '\n'),
        decreases end,
    {
        assert(v@.subrange(start as int, end - 1) =~= v@.subrange(start as int, end as int).drop_last());
        end -= 1;
    }
    let ghost b1 = v@.subrange(start as int, end as int);
    assert(strip_run_end(b1, '\n') == b1);
    while end > start && v[end - 1] == '\r'
        invariant
            start <= end <= v@.len(),
            strip_run_end(v@.subrange(start as int, end as int), '\r') == strip_run_end(b1, '\r'),
        decreases end,
    {
        assert(v@.subrange(start as int, end - 1) =~= v@.subrange(start as int, end as int).drop_last());
        end -= 1;
    }
    (start, end)
}

/// Skips whitespace in `v[pos..end]`.
fn skip_whitespace(v: &Vec<char>, pos: usize, end: usize) -> (r: usize)
    requires
        pos <= end <= v@.len(),
    ensures
        pos <= r <= end,
        v@.subrange(r as int, end as int) == trim_start(v@.subrange(pos as int, end as int)),
{
    let mut p = pos;
    while p < end && is_whitespace(v[p])
        invariant
            pos <= p <= end <= v@.len(),
            trim_start(v@.subrange(p as int, end as int)) == trim_start(
                v@.subrange(pos as int, end as int),
            ),
        decreases end - p,
    {
        assert(v@.subrange(p + 1, end as int) =~= v@.subrange(p as int, end as int).drop_first());
        p += 1;
    }
    p
}

pub open spec fn state_of(
    id: Option<String>,
    in_progress: bool,
    by: Option<String>,
    blocked_by: Option<String>,
    dropped: Seq<String>,
) -> MarkerState {
    MarkerState {
        id: opt_string_view(id),
        in_progress,
        by: opt_string_view(by),
        blocked_by: opt_string_view(blocked_by),
        dropped: dropped.map_values(|s: String| s@),
    }
}

/// What reading the markers of a bullet line finds: the marker values, the
/// dropped `[blocked-by:...]` targets and the title (possibly empty).
struct MarkerRead {
    id: Option<String>,
    in_progress: bool,
    by: Option<String>,
    blocked_by: Option<String>,
    dropped: Vec<String>,
    title: String,
}

/// Reads the front-loaded markers of a bullet line and the title after them.
fn read_markers(bullet_line: &str) -> (r: MarkerRead)
    ensures
        state_of(r.id, r.in_progress, r.by, r.blocked_by, r.dropped@) == spec_read(bullet_line@).0,
        r.title@ == trim_end(spec_read(bullet_line@).1),
{
    let v = chars_of(bullet_line);
    let l = lits();
    let (start, end) = body_bounds(&v);
    let mut pos = start;
    let mut id: Option<String> = None;
    let mut in_progress = false;
    let mut by: Option<String> = None;
    let mut blocked_by: Option<String> = None;
    let mut dropped: Vec<String> = Vec::new();
    assert(state_of(id, in_progress, by, blocked_by, dropped@) == empty_state()) by {
        assert(dropped@.map_values(|s: String| s@) =~= Seq::<Seq<char>>::empty());
    };
    loop
        invariant
            start <= pos <= end <= v@.len(),
            v@ == bullet_line@,
            l.in_progress@ == lit_in_progress(),
            l.by@ == lit_by(),
            l.blocked_by@ == lit_blocked_by(),
            v@.subrange(start as int, end as int) == bullet_body(bullet_line@),
            parse_markers(
                v@.subrange(pos as int, end as int),
                state_of(id, in_progress, by, blocked_by, dropped@),
            ) == spec_read(bullet_line@),
        ensures
            start <= pos <= end <= v@.len(),
            spec_read(bullet_line@) == (
                state_of(id, in_progress, by, blocked_by, dropped@),
                v@.subrange(pos as int, end as int),
            ),
        decreases end - pos,
    {
        let ghost st = state_of(id, in_progress, by, blocked_by, dropped@);
        let ghost rest = v@.subrange(pos as int, end as int);
        let p = skip_whitespace(&v, pos, end);
        let ghost r = v@.subrange(p as int, end as int);
        proof {
            lemma_trim_start_suffix(rest);
            lemma_try_consumes(r);
        }
        if !(p < end && v[p] == '[') {
            assert(parse_markers(rest, st) == (st, r));
            pos = p;
            break;
        }
        if id.is_none() {
            if let Some((mid, after)) = try_id(&v, p, end) {
                proof {
                    assert(r.skip(after - p) =~= v@.subrange(after as int, end as int));
                }
                id = Some(mid);
                pos = after;
                continue;
            }
        }
        if !in_progress {
            if starts_with_at(&v, p, end, &l.in_progress) {
                proof {
                    assert(r.skip(13) =~= v@.subrange(p + 13, end as int));
                }
                in_progress = true;
                pos = p + 13;
                continue;
            }
        }
        if by.is_none() {
            if let Some((mby, after)) = try_by(&v, p, end, &l) {
                proof {
                    assert(r.skip(after - p) =~= v@.subrange(after as int, end as int));
                }
                by = Some(mby);
                pos = after;
                continue;
            }
        }
        if let Some((mblocker, after)) = try_blocked_by(&v, p, end, &l) {
            proof {
                assert(r.skip(after - p) =~= v@.subrange(after as int, end as int));
            }
            if blocked_by.is_none() {
                blocked_by = Some(mblocker);
            } else {
                let ghost d0 = dropped@;
                dropped.push(mblocker);
                assert(dropped@.map_values(|s: String| s@) =~= d0.map_values(|s: String| s@).push(
                    mblocker@,
                ));
            }
            pos = after;
            continue;
        }
        assert(parse_markers(rest, st) == (st, r));
        pos = p;
        break;
    }
    let tend = trim_end_index(&v, pos, end);
    let title = string_from(&v, pos, tend);
    MarkerRead { id, in_progress, by, blocked_by, dropped, title }
}

impl Bullet {
    /// Reads a bullet line and also reports the targets of every extra
    /// `[blocked-by:...]` marker that the reading drops (only the first is kept).
    pub fn parse_reporting_dropped(bullet_line: &str) -> (r: Result<(Bullet, Vec<String>), BulletError>)
        ensures
            match r {
                Ok((b, d)) => spec_parse(bullet_line@) == Ok::<BulletView, BulletError>(b@)
                    && d@.map_values(|s: String| s@) == spec_dropped(bullet_line@),
                Err(e) => spec_parse(bullet_line@) == Err::<BulletView, BulletError>(e),
            },
    {
        let m = read_markers(bullet_line);
        if m.title.as_str().is_empty() {
            return Err(BulletError::EmptyTitle);
        }
        Ok((Bullet { id: m.id, in_progress: m.in_progress, by: m.by, blocked_by: m.blocked_by, title: m.title }, m.dropped))
    }

    /// The ID marker that a bullet line carries, whether or not the line has a
    /// title.
    pub fn marked_id(bullet_line: &str) -> (r: Option<String>)
        ensures
            opt_string_view(r) == spec_read(bullet_line@).0.id,
    {
        read_markers(bullet_line).id
    }

    /// Reads a bullet line: front-loaded markers in any order, then the title.
    pub fn parse(bullet_line: &str) -> (r: Result<Bullet, BulletError>)
        ensures
            match r {
                Ok(b) => spec_parse(bullet_line@) == Ok::<BulletView, BulletError>(b@),
                Err(e) => spec_parse(bullet_line@) == Err::<BulletView, BulletError>(e),
            },
    {
        match Bullet::parse_reporting_dropped(bullet_line) {
            Ok((b, _)) => Ok(b),
            Err(e) => Err(e),
        }
    }
}

impl Bullet {
    /// The canonical bullet line: markers in the order `[id]`, `[in-progress]`,
    /// `[by:...]`, `[blocked-by:...]`, one space apart, then the title without
    /// trailing whitespace, then a newline.
    pub fn serialize(&self) -> (r: String)
        ensures
            r@ == spec_serialize(self@),
    {
        let mut out = String::new();
        push_str(&mut out, "- ");
        proof {
            reveal_strlit("- ");
        }
        let ghost p0 = out@;
        push_markers(&mut out, self);
        let ghost p4 = out@;
        let t = chars_of(self.title.as_str());
        let tend = trim_end_index(&t, 0, t.len());
        assert(t@.subrange(0, t@.len() as int) == t@);
        crate::text::push_range(&mut out, &t, 0, tend);
        push_str(&mut out, "\n");
        proof {
            reveal_strlit("\n");
        }
        assert(out@ =~= spec_serialize(self@));
        out
    }
}

/// Appends `open`, `val` and `] `.
fn push_marker(out: &mut String, open: &str, val: &str)
    ensures
        final(out)@ == old(out)@ + open@ + val@ + seq![']', ' '],
{
    push_str(out, open);
    push_str(out, val);
    push_str(out, "] ");
    proof {
        reveal_strlit("] ");
    }
    assert(final(out)@ =~= old(out)@ + open@ + val@ + seq![']', ' ']);
}

fn push_id_part(out: &mut String, b: &Bullet)
    ensures
        final(out)@ == old(out)@ + id_part(b@),
{
    proof {
        reveal_strlit("[");
    }
    if let Some(id) = &b.id {
        push_marker(out, "[", id.as_str());
    } else {
        assert(old(out)@ + id_part(b@) =~= old(out)@);
    }
}

fn push_in_progress_part(out: &mut String, b: &Bullet)
    ensures
        final(out)@ == old(out)@ + in_progress_part(b@),
{
    proof {
        reveal_strlit("[in-progress] ");
    }
    if b.in_progress {
        push_str(out, "[in-progress] ");
    } else {
        assert(old(out)@ + in_progress_part(b@) =~= old(out)@);
    }
}

fn push_by_part(out: &mut String, b: &Bullet)
    ensures
        final(out)@ == old(out)@ + by_part(b@),
{
    proof {
        reveal_strlit("[by:");
    }
    if let Some(by) = &b.by {
        push_marker(out, "[by:", by.as_str());
    } else {
        assert(old(out)@ + by_part(b@) =~= old(out)@);
    }
}

fn push_blocked_by_part(out: &mut String, b: &Bullet)
    ensures
        final(out)@ == old(out)@ + blocked_by_part(b@),
{
    proof {
        reveal_strlit("[blocked-by:");
    }
    if let Some(blocked_by) = &b.blocked_by {
        push_marker(out, "[blocked-by:", blocked_by.as_str());
    } else {
        assert(old(out)@ + blocked_by_part(b@) =~= old(out)@);
    }
}

/// Appends the canonical marker prefix of `b`.
fn push_markers(out: &mut String, b: &Bullet)
    ensures
        final(out)@ == old(out)@ + marker_prefix(b@),
{
    push_id_part(out, b);
    push_in_progress_part(out, b);
    push_by_part(out, b);
    push_blocked_by_part(out, b);
    assert(final(out)@ =~= old(out)@ + marker_prefix(b@));
}

// ---------------------------------------------------------------------------
// Round trip: a canonical bullet reads back as itself
// ---------------------------------------------------------------------------

/// A marker token at the front of `r` that the reader would consume in state
/// `b` (its markers so far).
pub open spec fn consumable(r: Seq<char>, b: BulletView) -> bool {
    ||| (b.id is None && spec_try_id(r) is Some)
    ||| (!b.in_progress && starts_with(r, lit_in_progress()))
    ||| (b.by is None && spec_try_by(r) is Some)
    ||| spec_try_blocked_by(r) is Some
}

/// A bullet that its own canonical line reads back as: valid lowercase ids, a
/// valid name, and a non-empty title without surrounding whitespace that does
/// not itself open with a marker the reader would still take.
pub open spec fn well_formed(b: BulletView) -> bool {
    &&& (b.id matches Some(id) ==> is_id_token(id) && lower(id) == id)
    &&& (b.by matches Some(n) ==> is_name(n))
    &&& (b.blocked_by matches Some(id) ==> is_id_token(id) && lower(id) == id)
    &&& b.title.len() > 0
    &&& trim_end(b.title) == b.title
    &&& !is_ws(b.title[0])
    &&& !(b.title[0] == '[' && consumable(b.title, b))
}

pub proof fn lemma_find_witness(x: Seq<char>, i: int, k: int, c: char)
    requires
        0 <= i <= k < x.len(),
        x[k] == c,
        forall|j: int| i <= j < k ==> x[j] != c,
    ensures
        find_from(x, i, c) == Some(k),
    decreases k - i,
{
    if i < k {
        lemma_find_witness(x, i + 1, k, c);
    }
}

/// Texts that agree once leading whitespace is skipped read the same markers.
pub proof fn lemma_same_after_ws(x: Seq<char>, y: Seq<char>, st: MarkerState)
    requires
        trim_start(x) == trim_start(y),
    ensures
        parse_markers(x, st) == parse_markers(y, st),
{
}

pub open spec fn no_lead_ws(r: Seq<char>) -> bool {
    r.len() == 0 || !is_ws(r[0])
}

pub proof fn lemma_skip_one_ws(rest: Seq<char>)
    requires
        no_lead_ws(rest),
    ensures
        trim_start(seq![' '] + rest) == rest,
{
    assert((seq![' '] + rest).drop_first() =~= rest);
    assert(trim_start(rest) == rest);
}

pub proof fn lemma_step_id(id: Seq<char>, rest: Seq<char>, st: MarkerState)
    requires
        is_id_token(id),
        lower(id) == id,
        st.id is None,
        no_lead_ws(rest),
    ensures
        parse_markers(seq!['['] + id + seq![']', ' '] + rest, st) == parse_markers(
            rest,
            MarkerState { id: Some(id), ..st },
        ),
{
    let x = seq!['['] + id + seq![']', ' '] + rest;
    assert(x[0] == '[');
    assert(trim_start(x) == x);
    assert forall|j: int| 1 <= j < 8 implies x[j] != ']' by {
        assert(x[j] == id[j - 1]);
    }
    lemma_find_witness(x, 1, 8, ']');
    assert(x.subrange(1, 8) =~= id);
    assert(x.skip(9) =~= seq![' '] + rest);
    let st2 = MarkerState { id: Some(id), ..st };
    lemma_skip_one_ws(rest);
    lemma_same_after_ws(seq![' '] + rest, rest, st2);
}

pub proof fn lemma_step_in_progress(rest: Seq<char>, st: MarkerState)
    requires
        !st.in_progress,
        no_lead_ws(rest),
    ensures
        parse_markers(lit_in_progress() + seq![' '] + rest, st) == parse_markers(
            rest,
            MarkerState { in_progress: true, ..st },
        ),
{
    let x = lit_in_progress() + seq![' '] + rest;
    assert(x[0] == '[');
    assert(trim_start(x) == x);
    assert forall|j: int| 1 <= j < 12 implies x[j] != ']' by {
        assert(x[j] == lit_in_progress()[j]);
    }
    lemma_find_witness(x, 1, 12, ']');
    assert(x.subrange(0, 13) =~= lit_in_progress());
    assert(x.skip(13) =~= seq![' '] + rest);
    let st2 = MarkerState { in_progress: true, ..st };
    lemma_skip_one_ws(rest);
    lemma_same_after_ws(seq![' '] + rest, rest, st2);
}

pub proof fn lemma_step_by(n: Seq<char>, rest: Seq<char>, st: MarkerState)
    requires
        is_name(n),
        st.by is None,
        no_lead_ws(rest),
    ensures
        parse_markers(lit_by() + n + seq![']', ' '] + rest, st) == parse_markers(
            rest,
            MarkerState { by: Some(n), ..st },
        ),
{
    let x = lit_by() + n + seq![']', ' '] + rest;
    let k: int = 4 + n.len() as int;
    assert(x[0] == '[');
    assert(trim_start(x) == x);
    assert forall|j: int| 1 <= j < k implies x[j] != ']' by {
        if j >= 4 {
            assert(x[j] == n[j - 4]);
            assert(is_name_char(n[j - 4]));
        }
    }
    lemma_find_witness(x, 1, k, ']');
    lemma_find_witness(x, 4, k, ']');
    assert(x.subrange(1, k)[2] == ':');
    assert(x.subrange(0, 4) =~= lit_by());
    assert(x.subrange(4, k) =~= n);
    if x.len() >= 13 {
        assert(x.subrange(0, 13)[1] == 'b');
    }
    assert(!starts_with(x, lit_in_progress()));
    assert(x.skip(k + 1) =~= seq![' '] + rest);
    let st2 = MarkerState { by: Some(n), ..st };
    lemma_skip_one_ws(rest);
    lemma_same_after_ws(seq![' '] + rest, rest, st2);
}

pub proof fn lemma_step_blocked_by(id: Seq<char>, rest: Seq<char>, st: MarkerState)
    requires
        is_id_token(id),
        lower(id) == id,
        st.blocked_by is None,
        no_lead_ws(rest),
    ensures
        parse_markers(lit_blocked_by() + id + seq![']', ' '] + rest, st) == parse_markers(
            rest,
            MarkerState { blocked_by: Some(id), ..st },
        ),
{
    let x = lit_blocked_by() + id + seq![']', ' '] + rest;
    assert(x[0] == '[');
    assert(trim_start(x) == x);
    assert forall|j: int| 1 <= j < 19 implies x[j] != ']' by {
        if j >= 12 {
            assert(x[j] == id[j - 12]);
        }
    }
    lemma_find_witness(x, 1, 19, ']');
    lemma_find_witness(x, 12, 19, ']');
    assert(x.subrange(1, 19).len() == 18);
    assert(x.subrange(0, 12) =~= lit_blocked_by());
    assert(x.subrange(12, 19) =~= id);
    assert(x.subrange(0, 13)[1] == 'b');
    assert(!starts_with(x, lit_in_progress()));
    assert(x.subrange(0, 4)[2] == 'l');
    assert(!starts_with(x, lit_by()));
    assert(x.skip(20) =~= seq![' '] + rest);
    let st2 = MarkerState { blocked_by: Some(id), ..st };
    lemma_skip_one_ws(rest);
    lemma_same_after_ws(seq![' '] + rest, rest, st2);
}

/// The body of a canonical line is its marker prefix followed by its title.
pub proof fn lemma_body_of_serialize(b: BulletView)
    requires
        b.title.len() > 0,
        trim_end(b.title) == b.title,
    ensures
        bullet_body(spec_serialize(b)) == marker_prefix(b) + b.title,
{
    let line = spec_serialize(b);
    let core = marker_prefix(b) + b.title;
    lemma_trim_end_prefix(b.title);
    assert(line.subrange(0, 2) =~= lit_dash_space());
    assert(line.skip(2) =~= core + seq!['\n']);
    assert((core + seq!['\n']).drop_last() =~= core);
    assert(core.last() == b.title.last());
    assert(strip_run_end(core + seq!['\n'], '\n') == strip_run_end(core, '\n'));
    assert(strip_run_end(core, '\n') == core);
    assert(strip_run_end(core, '\r') == core);
}

/// A well-formed bullet reads back from its canonical line as itself, and the
/// reading drops no marker.
pub proof fn lemma_bullet_round_trip(b: BulletView)
    requires
        well_formed(b),
    ensures
        spec_parse(spec_serialize(b)) == Ok::<BulletView, BulletError>(b),
        spec_dropped(spec_serialize(b)) == Seq::<Seq<char>>::empty(),
{
    lemma_body_of_serialize(b);
    let t = b.title;
    let part_id = id_part(b);
    let part_ip = in_progress_part(b);
    let part_by = by_part(b);
    let part_bb = blocked_by_part(b);
    let r3 = part_bb + t;
    let r2 = part_by + r3;
    let r1 = part_ip + r2;
    let r0 = part_id + r1;
    assert(marker_prefix(b) + t =~= r0);
    let s0 = empty_state();
    let s1 = MarkerState { id: b.id, ..s0 };
    let s2 = MarkerState { in_progress: b.in_progress, ..s1 };
    let s3 = MarkerState { by: b.by, ..s2 };
    let s4 = MarkerState { blocked_by: b.blocked_by, ..s3 };
    assert(no_lead_ws(t));
    assert(no_lead_ws(r3)) by {
        if b.blocked_by is Some {
            assert(r3[0] == '[');
        } else {
            assert(r3 =~= t);
        }
    };
    assert(no_lead_ws(r2)) by {
        if b.by is Some {
            assert(r2[0] == '[');
        } else {
            assert(r2 =~= r3);
        }
    };
    assert(no_lead_ws(r1)) by {
        if b.in_progress {
            assert(r1[0] == '[');
        } else {
            assert(r1 =~= r2);
        }
    };
    if let Some(id) = b.id {
        lemma_step_id(id, r1, s0);
    } else {
        assert(r0 =~= r1);
        assert(s1 == s0);
    }
    if b.in_progress {
        lemma_step_in_progress(r2, s1);
    } else {
        assert(r1 =~= r2);
        assert(s2 == s1);
    }
    if let Some(n) = b.by {
        lemma_step_by(n, r3, s2);
    } else {
        assert(r2 =~= r3);
        assert(s3 == s2);
    }
    if let Some(id) = b.blocked_by {
        lemma_step_blocked_by(id, t, s3);
    } else {
        assert(r3 =~= t);
        assert(s4 == s3);
    }
    assert(trim_start(t) == t);
    assert(parse_markers(t, s4) == (s4, t));
}

// ---------------------------------------------------------------------------
// What a reading gives
// ---------------------------------------------------------------------------

/// The markers of a state, as the marker half of a bullet.
pub open spec fn state_view(st: MarkerState) -> BulletView {
    BulletView {
        id: st.id,
        in_progress: st.in_progress,
        by: st.by,
        blocked_by: st.blocked_by,
        title: Seq::empty(),
    }
}

/// Marker values of the kind a reading produces: lowercase ids and names.
pub open spec fn markers_valid(st: MarkerState) -> bool {
    &&& (st.id matches Some(id) ==> is_id_token(id) && lower(id) == id)
    &&& (st.by matches Some(n) ==> is_name(n))
    &&& (st.blocked_by matches Some(id) ==> is_id_token(id) && lower(id) == id)
}

/// Lowercasing an ID token keeps it one and is idempotent.
pub proof fn lemma_id_token_lower(x: Seq<char>)
    requires
        is_id_token(x),
    ensures
        is_id_token(lower(x)),
        lower(lower(x)) == lower(x),
{
    crate::text::lemma_lower_idempotent(x);
    let l = lower(x);
    assert forall|k: int| 0 <= k < 7 && k != 3 implies is_b32(#[trigger] l[k]) by {
        assert(l[k] == lower_char(x[k]));
        crate::text::lemma_lower_char_idempotent(x[k]);
    }
    assert(l[3] == lower_char(x[3]));
}

/// A find in a prefix of a text is the same find in the text.
pub proof fn lemma_find_in_prefix(t: Seq<char>, r: Seq<char>, i: int, c: char)
    requires
        0 <= i,
        t.len() <= r.len(),
        t == r.subrange(0, t.len() as int),
    ensures
        find_from(t, i, c) matches Some(k) ==> find_from(r, i, c) == Some(k),
        find_from(r, i, c) matches Some(k) ==> (k < t.len() ==> find_from(t, i, c) == Some(k)),
{
    lemma_find_from(t, i, c);
    lemma_find_from(r, i, c);
    if let Some(k) = find_from(t, i, c) {
        assert(r[k] == t[k]);
        assert forall|j: int| i <= j < k implies r[j] != c by {
            assert(r[j] == t[j]);
        }
        lemma_find_witness(r, i, k, c);
    }
    if let Some(k) = find_from(r, i, c) {
        if k < t.len() {
            assert(t[k] == r[k]);
            assert forall|j: int| i <= j < k implies t[j] != c by {
                assert(r[j] == t[j]);
            }
            lemma_find_witness(t, i, k, c);
        }
    }
}

/// A marker the reader would take at the front of a prefix it also takes at
/// the front of the whole text.
pub proof fn lemma_consumable_prefix(t: Seq<char>, r: Seq<char>, b: BulletView)
    requires
        t.len() <= r.len(),
        t == r.subrange(0, t.len() as int),
        consumable(t, b),
    ensures
        consumable(r, b),
{
    lemma_find_in_prefix(t, r, 1, ']');
    lemma_find_in_prefix(t, r, 4, ']');
    lemma_find_in_prefix(t, r, 12, ']');
    lemma_find_from(t, 1, ']');
    lemma_find_from(t, 4, ']');
    lemma_find_from(t, 12, ']');
    if t.len() > 0 {
        assert(r[0] == t[0]);
    }
    if let Some(c) = find_from(t, 1, ']') {
        assert(t.subrange(1, c) =~= r.subrange(1, c));
    }
    if let Some(c) = find_from(t, 4, ']') {
        assert(t.subrange(4, c) =~= r.subrange(4, c));
    }
    if let Some(c) = find_from(t, 12, ']') {
        assert(t.subrange(12, c) =~= r.subrange(12, c));
    }
    if starts_with(t, lit_in_progress()) {
        assert(r.subrange(0, 13) =~= t.subrange(0, 13));
    }
    if starts_with(t, lit_by()) {
        assert(r.subrange(0, 4) =~= t.subrange(0, 4));
    }
    if starts_with(t, lit_blocked_by()) {
        assert(r.subrange(0, 12) =~= t.subrange(0, 12));
    }
}

/// Reading markers leaves a suffix of the text that opens with neither a
/// space nor a marker the final state would still take, and keeps marker
/// values valid.
pub proof fn lemma_parse_markers_props(rest: Seq<char>, st: MarkerState)
    ensures
        ({
            let (st2, r) = parse_markers(rest, st);
            &&& r.len() <= rest.len()
            &&& r == rest.subrange(rest.len() - r.len(), rest.len() as int)
            &&& no_lead_ws(r)
            &&& !(r.len() > 0 && r[0] == '[' && consumable(r, state_view(st2)))
            &&& (markers_valid(st) ==> markers_valid(st2))
        }),
    decreases rest.len(),
{
    let r0 = trim_start(rest);
    lemma_trim_start_suffix(rest);
    lemma_try_consumes(r0);
    lemma_find_from(r0, 1, ']');
    lemma_find_from(r0, 4, ']');
    lemma_find_from(r0, 12, ']');
    if !(r0.len() > 0 && r0[0] == '[') {
    } else if st.id is None && spec_try_id(r0) is Some {
        let (id, n) = spec_try_id(r0).unwrap();
        let st1 = MarkerState { id: Some(id), ..st };
        lemma_parse_markers_props(r0.skip(n), st1);
        let c = find_from(r0, 1, ']').unwrap();
        lemma_id_token_lower(r0.subrange(1, c));
        assert(r0.skip(n) =~= rest.subrange(rest.len() - r0.skip(n).len(), rest.len() as int));
        let r = parse_markers(r0.skip(n), st1).1;
        assert(r =~= rest.subrange(rest.len() - r.len(), rest.len() as int));
    } else if !st.in_progress && starts_with(r0, lit_in_progress()) {
        let st1 = MarkerState { in_progress: true, ..st };
        lemma_parse_markers_props(r0.skip(13), st1);
        let r = parse_markers(r0.skip(13), st1).1;
        assert(r0.skip(13) =~= rest.subrange(rest.len() - r0.skip(13).len(), rest.len() as int));
        assert(r =~= rest.subrange(rest.len() - r.len(), rest.len() as int));
    } else if st.by is None && spec_try_by(r0) is Some {
        let (name, n) = spec_try_by(r0).unwrap();
        let st1 = MarkerState { by: Some(name), ..st };
        lemma_parse_markers_props(r0.skip(n), st1);
        let r = parse_markers(r0.skip(n), st1).1;
        assert(r0.skip(n) =~= rest.subrange(rest.len() - r0.skip(n).len(), rest.len() as int));
        assert(r =~= rest.subrange(rest.len() - r.len(), rest.len() as int));
    } else if spec_try_blocked_by(r0) is Some {
        let (id, n) = spec_try_blocked_by(r0).unwrap();
        let c = find_from(r0, 12, ']').unwrap();
        lemma_id_token_lower(r0.subrange(12, c));
        let st1 = if st.blocked_by is None {
            MarkerState { blocked_by: Some(id), ..st }
        } else {
            MarkerState { dropped: st.dropped.push(id), ..st }
        };
        lemma_parse_markers_props(r0.skip(n), st1);
        let r = parse_markers(r0.skip(n), st1).1;
        assert(r0.skip(n) =~= rest.subrange(rest.len() - r0.skip(n).len(), rest.len() as int));
        assert(r =~= rest.subrange(rest.len() - r.len(), rest.len() as int));
    } else {
    }
}

/// No newline anywhere in `s`.
pub open spec fn no_newline(s: Seq<char>) -> bool {
    forall|k: int| 0 <= k < s.len() ==> #[trigger] s[k] != '\n'
}

/// A bullet that a line reads as is well-formed; when the line holds a
/// newline only at its end, the title holds none.
pub proof fn lemma_parsed_well_formed(line: Seq<char>)
    ensures
        spec_parse(line) matches Ok(b) ==> well_formed(b),
        spec_parse(line) matches Ok(b) ==> ((forall|k: int|
            0 <= k < line.len() - 1 ==> #[trigger] line[k] != '\n') ==> no_newline(b.title)),
{
    let body = bullet_body(line);
    let (st2, r) = spec_read(line);
    lemma_parse_markers_props(body, empty_state());
    lemma_trim_end_prefix(r);
    let title = trim_end(r);
    if let Ok(b) = spec_parse(line) {
        crate::text::lemma_trim_end_id(title);
        assert(title[0] == r[0]);
        if title[0] == '[' && consumable(title, b) {
            assert(consumable(title, state_view(st2)));
            lemma_consumable_prefix(title, r, state_view(st2));
        }
        // Where the title's characters come from.
        let b0 = if starts_with(line, lit_dash_space()) {
            line.skip(2)
        } else {
            line
        };
        let b1 = strip_run_end(b0, '\n');
        lemma_strip_run_end_prefix(b0, '\n');
        lemma_strip_run_end_prefix(b1, '\r');
        if forall|k: int| 0 <= k < line.len() - 1 ==> #[trigger] line[k] != '\n' {
            let off = line.len() - b0.len();
            assert forall|k: int| 0 <= k < b0.len() - 1 implies #[trigger] b0[k] != '\n' by {
                assert(b0[k] == line[k + off]);
            }
            assert forall|k: int| 0 <= k < b1.len() implies #[trigger] b1[k] != '\n' by {
                assert(b1[k] == b0[k]);
                if k == b0.len() - 1 {
                    assert(b1.len() == b0.len());
                    assert(b1.last() == b1[k]);
                }
            }
            assert forall|k: int| 0 <= k < body.len() implies #[trigger] body[k] != '\n' by {
                assert(body[k] == b1[k]);
            }
            assert forall|k: int| 0 <= k < title.len() implies #[trigger] title[k] != '\n' by {
                assert(title[k] == r[k]);
                assert(r[k] == body[body.len() - r.len() + k]);
            }
        }
    }
}

} // verus!
