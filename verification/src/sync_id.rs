//! ID assignment over the lines of a parsed region.
use vstd::prelude::*;
use rand::rngs::StdRng;
use crate::backlog_file::is_bullet_at;
use crate::base32::{is_base32_char, is_canonical_b32, random};
use crate::bullet::is_id_token;
use crate::text::{
    chars_of, debug_quoted, debug_string, decimal, find_from, is_blank, is_whitespace, is_ws,
    lemma_find_from, lemma_line_end_bounds, line_end, line_end_exec, lower, lower_string,
    push_char, push_decimal, push_range, push_str, slice, strip_run_end,
};
use crate::tombstone::{lines_from, strings_view, text_lines};

verus! {

/// How many random candidates ID generation tries before giving up.
pub const MAX_RETRIES: usize = 100;

/// Why IDs could not be assigned to a parsed region.
#[derive(Debug, PartialEq, Eq)]
pub enum SyncIdError {
    /// Two bullets carry the same ID (compared lowercased); both 1-based line
    /// numbers are named.
    DuplicateId { id: String, line1: usize, line2: usize },
    /// No unused candidate turned up within [`MAX_RETRIES`] draws.
    RetryExhausted,
}

impl SyncIdError {
    /// The user-facing description.
    pub fn message(&self) -> (r: String)
        ensures
            self matches SyncIdError::DuplicateId { id, line1, line2 } ==> r@ == "duplicate id ["@
                + id@ + "] on lines "@ + decimal(line1 as nat) + " and "@ + decimal(line2 as nat),
            self matches SyncIdError::RetryExhausted ==> r@
                == "id generation exhausted 100 retries; project namespace may be full"@,
    {
        let mut out = String::new();
        match self {
            SyncIdError::DuplicateId { id, line1, line2 } => {
                push_str(&mut out, "duplicate id [");
                push_str(&mut out, id.as_str());
                push_str(&mut out, "] on lines ");
                push_decimal(&mut out, *line1 as u64);
                push_str(&mut out, " and ");
                push_decimal(&mut out, *line2 as u64);
            },
            SyncIdError::RetryExhausted => {
                push_str(&mut out, "id generation exhausted 100 retries; project namespace may be full");
            },
        }
        out
    }
}

/// A freshly generated ID for `project`: the prefix, `-`, then three
/// canonical (lowercase) Crockford base32 characters.
pub open spec fn is_generated(c: Seq<char>, project: Seq<char>) -> bool {
    &&& c.len() == project.len() + 4
    &&& c.subrange(0, project.len() as int) == project
    &&& c[project.len() as int] == '-'
    &&& forall|k: int| project.len() < k < c.len() ==> is_canonical_b32(#[trigger] c[k])
}

/// Draws candidates `<project>-<3 random chars>` until one is not in `used`,
/// at most [`MAX_RETRIES`] times; `None` when every draw collided. Which
/// candidates are drawn is the generator's; a draw can only collide with a
/// used ID of that shape, so where `used` holds none the first draw is taken.
pub fn generate_id(project_id: &str, used: &Vec<String>, rng: &mut StdRng) -> (r: Option<String>)
    ensures
        r matches Some(c) ==> is_generated(c@, project_id@) && !strings_view(used@).contains(c@),
        r is None ==> exists|u: Seq<char>|
            strings_view(used@).contains(u) && #[trigger] is_generated(u, project_id@),
{
    let mut tries: usize = 0;
    while tries < MAX_RETRIES
        invariant
            tries <= MAX_RETRIES,
            tries > 0 ==> exists|u: Seq<char>|
                strings_view(used@).contains(u) && #[trigger] is_generated(u, project_id@),
        decreases MAX_RETRIES - tries,
    {
        let suffix = random(3, rng);
        let mut candidate = String::new();
        push_str(&mut candidate, project_id);
        push_char(&mut candidate, '-');
        push_str(&mut candidate, suffix.as_str());
        assert(candidate@.subrange(0, project_id@.len() as int) =~= project_id@);
        assert forall|k: int| project_id@.len() < k < candidate@.len() implies is_canonical_b32(
            #[trigger] candidate@[k],
        ) by {
            assert(candidate@[k] == suffix@[k - project_id@.len() - 1]);
        }
        if !contains_str(used, &candidate) {
            return Some(candidate);
        }
        assert(strings_view(used@).contains(candidate@) && is_generated(candidate@, project_id@));
        tries += 1;
    }
    None
}

/// `x` is one of `v`.
pub fn contains_str(v: &Vec<String>, x: &String) -> (r: bool)
    ensures
        r == strings_view(v@).contains(x@),
{
    let mut i: usize = 0;
    while i < v.len()
        invariant
            i <= v@.len(),
            forall|k: int| 0 <= k < i ==> v@[k]@ != x@,
        decreases v@.len() - i,
    {
        if v[i] == *x {
            assert(strings_view(v@)[i as int] == x@);
            return true;
        }
        i += 1;
    }
    assert forall|k: int| 0 <= k < strings_view(v@).len() implies strings_view(v@)[k] != x@ by {
        assert(strings_view(v@)[k] == v@[k]@);
    }
    false
}

/// The `[id]` at the very front of a bullet body, as written (casing kept):
/// the first `[...]` token when it is a well-formed `<3>-<3>` ID.
pub open spec fn spec_extract_id(body: Seq<char>) -> Option<Seq<char>> {
    if body.len() > 0 && body[0] == '[' {
        match find_from(body, 1, ']') {
            Some(c) => if is_id_token(body.subrange(1, c)) {
                Some(body.subrange(1, c))
            } else {
                None
            },
            None => None,
        }
    } else {
        None
    }
}

/// The `[id]` marker value at the front of a bullet body (the text after
/// `- `), with its original casing.
pub fn extract_bullet_id<'a>(body: &'a str) -> (r: Option<&'a str>)
    ensures
        match r {
            Some(id) => spec_extract_id(body@) == Some(id@),
            None => spec_extract_id(body@) is None,
        },
{
    let v = chars_of(body);
    assert(v@.subrange(0, v@.len() as int) =~= v@);
    match extract_id_bounds(&v, 0, v.len()) {
        Some((a, b)) => Some(slice(body, a, b)),
        None => None,
    }
}

fn extract_id_bounds(v: &Vec<char>, lo: usize, hi: usize) -> (r: Option<(usize, usize)>)
    requires
        lo <= hi <= v@.len(),
    ensures
        match r {
            Some((a, b)) => lo < a <= b <= hi && spec_extract_id(v@.subrange(lo as int, hi as int))
                == Some(v@.subrange(a as int, b as int)),
            None => spec_extract_id(v@.subrange(lo as int, hi as int)) is None,
        },
{
    let ghost s = v@.subrange(lo as int, hi as int);
    if !(lo < hi && v[lo] == '[') {
        return None;
    }
    let mut k = lo + 1;
    while k < hi && v[k] != ']'
        invariant
            lo < k <= hi <= v@.len(),
            s == v@.subrange(lo as int, hi as int),
            find_from(s, 1, ']') == find_from(s, k - lo, ']'),
        decreases hi - k,
    {
        k += 1;
    }
    if k == hi {
        return None;
    }
    assert(find_from(s, k - lo, ']') == Some((k - lo) as int));
    assert(s.subrange(1, (k - lo) as int) =~= v@.subrange(lo + 1, k as int));
    if is_valid_id_format_at(v, lo + 1, k) {
        Some((lo + 1, k))
    } else {
        None
    }
}

fn is_valid_id_format_at(v: &Vec<char>, lo: usize, hi: usize) -> (r: bool)
    requires
        lo <= hi <= v@.len(),
    ensures
        r == is_id_token(v@.subrange(lo as int, hi as int)),
{
    hi - lo == 7 && v[lo + 3] == '-' && is_base32_char(v[lo]) && is_base32_char(v[lo + 1])
        && is_base32_char(v[lo + 2]) && is_base32_char(v[lo + 4]) && is_base32_char(v[lo + 5])
        && is_base32_char(v[lo + 6])
}

/// A well-formed `<3>-<3>` ID in either case.
pub fn is_valid_id_format(s: &str) -> (r: bool)
    ensures
        r == is_id_token(s@),
{
    let v = chars_of(s);
    is_valid_id_format_at(&v, 0, v.len())
}

/// The text before the first `-` of an ID (all of it when there is none).
pub open spec fn dash_prefix(x: Seq<char>) -> Seq<char> {
    match find_from(x, 0, '-') {
        Some(k) => x.subrange(0, k),
        None => x,
    }
}

fn dash_prefix_string(x: &String) -> (r: String)
    ensures
        r@ == dash_prefix(x@),
{
    let v = chars_of(x.as_str());
    proof {
        lemma_find_from(v@, 0, '-');
    }
    match crate::text::find_char_from(&v, 0, '-') {
        Some(k) => crate::text::string_from(&v, 0, k),
        None => crate::text::string_of(&v),
    }
}

// ---------------------------------------------------------------------------
// The region, line by line
// ---------------------------------------------------------------------------

/// A line without its trailing newline(s).
pub open spec fn line_text(raw: Seq<char>) -> Seq<char> {
    strip_run_end(raw, '\n')
}

/// The body of a bullet line (after `- `), if the line is one.
pub open spec fn line_body(raw: Seq<char>) -> Option<Seq<char>> {
    let t = line_text(raw);
    if is_bullet_at(t, 0) {
        Some(t.skip(2))
    } else {
        None
    }
}

/// The lowercased ID a line's bullet carries, if any.
pub open spec fn line_id(raw: Seq<char>) -> Option<Seq<char>> {
    match line_body(raw) {
        Some(b) => match spec_extract_id(b) {
            Some(id) => Some(lower(id)),
            None => None,
        },
        None => None,
    }
}

/// The line is a bullet with a title but no ID, so it receives one.
pub open spec fn needs_id(raw: Seq<char>) -> bool {
    match line_body(raw) {
        Some(b) => !is_blank(b) && spec_extract_id(b) is None,
        None => false,
    }
}

/// The first line at or after `j` that repeats the ID of an earlier line:
/// `(earlier index, this index, id)`.
pub open spec fn first_dup_line(lines: Seq<Seq<char>>, j: int) -> Option<(int, int, Seq<char>)>
    decreases lines.len() - j,
{
    if j < 0 || j >= lines.len() {
        None
    } else {
        match line_id(lines[j]) {
            Some(x) => match first_line_with_id(lines, x, 0, j) {
                Some(k) => Some((k, j, x)),
                None => first_dup_line(lines, j + 1),
            },
            None => first_dup_line(lines, j + 1),
        }
    }
}

/// The first line in `[i, j)` whose ID is `x`.
pub open spec fn first_line_with_id(lines: Seq<Seq<char>>, x: Seq<char>, i: int, j: int) -> Option<int>
    decreases j - i,
{
    if i < 0 || i >= j {
        None
    } else if line_id(lines[i]) == Some(x) {
        Some(i)
    } else {
        first_line_with_id(lines, x, i + 1, j)
    }
}

/// How many of `lines` receive a new ID.
pub open spec fn count_needs(lines: Seq<Seq<char>>) -> nat
    decreases lines.len(),
{
    if lines.len() == 0 {
        0
    } else {
        count_needs(lines.drop_last()) + if needs_id(lines.last()) {
            1nat
        } else {
            0nat
        }
    }
}

/// A line as it is written back: a bullet that needs an ID gets `[id] ` in
/// front of its body; every other line is kept.
pub open spec fn render_line(raw: Seq<char>, id: Seq<char>) -> Seq<char> {
    if needs_id(raw) {
        let t = line_text(raw);
        seq!['-', ' ', '['] + id + seq![']', ' '] + t.skip(2) + raw.skip(t.len() as int)
    } else {
        raw
    }
}

/// The region written back with the new IDs handed out in line order.
pub open spec fn render_region(lines: Seq<Seq<char>>, ids: Seq<Seq<char>>) -> Seq<char>
    decreases lines.len(),
{
    if lines.len() == 0 {
        Seq::empty()
    } else {
        render_region(lines.drop_last(), ids) + render_line(
            lines.last(),
            ids[count_needs(lines.drop_last()) as int],
        )
    }
}

/// The IDs of the bullets in `lines`, lowercased.
pub open spec fn region_ids(lines: Seq<Seq<char>>) -> Set<Seq<char>>
    decreases lines.len(),
{
    if lines.len() == 0 {
        Set::empty()
    } else {
        match line_id(lines.last()) {
            Some(x) => region_ids(lines.drop_last()).insert(x),
            None => region_ids(lines.drop_last()),
        }
    }
}

/// The warning for a bullet whose ID has another project's prefix.
pub open spec fn foreign_warning(line_no: nat, id: Seq<char>, project: Seq<char>) -> Seq<char> {
    "line "@ + decimal(line_no) + ": id ["@ + id + "] has foreign prefix "@ + debug_quoted(
        dash_prefix(id),
    ) + " (project is "@ + debug_quoted(project) + "); left unchanged"@
}

/// The warnings for `lines[..n]`, in line order.
pub open spec fn region_warnings(lines: Seq<Seq<char>>, n: int, project: Seq<char>) -> Seq<Seq<char>>
    decreases n,
{
    if n <= 0 || n > lines.len() {
        Seq::empty()
    } else {
        let prev = region_warnings(lines, n - 1, project);
        match line_id(lines[n - 1]) {
            Some(x) => if dash_prefix(x) != project {
                prev.push(foreign_warning(n as nat, x, project))
            } else {
                prev
            },
            None => prev,
        }
    }
}

/// Composes the foreign-prefix warning from the already-quoted prefix and
/// project.
pub fn foreign_prefix_warning(
    line_no: usize,
    id: &str,
    quoted_prefix: &str,
    quoted_project: &str,
) -> (r: String)
    ensures
        r@ == "line "@ + decimal(line_no as nat) + ": id ["@ + id@ + "] has foreign prefix "@
            + quoted_prefix@ + " (project is "@ + quoted_project@ + "); left unchanged"@,
{
    let mut out = String::new();
    push_str(&mut out, "line ");
    push_decimal(&mut out, line_no as u64);
    push_str(&mut out, ": id [");
    push_str(&mut out, id);
    push_str(&mut out, "] has foreign prefix ");
    push_str(&mut out, quoted_prefix);
    push_str(&mut out, " (project is ");
    push_str(&mut out, quoted_project);
    push_str(&mut out, "); left unchanged");
    out
}

/// The region with IDs assigned, the new IDs (for `.used-ids`) and the
/// warnings about foreign-prefix IDs.
#[derive(Debug)]
pub struct AssignIdsResult {
    pub modified: String,
    pub new_ids: Vec<String>,
    pub warnings: Vec<String>,
}

/// The bounds of each line of `v`.
pub open spec fn bounds_match(v: Seq<char>, bounds: Seq<(usize, usize)>, lines: Seq<Seq<char>>) -> bool {
    &&& bounds.len() == lines.len()
    &&& forall|k: int| 0 <= k < bounds.len() ==> {
        &&& (#[trigger] bounds[k]).0 < bounds[k].1 <= v.len()
        &&& v.subrange(bounds[k].0 as int, bounds[k].1 as int) == lines[k]
        &&& forall|i: int| bounds[k].0 <= i < bounds[k].1 - 1 ==> v[i] != '\n'
    }
}

/// Splits `v` into line bounds (`str::split_inclusive('\n')`).
pub fn line_bounds(v: &Vec<char>) -> (r: Vec<(usize, usize)>)
    ensures
        bounds_match(v@, r@, text_lines(v@)),
{
    let mut out: Vec<(usize, usize)> = Vec::new();
    let mut i: usize = 0;
    let ghost seen: Seq<Seq<char>> = Seq::empty();
    while i < v.len()
        invariant
            i <= v@.len(),
            seen + lines_from(v@, i as int) == text_lines(v@),
            bounds_match(v@, out@, seen),
        decreases v@.len() - i,
    {
        proof {
            lemma_line_end_bounds(v@, i as int);
        }
        let e = line_end_exec(v, i);
        let ghost line = v@.subrange(i as int, e as int);
        assert(lines_from(v@, i as int) == seq![line] + lines_from(v@, e as int));
        out.push((i, e));
        proof {
            assert(seen + lines_from(v@, i as int) =~= seen.push(line) + lines_from(v@, e as int));
            seen = seen.push(line);
        }
        i = e;
    }
    proof {
        assert(lines_from(v@, i as int) =~= Seq::<Seq<char>>::empty());
        assert(seen =~= seen + lines_from(v@, i as int));
    }
    out
}

/// The end of the text of the line `v[a..b]` (before its newline).
fn text_end(v: &Vec<char>, a: usize, b: usize) -> (t: usize)
    requires
        a < b <= v@.len(),
        forall|k: int| a <= k < b - 1 ==> v@[k] != '\n',
    ensures
        a <= t <= b,
        v@.subrange(a as int, t as int) == line_text(v@.subrange(a as int, b as int)),
        t == b || (t == b - 1 && v@[t as int] == '\n'),
{
    let ghost raw = v@.subrange(a as int, b as int);
    if v[b - 1] == '\n' {
        assert(raw.drop_last() =~= v@.subrange(a as int, b - 1));
        let ghost r1 = raw.drop_last();
        assert(r1.len() == 0 || r1.last() != '\n');
        assert(strip_run_end(r1, '\n') == r1);
        b - 1
    } else {
        assert(strip_run_end(raw, '\n') == raw);
        b
    }
}

/// Facts about one line of the region.
struct LineInfo {
    /// End of the line's text (before its newline).
    text_end: usize,
    /// Whether the line is a bullet line.
    bullet: bool,
}

fn line_info(v: &Vec<char>, a: usize, b: usize) -> (r: LineInfo)
    requires
        a < b <= v@.len(),
        forall|k: int| a <= k < b - 1 ==> v@[k] != '\n',
    ensures
        a <= r.text_end <= b,
        v@.subrange(a as int, r.text_end as int) == line_text(v@.subrange(a as int, b as int)),
        r.bullet == (line_body(v@.subrange(a as int, b as int)) is Some),
        r.bullet ==> a + 2 <= r.text_end && line_body(v@.subrange(a as int, b as int)) == Some(
            v@.subrange(a + 2, r.text_end as int),
        ),
        r.text_end == b || (r.text_end == b - 1 && v@[r.text_end as int] == '\n'),
{
    let t = text_end(v, a, b);
    let ghost tx = v@.subrange(a as int, t as int);
    let bullet = t - a >= 2 && v[a] == '-' && v[a + 1] == ' ';
    proof {
        if bullet {
            assert(tx.skip(2) =~= v@.subrange(a + 2, t as int));
        }
    }
    LineInfo { text_end: t, bullet }
}

/// The lowercased ID of the line `v[a..b]`.
fn line_id_exec(v: &Vec<char>, a: usize, b: usize) -> (r: Option<String>)
    requires
        a < b <= v@.len(),
        forall|k: int| a <= k < b - 1 ==> v@[k] != '\n',
    ensures
        match r {
            Some(x) => line_id(v@.subrange(a as int, b as int)) == Some(x@),
            None => line_id(v@.subrange(a as int, b as int)) is None,
        },
{
    let info = line_info(v, a, b);
    if !info.bullet {
        return None;
    }
    match extract_id_bounds(v, a + 2, info.text_end) {
        Some((p, q)) => Some(lower_string(v, p, q)),
        None => None,
    }
}

fn is_blank_range(v: &Vec<char>, lo: usize, hi: usize) -> (r: bool)
    requires
        lo <= hi <= v@.len(),
    ensures
        r == is_blank(v@.subrange(lo as int, hi as int)),
{
    let mut k = lo;
    while k < hi
        invariant
            lo <= k <= hi <= v@.len(),
            forall|j: int| lo <= j < k ==> is_ws(#[trigger] v@[j]),
        decreases hi - k,
    {
        if !is_whitespace(v[k]) {
            assert(!is_ws(v@.subrange(lo as int, hi as int)[k - lo]));
            return false;
        }
        k += 1;
    }
    assert forall|j: int| 0 <= j < hi - lo implies is_ws(#[trigger] v@.subrange(lo as int, hi as int)[j]) by {
        assert(v@.subrange(lo as int, hi as int)[j] == v@[lo + j]);
    }
    true
}

pub proof fn lemma_render_stable(lines: Seq<Seq<char>>, ids: Seq<Seq<char>>, ids2: Seq<Seq<char>>)
    requires
        count_needs(lines) <= ids.len(),
        count_needs(lines) <= ids2.len(),
        forall|k: int| 0 <= k < count_needs(lines) ==> ids[k] == ids2[k],
    ensures
        render_region(lines, ids) == render_region(lines, ids2),
    decreases lines.len(),
{
    if lines.len() > 0 {
        lemma_render_stable(lines.drop_last(), ids, ids2);
    }
}

/// Some line needs an ID when the count of such lines is not zero.
proof fn lemma_count_needs_has(lines: Seq<Seq<char>>)
    requires
        count_needs(lines) > 0,
    ensures
        exists|q: int| 0 <= q < lines.len() && needs_id(#[trigger] lines[q]),
    decreases lines.len(),
{
    if !needs_id(lines.last()) {
        lemma_count_needs_has(lines.drop_last());
        let q = choose|q: int| 0 <= q < lines.drop_last().len() && needs_id(
            #[trigger] lines.drop_last()[q],
        );
        assert(lines.drop_last()[q] == lines[q]);
    } else {
        assert(needs_id(lines[lines.len() - 1]));
    }
}

/// Where no fresh ID could be drawn for line `j`, the IDs to avoid held one
/// of the generated shape: a tombstoned one, one in the region, or one handed
/// out to an earlier line.
proof fn lemma_exhausted_at(
    lines: Seq<Seq<char>>,
    j: int,
    used: Seq<Seq<char>>,
    tomb: Seq<Seq<char>>,
    nv: Seq<Seq<char>>,
    project: Seq<char>,
)
    requires
        0 <= j < lines.len(),
        needs_id(lines[j]),
        used.to_set() == tomb.to_set().union(region_ids(lines)).union(nv.to_set()),
        nv.len() == count_needs(lines.take(j)),
        exists|u: Seq<char>| used.contains(u) && #[trigger] is_generated(u, project),
    ensures
        exists|k: int|
            0 <= k < lines.len() && needs_id(#[trigger] lines[k]) && ((exists|u: Seq<char>|
                (tomb.contains(u) || region_ids(lines).contains(u)) && #[trigger] is_generated(
                    u,
                    project,
                )) || exists|q: int| 0 <= q < k && needs_id(#[trigger] lines[q])),
{
    let u = choose|u: Seq<char>| used.contains(u) && #[trigger] is_generated(u, project);
    assert(used.to_set().contains(u));
    if nv.to_set().contains(u) {
        assert(nv.contains(u));
        lemma_count_needs_has(lines.take(j));
        let q = choose|q: int| 0 <= q < lines.take(j).len() && needs_id(#[trigger] lines.take(j)[q]);
        assert(lines.take(j)[q] == lines[q]);
        assert(needs_id(lines[q]));
    } else if tomb.to_set().contains(u) {
        assert(tomb.contains(u));
    }
    assert(needs_id(lines[j]));
}

/// Assigns an ID to every bullet of `parsed_region` that has a title but no
/// `[id]`. Candidates avoid the tombstoned IDs, the IDs already on bullets,
/// and the IDs handed out earlier in the same call. Two bullets with the same
/// ID (compared lowercased) are an error; a bullet whose ID has another
/// project's prefix is kept as is and warned about. Nothing is assigned when
/// an error is returned.
#[verifier::spinoff_prover]
#[verifier::rlimit(30)]
pub fn assign_ids(
    parsed_region: &str,
    project_id: &str,
    tombstone_ids: &Vec<String>,
    rng: &mut StdRng,
) -> (r: Result<AssignIdsResult, SyncIdError>)
    ensures
        ({
            let lines = text_lines(parsed_region@);
            match r {
                Ok(res) => {
                    let new = strings_view(res.new_ids@);
                    &&& first_dup_line(lines, 0) is None
                    &&& new.len() == count_needs(lines)
                    &&& res.modified@ == render_region(lines, new)
                    &&& strings_view(res.warnings@) == region_warnings(
                        lines,
                        lines.len() as int,
                        project_id@,
                    )
                    &&& new.no_duplicates()
                    &&& forall|k: int|
                        0 <= k < new.len() ==> is_generated(#[trigger] new[k], project_id@)
                            && !strings_view(tombstone_ids@).contains(new[k]) && !region_ids(
                            lines,
                        ).contains(new[k])
                },
                Err(SyncIdError::DuplicateId { id, line1, line2 }) => first_dup_line(lines, 0)
                    == Some(((line1 - 1) as int, (line2 - 1) as int, id@)),
                Err(SyncIdError::RetryExhausted) => first_dup_line(lines, 0) is None && exists|k: int|
                    0 <= k < lines.len() && needs_id(#[trigger] lines[k]) && ((exists|u: Seq<char>|
                        (strings_view(tombstone_ids@).contains(u) || region_ids(lines).contains(u))
                            && #[trigger] is_generated(u, project_id@)) || exists|q: int|
                        0 <= q < k && needs_id(#[trigger] lines[q])),
            }
        }),
{
    let v = chars_of(parsed_region);
    let ghost lines = text_lines(v@);
    let bounds = line_bounds(&v);
    let n = bounds.len();
    let mut used: Vec<String> = tombstone_ids.clone();
    let mut warnings: Vec<String> = Vec::new();
    let quoted_project = debug_string(project_id);
    // Pass 1: duplicates, foreign prefixes, and the IDs already in use.
    let mut j: usize = 0;
    while j < n
        invariant
            j <= n == bounds@.len(),
            v@ == parsed_region@,
            lines == text_lines(v@),
            bounds_match(v@, bounds@, lines),
            quoted_project@ == debug_quoted(project_id@),
            first_dup_line(lines, 0) == first_dup_line(lines, j as int),
            strings_view(warnings@) == region_warnings(lines, j as int, project_id@),
            strings_view(used@).to_set() == strings_view(tombstone_ids@).to_set().union(
                region_ids(lines.take(j as int)),
            ),
        decreases n - j,
    {
        let (a, b) = bounds[j];
        assert(lines[j as int] == v@.subrange(a as int, b as int));
        assert(lines.take(j + 1).drop_last() =~= lines.take(j as int));
        assert(lines.take(j + 1).last() == lines[j as int]);
        match line_id_exec(&v, a, b) {
            Some(x) => {
                // The first earlier line with the same ID, if any.
                let mut k: usize = 0;
                while k < j
                    invariant
                        k <= j < n == bounds@.len(),
                        bounds_match(v@, bounds@, lines),
                        v@ == parsed_region@,
                        lines == text_lines(v@),
                        line_id(lines[j as int]) == Some(x@),
                        first_dup_line(lines, 0) == first_dup_line(lines, j as int),
                        first_line_with_id(lines, x@, 0, j as int) == first_line_with_id(
                            lines,
                            x@,
                            k as int,
                            j as int,
                        ),
                    decreases j - k,
                {
                    let (c, d) = bounds[k];
                    assert(lines[k as int] == v@.subrange(c as int, d as int));
                    if let Some(y) = line_id_exec(&v, c, d) {
                        if y == x {
                            assert(first_line_with_id(lines, x@, k as int, j as int) == Some(k as int));
                            assert(line_id(lines[j as int]) == Some(x@));
                            assert(first_dup_line(lines, j as int) == Some((k as int, j as int, x@)));
                            return Err(SyncIdError::DuplicateId { id: x, line1: k + 1, line2: j + 1 });
                        }
                    }
                    k += 1;
                }
                let prefix = dash_prefix_string(&x);
                let ghost w0 = strings_view(warnings@);
                if !crate::text::str_eq(prefix.as_str(), project_id) {
                    let quoted_prefix = debug_string(prefix.as_str());
                    let w = foreign_prefix_warning(j + 1, x.as_str(), quoted_prefix.as_str(), quoted_project.as_str());
                    warnings.push(w);
                    assert(strings_view(warnings@) =~= w0.push(w@));
                }
                let ghost u0 = strings_view(used@);
                used.push(x);
                proof {
                    assert(strings_view(used@) =~= u0 + seq![x@]);
                    Seq::<Seq<char>>::lemma_to_set_insert_commutes(u0, x@);
                    assert(strings_view(used@).to_set() =~= strings_view(tombstone_ids@).to_set().union(
                        region_ids(lines.take(j + 1)),
                    ));
                }
            },
            None => {},
        }
        j += 1;
    }
    assert(lines.take(n as int) =~= lines);
    // Pass 2: hand out IDs and write the region back.
    let mut out = String::new();
    let mut new_ids: Vec<String> = Vec::new();
    let mut j: usize = 0;
    while j < n
        invariant
            j <= n == bounds@.len(),
            v@ == parsed_region@,
            lines == text_lines(v@),
            bounds_match(v@, bounds@, lines),
            first_dup_line(lines, 0) is None,
            strings_view(used@).to_set() == strings_view(tombstone_ids@).to_set().union(
                region_ids(lines),
            ).union(strings_view(new_ids@).to_set()),
            strings_view(new_ids@).len() == count_needs(lines.take(j as int)),
            out@ == render_region(lines.take(j as int), strings_view(new_ids@)),
            strings_view(new_ids@).no_duplicates(),
            forall|k: int|
                0 <= k < strings_view(new_ids@).len() ==> is_generated(
                    #[trigger] strings_view(new_ids@)[k],
                    project_id@,
                ) && !strings_view(tombstone_ids@).contains(strings_view(new_ids@)[k])
                    && !region_ids(lines).contains(strings_view(new_ids@)[k]),
        decreases n - j,
    {
        let (a, b) = bounds[j];
        let ghost raw = v@.subrange(a as int, b as int);
        assert(lines[j as int] == raw);
        assert(lines.take(j + 1).drop_last() =~= lines.take(j as int));
        assert(lines.take(j + 1).last() == raw);
        let info = line_info(&v, a, b);
        let ghost nv0 = strings_view(new_ids@);
        let mut needs = false;
        if info.bullet {
            if !is_blank_range(&v, a + 2, info.text_end) {
                if extract_id_bounds(&v, a + 2, info.text_end).is_none() {
                    needs = true;
                }
            }
        }
        assert(needs == needs_id(raw));
        if needs {
            let id = match generate_id(project_id, &used, rng) {
                Some(id) => id,
                None => {
                    proof {
                        lemma_exhausted_at(lines, j as int, strings_view(used@), strings_view(tombstone_ids@), nv0, project_id@);
                    }
                    return Err(SyncIdError::RetryExhausted);
                },
            };
            push_str(&mut out, "- [");
            push_str(&mut out, id.as_str());
            push_str(&mut out, "] ");
            push_range(&mut out, &v, a + 2, b);
            proof {
                reveal_strlit("- [");
                reveal_strlit("] ");
            }
            let ghost idv = id@;
            let ghost u0 = strings_view(used@);
            used.push(id.clone());
            new_ids.push(id);
            proof {
                let nv1 = strings_view(new_ids@);
                assert(nv1 =~= nv0 + seq![idv]);
                assert(strings_view(used@) =~= u0 + seq![idv]);
                Seq::<Seq<char>>::lemma_to_set_insert_commutes(u0, idv);
                Seq::<Seq<char>>::lemma_to_set_insert_commutes(nv0, idv);
                lemma_render_stable(lines.take(j as int), nv0, nv1);
                assert(nv1[count_needs(lines.take(j as int)) as int] == idv);
                let t = line_text(raw);
                assert(t =~= v@.subrange(a as int, info.text_end as int));
                assert(t.skip(2) + raw.skip(t.len() as int) =~= v@.subrange(a + 2, b as int));
                assert(render_line(raw, idv) =~= seq!['-', ' ', '['] + idv + seq![']', ' '] + v@.subrange(a + 2, b as int));
                assert(!nv0.contains(idv)) by {
                    if nv0.contains(idv) {
                        let q = choose|q: int| 0 <= q < nv0.len() && nv0[q] == idv;
                        assert(nv0.to_set().contains(idv));
                        assert(u0.to_set().contains(idv));
                    }
                };
                assert(!strings_view(tombstone_ids@).contains(idv)) by {
                    if strings_view(tombstone_ids@).contains(idv) {
                        assert(strings_view(tombstone_ids@).to_set().contains(idv));
                        assert(u0.to_set().contains(idv));
                    }
                };
                assert(!region_ids(lines).contains(idv)) by {
                    if region_ids(lines).contains(idv) {
                        assert(u0.to_set().contains(idv));
                    }
                };
                assert forall|p: int, q: int| 0 <= p < q < nv1.len() implies nv1[p] != nv1[q] by {
                    if q == nv0.len() {
                        assert(nv0.contains(nv0[p]));
                    }
                }
                assert(strings_view(used@).to_set() =~= strings_view(tombstone_ids@).to_set().union(
                    region_ids(lines),
                ).union(nv1.to_set()));
            }
        } else {
            push_range(&mut out, &v, a, b);
            proof {
                lemma_render_stable(lines.take(j as int), nv0, strings_view(new_ids@));
            }
        }
        j += 1;
    }
    assert(lines.take(n as int) =~= lines);
    Ok(AssignIdsResult { modified: out, new_ids, warnings })
}

} // verus!
