//! `backlog/items/<id>.md`: notes extracted from a bullet, behind an
//! `id:` frontmatter block.
use vstd::prelude::*;
use crate::backlog_file::{
    fm_end, lemma_sep_line_from, parse_frontmatter, sep, sep_line_from, spec_backlog_parse,
    spec_fm_body, spec_fm_raw, spec_fm_serialize, FrontmatterView,
};
use crate::line_endings::{
    lemma_normalize_identity, lemma_normalize_no_cr, no_cr, normalize, normalize_line_endings,
};
use crate::region_shape::lemma_fm_of_written;
use crate::text::{
    chars_of, find_char_from, find_from, is_blank, is_whitespace, is_ws, lemma_find_from,
    lemma_strip_run_end_prefix, line_end, occurs_at, push_char, push_range, push_str,
    strip_run_end, string_of,
};

verus! {

// ---------------------------------------------------------------------------
// Lines and indentation
// ---------------------------------------------------------------------------

/// The pieces of `s[i..]` between `'\n'` characters (`str::split('\n')`).
pub open spec fn split_from(s: Seq<char>, i: int) -> Seq<Seq<char>>
    decreases s.len() - i,
{
    if i < 0 || i > s.len() {
        Seq::empty()
    } else {
        proof {
            lemma_find_from(s, i, '\n');
        }
        match find_from(s, i, '\n') {
            Some(k) => seq![s.subrange(i, k)] + split_from(s, k + 1),
            None => seq![s.subrange(i, s.len() as int)],
        }
    }
}

/// `s` split at every `'\n'`.
pub open spec fn split_nl(s: Seq<char>) -> Seq<Seq<char>> {
    split_from(s, 0)
}

/// Lines joined with `'\n'` between them.
pub open spec fn join_nl(parts: Seq<Seq<char>>) -> Seq<char>
    decreases parts.len(),
{
    if parts.len() == 0 {
        Seq::empty()
    } else if parts.len() == 1 {
        parts[0]
    } else {
        join_nl(parts.drop_last()) + seq!['\n'] + parts.last()
    }
}

pub open spec fn is_indent(c: char) -> bool {
    c == ' ' || c == '\t'
}

/// The number of leading space and tab characters of `l`.
pub open spec fn indent_len(l: Seq<char>) -> nat
    decreases l.len(),
{
    if l.len() > 0 && is_indent(l[0]) {
        1 + indent_len(l.skip(1))
    } else {
        0
    }
}

/// The length of the longest common prefix of `a` and `b`.
pub open spec fn lcp_len(a: Seq<char>, b: Seq<char>) -> nat
    decreases a.len(),
{
    if a.len() > 0 && b.len() > 0 && a[0] == b[0] {
        1 + lcp_len(a.skip(1), b.skip(1))
    } else {
        0
    }
}

/// The longest leading-whitespace prefix shared by every non-blank line
/// (compared character for character, so a tab and a space differ); `None`
/// when every line is blank.
pub open spec fn common_indent(lines: Seq<Seq<char>>) -> Option<Seq<char>>
    decreases lines.len(),
{
    if lines.len() == 0 {
        None
    } else {
        let l = lines.last();
        let ws = l.take(indent_len(l) as int);
        if is_blank(l) {
            common_indent(lines.drop_last())
        } else {
            match common_indent(lines.drop_last()) {
                None => Some(ws),
                Some(p) => Some(p.take(lcp_len(p, ws) as int)),
            }
        }
    }
}

/// The first non-blank line at or after `i`.
pub open spec fn first_nonblank(lines: Seq<Seq<char>>, i: int) -> Option<int>
    decreases lines.len() - i,
{
    if i < 0 || i >= lines.len() {
        None
    } else if !is_blank(lines[i]) {
        Some(i)
    } else {
        first_nonblank(lines, i + 1)
    }
}

/// One past the last non-blank line (0 when there is none).
pub open spec fn nonblank_end(lines: Seq<Seq<char>>) -> int
    decreases lines.len(),
{
    if lines.len() == 0 {
        0
    } else if !is_blank(lines.last()) {
        lines.len() as int
    } else {
        nonblank_end(lines.drop_last())
    }
}

/// A kept note line once the common indentation `p` is removed; blank lines
/// become empty.
pub open spec fn dedent(l: Seq<char>, p: nat) -> Seq<char> {
    if is_blank(l) {
        Seq::empty()
    } else {
        l.skip(p as int)
    }
}

/// Notes as they go into an item file: line endings normalized, leading and
/// trailing blank lines dropped, the longest common leading-whitespace prefix
/// of the non-blank lines removed, interior blank lines emptied, lines joined
/// with `'\n'` (no trailing newline).
pub open spec fn spec_strip_notes(notes: Seq<char>) -> Seq<char> {
    let lines = split_nl(normalize(notes));
    match first_nonblank(lines, 0) {
        None => Seq::empty(),
        Some(st) => {
            let kept = lines.subrange(st, nonblank_end(lines));
            let p = match common_indent(kept) {
                Some(p) => p.len(),
                None => 0,
            };
            join_nl(kept.map_values(|l: Seq<char>| dedent(l, p)))
        },
    }
}

pub open spec fn lines_view(ls: Seq<Vec<char>>) -> Seq<Seq<char>> {
    ls.map_values(|l: Vec<char>| l@)
}

fn copy_range(v: &Vec<char>, lo: usize, hi: usize) -> (r: Vec<char>)
    requires
        lo <= hi <= v@.len(),
    ensures
        r@ == v@.subrange(lo as int, hi as int),
{
    let mut r: Vec<char> = Vec::new();
    let mut i = lo;
    while i < hi
        invariant
            lo <= i <= hi <= v@.len(),
            r@ == v@.subrange(lo as int, i as int),
        decreases hi - i,
    {
        r.push(v[i]);
        assert(v@.subrange(lo as int, i + 1) =~= v@.subrange(lo as int, i as int).push(v@[i as int]));
        i += 1;
    }
    r
}

/// Splits `v` at every `'\n'`.
fn split_lines(v: &Vec<char>) -> (r: Vec<Vec<char>>)
    ensures
        lines_view(r@) == split_nl(v@),
{
    let mut out: Vec<Vec<char>> = Vec::new();
    let mut st: usize = 0;
    loop
        invariant
            st <= v@.len(),
            lines_view(out@) + split_from(v@, st as int) == split_nl(v@),
        decreases v@.len() - st,
    {
        let ghost before = lines_view(out@);
        proof {
            lemma_find_from(v@, st as int, '\n');
        }
        match find_char_from(v, st, '\n') {
            Some(k) => {
                assert(k < v.len());
                out.push(copy_range(v, st, k));
                assert(lines_view(out@) =~= before + seq![v@.subrange(st as int, k as int)]);
                assert(split_from(v@, st as int) == seq![v@.subrange(st as int, k as int)]
                    + split_from(v@, k + 1));
                assert(before + split_from(v@, st as int) =~= lines_view(out@) + split_from(v@, k + 1));
                st = k + 1;
            },
            None => {
                out.push(copy_range(v, st, v.len()));
                assert(lines_view(out@) =~= before + seq![v@.subrange(st as int, v@.len() as int)]);
                return out;
            },
        }
    }
}

fn is_blank_line(l: &Vec<char>) -> (r: bool)
    ensures
        r == is_blank(l@),
{
    let mut i: usize = 0;
    while i < l.len()
        invariant
            i <= l@.len(),
            forall|k: int| 0 <= k < i ==> is_ws(#[trigger] l@[k]),
        decreases l@.len() - i,
    {
        if !is_whitespace(l[i]) {
            return false;
        }
        i += 1;
    }
    true
}

fn indent_of(l: &Vec<char>) -> (r: usize)
    ensures
        r == indent_len(l@),
        r <= l@.len(),
{
    let mut i: usize = 0;
    assert(l@.skip(0) =~= l@);
    while i < l.len() && (l[i] == ' ' || l[i] == '\t')
        invariant
            i <= l@.len(),
            indent_len(l@) == i + indent_len(l@.skip(i as int)),
        decreases l@.len() - i,
    {
        assert(l@.skip(i as int).skip(1) =~= l@.skip(i + 1));
        i += 1;
    }
    proof {
        lemma_indent_len_bound(l@);
    }
    i
}

pub proof fn lemma_indent_len_bound(l: Seq<char>)
    ensures
        indent_len(l) <= l.len(),
        forall|k: int| 0 <= k < indent_len(l) ==> is_indent(#[trigger] l[k]),
    decreases l.len(),
{
    if l.len() > 0 && is_indent(l[0]) {
        lemma_indent_len_bound(l.skip(1));
        assert forall|k: int| 0 <= k < indent_len(l) implies is_indent(#[trigger] l[k]) by {
            if k > 0 {
                assert(l[k] == l.skip(1)[k - 1]);
            }
        }
    }
}

pub proof fn lemma_lcp_bound(a: Seq<char>, b: Seq<char>)
    ensures
        lcp_len(a, b) <= a.len(),
        lcp_len(a, b) <= b.len(),
        forall|k: int| 0 <= k < lcp_len(a, b) ==> a[k] == b[k],
    decreases a.len(),
{
    if a.len() > 0 && b.len() > 0 && a[0] == b[0] {
        lemma_lcp_bound(a.skip(1), b.skip(1));
        assert forall|k: int| 0 <= k < lcp_len(a, b) implies a[k] == b[k] by {
            if k > 0 {
                assert(a[k] == a.skip(1)[k - 1]);
                assert(b[k] == b.skip(1)[k - 1]);
            }
        }
    }
}

fn lcp_exec(a: &Vec<char>, b: &Vec<char>, blen: usize) -> (r: usize)
    requires
        blen <= b@.len(),
    ensures
        r == lcp_len(a@, b@.take(blen as int)),
{
    let ghost bb = b@.take(blen as int);
    let mut i: usize = 0;
    assert(a@.skip(0) =~= a@);
    assert(bb.skip(0) =~= bb);
    while i < a.len() && i < blen && a[i] == b[i]
        invariant
            i <= a@.len(),
            i <= blen <= b@.len(),
            bb == b@.take(blen as int),
            lcp_len(a@, bb) == i + lcp_len(a@.skip(i as int), bb.skip(i as int)),
        decreases a@.len() - i,
    {
        assert(a@.skip(i as int).skip(1) =~= a@.skip(i + 1));
        assert(bb.skip(i as int).skip(1) =~= bb.skip(i + 1));
        i += 1;
    }
    i
}

/// Removes surrounding blank lines and the common indentation from notes (see
/// [`spec_strip_notes`]).
pub fn strip_notes(notes: &str) -> (r: String)
    ensures
        r@ == spec_strip_notes(notes@),
{
    let norm = normalize_line_endings(notes);
    let v = chars_of(norm.as_str());
    let lines = split_lines(&v);
    let ghost lv = lines_view(lines@);
    // First non-blank line.
    let mut st: usize = 0;
    while st < lines.len() && is_blank_line(&lines[st])
        invariant
            st <= lines@.len(),
            lv == lines_view(lines@),
            first_nonblank(lv, 0) == first_nonblank(lv, st as int),
        decreases lines@.len() - st,
    {
        st += 1;
    }
    if st == lines.len() {
        return String::new();
    }
    assert(first_nonblank(lv, 0) == Some(st as int));
    // One past the last non-blank line.
    let mut en: usize = lines.len();
    assert(lv.take(en as int) =~= lv);
    while en > 0 && is_blank_line(&lines[en - 1])
        invariant
            en <= lines@.len(),
            lv == lines_view(lines@),
            nonblank_end(lv) == nonblank_end(lv.take(en as int)),
        decreases en,
    {
        assert(lv.take(en as int).drop_last() =~= lv.take(en - 1));
        en -= 1;
    }
    proof {
        if en > 0 {
            assert(lv.take(en as int).last() == lv[en - 1]);
        }
        assert(nonblank_end(lv) == en);
        lemma_nonblank_end_after_first(lv, st as int);
    }
    let ghost kept = lv.subrange(st as int, en as int);
    // Common indentation of the kept non-blank lines.
    let mut pref: Option<Vec<char>> = None;
    let mut i = st;
    while i < en
        invariant
            st <= i <= en <= lines@.len(),
            lv == lines_view(lines@),
            kept == lv.subrange(st as int, en as int),
            match pref {
                Some(p) => common_indent(kept.take(i - st)) == Some(p@),
                None => common_indent(kept.take(i - st)) is None,
            },
        decreases en - i,
    {
        let l = &lines[i];
        assert(kept.take(i + 1 - st).drop_last() =~= kept.take(i - st));
        assert(kept.take(i + 1 - st).last() == l@);
        if !is_blank_line(l) {
            let w = indent_of(l);
            match pref {
                None => {
                    pref = Some(copy_range(l, 0, w));
                    assert(l@.subrange(0, w as int) =~= l@.take(w as int));
                },
                Some(p) => {
                    let c = lcp_exec(&p, l, w);
                    proof {
                        lemma_lcp_bound(p@, l@.take(w as int));
                    }
                    let q = copy_range(&p, 0, c);
                    assert(p@.subrange(0, c as int) =~= p@.take(c as int));
                    pref = Some(q);
                },
            }
        }
        i += 1;
    }
    assert(kept.take(en - st) =~= kept);
    proof {
        lemma_common_indent_prefix(kept);
    }
    let plen: usize = match &pref {
        Some(p) => p.len(),
        None => 0,
    };
    // Join the dedented lines.
    let ghost parts = kept.map_values(|l: Seq<char>| dedent(l, plen as nat));
    let mut out = String::new();
    let mut j = st;
    while j < en
        invariant
            st <= j <= en <= lines@.len(),
            st < en,
            lv == lines_view(lines@),
            kept == lv.subrange(st as int, en as int),
            parts == kept.map_values(|l: Seq<char>| dedent(l, plen as nat)),
            forall|k: int| 0 <= k < kept.len() && !is_blank(kept[k]) ==> plen <= #[trigger] kept[k].len(),
            j == st ==> out@.len() == 0,
            j > st ==> out@ == join_nl(parts.take(j - st)),
        decreases en - j,
    {
        let l = &lines[j];
        let ghost before = out@;
        if j > st {
            push_char(&mut out, '\n');
        }
        assert(kept[j - st] == l@);
        if !is_blank_line(l) {
            push_range(&mut out, l, plen, l.len());
            assert(l@.subrange(plen as int, l@.len() as int) =~= l@.skip(plen as int));
        } else {
            assert(out@ =~= out@ + Seq::<char>::empty());
        }
        assert(parts.take(j + 1 - st).drop_last() =~= parts.take(j - st));
        assert(parts.take(j + 1 - st).last() == dedent(l@, plen as nat));
        if j == st {
            assert(parts.take(1) =~= seq![dedent(l@, plen as nat)]);
            assert(out@ =~= join_nl(parts.take(1)));
        } else {
            assert(out@ =~= join_nl(parts.take(j - st)) + seq!['\n'] + dedent(l@, plen as nat));
        }
        j += 1;
    }
    assert(parts.take(en - st) =~= parts);
    out
}

pub proof fn lemma_nonblank_end_after_first(lines: Seq<Seq<char>>, st: int)
    requires
        first_nonblank(lines, 0) == Some(st),
    ensures
        st < nonblank_end(lines) <= lines.len(),
    decreases lines.len(),
{
    if lines.len() > 0 && is_blank(lines.last()) {
        lemma_first_nonblank_prefix(lines, 0);
        lemma_first_nonblank_prefix(lines.drop_last(), 0);
        assert(first_nonblank(lines.drop_last(), 0) == Some(st)) by {
            lemma_first_nonblank_drop_last(lines, 0, st);
        };
        lemma_nonblank_end_after_first(lines.drop_last(), st);
    } else {
        lemma_first_nonblank_prefix(lines, 0);
    }
}

pub proof fn lemma_first_nonblank_prefix(lines: Seq<Seq<char>>, i: int)
    requires
        0 <= i,
    ensures
        first_nonblank(lines, i) matches Some(k) ==> i <= k < lines.len() && !is_blank(lines[k])
            && forall|j: int| i <= j < k ==> is_blank(#[trigger] lines[j]),
        first_nonblank(lines, i) is None ==> forall|j: int| i <= j < lines.len() ==> is_blank(
            #[trigger] lines[j],
        ),
    decreases lines.len() - i,
{
    if i < lines.len() && is_blank(lines[i]) {
        lemma_first_nonblank_prefix(lines, i + 1);
    }
}

pub proof fn lemma_first_nonblank_drop_last(lines: Seq<Seq<char>>, i: int, k: int)
    requires
        0 <= i <= k,
        k < lines.len() - 1,
        first_nonblank(lines, i) == Some(k),
    ensures
        first_nonblank(lines.drop_last(), i) == Some(k),
    decreases k - i,
{
    let dl = lines.drop_last();
    assert(dl[i] == lines[i]);
    if i < k {
        assert(is_blank(lines[i]));
        lemma_first_nonblank_drop_last(lines, i + 1, k);
        assert(first_nonblank(dl, i + 1) == Some(k));
        assert(is_blank(dl[i]));
        assert(first_nonblank(dl, i) == first_nonblank(dl, i + 1));
    } else {
        lemma_first_nonblank_prefix(lines, k);
        assert(!is_blank(dl[i]));
    }
}

/// Every non-blank line starts with the common indentation.
pub proof fn lemma_common_indent_prefix(lines: Seq<Seq<char>>)
    ensures
        common_indent(lines) matches Some(p) ==> forall|k: int|
            0 <= k < lines.len() && !is_blank(lines[k]) ==> p.len() <= #[trigger] lines[k].len()
                && lines[k].take(p.len() as int) == p,
        common_indent(lines) is None ==> forall|k: int| 0 <= k < lines.len() ==> is_blank(
            #[trigger] lines[k],
        ),
    decreases lines.len(),
{
    if lines.len() > 0 {
        let init = lines.drop_last();
        let l = lines.last();
        lemma_common_indent_prefix(init);
        lemma_indent_len_bound(l);
        let ws = l.take(indent_len(l) as int);
        if is_blank(l) {
            match common_indent(init) {
                None => {
                    assert forall|k: int| 0 <= k < lines.len() implies is_blank(#[trigger] lines[k]) by {
                        if k < lines.len() - 1 {
                            assert(lines[k] == init[k]);
                        }
                    }
                },
                Some(p) => {
                    assert forall|k: int| 0 <= k < lines.len() && !is_blank(lines[k]) implies p.len()
                        <= #[trigger] lines[k].len() && lines[k].take(p.len() as int) == p by {
                        assert(k < lines.len() - 1);
                        assert(lines[k] == init[k]);
                    }
                },
            }
        } else {
            match common_indent(init) {
                None => {
                    assert(l.take(ws.len() as int) =~= ws);
                    assert forall|k: int| 0 <= k < lines.len() && !is_blank(lines[k]) implies ws.len()
                        <= #[trigger] lines[k].len() && lines[k].take(ws.len() as int) == ws by {
                        if k < lines.len() - 1 {
                            assert(lines[k] == init[k]);
                        }
                    }
                },
                Some(p) => {
                    lemma_lcp_bound(p, ws);
                    let c = lcp_len(p, ws);
                    assert forall|k: int| 0 <= k < lines.len() && !is_blank(lines[k]) implies c
                        <= #[trigger] lines[k].len() && lines[k].take(c as int) == p.take(c as int) by {
                        if k < lines.len() - 1 {
                            assert(lines[k] == init[k]);
                            assert(lines[k].take(c as int) =~= lines[k].take(p.len() as int).take(c as int));
                        } else {
                            assert(lines[k] == l);
                            assert(l.take(c as int) =~= p.take(c as int));
                        }
                    }
                },
            }
        }
    }
}

// ---------------------------------------------------------------------------
// Item file contents
// ---------------------------------------------------------------------------

/// Why an item file's text cannot be used.
#[derive(Debug, Clone, Copy, PartialEq, Eq, Structural)]
pub enum ItemFileError {
    /// The file does not open with a frontmatter block.
    MissingFrontmatter,
}

impl ItemFileError {
    pub fn message(&self) -> (r: String)
        ensures
            r@ == "item file is missing frontmatter"@,
    {
        let mut out = String::new();
        push_str(&mut out, "item file is missing frontmatter");
        out
    }
}

/// A read item file: its id (the file name's stem) and its body, which begins
/// with the blank line that follows the frontmatter.
pub struct ItemFile {
    id: String,
    body: String,
}

impl ItemFile {
    pub fn body(&self) -> (r: &str)
        ensures
            r@ == self.spec_body(),
    {
        self.body.as_str()
    }

    pub fn id(&self) -> (r: &str)
        ensures
            r@ == self.spec_id(),
    {
        self.id.as_str()
    }

    pub closed spec fn spec_id(&self) -> Seq<char> {
        self.id@
    }

    pub closed spec fn spec_body(&self) -> Seq<char> {
        self.body@
    }
}

/// The text of a new item file for `id` whose notes are already stripped:
/// `---`, `id: <id>`, `---`, a blank line, the notes and a final newline.
pub open spec fn spec_new_item(id: Seq<char>, stripped: Seq<char>) -> Seq<char> {
    "---\nid: "@ + id + "\n---\n\n"@ + stripped + seq!['\n']
}

/// Composes a new item file from already-stripped notes.
pub fn new_item_contents_stripped(id: &str, stripped: &str) -> (r: String)
    ensures
        r@ == spec_new_item(id@, stripped@),
{
    let mut out = String::new();
    push_str(&mut out, "---\nid: ");
    push_str(&mut out, id);
    push_str(&mut out, "\n---\n\n");
    push_str(&mut out, stripped);
    push_char(&mut out, '\n');
    out
}

/// Composes a new item file for `id`, stripping `body` first.
pub fn new_item_contents(id: &str, body: &str) -> (r: String)
    ensures
        r@ == spec_new_item(id@, spec_strip_notes(body@)),
{
    let stripped = strip_notes(body);
    new_item_contents_stripped(id, stripped.as_str())
}

/// The text of an item file once `stripped` notes are appended to `existing`:
/// the frontmatter unchanged, the old body without trailing newlines, one
/// blank line, the new notes and a final newline.
pub open spec fn spec_append_item(existing: Seq<char>, stripped: Seq<char>) -> Result<
    Seq<char>,
    ItemFileError,
> {
    let n = normalize(existing);
    match fm_end(n) {
        None => Err(ItemFileError::MissingFrontmatter),
        Some(_) => Ok(
            spec_fm_serialize(
                FrontmatterView { present: true, raw_body: spec_fm_raw(n), version: 1 },
            ) + strip_run_end(spec_fm_body(n), '\n') + seq!['\n', '\n'] + stripped + seq!['\n'],
        ),
    }
}

/// Appends already-stripped notes to the text of an existing item file.
pub fn append_item_contents_stripped(existing: &str, stripped: &str) -> (r: Result<
    String,
    ItemFileError,
>)
    ensures
        match r {
            Ok(t) => spec_append_item(existing@, stripped@) == Ok::<Seq<char>, ItemFileError>(t@),
            Err(e) => spec_append_item(existing@, stripped@) == Err::<Seq<char>, ItemFileError>(e),
        },
{
    let normalized = normalize_line_endings(existing);
    let parsed = parse_frontmatter(normalized.as_str());
    if !parsed.frontmatter.present() {
        return Err(ItemFileError::MissingFrontmatter);
    }
    let mut out = parsed.frontmatter.serialize();
    let b = chars_of(parsed.body);
    let mut end = b.len();
    assert(b@.subrange(0, end as int) =~= b@);
    while end > 0 && b[end - 1] == '\n'
        invariant
            end <= b@.len(),
            strip_run_end(b@.subrange(0, end as int), '\n') == strip_run_end(b@, '\n'),
        decreases end,
    {
        assert(b@.subrange(0, end - 1) =~= b@.subrange(0, end as int).drop_last());
        end -= 1;
    }
    proof {
        assert(b@.subrange(0, b@.len() as int) =~= b@);
    }
    push_range(&mut out, &b, 0, end);
    push_char(&mut out, '\n');
    push_char(&mut out, '\n');
    push_str(&mut out, stripped);
    push_char(&mut out, '\n');
    assert(out@ =~= spec_fm_serialize(
        FrontmatterView { present: true, raw_body: spec_fm_raw(normalized@), version: 1 },
    ) + strip_run_end(spec_fm_body(normalized@), '\n') + seq!['\n', '\n'] + stripped@ + seq!['\n']);
    Ok(out)
}

/// Appends notes to the text of an existing item file, stripping them first.
pub fn append_item_contents(existing: &str, new_notes: &str) -> (r: Result<String, ItemFileError>)
    ensures
        match r {
            Ok(t) => spec_append_item(existing@, spec_strip_notes(new_notes@)) == Ok::<
                Seq<char>,
                ItemFileError,
            >(t@),
            Err(e) => spec_append_item(existing@, spec_strip_notes(new_notes@)) == Err::<
                Seq<char>,
                ItemFileError,
            >(e),
        },
{
    let stripped = strip_notes(new_notes);
    append_item_contents_stripped(existing, stripped.as_str())
}

/// Reads an item file's text; the id is the file name's stem, and the
/// frontmatter is required but not inspected.
pub fn read(stem: &str, contents: &str) -> (r: Result<ItemFile, ItemFileError>)
    ensures
        match r {
            Ok(f) => fm_end(normalize(contents@)) is Some && f.spec_id() == stem@ && f.spec_body()
                == spec_fm_body(normalize(contents@)),
            Err(e) => fm_end(normalize(contents@)) is None && e == ItemFileError::MissingFrontmatter,
        },
{
    let normalized = normalize_line_endings(contents);
    let parsed = parse_frontmatter(normalized.as_str());
    if !parsed.frontmatter.present() {
        return Err(ItemFileError::MissingFrontmatter);
    }
    Ok(ItemFile { id: to_owned_str(stem), body: to_owned_str(parsed.body) })
}

fn to_owned_str(s: &str) -> (r: String)
    ensures
        r@ == s@,
{
    crate::text::to_owned_string(s)
}

/// The stem of a file name (`Path::file_stem`): the name without its last
/// extension; a name whose only dot leads it keeps the dot.
pub open spec fn spec_stem(name: Seq<char>) -> Seq<char> {
    match last_dot(name, name.len() as int) {
        Some(k) if k > 0 => name.subrange(0, k),
        _ => name,
    }
}

/// The last `'.'` before position `i`.
pub open spec fn last_dot(s: Seq<char>, i: int) -> Option<int>
    decreases i,
{
    if i <= 0 || i > s.len() {
        None
    } else if s[i - 1] == '.' {
        Some(i - 1)
    } else {
        last_dot(s, i - 1)
    }
}

/// The stem of a file name.
pub fn filename_stem(name: &str) -> (r: String)
    ensures
        r@ == spec_stem(name@),
{
    let v = chars_of(name);
    let mut i = v.len();
    while i > 0 && v[i - 1] != '.'
        invariant
            i <= v@.len(),
            last_dot(v@, v@.len() as int) == last_dot(v@, i as int),
        decreases i,
    {
        i -= 1;
    }
    if i > 1 {
        crate::text::string_from(&v, 0, i - 1)
    } else {
        string_of(&v)
    }
}

// ---------------------------------------------------------------------------
// Reading back what was written
// ---------------------------------------------------------------------------

proof fn lemma_no_cr_concat(a: Seq<char>, b: Seq<char>)
    requires
        no_cr(a),
        no_cr(b),
    ensures
        no_cr(a + b),
{
    assert forall|i: int| 0 <= i < (a + b).len() implies #[trigger] (a + b)[i] != '\r' by {
        if i < a.len() {
            assert((a + b)[i] == a[i]);
        } else {
            assert((a + b)[i] == b[i - a.len()]);
        }
    }
}

proof fn lemma_no_cr_subrange(a: Seq<char>, i: int, j: int)
    requires
        no_cr(a),
        0 <= i <= j <= a.len(),
    ensures
        no_cr(a.subrange(i, j)),
{
    assert forall|k: int| 0 <= k < j - i implies #[trigger] a.subrange(i, j)[k] != '\r' by {
        assert(a.subrange(i, j)[k] == a[i + k]);
    }
}

/// Appending notes to an item file keeps its frontmatter as it was: the file
/// then reads back with the same frontmatter and, as its body, the old body
/// without its trailing newlines, one blank line, the new notes and a final
/// newline. (Notes from [`strip_notes`] hold no carriage return.)
pub proof fn lemma_append_item_read(existing: Seq<char>, stripped: Seq<char>)
    requires
        fm_end(normalize(existing)) is Some,
        no_cr(stripped),
    ensures
        spec_append_item(existing, stripped) matches Ok(t) && {
            let n = normalize(existing);
            let m = normalize(t);
            &&& fm_end(m) is Some
            &&& spec_fm_raw(m) == spec_fm_raw(n)
            &&& spec_fm_body(m) == strip_run_end(spec_fm_body(n), '\n') + seq!['\n', '\n']
                + stripped + seq!['\n']
        },
{
    let n = normalize(existing);
    lemma_normalize_no_cr(existing);
    let o = fm_end(n).unwrap();
    lemma_sep_line_from(n, 4);
    let raw = spec_fm_raw(n);
    let body = spec_fm_body(n);
    lemma_no_cr_subrange(n, 4, o);
    lemma_no_cr_subrange(n, o + 4, n.len() as int);
    lemma_strip_run_end_prefix(body, '\n');
    let np = strip_run_end(body, '\n');
    lemma_no_cr_subrange(body, 0, np.len() as int);
    let x = seq!['\n', '\n'] + stripped + seq!['\n'];
    let fser = spec_fm_serialize(FrontmatterView { present: true, raw_body: raw, version: 1 });
    let t = fser + np + x;
    assert(fser + np + seq!['\n', '\n'] + stripped + seq!['\n'] =~= t);
    assert(spec_append_item(existing, stripped) == Ok::<Seq<char>, ItemFileError>(t));
    assert(no_cr(sep()));
    lemma_no_cr_concat(sep(), raw);
    lemma_no_cr_concat(sep() + raw, sep());
    assert(no_cr(seq!['\n', '\n']));
    assert(no_cr(seq!['\n']));
    lemma_no_cr_concat(seq!['\n', '\n'], stripped);
    lemma_no_cr_concat(seq!['\n', '\n'] + stripped, seq!['\n']);
    lemma_no_cr_concat(fser, np);
    lemma_no_cr_concat(fser + np, x);
    lemma_normalize_identity(t);
    lemma_fm_of_written(n, np, x);
    assert(spec_fm_serialize(spec_backlog_parse(n).frontmatter) == fser);
    assert(t =~= fser + (np + x));
}

/// The text of a new item file reads back with `id: <id>` as its
/// frontmatter and, as its body, a blank line, the notes and a final newline,
/// for an ID on one line and notes without carriage returns.
pub proof fn lemma_new_item_read(id: Seq<char>, stripped: Seq<char>)
    requires
        forall|k: int| 0 <= k < id.len() ==> #[trigger] id[k] != '\n' && id[k] != '\r',
        no_cr(stripped),
    ensures
        ({
            let m = normalize(spec_new_item(id, stripped));
            &&& fm_end(m) is Some
            &&& spec_fm_raw(m) == "id: "@ + id + seq!['\n']
            &&& spec_fm_body(m) == seq!['\n'] + stripped + seq!['\n']
        }),
{
    reveal_strlit("---\nid: ");
    reveal_strlit("\n---\n\n");
    reveal_strlit("id: ");
    let raw = "id: "@ + id + seq!['\n'];
    let body = seq!['\n'] + stripped + seq!['\n'];
    let t = spec_new_item(id, stripped);
    assert(t =~= sep() + raw + sep() + body);
    let e: int = 4 + raw.len() as int;
    assert(no_cr("id: "@));
    assert(no_cr(id));
    assert(no_cr(seq!['\n']));
    assert(no_cr(sep()));
    lemma_no_cr_concat("id: "@, id);
    lemma_no_cr_concat("id: "@ + id, seq!['\n']);
    lemma_no_cr_concat(seq!['\n'], stripped);
    lemma_no_cr_concat(seq!['\n'] + stripped, seq!['\n']);
    lemma_no_cr_concat(sep(), raw);
    lemma_no_cr_concat(sep() + raw, sep());
    lemma_no_cr_concat(sep() + raw + sep(), body);
    lemma_normalize_identity(t);
    assert(occurs_at(t, 0, sep())) by {
        assert(t.subrange(0, 4) =~= sep());
    }
    assert(!occurs_at(t, 4, sep())) by {
        assert(t[4] == 'i');
        assert(t.subrange(4, 8)[0] == t[4]);
    }
    assert forall|k: int| 4 <= k < e - 1 implies t[k] != '\n' by {
        if k >= 8 {
            assert(t[k] == id[k - 8]);
        }
    }
    assert(t[e - 1] == '\n');
    lemma_line_end_to(t, 4, e - 1);
    assert(occurs_at(t, e, sep())) by {
        assert(t.subrange(e, e + 4) =~= sep());
    }
    assert(sep_line_from(t, e) == Some(e));
    assert(fm_end(t) == Some(e));
    assert(t.subrange(4, e) =~= raw);
    assert(t.subrange(e + 4, t.len() as int) =~= body);
}

/// A line from `i` whose first newline is at `j` ends just after it.
proof fn lemma_line_end_to(s: Seq<char>, i: int, j: int)
    requires
        0 <= i <= j < s.len(),
        s[j] == '\n',
        forall|k: int| i <= k < j ==> s[k] != '\n',
    ensures
        line_end(s, i) == j + 1,
    decreases j - i,
{
    if i < j {
        lemma_line_end_to(s, i + 1, j);
    }
}

} // verus!
