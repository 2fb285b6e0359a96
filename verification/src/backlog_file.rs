//! The layout of `backlog/backlog.md`: optional YAML frontmatter, a parsed
//! region of task entries, and an optional freeform region.
use vstd::prelude::*;
use crate::text::{
    chars_of, is_blank, is_whitespace, is_ws, lemma_line_end_bounds, line_end, line_end_exec,
    occurs_at, occurs_at_exec, push_char, push_decimal, push_str, decimal, slice,
    to_owned_string,
};

verus! {

// ---------------------------------------------------------------------------
// Line-level vocabulary
// ---------------------------------------------------------------------------

/// The delimiter line `---\n` that opens and closes frontmatter and that
/// separates the parsed region from the freeform region.
pub open spec fn sep() -> Seq<char> {
    seq!['-', '-', '-', '\n']
}

/// The first line, at or after line start `i`, that is exactly `---\n`.
pub open spec fn sep_line_from(s: Seq<char>, i: int) -> Option<int>
    decreases s.len() - i,
{
    if i < 0 || i >= s.len() {
        None
    } else if occurs_at(s, i, sep()) {
        Some(i)
    } else {
        proof {
            lemma_line_end_bounds(s, i);
        }
        sep_line_from(s, line_end(s, i))
    }
}

pub proof fn lemma_sep_line_from(s: Seq<char>, i: int)
    requires
        0 <= i,
    ensures
        sep_line_from(s, i) matches Some(o) ==> i <= o && occurs_at(s, o, sep()),
    decreases s.len() - i,
{
    if 0 <= i < s.len() && !occurs_at(s, i, sep()) {
        lemma_line_end_bounds(s, i);
        lemma_sep_line_from(s, line_end(s, i));
    }
}

/// A separator found by a line scan from position 0 starts a line: it is at
/// position 0 or right after a `'\n'`.
pub proof fn lemma_sep_line_starts_line(s: Seq<char>, i: int)
    requires
        0 <= i,
        i == 0 || s[i - 1] == '\n',
    ensures
        sep_line_from(s, i) matches Some(o) ==> (o == 0 || s[o - 1] == '\n'),
    decreases s.len() - i,
{
    if 0 <= i < s.len() && !occurs_at(s, i, sep()) {
        lemma_line_end_bounds(s, i);
        if line_end(s, i) < s.len() {
            lemma_sep_line_starts_line(s, line_end(s, i));
        }
    }
}

/// Exec counterpart of [`sep_line_from`].
fn find_sep_line(v: &Vec<char>, start: usize) -> (r: Option<usize>)
    requires
        start <= v@.len(),
    ensures
        match r {
            Some(o) => sep_line_from(v@, start as int) == Some(o as int),
            None => sep_line_from(v@, start as int) is None,
        },
{
    let sep_v = chars_of("---\n");
    proof {
        reveal_strlit("---\n");
        assert(sep_v@ == sep());
    }
    let mut i = start;
    while i < v.len()
        invariant
            start <= i <= v@.len(),
            sep_v@ == sep(),
            sep_line_from(v@, start as int) == sep_line_from(v@, i as int),
        decreases v@.len() - i,
    {
        if occurs_at_exec(v, i, &sep_v) {
            return Some(i);
        }
        proof {
            lemma_line_end_bounds(v@, i as int);
        }
        i = line_end_exec(v, i);
    }
    None
}

// ---------------------------------------------------------------------------
// Frontmatter
// ---------------------------------------------------------------------------

/// What the YAML parser reports for the top-level `key` of a document:
/// `Some(n)` when the document is a mapping whose `key` value is an unsigned
/// integer `n`, `None` otherwise (not a mapping, malformed, key absent or not
/// an unsigned integer).
pub uninterp spec fn yaml_u64_of(raw: Seq<char>, key: Seq<char>) -> Option<u64>;

/// The version that the YAML parser reports for a frontmatter body.
pub open spec fn yaml_version_of(raw: Seq<char>) -> Option<u64> {
    yaml_u64_of(raw, "version"@)
}

/// Calls `serde_yaml::from_str::<serde_yaml::Value>` on `raw` and reads the
/// mapping's `key` with `Mapping::get` and `Value::as_u64`. The contract only
/// names the result: it is a function of `raw` and `key` alone.
#[verifier::external_body]
fn yaml_u64(raw: &str, key: &str) -> (r: Option<u64>)
    ensures
        r == yaml_u64_of(raw@, key@),
{
    match serde_yaml::from_str::<serde_yaml::Value>(raw) {
        Ok(serde_yaml::Value::Mapping(m)) => m.get(key).and_then(serde_yaml::Value::as_u64),
        _ => None,
    }
}

/// The schema version a frontmatter body declares, given what the YAML parser
/// reports for it: a blank body, or one without an unsigned `version`, is
/// version 1.
pub open spec fn spec_version_from(raw: Seq<char>, yaml: Option<u64>) -> u64 {
    if is_blank(raw) {
        1
    } else {
        match yaml {
            Some(v) => v,
            None => 1,
        }
    }
}

/// Decides the schema version of a frontmatter body from the YAML parser's
/// report on it.
pub fn version_from(raw: &str, yaml: Option<u64>) -> (r: u64)
    ensures
        r == spec_version_from(raw@, yaml),
{
    let v = chars_of(raw);
    let mut i: usize = 0;
    while i < v.len()
        invariant
            i <= v@.len(),
            v@ == raw@,
            forall|k: int| 0 <= k < i ==> is_ws(#[trigger] v@[k]),
        decreases v@.len() - i,
    {
        if !is_whitespace(v[i]) {
            return match yaml {
                Some(n) => n,
                None => 1,
            };
        }
        i += 1;
    }
    1
}

/// A `backlog.md` frontmatter block.
pub struct Frontmatter {
    present: bool,
    raw_body: String,
    version: u64,
}

pub struct FrontmatterView {
    pub present: bool,
    pub raw_body: Seq<char>,
    pub version: u64,
}

impl View for Frontmatter {
    type V = FrontmatterView;

    closed spec fn view(&self) -> FrontmatterView {
        FrontmatterView { present: self.present, raw_body: self.raw_body@, version: self.version }
    }
}

/// Where the raw frontmatter body of `s` ends, when `s` opens with `---\n` and a
/// later line is exactly `---\n`.
pub open spec fn fm_end(s: Seq<char>) -> Option<int> {
    if occurs_at(s, 0, sep()) {
        sep_line_from(s, 4)
    } else {
        None
    }
}

/// The raw body of the frontmatter of `s` (empty when there is none).
pub open spec fn spec_fm_raw(s: Seq<char>) -> Seq<char> {
    match fm_end(s) {
        Some(o) => s.subrange(4, o),
        None => Seq::empty(),
    }
}

/// The text of `s` after its frontmatter block (all of `s` when there is none).
pub open spec fn spec_fm_body(s: Seq<char>) -> Seq<char> {
    match fm_end(s) {
        Some(o) => s.subrange(o + 4, s.len() as int),
        None => s,
    }
}

/// The frontmatter block as it is written back: `---\n<raw>---\n`, or nothing.
pub open spec fn spec_fm_serialize(f: FrontmatterView) -> Seq<char> {
    if f.present {
        sep() + f.raw_body + sep()
    } else {
        Seq::empty()
    }
}

impl Frontmatter {
    /// Whether the file opened with a closed frontmatter block.
    pub fn present(&self) -> (r: bool)
        ensures
            r == self@.present,
    {
        self.present
    }

    /// The schema version the block declares (1 when absent or undeclared).
    pub fn version(&self) -> (r: u64)
        ensures
            r == self@.version,
    {
        self.version
    }

    /// The block as it is written back, byte-for-byte as read.
    pub fn serialize(&self) -> (r: String)
        ensures
            r@ == spec_fm_serialize(self@),
    {
        let mut out = String::new();
        if self.present {
            push_str(&mut out, "---\n");
            push_str(&mut out, self.raw_body.as_str());
            push_str(&mut out, "---\n");
            proof {
                reveal_strlit("---\n");
            }
        }
        out
    }
}

/// The highest backlog schema major version this library understands.
pub const SUPPORTED_MAJOR: u64 = 1;

/// A backlog file declares a schema newer than [`SUPPORTED_MAJOR`].
#[derive(Debug, Clone, Copy, PartialEq, Eq, Structural)]
pub struct UnsupportedVersion {
    pub found: u64,
    pub supported: u64,
}

impl UnsupportedVersion {
    /// The user-facing message, naming both versions.
    pub open spec fn message_text(&self) -> Seq<char> {
        "backlog file is version "@ + decimal(self.found as nat)
            + ", this CLI supports up to version "@ + decimal(self.supported as nat)
            + "; please upgrade vat."@
    }

    /// The user-facing message, naming both versions.
    pub fn message(&self) -> (r: String)
        ensures
            r@ == self.message_text(),
    {
        let mut out = String::new();
        push_str(&mut out, "backlog file is version ");
        push_decimal(&mut out, self.found);
        push_str(&mut out, ", this CLI supports up to version ");
        push_decimal(&mut out, self.supported);
        push_str(&mut out, "; please upgrade vat.");
        out
    }
}

/// Refuses a frontmatter whose version is newer than [`SUPPORTED_MAJOR`].
pub fn check_version(fm: &Frontmatter) -> (r: Result<(), UnsupportedVersion>)
    ensures
        r is Err <==> fm@.version > SUPPORTED_MAJOR,
        r matches Err(e) ==> e == (UnsupportedVersion { found: fm@.version, supported: SUPPORTED_MAJOR }),
{
    let found = fm.version();
    if found > SUPPORTED_MAJOR {
        return Err(UnsupportedVersion { found, supported: SUPPORTED_MAJOR });
    }
    Ok(())
}

/// A frontmatter block and the text that follows it.
pub struct FrontmatterParse<'a> {
    pub frontmatter: Frontmatter,
    pub body: &'a str,
}

/// Splits the optional frontmatter off `input`. The block opens with a first
/// line of exactly `---\n` and closes at the next line of exactly `---\n`; an
/// unclosed block is no frontmatter. The version comes from the YAML parser.
pub fn parse_frontmatter<'a>(input: &'a str) -> (r: FrontmatterParse<'a>)
    ensures
        r.frontmatter@.present == (fm_end(input@) is Some),
        r.frontmatter@.raw_body == spec_fm_raw(input@),
        r.body@ == spec_fm_body(input@),
        r.frontmatter@.version == spec_version_from(
            spec_fm_raw(input@),
            yaml_version_of(spec_fm_raw(input@)),
        ),
{
    let v = chars_of(input);
    let sep_v = chars_of("---\n");
    proof {
        reveal_strlit("---\n");
        assert(sep_v@ == sep());
    }
    if occurs_at_exec(&v, 0, &sep_v) {
        if let Some(o) = find_sep_line(&v, 4) {
            proof {
                lemma_sep_line_from(v@, 4);
            }
            let raw = slice(input, 4, o);
            let yaml = yaml_u64(raw, "version");
            let version = version_from(raw, yaml);
            let body = slice(input, o + 4, v.len());
            return FrontmatterParse {
                frontmatter: Frontmatter { present: true, raw_body: to_owned_string(raw), version },
                body,
            };
        }
    }
    let empty = String::new();
    let version = version_from(empty.as_str(), None);
    FrontmatterParse {
        frontmatter: Frontmatter { present: false, raw_body: empty, version },
        body: input,
    }
}

/// A frontmatter block written back in front of the body it was split from
/// reproduces the input exactly.
pub proof fn lemma_frontmatter_round_trip(s: Seq<char>)
    ensures
        spec_fm_serialize(
            FrontmatterView {
                present: fm_end(s) is Some,
                raw_body: spec_fm_raw(s),
                version: 1,
            },
        ) + spec_fm_body(s) == s,
{
    if let Some(o) = fm_end(s) {
        lemma_sep_line_from(s, 4);
        assert(s.subrange(0, 4) == sep());
        assert(s.subrange(o, o + 4) == sep());
        assert(sep() + s.subrange(4, o) + sep() + s.subrange(o + 4, s.len() as int) =~= s);
    } else {
        assert(Seq::<char>::empty() + s =~= s);
    }
}

// ---------------------------------------------------------------------------
// Parsed and freeform regions
// ---------------------------------------------------------------------------

/// The parsed region of a frontmatter-stripped body: everything before its
/// first `---\n` line (all of it when there is none).
pub open spec fn spec_split_parsed(body: Seq<char>) -> Seq<char> {
    match sep_line_from(body, 0) {
        Some(o) => body.subrange(0, o),
        None => body,
    }
}

/// The freeform region: everything after the first `---\n` line, if any.
pub open spec fn spec_split_freeform(body: Seq<char>) -> Option<Seq<char>> {
    match sep_line_from(body, 0) {
        Some(o) => Some(body.subrange(o + 4, body.len() as int)),
        None => None,
    }
}

/// The view of an optional slice.
pub open spec fn opt_view(o: Option<&str>) -> Option<Seq<char>> {
    match o {
        Some(s) => Some(s@),
        None => None,
    }
}

/// Splits a frontmatter-stripped body into `(parsed, freeform)` at its first
/// line that is exactly `---\n`; that line belongs to neither region.
pub fn split_body<'a>(body: &'a str) -> (r: (&'a str, Option<&'a str>))
    ensures
        r.0@ == spec_split_parsed(body@),
        opt_view(r.1) == spec_split_freeform(body@),
{
    let v = chars_of(body);
    match find_sep_line(&v, 0) {
        Some(o) => {
            proof {
                lemma_sep_line_from(v@, 0);
            }
            (slice(body, 0, o), Some(slice(body, o + 4, v.len())))
        },
        None => (body, None),
    }
}

/// A parsed view of `backlog/backlog.md`, borrowing from the input text.
pub struct BacklogFile<'a> {
    frontmatter: Frontmatter,
    parsed: &'a str,
    freeform: Option<&'a str>,
}

pub struct BacklogFileView {
    pub frontmatter: FrontmatterView,
    pub parsed: Seq<char>,
    pub freeform: Option<Seq<char>>,
}

impl<'a> View for BacklogFile<'a> {
    type V = BacklogFileView;

    closed spec fn view(&self) -> BacklogFileView {
        BacklogFileView {
            frontmatter: self.frontmatter@,
            parsed: self.parsed@,
            freeform: opt_view(self.freeform),
        }
    }
}

/// The file text that a backlog view writes with `new_parsed` as its parsed
/// region: frontmatter, the parsed region, then the separator and the freeform
/// region when there was one.
pub open spec fn spec_file_serialize(f: BacklogFileView, new_parsed: Seq<char>) -> Seq<char> {
    match f.freeform {
        Some(ff) => spec_fm_serialize(f.frontmatter) + new_parsed + sep() + ff,
        None => spec_fm_serialize(f.frontmatter) + new_parsed,
    }
}

/// The backlog view that `BacklogFile::parse` produces for `s`.
pub open spec fn spec_backlog_parse(s: Seq<char>) -> BacklogFileView {
    BacklogFileView {
        frontmatter: FrontmatterView {
            present: fm_end(s) is Some,
            raw_body: spec_fm_raw(s),
            version: spec_version_from(spec_fm_raw(s), yaml_version_of(spec_fm_raw(s))),
        },
        parsed: spec_split_parsed(spec_fm_body(s)),
        freeform: spec_split_freeform(spec_fm_body(s)),
    }
}

/// A parsed region that can stand before the separator line: empty or ending
/// in a newline.
pub open spec fn ends_line(s: Seq<char>) -> bool {
    s.len() == 0 || s.last() == '\n'
}

impl<'a> BacklogFile<'a> {
    /// Splits `input` into frontmatter, parsed region and freeform region.
    pub fn parse(input: &'a str) -> (r: Self)
        ensures
            r@ == spec_backlog_parse(input@),
    {
        let fm = parse_frontmatter(input);
        let (parsed, freeform) = split_body(fm.body);
        BacklogFile { frontmatter: fm.frontmatter, parsed, freeform }
    }

    pub fn frontmatter(&self) -> (r: &Frontmatter)
        ensures
            r@ == self@.frontmatter,
    {
        &self.frontmatter
    }

    pub fn parsed(&self) -> (r: &'a str)
        ensures
            r@ == self@.parsed,
    {
        self.parsed
    }

    pub fn freeform(&self) -> (r: Option<&'a str>)
        ensures
            opt_view(r) == self@.freeform,
    {
        self.freeform
    }

    /// Composes the file from `new_parsed` plus the preserved frontmatter and
    /// freeform region. With a freeform region the separator `---\n` is
    /// re-emitted right after `new_parsed`, which should then be empty or end
    /// with a newline for the separator to stand on a line of its own.
    pub fn serialize(&self, new_parsed: &str) -> (r: String)
        ensures
            r@ == spec_file_serialize(self@, new_parsed@),
    {
        let mut out = self.frontmatter.serialize();
        push_str(&mut out, new_parsed);
        if let Some(ff) = self.freeform {
            push_str(&mut out, "---\n");
            push_str(&mut out, ff);
            proof {
                reveal_strlit("---\n");
            }
        }
        out
    }
}

/// Parsing a backlog file and writing it back with its own parsed region
/// reproduces the file byte for byte, whatever its shape.
pub proof fn lemma_backlog_round_trip(s: Seq<char>)
    ensures
        spec_backlog_parse(s).freeform is Some ==> ends_line(spec_backlog_parse(s).parsed),
        spec_file_serialize(spec_backlog_parse(s), spec_backlog_parse(s).parsed) == s,
{
    let f = spec_backlog_parse(s);
    let body = spec_fm_body(s);
    lemma_frontmatter_round_trip(s);
    assert(spec_fm_serialize(f.frontmatter) == spec_fm_serialize(
        FrontmatterView { present: fm_end(s) is Some, raw_body: spec_fm_raw(s), version: 1 },
    ));
    lemma_sep_line_from(body, 0);
    lemma_sep_line_starts_line(body, 0);
    if let Some(o) = sep_line_from(body, 0) {
        assert(body.subrange(o, o + 4) == sep());
        assert(body.subrange(0, o) + sep() + body.subrange(o + 4, body.len() as int) =~= body);
        assert(spec_fm_serialize(f.frontmatter) + body.subrange(0, o) + sep() + body.subrange(
            o + 4,
            body.len() as int,
        ) =~= spec_fm_serialize(f.frontmatter) + body);
        if o > 0 {
            assert(body.subrange(0, o).last() == body[o - 1]);
        }
    } else {
        // With no separator the whole body is the parsed region; a body that
        // does not end in a newline has no freeform region to fuse into.
        assert(f.freeform is None);
    }
}

// ---------------------------------------------------------------------------
// Parsed region grammar: preamble, then task entries
// ---------------------------------------------------------------------------

/// A bullet line starts at column 0 with a hyphen and a single space.
pub open spec fn is_bullet_at(s: Seq<char>, i: int) -> bool {
    0 <= i && i + 1 < s.len() && s[i] == '-' && s[i + 1] == ' '
}

/// The first line start at or after line start `i` that opens a bullet line,
/// or the length of `s` when no bullet line follows.
pub open spec fn next_bullet(s: Seq<char>, i: int) -> int
    decreases s.len() - i,
{
    if i < 0 || i >= s.len() {
        s.len() as int
    } else if is_bullet_at(s, i) {
        i
    } else {
        proof {
            lemma_line_end_bounds(s, i);
        }
        next_bullet(s, line_end(s, i))
    }
}

pub proof fn lemma_next_bullet(s: Seq<char>, i: int)
    requires
        0 <= i <= s.len(),
    ensures
        i <= next_bullet(s, i) <= s.len(),
        next_bullet(s, i) < s.len() ==> is_bullet_at(s, next_bullet(s, i)),
    decreases s.len() - i,
{
    if i < s.len() && !is_bullet_at(s, i) {
        lemma_line_end_bounds(s, i);
        lemma_next_bullet(s, line_end(s, i));
    }
}

/// The task entries of `s` from position `b` on: each is a bullet line and the
/// note lines up to the next bullet line or the end.
pub open spec fn entries_from(s: Seq<char>, b: int) -> Seq<(Seq<char>, Seq<char>)>
    decreases s.len() - b,
{
    if b < 0 || b >= s.len() {
        Seq::empty()
    } else {
        proof {
            lemma_line_end_bounds(s, b);
            lemma_next_bullet(s, line_end(s, b));
        }
        let e = line_end(s, b);
        let n = next_bullet(s, e);
        seq![(s.subrange(b, e), s.subrange(e, n))] + entries_from(s, n)
    }
}

/// Concatenation of task entries: each bullet line followed by its notes.
pub open spec fn concat_entries(es: Seq<(Seq<char>, Seq<char>)>) -> Seq<char>
    decreases es.len(),
{
    if es.len() == 0 {
        Seq::empty()
    } else {
        concat_entries(es.drop_last()) + es.last().0 + es.last().1
    }
}

pub proof fn lemma_concat_entries_cons(x: (Seq<char>, Seq<char>), es: Seq<(Seq<char>, Seq<char>)>)
    ensures
        concat_entries(seq![x] + es) == x.0 + x.1 + concat_entries(es),
    decreases es.len(),
{
    if es.len() == 0 {
        assert(seq![x] + es =~= seq![x]);
        assert(seq![x].drop_last() =~= Seq::<(Seq<char>, Seq<char>)>::empty());
        assert(concat_entries(Seq::<(Seq<char>, Seq<char>)>::empty()) == Seq::<char>::empty());
        assert(concat_entries(seq![x]) == concat_entries(seq![x].drop_last()) + x.0 + x.1);
        assert(x.0 + x.1 + Seq::<char>::empty() =~= Seq::<char>::empty() + x.0 + x.1);
    } else {
        lemma_concat_entries_cons(x, es.drop_last());
        assert((seq![x] + es).drop_last() =~= seq![x] + es.drop_last());
        assert((seq![x] + es).last() == es.last());
        assert(x.0 + x.1 + concat_entries(es.drop_last()) + es.last().0 + es.last().1 =~= x.0 + x.1
            + (concat_entries(es.drop_last()) + es.last().0 + es.last().1));
    }
}

/// The entries from `b` concatenate back to `s[b..]`.
pub proof fn lemma_entries_from_concat(s: Seq<char>, b: int)
    requires
        0 <= b <= s.len(),
    ensures
        concat_entries(entries_from(s, b)) == s.subrange(b, s.len() as int),
    decreases s.len() - b,
{
    if b < s.len() {
        lemma_line_end_bounds(s, b);
        let e = line_end(s, b);
        lemma_next_bullet(s, e);
        let n = next_bullet(s, e);
        lemma_entries_from_concat(s, n);
        lemma_concat_entries_cons((s.subrange(b, e), s.subrange(e, n)), entries_from(s, n));
        assert(s.subrange(b, e) + s.subrange(e, n) + s.subrange(n, s.len() as int) =~= s.subrange(
            b,
            s.len() as int,
        ));
    } else {
        assert(s.subrange(b, s.len() as int) =~= Seq::<char>::empty());
    }
}

/// The structured view of a parsed region.
pub struct RegionView {
    pub preamble: Seq<char>,
    pub entries: Seq<(Seq<char>, Seq<char>)>,
}

/// How `ParsedRegion::parse` reads a region: the preamble runs up to the first
/// bullet line, and every bullet line opens a task entry.
pub open spec fn spec_region(s: Seq<char>) -> RegionView {
    let p = next_bullet(s, 0);
    RegionView { preamble: s.subrange(0, p), entries: entries_from(s, p) }
}

/// The text a region view writes: the preamble, then every entry's bullet
/// line and notes, in order.
pub open spec fn spec_region_serialize(r: RegionView) -> Seq<char> {
    r.preamble + concat_entries(r.entries)
}

/// The entries with the bullet line of entry `idx` replaced by `line`.
pub open spec fn replace_bullet(
    es: Seq<(Seq<char>, Seq<char>)>,
    idx: int,
    line: Seq<char>,
) -> Seq<(Seq<char>, Seq<char>)> {
    if 0 <= idx < es.len() {
        es.update(idx, (line, es[idx].1))
    } else {
        es
    }
}

/// A single task entry: a bullet line (with its newline, when it has one)
/// and the verbatim note lines that follow it.
pub struct TaskEntry<'a> {
    pub bullet_line: &'a str,
    pub notes: &'a str,
}

/// A parsed region: the preamble before the first bullet, then the task
/// entries in document order.
pub struct ParsedRegion<'a> {
    pub preamble: &'a str,
    pub entries: Vec<TaskEntry<'a>>,
}

pub open spec fn entry_view(e: TaskEntry) -> (Seq<char>, Seq<char>) {
    (e.bullet_line@, e.notes@)
}

pub open spec fn entries_view(es: Seq<TaskEntry>) -> Seq<(Seq<char>, Seq<char>)> {
    es.map_values(|e: TaskEntry| entry_view(e))
}

impl<'a> View for ParsedRegion<'a> {
    type V = RegionView;

    open spec fn view(&self) -> RegionView {
        RegionView { preamble: self.preamble@, entries: entries_view(self.entries@) }
    }
}

/// Exec counterpart of [`next_bullet`].
fn next_bullet_exec(v: &Vec<char>, i: usize) -> (r: usize)
    requires
        i <= v@.len(),
    ensures
        r == next_bullet(v@, i as int),
{
    let mut k = i;
    while k < v.len()
        invariant
            i <= k <= v@.len(),
            next_bullet(v@, i as int) == next_bullet(v@, k as int),
        decreases v@.len() - k,
    {
        if k + 1 < v.len() && v[k] == '-' && v[k + 1] == ' ' {
            return k;
        }
        proof {
            lemma_line_end_bounds(v@, k as int);
        }
        k = line_end_exec(v, k);
    }
    k
}

/// A line is a bullet line when it begins with `- `.
pub fn is_bullet_line(line: &str) -> (r: bool)
    ensures
        r == is_bullet_at(line@, 0),
{
    let v = chars_of(line);
    v.len() >= 2 && v[0] == '-' && v[1] == ' '
}

/// Splits `rest` into task entries; lines before its first bullet line
/// belong to no entry and are left out.
pub fn parse_task_entries<'a>(rest: &'a str) -> (r: Vec<TaskEntry<'a>>)
    ensures
        entries_view(r@) == entries_from(rest@, next_bullet(rest@, 0)),
{
    let v = chars_of(rest);
    proof {
        lemma_next_bullet(v@, 0);
    }
    let p = next_bullet_exec(&v, 0);
    parse_entries_from(rest, &v, p)
}

fn parse_entries_from<'a>(s: &'a str, v: &Vec<char>, start: usize) -> (r: Vec<TaskEntry<'a>>)
    requires
        v@ == s@,
        start <= v@.len(),
    ensures
        entries_view(r@) == entries_from(s@, start as int),
{
    let mut entries: Vec<TaskEntry<'a>> = Vec::new();
    let mut b = start;
    while b < v.len()
        invariant
            v@ == s@,
            start <= b <= v@.len(),
            entries_view(entries@) + entries_from(s@, b as int) == entries_from(s@, start as int),
        decreases v@.len() - b,
    {
        proof {
            lemma_line_end_bounds(v@, b as int);
        }
        let e = line_end_exec(v, b);
        proof {
            lemma_next_bullet(v@, e as int);
        }
        let n = next_bullet_exec(v, e);
        let ghost before = entries_view(entries@);
        entries.push(TaskEntry { bullet_line: slice(s, b, e), notes: slice(s, e, n) });
        assert(entries_view(entries@) =~= before + seq![(s@.subrange(b as int, e as int), s@.subrange(e as int, n as int))]);
        assert(entries_from(s@, b as int) == seq![(s@.subrange(b as int, e as int), s@.subrange(e as int, n as int))] + entries_from(s@, n as int));
        assert(before + entries_from(s@, b as int) =~= entries_view(entries@) + entries_from(s@, n as int));
        b = n;
    }
    assert(entries_view(entries@) + entries_from(s@, b as int) =~= entries_view(entries@));
    entries
}

impl<'a> ParsedRegion<'a> {
    /// Splits a parsed region into its preamble and task entries.
    pub fn parse(region: &'a str) -> (r: Self)
        ensures
            r@ == spec_region(region@),
    {
        let v = chars_of(region);
        proof {
            lemma_next_bullet(v@, 0);
        }
        let p = next_bullet_exec(&v, 0);
        let preamble = slice(region, 0, p);
        let entries = parse_entries_from(region, &v, p);
        ParsedRegion { preamble, entries }
    }

    /// The region text: the preamble, then every entry verbatim.
    pub fn serialize(&self) -> (r: String)
        ensures
            r@ == spec_region_serialize(self@),
    {
        self.serialize_with_replaced_bullet(self.entries.len(), "")
    }

    /// The region text with the bullet line of entry `entry_idx` replaced by
    /// `new_bullet_line`; notes and the preamble are kept verbatim.
    pub fn serialize_with_replaced_bullet(&self, entry_idx: usize, new_bullet_line: &str) -> (r:
        String)
        ensures
            r@ == spec_region_serialize(
                RegionView {
                    preamble: self@.preamble,
                    entries: replace_bullet(self@.entries, entry_idx as int, new_bullet_line@),
                },
            ),
    {
        let ghost es = replace_bullet(self@.entries, entry_idx as int, new_bullet_line@);
        let mut out = String::new();
        push_str(&mut out, self.preamble);
        let mut i: usize = 0;
        while i < self.entries.len()
            invariant
                i <= self.entries@.len(),
                es == replace_bullet(self@.entries, entry_idx as int, new_bullet_line@),
                es.len() == self.entries@.len(),
                out@ == self.preamble@ + concat_entries(es.take(i as int)),
            decreases self.entries@.len() - i,
        {
            let entry = &self.entries[i];
            if i == entry_idx {
                push_str(&mut out, new_bullet_line);
            } else {
                push_str(&mut out, entry.bullet_line);
            }
            push_str(&mut out, entry.notes);
            assert(es.take(i + 1).drop_last() =~= es.take(i as int));
            assert(es[i as int] == (
                if i == entry_idx { new_bullet_line@ } else { entry.bullet_line@ },
                entry.notes@,
            ));
            i += 1;
        }
        assert(es.take(i as int) =~= es);
        out
    }
}

/// Parsing a region and writing it back reproduces the region byte for byte.
pub proof fn lemma_region_round_trip(s: Seq<char>)
    ensures
        spec_region_serialize(spec_region(s)) == s,
{
    lemma_next_bullet(s, 0);
    let p = next_bullet(s, 0);
    lemma_entries_from_concat(s, p);
    assert(s.subrange(0, p) + s.subrange(p, s.len() as int) =~= s);
}

// ---------------------------------------------------------------------------
// Line ends of a region's pieces
// ---------------------------------------------------------------------------

/// Scanning for a bullet from a line start stops at a line start.
pub proof fn lemma_next_bullet_line_start(s: Seq<char>, i: int)
    requires
        0 <= i <= s.len(),
        i == 0 || s[i - 1] == '\n',
    ensures
        0 < next_bullet(s, i) < s.len() ==> s[next_bullet(s, i) - 1] == '\n',
    decreases s.len() - i,
{
    if i < s.len() && !is_bullet_at(s, i) {
        lemma_line_end_bounds(s, i);
        let j = line_end(s, i);
        if j < s.len() {
            lemma_next_bullet_line_start(s, j);
        }
    }
}

/// Every piece of text that a region's entries cover ends with a newline, and
/// every bullet line is non-empty, when the region itself ends with one.
pub proof fn lemma_entries_lines(s: Seq<char>, b: int)
    requires
        0 <= b <= s.len(),
        b == 0 || s[b - 1] == '\n',
        ends_line(s),
    ensures
        forall|k: int|
            0 <= k < entries_from(s, b).len() ==> #[trigger] entries_from(s, b)[k].0.len() > 0
                && ends_line(entries_from(s, b)[k].0 + entries_from(s, b)[k].1),
    decreases s.len() - b,
{
    if b < s.len() {
        lemma_line_end_bounds(s, b);
        let e = line_end(s, b);
        lemma_next_bullet(s, e);
        let n = next_bullet(s, e);
        if e < s.len() {
            lemma_next_bullet_line_start(s, e);
        }
        let text = s.subrange(b, e) + s.subrange(e, n);
        assert(text =~= s.subrange(b, n));
        if n < s.len() {
            assert(s[n - 1] == '\n');
        }
        assert(text.last() == s[n - 1]);
        lemma_entries_lines(s, n);
        let es = entries_from(s, b);
        assert(es == seq![(s.subrange(b, e), s.subrange(e, n))] + entries_from(s, n));
        assert forall|k: int| 0 <= k < es.len() implies #[trigger] es[k].0.len() > 0 && ends_line(
            es[k].0 + es[k].1,
        ) by {
            if k > 0 {
                assert(es[k] == entries_from(s, n)[k - 1]);
            }
        }
    }
}

/// A region that ends with a newline: its preamble does too when entries
/// follow it, and so does every entry.
pub proof fn lemma_region_lines(s: Seq<char>)
    requires
        ends_line(s),
    ensures
        spec_region(s).entries.len() > 0 ==> ends_line(spec_region(s).preamble),
        forall|k: int|
            0 <= k < spec_region(s).entries.len() ==> #[trigger] spec_region(s).entries[k].0.len() > 0
                && ends_line(spec_region(s).entries[k].0 + spec_region(s).entries[k].1),
{
    lemma_next_bullet(s, 0);
    let p = next_bullet(s, 0);
    lemma_next_bullet_line_start(s, 0);
    lemma_entries_lines(s, p);
    if p < s.len() && p > 0 {
        assert(s.subrange(0, p).last() == s[p - 1]);
    }
}

/// Entries that each end with a newline concatenate to text that does.
pub proof fn lemma_concat_ends_line(es: Seq<(Seq<char>, Seq<char>)>)
    requires
        forall|k: int| 0 <= k < es.len() ==> ends_line(#[trigger] es[k].0 + es[k].1),
    ensures
        ends_line(concat_entries(es)),
    decreases es.len(),
{
    if es.len() > 0 {
        lemma_concat_ends_line(es.drop_last());
        let last = es.last();
        assert(ends_line(es[es.len() - 1].0 + es[es.len() - 1].1));
        let c = concat_entries(es.drop_last());
        assert(concat_entries(es) == c + last.0 + last.1);
        assert(c + last.0 + last.1 =~= c + (last.0 + last.1));
        if (last.0 + last.1).len() > 0 {
            assert((c + (last.0 + last.1)).last() == (last.0 + last.1).last());
        } else {
            assert(c + (last.0 + last.1) =~= c);
        }
    }
}

/// A region written back with one bullet line replaced by a line that ends
/// with a newline still ends with a newline.
pub proof fn lemma_replace_ends_line(s: Seq<char>, idx: int, line: Seq<char>)
    requires
        ends_line(s),
        line.len() > 0,
        ends_line(line),
    ensures
        ends_line(
            spec_region_serialize(
                RegionView {
                    preamble: spec_region(s).preamble,
                    entries: replace_bullet(spec_region(s).entries, idx, line),
                },
            ),
        ),
{
    let r = spec_region(s);
    let es = r.entries;
    lemma_region_lines(s);
    lemma_region_round_trip(s);
    let es2 = replace_bullet(es, idx, line);
    if es.len() == 0 {
        assert(es2 =~= es);
        assert(spec_region_serialize(RegionView { preamble: r.preamble, entries: es2 }) == s);
    } else {
        assert forall|k: int| 0 <= k < es2.len() implies ends_line(#[trigger] es2[k].0 + es2[k].1) by {
            if k == idx {
                let t = line + es[k].1;
                if es[k].1.len() > 0 {
                    assert(t.last() == es[k].1.last());
                    assert((es[k].0 + es[k].1).last() == es[k].1.last());
                } else {
                    assert(t =~= line);
                }
            }
        }
        lemma_concat_ends_line(es2);
        let c = concat_entries(es2);
        if c.len() > 0 {
            assert((r.preamble + c).last() == c.last());
        } else {
            assert(r.preamble + c =~= r.preamble);
        }
    }
}

} // verus!
