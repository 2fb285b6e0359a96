//! Character-level text model shared by every parser and serializer.
//!
//! Text is modelled as `Seq<char>`; executable code scans a `Vec<char>` copy of
//! its input and builds its output with verified appends.
use vstd::prelude::*;
use vstd::string::*;

verus! {

// ---------------------------------------------------------------------------
// Specification vocabulary
// ---------------------------------------------------------------------------

/// `p` is a prefix of `s`.
pub open spec fn starts_with(s: Seq<char>, p: Seq<char>) -> bool {
    p.len() <= s.len() && s.subrange(0, p.len() as int) == p
}

/// `p` is a suffix of `s`.
pub open spec fn ends_with(s: Seq<char>, p: Seq<char>) -> bool {
    p.len() <= s.len() && s.subrange(s.len() - p.len(), s.len() as int) == p
}

/// `p` occurs in `s` at position `i`.
pub open spec fn occurs_at(s: Seq<char>, i: int, p: Seq<char>) -> bool {
    0 <= i && i + p.len() <= s.len() && s.subrange(i, i + p.len()) == p
}

/// `p` occurs somewhere in `s`.
pub open spec fn contains_seq(s: Seq<char>, p: Seq<char>) -> bool {
    exists|i: int| occurs_at(s, i, p)
}

/// The index just past the end of the line that contains position `i`: one past
/// the next `'\n'` at or after `i`, or the length of `s` when there is none.
pub open spec fn line_end(s: Seq<char>, i: int) -> int
    decreases s.len() - i,
{
    if i >= s.len() {
        s.len() as int
    } else if s[i] == '\n' {
        i + 1
    } else {
        line_end(s, i + 1)
    }
}

/// The first index at or after `i` holding `c`, if any.
pub open spec fn find_from(s: Seq<char>, i: int, c: char) -> Option<int>
    decreases s.len() - i,
{
    if i < 0 || i >= s.len() {
        None
    } else if s[i] == c {
        Some(i)
    } else {
        find_from(s, i + 1, c)
    }
}

/// Unicode `White_Space`, the set that `char::is_whitespace` and `str::trim` use.
pub open spec fn is_ws(c: char) -> bool {
    ||| ('\t' <= c && c <= '\r')
    ||| c == ' '
    ||| c == '\u{85}'
    ||| c == '\u{a0}'
    ||| c == '\u{1680}'
    ||| ('\u{2000}' <= c && c <= '\u{200a}')
    ||| c == '\u{2028}'
    ||| c == '\u{2029}'
    ||| c == '\u{202f}'
    ||| c == '\u{205f}'
    ||| c == '\u{3000}'
}

/// ASCII whitespace as `u8::is_ascii_whitespace` defines it.
pub open spec fn is_ascii_ws(c: char) -> bool {
    c == ' ' || c == '\t' || c == '\n' || c == '\x0C' || c == '\r'
}

/// Every character of `s` is whitespace (`s.trim().is_empty()`).
pub open spec fn is_blank(s: Seq<char>) -> bool {
    forall|i: int| 0 <= i < s.len() ==> is_ws(#[trigger] s[i])
}

/// `s` without its trailing whitespace (`str::trim_end`).
pub open spec fn trim_end(s: Seq<char>) -> Seq<char>
    decreases s.len(),
{
    if s.len() > 0 && is_ws(s.last()) {
        trim_end(s.drop_last())
    } else {
        s
    }
}

/// `s` without its leading whitespace (`str::trim_start`).
pub open spec fn trim_start(s: Seq<char>) -> Seq<char>
    decreases s.len(),
{
    if s.len() > 0 && is_ws(s[0]) {
        trim_start(s.drop_first())
    } else {
        s
    }
}

/// `s` without leading or trailing ASCII whitespace (`str::trim_ascii`).
pub open spec fn trim_ascii(s: Seq<char>) -> Seq<char>
    decreases s.len(),
{
    if s.len() > 0 && is_ascii_ws(s[0]) {
        trim_ascii(s.drop_first())
    } else if s.len() > 0 && is_ascii_ws(s.last()) {
        trim_ascii(s.drop_last())
    } else {
        s
    }
}

/// `s` without any leading run of `c` (`str::trim_start_matches(c)`).
pub open spec fn skip_run(s: Seq<char>, c: char) -> Seq<char>
    decreases s.len(),
{
    if s.len() > 0 && s[0] == c {
        skip_run(s.drop_first(), c)
    } else {
        s
    }
}

/// `s` without any trailing run of `c` (`str::trim_end_matches(c)`).
pub open spec fn strip_run_end(s: Seq<char>, c: char) -> Seq<char>
    decreases s.len(),
{
    if s.len() > 0 && s.last() == c {
        strip_run_end(s.drop_last(), c)
    } else {
        s
    }
}

pub open spec fn is_ascii_upper(c: char) -> bool {
    'A' <= c && c <= 'Z'
}

pub open spec fn is_ascii_digit(c: char) -> bool {
    '0' <= c && c <= '9'
}

pub open spec fn is_ascii_lower(c: char) -> bool {
    'a' <= c && c <= 'z'
}

pub open spec fn is_ascii_alnum(c: char) -> bool {
    is_ascii_upper(c) || is_ascii_lower(c) || is_ascii_digit(c)
}

/// ASCII lowercase of one character (`char::to_ascii_lowercase`).
pub open spec fn lower_char(c: char) -> char {
    if is_ascii_upper(c) {
        ((c as u32) + 32) as char
    } else {
        c
    }
}

/// ASCII lowercase of a text.
pub open spec fn lower(s: Seq<char>) -> Seq<char> {
    s.map_values(|c: char| lower_char(c))
}

/// ASCII lowercasing a lowercased character changes nothing.
pub proof fn lemma_lower_char_idempotent(c: char)
    ensures
        lower_char(lower_char(c)) == lower_char(c),
{
    if is_ascii_upper(c) {
        assert(!is_ascii_upper(((c as u32) + 32) as char));
    }
}

/// ASCII lowercasing is idempotent.
pub proof fn lemma_lower_idempotent(s: Seq<char>)
    ensures
        lower(lower(s)) == lower(s),
{
    assert forall|i: int| 0 <= i < s.len() implies lower(lower(s))[i] == lower(s)[i] by {
        lemma_lower_char_idempotent(s[i]);
    }
    assert(lower(lower(s)) =~= lower(s));
}

/// The decimal digit for `d < 10`.
pub open spec fn digit_char(d: nat) -> char {
    (('0' as u32) + d) as char
}

/// The decimal representation of `n`, without leading zeros.
pub open spec fn decimal(n: nat) -> Seq<char>
    decreases n,
{
    if n < 10 {
        seq![digit_char(n)]
    } else {
        decimal(n / 10).push(digit_char(n % 10))
    }
}

// ---------------------------------------------------------------------------
// Basic facts
// ---------------------------------------------------------------------------

pub proof fn lemma_line_end_bounds(s: Seq<char>, i: int)
    requires
        0 <= i <= s.len(),
    ensures
        i <= line_end(s, i) <= s.len(),
        i < s.len() ==> i < line_end(s, i),
        forall|k: int| i <= k < line_end(s, i) - 1 ==> s[k] != '\n',
        line_end(s, i) < s.len() ==> s[line_end(s, i) - 1] == '\n',
        i < line_end(s, i) && line_end(s, i) == s.len() && s[s.len() - 1] != '\n' ==> forall|k: int|
            i <= k < s.len() ==> s[k] != '\n',
    decreases s.len() - i,
{
    if i < s.len() && s[i] != '\n' {
        lemma_line_end_bounds(s, i + 1);
    }
}

pub proof fn lemma_find_from(s: Seq<char>, i: int, c: char)
    requires
        0 <= i,
    ensures
        match find_from(s, i, c) {
            Some(k) => i <= k < s.len() && s[k] == c && forall|j: int| i <= j < k ==> s[j] != c,
            None => forall|j: int| i <= j < s.len() ==> s[j] != c,
        },
    decreases s.len() - i,
{
    if i < s.len() && s[i] != c {
        lemma_find_from(s, i + 1, c);
    }
}

pub proof fn lemma_trim_end_prefix(s: Seq<char>)
    ensures
        trim_end(s).len() <= s.len(),
        trim_end(s) == s.subrange(0, trim_end(s).len() as int),
        trim_end(s).len() == 0 || !is_ws(trim_end(s).last()),
        forall|k: int| trim_end(s).len() <= k < s.len() ==> is_ws(#[trigger] s[k]),
    decreases s.len(),
{
    if s.len() > 0 && is_ws(s.last()) {
        lemma_trim_end_prefix(s.drop_last());
        assert forall|k: int| trim_end(s).len() <= k < s.len() implies is_ws(#[trigger] s[k]) by {
            if k < s.len() - 1 {
                assert(s[k] == s.drop_last()[k]);
            }
        }
    } else {
        assert(s == s.subrange(0, s.len() as int));
    }
}

/// `trim_end` of a text that does not end in whitespace is the text itself.
pub proof fn lemma_trim_end_id(s: Seq<char>)
    requires
        s.len() == 0 || !is_ws(s.last()),
    ensures
        trim_end(s) == s,
{
}

/// A line's content without surrounding ASCII whitespace does not change
/// when a newline is added.
pub proof fn lemma_trim_ascii_newline(l: Seq<char>)
    ensures
        trim_ascii(l + seq!['\n']) == trim_ascii(l),
    decreases l.len(),
{
    let t = l + seq!['\n'];
    if l.len() == 0 {
        assert(t.drop_first() =~= l);
    } else if is_ascii_ws(l[0]) {
        assert(t[0] == l[0]);
        assert(t.drop_first() =~= l.drop_first() + seq!['\n']);
        lemma_trim_ascii_newline(l.drop_first());
    } else {
        assert(t[0] == l[0]);
        assert(t.drop_last() =~= l);
    }
}

/// `trim_start` drops a leading run of whitespace and keeps the rest.
pub proof fn lemma_trim_start_suffix(s: Seq<char>)
    ensures
        trim_start(s).len() <= s.len(),
        trim_start(s) == s.subrange(s.len() - trim_start(s).len(), s.len() as int),
        trim_start(s).len() == 0 || !is_ws(trim_start(s)[0]),
        forall|k: int| 0 <= k < s.len() - trim_start(s).len() ==> is_ws(#[trigger] s[k]),
    decreases s.len(),
{
    if s.len() > 0 && is_ws(s[0]) {
        lemma_trim_start_suffix(s.drop_first());
        assert forall|k: int| 0 <= k < s.len() - trim_start(s).len() implies is_ws(#[trigger] s[k]) by {
            if k > 0 {
                assert(s[k] == s.drop_first()[k - 1]);
            }
        }
        assert(s.drop_first().subrange(
            s.drop_first().len() - trim_start(s).len(),
            s.drop_first().len() as int,
        ) == s.subrange(s.len() - trim_start(s).len(), s.len() as int));
    } else {
        assert(s == s.subrange(0, s.len() as int));
    }
}

pub proof fn lemma_skip_run_suffix(s: Seq<char>, c: char)
    ensures
        skip_run(s, c).len() <= s.len(),
        skip_run(s, c) == s.subrange(s.len() - skip_run(s, c).len(), s.len() as int),
        skip_run(s, c).len() == 0 || skip_run(s, c)[0] != c,
        forall|k: int| 0 <= k < s.len() - skip_run(s, c).len() ==> s[k] == c,
    decreases s.len(),
{
    if s.len() > 0 && s[0] == c {
        lemma_skip_run_suffix(s.drop_first(), c);
        assert forall|k: int| 0 <= k < s.len() - skip_run(s, c).len() implies s[k] == c by {
            if k > 0 {
                assert(s[k] == s.drop_first()[k - 1]);
            }
        }
        assert(s.drop_first().subrange(
            s.drop_first().len() - skip_run(s, c).len(),
            s.drop_first().len() as int,
        ) == s.subrange(s.len() - skip_run(s, c).len(), s.len() as int));
    } else {
        assert(s == s.subrange(0, s.len() as int));
    }
}

pub proof fn lemma_strip_run_end_prefix(s: Seq<char>, c: char)
    ensures
        strip_run_end(s, c).len() <= s.len(),
        strip_run_end(s, c) == s.subrange(0, strip_run_end(s, c).len() as int),
        strip_run_end(s, c).len() == 0 || strip_run_end(s, c).last() != c,
        forall|k: int| strip_run_end(s, c).len() <= k < s.len() ==> s[k] == c,
    decreases s.len(),
{
    if s.len() > 0 && s.last() == c {
        lemma_strip_run_end_prefix(s.drop_last(), c);
        assert forall|k: int| strip_run_end(s, c).len() <= k < s.len() implies s[k] == c by {
            if k < s.len() - 1 {
                assert(s[k] == s.drop_last()[k]);
            }
        }
    } else {
        assert(s == s.subrange(0, s.len() as int));
    }
}

// ---------------------------------------------------------------------------
// Executable helpers
// ---------------------------------------------------------------------------

/// The quoted, escaped form of a text that `{:?}` formatting of a `str` gives.
pub uninterp spec fn debug_quoted(s: Seq<char>) -> Seq<char>;

/// Formats `s` with `{:?}` (`<str as Debug>::fmt`): the text in double quotes
/// with quotes, backslashes and control characters escaped. The contract only
/// names the result: it depends on `s` alone.
#[verifier::external_body]
pub(crate) fn debug_string(s: &str) -> (r: String)
    ensures
        r@ == debug_quoted(s@),
{
    format!("{s:?}")
}

/// The quoted, escaped form of a character that `{:?}` formatting gives.
pub uninterp spec fn debug_char_quoted(c: char) -> Seq<char>;

/// Formats `c` with `{:?}` (`<char as Debug>::fmt`): the character in single
/// quotes, escaped where needed. The contract only names the result: it
/// depends on `c` alone.
#[verifier::external_body]
pub(crate) fn debug_char(c: char) -> (r: String)
    ensures
        r@ == debug_char_quoted(c),
{
    format!("{c:?}")
}

/// What `str::to_lowercase` makes of a text: the Unicode lowercase mapping.
pub uninterp spec fn unicode_lower(s: Seq<char>) -> Seq<char>;

/// Lowercases `s` by the Unicode rules (`str::to_lowercase`). The mapping
/// takes the Unicode tables to state, so the contract only names the result,
/// which depends on `s` alone.
#[verifier::external_body]
pub(crate) fn to_lowercase(s: &str) -> (r: String)
    ensures
        r@ == unicode_lower(s@),
{
    s.to_lowercase()
}

/// Appends one character to a string (`String::push`).
#[verifier::external_body]
pub(crate) fn push_char(s: &mut String, c: char)
    ensures
        final(s)@ == old(s)@.push(c),
{
    s.push(c);
}

/// The characters of `s`, in order.
pub fn chars_of(s: &str) -> (v: Vec<char>)
    ensures
        v@ == s@,
{
    let mut v: Vec<char> = Vec::new();
    for c in it: s.chars()
        invariant
            v@ == it.seq().take(it.index() as int),
            it.seq() == s@,
    {
        v.push(c);
    }
    v
}

/// Appends `v[lo..hi]` to `out`.
pub fn push_range(out: &mut String, v: &Vec<char>, lo: usize, hi: usize)
    requires
        lo <= hi <= v@.len(),
    ensures
        final(out)@ == old(out)@ + v@.subrange(lo as int, hi as int),
{
    let mut i = lo;
    while i < hi
        invariant
            lo <= i <= hi <= v@.len(),
            out@ == old(out)@ + v@.subrange(lo as int, i as int),
        decreases hi - i,
    {
        push_char(out, v[i]);
        assert(v@.subrange(lo as int, i + 1) == v@.subrange(lo as int, i as int).push(v@[i as int]));
        i += 1;
    }
}

/// Appends all of `s` to `out`.
pub fn push_str(out: &mut String, s: &str)
    ensures
        final(out)@ == old(out)@ + s@,
{
    out.append(s);
}

/// A new string holding `v[lo..hi]`.
pub fn string_from(v: &Vec<char>, lo: usize, hi: usize) -> (r: String)
    requires
        lo <= hi <= v@.len(),
    ensures
        r@ == v@.subrange(lo as int, hi as int),
{
    let mut r = String::new();
    push_range(&mut r, v, lo, hi);
    r
}

/// A new string holding `v`.
pub fn string_of(v: &Vec<char>) -> (r: String)
    ensures
        r@ == v@,
{
    let r = string_from(v, 0, v.len());
    assert(v@.subrange(0, v@.len() as int) == v@);
    r
}

/// An owned copy of `s`.
pub fn to_owned_string(s: &str) -> (r: String)
    ensures
        r@ == s@,
{
    s.to_owned()
}

/// `s[lo..hi]` as a borrowed slice, counted in characters.
pub fn slice<'a>(s: &'a str, lo: usize, hi: usize) -> (r: &'a str)
    requires
        lo <= hi <= s@.len(),
    ensures
        r@ == s@.subrange(lo as int, hi as int),
{
    s.substring_char(lo, hi)
}

/// The exec counterpart of [`line_end`].
pub fn line_end_exec(v: &Vec<char>, i: usize) -> (e: usize)
    requires
        i <= v@.len(),
    ensures
        e == line_end(v@, i as int),
{
    let mut k = i;
    while k < v.len() && v[k] != '\n'
        invariant
            i <= k <= v@.len(),
            line_end(v@, i as int) == line_end(v@, k as int),
        decreases v@.len() - k,
    {
        k += 1;
    }
    if k < v.len() {
        k + 1
    } else {
        k
    }
}

/// The exec counterpart of [`find_from`], searching `v[i..]`.
pub fn find_char_from(v: &Vec<char>, i: usize, c: char) -> (r: Option<usize>)
    ensures
        match r {
            Some(k) => find_from(v@, i as int, c) == Some(k as int),
            None => find_from(v@, i as int, c) is None,
        },
{
    let mut k = i;
    while k < v.len()
        invariant
            i <= k || v@.len() <= i,
            find_from(v@, i as int, c) == find_from(v@, k as int, c),
        decreases v@.len() - k,
    {
        if v[k] == c {
            return Some(k);
        }
        k += 1;
    }
    None
}

/// `v[i..]` starts with `p`.
pub fn occurs_at_exec(v: &Vec<char>, i: usize, p: &Vec<char>) -> (r: bool)
    ensures
        r == occurs_at(v@, i as int, p@),
{
    if i > v.len() || p.len() > v.len() - i {
        return false;
    }
    let mut k: usize = 0;
    while k < p.len()
        invariant
            i + p@.len() <= v.len(),
            v.len() == v@.len(),
            k <= p@.len(),
            forall|j: int| 0 <= j < k ==> v@[i + j] == p@[j],
        decreases p@.len() - k,
    {
        if v[i + k] != p[k] {
            assert(v@.subrange(i as int, i + p@.len())[k as int] != p@[k as int]);
            return false;
        }
        k += 1;
    }
    assert(v@.subrange(i as int, i + p@.len()) =~= p@);
    true
}

/// Two texts are equal.
pub fn chars_eq(a: &Vec<char>, b: &Vec<char>) -> (r: bool)
    ensures
        r == (a@ == b@),
{
    if a.len() != b.len() {
        return false;
    }
    let r = occurs_at_exec(a, 0, b);
    proof {
        if r {
            assert(a@ =~= a@.subrange(0, b@.len() as int));
        } else {
            assert(a@.subrange(0, b@.len() as int) =~= a@);
        }
    }
    r
}

/// Two strings are equal.
pub fn str_eq(a: &str, b: &str) -> (r: bool)
    ensures
        r == (a@ == b@),
{
    let va = chars_of(a);
    let vb = chars_of(b);
    chars_eq(&va, &vb)
}

/// Unicode whitespace (`char::is_whitespace`).
pub fn is_whitespace(c: char) -> (r: bool)
    ensures
        r == is_ws(c),
{
    ('\t' <= c && c <= '\r') || c == ' ' || c == '\u{85}' || c == '\u{a0}' || c == '\u{1680}'
        || ('\u{2000}' <= c && c <= '\u{200a}') || c == '\u{2028}' || c == '\u{2029}'
        || c == '\u{202f}' || c == '\u{205f}' || c == '\u{3000}'
}

/// ASCII whitespace (`u8::is_ascii_whitespace`).
pub fn is_ascii_whitespace(c: char) -> (r: bool)
    ensures
        r == is_ascii_ws(c),
{
    c == ' ' || c == '\t' || c == '\n' || c == '\x0C' || c == '\r'
}

pub fn is_ascii_alphanumeric(c: char) -> (r: bool)
    ensures
        r == is_ascii_alnum(c),
{
    ('A' <= c && c <= 'Z') || ('a' <= c && c <= 'z') || ('0' <= c && c <= '9')
}

/// ASCII lowercase of one character.
pub fn to_ascii_lower(c: char) -> (r: char)
    ensures
        r == lower_char(c),
{
    if 'A' <= c && c <= 'Z' {
        (c as u8 + 32) as char
    } else {
        c
    }
}

/// ASCII lowercase of `v[lo..hi]`.
pub fn lower_string(v: &Vec<char>, lo: usize, hi: usize) -> (r: String)
    requires
        lo <= hi <= v@.len(),
    ensures
        r@ == lower(v@.subrange(lo as int, hi as int)),
{
    let mut r = String::new();
    let mut i = lo;
    while i < hi
        invariant
            lo <= i <= hi <= v@.len(),
            r@ == lower(v@.subrange(lo as int, i as int)),
        decreases hi - i,
    {
        push_char(&mut r, to_ascii_lower(v[i]));
        assert(lower(v@.subrange(lo as int, i + 1)) =~= lower(v@.subrange(lo as int, i as int)).push(
            lower_char(v@[i as int]),
        ));
        i += 1;
    }
    r
}

/// ASCII lowercase of a whole string.
pub fn to_ascii_lowercase(s: &str) -> (r: String)
    ensures
        r@ == lower(s@),
{
    let v = chars_of(s);
    let r = lower_string(&v, 0, v.len());
    assert(v@.subrange(0, v@.len() as int) == v@);
    r
}

/// The end of `v[lo..hi]` once trailing whitespace is removed.
pub fn trim_end_index(v: &Vec<char>, lo: usize, hi: usize) -> (e: usize)
    requires
        lo <= hi <= v@.len(),
    ensures
        lo <= e <= hi,
        v@.subrange(lo as int, e as int) == trim_end(v@.subrange(lo as int, hi as int)),
{
    let mut e = hi;
    while e > lo && is_whitespace(v[e - 1])
        invariant
            lo <= e <= hi <= v@.len(),
            trim_end(v@.subrange(lo as int, e as int)) == trim_end(v@.subrange(lo as int, hi as int)),
        decreases e,
    {
        assert(v@.subrange(lo as int, e - 1) =~= v@.subrange(lo as int, e as int).drop_last());
        e -= 1;
    }
    proof {
        lemma_trim_end_id(v@.subrange(lo as int, e as int));
    }
    e
}

/// Appends the decimal representation of `n` to `out`.
pub fn push_decimal(out: &mut String, n: u64)
    ensures
        final(out)@ == old(out)@ + decimal(n as nat),
    decreases n,
{
    if n < 10 {
        push_char(out, (n as u8 + 48) as char);
    } else {
        push_decimal(out, n / 10);
        push_char(out, ((n % 10) as u8 + 48) as char);
    }
}

/// `s` ends with `p`.
pub fn ends_with_str(s: &str, p: &str) -> (r: bool)
    ensures
        r == ends_with(s@, p@),
{
    let v = chars_of(s);
    let w = chars_of(p);
    if w.len() > v.len() {
        return false;
    }
    let r = occurs_at_exec(&v, v.len() - w.len(), &w);
    r
}

/// `s` without its trailing whitespace (`str::trim_end`).
pub fn trim_end_str<'a>(s: &'a str) -> (r: &'a str)
    ensures
        r@ == trim_end(s@),
{
    let v = chars_of(s);
    let e = trim_end_index(&v, 0, v.len());
    assert(v@.subrange(0, v@.len() as int) == v@);
    slice(s, 0, e)
}

/// `p` occurs in `s` (`str::contains`).
pub fn contains_text(s: &str, p: &str) -> (r: bool)
    ensures
        r == contains_seq(s@, p@),
{
    let v = chars_of(s);
    let w = chars_of(p);
    if w.len() > v.len() {
        proof {
            assert forall|i: int| !occurs_at(s@, i, p@) by {}
        }
        return false;
    }
    let last = v.len() - w.len();
    let mut i: usize = 0;
    loop
        invariant
            v@ == s@,
            w@ == p@,
            last == v@.len() - w@.len(),
            i <= last,
            forall|j: int| 0 <= j < i ==> !occurs_at(s@, j, p@),
        ensures
            forall|j: int| 0 <= j <= last ==> !occurs_at(s@, j, p@),
        decreases last - i,
    {
        if occurs_at_exec(&v, i, &w) {
            return true;
        }
        if i == last {
            break;
        }
        i += 1;
    }
    assert forall|j: int| !occurs_at(s@, j, p@) by {
        if 0 <= j <= last {
        }
    }
    false
}

} // verus!
