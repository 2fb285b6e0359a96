//! Crockford base32: the alphabet that every generated ID suffix is drawn from.
use vstd::prelude::*;
use crate::text::{
    chars_of, debug_char, debug_char_quoted, decimal, is_ascii_digit, is_ascii_lower, lower_char,
    push_char, push_decimal, push_str, to_ascii_lower,
};
use rand::rngs::StdRng;

verus! {

/// The random number generator that every generated ID draws from.
#[verifier::external_type_specification]
#[verifier::external_body]
pub struct ExStdRng(StdRng);

/// Why a text is not a valid Crockford base32 string of the expected length.
#[derive(Debug, Clone, Copy, PartialEq, Eq, Structural)]
pub enum Base32Error {
    WrongLength { expected: usize, got: usize },
    InvalidChar { ch: char, pos: usize },
}

impl Base32Error {
    pub open spec fn message_text(&self) -> Seq<char> {
        match self {
            Base32Error::WrongLength { expected, got } => "wrong length: expected "@ + decimal(
                *expected as nat,
            ) + ", got "@ + decimal(*got as nat),
            Base32Error::InvalidChar { ch, pos } => "invalid character "@ + debug_char_quoted(*ch)
                + " at position "@ + decimal(*pos as nat),
        }
    }

    /// The user-facing description.
    pub fn message(&self) -> (r: String)
        ensures
            r@ == self.message_text(),
    {
        let mut out = String::new();
        match self {
            Base32Error::WrongLength { expected, got } => {
                push_str(&mut out, "wrong length: expected ");
                push_decimal(&mut out, *expected as u64);
                push_str(&mut out, ", got ");
                push_decimal(&mut out, *got as u64);
            },
            Base32Error::InvalidChar { ch, pos } => {
                push_str(&mut out, "invalid character ");
                let q = debug_char(*ch);
                push_str(&mut out, q.as_str());
                push_str(&mut out, " at position ");
                push_decimal(&mut out, *pos as u64);
            },
        }
        out
    }
}

/// `c` belongs to the Crockford alphabet `0123456789ABCDEFGHJKMNPQRSTVWXYZ`,
/// in either case; `I`, `L`, `O` and `U` are not folded and do not belong.
pub open spec fn is_b32(c: char) -> bool {
    let l = lower_char(c);
    is_ascii_digit(l) || (is_ascii_lower(l) && l != 'i' && l != 'l' && l != 'o' && l != 'u')
}

/// The first position at or after `i` whose character fails `is_b32`.
pub open spec fn first_non_b32(s: Seq<char>, i: int) -> Option<int>
    decreases s.len() - i,
{
    if i < 0 || i >= s.len() {
        None
    } else if !is_b32(s[i]) {
        Some(i)
    } else {
        first_non_b32(s, i + 1)
    }
}

/// The outcome of validating `s` against the alphabet with length `n`: the
/// length is checked first, then the first offending character is reported
/// with its 0-based character position.
pub open spec fn spec_validate(s: Seq<char>, n: nat) -> Result<(), Base32Error> {
    if s.len() != n {
        Err(Base32Error::WrongLength { expected: n as usize, got: s.len() as usize })
    } else {
        match first_non_b32(s, 0) {
            Some(p) => Err(Base32Error::InvalidChar { ch: s[p], pos: p as usize }),
            None => Ok(()),
        }
    }
}

/// Every character of `s` belongs to the alphabet.
pub open spec fn all_b32(s: Seq<char>) -> bool {
    forall|i: int| 0 <= i < s.len() ==> is_b32(#[trigger] s[i])
}

pub proof fn lemma_first_non_b32(s: Seq<char>, i: int)
    requires
        0 <= i,
    ensures
        match first_non_b32(s, i) {
            Some(p) => i <= p < s.len() && !is_b32(s[p]) && forall|j: int| i <= j < p ==> is_b32(s[j]),
            None => forall|j: int| i <= j < s.len() ==> is_b32(#[trigger] s[j]),
        },
    decreases s.len() - i,
{
    if i < s.len() && is_b32(s[i]) {
        lemma_first_non_b32(s, i + 1);
    }
}

/// Validation succeeds exactly on texts of length `n` made of alphabet characters.
pub proof fn lemma_validate_ok(s: Seq<char>, n: nat)
    ensures
        spec_validate(s, n) is Ok <==> (s.len() == n && all_b32(s)),
{
    lemma_first_non_b32(s, 0);
}

/// Lowercasing keeps a valid text valid.
pub proof fn lemma_validate_lower(s: Seq<char>, n: nat)
    ensures
        spec_validate(s, n) is Ok ==> spec_validate(crate::text::lower(s), n) is Ok,
{
    if spec_validate(s, n) is Ok {
        let l = crate::text::lower(s);
        lemma_first_non_b32(s, 0);
        lemma_first_non_b32(l, 0);
        assert forall|j: int| 0 <= j < l.len() implies is_b32(#[trigger] l[j]) by {
            assert(is_b32(s[j]));
            assert(l[j] == lower_char(s[j]));
            crate::text::lemma_lower_char_idempotent(s[j]);
        }
    }
}

pub fn is_base32_char(c: char) -> (r: bool)
    ensures
        r == is_b32(c),
{
    let l = to_ascii_lower(c);
    ('0' <= l && l <= '9') || ('a' <= l && l <= 'z' && l != 'i' && l != 'l' && l != 'o' && l != 'u')
}

/// Validation over the characters `v[lo..hi]`.
pub fn validate_chars(v: &Vec<char>, lo: usize, hi: usize, expected_len: usize) -> (r: Result<
    (),
    Base32Error,
>)
    requires
        lo <= hi <= v@.len(),
    ensures
        r == spec_validate(v@.subrange(lo as int, hi as int), expected_len as nat),
{
    let ghost s = v@.subrange(lo as int, hi as int);
    let got = hi - lo;
    if got != expected_len {
        return Err(Base32Error::WrongLength { expected: expected_len, got });
    }
    let mut i = lo;
    while i < hi
        invariant
            lo <= i <= hi <= v@.len(),
            s == v@.subrange(lo as int, hi as int),
            hi - lo == expected_len,
            first_non_b32(s, 0) == first_non_b32(s, i - lo),
        decreases hi - i,
    {
        if !is_base32_char(v[i]) {
            assert(s[i - lo] == v@[i as int]);
            assert(first_non_b32(s, i - lo) == Some((i - lo) as int));
            return Err(Base32Error::InvalidChar { ch: v[i], pos: i - lo });
        }
        i += 1;
    }
    Ok(())
}

/// Checks that `s` has exactly `expected_len` characters, all in the Crockford
/// alphabet (either case).
pub fn validate(s: &str, expected_len: usize) -> (r: Result<(), Base32Error>)
    ensures
        r == spec_validate(s@, expected_len as nat),
{
    let v = chars_of(s);
    let r = validate_chars(&v, 0, v.len(), expected_len);
    assert(v@.subrange(0, v@.len() as int) == v@);
    r
}

/// The canonical (lowercase) alphabet character with index `i`.
pub open spec fn alphabet_at(i: int) -> char {
    seq![
        '0', '1', '2', '3', '4', '5', '6', '7', '8', '9', 'a', 'b', 'c', 'd', 'e', 'f',
        'g', 'h', 'j', 'k', 'm', 'n', 'p', 'q', 'r', 's', 't', 'v', 'w', 'x', 'y', 'z',
    ][i]
}

/// A canonical alphabet character: in the alphabet and already lowercase.
pub open spec fn is_canonical_b32(c: char) -> bool {
    is_b32(c) && lower_char(c) == c
}

pub fn alphabet_char(i: u8) -> (c: char)
    requires
        i < 32,
    ensures
        c == alphabet_at(i as int),
        is_canonical_b32(c),
{
    match i {
        0 => '0', 1 => '1', 2 => '2', 3 => '3', 4 => '4', 5 => '5', 6 => '6', 7 => '7',
        8 => '8', 9 => '9', 10 => 'a', 11 => 'b', 12 => 'c', 13 => 'd', 14 => 'e', 15 => 'f',
        16 => 'g', 17 => 'h', 18 => 'j', 19 => 'k', 20 => 'm', 21 => 'n', 22 => 'p', 23 => 'q',
        24 => 'r', 25 => 's', 26 => 't', 27 => 'v', 28 => 'w', 29 => 'x', 30 => 'y', _ => 'z',
    }
}

/// One draw from `rng`, uniform over `0..bound` (`Rng::gen_range`, which
/// panics on an empty range). Only the range of the result is stated: it
/// depends on the generator's state.
#[verifier::external_body]
fn random_below(rng: &mut StdRng, bound: u8) -> (r: u8)
    requires
        bound > 0,
    ensures
        r < bound,
{
    rand::Rng::gen_range(rng, 0..bound)
}

/// `n` canonical (lowercase) alphabet characters drawn from `rng`.
pub fn random(n: usize, rng: &mut StdRng) -> (r: String)
    ensures
        r@.len() == n,
        forall|i: int| 0 <= i < n ==> is_canonical_b32(#[trigger] r@[i]),
{
    let mut r = String::new();
    let mut k: usize = 0;
    while k < n
        invariant
            k <= n,
            r@.len() == k,
            forall|i: int| 0 <= i < k ==> is_canonical_b32(#[trigger] r@[i]),
        decreases n - k,
    {
        let idx = random_below(rng, 32);
        push_char(&mut r, alphabet_char(idx));
        k += 1;
    }
    r
}

} // verus!
