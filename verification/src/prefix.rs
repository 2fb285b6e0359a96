//! The project-ID prefix chosen by a human: three ASCII alphanumerics.
use vstd::prelude::*;
use crate::base32::Base32Error;
use crate::text::{chars_of, is_ascii_alnum, is_ascii_alphanumeric};

verus! {

/// A project-ID prefix is always exactly this many characters.
pub const PREFIX_LEN: usize = 3;

/// The first position at or after `i` that is not ASCII alphanumeric.
pub open spec fn first_non_alnum(s: Seq<char>, i: int) -> Option<int>
    decreases s.len() - i,
{
    if i < 0 || i >= s.len() {
        None
    } else if !is_ascii_alnum(s[i]) {
        Some(i)
    } else {
        first_non_alnum(s, i + 1)
    }
}

/// The outcome of validating a prefix: wrong length first, then the first
/// character that is not ASCII alphanumeric.
pub open spec fn spec_validate_prefix(s: Seq<char>) -> Result<(), Base32Error> {
    if s.len() != 3 {
        Err(Base32Error::WrongLength { expected: 3, got: s.len() as usize })
    } else {
        match first_non_alnum(s, 0) {
            Some(p) => Err(Base32Error::InvalidChar { ch: s[p], pos: p as usize }),
            None => Ok(()),
        }
    }
}

/// Validates a user-chosen project-ID prefix: exactly three characters, each
/// an ASCII letter (either case) or digit.
pub fn validate(s: &str) -> (r: Result<(), Base32Error>)
    ensures
        r == spec_validate_prefix(s@),
{
    let v = chars_of(s);
    let got = v.len();
    if got != PREFIX_LEN {
        return Err(Base32Error::WrongLength { expected: PREFIX_LEN, got });
    }
    let mut i: usize = 0;
    while i < v.len()
        invariant
            i <= v@.len(),
            v@ == s@,
            v@.len() == 3,
            first_non_alnum(v@, 0) == first_non_alnum(v@, i as int),
        decreases v@.len() - i,
    {
        if !is_ascii_alphanumeric(v[i]) {
            assert(first_non_alnum(v@, i as int) == Some(i as int));
            return Err(Base32Error::InvalidChar { ch: v[i], pos: i });
        }
        i += 1;
    }
    Ok(())
}

} // verus!
