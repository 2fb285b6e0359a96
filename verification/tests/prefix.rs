use vat::base32::Base32Error;
use vat::prefix::validate;

#[test]
fn accepts_lowercase_letters() {
    assert_eq!(validate("lib"), Ok(()));
    assert_eq!(validate("sql"), Ok(()));
}

#[test]
fn accepts_ambiguous_letters_rejected_by_crockford() {
    // 'i', 'l', 'o', 'u' are excluded from Crockford base32 but are fine
    // for a human-chosen prefix.
    for s in ["lib", "iou", "oil", "lou"] {
        assert_eq!(validate(s), Ok(()), "prefix {s:?} should be accepted");
    }
}

#[test]
fn accepts_digits_and_mixed_alphanumeric() {
    assert_eq!(validate("ui0"), Ok(()));
    assert_eq!(validate("123"), Ok(()));
    assert_eq!(validate("a1b"), Ok(()));
}

#[test]
fn accepts_uppercase_for_caller_to_normalize() {
    // The validator is case-insensitive; lowercasing is the caller's job.
    assert_eq!(validate("LIB"), Ok(()));
    assert_eq!(validate("Ui0"), Ok(()));
}

#[test]
fn rejects_wrong_length() {
    assert_eq!(
        validate("ab"),
        Err(Base32Error::WrongLength {
            expected: 3,
            got: 2,
        })
    );
    assert_eq!(
        validate("abcd"),
        Err(Base32Error::WrongLength {
            expected: 3,
            got: 4,
        })
    );
    assert_eq!(
        validate(""),
        Err(Base32Error::WrongLength {
            expected: 3,
            got: 0,
        })
    );
}

#[test]
fn reports_length_before_checking_chars() {
    // A too-long all-invalid string surfaces WrongLength, not InvalidChar.
    assert_eq!(
        validate("-- -"),
        Err(Base32Error::WrongLength {
            expected: 3,
            got: 4,
        })
    );
}

#[test]
fn rejects_separator_whitespace_and_brackets() {
    // These are exactly the characters that would break `[<prefix>-<suffix>]`
    // tokenization if they were allowed in a prefix.
    for (s, ch, pos) in [
        ("a-b", '-', 1),
        ("a b", ' ', 1),
        ("a\tb", '\t', 1),
        ("[ab", '[', 0),
        ("ab]", ']', 2),
    ] {
        assert_eq!(
            validate(s),
            Err(Base32Error::InvalidChar { ch, pos }),
            "prefix {s:?} should be rejected at {ch:?}"
        );
    }
}

#[test]
fn reports_zero_based_char_index_for_non_ascii() {
    let s = "a\u{1F600}b";
    assert_eq!(s.chars().count(), 3);
    assert_eq!(
        validate(s),
        Err(Base32Error::InvalidChar {
            ch: '\u{1F600}',
            pos: 1,
        })
    );
}
