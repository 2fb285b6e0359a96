use rand::SeedableRng;
use vat::base32::{random, validate, Base32Error};

#[test]
fn validate_accepts_mixed_case() {
    // "0123456789AbCdEfGhJkMnPqRsTvWxYz" is the full alphabet in mixed case (len=32)
    let mixed = "0123456789AbCdEfGhJkMnPqRsTvWxYz";
    assert_eq!(validate(mixed, 32), Ok(()));
}

#[test]
fn validate_accepts_every_alphabet_character() {
    // Uppercase canonical alphabet, length 32
    let upper = "0123456789ABCDEFGHJKMNPQRSTVWXYZ";
    assert_eq!(validate(upper, 32), Ok(()));
    // Lowercase canonical alphabet, length 32
    let lower = "0123456789abcdefghjkmnpqrstvwxyz";
    assert_eq!(validate(lower, 32), Ok(()));
}

#[test]
fn validate_rejects_ambiguous_chars_without_folding() {
    // I, L, O, U (upper and lower) must be rejected as invalid, not folded
    for ch in ['I', 'i', 'L', 'l', 'O', 'o', 'U', 'u'] {
        let s = format!("{ch}0000000");
        let result = validate(&s, 8);
        assert_eq!(
            result,
            Err(Base32Error::InvalidChar { ch, pos: 0 }),
            "expected InvalidChar for {ch:?}"
        );
    }
}

#[test]
fn validate_reports_zero_based_char_index_for_invalid_char() {
    // "a😀b" has chars: 'a' at 0, '😀' at 1, 'b' at 2 — all length-3 string
    // '😀' is not in the alphabet; pos should be 1 (char index, not byte index)
    let s = "a\u{1F600}b";
    assert_eq!(s.chars().count(), 3);
    assert_eq!(
        validate(s, 3),
        Err(Base32Error::InvalidChar {
            ch: '\u{1F600}',
            pos: 1
        })
    );
}

#[test]
fn validate_returns_wrong_length_before_checking_chars() {
    // String of wrong length with all-invalid characters must still return WrongLength
    let s = "!!@@##$$"; // 8 invalid chars
    assert_eq!(
        validate(s, 5),
        Err(Base32Error::WrongLength { expected: 5, got: 8 })
    );
}

#[test]
fn random_with_seeded_rng_is_deterministic() {
    let mut rng = rand::rngs::StdRng::from_seed([0u8; 32]);
    assert_eq!(random(3, &mut rng), "da2");
}

#[test]
fn random_output_contains_only_canonical_lowercase_chars() {
    let canonical_lower = "0123456789abcdefghjkmnpqrstvwxyz";
    let mut rng = rand::rngs::StdRng::from_seed([42u8; 32]);
    let output = random(100, &mut rng);
    assert_eq!(output.len(), 100);
    for ch in output.chars() {
        assert!(
            canonical_lower.contains(ch),
            "character {ch:?} is not in the canonical lowercase alphabet"
        );
    }
}
