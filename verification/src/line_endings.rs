//! Line-ending normalization applied to every file the library reads.
use vstd::prelude::*;
use crate::text::{chars_of, push_char};

verus! {

/// `s` with every `\r\n` pair and every remaining bare `\r` turned into `\n`.
pub open spec fn normalize(s: Seq<char>) -> Seq<char>
    decreases s.len(),
{
    if s.len() == 0 {
        Seq::empty()
    } else if s[0] == '\r' {
        if s.len() > 1 && s[1] == '\n' {
            seq!['\n'] + normalize(s.skip(2))
        } else {
            seq!['\n'] + normalize(s.skip(1))
        }
    } else {
        seq![s[0]] + normalize(s.skip(1))
    }
}

/// The text holds no carriage return.
pub open spec fn no_cr(s: Seq<char>) -> bool {
    forall|i: int| 0 <= i < s.len() ==> #[trigger] s[i] != '\r'
}

/// Normalized text holds no carriage return.
pub proof fn lemma_normalize_no_cr(s: Seq<char>)
    ensures
        no_cr(normalize(s)),
    decreases s.len(),
{
    if s.len() > 0 {
        if s[0] == '\r' && s.len() > 1 && s[1] == '\n' {
            lemma_normalize_no_cr(s.skip(2));
        } else {
            lemma_normalize_no_cr(s.skip(1));
        }
        let n = normalize(s);
        assert forall|i: int| 0 <= i < n.len() implies n[i] != '\r' by {
            if i > 0 {
                if s[0] == '\r' && s.len() > 1 && s[1] == '\n' {
                    assert(n[i] == normalize(s.skip(2))[i - 1]);
                } else {
                    assert(n[i] == normalize(s.skip(1))[i - 1]);
                }
            }
        }
    }
}

/// Text without carriage returns is left unchanged.
pub proof fn lemma_normalize_identity(s: Seq<char>)
    requires
        no_cr(s),
    ensures
        normalize(s) == s,
    decreases s.len(),
{
    if s.len() > 0 {
        assert(s[0] != '\r');
        assert(no_cr(s.skip(1))) by {
            assert forall|i: int| 0 <= i < s.skip(1).len() implies s.skip(1)[i] != '\r' by {
                assert(s.skip(1)[i] == s[i + 1]);
            }
        }
        lemma_normalize_identity(s.skip(1));
        assert(seq![s[0]] + s.skip(1) =~= s);
    }
}

/// Normalizing twice is normalizing once.
pub proof fn lemma_normalize_idempotent(s: Seq<char>)
    ensures
        normalize(normalize(s)) == normalize(s),
{
    lemma_normalize_no_cr(s);
    lemma_normalize_identity(normalize(s));
}

/// Converts CRLF pairs and bare CRs to LF, leaving every other character as is.
pub fn normalize_line_endings(input: &str) -> (r: String)
    ensures
        r@ == normalize(input@),
{
    let v = chars_of(input);
    let mut out = String::new();
    let mut i: usize = 0;
    assert(v@.skip(0) =~= v@);
    assert(out@ + normalize(v@) =~= normalize(v@));
    while i < v.len()
        invariant
            i <= v@.len(),
            out@ + normalize(v@.skip(i as int)) == normalize(v@),
        decreases v@.len() - i,
    {
        let ghost rest = v@.skip(i as int);
        let ghost before = out@;
        if v[i] == '\r' {
            push_char(&mut out, '\n');
            if i + 1 < v.len() && v[i + 1] == '\n' {
                assert(rest.skip(2) =~= v@.skip(i + 2));
                i += 2;
            } else {
                assert(rest.skip(1) =~= v@.skip(i + 1));
                i += 1;
            }
        } else {
            push_char(&mut out, v[i]);
            assert(rest.skip(1) =~= v@.skip(i + 1));
            i += 1;
        }
        assert(before + normalize(rest) =~= out@ + normalize(v@.skip(i as int)));
    }
    assert(v@.skip(i as int) =~= Seq::<char>::empty());
    assert(out@ + Seq::<char>::empty() =~= out@);
    assert(v@.skip(0) =~= v@);
    out
}

} // verus!
