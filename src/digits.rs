use vstd::prelude::*;
use vstd::string::StringSliceAdditionalSpecFns;

verus! {

pub open spec fn is_digit(c: u8) -> bool {
    48 <= c <= 57
}

/// The number written by the decimal digits of `b`, in order, with every
/// other byte skipped.
pub open spec fn digits_value(b: Seq<u8>) -> int
    decreases b.len(),
{
    if b.len() == 0 {
        0
    } else if is_digit(b.last()) {
        10 * digits_value(b.drop_last()) + (b.last() - 48)
    } else {
        digits_value(b.drop_last())
    }
}

proof fn lemma_digits_value_monotone(b: Seq<u8>, k: int)
    requires
        0 <= k <= b.len(),
    ensures
        0 <= digits_value(b.take(k)) <= digits_value(b),
    decreases b.len() - k,
{
    if k < b.len() {
        lemma_digits_value_monotone(b, k + 1);
        assert(b.take(k + 1).drop_last() =~= b.take(k));
    } else {
        assert(b.take(k) =~= b);
        lemma_digits_value_nonneg(b);
    }
}

proof fn lemma_digits_value_nonneg(b: Seq<u8>)
    ensures
        digits_value(b) >= 0,
    decreases b.len(),
{
    if b.len() > 0 {
        lemma_digits_value_nonneg(b.drop_last());
    }
}

/// Reads the decimal digits of `s` as one number, skipping every other byte.
pub fn parse_ll(s: &str) -> (v: i64)
    requires
        digits_value(s.spec_bytes()) <= i64::MAX,
    ensures
        v == digits_value(s.spec_bytes()),
{
    let b = s.as_bytes();
    let mut v: i64 = 0;
    let mut i: usize = 0;
    while i < b.len()
        invariant
            b@ == s.spec_bytes(),
            digits_value(b@) <= i64::MAX,
            i <= b@.len(),
            v == digits_value(b@.take(i as int)),
        decreases b@.len() - i,
    {
        let c = b[i];
        proof {
            assert(b@.take(i + 1).drop_last() =~= b@.take(i as int));
            lemma_digits_value_monotone(b@, i + 1);
        }
        if c >= 48 && c <= 57 {
            v = v * 10 + (c - 48) as i64;
        }
        i = i + 1;
    }
    assert(b@.take(i as int) =~= b@);
    v
}

} // verus!
