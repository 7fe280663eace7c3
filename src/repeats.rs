use vstd::prelude::*;
use vstd::string::StringSliceAdditionalSpecFns;

verus! {

/// `b` is its first half written twice.
pub open spec fn doubled(b: Seq<u8>) -> bool {
    b.len() % 2 == 0 && b.subrange(0, b.len() as int / 2) == b.subrange(b.len() as int / 2, b.len() as int)
}

/// `b` is its first `len` bytes written over and over, a whole number of
/// times.
pub open spec fn repeats_with(b: Seq<u8>, len: int) -> bool {
    &&& 0 < len
    &&& (b.len() as int) % len == 0
    &&& forall|i: int| 0 <= i < b.len() ==> #[trigger] b[i] == b[i % len]
}

/// `b` is some shorter block written at least twice.
pub open spec fn repeated(b: Seq<u8>) -> bool {
    exists|len: int| 1 <= len <= b.len() as int / 2 && #[trigger] repeats_with(b, len)
}

/// Whether `s` is one string written twice.
pub fn is_double_repeat(s: &str) -> (r: bool)
    ensures
        r == doubled(s.spec_bytes()),
{
    let b = s.as_bytes();
    let n = b.len();
    if n % 2 != 0 {
        return false;
    }
    let half = n / 2;
    let mut i: usize = 0;
    while i < half
        invariant
            b@ == s.spec_bytes(),
            n == b@.len(),
            half == n / 2,
            n % 2 == 0,
            i <= half,
            forall|k: int| 0 <= k < i ==> b@[k] == #[trigger] b@[k + half],
        decreases half - i,
    {
        if b[i] != b[i + half] {
            assert(b@.subrange(0, half as int)[i as int] != b@.subrange(half as int, n as int)[i as int]);
            return false;
        }
        i = i + 1;
    }
    assert(b@.subrange(0, half as int) =~= b@.subrange(half as int, n as int));
    true
}

/// Whether `b` is its first `len` bytes written over and over.
fn repeats_in(b: &[u8], len: usize) -> (r: bool)
    requires
        1 <= len <= b@.len(),
        (b@.len() as int) % (len as int) == 0,
    ensures
        r == repeats_with(b@, len as int),
{
    let n = b.len();
    let mut i: usize = len;
    proof {
        assert forall|k: int| 0 <= k < len implies #[trigger] b@[k] == b@[k % len as int] by {
            vstd::arithmetic::div_mod::lemma_small_mod(k as nat, len as nat);
        }
    }
    while i < n && b[i] == b[i % len]
        invariant
            n == b@.len(),
            1 <= len <= n,
            len <= i <= n,
            forall|k: int| 0 <= k < i ==> #[trigger] b@[k] == b@[k % len as int],
        decreases n - i,
    {
        i = i + 1;
    }
    if i == n {
        return true;
    }
    assert(b@[i as int] != b@[i as int % len as int]);
    false
}

/// Whether `s` is some shorter string written two or more times.
pub fn is_multi_repeat(s: &str) -> (r: bool)
    ensures
        r == repeated(s.spec_bytes()),
{
    let b = s.as_bytes();
    let n = b.len();
    let mut len: usize = 1;
    while len <= n / 2
        invariant
            b@ == s.spec_bytes(),
            n == b@.len(),
            1 <= len,
            forall|l: int| 1 <= l < len ==> !#[trigger] repeats_with(b@, l),
        decreases n + 1 - len,
    {
        if n % len == 0 && repeats_in(b, len) {
            return true;
        }
        len = len + 1;
    }
    false
}

} // verus!
