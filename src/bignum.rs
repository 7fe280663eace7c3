use vstd::prelude::*;

verus! {

pub const LIMB: u128 = 0x1_0000_0000_0000_0000;

/// The weight of limb `i`: `2^(64 i)`.
pub open spec fn limb_weight(i: nat) -> nat
    decreases i,
{
    if i == 0 {
        1
    } else {
        (LIMB as nat) * limb_weight((i - 1) as nat)
    }
}

/// The number that little-endian base-`2^64` limbs stand for.
pub open spec fn limbs_value(s: Seq<u64>) -> nat
    decreases s.len(),
{
    if s.len() == 0 {
        0
    } else {
        limbs_value(s.drop_last()) + s.last() as nat * limb_weight((s.len() - 1) as nat)
    }
}

/// An unbounded natural number, as little-endian base-`2^64` limbs.
#[derive(Debug)]
pub struct Big {
    pub digits: Vec<u64>,
}

proof fn lemma_take_step(s: Seq<u64>, i: int)
    requires
        0 <= i < s.len(),
    ensures
        limbs_value(s.take(i + 1)) == limbs_value(s.take(i)) + s[i] as nat * limb_weight(i as nat),
{
    assert(s.take(i + 1).drop_last() =~= s.take(i));
}

proof fn lemma_zero_pad(s: Seq<u64>, m: nat)
    ensures
        limbs_value(s + Seq::new(m, |k: int| 0u64)) == limbs_value(s),
    decreases m,
{
    if m > 0 {
        let t = s + Seq::new(m, |k: int| 0u64);
        assert(t.drop_last() =~= s + Seq::new((m - 1) as nat, |k: int| 0u64));
        assert(t.last() == 0);
        lemma_zero_pad(s, (m - 1) as nat);
        assert(limbs_value(t) == limbs_value(t.drop_last()) + t.last() as nat * limb_weight((t.len() - 1) as nat));
    } else {
        assert(s + Seq::new(m, |k: int| 0u64) =~= s);
    }
}

/// Drops zero limbs from the top; the value stays.
fn trim_top(v: &mut Vec<u64>)
    ensures
        limbs_value(final(v)@) == limbs_value(old(v)@),
        final(v)@.len() == 0 || final(v)@.last() != 0,
{
    while v.len() > 0 && v[v.len() - 1] == 0
        invariant
            limbs_value(v@) == limbs_value(old(v)@),
        decreases v@.len(),
    {
        let ghost prev = v@;
        assert(prev.last() == 0);
        v.pop();
        assert(v@ =~= prev.drop_last());
        assert(limbs_value(prev) == limbs_value(prev.drop_last()) + prev.last() as nat * limb_weight((prev.len() - 1) as nat));
        assert(limbs_value(prev) == limbs_value(v@));
    }
}

impl Big {
    /// The number this stands for.
    pub open spec fn value(&self) -> nat {
        limbs_value(self.digits@)
    }

    /// No limb of value zero at the top.
    pub open spec fn normalized(&self) -> bool {
        self.digits@.len() == 0 || self.digits@.last() != 0
    }

    /// Zero.
    pub fn new() -> (r: Big)
        ensures
            r.value() == 0,
            r.normalized(),
    {
        Big { digits: Vec::new() }
    }

    /// The number `x`, as one limb.
    pub fn from_u64(x: u64) -> (r: Big)
        ensures
            r.value() == x,
    {
        let mut digits: Vec<u64> = Vec::new();
        digits.push(x);
        proof {
            assert(digits@.drop_last() =~= Seq::<u64>::empty());
            assert(limb_weight(0) == 1);
            assert(limbs_value(digits@) == limbs_value(digits@.drop_last()) + digits@.last() as nat * limb_weight(0));
        }
        Big { digits }
    }

    /// Adds `other` into `self`, limb by limb with carry, then drops zero
    /// limbs from the top.
    pub fn add_assign(&mut self, other: &Big)
        ensures
            final(self).value() == old(self).value() + other.value(),
            final(self).normalized(),
    {
        let ghost start = self.digits@;
        let n = if self.digits.len() >= other.digits.len() {
            self.digits.len()
        } else {
            other.digits.len()
        };
        while self.digits.len() < n
            invariant
                start.len() <= self.digits@.len() <= n,
                self.digits@ == start + Seq::new((self.digits@.len() - start.len()) as nat, |k: int| 0u64),
            decreases n - self.digits@.len(),
        {
            let ghost before = self.digits@;
            self.digits.push(0);
            assert(self.digits@ =~= start + Seq::new((self.digits@.len() - start.len()) as nat, |k: int| 0u64));
        }
        let ghost a = self.digits@;
        let ghost b = other.digits@ + Seq::new((n - other.digits@.len()) as nat, |k: int| 0u64);
        proof {
            lemma_zero_pad(start, (n - start.len()) as nat);
            lemma_zero_pad(other.digits@, (n - other.digits@.len()) as nat);
        }
        let mut carry: u128 = 0;
        let mut i: usize = 0;
        while i < n
            invariant
                self.digits@.len() == n,
                a.len() == n,
                b.len() == n,
                other.digits@.len() <= n,
                forall|k: int| 0 <= k < other.digits@.len() ==> b[k] == other.digits@[k],
                forall|k: int| other.digits@.len() <= k < n ==> b[k] == 0,
                i <= n,
                forall|k: int| i <= k < n ==> self.digits@[k] == a[k],
                carry <= 1,
                limbs_value(self.digits@.take(i as int)) + carry * limb_weight(i as nat)
                    == limbs_value(a.take(i as int)) + limbs_value(b.take(i as int)),
            decreases n - i,
        {
            let x = self.digits[i] as u128;
            let y: u128 = if i < other.digits.len() { other.digits[i] as u128 } else { 0 };
            let sum = x + y + carry;
            let lo = (sum % LIMB) as u64;
            let ghost prev = self.digits@;
            let ghost c0 = carry;
            self.digits.set(i, lo);
            carry = sum / LIMB;
            proof {
                assert(self.digits@.take(i as int) =~= prev.take(i as int));
                lemma_take_step(self.digits@, i as int);
                lemma_take_step(a, i as int);
                lemma_take_step(b, i as int);
                let w = limb_weight(i as nat);
                assert(limb_weight((i + 1) as nat) == LIMB * w);
                assert(sum == lo + carry * LIMB);
                assert((lo + carry * LIMB) * w == lo * w + carry * (LIMB * w)) by (nonlinear_arith);
                assert(sum * w == x * w + y * w + c0 * w) by (nonlinear_arith)
                    requires
                        sum == x + y + c0,
                ;
            }
            i = i + 1;
        }
        proof {
            assert(self.digits@.take(n as int) =~= self.digits@);
            assert(a.take(n as int) =~= a);
            assert(b.take(n as int) =~= b);
        }
        if carry > 0 {
            let ghost prev = self.digits@;
            self.digits.push(carry as u64);
            assert(self.digits@.drop_last() =~= prev);
        }
        proof {
            assert(limbs_value(self.digits@) == limbs_value(start) + limbs_value(other.digits@));
        }
        trim_top(&mut self.digits);
    }

    /// Adds a single `u64` into `self`.
    pub fn add_u64(&mut self, x: u64)
        ensures
            final(self).value() == old(self).value() + x,
            final(self).normalized(),
    {
        self.add_assign(&Big::from_u64(x));
    }
}

} // verus!
