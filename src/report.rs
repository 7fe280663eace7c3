use vstd::prelude::*;

verus! {

/// A computed integer, as a machine-word `i64` where it fits and in the
/// extended `i128` representation where it does not.
#[derive(Clone, Copy, Debug, PartialEq, Eq, Structural)]
pub enum Reported {
    Normal(i64),
    Extended(i128),
}

pub open spec fn fits_i64(v: int) -> bool {
    i64::MIN <= v <= i64::MAX
}

impl Reported {
    /// The exact value carried, whatever the representation.
    pub open spec fn value(self) -> int {
        match self {
            Reported::Normal(v) => v as int,
            Reported::Extended(v) => v as int,
        }
    }

    /// The representation chosen for `v`: `Normal` exactly when it fits in `i64`.
    pub open spec fn of(v: int) -> Reported {
        if fits_i64(v) {
            Reported::Normal(v as i64)
        } else {
            Reported::Extended(v as i128)
        }
    }

    /// Whether the value needed the extended representation.
    pub fn is_extended(&self) -> (r: bool)
        ensures
            r == (*self is Extended),
    {
        match self {
            Reported::Normal(_) => false,
            Reported::Extended(_) => true,
        }
    }

    /// The exact value, widened to `i128`.
    pub fn to_i128(&self) -> (r: i128)
        ensures
            r == self.value(),
    {
        match self {
            Reported::Normal(v) => *v as i128,
            Reported::Extended(v) => *v,
        }
    }
}

/// Reports a wide value: the range test is made on the `i128` itself, so it
/// never truncates.
pub fn report(v: i128) -> (r: Reported)
    ensures
        r == Reported::of(v as int),
        r.value() == v,
        r is Normal <==> fits_i64(v as int),
{
    if i64::MIN as i128 <= v && v <= i64::MAX as i128 {
        Reported::Normal(v as i64)
    } else {
        Reported::Extended(v)
    }
}

} // verus!
