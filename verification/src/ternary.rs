use vstd::prelude::*;

verus! {

/// A balanced ternary digit: Negative (-1), Zero (0), or Positive (+1).
#[derive(Debug, Clone, Copy, PartialEq, Eq, Structural, Hash)]
pub enum Ternary {
    Negative,
    Zero,
    Positive,
}

impl Ternary {
    /// The integer that the digit stands for.
    pub open spec fn value(self) -> int {
        match self {
            Ternary::Negative => -1,
            Ternary::Zero => 0,
            Ternary::Positive => 1,
        }
    }

    pub fn to_i8(self) -> (r: i8)
        ensures
            r == self.value(),
    {
        match self {
            Ternary::Negative => -1,
            Ternary::Zero => 0,
            Ternary::Positive => 1,
        }
    }
}

/// The digits are balanced round zero: Negative is -1, Zero is 0 and
/// Positive is +1, so that they are ordered and Negative mirrors Positive.
pub proof fn lemma_ternary_balanced()
    ensures
        Ternary::Positive.value() == 1,
        Ternary::Zero.value() == 0,
        Ternary::Negative.value() == -Ternary::Positive.value(),
        Ternary::Negative.value() < Ternary::Zero.value() < Ternary::Positive.value(),
{
}

} // verus!
