//! The balanced-ternary scalar: a trit in {-1, 0, +1} with sign
//! multiplication, negation and saturating addition.

use vstd::prelude::*;

verus! {

/// A single balanced-ternary digit.
///
/// The algebra is total over the closed three-valued domain:
/// multiplication is sign multiplication (zero absorbs), negation swaps
/// `Pos` and `Neg` and fixes `Zero`, and addition saturates to [-1, +1].
#[derive(Debug, Clone, Copy, PartialEq, Eq, Hash, Structural)]
pub enum Trit {
    Neg,
    Zero,
    Pos,
}

/// The sign of an integer: -1, 0 or +1.
pub open spec fn sign_of(v: int) -> i8 {
    if v < 0 {
        -1i8
    } else if v > 0 {
        1i8
    } else {
        0i8
    }
}

impl Trit {
    /// The scalar a trit stands for.
    pub open spec fn as_i8(self) -> i8 {
        match self {
            Trit::Neg => -1i8,
            Trit::Zero => 0i8,
            Trit::Pos => 1i8,
        }
    }

    /// The integer a trit stands for.
    pub open spec fn as_int(self) -> int {
        self.as_i8() as int
    }

    /// The trit standing for a scalar already known to lie in {-1, 0, +1}.
    pub open spec fn of_int(v: int) -> Trit {
        if v < 0 {
            Trit::Neg
        } else if v > 0 {
            Trit::Pos
        } else {
            Trit::Zero
        }
    }

    /// Map any integer to a trit via its sign, not by saturating its
    /// magnitude: every negative value becomes `Neg`, every positive
    /// value `Pos`.
    pub fn from_i8(v: i8) -> (t: Trit)
        ensures
            t == Trit::of_int(v as int),
            t.as_int() == sign_of(v as int),
    {
        if v < 0 {
            Trit::Neg
        } else if v > 0 {
            Trit::Pos
        } else {
            Trit::Zero
        }
    }

    /// The scalar value of the trit.
    pub fn to_i8(self) -> (v: i8)
        ensures
            v == self.as_int(),
    {
        match self {
            Trit::Neg => -1,
            Trit::Zero => 0,
            Trit::Pos => 1,
        }
    }

    /// Negation: swaps `Pos` and `Neg`, fixes `Zero`.
    pub fn neg(self) -> (t: Trit)
        ensures
            t.as_int() == -self.as_int(),
    {
        match self {
            Trit::Neg => Trit::Pos,
            Trit::Zero => Trit::Zero,
            Trit::Pos => Trit::Neg,
        }
    }

    /// Sign multiplication; for values in {-1, 0, +1} this is exactly
    /// integer multiplication.
    pub fn mul(self, rhs: Trit) -> (t: Trit)
        ensures
            t.as_int() == self.as_int() * rhs.as_int(),
    {
        match (self, rhs) {
            (Trit::Zero, _) => Trit::Zero,
            (_, Trit::Zero) => Trit::Zero,
            (Trit::Pos, Trit::Pos) => Trit::Pos,
            (Trit::Neg, Trit::Neg) => Trit::Pos,
            _ => Trit::Neg,
        }
    }

    /// Saturating addition: the ordinary sum clamped to [-1, +1],
    /// so `Pos + Pos` is `Pos`, not 2.
    pub fn add(self, rhs: Trit) -> (t: Trit)
        ensures
            t.as_int() == if self.as_int() + rhs.as_int() > 1 {
                1int
            } else if self.as_int() + rhs.as_int() < -1 {
                -1int
            } else {
                self.as_int() + rhs.as_int()
            },
    {
        match (self, rhs) {
            (Trit::Zero, t) => t,
            (t, Trit::Zero) => t,
            (Trit::Pos, Trit::Neg) => Trit::Zero,
            (Trit::Neg, Trit::Pos) => Trit::Zero,
            (Trit::Pos, Trit::Pos) => Trit::Pos,
            (Trit::Neg, Trit::Neg) => Trit::Neg,
        }
    }
}

} // verus!
