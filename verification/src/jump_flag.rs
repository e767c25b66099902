//! The jump-condition lattice: a three-bit set over the sign classes
//! zero, negative and positive, with intersection, union and complement.

use vstd::prelude::*;

verus! {

/// A set of sign classes under which a conditional edge is taken.
///
/// The three atoms are `IfZero`, `IfNegative` and `IfPositive`; the other
/// variants name the remaining unions, with `Never` the empty set and
/// `Always` the full set.
#[derive(Clone, Copy, Debug, PartialEq, Eq, Structural)]
pub enum JumpFlag {
    Never,
    IfZero,
    IfNegative,
    IfNotPositive,
    IfPositive,
    IfNotNegative,
    IfNotZero,
    Always,
}

impl JumpFlag {
    /// The flag as a bitset: bit 0 is the zero class, bit 1 the negative
    /// class, bit 2 the positive class.
    pub open spec fn bits(self) -> u8 {
        match self {
            JumpFlag::Never => 0x0,
            JumpFlag::IfZero => 0x1,
            JumpFlag::IfNegative => 0x2,
            JumpFlag::IfNotPositive => 0x3,
            JumpFlag::IfPositive => 0x4,
            JumpFlag::IfNotNegative => 0x5,
            JumpFlag::IfNotZero => 0x6,
            JumpFlag::Always => 0x7,
        }
    }

    /// The flag with the given bitset.
    pub open spec fn spec_from_bits(x: u8) -> JumpFlag {
        if x == 0x1 {
            JumpFlag::IfZero
        } else if x == 0x2 {
            JumpFlag::IfNegative
        } else if x == 0x3 {
            JumpFlag::IfNotPositive
        } else if x == 0x4 {
            JumpFlag::IfPositive
        } else if x == 0x5 {
            JumpFlag::IfNotNegative
        } else if x == 0x6 {
            JumpFlag::IfNotZero
        } else if x == 0x7 {
            JumpFlag::Always
        } else {
            JumpFlag::Never
        }
    }

    /// Intersection of the two sign-class sets.
    pub open spec fn spec_and(self, rhs: JumpFlag) -> JumpFlag {
        JumpFlag::spec_from_bits(self.bits() & rhs.bits())
    }

    /// Union of the two sign-class sets.
    pub open spec fn spec_or(self, rhs: JumpFlag) -> JumpFlag {
        JumpFlag::spec_from_bits(self.bits() | rhs.bits())
    }

    /// Complement within `Always`.
    pub open spec fn spec_not(self) -> JumpFlag {
        JumpFlag::spec_from_bits(!self.bits() & 0x7)
    }

    pub fn from_u8(x: u8) -> (r: JumpFlag)
        requires
            x < 8,
        ensures
            r == JumpFlag::spec_from_bits(x),
            r.bits() == x,
    {
        if x == 0x1 {
            JumpFlag::IfZero
        } else if x == 0x2 {
            JumpFlag::IfNegative
        } else if x == 0x3 {
            JumpFlag::IfNotPositive
        } else if x == 0x4 {
            JumpFlag::IfPositive
        } else if x == 0x5 {
            JumpFlag::IfNotNegative
        } else if x == 0x6 {
            JumpFlag::IfNotZero
        } else if x == 0x7 {
            JumpFlag::Always
        } else {
            JumpFlag::Never
        }
    }

    pub fn to_u8(self) -> (r: u8)
        ensures
            r == self.bits(),
            r < 8,
    {
        match self {
            JumpFlag::Never => 0x0,
            JumpFlag::IfZero => 0x1,
            JumpFlag::IfNegative => 0x2,
            JumpFlag::IfNotPositive => 0x3,
            JumpFlag::IfPositive => 0x4,
            JumpFlag::IfNotNegative => 0x5,
            JumpFlag::IfNotZero => 0x6,
            JumpFlag::Always => 0x7,
        }
    }

    /// Intersection of the two sign-class sets.
    pub fn and(self, rhs: JumpFlag) -> (r: JumpFlag)
        ensures
            r == self.spec_and(rhs),
    {
        let a = self.to_u8();
        let b = rhs.to_u8();
        proof {
            assert(a < 8 && b < 8 ==> (a & b) < 8) by (bit_vector);
        }
        JumpFlag::from_u8(a & b)
    }

    /// Union of the two sign-class sets.
    pub fn or(self, rhs: JumpFlag) -> (r: JumpFlag)
        ensures
            r == self.spec_or(rhs),
    {
        let a = self.to_u8();
        let b = rhs.to_u8();
        proof {
            assert(a < 8 && b < 8 ==> (a | b) < 8) by (bit_vector);
        }
        JumpFlag::from_u8(a | b)
    }

    /// Complement within `Always`.
    pub fn complement(self) -> (r: JumpFlag)
        ensures
            r == self.spec_not(),
    {
        let a = self.to_u8();
        proof {
            assert((!a & 0x7) < 8) by (bit_vector);
        }
        JumpFlag::from_u8(!a & 0x7)
    }
}

/// Round trip from a flag through its bitset and back.
pub proof fn lemma_from_bits_of_bits(x: JumpFlag)
    ensures
        JumpFlag::spec_from_bits(x.bits()) == x,
{
}

/// Round trip from a bitset below eight through a flag and back.
pub proof fn lemma_bits_of_from_bits(x: u8)
    requires
        x < 8,
    ensures
        JumpFlag::spec_from_bits(x).bits() == x,
{
}

/// A flag and its complement never overlap.
pub proof fn lemma_and_complement(x: JumpFlag)
    ensures
        x.spec_and(x.spec_not()) == JumpFlag::Never,
{
    let a = x.bits();
    assert(a < 8 ==> (a & (!a & 0x7)) == 0) by (bit_vector);
    assert((!a & 0x7) < 8) by (bit_vector);
    lemma_bits_of_from_bits(!a & 0x7);
}

/// A flag and its complement cover every sign class.
pub proof fn lemma_or_complement(x: JumpFlag)
    ensures
        x.spec_or(x.spec_not()) == JumpFlag::Always,
{
    let a = x.bits();
    assert(a < 8 ==> (a | (!a & 0x7)) == 7) by (bit_vector);
    assert((!a & 0x7) < 8) by (bit_vector);
    lemma_bits_of_from_bits(!a & 0x7);
}

/// Complement is an involution.
pub proof fn lemma_not_not(x: JumpFlag)
    ensures
        x.spec_not().spec_not() == x,
{
    let a = x.bits();
    assert(a < 8 ==> (!(!a & 0x7) & 0x7) == a) by (bit_vector);
    assert((!a & 0x7) < 8) by (bit_vector);
    lemma_bits_of_from_bits(!a & 0x7);
    lemma_from_bits_of_bits(x);
}

/// The bitsets of the three operations, for compositional reasoning.
pub proof fn lemma_flag_op_bits(x: JumpFlag, y: JumpFlag)
    ensures
        x.spec_and(y).bits() == (x.bits() & y.bits()),
        x.spec_or(y).bits() == (x.bits() | y.bits()),
        x.spec_not().bits() == (!x.bits() & 0x7),
        x.bits() < 8,
{
    let a = x.bits();
    let b = y.bits();
    assert(a < 8 && b < 8 ==> ((a & b) < 8 && (a | b) < 8 && (!a & 0x7) < 8)) by (bit_vector);
    lemma_bits_of_from_bits(a & b);
    lemma_bits_of_from_bits(a | b);
    lemma_bits_of_from_bits(!a & 0x7);
}

/// Flags with equal bitsets are equal.
pub proof fn lemma_bits_injective(x: JumpFlag, y: JumpFlag)
    requires
        x.bits() == y.bits(),
    ensures
        x == y,
{
    lemma_from_bits_of_bits(x);
    lemma_from_bits_of_bits(y);
}

/// `Never` is the unit of union.
pub proof fn lemma_or_never(x: JumpFlag)
    ensures
        x.spec_or(JumpFlag::Never) == x,
        JumpFlag::Never.spec_or(x) == x,
{
    let a = x.bits();
    assert((a | 0) == a && (0 | a) == a) by (bit_vector);
    lemma_from_bits_of_bits(x);
}

/// Masking by the complement of what was seen loses nothing from the
/// union: `a ∨ (b ∧ ¬a) = a ∨ b`.
pub proof fn lemma_or_absorb_masked(a: JumpFlag, b: JumpFlag)
    ensures
        a.spec_or(b.spec_and(a.spec_not())) == a.spec_or(b),
{
    let x = a.bits();
    let y = b.bits();
    assert(x < 8 && y < 8 ==> ((!x & 0x7) < 8 && (y & (!x & 0x7)) < 8 && (x | (y & (!x & 0x7)))
        == (x | y))) by (bit_vector);
    lemma_bits_of_from_bits(!x & 0x7);
    lemma_bits_of_from_bits(y & (!x & 0x7));
}

/// Intersection is commutative.
pub proof fn lemma_and_commutative(x: JumpFlag, y: JumpFlag)
    ensures
        x.spec_and(y) == y.spec_and(x),
{
    let a = x.bits();
    let b = y.bits();
    assert((a & b) == (b & a)) by (bit_vector);
}

/// Union is commutative.
pub proof fn lemma_or_commutative(x: JumpFlag, y: JumpFlag)
    ensures
        x.spec_or(y) == y.spec_or(x),
{
    let a = x.bits();
    let b = y.bits();
    assert((a | b) == (b | a)) by (bit_vector);
}

/// Intersection is associative.
pub proof fn lemma_and_associative(x: JumpFlag, y: JumpFlag, z: JumpFlag)
    ensures
        x.spec_and(y).spec_and(z) == x.spec_and(y.spec_and(z)),
{
    let a = x.bits();
    let b = y.bits();
    let c = z.bits();
    assert(a < 8 && b < 8 && c < 8 ==> ((a & b) < 8 && (b & c) < 8)) by (bit_vector);
    lemma_bits_of_from_bits(a & b);
    lemma_bits_of_from_bits(b & c);
    assert(((a & b) & c) == (a & (b & c))) by (bit_vector);
}

/// Union is associative.
pub proof fn lemma_or_associative(x: JumpFlag, y: JumpFlag, z: JumpFlag)
    ensures
        x.spec_or(y).spec_or(z) == x.spec_or(y.spec_or(z)),
{
    let a = x.bits();
    let b = y.bits();
    let c = z.bits();
    assert(a < 8 && b < 8 && c < 8 ==> ((a | b) < 8 && (b | c) < 8)) by (bit_vector);
    lemma_bits_of_from_bits(a | b);
    lemma_bits_of_from_bits(b | c);
    assert(((a | b) | c) == (a | (b | c))) by (bit_vector);
}

} // verus!
