//! Positions in the circular 32-bit sequence space.

use core::cmp::Ordering;
use vstd::prelude::*;

verus! {

/// The size of the sequence space, 2^32.
pub const SPACE: u64 = 0x1_0000_0000;

/// Half of the sequence space, 2^31. Two positions compare as their
/// offsets from a common base do as long as both offsets stay below this.
pub const HALF: u32 = 0x8000_0000;

/// A position in the sequence space. Arithmetic wraps at 2^32; ordering
/// follows the half-space rule.
#[derive(Debug, Copy, Clone, PartialEq, Eq, Hash, Structural)]
pub struct Seq32(pub u32);

impl View for Seq32 {
    type V = u32;

    open spec fn view(&self) -> u32 {
        self.0
    }
}

impl Seq32 {
    /// How far `self` lies ahead of `base`, walking forward around the
    /// circle: a value in `0 .. 2^32`.
    #[verifier::opaque]
    pub open spec fn offset_from(self, base: Seq32) -> int {
        (self.0 - base.0) % (SPACE as int)
    }

    /// The position `n` steps ahead of `self`, for any integer `n`.
    pub open spec fn advanced(self, n: int) -> Seq32 {
        Seq32(((self.0 + n) % (SPACE as int)) as u32)
    }

    /// `self < other` under the half-space rule.
    pub open spec fn precedes(self, other: Seq32) -> bool {
        self != other && self.offset_from(other) >= HALF
    }

    /// `self > other` under the half-space rule.
    pub open spec fn follows(self, other: Seq32) -> bool {
        self != other && self.offset_from(other) < HALF
    }

    /// `self <= other` under the half-space rule.
    pub open spec fn at_or_before(self, other: Seq32) -> bool {
        self == other || self.offset_from(other) >= HALF
    }

    /// `self >= other` under the half-space rule.
    pub open spec fn at_or_after(self, other: Seq32) -> bool {
        self.offset_from(other) < HALF
    }

    /// The number of steps from `base` forward to `self`.
    pub fn distance_from(self, base: Seq32) -> (r: u32)
        ensures
            r == self.offset_from(base),
    {
        reveal(Seq32::offset_from);
        self.0.wrapping_sub(base.0)
    }

    /// Compares two positions under the half-space rule: equal values are
    /// equal, a position less than 2^31 steps ahead of the other is
    /// greater, any other is less.
    pub fn cmp(&self, other: &Seq32) -> (r: Ordering)
        ensures
            r == Ordering::Equal <==> *self == *other,
            r == Ordering::Greater <==> self.follows(*other),
            r == Ordering::Less <==> self.precedes(*other),
    {
        reveal(Seq32::offset_from);
        if self.0 == other.0 {
            Ordering::Equal
        } else if self.0.wrapping_sub(other.0) < HALF {
            Ordering::Greater
        } else {
            Ordering::Less
        }
    }
}

impl core::ops::Deref for Seq32 {
    type Target = u32;

    fn deref(&self) -> (r: &u32)
        ensures
            *r == self.0,
    {
        &self.0
    }
}

impl From<u32> for Seq32 {
    fn from(seq: u32) -> (r: Seq32) {
        Seq32(seq)
    }
}

impl vstd::std_specs::convert::FromSpecImpl<u32> for Seq32 {
    open spec fn obeys_from_spec() -> bool {
        true
    }

    open spec fn from_spec(seq: u32) -> Seq32 {
        Seq32(seq)
    }
}

impl PartialOrd for Seq32 {
    fn partial_cmp(&self, other: &Seq32) -> (r: Option<Ordering>) {
        Some(self.cmp(other))
    }
}

impl vstd::std_specs::cmp::PartialOrdSpecImpl for Seq32 {
    open spec fn obeys_partial_cmp_spec() -> bool {
        true
    }

    open spec fn partial_cmp_spec(&self, other: &Seq32) -> Option<Ordering> {
        if *self == *other {
            Some(Ordering::Equal)
        } else if self.follows(*other) {
            Some(Ordering::Greater)
        } else {
            Some(Ordering::Less)
        }
    }
}

impl core::ops::Add for Seq32 {
    type Output = Seq32;

    fn add(self, other: Seq32) -> (r: Seq32) {
        Seq32(self.0.wrapping_add(other.0))
    }
}

impl vstd::std_specs::ops::AddSpecImpl for Seq32 {
    open spec fn obeys_add_spec() -> bool {
        true
    }

    open spec fn add_req(self, other: Seq32) -> bool {
        true
    }

    open spec fn add_spec(self, other: Seq32) -> Seq32 {
        self.advanced(other.0 as int)
    }
}

impl core::ops::Add<u32> for Seq32 {
    type Output = Seq32;

    fn add(self, other: u32) -> (r: Seq32) {
        Seq32(self.0.wrapping_add(other))
    }
}

impl vstd::std_specs::ops::AddSpecImpl<u32> for Seq32 {
    open spec fn obeys_add_spec() -> bool {
        true
    }

    open spec fn add_req(self, other: u32) -> bool {
        true
    }

    open spec fn add_spec(self, other: u32) -> Seq32 {
        self.advanced(other as int)
    }
}

impl core::ops::Sub for Seq32 {
    type Output = Seq32;

    fn sub(self, other: Seq32) -> (r: Seq32) {
        Seq32(self.0.wrapping_sub(other.0))
    }
}

impl vstd::std_specs::ops::SubSpecImpl for Seq32 {
    open spec fn obeys_sub_spec() -> bool {
        true
    }

    open spec fn sub_req(self, other: Seq32) -> bool {
        true
    }

    open spec fn sub_spec(self, other: Seq32) -> Seq32 {
        self.advanced(-(other.0 as int))
    }
}

impl core::ops::Sub<u32> for Seq32 {
    type Output = Seq32;

    fn sub(self, other: u32) -> (r: Seq32) {
        Seq32(self.0.wrapping_sub(other))
    }
}

impl vstd::std_specs::ops::SubSpecImpl<u32> for Seq32 {
    open spec fn obeys_sub_spec() -> bool {
        true
    }

    open spec fn sub_req(self, other: u32) -> bool {
        true
    }

    open spec fn sub_spec(self, other: u32) -> Seq32 {
        self.advanced(-(other as int))
    }
}

impl core::ops::AddAssign for Seq32 {
    fn add_assign(&mut self, other: Seq32)
        ensures
            *final(self) == old(self).advanced(other.0 as int),
    {
        self.0 = self.0.wrapping_add(other.0);
    }
}

impl core::ops::AddAssign<u32> for Seq32 {
    fn add_assign(&mut self, other: u32)
        ensures
            *final(self) == old(self).advanced(other as int),
    {
        self.0 = self.0.wrapping_add(other);
    }
}

impl core::ops::SubAssign for Seq32 {
    fn sub_assign(&mut self, other: Seq32)
        ensures
            *final(self) == old(self).advanced(-(other.0 as int)),
    {
        self.0 = self.0.wrapping_sub(other.0);
    }
}

impl core::ops::SubAssign<u32> for Seq32 {
    fn sub_assign(&mut self, other: u32)
        ensures
            *final(self) == old(self).advanced(-(other as int)),
    {
        self.0 = self.0.wrapping_sub(other);
    }
}

/// An offset lies in `0 .. 2^32`, and only the base itself has offset 0.
pub proof fn lemma_offset_bounds(base: Seq32, p: Seq32)
    ensures
        0 <= p.offset_from(base) < SPACE,
        p.offset_from(base) == 0 <==> p == base,
{
    reveal(Seq32::offset_from);
}

/// Offsets from any base differ as the positions do: the offset of `p`
/// from `a` is the difference of their offsets from `base`, taken modulo
/// 2^32.
pub proof fn lemma_offset_rebase(base: Seq32, a: Seq32, p: Seq32)
    ensures
        0 <= a.offset_from(base) < SPACE,
        0 <= p.offset_from(base) < SPACE,
        0 <= p.offset_from(a) < SPACE,
        a.offset_from(base) <= p.offset_from(base) ==> p.offset_from(a) == p.offset_from(base)
            - a.offset_from(base),
        a.offset_from(base) > p.offset_from(base) ==> p.offset_from(a) == SPACE + p.offset_from(
            base,
        ) - a.offset_from(base),
{
    reveal(Seq32::offset_from);
}

/// Two positions whose offsets from a common base both stay below 2^31
/// compare as those offsets do.
pub proof fn lemma_window_order(base: Seq32, a: Seq32, b: Seq32)
    requires
        a.offset_from(base) < HALF,
        b.offset_from(base) < HALF,
    ensures
        a == b <==> a.offset_from(base) == b.offset_from(base),
        a.precedes(b) <==> a.offset_from(base) < b.offset_from(base),
        a.follows(b) <==> a.offset_from(base) > b.offset_from(base),
        a.at_or_before(b) <==> a.offset_from(base) <= b.offset_from(base),
        a.at_or_after(b) <==> a.offset_from(base) >= b.offset_from(base),
{
    lemma_offset_rebase(base, b, a);
    lemma_offset_bounds(base, a);
    lemma_offset_bounds(base, b);
    lemma_offset_bounds(b, a);
}

/// Advancing a position by `n` advances its offset from any base by `n`,
/// modulo 2^32.
pub proof fn lemma_advanced_offset(base: Seq32, p: Seq32, n: int)
    ensures
        p.advanced(n).offset_from(base) == (p.offset_from(base) + n) % (SPACE as int),
        p.advanced(0) == p,
{
    reveal(Seq32::offset_from);
}

/// Advancing a base by the offset of a position arrives at that position,
/// and a position advanced by less than 2^32 lies that far ahead.
pub proof fn lemma_advanced_inverse(base: Seq32, p: Seq32, n: int)
    ensures
        base.advanced(p.offset_from(base)) == p,
        0 <= n < SPACE ==> base.advanced(n).offset_from(base) == n,
{
    reveal(Seq32::offset_from);
}

/// Advancing twice is advancing by the sum.
pub proof fn lemma_advanced_sum(p: Seq32, m: int, n: int)
    ensures
        p.advanced(m).advanced(n) == p.advanced(m + n),
{
}

/// Within a window positions advance as their offsets do: a position less
/// than 2^31 ahead of `base`, advanced by less than 2^31, lies that much
/// further ahead.
pub proof fn lemma_advance_in_window(base: Seq32, p: Seq32, n: int)
    requires
        0 <= n < HALF,
        p.offset_from(base) < HALF,
    ensures
        0 <= p.offset_from(base),
        p.advanced(n).offset_from(base) == p.offset_from(base) + n,
        p.advanced(n).offset_from(p) == n,
{
    lemma_advanced_offset(base, p, n);
    lemma_offset_bounds(base, p);
    lemma_advanced_inverse(p, p, n);
}

} // verus!
