use vstd::prelude::*;
use vstd::string::StringExecFns;

use crate::text::{push_signed_decimal, signed_decimal};

verus! {

/// Sum of two ranges: `[l1 + l2, u1 + u2]`.
pub open spec fn add_bounds(a: (int, int), b: (int, int)) -> (int, int) {
    (a.0 + b.0, a.1 + b.1)
}

/// Negation of a range: `[-u, -l]`.
pub open spec fn negate_bounds(a: (int, int)) -> (int, int) {
    (-a.1, -a.0)
}

/// Difference of two ranges, defined through negation: `a + (-b)`.
pub open spec fn sub_bounds(a: (int, int), b: (int, int)) -> (int, int) {
    add_bounds(a, negate_bounds(b))
}

/// The tighter of two bound estimates: `[max(l1, l2), min(u1, u2)]`.
pub open spec fn union_bounds(a: (int, int), b: (int, int)) -> (int, int) {
    (
        if a.0 >= b.0 { a.0 } else { b.0 },
        if a.1 <= b.1 { a.1 } else { b.1 },
    )
}

/// Whether a pair of mathematical bounds can be held by an `Interval`.
pub open spec fn fits_i64(a: (int, int)) -> bool {
    i64::MIN <= a.0 <= i64::MAX && i64::MIN <= a.1 <= i64::MAX
}

/// A closed range `[lower, upper]` of durations. The ordering
/// `lower <= upper` is left to the caller and is not checked.
#[derive(Clone, Copy, Debug, PartialEq, Eq, Structural)]
pub struct Interval(i64, i64);

impl View for Interval {
    type V = (int, int);

    closed spec fn view(&self) -> (int, int) {
        (self.0 as int, self.1 as int)
    }
}

impl Default for Interval {
    /// The range `[0, 0]`.
    fn default() -> (r: Interval)
        ensures
            r@ == (0int, 0int),
    {
        Interval(0, 0)
    }
}

impl Interval {
    /// Create a new interval; the bounds are not reordered.
    pub fn new(lower: i64, upper: i64) -> (r: Interval)
        ensures
            r@ == (lower as int, upper as int),
    {
        Interval(lower, upper)
    }

    /// The text `[lower, upper]`.
    pub fn to_string(&self) -> (r: String)
        ensures
            r@ == seq!['['] + signed_decimal(self@.0) + seq![',', ' '] + signed_decimal(self@.1) + seq![']'],
    {
        proof {
            reveal_strlit("[");
            reveal_strlit(", ");
            reveal_strlit("]");
        }
        let mut s = String::from_str("[");
        push_signed_decimal(&mut s, self.0);
        s.append(", ");
        push_signed_decimal(&mut s, self.1);
        s.append("]");
        s
    }

    pub fn lower(&self) -> (r: i64)
        ensures
            r as int == self@.0,
    {
        self.0
    }

    pub fn upper(&self) -> (r: i64)
        ensures
            r as int == self@.1,
    {
        self.1
    }

    /// `[l1, u1] + [l2, u2] = [l1 + l2, u1 + u2]`
    pub fn add(self, other: Interval) -> (r: Interval)
        requires
            fits_i64(add_bounds(self@, other@)),
        ensures
            r@ == add_bounds(self@, other@),
    {
        Interval(self.0 + other.0, self.1 + other.1)
    }

    /// In-place form of `add`.
    pub fn add_assign(&mut self, other: Interval)
        requires
            fits_i64(add_bounds(old(self)@, other@)),
        ensures
            final(self)@ == add_bounds(old(self)@, other@),
    {
        *self = self.add(other);
    }

    /// `-[l, u] = [-u, -l]`
    pub fn neg(self) -> (r: Interval)
        requires
            fits_i64(negate_bounds(self@)),
        ensures
            r@ == negate_bounds(self@),
    {
        Interval(-self.1, -self.0)
    }

    /// `[l1, u1] - [l2, u2] = [l1, u1] + [-u2, -l2]`
    pub fn sub(self, other: Interval) -> (r: Interval)
        requires
            fits_i64(negate_bounds(other@)),
            fits_i64(sub_bounds(self@, other@)),
        ensures
            r@ == sub_bounds(self@, other@),
    {
        self.add(other.neg())
    }

    /// In-place form of `sub`.
    pub fn sub_assign(&mut self, other: Interval)
        requires
            fits_i64(negate_bounds(other@)),
            fits_i64(sub_bounds(old(self)@, other@)),
        ensures
            final(self)@ == sub_bounds(old(self)@, other@),
    {
        *self = self.sub(other);
    }

    /// Combine two bound estimates into the tighter one:
    /// `[max(l1, l2), min(u1, u2)]`. Despite the operator it stands for,
    /// this intersects the two ranges.
    pub fn bitxor(self, other: Interval) -> (r: Interval)
        ensures
            r@ == union_bounds(self@, other@),
    {
        let lower = if self.0 >= other.0 { self.0 } else { other.0 };
        let upper = if self.1 <= other.1 { self.1 } else { other.1 };
        Interval(lower, upper)
    }

    /// In-place form of `bitxor`.
    pub fn bitxor_assign(&mut self, other: Interval)
        ensures
            final(self)@ == union_bounds(old(self)@, other@),
    {
        *self = self.bitxor(other);
    }
}

/// Combining two bound estimates does not depend on their order.
pub proof fn lemma_union_commutative(a: (int, int), b: (int, int))
    ensures
        union_bounds(a, b) == union_bounds(b, a),
{
}

/// Adding ranges does not depend on their order.
pub proof fn lemma_add_commutative(a: (int, int), b: (int, int))
    ensures
        add_bounds(a, b) == add_bounds(b, a),
{
}

/// Adding ranges does not depend on how the sum is grouped.
pub proof fn lemma_add_associative(a: (int, int), b: (int, int), c: (int, int))
    ensures
        add_bounds(add_bounds(a, b), c) == add_bounds(a, add_bounds(b, c)),
{
}

/// Negating a range twice gives the range back.
pub proof fn lemma_negate_involutive(a: (int, int))
    ensures
        negate_bounds(negate_bounds(a)) == a,
{
}

} // verus!
