//! Axis-aligned bounding boxes over order keys.
use vstd::prelude::*;
use crate::keys::{KeyVec3, NEG_INF_KEY, POS_INF_KEY};

verus! {

/// An axis-aligned box, its corners given as order keys. The empty box has
/// `min = +inf` and `max = -inf` on every axis and is the identity of `union`.
#[derive(Clone, Copy, Debug, PartialEq, Eq, Structural)]
pub struct Boundingbox {
    pub min: KeyVec3,
    pub max: KeyVec3,
}

/// The empty box.
pub open spec fn empty_box() -> Boundingbox {
    Boundingbox {
        min: KeyVec3 { x: POS_INF_KEY, y: POS_INF_KEY, z: POS_INF_KEY },
        max: KeyVec3 { x: NEG_INF_KEY, y: NEG_INF_KEY, z: NEG_INF_KEY },
    }
}

/// The smallest box that holds both boxes.
pub open spec fn union_spec(a: Boundingbox, b: Boundingbox) -> Boundingbox {
    Boundingbox { min: a.min.min_spec(b.min), max: a.max.max_spec(b.max) }
}

/// The box of a triangle with corners `a`, `b`, `c`.
pub open spec fn triangle_box(a: KeyVec3, b: KeyVec3, c: KeyVec3) -> Boundingbox {
    Boundingbox { min: a.min_spec(b.min_spec(c)), max: a.max_spec(b.max_spec(c)) }
}

impl Boundingbox {
    /// Both corners are keys of values other than NaN.
    pub open spec fn valid(self) -> bool {
        self.min.valid() && self.max.valid()
    }

    /// `o` lies inside `self`.
    pub open spec fn contains(self, o: Boundingbox) -> bool {
        self.min.le(o.min) && o.max.le(self.max)
    }

    pub fn new(min: KeyVec3, max: KeyVec3) -> (r: Boundingbox)
        ensures
            r == (Boundingbox { min, max }),
    {
        Boundingbox { min, max }
    }

    pub fn new_empty() -> (r: Boundingbox)
        ensures
            r == empty_box(),
    {
        Boundingbox {
            min: KeyVec3 { x: POS_INF_KEY, y: POS_INF_KEY, z: POS_INF_KEY },
            max: KeyVec3 { x: NEG_INF_KEY, y: NEG_INF_KEY, z: NEG_INF_KEY },
        }
    }

    /// Corner 0 is `min`, corner 1 is `max`.
    pub fn get(&self, index: usize) -> (r: KeyVec3)
        requires
            index < 2,
        ensures
            r == if index == 0 { self.min } else { self.max },
    {
        if index == 0 {
            self.min
        } else {
            self.max
        }
    }

    /// Grows this box to hold `other` too.
    pub fn expand(&mut self, other: &Boundingbox)
        ensures
            *final(self) == union_spec(*old(self), *other),
    {
        self.min = self.min.min(&other.min);
        self.max = self.max.max(&other.max);
    }

    /// The box of a triangle: componentwise minimum and maximum of its corners.
    pub fn from_triangle(a: KeyVec3, b: KeyVec3, c: KeyVec3) -> (r: Boundingbox)
        ensures
            r == triangle_box(a, b, c),
    {
        let min = a.min(&b.min(&c));
        let max = a.max(&b.max(&c));
        Boundingbox { min, max }
    }

    /// The smallest box that holds both boxes.
    pub fn union(&self, other: &Boundingbox) -> (r: Boundingbox)
        ensures
            r == union_spec(*self, *other),
    {
        Boundingbox { min: self.min.min(&other.min), max: self.max.max(&other.max) }
    }
}

/// Expanding the empty box by a box gives that box.
pub proof fn lemma_expand_empty(x: Boundingbox)
    requires
        x.valid(),
    ensures
        union_spec(empty_box(), x) == x,
{
}

/// A box united with itself is itself.
pub proof fn lemma_union_idempotent(x: Boundingbox)
    ensures
        union_spec(x, x) == x,
{
}

/// Union does not depend on the order of its arguments.
pub proof fn lemma_union_commutative(x: Boundingbox, y: Boundingbox)
    ensures
        union_spec(x, y) == union_spec(y, x),
{
}

/// Union may be grouped either way.
pub proof fn lemma_union_associative(x: Boundingbox, y: Boundingbox, z: Boundingbox)
    ensures
        union_spec(union_spec(x, y), z) == union_spec(x, union_spec(y, z)),
{
}

/// The union holds both of its arguments, and lies in any box that holds both.
pub proof fn lemma_union_least(x: Boundingbox, y: Boundingbox, b: Boundingbox)
    ensures
        union_spec(x, y).contains(x),
        union_spec(x, y).contains(y),
        b.contains(x) && b.contains(y) ==> b.contains(union_spec(x, y)),
{
}

/// A triangle's box holds its three corners.
pub proof fn lemma_triangle_box_holds_corners(a: KeyVec3, b: KeyVec3, c: KeyVec3)
    ensures
        triangle_box(a, b, c).min.le(a) && a.le(triangle_box(a, b, c).max),
        triangle_box(a, b, c).min.le(b) && b.le(triangle_box(a, b, c).max),
        triangle_box(a, b, c).min.le(c) && c.le(triangle_box(a, b, c).max),
{
}

} // verus!
