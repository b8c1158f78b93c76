//! Points and displacements on the integer grid of the arena.
use vstd::prelude::*;

verus! {

/// A point or a displacement: component 0 is `x`, component 1 is `y`.
#[derive(Debug, Clone, Copy, PartialEq, Eq, Structural)]
pub struct IVec2 {
    pub x: i32,
    pub y: i32,
}

/// `v` fits in an `i32`.
pub open spec fn fits_i32(v: int) -> bool {
    i32::MIN <= v <= i32::MAX
}

/// `v` lies between zero and `s`, on the same side of zero as `s`.
pub open spec fn between(v: int, s: int) -> bool {
    (0 <= v <= s) || (s <= v <= 0)
}

/// The absolute value of `v`.
pub open spec fn abs(v: int) -> int {
    if v < 0 {
        -v
    } else {
        v
    }
}

impl IVec2 {
    /// The vector with the given components.
    pub fn new(x: i32, y: i32) -> (r: IVec2)
        ensures
            r.x == x,
            r.y == y,
    {
        IVec2 { x, y }
    }

    /// Component `axis` (0 for `x`, 1 for `y`).
    pub open spec fn at(self, axis: int) -> i32 {
        if axis == 0 {
            self.x
        } else {
            self.y
        }
    }

    /// The vector with component `axis` replaced by `value`.
    pub open spec fn set(self, axis: int, value: i32) -> IVec2 {
        if axis == 0 {
            IVec2 { x: value, y: self.y }
        } else {
            IVec2 { x: self.x, y: value }
        }
    }

    /// The squared length, `x * x + y * y`, as a mathematical integer.
    pub open spec fn length_sq(self) -> int {
        self.x * self.x + self.y * self.y
    }

    /// The sum of the absolute values of the components.
    pub open spec fn manhattan(self) -> int {
        abs(self.x as int) + abs(self.y as int)
    }

    /// Component `axis` (0 for `x`, 1 for `y`).
    pub fn get(&self, axis: usize) -> (r: i32)
        requires
            axis < 2,
        ensures
            r == self.at(axis as int),
    {
        if axis == 0 {
            self.x
        } else {
            self.y
        }
    }

    /// The vector with component `axis` negated.
    pub fn flipped(&self, axis: usize) -> (r: IVec2)
        requires
            axis < 2,
            self.at(axis as int) != i32::MIN,
        ensures
            r == self.set(axis as int, (-self.at(axis as int)) as i32),
    {
        if axis == 0 {
            IVec2 { x: -self.x, y: self.y }
        } else {
            IVec2 { x: self.x, y: -self.y }
        }
    }

    /// Component-wise sum.
    pub fn add(&self, other: &IVec2) -> (r: IVec2)
        requires
            i32::MIN <= self.x + other.x <= i32::MAX,
            i32::MIN <= self.y + other.y <= i32::MAX,
        ensures
            r.x == self.x + other.x,
            r.y == self.y + other.y,
    {
        IVec2 { x: self.x + other.x, y: self.y + other.y }
    }

    /// Component-wise difference.
    pub fn sub(&self, other: &IVec2) -> (r: IVec2)
        requires
            i32::MIN <= self.x - other.x <= i32::MAX,
            i32::MIN <= self.y - other.y <= i32::MAX,
        ensures
            r.x == self.x - other.x,
            r.y == self.y - other.y,
    {
        IVec2 { x: self.x - other.x, y: self.y - other.y }
    }

    /// The squared length, `x * x + y * y`.
    pub fn length_squared(&self) -> (r: i32)
        requires
            self.x * self.x + self.y * self.y <= i32::MAX,
        ensures
            r == self.x * self.x + self.y * self.y,
    {
        proof {
            assert(0 <= self.x * self.x) by (nonlinear_arith);
            assert(0 <= self.y * self.y) by (nonlinear_arith);
        }
        self.x * self.x + self.y * self.y
    }

    /// The squared distance to `other`.
    pub fn distance_squared(&self, other: &IVec2) -> (r: i32)
        requires
            fits_i32(self.x - other.x),
            fits_i32(self.y - other.y),
            (self.x - other.x) * (self.x - other.x) + (self.y - other.y) * (self.y - other.y)
                <= i32::MAX,
        ensures
            r == (self.x - other.x) * (self.x - other.x) + (self.y - other.y) * (self.y - other.y),
    {
        let d = self.sub(other);
        d.length_squared()
    }
}

} // verus!
