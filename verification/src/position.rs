//! Block positions and the shell metric between them.

use vstd::prelude::*;

verus! {

/// A fixed-size cube of world space, named by its integer coordinates.
#[derive(Clone, Copy, Debug, PartialEq, Eq, Structural, Hash)]
pub struct BlockPosition {
    pub x: i32,
    pub y: i32,
    pub z: i32,
}

/// The distance between two coordinates on one axis.
pub open spec fn axis_gap(a: int, b: int) -> int {
    if a >= b {
        a - b
    } else {
        b - a
    }
}

/// The larger of two integers.
pub open spec fn larger(a: int, b: int) -> int {
    if a >= b {
        a
    } else {
        b
    }
}

fn gap(a: i32, b: i32) -> (d: i64)
    ensures
        d == axis_gap(a as int, b as int),
{
    if a >= b {
        a as i64 - b as i64
    } else {
        b as i64 - a as i64
    }
}

impl BlockPosition {
    /// The shell metric: the largest gap on any axis.
    pub open spec fn distance(self, other: BlockPosition) -> int {
        larger(
            axis_gap(self.x as int, other.x as int),
            larger(
                axis_gap(self.y as int, other.y as int),
                axis_gap(self.z as int, other.z as int),
            ),
        )
    }

    pub fn new(x: i32, y: i32, z: i32) -> (p: Self)
        ensures
            p.x == x,
            p.y == y,
            p.z == z,
    {
        BlockPosition { x, y, z }
    }

    /// The number of shells between `self` and `other`.
    pub fn radius_between(&self, other: &BlockPosition) -> (d: i64)
        ensures
            d == self.distance(*other),
    {
        let dx: i64 = gap(self.x, other.x);
        let dy: i64 = gap(self.y, other.y);
        let dz: i64 = gap(self.z, other.z);
        let m: i64 = if dy >= dz { dy } else { dz };
        if dx >= m {
            dx
        } else {
            m
        }
    }
}

/// The shell metric is symmetric, and zero exactly between a block and itself.
pub proof fn lemma_distance_metric(a: BlockPosition, b: BlockPosition)
    ensures
        a.distance(b) == b.distance(a),
        a.distance(b) >= 0,
        a.distance(b) == 0 <==> a == b,
{
}

} // verus!
