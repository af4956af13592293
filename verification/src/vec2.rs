//! Two-dimensional vectors in fixed-point world coordinates, together with
//! their mathematical image (`GVec`, unbounded integer coordinates) that the
//! contracts speak of.

use vstd::prelude::*;
use crate::fp::{iabs, POS_LIMIT};

verus! {

/// A vector in fixed-point world coordinates.
#[derive(Clone, Copy, PartialEq, Eq, Structural, Debug)]
pub struct Vec2 {
    pub x: i64,
    pub y: i64,
}

/// The mathematical image of a vector: unbounded integer coordinates.
pub struct GVec {
    pub x: int,
    pub y: int,
}

impl View for Vec2 {
    type V = GVec;

    open spec fn view(&self) -> GVec {
        GVec { x: self.x as int, y: self.y as int }
    }
}

impl Vec2 {
    /// Builds the vector with the given coordinates.
    pub fn new(x: i64, y: i64) -> (v: Vec2)
        ensures
            v@ == (GVec { x: x as int, y: y as int }),
    {
        Vec2 { x, y }
    }

    /// The origin.
    pub fn zero() -> (v: Vec2)
        ensures
            v@ == gv_zero(),
    {
        Vec2 { x: 0, y: 0 }
    }
}

pub open spec fn gv_zero() -> GVec {
    GVec { x: 0, y: 0 }
}

pub open spec fn gv_add(a: GVec, b: GVec) -> GVec {
    GVec { x: a.x + b.x, y: a.y + b.y }
}

pub open spec fn gv_sub(a: GVec, b: GVec) -> GVec {
    GVec { x: a.x - b.x, y: a.y - b.y }
}

pub open spec fn gv_neg(a: GVec) -> GVec {
    GVec { x: -a.x, y: -a.y }
}

/// Squared Euclidean distance between two points.
pub open spec fn dist2(a: GVec, b: GVec) -> int {
    (a.x - b.x) * (a.x - b.x) + (a.y - b.y) * (a.y - b.y)
}

/// Both coordinates lie within the storage bound of the simulation.
pub open spec fn in_pos_range(p: GVec) -> bool {
    iabs(p.x) <= POS_LIMIT as int && iabs(p.y) <= POS_LIMIT as int
}

/// Squared distance between two stored points whose coordinates are bounded
/// by a few world lengths, so that the squares fit in an `i64`.
pub fn dist_sq(a: Vec2, b: Vec2) -> (d: i64)
    requires
        iabs(a@.x) <= 0x1000_0000,
        iabs(a@.y) <= 0x1000_0000,
        iabs(b@.x) <= 0x1000_0000,
        iabs(b@.y) <= 0x1000_0000,
    ensures
        d as int == dist2(a@, b@),
        d >= 0,
{
    let dx: i64 = a.x - b.x;
    let dy: i64 = a.y - b.y;
    proof {
        assert((dx as int) * (dx as int) <= 0x2000_0000 * 0x2000_0000
            && (dx as int) * (dx as int) >= 0) by (nonlinear_arith)
            requires iabs(dx as int) <= 0x2000_0000,
        {}
        assert((dy as int) * (dy as int) <= 0x2000_0000 * 0x2000_0000
            && (dy as int) * (dy as int) >= 0) by (nonlinear_arith)
            requires iabs(dy as int) <= 0x2000_0000,
        {}
    }
    dx * dx + dy * dy
}

} // verus!
