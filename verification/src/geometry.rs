//! Shape templates: outlines generated once per shape kind, centred on the
//! origin, and shared by every body that uses the shape.  A body's world
//! outline is the template translated by its position.

use vstd::prelude::*;
use crate::fp::{iabs, tdiv, fmul_s, fmul, div_trunc, lemma_tdiv_abs, SCALE, RADIUS_LIMIT};
use crate::vec2::{Vec2, GVec};
use crate::SimError;

verus! {

/// An RGBA colour with 8-bit channels; purely cosmetic.
#[derive(Clone, Copy, PartialEq, Eq, Structural, Debug)]
pub struct Color {
    pub r: u8,
    pub g: u8,
    pub b: u8,
    pub a: u8,
}

/// Number of vertices on a circle outline.
pub const VERTICES_OF_A_CIRCLE: u16 = 6;

/// Fixed-point cosine of a sixth of a turn.
pub const COS_STEP: i64 = 32768;

/// Fixed-point sine of a sixth of a turn.
pub const SIN_STEP: i64 = 56756;

/// A closed outline: vertices relative to the pivot, and a colour.
pub struct Shape {
    pub vertices: Vec<Vec2>,
    pub color: Color,
    pub pivot_point: Vec2,
    pub rotation: i64,
}

/// One application of the fixed rotation by a sixth of a turn.
pub open spec fn rot_vertex(v: GVec) -> GVec {
    GVec {
        x: fmul_s(COS_STEP as int, v.x) - fmul_s(SIN_STEP as int, v.y),
        y: fmul_s(SIN_STEP as int, v.x) + fmul_s(COS_STEP as int, v.y),
    }
}

/// The `k`-th vertex of the circle outline: the point `(0, radius)` rotated
/// `k` times by a sixth of a turn.
pub open spec fn circle_vertex(radius: int, k: nat) -> GVec
    decreases k,
{
    if k == 0 {
        GVec { x: 0, y: radius }
    } else {
        rot_vertex(circle_vertex(radius, (k - 1) as nat))
    }
}

/// Multiplying by a fixed-point factor of magnitude at most one never grows
/// the magnitude.
proof fn lemma_fmul_contract(c: int, x: int)
    requires
        0 <= c <= SCALE as int,
    ensures
        iabs(fmul_s(c, x)) <= iabs(x),
{
    lemma_tdiv_abs(c * x, SCALE as int);
    assert(iabs(c * x) <= (SCALE as int) * iabs(x)) by (nonlinear_arith)
        requires 0 <= c <= SCALE as int,
    {}
}

/// Applies the fixed rotation to a stored vertex.
fn rotate_step(v: Vec2) -> (r: Vec2)
    requires
        iabs(v@.x) <= 0x400_0000,
        iabs(v@.y) <= 0x400_0000,
    ensures
        r@ == rot_vertex(v@),
        iabs(r@.x) <= iabs(v@.x) + iabs(v@.y),
        iabs(r@.y) <= iabs(v@.x) + iabs(v@.y),
{
    proof {
        lemma_fmul_contract(COS_STEP as int, v@.x);
        lemma_fmul_contract(SIN_STEP as int, v@.y);
        lemma_fmul_contract(SIN_STEP as int, v@.x);
        lemma_fmul_contract(COS_STEP as int, v@.y);
    }
    let cx = fmul(COS_STEP, v.x);
    let sy = fmul(SIN_STEP, v.y);
    let sx = fmul(SIN_STEP, v.x);
    let cy = fmul(COS_STEP, v.y);
    Vec2 { x: cx - sy, y: sx + cy }
}

/// Powers of two, for the coordinate growth bound of the rotation loop.
spec fn pow2(k: nat) -> int
    decreases k,
{
    if k == 0 {
        1
    } else {
        2 * pow2((k - 1) as nat)
    }
}

/// The circle template of the given radius: six vertices evenly spaced on
/// the circle, generated by repeated rotation of `(0, radius)`.
fn circle_points(radius: i64) -> (v: Vec<Vec2>)
    requires
        1 <= radius <= RADIUS_LIMIT,
    ensures
        v@.len() == VERTICES_OF_A_CIRCLE as int,
        forall|k: int| 0 <= k < v@.len() ==> (#[trigger] v@[k])@ == circle_vertex(radius as int, k as nat),
{
    let mut v: Vec<Vec2> = Vec::new();
    let mut cur = Vec2 { x: 0, y: radius };
    v.push(cur);
    let mut k: u16 = 1;
    while k < VERTICES_OF_A_CIRCLE
        invariant
            1 <= k <= VERTICES_OF_A_CIRCLE,
            1 <= radius <= RADIUS_LIMIT,
            v@.len() == k as int,
            cur@ == circle_vertex(radius as int, (k - 1) as nat),
            iabs(cur@.x) + iabs(cur@.y) <= (radius as int) * pow2((k - 1) as nat),
            forall|t: int| 0 <= t < k as int ==> (#[trigger] v@[t])@ == circle_vertex(radius as int, t as nat),
        decreases VERTICES_OF_A_CIRCLE as int - k as int,
    {
        proof {
            lemma_pow2_le((k - 1) as nat, 5);
            assert(pow2(5) == 32) by {
                reveal_with_fuel(pow2, 8);
            }
            assert((radius as int) * pow2((k - 1) as nat) <= (radius as int) * 32) by (nonlinear_arith)
                requires
                    radius >= 1,
                    pow2((k - 1) as nat) <= 32,
                    pow2((k - 1) as nat) >= 1,
            {}
        }
        let next = rotate_step(cur);
        proof {
            assert((radius as int) * pow2(k as nat) == 2 * ((radius as int) * pow2((k - 1) as nat)))
                by (nonlinear_arith)
                requires pow2(k as nat) == 2 * pow2((k - 1) as nat),
            {}
        }
        cur = next;
        v.push(cur);
        k = k + 1;
    }
    v
}

/// The sum of the coordinate magnitudes of a circle vertex grows at most by
/// doubling per rotation.
proof fn lemma_circle_vertex_sum(radius: int, k: nat)
    requires
        1 <= radius,
        k <= 5,
    ensures
        iabs(circle_vertex(radius, k).x) + iabs(circle_vertex(radius, k).y)
            <= radius * pow2(k),
    decreases k,
{
    if k == 0 {
        assert(radius * pow2(0) == radius) by (nonlinear_arith)
            requires pow2(0) == 1,
        {}
    } else {
        lemma_circle_vertex_sum(radius, (k - 1) as nat);
        let v = circle_vertex(radius, (k - 1) as nat);
        lemma_fmul_contract(COS_STEP as int, v.x);
        lemma_fmul_contract(SIN_STEP as int, v.y);
        lemma_fmul_contract(SIN_STEP as int, v.x);
        lemma_fmul_contract(COS_STEP as int, v.y);
        assert(radius * pow2(k) == 2 * (radius * pow2((k - 1) as nat))) by (nonlinear_arith)
            requires pow2(k) == 2 * pow2((k - 1) as nat),
        {}
    }
}

/// Every vertex of the circle template lies within a few dozen radii of the
/// origin.
pub proof fn lemma_circle_vertex_bound(radius: int, k: nat)
    requires
        1 <= radius,
        k <= 5,
    ensures
        iabs(circle_vertex(radius, k).x) <= 32 * radius,
        iabs(circle_vertex(radius, k).y) <= 32 * radius,
{
    lemma_circle_vertex_sum(radius, k);
    lemma_pow2_le(k, 5);
    assert(pow2(5) == 32) by {
        reveal_with_fuel(pow2, 8);
    }
    assert(radius * pow2(k) <= radius * 32) by (nonlinear_arith)
        requires radius >= 1, 1 <= pow2(k) <= 32,
    {}
    assert(iabs(circle_vertex(radius, k).x) >= 0);
    assert(iabs(circle_vertex(radius, k).y) >= 0);
}

/// The triangle-fan index pattern of one circle outline.
pub open spec fn fan_index(t: int) -> int {
    if t == 0 { 0 } else if t == 1 { 1 } else if t == 2 { 2 }
    else if t == 3 { 0 } else if t == 4 { 2 } else if t == 5 { 3 }
    else if t == 6 { 0 } else if t == 7 { 3 } else if t == 8 { 4 }
    else if t == 9 { 0 } else if t == 10 { 4 } else { 5 }
}

/// Monotonicity of `pow2`.
proof fn lemma_pow2_le(a: nat, b: nat)
    requires
        a <= b,
    ensures
        pow2(a) <= pow2(b),
        pow2(a) >= 1,
    decreases b,
{
    if b > 0 && a < b {
        lemma_pow2_le(a, (b - 1) as nat);
    } else if b > 0 {
        lemma_pow2_le((a - 1) as nat, (b - 1) as nat);
    }
}

impl Shape {
    /// Wraps an explicit point list unchanged.  An empty list is degenerate
    /// and rejected.
    pub fn polygon(vertices: Vec<Vec2>, color: Color) -> (r: Result<Shape, SimError>)
        ensures
            vertices@.len() == 0 <==> (r is Err && r->Err_0 == SimError::InvalidGeometry),
            vertices@.len() > 0 ==> r is Ok && r->Ok_0.vertices@ == vertices@
                && r->Ok_0.color == color,
    {
        if vertices.len() == 0 {
            Err(SimError::InvalidGeometry)
        } else {
            Ok(Shape { vertices, color, pivot_point: Vec2 { x: 0, y: 0 }, rotation: 0 })
        }
    }

    /// Six vertices evenly spaced on the circle of the given radius, centred
    /// on the origin.  A non-positive radius is degenerate and rejected.
    pub fn circle(radius: i64, color: Color) -> (r: Result<Shape, SimError>)
        requires
            radius <= RADIUS_LIMIT,
        ensures
            radius < 1 <==> (r is Err && r->Err_0 == SimError::InvalidGeometry),
            radius >= 1 ==> r is Ok && {
                let s = r->Ok_0;
                &&& s.color == color
                &&& s.vertices@.len() == VERTICES_OF_A_CIRCLE as int
                &&& forall|k: int| 0 <= k < s.vertices@.len()
                    ==> (#[trigger] s.vertices@[k])@ == circle_vertex(radius as int, k as nat)
            },
    {
        if radius < 1 {
            Err(SimError::InvalidGeometry)
        } else {
            Ok(Shape {
                vertices: circle_points(radius),
                color,
                pivot_point: Vec2 { x: 0, y: 0 },
                rotation: 0,
            })
        }
    }

    /// The four corner points of a centred axis-aligned rectangle.
    /// Non-positive side lengths are degenerate and rejected.
    pub fn rectangle(width: i64, height: i64, color: Color) -> (r: Result<Shape, SimError>)
        requires
            width <= RADIUS_LIMIT,
            height <= RADIUS_LIMIT,
        ensures
            (width < 1 || height < 1) <==> (r is Err && r->Err_0 == SimError::InvalidGeometry),
            width >= 1 && height >= 1 ==> r is Ok && {
                let s = r->Ok_0;
                let hw = tdiv(width as int, 2);
                let hh = tdiv(height as int, 2);
                &&& s.color == color
                &&& s.vertices@.len() == 4
                &&& s.vertices@[0]@ == (GVec { x: hh, y: -hw })
                &&& s.vertices@[1]@ == (GVec { x: -hh, y: -hw })
                &&& s.vertices@[2]@ == (GVec { x: -hh, y: hw })
                &&& s.vertices@[3]@ == (GVec { x: hh, y: hw })
            },
    {
        if width < 1 || height < 1 {
            Err(SimError::InvalidGeometry)
        } else {
            let hw = div_trunc(width, 2);
            let hh = div_trunc(height, 2);
            proof {
                lemma_tdiv_abs(width as int, 2);
                lemma_tdiv_abs(height as int, 2);
            }
            let mut vs: Vec<Vec2> = Vec::new();
            vs.push(Vec2 { x: hh, y: -hw });
            vs.push(Vec2 { x: -hh, y: -hw });
            vs.push(Vec2 { x: -hh, y: hw });
            vs.push(Vec2 { x: hh, y: hw });
            Ok(Shape { vertices: vs, color, pivot_point: Vec2 { x: 0, y: 0 }, rotation: 0 })
        }
    }
}

/// The triangle-fan index list of one circle outline.
pub fn circle_indices() -> (r: Vec<u16>)
    ensures
        r@ == seq![0u16, 1u16, 2u16, 0u16, 2u16, 3u16, 0u16, 3u16, 4u16, 0u16, 4u16, 5u16],
{
    let mut r: Vec<u16> = Vec::new();
    r.push(0); r.push(1); r.push(2);
    r.push(0); r.push(2); r.push(3);
    r.push(0); r.push(3); r.push(4);
    r.push(0); r.push(4); r.push(5);
    proof {
        assert(r@ =~= seq![0u16, 1u16, 2u16, 0u16, 2u16, 3u16, 0u16, 3u16, 4u16, 0u16, 4u16, 5u16]);
    }
    r
}

} // verus!
