//! Laws of the simulation, each proved against the model: fixed points of
//! the integrator, the closed-form trajectory under constant gravity,
//! boundary containment, the non-penetration reached by one pair
//! separation, and the symmetry and locality of pair separation.

use vstd::prelude::*;
use crate::fp::{iabs, tdiv, fmul_s, sqrt_s, lemma_div_nonneg, SCALE, POS_LIMIT, RADIUS_LIMIT};
use crate::vec2::{GVec, gv_zero, dist2, in_pos_range};
use crate::model::{
    BodyM, WorldM, valid_dt, body_wf, world_wf, integrate_body, constrain_body,
    spec_integrate, spec_constrain, colliding, spec_pairs, resolve_one, apply_pairs,
    spec_collide, spec_step,
    lemma_integrate_body_bounds, lemma_constrain_body_props, lemma_spec_pairs_trivial,
};

verus! {

/// The world after `n` repetitions of one step.
pub open spec fn iter_step(w: WorldM, dt: int, n: nat) -> WorldM
    decreases n,
{
    if n == 0 {
        w
    } else {
        spec_step(iter_step(w, dt, (n - 1) as nat), dt)
    }
}

/// A single body at rest, inside the boundary, under zero gravity, is a
/// fixed point of one step.
pub proof fn lemma_single_step_fixed(w: WorldM, dt: int)
    requires
        valid_dt(dt),
        w.gravity == gv_zero(),
        w.bodies.len() == 1,
        w.bodies[0].acc == gv_zero(),
        w.bodies[0].prev == w.bodies[0].pos,
        dist2(w.bodies[0].pos, w.center) <= w.boundary_radius * w.boundary_radius,
    ensures
        spec_step(w, dt) == w,
{
    let b = w.bodies[0];
    lemma_div_nonneg(0, SCALE as int);
    assert(fmul_s(0, dt) == 0);
    assert(fmul_s(fmul_s(0, dt), dt) == 0);
    assert(integrate_body(b, w.gravity, dt) == b);
    assert(spec_integrate(w, dt).bodies =~= w.bodies);
    assert(spec_integrate(w, dt) == w);
    assert(constrain_body(b, w.center, w.boundary_radius) == b);
    assert(spec_constrain(w).bodies =~= w.bodies);
    assert(spec_constrain(w) == w);
    lemma_spec_pairs_trivial(w.bodies);
    assert(apply_pairs(w.bodies, spec_pairs(w.bodies)) == w.bodies);
    assert(spec_collide(w) == w);
}

/// Integration stability: a single body with zero acceleration and zero
/// implicit velocity, resting inside the boundary with no gravity, stays
/// exactly where it is under any number of steps.
pub proof fn lemma_integration_stability(w: WorldM, dt: int, n: nat)
    requires
        valid_dt(dt),
        w.gravity == gv_zero(),
        w.bodies.len() == 1,
        w.bodies[0].acc == gv_zero(),
        w.bodies[0].prev == w.bodies[0].pos,
        dist2(w.bodies[0].pos, w.center) <= w.boundary_radius * w.boundary_radius,
    ensures
        iter_step(w, dt, n) == w,
    decreases n,
{
    if n > 0 {
        lemma_integration_stability(w, dt, (n - 1) as nat);
        lemma_single_step_fixed(w, dt);
    }
}

/// The `k`-th triangular number.
pub open spec fn tri(k: nat) -> int
    decreases k,
{
    if k == 0 {
        0
    } else {
        tri((k - 1) as nat) + k
    }
}

/// The per-step displacement contributed by gravity: `gravity * dt^2` in
/// fixed-point arithmetic.
pub open spec fn grav_term(w: WorldM, dt: int) -> GVec {
    GVec {
        x: fmul_s(fmul_s(w.gravity.x, dt), dt),
        y: fmul_s(fmul_s(w.gravity.y, dt), dt),
    }
}

/// The closed-form discrete Verlet trajectory of a body starting at rest:
/// after `k` steps it has moved `grav_term * tri(k)`.
pub open spec fn verlet_traj(w: WorldM, dt: int, k: nat) -> GVec {
    GVec {
        x: w.bodies[0].pos.x + grav_term(w, dt).x * tri(k),
        y: w.bodies[0].pos.y + grav_term(w, dt).y * tri(k),
    }
}

/// Gravity accumulation: a single body starting at rest falls exactly along
/// the closed-form discrete Verlet trajectory under constant gravity, for as
/// long as that trajectory stays inside the boundary.
pub proof fn lemma_gravity_accumulation(w: WorldM, dt: int, k: nat)
    requires
        valid_dt(dt),
        w.bodies.len() == 1,
        w.bodies[0].acc == gv_zero(),
        w.bodies[0].prev == w.bodies[0].pos,
        forall|j: nat| j <= k ==> dist2(#[trigger] verlet_traj(w, dt, j), w.center)
            <= w.boundary_radius * w.boundary_radius,
    ensures
        iter_step(w, dt, k).bodies.len() == 1,
        iter_step(w, dt, k).bodies[0].pos == verlet_traj(w, dt, k),
        iter_step(w, dt, k).bodies[0].prev
            == (if k == 0 { w.bodies[0].prev } else { verlet_traj(w, dt, (k - 1) as nat) }),
        iter_step(w, dt, k).bodies[0].acc == gv_zero(),
        iter_step(w, dt, k).center == w.center,
        iter_step(w, dt, k).boundary_radius == w.boundary_radius,
        iter_step(w, dt, k).gravity == w.gravity,
    decreases k,
{
    let ax = grav_term(w, dt).x;
    let ay = grav_term(w, dt).y;
    if k == 0 {
        assert(verlet_traj(w, dt, 0) == w.bodies[0].pos);
    } else {
        lemma_gravity_accumulation(w, dt, (k - 1) as nat);
        let wp = iter_step(w, dt, (k - 1) as nat);
        let b = wp.bodies[0];
        assert(iter_step(w, dt, k) == spec_step(wp, dt));
        let bi = integrate_body(b, wp.gravity, dt);
        assert(bi.pos.x == b.pos.x + (b.pos.x - b.prev.x) + ax);
        assert(bi.pos.y == b.pos.y + (b.pos.y - b.prev.y) + ay);
        if k == 1 {
            assert(tri(1) == 1);
            assert(ax * 1int == ax && ay * 1int == ay) by (nonlinear_arith) {}
            assert(ax * tri(0) == 0 && ay * tri(0) == 0) by (nonlinear_arith)
                requires tri(0) == 0,
            {}
            assert(bi.pos == verlet_traj(w, dt, 1));
        } else {
            let t0 = tri((k - 2) as nat);
            let t1 = tri((k - 1) as nat);
            let t2 = tri(k);
            assert(t1 == t0 + (k - 1));
            assert(t2 == t1 + k);
            assert(ax * t2 == ax * t1 + (ax * t1 - ax * t0) + ax) by (nonlinear_arith)
                requires t2 == 2 * t1 - t0 + 1,
            {}
            assert(ay * t2 == ay * t1 + (ay * t1 - ay * t0) + ay) by (nonlinear_arith)
                requires t2 == 2 * t1 - t0 + 1,
            {}
            assert(bi.pos == verlet_traj(w, dt, k));
        }
        assert(dist2(verlet_traj(w, dt, k), w.center)
            <= w.boundary_radius * w.boundary_radius);
        let bc = constrain_body(bi, wp.center, wp.boundary_radius);
        assert(bc == bi);
        let wc = spec_constrain(spec_integrate(wp, dt));
        assert(wc.bodies.len() == 1);
        assert(wc.bodies[0] == bc);
        lemma_spec_pairs_trivial(wc.bodies);
        assert(spec_step(wp, dt).bodies == wc.bodies);
    }
}

/// Boundary containment of the constraint phase: after integration and
/// projection, every body lies within one fixed-point unit of the boundary
/// circle.
pub proof fn lemma_constrain_phase_contained(w: WorldM, dt: int)
    requires
        world_wf(w),
        valid_dt(dt),
    ensures
        forall|i: int| 0 <= i < spec_constrain(spec_integrate(w, dt)).bodies.len()
            ==> dist2(#[trigger] spec_constrain(spec_integrate(w, dt)).bodies[i].pos, w.center)
                <= (w.boundary_radius + 1) * (w.boundary_radius + 1),
{
    let wi = spec_integrate(w, dt);
    let wc = spec_constrain(wi);
    assert forall|i: int| 0 <= i < wc.bodies.len() implies
        dist2(#[trigger] wc.bodies[i].pos, w.center)
            <= (w.boundary_radius + 1) * (w.boundary_radius + 1) by {
        assert(body_wf(w.bodies[i], w.body_radius));
        lemma_integrate_body_bounds(w.bodies[i], w.gravity, dt);
        assert(wi.bodies[i] == integrate_body(w.bodies[i], w.gravity, dt));
        lemma_constrain_body_props(wi.bodies[i], w.center, w.boundary_radius);
        assert(wc.bodies[i] == constrain_body(wi.bodies[i], w.center, w.boundary_radius));
        let br = w.boundary_radius;
        assert((br + 1) * (br + 1) == br * br + 2 * br + 1) by (nonlinear_arith) {}
    }
}

/// Boundary containment of a full step, on any step whose collision phase
/// finds no overlapping pair: every body ends within one fixed-point unit of
/// the boundary circle.  (A pair resolved at the rim can be pushed slightly
/// past it, so the collision phase is excluded by assumption, not by proof.)
pub proof fn lemma_boundary_containment(w: WorldM, dt: int)
    requires
        world_wf(w),
        valid_dt(dt),
        spec_pairs(spec_constrain(spec_integrate(w, dt)).bodies).len() == 0,
    ensures
        forall|i: int| 0 <= i < spec_step(w, dt).bodies.len()
            ==> dist2(#[trigger] spec_step(w, dt).bodies[i].pos, w.center)
                <= (w.boundary_radius + 1) * (w.boundary_radius + 1),
{
    let wc = spec_constrain(spec_integrate(w, dt));
    lemma_constrain_phase_contained(w, dt);
    assert(apply_pairs(wc.bodies, spec_pairs(wc.bodies)) == wc.bodies);
    assert(spec_step(w, dt).bodies == wc.bodies);
}

/// One axis of a pair separation: pushing both bodies apart by the halved
/// overlap stretches the axis delta to nearly its share of the touching
/// distance.
proof fn lemma_axis_push(dx: int, s: int, len: int, half: int, m: int)
    requires
        len >= 1,
        len < s,
        half >= 0,
        2 * half >= s - len - 1,
        m == tdiv(half * dx, len),
    ensures
        iabs(dx + 2 * m) * len >= iabs(dx) * (s - 1) - 2 * len,
{
    crate::fp::lemma_tdiv_abs(half * dx, len);
    crate::fp::lemma_tdiv_lower(half * dx, len);
    if dx >= 0 {
        assert(half * dx >= 0) by (nonlinear_arith)
            requires half >= 0, dx >= 0,
        {}
        assert(m >= 0);
        assert(m * len >= half * dx - len + 1) by (nonlinear_arith)
            requires
                iabs(m) * len >= iabs(half * dx) - len + 1,
                m >= 0,
                half * dx >= 0,
        {}
        assert((dx + 2 * m) * len == dx * len + 2 * (m * len)) by (nonlinear_arith) {}
        assert(2 * (half * dx) >= (s - len - 1) * dx) by (nonlinear_arith)
            requires 2 * half >= s - len - 1, dx >= 0,
        {}
        assert(dx * len + (s - len - 1) * dx == dx * (s - 1)) by (nonlinear_arith) {}
        assert((dx + 2 * m) * len >= dx * (s - 1) - 2 * len);
        assert(iabs(dx + 2 * m) * len >= iabs(dx) * (s - 1) - 2 * len);
    } else {
        assert(half * dx <= 0) by (nonlinear_arith)
            requires half >= 0, dx < 0,
        {}
        assert(m <= 0);
        assert((-m) * len >= (-(half * dx)) - len + 1) by (nonlinear_arith)
            requires
                iabs(m) * len >= iabs(half * dx) - len + 1,
                m <= 0,
                half * dx <= 0,
        {}
        assert((-(dx + 2 * m)) * len == (-dx) * len + 2 * ((-m) * len)) by (nonlinear_arith) {}
        assert(2 * (-(half * dx)) >= (s - len - 1) * (-dx)) by (nonlinear_arith)
            requires 2 * half >= s - len - 1, dx < 0,
        {}
        assert((-dx) * len + (s - len - 1) * (-dx) == (-dx) * (s - 1)) by (nonlinear_arith) {}
        assert((-(dx + 2 * m)) * len >= (-dx) * (s - 1) - 2 * len);
        assert(dx + 2 * m <= 0);
        assert(iabs(dx + 2 * m) * len >= iabs(dx) * (s - 1) - 2 * len);
    }
}

/// Collision non-penetration: one resolution pass on an overlapping pair
/// with distinct centres leaves the two bodies at least the sum of their
/// radii apart, less nine fixed-point units of rounding.
pub proof fn lemma_collision_non_penetration(bs: Seq<BodyM>, i: int, j: int)
    requires
        0 <= i < j < bs.len(),
        colliding(bs, i, j),
        dist2(bs[i].pos, bs[j].pos) > 0,
        0 <= bs[i].radius <= RADIUS_LIMIT as int,
        0 <= bs[j].radius <= RADIUS_LIMIT as int,
        bs[i].radius + bs[j].radius >= 9,
        iabs(bs[i].pos.x) <= POS_LIMIT as int - RADIUS_LIMIT as int,
        iabs(bs[i].pos.y) <= POS_LIMIT as int - RADIUS_LIMIT as int,
        iabs(bs[j].pos.x) <= POS_LIMIT as int - RADIUS_LIMIT as int,
        iabs(bs[j].pos.y) <= POS_LIMIT as int - RADIUS_LIMIT as int,
    ensures
        ({
            let s = bs[i].radius + bs[j].radius;
            dist2(resolve_one(bs, i, j)[i].pos, resolve_one(bs, i, j)[j].pos)
                >= (s - 9) * (s - 9)
        }),
{
    let a = bs[i];
    let b = bs[j];
    let dx = b.pos.x - a.pos.x;
    let dy = b.pos.y - a.pos.y;
    let d2 = dx * dx + dy * dy;
    let s = a.radius + b.radius;
    assert(dx * dx >= 0 && dy * dy >= 0) by (nonlinear_arith) {}
    assert(d2 == dist2(a.pos, b.pos)) by (nonlinear_arith)
        requires
            d2 == (b.pos.x - a.pos.x) * (b.pos.x - a.pos.x)
                + (b.pos.y - a.pos.y) * (b.pos.y - a.pos.y),
            dist2(a.pos, b.pos) == (a.pos.x - b.pos.x) * (a.pos.x - b.pos.x)
                + (a.pos.y - b.pos.y) * (a.pos.y - b.pos.y),
    {}
    assert(d2 >= 1 && d2 < s * s);
    crate::fp::lemma_sqrt_exists(d2);
    let len = sqrt_s(d2);
    assert(len >= 1) by (nonlinear_arith)
        requires d2 >= 1, d2 < (len + 1) * (len + 1), len >= 0,
    {}
    assert(len < s) by (nonlinear_arith)
        requires len * len <= d2, d2 < s * s, len >= 0, s >= 0,
    {}
    let half = crate::fp::tdiv(s - len, 2);
    crate::fp::lemma_tdiv_abs(s - len, 2);
    crate::fp::lemma_tdiv_lower(s - len, 2);
    assert(half >= 0 && 2 * half >= s - len - 1 && half <= s - len);
    let mx = crate::fp::tdiv(half * dx, len);
    let my = crate::fp::tdiv(half * dy, len);
    lemma_axis_push(dx, s, len, half, mx);
    lemma_axis_push(dy, s, len, half, my);
    assert(iabs(dx) <= len && iabs(dy) <= len) by (nonlinear_arith)
        requires
            dx * dx + dy * dy == d2, d2 < (len + 1) * (len + 1), len >= 0,
            dx * dx >= 0, dy * dy >= 0,
    {}
    crate::fp::lemma_tdiv_abs(half * dx, len);
    crate::fp::lemma_tdiv_abs(half * dy, len);
    assert(iabs(half * dx) <= half * len && iabs(half * dy) <= half * len) by (nonlinear_arith)
        requires iabs(dx) <= len, iabs(dy) <= len, half >= 0,
    {}
    assert(iabs(mx) <= half && iabs(my) <= half) by (nonlinear_arith)
        requires
            iabs(mx) * len <= iabs(half * dx),
            iabs(my) * len <= iabs(half * dy),
            iabs(half * dx) <= half * len,
            iabs(half * dy) <= half * len,
            len >= 1,
    {}
    let na = resolve_one(bs, i, j)[i];
    let nb = resolve_one(bs, i, j)[j];
    assert(in_pos_range(GVec { x: a.pos.x - mx, y: a.pos.y - my })
        && in_pos_range(GVec { x: b.pos.x + mx, y: b.pos.y + my }));
    assert(na.pos == (GVec { x: a.pos.x - mx, y: a.pos.y - my }));
    assert(nb.pos == (GVec { x: b.pos.x + mx, y: b.pos.y + my }));
    let u = iabs(dx + 2 * mx);
    let v = iabs(dy + 2 * my);
    assert(dist2(na.pos, nb.pos) == (na.pos.x - nb.pos.x) * (na.pos.x - nb.pos.x)
        + (na.pos.y - nb.pos.y) * (na.pos.y - nb.pos.y));
    assert(dist2(na.pos, nb.pos) == u * u + v * v) by (nonlinear_arith)
        requires
            nb.pos.x - na.pos.x == dx + 2 * mx,
            nb.pos.y - na.pos.y == dy + 2 * my,
            u == iabs(dx + 2 * mx),
            v == iabs(dy + 2 * my),
            dist2(na.pos, nb.pos) == (na.pos.x - nb.pos.x) * (na.pos.x - nb.pos.x)
                + (na.pos.y - nb.pos.y) * (na.pos.y - nb.pos.y),
    {}
    let uu = iabs(dx) * (s - 1);
    let vv = iabs(dy) * (s - 1);
    assert((u + 2) * len >= uu && (v + 2) * len >= vv) by (nonlinear_arith)
        requires
            u * len >= uu - 2 * len,
            v * len >= vv - 2 * len,
            len >= 1,
    {}
    assert(iabs(dx) * iabs(dx) + iabs(dy) * iabs(dy) == d2) by (nonlinear_arith)
        requires d2 == dx * dx + dy * dy,
    {}
    assert(uu * uu + vv * vv >= ((s - 1) * (s - 1)) * (len * len)) by (nonlinear_arith)
        requires
            uu == iabs(dx) * (s - 1),
            vv == iabs(dy) * (s - 1),
            iabs(dx) * iabs(dx) + iabs(dy) * iabs(dy) == d2,
            d2 >= len * len,
            s >= 1,
    {}
    assert(((u + 2) * (u + 2) + (v + 2) * (v + 2)) * (len * len) >= ((s - 1) * (s - 1)) * (len * len))
        by (nonlinear_arith)
        requires
            (u + 2) * len >= uu,
            (v + 2) * len >= vv,
            uu >= 0,
            vv >= 0,
            u >= 0,
            v >= 0,
            len >= 1,
            uu * uu + vv * vv >= ((s - 1) * (s - 1)) * (len * len),
    {}
    assert((u + 2) * (u + 2) + (v + 2) * (v + 2) >= (s - 1) * (s - 1)) by (nonlinear_arith)
        requires
            ((u + 2) * (u + 2) + (v + 2) * (v + 2)) * (len * len)
                >= ((s - 1) * (s - 1)) * (len * len),
            len >= 1,
    {}
    assert(u * u + v * v >= (s - 9) * (s - 9)) by (nonlinear_arith)
        requires
            (u + 2) * (u + 2) + (v + 2) * (v + 2) >= (s - 1) * (s - 1),
            u >= 0,
            v >= 0,
            s >= 9,
    {}
}

/// Separation symmetry: resolving one overlapping pair moves the two bodies
/// by exactly opposite displacements along the connecting axis, and moves
/// nobody else.
pub proof fn lemma_separation_symmetry(bs: Seq<BodyM>, i: int, j: int)
    requires
        0 <= i < j < bs.len(),
    ensures
        resolve_one(bs, i, j)[i].pos.x - bs[i].pos.x
            == -(resolve_one(bs, i, j)[j].pos.x - bs[j].pos.x),
        resolve_one(bs, i, j)[i].pos.y - bs[i].pos.y
            == -(resolve_one(bs, i, j)[j].pos.y - bs[j].pos.y),
        forall|k: int| 0 <= k < bs.len() && k != i && k != j
            ==> #[trigger] resolve_one(bs, i, j)[k] == bs[k],
{
}

/// Spawn order: spawning two bodies appends them in order, and the render
/// snapshot lists the first before the second.
pub proof fn lemma_spawn_order(w: WorldM, p1: GVec, p2: GVec)
    ensures
        crate::model::spec_spawn(crate::model::spec_spawn(w, p1), p2).bodies.len()
            == w.bodies.len() + 2,
        crate::model::spec_spawn(crate::model::spec_spawn(w, p1), p2)
            .bodies[w.bodies.len() as int].pos == p1,
        crate::model::spec_spawn(crate::model::spec_spawn(w, p1), p2)
            .bodies[w.bodies.len() as int + 1].pos == p2,
        forall|i: int| 0 <= i < w.bodies.len()
            ==> crate::model::spec_spawn(crate::model::spec_spawn(w, p1), p2).bodies[i]
                == #[trigger] w.bodies[i],
{
}

} // verus!
