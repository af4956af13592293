//! The mathematical model of the simulation.
//!
//! Every public operation of the world is specified as a function on this
//! model: integration, boundary projection, collision detection and pairwise
//! separation.  The executable code in `world` and `grid` is proved to
//! compute exactly these functions.

use vstd::prelude::*;
use crate::fp::{
    iabs, tdiv, fmul_s, sqrt_s, SCALE, DT_MAX, POS_LIMIT, RADIUS_LIMIT, GRAVITY_LIMIT,
    BOUNDARY_LIMIT,
};
use crate::vec2::{GVec, gv_zero, dist2, in_pos_range};
use crate::geometry::Color;

verus! {

/// Model of one body: current and previous position (the difference encodes
/// the velocity), accumulated acceleration, fixed radius and colour.
pub struct BodyM {
    pub pos: GVec,
    pub prev: GVec,
    pub acc: GVec,
    pub radius: int,
    pub color: Color,
}

/// Model of the world: the bodies, the circular boundary, gravity, and the
/// radius and colour given to newly spawned bodies.
pub struct WorldM {
    pub bodies: Seq<BodyM>,
    pub center: GVec,
    pub boundary_radius: int,
    pub gravity: GVec,
    pub body_radius: int,
    pub body_color: Color,
    pub width: int,
    pub height: int,
}

/// A time step the simulation accepts: positive and capped.
pub open spec fn valid_dt(dt: int) -> bool {
    0 < dt <= DT_MAX as int
}

/// Well-formedness of one body between steps.
pub open spec fn body_wf(b: BodyM, body_radius: int) -> bool {
    &&& in_pos_range(b.pos)
    &&& in_pos_range(b.prev)
    &&& b.acc == gv_zero()
    &&& b.radius == body_radius
}

/// Well-formedness of the world between steps.  The bounds are what keep
/// every arithmetic operation of a step inside `i64`.
pub open spec fn world_wf(w: WorldM) -> bool {
    &&& 1 <= w.boundary_radius <= BOUNDARY_LIMIT as int
    &&& iabs(w.center.x) <= BOUNDARY_LIMIT as int
    &&& iabs(w.center.y) <= BOUNDARY_LIMIT as int
    &&& iabs(w.gravity.x) <= GRAVITY_LIMIT as int
    &&& iabs(w.gravity.y) <= GRAVITY_LIMIT as int
    &&& 1 <= w.body_radius <= RADIUS_LIMIT as int
    &&& 1 <= w.width
    &&& 1 <= w.height
    &&& forall|i: int| 0 <= i < w.bodies.len() ==> body_wf(#[trigger] w.bodies[i], w.body_radius)
}

/// One Verlet integration step of a single body: accumulate gravity, move by
/// the implicit velocity plus `acceleration * dt^2`, remember the old
/// position, and clear the acceleration.
pub open spec fn integrate_body(b: BodyM, gravity: GVec, dt: int) -> BodyM {
    let ax = b.acc.x + gravity.x;
    let ay = b.acc.y + gravity.y;
    let sx = fmul_s(fmul_s(ax, dt), dt);
    let sy = fmul_s(fmul_s(ay, dt), dt);
    BodyM {
        pos: GVec {
            x: b.pos.x + (b.pos.x - b.prev.x) + sx,
            y: b.pos.y + (b.pos.y - b.prev.y) + sy,
        },
        prev: b.pos,
        acc: gv_zero(),
        radius: b.radius,
        color: b.color,
    }
}

/// Boundary projection of one body: a body whose distance from the centre
/// exceeds the boundary radius is placed back onto the boundary circle along
/// the centre-to-body direction.  A zero-length direction is left alone.
pub open spec fn constrain_body(b: BodyM, center: GVec, br: int) -> BodyM {
    let dx = b.pos.x - center.x;
    let dy = b.pos.y - center.y;
    let d2 = dx * dx + dy * dy;
    if d2 <= br * br {
        b
    } else {
        let len = sqrt_s(d2);
        if len <= 0 {
            b
        } else {
            BodyM {
                pos: GVec {
                    x: center.x + tdiv(br * dx, len),
                    y: center.y + tdiv(br * dy, len),
                },
                prev: b.prev,
                acc: b.acc,
                radius: b.radius,
                color: b.color,
            }
        }
    }
}

/// The integration phase applied to every body.
pub open spec fn spec_integrate(w: WorldM, dt: int) -> WorldM {
    WorldM { bodies: w.bodies.map(|i: int, b: BodyM| integrate_body(b, w.gravity, dt)), ..w }
}

/// The boundary phase applied to every body.
pub open spec fn spec_constrain(w: WorldM) -> WorldM {
    WorldM { bodies: w.bodies.map(|i: int, b: BodyM| constrain_body(b, w.center, w.boundary_radius)), ..w }
}

/// Two bodies collide when their centres are closer than the sum of their
/// radii.
pub open spec fn colliding(bs: Seq<BodyM>, i: int, j: int) -> bool {
    let s = bs[i].radius + bs[j].radius;
    dist2(bs[i].pos, bs[j].pos) < s * s
}

/// The colliding pairs `(i, k)` with `i < k < j`, in ascending `k`.
pub open spec fn row_pairs(bs: Seq<BodyM>, i: int, j: int) -> Seq<(int, int)>
    decreases j - i,
{
    if j <= i + 1 {
        Seq::empty()
    } else {
        row_pairs(bs, i, j - 1)
            + if colliding(bs, i, j - 1) { seq![(i, j - 1)] } else { Seq::empty() }
    }
}

/// The colliding pairs whose first index is below `i`, in lexicographic
/// order.
pub open spec fn pairs_upto(bs: Seq<BodyM>, i: int) -> Seq<(int, int)>
    decreases i,
{
    if i <= 0 {
        Seq::empty()
    } else {
        pairs_upto(bs, i - 1) + row_pairs(bs, i - 1, bs.len() as int)
    }
}

/// All colliding pairs `(i, j)` with `i < j`, in lexicographic order.
pub open spec fn spec_pairs(bs: Seq<BodyM>) -> Seq<(int, int)> {
    pairs_upto(bs, bs.len() as int)
}

/// Separation of one overlapping pair.  Both bodies move half the overlap
/// apart along the line connecting the centres; exactly coincident centres
/// separate along the fixed horizontal axis.  A move that would leave the
/// storage range of positions is skipped.
pub open spec fn resolve_one(bs: Seq<BodyM>, i: int, j: int) -> Seq<BodyM> {
    let a = bs[i];
    let b = bs[j];
    let dx = b.pos.x - a.pos.x;
    let dy = b.pos.y - a.pos.y;
    let d2 = dx * dx + dy * dy;
    let s = a.radius + b.radius;
    if d2 >= s * s {
        bs
    } else {
        let mx = if d2 == 0 { tdiv(s, 2) } else { tdiv(tdiv(s - sqrt_s(d2), 2) * dx, sqrt_s(d2)) };
        let my = if d2 == 0 { 0int } else { tdiv(tdiv(s - sqrt_s(d2), 2) * dy, sqrt_s(d2)) };
        let na = BodyM { pos: GVec { x: a.pos.x - mx, y: a.pos.y - my }, ..a };
        let nb = BodyM { pos: GVec { x: b.pos.x + mx, y: b.pos.y + my }, ..b };
        if in_pos_range(na.pos) && in_pos_range(nb.pos) {
            bs.update(i, na).update(j, nb)
        } else {
            bs
        }
    }
}

/// Sequential application of a list of pair separations.
pub open spec fn apply_pairs(bs: Seq<BodyM>, ps: Seq<(int, int)>) -> Seq<BodyM>
    decreases ps.len(),
{
    if ps.len() == 0 {
        bs
    } else {
        apply_pairs(resolve_one(bs, ps[0].0, ps[0].1), ps.drop_first())
    }
}

/// The collision phase: detect the overlapping pairs, then separate them in
/// lexicographic order.
pub open spec fn spec_collide(w: WorldM) -> WorldM {
    WorldM { bodies: apply_pairs(w.bodies, spec_pairs(w.bodies)), ..w }
}

/// One full step: integrate, confine to the boundary, resolve collisions.
pub open spec fn spec_step(w: WorldM, dt: int) -> WorldM {
    spec_collide(spec_constrain(spec_integrate(w, dt)))
}

/// A freshly spawned body: at rest at `p`, with the world's default radius
/// and colour.
pub open spec fn spawned_body(w: WorldM, p: GVec) -> BodyM {
    BodyM { pos: p, prev: p, acc: gv_zero(), radius: w.body_radius, color: w.body_color }
}

/// Spawning appends one body and changes nothing else.
pub open spec fn spec_spawn(w: WorldM, p: GVec) -> WorldM {
    WorldM { bodies: w.bodies.push(spawned_body(w, p)), ..w }
}

/// Integration moves a stored body by at most one step width: the result
/// stays within a few world lengths of the origin.
pub proof fn lemma_integrate_body_bounds(b: BodyM, gravity: GVec, dt: int)
    requires
        in_pos_range(b.pos),
        in_pos_range(b.prev),
        iabs(b.acc.x + gravity.x) <= 2 * GRAVITY_LIMIT as int,
        iabs(b.acc.y + gravity.y) <= 2 * GRAVITY_LIMIT as int,
        valid_dt(dt),
    ensures
        iabs(integrate_body(b, gravity, dt).pos.x) <= 0x400_0000,
        iabs(integrate_body(b, gravity, dt).pos.y) <= 0x400_0000,
        integrate_body(b, gravity, dt).prev == b.pos,
        integrate_body(b, gravity, dt).acc == gv_zero(),
        integrate_body(b, gravity, dt).radius == b.radius,
        integrate_body(b, gravity, dt).color == b.color,
{
    let ax = b.acc.x + gravity.x;
    let ay = b.acc.y + gravity.y;
    lemma_step_term_bound(ax, dt);
    lemma_step_term_bound(ay, dt);
}

/// The acceleration term `acc * dt^2` of one integration step is tiny.
pub proof fn lemma_step_term_bound(a: int, dt: int)
    requires
        iabs(a) <= 2 * GRAVITY_LIMIT as int,
        valid_dt(dt),
    ensures
        iabs(fmul_s(fmul_s(a, dt), dt)) <= 0x1_0000,
{
    let s1 = fmul_s(a, dt);
    crate::fp::lemma_tdiv_abs(a * dt, SCALE as int);
    assert(iabs(a * dt) <= 2097152 * 2184) by (nonlinear_arith)
        requires iabs(a) <= 2097152, 0 < dt <= 2184,
    {}
    assert(iabs(s1) <= 69888);
    crate::fp::lemma_tdiv_abs(s1 * dt, SCALE as int);
    assert(iabs(s1 * dt) <= 69888 * 2184) by (nonlinear_arith)
        requires iabs(s1) <= 69888, 0 < dt <= 2184,
    {}
}

/// Boundary projection touches only the position, keeps the body within the
/// storage range, and leaves it within one fixed-point unit of the boundary
/// circle.
pub proof fn lemma_constrain_body_props(b: BodyM, c: GVec, br: int)
    requires
        iabs(b.pos.x) <= 0x400_0000,
        iabs(b.pos.y) <= 0x400_0000,
        1 <= br <= BOUNDARY_LIMIT as int,
        iabs(c.x) <= BOUNDARY_LIMIT as int,
        iabs(c.y) <= BOUNDARY_LIMIT as int,
    ensures
        constrain_body(b, c, br).prev == b.prev,
        constrain_body(b, c, br).acc == b.acc,
        constrain_body(b, c, br).radius == b.radius,
        constrain_body(b, c, br).color == b.color,
        dist2(constrain_body(b, c, br).pos, c) <= br * br + 2 * br,
        in_pos_range(constrain_body(b, c, br).pos),
{
    let dx = b.pos.x - c.x;
    let dy = b.pos.y - c.y;
    let d2 = dx * dx + dy * dy;
    assert(dx * dx >= 0 && dy * dy >= 0) by (nonlinear_arith) {}
    if d2 <= br * br {
        assert(iabs(dx) <= br) by (nonlinear_arith)
            requires dx * dx <= br * br, br >= 0, dx * dx >= 0, dy * dy >= 0, dx * dx + dy * dy <= br * br,
        {}
        assert(iabs(dy) <= br) by (nonlinear_arith)
            requires dy * dy <= br * br, br >= 0, dy * dy >= 0, dx * dx >= 0, dx * dx + dy * dy <= br * br,
        {}
    } else {
        crate::fp::lemma_sqrt_exists(d2);
        let len = sqrt_s(d2);
        assert(len * len <= d2 < (len + 1) * (len + 1));
        assert(len >= br) by (nonlinear_arith)
            requires
                len >= 0, br >= 1, d2 > br * br, d2 < (len + 1) * (len + 1),
        {}
        assert(iabs(dx) <= len && iabs(dy) <= len) by (nonlinear_arith)
            requires
                dx * dx + dy * dy == d2, d2 < (len + 1) * (len + 1), len >= 0,
                dx * dx >= 0, dy * dy >= 0,
        {}
        let qx = tdiv(br * dx, len);
        let qy = tdiv(br * dy, len);
        crate::fp::lemma_tdiv_abs(br * dx, len);
        crate::fp::lemma_tdiv_abs(br * dy, len);
        assert(iabs(br * dx) <= br * len && iabs(br * dy) <= br * len) by (nonlinear_arith)
            requires iabs(dx) <= len, iabs(dy) <= len, br >= 1,
        {}
        assert(iabs(qx) <= br && iabs(qy) <= br) by (nonlinear_arith)
            requires
                iabs(qx) * len <= iabs(br * dx),
                iabs(qy) * len <= iabs(br * dy),
                iabs(br * dx) <= br * len,
                iabs(br * dy) <= br * len,
                len >= 1,
        {}
        assert(qx * qx * (len * len) <= (br * br) * (dx * dx)) by (nonlinear_arith)
            requires iabs(qx) * len <= iabs(br * dx), len >= 1,
        {}
        assert(qy * qy * (len * len) <= (br * br) * (dy * dy)) by (nonlinear_arith)
            requires iabs(qy) * len <= iabs(br * dy), len >= 1,
        {}
        let l2 = len * len;
        assert(qx * qx >= 0 && qy * qy >= 0 && l2 >= 1) by (nonlinear_arith)
            requires l2 == len * len, len >= 1,
        {}
        assert((qx * qx + qy * qy) * l2 <= (br * br) * d2) by (nonlinear_arith)
            requires
                qx * qx * l2 <= (br * br) * (dx * dx),
                qy * qy * l2 <= (br * br) * (dy * dy),
                d2 == dx * dx + dy * dy,
        {}
        assert(d2 <= l2 + 2 * len) by (nonlinear_arith)
            requires
                d2 < (len + 1) * (len + 1),
                l2 == len * len,
        {}
        assert((br * br) * d2 <= (br * br + 2 * br) * l2) by (nonlinear_arith)
            requires
                d2 <= l2 + 2 * len,
                1 <= br <= len,
                l2 == len * len,
        {}
        assert(qx * qx + qy * qy <= br * br + 2 * br) by (nonlinear_arith)
            requires
                (qx * qx + qy * qy) * l2 <= (br * br) * d2,
                (br * br) * d2 <= (br * br + 2 * br) * l2,
                l2 >= 1,
        {}
        assert(dist2(constrain_body(b, c, br).pos, c) == qx * qx + qy * qy);
    }
}

/// Separating one pair changes only the two positions, keeps them within the
/// storage range, and touches no other field.
pub proof fn lemma_resolve_one_props(bs: Seq<BodyM>, i: int, j: int)
    requires
        0 <= i < bs.len(),
        0 <= j < bs.len(),
        i != j,
    ensures
        resolve_one(bs, i, j).len() == bs.len(),
        forall|k: int| 0 <= k < bs.len() ==> {
            let r = #[trigger] resolve_one(bs, i, j)[k];
            &&& r.prev == bs[k].prev
            &&& r.acc == bs[k].acc
            &&& r.radius == bs[k].radius
            &&& r.color == bs[k].color
        },
        forall|k: int| 0 <= k < bs.len() && k != i && k != j
            ==> #[trigger] resolve_one(bs, i, j)[k] == bs[k],
        (forall|k: int| 0 <= k < bs.len() ==> in_pos_range(#[trigger] bs[k].pos))
            ==> (forall|k: int| 0 <= k < bs.len()
                ==> in_pos_range(#[trigger] resolve_one(bs, i, j)[k].pos)),
{
}

/// Sequential separation of a list of valid pairs preserves everything but
/// the positions, and keeps every position within the storage range.
pub proof fn lemma_apply_pairs_props(bs: Seq<BodyM>, ps: Seq<(int, int)>)
    requires
        forall|t: int| 0 <= t < ps.len()
            ==> 0 <= (#[trigger] ps[t]).0 < ps[t].1 < bs.len(),
        forall|k: int| 0 <= k < bs.len() ==> in_pos_range(#[trigger] bs[k].pos),
    ensures
        apply_pairs(bs, ps).len() == bs.len(),
        forall|k: int| 0 <= k < bs.len() ==> {
            let r = #[trigger] apply_pairs(bs, ps)[k];
            &&& r.prev == bs[k].prev
            &&& r.acc == bs[k].acc
            &&& r.radius == bs[k].radius
            &&& r.color == bs[k].color
            &&& in_pos_range(r.pos)
        },
    decreases ps.len(),
{
    if ps.len() > 0 {
        lemma_resolve_one_props(bs, ps[0].0, ps[0].1);
        let bs1 = resolve_one(bs, ps[0].0, ps[0].1);
        assert(forall|t: int| 0 <= t < ps.drop_first().len()
            ==> #[trigger] ps.drop_first()[t] == ps[t + 1]);
        lemma_apply_pairs_props(bs1, ps.drop_first());
    }
}

/// Splitting a pair list splits its sequential application.
pub proof fn lemma_apply_pairs_app(bs: Seq<BodyM>, s1: Seq<(int, int)>, s2: Seq<(int, int)>)
    ensures
        apply_pairs(bs, s1 + s2) == apply_pairs(apply_pairs(bs, s1), s2),
    decreases s1.len(),
{
    if s1.len() == 0 {
        assert(s1 + s2 =~= s2);
    } else {
        assert((s1 + s2)[0] == s1[0]);
        assert((s1 + s2).drop_first() =~= s1.drop_first() + s2);
        lemma_apply_pairs_app(resolve_one(bs, s1[0].0, s1[0].1), s1.drop_first(), s2);
    }
}

/// The pairs of one row: first index fixed, second index ascending, exactly
/// the colliding partners.
pub proof fn lemma_row_pairs_props(bs: Seq<BodyM>, i: int, j: int)
    requires
        0 <= i,
        i < j <= bs.len(),
    ensures
        forall|t: int| 0 <= t < row_pairs(bs, i, j).len()
            ==> (#[trigger] row_pairs(bs, i, j)[t]).0 == i
                && i < row_pairs(bs, i, j)[t].1 < j,
        forall|b: int| #![trigger colliding(bs, i, b)]
            i < b < j ==> (row_pairs(bs, i, j).contains((i, b)) <==> colliding(bs, i, b)),
        forall|t1: int, t2: int| 0 <= t1 < t2 < row_pairs(bs, i, j).len()
            ==> (#[trigger] row_pairs(bs, i, j)[t1]).1 < (#[trigger] row_pairs(bs, i, j)[t2]).1,
    decreases j - i,
{
    if j > i + 1 {
        lemma_row_pairs_props(bs, i, j - 1);
        let prev_row = row_pairs(bs, i, j - 1);
        let row = row_pairs(bs, i, j);
        assert forall|b: int| i < b < j implies
            (row.contains((i, b)) <==> colliding(bs, i, b)) by {
            if b < j - 1 {
                if colliding(bs, i, b) {
                    let t = choose|t: int| 0 <= t < prev_row.len() && prev_row[t] == (i, b);
                    assert(row[t] == (i, b));
                }
                if row.contains((i, b)) {
                    let t = choose|t: int| 0 <= t < row.len() && row[t] == (i, b);
                    assert(prev_row[t] == (i, b));
                }
            } else {
                if colliding(bs, i, b) {
                    assert(row[row.len() - 1] == (i, j - 1));
                }
                if row.contains((i, b)) {
                    let t = choose|t: int| 0 <= t < row.len() && row[t] == (i, b);
                    if t < prev_row.len() {
                        assert(prev_row[t] == (i, b));
                        assert(false);
                    }
                }
            }
        }
    }
}

/// The pair list below `i`: valid indices, lexicographic order, and
/// membership exactly on the colliding pairs.
pub proof fn lemma_pairs_upto_props(bs: Seq<BodyM>, i: int)
    requires
        0 <= i <= bs.len(),
    ensures
        forall|t: int| 0 <= t < pairs_upto(bs, i).len()
            ==> 0 <= (#[trigger] pairs_upto(bs, i)[t]).0 < i
                && pairs_upto(bs, i)[t].0 < pairs_upto(bs, i)[t].1 < bs.len(),
        forall|a: int, b: int| #![trigger colliding(bs, a, b)]
            0 <= a < i && a < b < bs.len()
            ==> (pairs_upto(bs, i).contains((a, b)) <==> colliding(bs, a, b)),
        forall|t1: int, t2: int| 0 <= t1 < t2 < pairs_upto(bs, i).len()
            ==> pair_lt(#[trigger] pairs_upto(bs, i)[t1], #[trigger] pairs_upto(bs, i)[t2]),
    decreases i,
{
    let n = bs.len() as int;
    if i > 0 {
        lemma_pairs_upto_props(bs, i - 1);
        if i - 1 < n {
            lemma_row_pairs_props(bs, i - 1, n);
        }
        let below = pairs_upto(bs, i - 1);
        let row = if i - 1 < n { row_pairs(bs, i - 1, n) } else { Seq::empty() };
        let all = pairs_upto(bs, i);
        assert(all == below + row);
        assert forall|a: int, b: int| #![trigger colliding(bs, a, b)]
            0 <= a < i && a < b < n implies
            (all.contains((a, b)) <==> colliding(bs, a, b)) by {
            if a < i - 1 {
                if colliding(bs, a, b) {
                    let t = choose|t: int| 0 <= t < below.len() && below[t] == (a, b);
                    assert(all[t] == (a, b));
                }
                if all.contains((a, b)) {
                    let t = choose|t: int| 0 <= t < all.len() && all[t] == (a, b);
                    if t >= below.len() {
                        assert(row[t - below.len()] == (a, b));
                        assert(false);
                    }
                    assert(below[t] == (a, b));
                }
            } else {
                if colliding(bs, a, b) {
                    assert(row.contains((a, b)));
                    let t = choose|t: int| 0 <= t < row.len() && row[t] == (a, b);
                    assert(all[below.len() + t] == (a, b));
                }
                if all.contains((a, b)) {
                    let t = choose|t: int| 0 <= t < all.len() && all[t] == (a, b);
                    if t < below.len() {
                        assert(below[t] == (a, b));
                        assert(false);
                    }
                    assert(row[t - below.len()] == (a, b));
                    assert(row.contains((a, b)));
                }
            }
        }
    }
}

/// Strict lexicographic order on index pairs.
pub open spec fn pair_lt(p: (int, int), q: (int, int)) -> bool {
    p.0 < q.0 || (p.0 == q.0 && p.1 < q.1)
}

/// Membership in the full pair list: exactly the colliding pairs `(a, b)`
/// with `a < b`.
pub proof fn lemma_spec_pairs_membership(bs: Seq<BodyM>)
    ensures
        forall|a: int, b: int| #![trigger colliding(bs, a, b)]
            0 <= a < b < bs.len()
            ==> (spec_pairs(bs).contains((a, b)) <==> colliding(bs, a, b)),
        forall|t: int| 0 <= t < spec_pairs(bs).len()
            ==> 0 <= (#[trigger] spec_pairs(bs)[t]).0 < spec_pairs(bs)[t].1 < bs.len(),
        forall|t1: int, t2: int| 0 <= t1 < t2 < spec_pairs(bs).len()
            ==> pair_lt(#[trigger] spec_pairs(bs)[t1], #[trigger] spec_pairs(bs)[t2]),
{
    lemma_pairs_upto_props(bs, bs.len() as int);
}

/// Two strictly sorted pair lists with the same members are equal.
pub proof fn lemma_sorted_unique(s1: Seq<(int, int)>, s2: Seq<(int, int)>)
    requires
        forall|t1: int, t2: int| 0 <= t1 < t2 < s1.len() ==> pair_lt(#[trigger] s1[t1], #[trigger] s1[t2]),
        forall|t1: int, t2: int| 0 <= t1 < t2 < s2.len() ==> pair_lt(#[trigger] s2[t1], #[trigger] s2[t2]),
        forall|p: (int, int)| s1.contains(p) <==> s2.contains(p),
    ensures
        s1 == s2,
    decreases s1.len(),
{
    if s1.len() == 0 {
        if s2.len() > 0 {
            assert(s2.contains(s2[0]));
            assert(s1.contains(s2[0]));
            assert(false);
        }
        assert(s1 =~= s2);
    } else {
        assert(s1.contains(s1[0]));
        assert(s2.contains(s1[0]));
        assert(s2.len() > 0);
        let t2 = choose|t: int| 0 <= t < s2.len() && s2[t] == s1[0];
        assert(s1.contains(s2[0]));
        let t1 = choose|t: int| 0 <= t < s1.len() && s1[t] == s2[0];
        if s1[0] != s2[0] {
            assert(t2 > 0 && t1 > 0);
            assert(pair_lt(s2[0], s2[t2]));
            assert(pair_lt(s1[0], s1[t1]));
            assert(false);
        }
        let tail1 = s1.drop_first();
        let tail2 = s2.drop_first();
        assert(forall|t: int| 0 <= t < tail1.len() ==> #[trigger] tail1[t] == s1[t + 1]);
        assert(forall|t: int| 0 <= t < tail2.len() ==> #[trigger] tail2[t] == s2[t + 1]);
        assert forall|p: (int, int)| tail1.contains(p) <==> tail2.contains(p) by {
            if tail1.contains(p) {
                let t = choose|t: int| 0 <= t < tail1.len() && tail1[t] == p;
                assert(s1[t + 1] == p);
                assert(pair_lt(s1[0], p));
                assert(s2.contains(p));
                let u = choose|u: int| 0 <= u < s2.len() && s2[u] == p;
                assert(u > 0);
                assert(tail2[u - 1] == p);
            }
            if tail2.contains(p) {
                let t = choose|t: int| 0 <= t < tail2.len() && tail2[t] == p;
                assert(s2[t + 1] == p);
                assert(pair_lt(s2[0], p));
                assert(s1.contains(p));
                let u = choose|u: int| 0 <= u < s1.len() && s1[u] == p;
                assert(u > 0);
                assert(tail1[u - 1] == p);
            }
        }
        lemma_sorted_unique(tail1, tail2);
        assert(s1.len() == s2.len());
        assert forall|t: int| 0 <= t < s1.len() implies s1[t] == s2[t] by {
            if t > 0 {
                assert(tail1[t - 1] == s1[t]);
                assert(tail2[t - 1] == s2[t]);
            }
        }
        assert(s1 =~= s2);
    }
}

/// A strictly sorted list of exactly the colliding pairs is the canonical
/// pair list.
pub proof fn lemma_sorted_pairs_canonical(s: Seq<(int, int)>, bs: Seq<BodyM>)
    requires
        forall|t1: int, t2: int| 0 <= t1 < t2 < s.len() ==> pair_lt(#[trigger] s[t1], #[trigger] s[t2]),
        forall|t: int| 0 <= t < s.len() ==> 0 <= (#[trigger] s[t]).0 < s[t].1 < bs.len(),
        forall|a: int, b: int| #![trigger colliding(bs, a, b)]
            0 <= a < b < bs.len() ==> (s.contains((a, b)) <==> colliding(bs, a, b)),
    ensures
        s == spec_pairs(bs),
{
    lemma_spec_pairs_membership(bs);
    assert forall|p: (int, int)| s.contains(p) <==> spec_pairs(bs).contains(p) by {
        if s.contains(p) {
            let t = choose|t: int| 0 <= t < s.len() && s[t] == p;
            assert(0 <= p.0 < p.1 < bs.len());
            assert(colliding(bs, p.0, p.1));
        }
        if spec_pairs(bs).contains(p) {
            let t = choose|t: int| 0 <= t < spec_pairs(bs).len() && spec_pairs(bs)[t] == p;
            assert(0 <= p.0 < p.1 < bs.len());
            assert(colliding(bs, p.0, p.1));
        }
    }
    lemma_sorted_unique(s, spec_pairs(bs));
}

/// A world with at most one body has no colliding pairs.
pub proof fn lemma_spec_pairs_trivial(bs: Seq<BodyM>)
    requires
        bs.len() <= 1,
    ensures
        spec_pairs(bs) == Seq::<(int, int)>::empty(),
{
    lemma_spec_pairs_membership(bs);
    if spec_pairs(bs).len() > 0 {
        assert(0 <= spec_pairs(bs)[0].0 < spec_pairs(bs)[0].1 < bs.len());
        assert(false);
    }
    assert(spec_pairs(bs) =~= Seq::<(int, int)>::empty());
}

} // verus!
