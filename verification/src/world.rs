//! The simulation world: the body collection, the circular boundary and
//! gravity.  `update` runs one step of the pipeline — integrate, confine to
//! the boundary, resolve collisions — and is proved to compute exactly
//! `spec_step` of the model.

use vstd::prelude::*;
use crate::fp::{
    iabs, tdiv, is_sqrt, fmul, div_trunc, isqrt, lemma_tdiv_abs,
    SCALE, DT_MAX, POS_LIMIT, RADIUS_LIMIT, GRAVITY_LIMIT, BOUNDARY_LIMIT,
};
use crate::vec2::{Vec2, GVec, gv_add, gv_zero, dist2, in_pos_range, dist_sq};
use crate::geometry::{Shape, Color, circle_vertex, fan_index, VERTICES_OF_A_CIRCLE};
use crate::model::{
    BodyM, WorldM, valid_dt, body_wf, world_wf, integrate_body, constrain_body,
    spec_integrate, spec_constrain, colliding, spec_pairs, resolve_one, apply_pairs,
    spec_collide, spec_step, spec_spawn, pair_lt,
    lemma_integrate_body_bounds, lemma_constrain_body_props,
    lemma_apply_pairs_props, lemma_apply_pairs_app, lemma_spec_pairs_membership,
};
use crate::SimError;

verus! {

/// The mathematical image of an executable pair list.
pub open spec fn pairs_view(s: Seq<(usize, usize)>) -> Seq<(int, int)> {
    s.map_values(|p: (usize, usize)| (p.0 as int, p.1 as int))
}

/// Pushing an element onto a sequence adds it to the members and keeps the
/// rest.
proof fn lemma_contains_push<T>(s: Seq<T>, x: T)
    ensures
        forall|y: T| #[trigger] s.push(x).contains(y) <==> s.contains(y) || y == x,
{
    assert forall|y: T| #[trigger] s.push(x).contains(y) implies s.contains(y) || y == x by {
        let u = choose|u: int| 0 <= u < s.push(x).len() && s.push(x)[u] == y;
        if u < s.len() {
            assert(s[u] == y);
        }
    }
    assert forall|y: T| s.contains(y) || y == x implies #[trigger] s.push(x).contains(y) by {
        if s.contains(y) {
            let u = choose|u: int| 0 <= u < s.len() && s[u] == y;
            assert(s.push(x)[u] == y);
        } else {
            assert(s.push(x)[s.len() as int] == y);
        }
    }
}

/// Inserting an element into a sequence adds it to the members and keeps the
/// rest.
proof fn lemma_contains_insert<T>(s: Seq<T>, i: int, x: T)
    requires
        0 <= i <= s.len(),
    ensures
        forall|y: T| #[trigger] s.insert(i, x).contains(y) <==> s.contains(y) || y == x,
{
    assert forall|y: T| #[trigger] s.insert(i, x).contains(y) implies s.contains(y) || y == x by {
        let u = choose|u: int| 0 <= u < s.insert(i, x).len() && s.insert(i, x)[u] == y;
        if u < i {
            assert(s[u] == y);
        } else if u > i {
            assert(s[u - 1] == y);
        }
    }
    assert forall|y: T| s.contains(y) || y == x implies #[trigger] s.insert(i, x).contains(y) by {
        if s.contains(y) {
            let u = choose|u: int| 0 <= u < s.len() && s[u] == y;
            if u < i {
                assert(s.insert(i, x)[u] == y);
            } else {
                assert(s.insert(i, x)[u + 1] == y);
            }
        } else {
            assert(s.insert(i, x)[i] == y);
        }
    }
}

/// A stable handle for one body within a frame.
#[derive(Clone, Copy, PartialEq, Eq, Structural, Debug)]
pub struct CitizenId(pub usize);

/// The physical and visual state of one particle.
#[derive(Clone, Copy, PartialEq, Eq, Structural, Debug)]
pub struct Body {
    pub position: Vec2,
    pub previous_position: Vec2,
    pub acceleration: Vec2,
    pub radius: i64,
    pub color: Color,
}

impl View for Body {
    type V = BodyM;

    open spec fn view(&self) -> BodyM {
        BodyM {
            pos: self.position@,
            prev: self.previous_position@,
            acc: self.acceleration@,
            radius: self.radius as int,
            color: self.color,
        }
    }
}

/// The world: bodies, boundary, gravity, and the defaults for spawned
/// bodies.
pub struct World {
    citizens: Vec<Body>,
    boundary_center: Vec2,
    boundary_radius: i64,
    gravity: Vec2,
    body_radius: i64,
    default_shape: Shape,
    width: u32,
    height: u32,
}

impl View for World {
    type V = WorldM;

    closed spec fn view(&self) -> WorldM {
        WorldM {
            bodies: self.citizens@.map_values(|b: Body| b@),
            center: self.boundary_center@,
            boundary_radius: self.boundary_radius as int,
            gravity: self.gravity@,
            body_radius: self.body_radius as int,
            body_color: self.default_shape.color,
            width: self.width as int,
            height: self.height as int,
        }
    }
}

impl World {
    /// The world is well formed: its model is, and the stored outline
    /// template is the circle of the default body radius.
    pub closed spec fn wf(&self) -> bool {
        &&& world_wf(self@)
        &&& self.default_shape.vertices@.len() == VERTICES_OF_A_CIRCLE as int
        &&& forall|k: int| 0 <= k < self.default_shape.vertices@.len()
            ==> (#[trigger] self.default_shape.vertices@[k])@
                == circle_vertex(self.body_radius as int, k as nat)
    }

    /// A well-formed world has a well-formed model.
    pub proof fn lemma_wf_model(&self)
        requires
            self.wf(),
        ensures
            world_wf(self@),
    {
    }

    /// Builds a world with the given boundary, gravity and body defaults.
    /// Degenerate extents are rejected before any state exists.
    pub fn with_config(
        boundary_center: Vec2,
        boundary_radius: i64,
        gravity: Vec2,
        body_radius: i64,
        body_color: Color,
        width: u32,
        height: u32,
    ) -> (r: Result<World, SimError>)
        requires
            iabs(boundary_center@.x) <= BOUNDARY_LIMIT as int,
            iabs(boundary_center@.y) <= BOUNDARY_LIMIT as int,
            boundary_radius <= BOUNDARY_LIMIT,
            iabs(gravity@.x) <= GRAVITY_LIMIT as int,
            iabs(gravity@.y) <= GRAVITY_LIMIT as int,
            body_radius <= RADIUS_LIMIT,
        ensures
            (boundary_radius < 1 || body_radius < 1 || width < 1 || height < 1)
                <==> (r is Err && r->Err_0 == SimError::InvalidGeometry),
            (boundary_radius >= 1 && body_radius >= 1 && width >= 1 && height >= 1)
                ==> r is Ok,
            r is Ok ==> {
                let w = r->Ok_0;
                &&& w.wf()
                &&& w@.bodies.len() == 0
                &&& w@.center == boundary_center@
                &&& w@.boundary_radius == boundary_radius as int
                &&& w@.gravity == gravity@
                &&& w@.body_radius == body_radius as int
                &&& w@.body_color == body_color
                &&& w@.width == width as int
                &&& w@.height == height as int
            },
    {
        if boundary_radius < 1 || body_radius < 1 || width < 1 || height < 1 {
            return Err(SimError::InvalidGeometry);
        }
        let shape = match Shape::circle(body_radius, body_color) {
            Ok(s) => s,
            Err(_) => vstd::pervasive::unreached(),
        };
        let w = World {
            citizens: Vec::with_capacity(32000),
            boundary_center,
            boundary_radius,
            gravity,
            body_radius,
            default_shape: shape,
            width,
            height,
        };
        proof {
            assert(w@.bodies =~= Seq::<BodyM>::empty());
        }
        Ok(w)
    }

    /// The default world of the simulation: a unit-scale boundary of radius
    /// nine tenths centred on the origin, downward gravity of half a unit,
    /// red bodies of radius a fiftieth of a unit, on a thousand-pixel
    /// square viewport.
    pub fn new() -> (w: World)
        ensures
            w.wf(),
            w@.bodies.len() == 0,
            w@.center == gv_zero(),
            w@.boundary_radius == 58982,
            w@.gravity == (GVec { x: 0, y: -32768 }),
            w@.body_radius == 1310,
            w@.body_color == (Color { r: 255, g: 0, b: 0, a: 255 }),
            w@.width == 1000,
            w@.height == 1000,
    {
        let r = World::with_config(
            Vec2 { x: 0, y: 0 },
            58982,
            Vec2 { x: 0, y: -32768 },
            1310,
            Color { r: 255, g: 0, b: 0, a: 255 },
            1000,
            1000,
        );
        match r {
            Ok(w) => w,
            Err(_) => vstd::pervasive::unreached(),
        }
    }

    /// Appends a body at rest at `position`, with the world's default radius
    /// and colour.  Everything else is unchanged.
    pub fn add_obj_at(&mut self, position: Vec2)
        requires
            old(self).wf(),
            iabs(position@.x) <= POS_LIMIT as int,
            iabs(position@.y) <= POS_LIMIT as int,
        ensures
            final(self).wf(),
            final(self)@ == spec_spawn(old(self)@, position@),
    {
        let b = Body {
            position,
            previous_position: position,
            acceleration: Vec2 { x: 0, y: 0 },
            radius: self.body_radius,
            color: self.default_shape.color,
        };
        self.citizens.push(b);
        proof {
            assert(self@.bodies =~= spec_spawn(old(self)@, position@).bodies);
            assert(self@ == spec_spawn(old(self)@, position@));
            assert(forall|i: int| 0 <= i < old(self)@.bodies.len()
                ==> self@.bodies[i] == old(self)@.bodies[i]);
        }
    }

    /// The number of bodies in the world.
    pub fn citizens_number(&self) -> (n: usize)
        ensures
            n as int == self@.bodies.len(),
    {
        self.citizens.len()
    }

    /// The current position of the body at `i`.
    pub fn body_position(&self, i: usize) -> (p: Vec2)
        requires
            i < self@.bodies.len(),
        ensures
            p@ == self@.bodies[i as int].pos,
    {
        self.citizens[i].position
    }

    /// The position one step ago of the body at `i`.
    pub fn body_previous_position(&self, i: usize) -> (p: Vec2)
        requires
            i < self@.bodies.len(),
        ensures
            p@ == self@.bodies[i as int].prev,
    {
        self.citizens[i].previous_position
    }

    /// The fixed radius of the body at `i`.
    pub fn body_radius_of(&self, i: usize) -> (r: i64)
        requires
            i < self@.bodies.len(),
        ensures
            r as int == self@.bodies[i as int].radius,
    {
        self.citizens[i].radius
    }

    /// The boundary radius of the world.
    pub fn boundary_radius(&self) -> (r: i64)
        ensures
            r as int == self@.boundary_radius,
    {
        self.boundary_radius
    }

    /// The centre of the circular boundary.
    pub fn boundary_center(&self) -> (c: Vec2)
        ensures
            c@ == self@.center,
    {
        self.boundary_center
    }

    /// The integration phase: one Verlet step of every body.
    fn integrate_bodies(&mut self, dt: i64)
        requires
            old(self).wf(),
            0 < dt <= DT_MAX,
        ensures
            final(self)@ == spec_integrate(old(self)@, dt as int),
            forall|k: int| 0 <= k < final(self)@.bodies.len() ==> {
                let b = #[trigger] final(self)@.bodies[k];
                iabs(b.pos.x) <= 0x400_0000 && iabs(b.pos.y) <= 0x400_0000
            },
            final(self).default_shape == old(self).default_shape,
            final(self).body_radius == old(self).body_radius,
    {
        let ghost w0 = self@;
        let n = self.citizens.len();
        let mut i: usize = 0;
        while i < n
            invariant
                old(self).wf(),
                0 < dt <= DT_MAX,
                n == w0.bodies.len(),
                i <= n,
                w0 == old(self)@,
                self.citizens@.len() == n,
                self.boundary_center == old(self).boundary_center,
                self.boundary_radius == old(self).boundary_radius,
                self.gravity == old(self).gravity,
                self.body_radius == old(self).body_radius,
                self.default_shape == old(self).default_shape,
                self.width == old(self).width,
                self.height == old(self).height,
                forall|k: int| i as int <= k < n ==> #[trigger] self.citizens@[k]
                    == old(self).citizens@[k],
                forall|k: int| 0 <= k < i as int ==> (#[trigger] self.citizens@[k])@
                    == integrate_body(w0.bodies[k], w0.gravity, dt as int),
                forall|k: int| 0 <= k < i as int ==> {
                    let b = (#[trigger] self.citizens@[k])@;
                    iabs(b.pos.x) <= 0x400_0000 && iabs(b.pos.y) <= 0x400_0000
                },
            decreases n - i,
        {
            let b = self.citizens[i];
            proof {
                assert(w0.bodies[i as int] == b@);
                assert(body_wf(w0.bodies[i as int], w0.body_radius));
                lemma_integrate_body_bounds(b@, w0.gravity, dt as int);
            }
            let ax = b.acceleration.x + self.gravity.x;
            let ay = b.acceleration.y + self.gravity.y;
            let s1x = fmul(ax, dt);
            let s1y = fmul(ay, dt);
            proof {
                crate::model::lemma_step_term_bound(ax as int, dt as int);
                lemma_tdiv_abs(ax as int * dt as int, SCALE as int);
                lemma_tdiv_abs(ay as int * dt as int, SCALE as int);
                assert(iabs(ax as int * dt as int) <= 2097152 * 2184) by (nonlinear_arith)
                    requires iabs(ax as int) <= 2097152, 0 < dt as int <= 2184,
                {}
                assert(iabs(ay as int * dt as int) <= 2097152 * 2184) by (nonlinear_arith)
                    requires iabs(ay as int) <= 2097152, 0 < dt as int <= 2184,
                {}
            }
            let sx = fmul(s1x, dt);
            let sy = fmul(s1y, dt);
            let nb = Body {
                position: Vec2 {
                    x: b.position.x + (b.position.x - b.previous_position.x) + sx,
                    y: b.position.y + (b.position.y - b.previous_position.y) + sy,
                },
                previous_position: b.position,
                acceleration: Vec2 { x: 0, y: 0 },
                radius: b.radius,
                color: b.color,
            };
            proof {
                assert(nb@ == integrate_body(w0.bodies[i as int], w0.gravity, dt as int));
            }
            self.citizens.set(i, nb);
            i = i + 1;
        }
        proof {
            assert(self@.bodies =~= spec_integrate(w0, dt as int).bodies);
            assert(self@ == spec_integrate(w0, dt as int));
        }
    }

    /// The boundary phase: every body is projected back inside the boundary
    /// circle.
    fn constrain_bodies(&mut self)
        requires
            1 <= old(self)@.boundary_radius <= BOUNDARY_LIMIT as int,
            iabs(old(self)@.center.x) <= BOUNDARY_LIMIT as int,
            iabs(old(self)@.center.y) <= BOUNDARY_LIMIT as int,
            forall|k: int| 0 <= k < old(self)@.bodies.len() ==> {
                let b = #[trigger] old(self)@.bodies[k];
                iabs(b.pos.x) <= 0x400_0000 && iabs(b.pos.y) <= 0x400_0000
            },
        ensures
            final(self)@ == spec_constrain(old(self)@),
            forall|k: int| 0 <= k < final(self)@.bodies.len()
                ==> in_pos_range(#[trigger] final(self)@.bodies[k].pos),
            final(self).default_shape == old(self).default_shape,
            final(self).body_radius == old(self).body_radius,
    {
        let ghost w0 = self@;
        let n = self.citizens.len();
        let c = self.boundary_center;
        let br = self.boundary_radius;
        let mut i: usize = 0;
        while i < n
            invariant
                1 <= w0.boundary_radius <= BOUNDARY_LIMIT as int,
                iabs(w0.center.x) <= BOUNDARY_LIMIT as int,
                iabs(w0.center.y) <= BOUNDARY_LIMIT as int,
                n == w0.bodies.len(),
                i <= n,
                w0 == old(self)@,
                c == old(self).boundary_center,
                br == old(self).boundary_radius,
                self.citizens@.len() == n,
                self.boundary_center == old(self).boundary_center,
                self.boundary_radius == old(self).boundary_radius,
                self.gravity == old(self).gravity,
                self.body_radius == old(self).body_radius,
                self.default_shape == old(self).default_shape,
                self.width == old(self).width,
                self.height == old(self).height,
                forall|k: int| i as int <= k < n ==> #[trigger] self.citizens@[k]
                    == old(self).citizens@[k],
                forall|k: int| 0 <= k < n ==> {
                    let b = #[trigger] old(self)@.bodies[k];
                    iabs(b.pos.x) <= 0x400_0000 && iabs(b.pos.y) <= 0x400_0000
                },
                forall|k: int| 0 <= k < i as int ==> (#[trigger] self.citizens@[k])@
                    == constrain_body(w0.bodies[k], w0.center, w0.boundary_radius),
                forall|k: int| 0 <= k < i as int
                    ==> in_pos_range((#[trigger] self.citizens@[k])@.pos),
            decreases n - i,
        {
            let b = self.citizens[i];
            proof {
                assert(w0.bodies[i as int] == b@);
                lemma_constrain_body_props(b@, w0.center, w0.boundary_radius);
            }
            let dx = b.position.x - c.x;
            let dy = b.position.y - c.y;
            proof {
                assert(dx as int * dx as int >= 0 && dy as int * dy as int >= 0
                    && dx as int * dx as int <= 0x440_0000 * 0x440_0000
                    && dy as int * dy as int <= 0x440_0000 * 0x440_0000) by (nonlinear_arith)
                    requires
                        iabs(dx as int) <= 0x440_0000,
                        iabs(dy as int) <= 0x440_0000,
                {}
                assert(br as int * br as int <= 0x40_0000 * 0x40_0000
                    && br as int * br as int >= 0) by (nonlinear_arith)
                    requires 0 <= br as int <= 0x40_0000,
                {}
            }
            let d2: i64 = dx * dx + dy * dy;
            let br2: i64 = br * br;
            let nb: Body;
            if d2 <= br2 {
                nb = b;
            } else {
                let len_u = isqrt(d2 as u64);
                proof {
                    assert(is_sqrt(d2 as int, len_u as int));
                    assert((len_u as int) * (len_u as int) <= d2 as int);
                    assert(len_u as int <= 0x820_0000) by (nonlinear_arith)
                        requires
                            (len_u as int) * (len_u as int) <= d2 as int,
                            d2 as int <= 2 * (0x440_0000 * 0x440_0000),
                            len_u as int >= 0,
                    {}
                }
                let len: i64 = len_u as i64;
                if len <= 0 {
                    nb = b;
                } else {
                    proof {
                        lemma_tdiv_abs(br as int * dx as int, len as int);
                        lemma_tdiv_abs(br as int * dy as int, len as int);
                        assert(iabs(br as int * dx as int) <= 0x40_0000 * 0x440_0000
                            && iabs(br as int * dy as int) <= 0x40_0000 * 0x440_0000)
                            by (nonlinear_arith)
                            requires
                                iabs(br as int) <= 0x40_0000,
                                iabs(dx as int) <= 0x440_0000,
                                iabs(dy as int) <= 0x440_0000,
                        {}
                    }
                    let qx = div_trunc(br * dx, len);
                    let qy = div_trunc(br * dy, len);
                    nb = Body {
                        position: Vec2 { x: c.x + qx, y: c.y + qy },
                        previous_position: b.previous_position,
                        acceleration: b.acceleration,
                        radius: b.radius,
                        color: b.color,
                    };
                }
            }
            proof {
                assert(nb@ == constrain_body(w0.bodies[i as int], w0.center, w0.boundary_radius));
            }
            self.citizens.set(i, nb);
            i = i + 1;
        }
        proof {
            assert(self@.bodies =~= spec_constrain(w0).bodies);
            assert(self@ == spec_constrain(w0));
        }
    }

    /// All colliding pairs `(i, j)` with `i < j`, found by checking every
    /// pair of bodies, in lexicographic order.
    pub fn colliding_pairs_naive(&self) -> (r: Vec<(usize, usize)>)
        requires
            forall|k: int| 0 <= k < self@.bodies.len()
                ==> in_pos_range(#[trigger] self@.bodies[k].pos),
            forall|k: int| 0 <= k < self@.bodies.len()
                ==> 0 <= (#[trigger] self@.bodies[k]).radius <= RADIUS_LIMIT as int,
        ensures
            pairs_view(r@) == spec_pairs(self@.bodies),
    {
        let ghost bs = self@.bodies;
        let n = self.citizens.len();
        let mut r: Vec<(usize, usize)> = Vec::new();
        let mut i: usize = 0;
        while i < n
            invariant
                i <= n,
                n == bs.len(),
                bs == self@.bodies,
                forall|k: int| 0 <= k < bs.len() ==> in_pos_range(#[trigger] bs[k].pos),
                forall|k: int| 0 <= k < bs.len()
                    ==> 0 <= (#[trigger] bs[k]).radius <= RADIUS_LIMIT as int,
                pairs_view(r@) == crate::model::pairs_upto(bs, i as int),
            decreases n - i,
        {
            let mut j: usize = i + 1;
            while j < n
                invariant
                    i < j <= n || (i + 1 > n && j == i + 1),
                    i < n,
                    i + 1 <= j <= n,
                    n == bs.len(),
                    bs == self@.bodies,
                    forall|k: int| 0 <= k < bs.len() ==> in_pos_range(#[trigger] bs[k].pos),
                    forall|k: int| 0 <= k < bs.len()
                        ==> 0 <= (#[trigger] bs[k]).radius <= RADIUS_LIMIT as int,
                    pairs_view(r@) == crate::model::pairs_upto(bs, i as int)
                        + crate::model::row_pairs(bs, i as int, j as int),
                decreases n - j,
            {
                let a = self.citizens[i];
                let b = self.citizens[j];
                proof {
                    assert(a@ == bs[i as int]);
                    assert(b@ == bs[j as int]);
                    assert(in_pos_range(a@.pos) && in_pos_range(b@.pos));
                    assert(0 <= a@.radius <= RADIUS_LIMIT as int);
                    assert(0 <= b@.radius <= RADIUS_LIMIT as int);
                }
                let d2 = dist_sq(a.position, b.position);
                let s = a.radius + b.radius;
                proof {
                    assert(s as int * s as int <= 0x20_0000 * 0x20_0000
                        && s as int * s as int >= 0) by (nonlinear_arith)
                        requires 0 <= s as int <= 0x20_0000,
                    {}
                }
                let ghost r0 = r@;
                if d2 < s * s {
                    r.push((i, j));
                }
                proof {
                    let row = crate::model::row_pairs(bs, i as int, j as int);
                    let rown = crate::model::row_pairs(bs, i as int, j as int + 1);
                    assert(colliding(bs, i as int, j as int)
                        <==> dist2(bs[i as int].pos, bs[j as int].pos)
                            < (bs[i as int].radius + bs[j as int].radius)
                                * (bs[i as int].radius + bs[j as int].radius));
                    if d2 < s * s {
                        assert(rown =~= row + seq![(i as int, j as int)]);
                        assert(r@ == r0.push((i, j)));
                        assert(forall|k: int| 0 <= k < r0.len()
                            ==> #[trigger] pairs_view(r0)[k]
                                == ((r0[k].0 as int, r0[k].1 as int)));
                        assert(forall|k: int| 0 <= k < r@.len()
                            ==> #[trigger] pairs_view(r@)[k]
                                == ((r@[k].0 as int, r@[k].1 as int)));
                        assert(pairs_view(r@) =~= pairs_view(r0) + seq![(i as int, j as int)]);
                        assert(pairs_view(r@) =~= crate::model::pairs_upto(bs, i as int) + rown);
                    } else {
                        assert(rown =~= row);
                    }
                }
                j = j + 1;
            }
            proof {
                assert(crate::model::pairs_upto(bs, i as int + 1)
                    == crate::model::pairs_upto(bs, i as int)
                        + crate::model::row_pairs(bs, i as int, n as int));
            }
            i = i + 1;
        }
        proof {
            if n == 0 {
                assert(crate::model::pairs_upto(bs, 0) =~= spec_pairs(bs));
            }
        }
        r
    }

    /// All colliding pairs `(i, j)` with `i < j`, found through the uniform
    /// grid broad phase: each body is filed under a grid cell the width of
    /// the collision diameter, and partners are drawn from the nine
    /// neighbouring cells.  The result holds exactly the pairs that
    /// `colliding_pairs_naive` finds, in some order.
    pub fn colliding_pairs(&self) -> (r: Vec<(usize, usize)>)
        requires
            self.wf(),
        ensures
            forall|t: int| 0 <= t < r@.len() ==> {
                let p = #[trigger] r@[t];
                p.0 < p.1 < self@.bodies.len()
                    && colliding(self@.bodies, p.0 as int, p.1 as int)
            },
            forall|a: int, b: int| #![trigger colliding(self@.bodies, a, b)]
                0 <= a < b < self@.bodies.len() && colliding(self@.bodies, a, b)
                ==> r@.contains((a as usize, b as usize)),
    {
        let cell = 2 * self.body_radius;
        proof {
            assert(self@.bodies =~= crate::grid::bodies_view(self.citizens@));
            assert forall|k: int| 0 <= k < self.citizens@.len() implies
                in_pos_range((#[trigger] self.citizens@[k])@.pos)
                    && 0 <= self.citizens@[k]@.radius
                    && 2 * self.citizens@[k]@.radius <= cell as int by {
                assert(self@.bodies[k] == self.citizens@[k]@);
                assert(body_wf(self@.bodies[k], self@.body_radius));
            }
        }
        crate::grid::grid_colliding_pairs(&self.citizens, cell)
    }

    /// Separates the pair `(i, j)` if it still overlaps: both bodies move
    /// half the overlap apart along the connecting line.
    fn resolve_pair(&mut self, i: usize, j: usize)
        requires
            i < j < old(self)@.bodies.len(),
            forall|k: int| 0 <= k < old(self)@.bodies.len()
                ==> in_pos_range(#[trigger] old(self)@.bodies[k].pos),
            forall|k: int| 0 <= k < old(self)@.bodies.len()
                ==> 0 <= (#[trigger] old(self)@.bodies[k]).radius <= RADIUS_LIMIT as int,
        ensures
            final(self)@.bodies == resolve_one(old(self)@.bodies, i as int, j as int),
            final(self)@ == (WorldM {
                bodies: resolve_one(old(self)@.bodies, i as int, j as int),
                ..old(self)@
            }),
            final(self).default_shape == old(self).default_shape,
            final(self).body_radius == old(self).body_radius,
    {
        let ghost bs = old(self)@.bodies;
        let a = self.citizens[i];
        let b = self.citizens[j];
        proof {
            assert(a@ == bs[i as int]);
            assert(b@ == bs[j as int]);
            assert(in_pos_range(a@.pos) && in_pos_range(b@.pos));
            assert(0 <= a@.radius <= RADIUS_LIMIT as int);
            assert(0 <= b@.radius <= RADIUS_LIMIT as int);
        }
        let dx = b.position.x - a.position.x;
        let dy = b.position.y - a.position.y;
        proof {
            assert(dx as int * dx as int >= 0 && dy as int * dy as int >= 0
                && dx as int * dx as int <= 0x200_0000 * 0x200_0000
                && dy as int * dy as int <= 0x200_0000 * 0x200_0000) by (nonlinear_arith)
                requires
                    iabs(dx as int) <= 0x200_0000,
                    iabs(dy as int) <= 0x200_0000,
            {}
        }
        let d2: i64 = dx * dx + dy * dy;
        let s = a.radius + b.radius;
        proof {
            assert(s as int * s as int <= 0x20_0000 * 0x20_0000 && s as int * s as int >= 0)
                by (nonlinear_arith)
                requires 0 <= s as int <= 0x20_0000,
            {}
        }
        if d2 >= s * s {
            proof {
                assert(resolve_one(bs, i as int, j as int) == bs);
                assert(final(self)@ == (WorldM { bodies: resolve_one(bs, i as int, j as int), ..old(self)@ }));
            }
            return;
        }
        let mx: i64;
        let my: i64;
        if d2 == 0 {
            mx = div_trunc(s, 2);
            my = 0;
            proof {
                lemma_tdiv_abs(s as int, 2);
            }
        } else {
            let len_u = isqrt(d2 as u64);
            proof {
                assert(is_sqrt(d2 as int, len_u as int));
                assert(len_u as int >= 1) by (nonlinear_arith)
                    requires
                        d2 as int >= 1,
                        (d2 as int) < ((len_u as int) + 1) * ((len_u as int) + 1),
                        len_u as int >= 0,
                {}
                assert((len_u as int) < (s as int)) by (nonlinear_arith)
                    requires
                        (len_u as int) * (len_u as int) <= d2 as int,
                        (d2 as int) < (s as int) * (s as int),
                        len_u as int >= 0,
                        s as int >= 0,
                {}
            }
            let len: i64 = len_u as i64;
            let overlap = s - len;
            let half = div_trunc(overlap, 2);
            proof {
                lemma_tdiv_abs(overlap as int, 2);
                assert(iabs(half as int * dx as int) <= 0x20_0000 * 0x200_0000
                    && iabs(half as int * dy as int) <= 0x20_0000 * 0x200_0000)
                    by (nonlinear_arith)
                    requires
                        iabs(half as int) <= 0x20_0000,
                        iabs(dx as int) <= 0x200_0000,
                        iabs(dy as int) <= 0x200_0000,
                {}
                lemma_tdiv_abs(half as int * dx as int, len as int);
                lemma_tdiv_abs(half as int * dy as int, len as int);
            }
            mx = div_trunc(half * dx, len);
            my = div_trunc(half * dy, len);
        }
        let nax = a.position.x - mx;
        let nay = a.position.y - my;
        let nbx = b.position.x + mx;
        let nby = b.position.y + my;
        if -POS_LIMIT <= nax && nax <= POS_LIMIT && -POS_LIMIT <= nay && nay <= POS_LIMIT
            && -POS_LIMIT <= nbx && nbx <= POS_LIMIT && -POS_LIMIT <= nby && nby <= POS_LIMIT
        {
            let na = Body { position: Vec2 { x: nax, y: nay }, ..a };
            let nb = Body { position: Vec2 { x: nbx, y: nby }, ..b };
            self.citizens.set(i, na);
            self.citizens.set(j, nb);
            proof {
                assert(self@.bodies =~= resolve_one(bs, i as int, j as int));
            }
        } else {
            proof {
                assert(self@.bodies =~= resolve_one(bs, i as int, j as int));
            }
        }
    }

    /// Orders a pair list lexicographically and drops repeated entries, by
    /// insertion into a strictly sorted list.
    fn canonical_pairs(v: &Vec<(usize, usize)>) -> (r: Vec<(usize, usize)>)
        ensures
            forall|t1: int, t2: int| 0 <= t1 < t2 < r@.len()
                ==> ((#[trigger] r@[t1]).0 < (#[trigger] r@[t2]).0
                    || (r@[t1].0 == r@[t2].0 && r@[t1].1 < r@[t2].1)),
            forall|p: (usize, usize)| r@.contains(p) <==> v@.contains(p),
    {
        let mut r: Vec<(usize, usize)> = Vec::new();
        let mut t: usize = 0;
        while t < v.len()
            invariant
                t <= v@.len(),
                forall|t1: int, t2: int| 0 <= t1 < t2 < r@.len()
                    ==> ((#[trigger] r@[t1]).0 < (#[trigger] r@[t2]).0
                        || (r@[t1].0 == r@[t2].0 && r@[t1].1 < r@[t2].1)),
                forall|p: (usize, usize)| r@.contains(p) <==> v@.take(t as int).contains(p),
            decreases v@.len() - t,
        {
            let x = v[t];
            let rlen = r.len();
            let mut pos: usize = 0;
            while pos < rlen
                && (r[pos].0 < x.0 || (r[pos].0 == x.0 && r[pos].1 < x.1))
                invariant
                    pos <= rlen,
                    rlen == r@.len(),
                    forall|q: int| 0 <= q < pos as int
                        ==> ((#[trigger] r@[q]).0 < x.0 || (r@[q].0 == x.0 && r@[q].1 < x.1)),
                decreases rlen - pos,
            {
                pos = pos + 1;
            }
            let ghost r0 = r@;
            proof {
                assert(v@.take(t as int + 1) =~= v@.take(t as int).push(x));
                lemma_contains_push(v@.take(t as int), x);
            }
            if pos < rlen && r[pos].0 == x.0 && r[pos].1 == x.1 {
                proof {
                    assert(r@[pos as int] == x);
                    assert(r@.contains(x));
                }
            } else {
                r.insert(pos, x);
                proof {
                    assert(r@ == r0.insert(pos as int, x));
                    lemma_contains_insert(r0, pos as int, x);
                    assert(forall|q: int| 0 <= q < pos as int ==> #[trigger] r@[q] == r0[q]);
                    assert(r@[pos as int] == x);
                    assert(forall|q: int| (pos as int) < q < r@.len()
                        ==> #[trigger] r@[q] == r0[q - 1]);
                    assert forall|t1: int, t2: int| 0 <= t1 < t2 < r@.len() implies
                        ((#[trigger] r@[t1]).0 < (#[trigger] r@[t2]).0
                            || (r@[t1].0 == r@[t2].0 && r@[t1].1 < r@[t2].1)) by {
                        if t1 == pos as int {
                            assert(r@[t2] == r0[t2 - 1]);
                            assert(!(r0[pos as int].0 < x.0
                                || (r0[pos as int].0 == x.0 && r0[pos as int].1 < x.1)));
                            assert(!(r0[pos as int].0 == x.0 && r0[pos as int].1 == x.1));
                        } else if t2 == pos as int {
                            assert(r@[t1] == r0[t1]);
                        } else if t1 < pos as int && t2 > pos as int {
                            assert(r@[t1] == r0[t1] && r@[t2] == r0[t2 - 1]);
                            if pos < rlen {
                                assert(!(r0[pos as int].0 < x.0
                                    || (r0[pos as int].0 == x.0 && r0[pos as int].1 < x.1)));
                            }
                        }
                    }
                }
            }
            t = t + 1;
        }
        proof {
            assert(v@.take(v@.len() as int) =~= v@);
        }
        r
    }

    /// The collision phase: detect the overlapping pairs through the grid
    /// broad phase, order them lexicographically, and separate them in that
    /// order.
    fn solve_collisions(&mut self)
        requires
            old(self).wf(),
        ensures
            final(self)@ == spec_collide(old(self)@),
            final(self).default_shape == old(self).default_shape,
            final(self).body_radius == old(self).body_radius,
    {
        let ghost bs0 = self@.bodies;
        let ghost ps = spec_pairs(bs0);
        proof {
            lemma_spec_pairs_membership(bs0);
            assert(forall|k: int| 0 <= k < bs0.len()
                ==> body_wf(#[trigger] bs0[k], self@.body_radius));
        }
        let n_bodies = self.citizens.len();
        proof {
            assert(bs0.len() == n_bodies as int);
        }
        let raw = self.colliding_pairs();
        let pairs = World::canonical_pairs(&raw);
        proof {
            let pv = pairs_view(pairs@);
            assert(forall|u: int| 0 <= u < pairs@.len()
                ==> #[trigger] pv[u] == (((pairs@[u].0 as int, pairs@[u].1 as int))));
            assert forall|t: int| 0 <= t < pairs@.len() implies
                (#[trigger] pairs@[t]).0 < pairs@[t].1 < bs0.len()
                    && colliding(bs0, pairs@[t].0 as int, pairs@[t].1 as int) by {
                assert(pairs@.contains(pairs@[t]));
                assert(raw@.contains(pairs@[t]));
                let u = choose|u: int| 0 <= u < raw@.len() && raw@[u] == pairs@[t];
            }
            assert forall|a: int, b: int| #![trigger colliding(bs0, a, b)]
                0 <= a < b < bs0.len() implies
                (pv.contains((a, b)) <==> colliding(bs0, a, b)) by {
                if colliding(bs0, a, b) {
                    assert(raw@.contains((a as usize, b as usize)));
                    assert(pairs@.contains((a as usize, b as usize)));
                    let u = choose|u: int| 0 <= u < pairs@.len()
                        && pairs@[u] == (((a as usize, b as usize)));
                    assert((a as usize) as int == a && (b as usize) as int == b);
                    assert(pv[u] == (a, b));
                }
                if pv.contains((a, b)) {
                    let u = choose|u: int| 0 <= u < pv.len() && pv[u] == (a, b);
                    assert(pairs@[u].0 as int == a && pairs@[u].1 as int == b);
                    assert(colliding(bs0, a, b));
                }
            }
            assert forall|t1: int, t2: int| 0 <= t1 < t2 < pv.len() implies
                pair_lt(#[trigger] pv[t1], #[trigger] pv[t2]) by {
                assert(pv[t1] == (((pairs@[t1].0 as int, pairs@[t1].1 as int))));
                assert(pv[t2] == (((pairs@[t2].0 as int, pairs@[t2].1 as int))));
            }
            crate::model::lemma_sorted_pairs_canonical(pv, bs0);
            assert(pv == ps);
        }
        let m = pairs.len();
        let mut t: usize = 0;
        while t < m
            invariant
                t <= m,
                m == ps.len(),
                pairs_view(pairs@) == ps,
                ps == spec_pairs(bs0),
                forall|u: int| 0 <= u < ps.len() ==> 0 <= (#[trigger] ps[u]).0 < ps[u].1 < bs0.len(),
                forall|k: int| 0 <= k < bs0.len() ==> in_pos_range(#[trigger] bs0[k].pos),
                forall|k: int| 0 <= k < bs0.len()
                    ==> 0 <= (#[trigger] bs0[k]).radius <= RADIUS_LIMIT as int,
                self@.bodies == apply_pairs(bs0, ps.take(t as int)),
                self@ == (WorldM { bodies: apply_pairs(bs0, ps.take(t as int)), ..old(self)@ }),
                bs0 == old(self)@.bodies,
                self.default_shape == old(self).default_shape,
                self.body_radius == old(self).body_radius,
            decreases m - t,
        {
            proof {
                assert(ps.take(t as int).len() == t as int);
                assert(forall|u: int| 0 <= u < t as int
                    ==> #[trigger] ps.take(t as int)[u] == ps[u]);
                lemma_apply_pairs_props(bs0, ps.take(t as int));
            }
            let p = pairs[t];
            proof {
                assert(pairs_view(pairs@)[t as int] == ((p.0 as int, p.1 as int)));
                assert(ps[t as int] == (p.0 as int, p.1 as int));
            }
            self.resolve_pair(p.0, p.1);
            proof {
                let cur = apply_pairs(bs0, ps.take(t as int));
                assert(ps.take(t as int + 1) =~= ps.take(t as int) + seq![ps[t as int]]);
                lemma_apply_pairs_app(bs0, ps.take(t as int), seq![ps[t as int]]);
                let single = seq![ps[t as int]];
                assert(single.len() == 1);
                assert(single[0] == ps[t as int]);
                assert(single.drop_first() =~= Seq::<(int, int)>::empty());
                assert(apply_pairs(cur, single)
                    == apply_pairs(resolve_one(cur, single[0].0, single[0].1), single.drop_first()));
                assert(apply_pairs(resolve_one(cur, single[0].0, single[0].1), single.drop_first())
                    == resolve_one(cur, ps[t as int].0, ps[t as int].1));
                assert(self@.bodies == apply_pairs(bs0, ps.take(t as int + 1)));
            }
            t = t + 1;
        }
        proof {
            assert(ps.take(m as int) =~= ps);
            assert(self@ == spec_collide(old(self)@));
        }
    }

    /// Advances the simulation by `dt`: integrate, confine to the boundary,
    /// resolve collisions, in that fixed order.  A non-positive or over-large
    /// time step is rejected and the state does not change.
    pub fn update(&mut self, dt: i64) -> (r: Result<(), SimError>)
        requires
            old(self).wf(),
        ensures
            final(self).wf(),
            valid_dt(dt as int) ==> r is Ok
                && final(self)@ == spec_step(old(self)@, dt as int),
            !valid_dt(dt as int) ==> r is Err && r->Err_0 == SimError::InvalidTimestep
                && *final(self) == *old(self),
    {
        if dt <= 0 || dt > DT_MAX {
            return Err(SimError::InvalidTimestep);
        }
        let ghost w0 = self@;
        self.integrate_bodies(dt);
        let ghost w1 = self@;
        proof {
            assert(forall|k: int| 0 <= k < w1.bodies.len()
                ==> (#[trigger] w1.bodies[k]).radius == w0.bodies[k].radius
                    && w1.bodies[k].prev == w0.bodies[k].pos);
        }
        self.constrain_bodies();
        let ghost w2 = self@;
        proof {
            assert forall|k: int| 0 <= k < w2.bodies.len() implies
                body_wf(#[trigger] w2.bodies[k], w2.body_radius) by {
                lemma_constrain_body_props(w1.bodies[k], w1.center, w1.boundary_radius);
                assert(w2.bodies[k] == constrain_body(w1.bodies[k], w1.center, w1.boundary_radius));
                assert(w2.bodies[k].prev == w1.bodies[k].prev);
                assert(w1.bodies[k].prev == w0.bodies[k].pos);
                assert(w2.bodies[k].acc == w1.bodies[k].acc);
            }
            assert(world_wf(w2));
            assert(self.wf());
        }
        self.solve_collisions();
        proof {
            assert(self@ == spec_step(w0, dt as int));
            let bsf = self@.bodies;
            let ps = spec_pairs(w2.bodies);
            lemma_spec_pairs_membership(w2.bodies);
            lemma_apply_pairs_props(w2.bodies, ps);
            assert forall|k: int| 0 <= k < bsf.len() implies
                body_wf(#[trigger] bsf[k], self@.body_radius) by {
                lemma_constrain_body_props(w1.bodies[k], w1.center, w1.boundary_radius);
                assert(w2.bodies[k] == constrain_body(w1.bodies[k], w1.center, w1.boundary_radius));
                assert(bsf[k].prev == w2.bodies[k].prev);
                assert(w2.bodies[k].prev == w1.bodies[k].prev);
                assert(w1.bodies[k].prev == w0.bodies[k].pos);
                assert(bsf[k].acc == w2.bodies[k].acc);
                assert(w2.bodies[k].acc == w1.bodies[k].acc);
            }
            assert(world_wf(self@));
        }
        Ok(())
    }

    /// The world-space outlines of all bodies, in body-insertion order: for
    /// each body in turn, the six circle-template vertices translated by its
    /// position.  A read-only projection with no side effects.
    pub fn snapshot_for_render(&self) -> (r: Vec<Vec2>)
        requires
            self.wf(),
        ensures
            r@.len() == self@.bodies.len() * 6,
            forall|t: int| 0 <= t < r@.len()
                ==> (#[trigger] r@[t])@ == gv_add(
                    circle_vertex(self@.body_radius, (t % 6) as nat),
                    self@.bodies[t / 6].pos,
                ),
    {
        let ghost w = self@;
        let n = self.citizens.len();
        let mut r: Vec<Vec2> = Vec::new();
        let mut b: usize = 0;
        while b < n
            invariant
                self.wf(),
                w == self@,
                b <= n,
                n == w.bodies.len(),
                r@.len() == b * 6,
                forall|t: int| 0 <= t < r@.len()
                    ==> (#[trigger] r@[t])@ == gv_add(
                        circle_vertex(w.body_radius, (t % 6) as nat),
                        w.bodies[t / 6].pos,
                    ),
            decreases n - b,
        {
            let pos = self.citizens[b].position;
            proof {
                assert(self.citizens@[b as int]@ == w.bodies[b as int]);
                assert(body_wf(w.bodies[b as int], w.body_radius));
            }
            let mut k: usize = 0;
            while k < 6
                invariant
                    self.wf(),
                    w == self@,
                    b < n,
                    n == w.bodies.len(),
                    k <= 6,
                    pos@ == w.bodies[b as int].pos,
                    in_pos_range(pos@),
                    r@.len() == b * 6 + k,
                    forall|t: int| 0 <= t < r@.len()
                        ==> (#[trigger] r@[t])@ == gv_add(
                            circle_vertex(w.body_radius, (t % 6) as nat),
                            w.bodies[t / 6].pos,
                        ),
                decreases 6 - k,
            {
                let tv = self.default_shape.vertices[k];
                proof {
                    assert(tv@ == circle_vertex(w.body_radius, k as nat));
                    crate::geometry::lemma_circle_vertex_bound(w.body_radius, k as nat);
                    assert(32 * w.body_radius <= 32 * RADIUS_LIMIT as int);
                    vstd::arithmetic::div_mod::lemma_fundamental_div_mod_converse(
                        b as int * 6 + k as int, 6, b as int, k as int);
                }
                r.push(Vec2 { x: tv.x + pos.x, y: tv.y + pos.y });
                k = k + 1;
            }
            b = b + 1;
        }
        r
    }

    /// The triangle-fan index list for all bodies: for each body in turn,
    /// the twelve fan indices shifted by six per preceding body.
    pub fn index_data(&self) -> (r: Vec<u16>)
        requires
            self@.bodies.len() <= 10922,
        ensures
            r@.len() == self@.bodies.len() * 12,
            forall|t: int| 0 <= t < r@.len()
                ==> (#[trigger] r@[t]) as int == fan_index(t % 12) + 6 * (t / 12),
    {
        let tpl = crate::geometry::circle_indices();
        proof {
            assert(forall|u: int| 0 <= u < 12 ==> (#[trigger] tpl@[u]) as int == fan_index(u));
        }
        let n = self.citizens.len();
        let mut r: Vec<u16> = Vec::new();
        let mut b: usize = 0;
        while b < n
            invariant
                b <= n,
                n == self@.bodies.len(),
                n <= 10922,
                tpl@.len() == 12,
                forall|u: int| 0 <= u < 12 ==> (#[trigger] tpl@[u]) as int == fan_index(u),
                r@.len() == b * 12,
                forall|t: int| 0 <= t < r@.len()
                    ==> (#[trigger] r@[t]) as int == fan_index(t % 12) + 6 * (t / 12),
            decreases n - b,
        {
            let base: u16 = (b as u16) * 6;
            let mut u: usize = 0;
            while u < 12
                invariant
                    b < n,
                    n <= 10922,
                    u <= 12,
                    base as int == 6 * b as int,
                    tpl@.len() == 12,
                    forall|q: int| 0 <= q < 12 ==> (#[trigger] tpl@[q]) as int == fan_index(q),
                    r@.len() == b * 12 + u,
                    forall|t: int| 0 <= t < r@.len()
                        ==> (#[trigger] r@[t]) as int == fan_index(t % 12) + 6 * (t / 12),
                decreases 12 - u,
            {
                let v = tpl[u];
                proof {
                    assert(fan_index(u as int) <= 5 && fan_index(u as int) >= 0);
                    vstd::arithmetic::div_mod::lemma_fundamental_div_mod_converse(
                        b as int * 12 + u as int, 12, b as int, u as int);
                }
                r.push(v + base);
                u = u + 1;
            }
            b = b + 1;
        }
        r
    }

    /// Maps window pixel coordinates to world coordinates: a linear rescale
    /// of each axis to the two-unit-wide world square, with the vertical
    /// axis flipped.
    pub fn to_gl_coords(&self, physical_coords: Vec2) -> (r: Vec2)
        requires
            self.wf(),
            iabs(physical_coords@.x) <= 0xffff_ffff,
            iabs(physical_coords@.y) <= 0xffff_ffff,
        ensures
            r@.x == tdiv(physical_coords@.x * 2 * SCALE as int, self@.width) - SCALE as int,
            r@.y == -(tdiv(physical_coords@.y * 2 * SCALE as int, self@.height) - SCALE as int),
    {
        proof {
            self.lemma_wf_model();
            lemma_tdiv_abs(physical_coords@.x * 2 * (SCALE as int), self@.width);
            lemma_tdiv_abs(physical_coords@.y * 2 * (SCALE as int), self@.height);
            assert(iabs(physical_coords@.x * 2 * (SCALE as int)) <= 0xffff_ffff * 2 * 65536
                && iabs(physical_coords@.y * 2 * (SCALE as int)) <= 0xffff_ffff * 2 * 65536)
                by (nonlinear_arith)
                requires
                    iabs(physical_coords@.x) <= 0xffff_ffff,
                    iabs(physical_coords@.y) <= 0xffff_ffff,
            {}
        }
        let x: i64 = div_trunc(physical_coords.x * 2 * SCALE, self.width as i64) - SCALE;
        let y: i64 = div_trunc(physical_coords.y * 2 * SCALE, self.height as i64) - SCALE;
        Vec2 { x, y: -y }
    }
}

} // verus!
