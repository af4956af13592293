//! The uniform-grid broad phase.
//!
//! The bounded world is partitioned into square cells whose side is at least
//! the largest collision diameter; each body is filed under its cell, and
//! candidate partners are drawn from the body's own cell and the eight
//! neighbours.  Because two colliding bodies always sit in adjacent cells,
//! the pairs found this way are exactly the pairs brute force finds — that
//! equivalence is proved here as well.

use vstd::prelude::*;
use std::collections::HashMap;
use crate::fp::{iabs, div_floor, lemma_floor_div_bound};
use crate::vec2::{GVec, in_pos_range, dist_sq};
use crate::model::{BodyM, colliding, row_pairs, pairs_upto, spec_pairs};
use crate::world::Body;

verus! {

broadcast use vstd::std_specs::hash::group_hash_axioms;

/// The grid cell that a coordinate falls in.
pub open spec fn cell_of(x: int, cell: int) -> int {
    x / cell
}

/// Two points sit in the same or neighbouring grid cells.
pub open spec fn cells_adjacent(a: GVec, b: GVec, cell: int) -> bool {
    &&& iabs(cell_of(a.x, cell) - cell_of(b.x, cell)) <= 1
    &&& iabs(cell_of(a.y, cell) - cell_of(b.y, cell)) <= 1
}

/// Points closer than one cell width sit in the same or neighbouring cells.
pub proof fn lemma_close_cells_adjacent(x1: int, x2: int, cell: int)
    requires
        cell > 0,
        iabs(x1 - x2) < cell,
    ensures
        iabs(cell_of(x1, cell) - cell_of(x2, cell)) <= 1,
{
    vstd::arithmetic::div_mod::lemma_fundamental_div_mod(x1, cell);
    vstd::arithmetic::div_mod::lemma_fundamental_div_mod(x2, cell);
    vstd::arithmetic::div_mod::lemma_mod_bound(x1, cell);
    vstd::arithmetic::div_mod::lemma_mod_bound(x2, cell);
    let q1 = x1 / cell;
    let q2 = x2 / cell;
    assert(iabs(q1 - q2) <= 1) by (nonlinear_arith)
        requires
            x1 == cell * q1 + x1 % cell,
            x2 == cell * q2 + x2 % cell,
            0 <= x1 % cell < cell,
            0 <= x2 % cell < cell,
            iabs(x1 - x2) < cell,
            cell > 0,
    {}
}

/// Colliding bodies sit in the same or neighbouring cells, when the cell
/// width is at least every collision diameter.
pub proof fn lemma_colliding_adjacent(bs: Seq<BodyM>, cell: int, i: int, j: int)
    requires
        cell > 0,
        0 <= i < bs.len(),
        0 <= j < bs.len(),
        bs[i].radius >= 0,
        bs[j].radius >= 0,
        bs[i].radius + bs[j].radius <= cell,
        colliding(bs, i, j),
    ensures
        cells_adjacent(bs[i].pos, bs[j].pos, cell),
{
    let a = bs[i].pos;
    let b = bs[j].pos;
    let s = bs[i].radius + bs[j].radius;
    assert((a.x - b.x) * (a.x - b.x) >= 0 && (a.y - b.y) * (a.y - b.y) >= 0)
        by (nonlinear_arith)
    {}
    assert(iabs(a.x - b.x) < s) by (nonlinear_arith)
        requires
            (a.x - b.x) * (a.x - b.x) + (a.y - b.y) * (a.y - b.y) < s * s,
            (a.y - b.y) * (a.y - b.y) >= 0,
            s >= 0,
    {}
    assert(iabs(a.y - b.y) < s) by (nonlinear_arith)
        requires
            (a.x - b.x) * (a.x - b.x) + (a.y - b.y) * (a.y - b.y) < s * s,
            (a.x - b.x) * (a.x - b.x) >= 0,
            s >= 0,
    {}
    lemma_close_cells_adjacent(a.x, b.x, cell);
    lemma_close_cells_adjacent(a.y, b.y, cell);
}

/// The pairs of one row that the grid retains: colliding and in adjacent
/// cells.
pub open spec fn grid_row_pairs(bs: Seq<BodyM>, cell: int, i: int, j: int) -> Seq<(int, int)>
    decreases j - i,
{
    if j <= i + 1 {
        Seq::empty()
    } else {
        grid_row_pairs(bs, cell, i, j - 1)
            + if colliding(bs, i, j - 1) && cells_adjacent(bs[i].pos, bs[j - 1].pos, cell) {
                seq![(i, j - 1)]
            } else {
                Seq::empty()
            }
    }
}

/// The grid-retained pairs whose first index is below `i`.
pub open spec fn grid_pairs_upto(bs: Seq<BodyM>, cell: int, i: int) -> Seq<(int, int)>
    decreases i,
{
    if i <= 0 {
        Seq::empty()
    } else {
        grid_pairs_upto(bs, cell, i - 1) + grid_row_pairs(bs, cell, i - 1, bs.len() as int)
    }
}

/// All pairs the grid retains.
pub open spec fn grid_pairs(bs: Seq<BodyM>, cell: int) -> Seq<(int, int)> {
    grid_pairs_upto(bs, cell, bs.len() as int)
}

/// Broad-phase equivalence: with a cell width of at least every collision
/// diameter, the pairs retained by the grid's adjacency filter are exactly
/// the pairs brute force finds — no false negatives, no false positives.
pub proof fn lemma_broad_phase_equivalence(bs: Seq<BodyM>, cell: int)
    requires
        cell > 0,
        forall|k: int| 0 <= k < bs.len()
            ==> 0 <= (#[trigger] bs[k]).radius && 2 * bs[k].radius <= cell,
    ensures
        grid_pairs(bs, cell) == spec_pairs(bs),
{
    lemma_grid_pairs_upto_eq(bs, cell, bs.len() as int);
}

proof fn lemma_grid_row_eq(bs: Seq<BodyM>, cell: int, i: int, j: int)
    requires
        cell > 0,
        0 <= i < bs.len(),
        i < j <= bs.len(),
        forall|k: int| 0 <= k < bs.len()
            ==> 0 <= (#[trigger] bs[k]).radius && 2 * bs[k].radius <= cell,
    ensures
        grid_row_pairs(bs, cell, i, j) == row_pairs(bs, i, j),
    decreases j - i,
{
    if j > i + 1 {
        lemma_grid_row_eq(bs, cell, i, j - 1);
        if colliding(bs, i, j - 1) {
            assert(bs[i].radius + bs[j - 1].radius <= cell);
            lemma_colliding_adjacent(bs, cell, i, j - 1);
        }
    }
}

proof fn lemma_grid_pairs_upto_eq(bs: Seq<BodyM>, cell: int, i: int)
    requires
        cell > 0,
        0 <= i <= bs.len(),
        forall|k: int| 0 <= k < bs.len()
            ==> 0 <= (#[trigger] bs[k]).radius && 2 * bs[k].radius <= cell,
    ensures
        grid_pairs_upto(bs, cell, i) == pairs_upto(bs, i),
    decreases i,
{
    if i > 0 {
        lemma_grid_pairs_upto_eq(bs, cell, i - 1);
        lemma_grid_row_eq(bs, cell, i - 1, bs.len() as int);
    }
}

/// The mathematical image of an executable body list.
pub open spec fn bodies_view(s: Seq<Body>) -> Seq<BodyM> {
    s.map_values(|b: Body| b@)
}

/// The packed grid key of a cell coordinate pair.
pub open spec fn pair_key(cx: int, cy: int) -> int {
    (cx + 0x200_0000) * 0x1_0000_0000 + (cy + 0x200_0000)
}

/// The grid key of body `k`.
pub open spec fn key_of(bs: Seq<BodyM>, cell: int, k: int) -> int {
    pair_key(cell_of(bs[k].pos.x, cell), cell_of(bs[k].pos.y, cell))
}

/// Packs two bounded cell coordinates into one key.
fn pack_key(cx: i64, cy: i64) -> (k: u64)
    requires
        iabs(cx as int) <= 0x120_0000,
        iabs(cy as int) <= 0x120_0000,
    ensures
        k as int == pair_key(cx as int, cy as int),
{
    proof {
        assert(((cx as int) + 0x200_0000) * 0x1_0000_0000
            <= 0x320_0000 * 0x1_0000_0000
            && ((cx as int) + 0x200_0000) * 0x1_0000_0000 >= 0) by (nonlinear_arith)
            requires 0 <= (cx as int) + 0x200_0000 <= 0x320_0000,
        {}
    }
    ((cx + 0x200_0000) as u64) * 0x1_0000_0000 + ((cy + 0x200_0000) as u64)
}

/// Pushing onto a sequence keeps every element it already contains.
proof fn lemma_push_contains<T>(s: Seq<T>, x: T)
    ensures
        forall|y: T| s.contains(y) ==> #[trigger] s.push(x).contains(y),
        s.push(x).contains(x),
{
    assert forall|y: T| s.contains(y) implies #[trigger] s.push(x).contains(y) by {
        let t = choose|t: int| 0 <= t < s.len() && s[t] == y;
        assert(s.push(x)[t] == y);
    }
    assert(s.push(x)[s.len() as int] == x);
}

/// One bucket of the grid: indices below `upto`, all filed under the key
/// `kk`, in ascending order.
pub open spec fn bucket_ok(bs: Seq<BodyM>, cell: int, kk: u64, bucket: Seq<usize>, upto: int) -> bool {
    &&& forall|u: int| 0 <= u < bucket.len()
        ==> ((#[trigger] bucket[u]) as int) < upto
            && key_of(bs, cell, bucket[u] as int) == kk as int
    &&& forall|u1: int, u2: int| 0 <= u1 < u2 < bucket.len() ==> bucket[u1] < bucket[u2]
}

/// Body `j` is filed in the bucket of its own cell.
pub open spec fn filed(bs: Seq<BodyM>, cell: int, m: Map<u64, Vec<usize>>, j: int) -> bool {
    exists|kk: u64|
        #![trigger m.contains_key(kk)]
        m.contains_key(kk) && kk as int == key_of(bs, cell, j) && m[kk]@.contains(j as usize)
}

/// The grid after filing the first `upto` bodies: every bucket is sound,
/// and every filed body is in the bucket of its own cell.
pub open spec fn grid_ok(bs: Seq<BodyM>, cell: int, m: Map<u64, Vec<usize>>, upto: int) -> bool {
    &&& forall|kk: u64| #[trigger] m.contains_key(kk) ==> bucket_ok(bs, cell, kk, m[kk]@, upto)
    &&& forall|j: int| 0 <= j < upto ==> #[trigger] filed(bs, cell, m, j)
}

/// The rank, in scan order, of the cell of body `b` among the nine cells
/// around the cell of body `i`.
pub open spec fn scan_rank(bs: Seq<BodyM>, cell: int, i: int, b: int) -> int {
    let ex = cell_of(bs[b].pos.x, cell) - cell_of(bs[i].pos.x, cell) + 1;
    let ey = cell_of(bs[b].pos.y, cell) - cell_of(bs[i].pos.y, cell) + 1;
    ex * 3 + ey
}

/// The colliding pairs, found through the uniform grid: every body is filed
/// under its cell, and partners are looked up in the nine neighbouring
/// cells.  The result holds exactly the colliding pairs `(i, j)` with
/// `i < j`, as the brute-force check finds them.
pub fn grid_colliding_pairs(bodies: &Vec<Body>, cell: i64) -> (r: Vec<(usize, usize)>)
    requires
        2 <= cell <= 0x40_0000,
        forall|k: int| 0 <= k < bodies@.len()
            ==> in_pos_range((#[trigger] bodies@[k])@.pos),
        forall|k: int| 0 <= k < bodies@.len()
            ==> 0 <= (#[trigger] bodies@[k])@.radius
                && 2 * bodies@[k]@.radius <= cell as int,
    ensures
        forall|t: int| 0 <= t < r@.len() ==> {
            let p = #[trigger] r@[t];
            p.0 < p.1 < bodies@.len()
                && colliding(bodies_view(bodies@), p.0 as int, p.1 as int)
        },
        forall|a: int, b: int| #![trigger colliding(bodies_view(bodies@), a, b)]
            0 <= a < b < bodies@.len() && colliding(bodies_view(bodies@), a, b)
            ==> r@.contains((a as usize, b as usize)),
{
    let ghost bs = bodies_view(bodies@);
    let n = bodies.len();
    let mut grid: HashMap<u64, Vec<usize>> = HashMap::new();
    let mut idx: usize = 0;
    while idx < n
        invariant
            idx <= n,
            n == bs.len(),
            bs == bodies_view(bodies@),
            2 <= cell <= 0x40_0000,
            forall|k: int| 0 <= k < bs.len() ==> in_pos_range((#[trigger] bs[k]).pos),
            grid_ok(bs, cell as int, grid@, idx as int),
        decreases n - idx,
    {
        let p = bodies[idx].position;
        proof {
            assert(bodies@[idx as int]@ == bs[idx as int]);
            lemma_floor_div_bound(p@.x, cell as int);
            lemma_floor_div_bound(p@.y, cell as int);
        }
        let cx = div_floor(p.x, cell);
        let cy = div_floor(p.y, cell);
        let k = pack_key(cx, cy);
        proof {
            assert(k as int == key_of(bs, cell as int, idx as int));
        }
        let ghost m0 = grid@;
        let mut bucket: Vec<usize> = match grid.remove(&k) {
            Some(v) => v,
            None => Vec::new(),
        };
        bucket.push(idx);
        grid.insert(k, bucket);
        proof {
            assert forall|j: int| 0 <= j < idx as int + 1 implies
                #[trigger] filed(bs, cell as int, grid@, j) by {
                if j == idx as int {
                    assert(grid@.contains_key(k));
                    assert(grid@[k]@[grid@[k]@.len() - 1] == idx);
                    assert(grid@[k]@.contains(idx));
                } else {
                    assert(filed(bs, cell as int, m0, j));
                    let kk = choose|kk: u64| m0.contains_key(kk)
                        && kk as int == key_of(bs, cell as int, j)
                        && m0[kk]@.contains(j as usize);
                    if kk == k {
                        assert(grid@[k]@ == m0[k]@.push(idx));
                        lemma_push_contains(m0[k]@, idx);
                        assert(grid@[k]@.contains(j as usize));
                        assert(grid@.contains_key(k));
                    } else {
                        assert(grid@.contains_key(kk) && grid@[kk] == m0[kk]);
                    }
                }
            }
        }
        idx = idx + 1;
    }
    let mut r: Vec<(usize, usize)> = Vec::new();
    let mut i: usize = 0;
    while i < n
        invariant
            i <= n,
            n == bs.len(),
            bs == bodies_view(bodies@),
            2 <= cell <= 0x40_0000,
            forall|k: int| 0 <= k < bs.len() ==> in_pos_range((#[trigger] bs[k]).pos),
            forall|k: int| 0 <= k < bs.len()
                ==> 0 <= (#[trigger] bs[k]).radius && 2 * bs[k].radius <= cell as int,
            grid_ok(bs, cell as int, grid@, n as int),
            forall|t: int| 0 <= t < r@.len() ==> {
                let p = #[trigger] r@[t];
                p.0 < p.1 < n && colliding(bs, p.0 as int, p.1 as int)
            },
            forall|a: int, b: int| #![trigger colliding(bs, a, b)]
                0 <= a < i as int && a < b < n && colliding(bs, a, b)
                ==> r@.contains((a as usize, b as usize)),
        decreases n - i,
    {
        let pi = bodies[i].position;
        proof {
            assert(bodies@[i as int]@ == bs[i as int]);
            lemma_floor_div_bound(pi@.x, cell as int);
            lemma_floor_div_bound(pi@.y, cell as int);
        }
        let cx = div_floor(pi.x, cell);
        let cy = div_floor(pi.y, cell);
        let mut dx: usize = 0;
        while dx < 3
            invariant
                dx <= 3,
                i < n,
                n == bs.len(),
                bs == bodies_view(bodies@),
                2 <= cell <= 0x40_0000,
                cx as int == cell_of(bs[i as int].pos.x, cell as int),
                cy as int == cell_of(bs[i as int].pos.y, cell as int),
                pi@ == bs[i as int].pos,
                iabs(cx as int) <= 0x100_0001,
                iabs(cy as int) <= 0x100_0001,
                forall|k: int| 0 <= k < bs.len() ==> in_pos_range((#[trigger] bs[k]).pos),
                forall|k: int| 0 <= k < bs.len()
                    ==> 0 <= (#[trigger] bs[k]).radius && 2 * bs[k].radius <= cell as int,
                grid_ok(bs, cell as int, grid@, n as int),
                forall|t: int| 0 <= t < r@.len() ==> {
                    let p = #[trigger] r@[t];
                    p.0 < p.1 < n && colliding(bs, p.0 as int, p.1 as int)
                },
                forall|a: int, b: int| #![trigger colliding(bs, a, b)]
                    0 <= a < i as int && a < b < n && colliding(bs, a, b)
                    ==> r@.contains((a as usize, b as usize)),
                forall|b: int| #![trigger scan_rank(bs, cell as int, i as int, b)]
                    (i as int) < b < n && colliding(bs, i as int, b)
                        && cells_adjacent(bs[i as int].pos, bs[b].pos, cell as int)
                        && scan_rank(bs, cell as int, i as int, b) < (dx as int) * 3
                    ==> r@.contains((i, b as usize)),
            decreases 3 - dx,
        {
            let mut dy: usize = 0;
            while dy < 3
                invariant
                    dx < 3,
                    dy <= 3,
                    i < n,
                    n == bs.len(),
                    bs == bodies_view(bodies@),
                    2 <= cell <= 0x40_0000,
                    cx as int == cell_of(bs[i as int].pos.x, cell as int),
                    cy as int == cell_of(bs[i as int].pos.y, cell as int),
                    pi@ == bs[i as int].pos,
                    iabs(cx as int) <= 0x100_0001,
                    iabs(cy as int) <= 0x100_0001,
                    forall|k: int| 0 <= k < bs.len() ==> in_pos_range((#[trigger] bs[k]).pos),
                    forall|k: int| 0 <= k < bs.len()
                        ==> 0 <= (#[trigger] bs[k]).radius && 2 * bs[k].radius <= cell as int,
                    grid_ok(bs, cell as int, grid@, n as int),
                    forall|t: int| 0 <= t < r@.len() ==> {
                        let p = #[trigger] r@[t];
                        p.0 < p.1 < n && colliding(bs, p.0 as int, p.1 as int)
                    },
                    forall|a: int, b: int| #![trigger colliding(bs, a, b)]
                        0 <= a < i as int && a < b < n && colliding(bs, a, b)
                        ==> r@.contains((a as usize, b as usize)),
                    forall|b: int| #![trigger scan_rank(bs, cell as int, i as int, b)]
                        (i as int) < b < n && colliding(bs, i as int, b)
                            && cells_adjacent(bs[i as int].pos, bs[b].pos, cell as int)
                            && scan_rank(bs, cell as int, i as int, b)
                                < (dx as int) * 3 + (dy as int)
                        ==> r@.contains((i, b as usize)),
                decreases 3 - dy,
            {
                let ncx = cx + (dx as i64) - 1;
                let ncy = cy + (dy as i64) - 1;
                let k2 = pack_key(ncx, ncy);
                let ghost rank = (dx as int) * 3 + (dy as int);
                match grid.get(&k2) {
                    Some(bucket) => {
                        let blen = bucket.len();
                        let mut u: usize = 0;
                        while u < blen
                            invariant
                                u <= blen,
                                i < n,
                                n == bs.len(),
                                bs == bodies_view(bodies@),
                                2 <= cell <= 0x40_0000,
                                blen == bucket@.len(),
                                pi@ == bs[i as int].pos,
                                grid@.contains_key(k2),
                                grid@[k2] == *bucket,
                                grid_ok(bs, cell as int, grid@, n as int),
                                forall|k: int| 0 <= k < bs.len()
                                    ==> in_pos_range((#[trigger] bs[k]).pos),
                                forall|k: int| 0 <= k < bs.len()
                                    ==> 0 <= (#[trigger] bs[k]).radius
                                        && 2 * bs[k].radius <= cell as int,
                                forall|t: int| 0 <= t < r@.len() ==> {
                                    let p = #[trigger] r@[t];
                                    p.0 < p.1 < n && colliding(bs, p.0 as int, p.1 as int)
                                },
                                forall|a: int, b: int| #![trigger colliding(bs, a, b)]
                                    0 <= a < i as int && a < b < n && colliding(bs, a, b)
                                    ==> r@.contains((a as usize, b as usize)),
                                forall|b: int| #![trigger scan_rank(bs, cell as int, i as int, b)]
                                    (i as int) < b < n && colliding(bs, i as int, b)
                                        && cells_adjacent(bs[i as int].pos, bs[b].pos, cell as int)
                                        && scan_rank(bs, cell as int, i as int, b) < rank
                                    ==> r@.contains((i, b as usize)),
                                forall|v: int| 0 <= v < u as int
                                    && ((#[trigger] bucket@[v]) as int) > i as int
                                    && colliding(bs, i as int, bucket@[v] as int)
                                    ==> r@.contains((i, bucket@[v])),
                            decreases blen - u,
                        {
                            let j = bucket[u];
                            proof {
                                assert(bucket_ok(bs, cell as int, k2, bucket@, n as int));
                                assert((j as int) < n);
                            }
                            if j > i {
                                let pj = bodies[j].position;
                                proof {
                                    assert(bodies@[j as int]@ == bs[j as int]);
                                    assert(bodies@[i as int]@ == bs[i as int]);
                                    assert(in_pos_range(bs[i as int].pos));
                                    assert(in_pos_range(bs[j as int].pos));
                                    assert(0 <= bs[i as int].radius
                                        && 2 * bs[i as int].radius <= cell as int);
                                    assert(0 <= bs[j as int].radius
                                        && 2 * bs[j as int].radius <= cell as int);
                                }
                                let d2 = dist_sq(pi, pj);
                                let ri = bodies[i].radius;
                                let rj = bodies[j].radius;
                                let s = ri + rj;
                                proof {
                                    assert((s as int) * (s as int) <= 0x40_0000 * 0x40_0000
                                        && (s as int) * (s as int) >= 0) by (nonlinear_arith)
                                        requires 0 <= s as int <= 0x40_0000,
                                    {}
                                }
                                let ghost r0 = r@;
                                if d2 < s * s {
                                    r.push((i, j));
                                    proof {
                                        lemma_push_contains(r0, (i, j));
                                        assert(colliding(bs, i as int, j as int));
                                    }
                                } else {
                                    proof {
                                        assert(!colliding(bs, i as int, j as int));
                                    }
                                }
                            }
                            u = u + 1;
                        }
                        proof {
                            assert forall|b: int|
                                (i as int) < b < n && colliding(bs, i as int, b)
                                    && cells_adjacent(bs[i as int].pos, bs[b].pos, cell as int)
                                    && #[trigger] scan_rank(bs, cell as int, i as int, b)
                                        < rank + 1
                                implies r@.contains((i, b as usize)) by {
                                if scan_rank(bs, cell as int, i as int, b) == rank {
                                    let ex = cell_of(bs[b].pos.x, cell as int)
                                        - cell_of(bs[i as int].pos.x, cell as int) + 1;
                                    let ey = cell_of(bs[b].pos.y, cell as int)
                                        - cell_of(bs[i as int].pos.y, cell as int) + 1;
                                    assert(0 <= ex <= 2 && 0 <= ey <= 2);
                                    assert(ex == dx as int && ey == dy as int);
                                    assert(key_of(bs, cell as int, b)
                                        == pair_key(ncx as int, ncy as int));
                                    assert(filed(bs, cell as int, grid@, b));
                                    let kk = choose|kk: u64| grid@.contains_key(kk)
                                        && kk as int == key_of(bs, cell as int, b)
                                        && grid@[kk]@.contains(b as usize);
                                    assert(kk == k2);
                                    let v = choose|v: int| 0 <= v < bucket@.len()
                                        && bucket@[v] == b as usize;
                                    assert(r@.contains((i, bucket@[v])));
                                }
                            }
                        }
                    },
                    None => {
                        proof {
                            assert forall|b: int|
                                (i as int) < b < n && colliding(bs, i as int, b)
                                    && cells_adjacent(bs[i as int].pos, bs[b].pos, cell as int)
                                    && #[trigger] scan_rank(bs, cell as int, i as int, b)
                                        < rank + 1
                                implies r@.contains((i, b as usize)) by {
                                if scan_rank(bs, cell as int, i as int, b) == rank {
                                    let ex = cell_of(bs[b].pos.x, cell as int)
                                        - cell_of(bs[i as int].pos.x, cell as int) + 1;
                                    let ey = cell_of(bs[b].pos.y, cell as int)
                                        - cell_of(bs[i as int].pos.y, cell as int) + 1;
                                    assert(0 <= ex <= 2 && 0 <= ey <= 2);
                                    assert(ex == dx as int && ey == dy as int);
                                    assert(key_of(bs, cell as int, b)
                                        == pair_key(ncx as int, ncy as int));
                                    assert(filed(bs, cell as int, grid@, b));
                                    let kk = choose|kk: u64| grid@.contains_key(kk)
                                        && kk as int == key_of(bs, cell as int, b)
                                        && grid@[kk]@.contains(b as usize);
                                    assert(kk == k2);
                                    assert(false);
                                }
                            }
                        }
                    },
                }
                dy = dy + 1;
            }
            dx = dx + 1;
        }
        proof {
            assert forall|b: int|
                (i as int) < b < n && colliding(bs, i as int, b)
                implies r@.contains((i, b as usize)) by {
                lemma_colliding_adjacent(bs, cell as int, i as int, b);
                let ex = cell_of(bs[b].pos.x, cell as int)
                    - cell_of(bs[i as int].pos.x, cell as int) + 1;
                let ey = cell_of(bs[b].pos.y, cell as int)
                    - cell_of(bs[i as int].pos.y, cell as int) + 1;
                assert(0 <= ex <= 2 && 0 <= ey <= 2);
                assert(scan_rank(bs, cell as int, i as int, b) <= 8);
            }
        }
        i = i + 1;
    }
    r
}

} // verus!
