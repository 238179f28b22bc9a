//! Mathematical model of the sequential flood fill: one small-step
//! transition function over a ghost state (grid + FIFO queue), an invariant
//! preserved by every step, and the laws that follow — monotonic ownership,
//! total coverage at quiescence, and determinism of the fixpoint.

use vstd::prelude::*;

verus! {

use crate::MAX_DIM;
use crate::geometry::{
    Point,
    in_bounds,
    pt_bounded,
    spec_dist_sq,
    lemma_dist_sq_nonneg,
    lemma_dist_sq_zero,
    lemma_dist_sq_bounded,
};
use crate::tile::{Tile, apply_candidate, candidate_takes};
use crate::grid::{
    grid_index,
    g_at,
    seeds_ok,
    tile_ok,
    grid_ok,
    seeds_own,
    queue_ok,
    in_queue,
    init_grid,
    init_tile,
    seed_id_at,
    lemma_grid_index_bound,
    lemma_grid_index_inj,
    lemma_init_grid_at,
    lemma_seed_id_at_range,
    lemma_seed_id_at_self,
};

/// Ghost state of the sequential engine: the flat grid and the FIFO work
/// queue of positions still to be propagated from.
pub ghost struct Model {
    pub grid: Seq<Tile>,
    pub queue: Seq<Point>,
}

/// The x offset of the `k`-th of the nine unit directions, enumerated in
/// the engines' order: outer axis first, `-1, 0, 1` on each axis.
pub open spec fn dir_dx(k: int) -> int {
    if k < 3 {
        -1
    } else if k < 6 {
        0
    } else {
        1
    }
}

/// The y offset of the `k`-th of the nine unit directions.
pub open spec fn dir_dy(k: int) -> int {
    if k == 0 || k == 3 || k == 6 {
        -1
    } else if k == 1 || k == 4 || k == 7 {
        0
    } else {
        1
    }
}

/// Offer the popped tile `cur` to the neighbors of `pos` at offsets
/// `k .. 9`, each unit direction scaled by `step`: claim unclaimed ones,
/// reassign strictly closer ones, and append every changed cell's
/// position to the queue. The sequential engine uses `step == 1`; the
/// jump-flood engine reuses the same pass at its round's jump distance.
pub open spec fn proc_dirs(
    g: Seq<Tile>,
    q: Seq<Point>,
    cur: Tile,
    pos: Point,
    size: Point,
    step: int,
    k: int,
) -> (Seq<Tile>, Seq<Point>)
    decreases 9 - k,
{
    if k < 0 || k >= 9 {
        (g, q)
    } else {
        let x2 = pos.x + dir_dx(k) * step;
        let y2 = pos.y + dir_dy(k) * step;
        if in_bounds(size, x2, y2) {
            let t = g_at(g, size, x2, y2);
            if candidate_takes(t, cur) {
                let t2 = apply_candidate(t, cur);
                proc_dirs(
                    g.update(grid_index(size, x2, y2), t2),
                    q.push(t2.position),
                    cur,
                    pos,
                    size,
                    step,
                    k + 1,
                )
            } else {
                proc_dirs(g, q, cur, pos, size, step, k + 1)
            }
        } else {
            proc_dirs(g, q, cur, pos, size, step, k + 1)
        }
    }
}

/// One step of the sequential engine: pop the front position and propagate
/// its tile to all nine unit-offset neighbors. The empty queue is a
/// fixpoint.
pub open spec fn step1(m: Model, size: Point) -> Model {
    if m.queue.len() == 0 {
        m
    } else {
        let pos = m.queue[0];
        let cur = g_at(m.grid, size, pos.x as int, pos.y as int);
        let r = proc_dirs(m.grid, m.queue.skip(1), cur, pos, size, 1, 0);
        Model { grid: r.0, queue: r.1 }
    }
}

/// `n` steps of the sequential engine.
pub open spec fn run_n(m: Model, size: Point, n: nat) -> Model
    decreases n,
{
    if n == 0 {
        m
    } else {
        step1(run_n(m, size, (n - 1) as nat), size)
    }
}

/// The engine's state immediately after initialization: seed cells
/// pre-labeled, queue holding exactly the seed positions in input order.
pub open spec fn init_model(size: Point, seeds: Seq<Point>) -> Model {
    Model { grid: init_grid(size, seeds), queue: seeds }
}

/// Cell `(x, y)` can change none of its in-bounds unit neighbors: each is
/// already owned at least as closely as by this cell's seed.
pub open spec fn cell_settled(g: Seq<Tile>, size: Point, x: int, y: int) -> bool {
    forall|k: int|
        0 <= k < 9 && in_bounds(size, x + dir_dx(k), y + dir_dy(k)) ==> !candidate_takes(
            #[trigger] g_at(g, size, x + dir_dx(k), y + dir_dy(k)),
            g_at(g, size, x, y),
        )
}

/// Every assigned cell that is not waiting in the queue is settled: all
/// pending propagation work is recorded in the queue.
pub open spec fn closed_ok(m: Model, size: Point) -> bool {
    forall|x: int, y: int|
        in_bounds(size, x, y) && (#[trigger] g_at(m.grid, size, x, y)).id != 0 && !in_queue(
            m.queue,
            x,
            y,
        ) ==> cell_settled(m.grid, size, x, y)
}

/// The engine invariant: well-formed valid grid, seed cells self-owned,
/// queued positions assigned, and all unfinished work queued.
pub open spec fn inv(m: Model, size: Point, seeds: Seq<Point>) -> bool {
    &&& seeds_ok(size, seeds)
    &&& grid_ok(m.grid, size, seeds)
    &&& seeds_own(m.grid, size, seeds)
    &&& queue_ok(m.queue, m.grid, size)
    &&& closed_ok(m, size)
}

/// Strict upper bound on every squared distance inside a bounded grid;
/// the potential of an unassigned tile.
pub open spec fn dmax() -> int {
    2 * (MAX_DIM as int) * (MAX_DIM as int) + 1
}

/// Per-tile potential: unassigned tiles carry the maximal value, assigned
/// tiles their current squared distance. Every ownership change strictly
/// decreases it.
pub open spec fn phi_tile(t: Tile) -> int {
    if t.id == 0 {
        dmax()
    } else {
        spec_dist_sq(t.position, t.seed_position)
    }
}

/// Total potential of a grid; together with the queue length this is the
/// engine's termination measure.
pub open spec fn phi_sum(g: Seq<Tile>) -> int
    decreases g.len(),
{
    if g.len() == 0 {
        0
    } else {
        phi_sum(g.drop_last()) + phi_tile(g.last())
    }
}

pub proof fn lemma_phi_tile_nonneg(t: Tile)
    ensures
        phi_tile(t) >= 0,
{
    lemma_dist_sq_nonneg(t.position, t.seed_position);
}

pub proof fn lemma_phi_sum_nonneg(g: Seq<Tile>)
    ensures
        phi_sum(g) >= 0,
    decreases g.len(),
{
    if g.len() > 0 {
        lemma_phi_sum_nonneg(g.drop_last());
        lemma_phi_tile_nonneg(g.last());
    }
}

pub proof fn lemma_phi_sum_update(g: Seq<Tile>, i: int, t: Tile)
    requires
        0 <= i < g.len(),
    ensures
        phi_sum(g.update(i, t)) == phi_sum(g) - phi_tile(g[i]) + phi_tile(t),
    decreases g.len(),
{
    let u = g.update(i, t);
    if i == g.len() - 1 {
        assert(u.drop_last() =~= g.drop_last());
        assert(u.last() == t);
    } else {
        assert(u.drop_last() =~= g.drop_last().update(i, t));
        assert(u.last() == g.last());
        lemma_phi_sum_update(g.drop_last(), i, t);
    }
}

/// An assigned tile of a valid bounded grid has potential strictly below
/// `dmax()`.
pub proof fn lemma_phi_tile_assigned(t: Tile, size: Point, seeds: Seq<Point>)
    requires
        seeds_ok(size, seeds),
        tile_ok(t, seeds),
        pt_bounded(t.position),
        t.id != 0,
    ensures
        0 <= phi_tile(t) < dmax(),
{
    assert(pt_bounded(t.seed_position));
    lemma_dist_sq_bounded(t.position, t.seed_position);
}

/// Updating one in-bounds cell with a tile of the same position: the grid
/// stays valid, all other cells are untouched, and the potential shifts by
/// exactly the one tile's difference.
pub proof fn lemma_grid_update(
    g: Seq<Tile>,
    size: Point,
    seeds: Seq<Point>,
    x: int,
    y: int,
    t2: Tile,
)
    requires
        seeds_ok(size, seeds),
        grid_ok(g, size, seeds),
        in_bounds(size, x, y),
        t2.position == (Point { x: x as usize, y: y as usize }),
        tile_ok(t2, seeds),
    ensures
        ({
            let g1 = g.update(grid_index(size, x, y), t2);
            &&& grid_ok(g1, size, seeds)
            &&& g1.len() == g.len()
            &&& g_at(g1, size, x, y) == t2
            &&& forall|a: int, b: int|
                in_bounds(size, a, b) && (a != x || b != y) ==> #[trigger] g_at(g1, size, a, b)
                    == g_at(g, size, a, b)
            &&& phi_sum(g1) == phi_sum(g) - phi_tile(g_at(g, size, x, y)) + phi_tile(t2)
        }),
{
    let g1 = g.update(grid_index(size, x, y), t2);
    lemma_grid_index_bound(size, x, y);
    lemma_phi_sum_update(g, grid_index(size, x, y), t2);
    assert forall|a: int, b: int| in_bounds(size, a, b) && (a != x || b != y) implies #[trigger]
    g_at(g1, size, a, b) == g_at(g, size, a, b) by {
        lemma_grid_index_inj(size, a, b, x, y);
        lemma_grid_index_bound(size, a, b);
    }
    assert forall|a: int, b: int| in_bounds(size, a, b) implies (#[trigger] g_at(
        g1,
        size,
        a,
        b,
    )).position == (Point { x: a as usize, y: b as usize }) && tile_ok(g_at(g1, size, a, b), seeds)
        by {
        if a == x && b == y {
        } else {
            lemma_grid_index_inj(size, a, b, x, y);
            lemma_grid_index_bound(size, a, b);
            assert(g_at(g, size, a, b).position == (Point { x: a as usize, y: b as usize }));
            assert(tile_ok(g_at(g, size, a, b), seeds));
        }
    }
}

/// A changed cell is never a seed's own cell, so pre-labeled seed cells
/// survive every candidate update.
pub proof fn lemma_seeds_own_update(
    g: Seq<Tile>,
    size: Point,
    seeds: Seq<Point>,
    x: int,
    y: int,
    cur: Tile,
)
    requires
        seeds_ok(size, seeds),
        grid_ok(g, size, seeds),
        seeds_own(g, size, seeds),
        in_bounds(size, x, y),
        cur.id != 0,
        candidate_takes(g_at(g, size, x, y), cur),
    ensures
        seeds_own(
            g.update(grid_index(size, x, y), apply_candidate(g_at(g, size, x, y), cur)),
            size,
            seeds,
        ),
{
    let t = g_at(g, size, x, y);
    let g1 = g.update(grid_index(size, x, y), apply_candidate(t, cur));
    assert forall|k: int| 0 <= k < seeds.len() implies g_at(
        g1,
        size,
        (#[trigger] seeds[k]).x as int,
        seeds[k].y as int,
    ) == (Tile { id: (k + 1) as usize, position: seeds[k], seed_position: seeds[k] }) by {
        let sx = seeds[k].x as int;
        let sy = seeds[k].y as int;
        if sx == x && sy == y {
            assert(t == (Tile { id: (k + 1) as usize, position: seeds[k], seed_position: seeds[k] }));
            lemma_dist_sq_zero(seeds[k], seeds[k]);
            lemma_dist_sq_nonneg(t.position, cur.seed_position);
            assert(false);
        } else {
            lemma_grid_index_inj(size, sx, sy, x, y);
            lemma_grid_index_bound(size, sx, sy);
            lemma_grid_index_bound(size, x, y);
        }
    }
}

/// What one popped cell's propagation pass does: the grid stays valid and
/// seed cells self-owned; the queue grows only at the tail; a cell either
/// keeps its tile or takes the candidate and is enqueued; after the pass no
/// in-bounds neighbor of `pos` can still be changed by `cur`; every
/// appended position is an assigned in-bounds cell; and the potential drops
/// by at least one per appended position.
pub proof fn lemma_proc_dirs(
    g: Seq<Tile>,
    q: Seq<Point>,
    cur: Tile,
    pos: Point,
    size: Point,
    seeds: Seq<Point>,
    step: int,
    k: int,
)
    requires
        0 <= k <= 9,
        seeds_ok(size, seeds),
        grid_ok(g, size, seeds),
        seeds_own(g, size, seeds),
        cur.id != 0,
        tile_ok(cur, seeds),
        in_bounds(size, pos.x as int, pos.y as int),
        g_at(g, size, pos.x as int, pos.y as int) == cur,
    ensures
        ({
            let r = proc_dirs(g, q, cur, pos, size, step, k);
            &&& grid_ok(r.0, size, seeds)
            &&& seeds_own(r.0, size, seeds)
            &&& r.0.len() == g.len()
            &&& g_at(r.0, size, pos.x as int, pos.y as int) == cur
            &&& r.1.len() >= q.len()
            &&& r.1.subrange(0, q.len() as int) == q
            &&& forall|x: int, y: int|
                in_bounds(size, x, y) ==> #[trigger] g_at(r.0, size, x, y) == g_at(g, size, x, y)
                    || (candidate_takes(g_at(g, size, x, y), cur) && g_at(r.0, size, x, y)
                    == apply_candidate(g_at(g, size, x, y), cur) && in_queue(r.1, x, y))
            &&& forall|k2: int|
                k <= k2 < 9 && in_bounds(size, pos.x + dir_dx(k2) * step, pos.y + dir_dy(k2) * step)
                    ==> !candidate_takes(
                    #[trigger] g_at(
                        r.0,
                        size,
                        pos.x + dir_dx(k2) * step,
                        pos.y + dir_dy(k2) * step,
                    ),
                    cur,
                )
            &&& forall|i: int|
                q.len() <= i < r.1.len() ==> in_bounds(
                    size,
                    (#[trigger] r.1[i]).x as int,
                    r.1[i].y as int,
                ) && g_at(r.0, size, r.1[i].x as int, r.1[i].y as int).id != 0
            &&& phi_sum(r.0) + r.1.len() <= phi_sum(g) + q.len()
        }),
    decreases 9 - k,
{
    let r = proc_dirs(g, q, cur, pos, size, step, k);
    if k >= 9 {
        assert(q.subrange(0, q.len() as int) =~= q);
    } else {
        let x2 = pos.x + dir_dx(k) * step;
        let y2 = pos.y + dir_dy(k) * step;
        if in_bounds(size, x2, y2) {
            let t = g_at(g, size, x2, y2);
            if candidate_takes(t, cur) {
                let t2 = apply_candidate(t, cur);
                let idx = grid_index(size, x2, y2);
                let g1 = g.update(idx, t2);
                let q1 = q.push(t2.position);
                assert(r == proc_dirs(g1, q1, cur, pos, size, step, k + 1));
                assert(t.position == (Point { x: x2 as usize, y: y2 as usize }));
                assert(tile_ok(t2, seeds));
                lemma_grid_update(g, size, seeds, x2, y2, t2);
                lemma_seeds_own_update(g, size, seeds, x2, y2, cur);
                if x2 == pos.x as int && y2 == pos.y as int {
                    assert(t == cur);
                    assert(false);
                }
                assert(g_at(g1, size, pos.x as int, pos.y as int) == cur);
                if t.id == 0 {
                    lemma_phi_tile_assigned(t2, size, seeds);
                }
                assert(phi_tile(t2) < phi_tile(t));
                lemma_proc_dirs(g1, q1, cur, pos, size, seeds, step, k + 1);
                // the queue only ever grows at the tail
                assert(q1.subrange(0, q.len() as int) =~= q);
                assert forall|i: int| 0 <= i < q.len() implies r.1[i] == q[i] by {
                    assert(r.1.subrange(0, q1.len() as int)[i] == q1[i]);
                }
                assert(r.1.subrange(0, q.len() as int) =~= q);
                // the cell changed at this offset is claimed by `cur` and enqueued
                assert(r.1[q.len() as int] == q1[q.len() as int]) by {
                    assert(r.1.subrange(0, q1.len() as int)[q.len() as int] == q1[q.len() as int]);
                }
                assert(in_queue(r.1, x2, y2)) by {
                    assert(r.1[q.len() as int] == (Point { x: x2 as usize, y: y2 as usize }));
                }
                // every cell either keeps its tile or takes the candidate
                assert forall|x: int, y: int| in_bounds(size, x, y) implies #[trigger] g_at(
                    r.0,
                    size,
                    x,
                    y,
                ) == g_at(g, size, x, y) || (candidate_takes(g_at(g, size, x, y), cur) && g_at(
                    r.0,
                    size,
                    x,
                    y,
                ) == apply_candidate(g_at(g, size, x, y), cur) && in_queue(r.1, x, y)) by {
                    if x == x2 && y == y2 {
                        assert(g_at(g1, size, x, y) == t2);
                        assert(g_at(r.0, size, x, y) == t2 || (candidate_takes(t2, cur) && g_at(
                            r.0,
                            size,
                            x,
                            y,
                        ) == apply_candidate(t2, cur) && in_queue(r.1, x, y)));
                        assert(!candidate_takes(t2, cur));
                        assert(g_at(r.0, size, x, y) == apply_candidate(t, cur));
                    } else {
                        assert(g_at(g1, size, x, y) == g_at(g, size, x, y));
                    }
                }
                // after this pass the neighbor at offset `k` is beyond change
                assert(g_at(r.0, size, x2, y2) == t2);
                assert(!candidate_takes(g_at(r.0, size, x2, y2), cur));
            } else {
                assert(r == proc_dirs(g, q, cur, pos, size, step, k + 1));
                lemma_proc_dirs(g, q, cur, pos, size, seeds, step, k + 1);
                assert forall|k2: int|
                    k <= k2 < 9 && in_bounds(
                        size,
                        pos.x + dir_dx(k2) * step,
                        pos.y + dir_dy(k2) * step,
                    ) implies !candidate_takes(
                    #[trigger] g_at(
                        r.0,
                        size,
                        pos.x + dir_dx(k2) * step,
                        pos.y + dir_dy(k2) * step,
                    ),
                    cur,
                ) by {
                    if k2 == k {
                        assert(g_at(r.0, size, x2, y2) == t || (candidate_takes(t, cur) && g_at(
                            r.0,
                            size,
                            x2,
                            y2,
                        ) == apply_candidate(t, cur) && in_queue(r.1, x2, y2)));
                        assert(g_at(r.0, size, x2, y2) == t);
                    }
                }
            }
        } else {
            assert(r == proc_dirs(g, q, cur, pos, size, step, k + 1));
            lemma_proc_dirs(g, q, cur, pos, size, seeds, step, k + 1);
        }
    }
}

/// One engine step preserves the invariant, never clears an assigned cell,
/// and strictly decreases the termination measure while work remains.
pub proof fn lemma_step1_preserves_inv(m: Model, size: Point, seeds: Seq<Point>)
    requires
        inv(m, size, seeds),
    ensures
        inv(step1(m, size), size, seeds),
        step1(m, size).grid.len() == m.grid.len(),
        forall|x: int, y: int|
            in_bounds(size, x, y) && (#[trigger] g_at(m.grid, size, x, y)).id != 0 ==> g_at(
                step1(m, size).grid,
                size,
                x,
                y,
            ).id != 0,
        m.queue.len() > 0 ==> phi_sum(step1(m, size).grid) + step1(m, size).queue.len() < phi_sum(
            m.grid,
        ) + m.queue.len(),
{
    if m.queue.len() == 0 {
    } else {
        let pos = m.queue[0];
        let cur = g_at(m.grid, size, pos.x as int, pos.y as int);
        let tail = m.queue.skip(1);
        let r = proc_dirs(m.grid, tail, cur, pos, size, 1, 0);
        let m2 = step1(m, size);
        assert(m2.grid == r.0 && m2.queue == r.1);
        assert(in_bounds(size, (m.queue[0]).x as int, m.queue[0].y as int) && g_at(
            m.grid,
            size,
            m.queue[0].x as int,
            m.queue[0].y as int,
        ).id != 0);
        assert(tile_ok(cur, seeds));
        lemma_proc_dirs(m.grid, tail, cur, pos, size, seeds, 1, 0);
        // every queued position still points at an assigned in-bounds cell
        assert forall|i: int| 0 <= i < r.1.len() implies in_bounds(
            size,
            (#[trigger] r.1[i]).x as int,
            r.1[i].y as int,
        ) && g_at(r.0, size, r.1[i].x as int, r.1[i].y as int).id != 0 by {
            if i < tail.len() {
                assert(r.1.subrange(0, tail.len() as int)[i] == tail[i]);
                assert(r.1[i] == m.queue[i + 1]);
                let x = r.1[i].x as int;
                let y = r.1[i].y as int;
                assert(in_bounds(size, x, y) && g_at(m.grid, size, x, y).id != 0);
                assert(g_at(r.0, size, x, y) == g_at(m.grid, size, x, y) || (candidate_takes(
                    g_at(m.grid, size, x, y),
                    cur,
                ) && g_at(r.0, size, x, y) == apply_candidate(g_at(m.grid, size, x, y), cur)
                    && in_queue(r.1, x, y)));
            }
        }
        // closed: all unfinished work is queued
        assert forall|x: int, y: int|
            in_bounds(size, x, y) && (#[trigger] g_at(r.0, size, x, y)).id != 0 && !in_queue(
                r.1,
                x,
                y,
            ) implies cell_settled(r.0, size, x, y) by {
            assert(g_at(r.0, size, x, y) == g_at(m.grid, size, x, y) || (candidate_takes(
                g_at(m.grid, size, x, y),
                cur,
            ) && g_at(r.0, size, x, y) == apply_candidate(g_at(m.grid, size, x, y), cur)
                && in_queue(r.1, x, y)));
            assert(g_at(r.0, size, x, y) == g_at(m.grid, size, x, y));
            if x == pos.x as int && y == pos.y as int {
                assert(g_at(r.0, size, x, y) == cur);
                assert forall|k2: int|
                    0 <= k2 < 9 && in_bounds(size, x + dir_dx(k2), y + dir_dy(k2)) implies
                    !candidate_takes(
                    #[trigger] g_at(r.0, size, x + dir_dx(k2), y + dir_dy(k2)),
                    g_at(r.0, size, x, y),
                ) by {
                    assert(dir_dx(k2) * 1 == dir_dx(k2) && dir_dy(k2) * 1 == dir_dy(k2));
                    assert(!candidate_takes(
                        g_at(r.0, size, pos.x + dir_dx(k2) * 1, pos.y + dir_dy(k2) * 1),
                        cur,
                    ));
                }
            } else {
                assert(!in_queue(m.queue, x, y)) by {
                    if in_queue(m.queue, x, y) {
                        let i = choose|i: int|
                            0 <= i < m.queue.len() && m.queue[i] == (Point {
                                x: x as usize,
                                y: y as usize,
                            });
                        if i == 0 {
                            assert(pos == (Point { x: x as usize, y: y as usize }));
                            assert(false);
                        } else {
                            assert(tail[i - 1] == m.queue[i]);
                            assert(r.1.subrange(0, tail.len() as int)[i - 1] == tail[i - 1]);
                            assert(r.1[i - 1] == (Point { x: x as usize, y: y as usize }));
                            assert(in_queue(r.1, x, y));
                            assert(false);
                        }
                    }
                }
                assert(cell_settled(m.grid, size, x, y));
                let c_cell = g_at(m.grid, size, x, y);
                assert forall|k2: int|
                    0 <= k2 < 9 && in_bounds(size, x + dir_dx(k2), y + dir_dy(k2)) implies
                    !candidate_takes(
                    #[trigger] g_at(r.0, size, x + dir_dx(k2), y + dir_dy(k2)),
                    g_at(r.0, size, x, y),
                ) by {
                    let nx = x + dir_dx(k2);
                    let ny = y + dir_dy(k2);
                    let n_old = g_at(m.grid, size, nx, ny);
                    assert(!candidate_takes(n_old, c_cell));
                    assert(g_at(r.0, size, nx, ny) == n_old || (candidate_takes(n_old, cur)
                        && g_at(r.0, size, nx, ny) == apply_candidate(n_old, cur) && in_queue(
                        r.1,
                        nx,
                        ny,
                    )));
                    if g_at(r.0, size, nx, ny) != n_old {
                        assert(n_old.id != 0);
                        assert(tile_ok(n_old, seeds) && tile_ok(c_cell, seeds));
                        lemma_improvement_keeps_settled(n_old, cur, c_cell, seeds);
                    }
                }
            }
        }
    }
}

/// Monotone improvement keeps settledness: if offering cell `c`'s seed to
/// tile `t` would change nothing, it still changes nothing after `t` is
/// reassigned to a strictly closer candidate.
pub proof fn lemma_improvement_keeps_settled(t: Tile, cand: Tile, c: Tile, seeds: Seq<Point>)
    requires
        tile_ok(t, seeds),
        tile_ok(c, seeds),
        t.id != 0,
        c.id != 0,
        cand.id != 0,
        !candidate_takes(t, c),
        candidate_takes(t, cand),
    ensures
        !candidate_takes(apply_candidate(t, cand), c),
{
    if c.id == t.id {
        assert(c.seed_position == t.seed_position);
    }
}

/// The initialized engine state satisfies the invariant: exactly the seed
/// cells are assigned, each pre-labeled with its own id, and all of them
/// are queued.
pub proof fn lemma_init_inv(size: Point, seeds: Seq<Point>)
    ensures
        seeds_ok(size, seeds) ==> inv(init_model(size, seeds), size, seeds),
{
    if seeds_ok(size, seeds) {
        let g = init_grid(size, seeds);
        assert forall|x: int, y: int| in_bounds(size, x, y) implies (#[trigger] g_at(
            g,
            size,
            x,
            y,
        )).position == (Point { x: x as usize, y: y as usize }) && tile_ok(g_at(g, size, x, y), seeds)
            by {
            lemma_init_grid_at(size, seeds, x, y);
            lemma_seed_id_at_range(seeds, x, y);
        }
        assert forall|k: int| 0 <= k < seeds.len() implies g_at(
            g,
            size,
            (#[trigger] seeds[k]).x as int,
            seeds[k].y as int,
        ) == (Tile { id: (k + 1) as usize, position: seeds[k], seed_position: seeds[k] }) by {
            let sx = seeds[k].x as int;
            let sy = seeds[k].y as int;
            lemma_init_grid_at(size, seeds, sx, sy);
            lemma_seed_id_at_self(seeds, k);
            assert(seeds[k] == (Point { x: sx as usize, y: sy as usize }));
        }
        assert forall|i: int| 0 <= i < seeds.len() implies in_bounds(
            size,
            (#[trigger] seeds[i]).x as int,
            seeds[i].y as int,
        ) && g_at(g, size, seeds[i].x as int, seeds[i].y as int).id != 0 by {
            assert(g_at(g, size, seeds[i].x as int, seeds[i].y as int) == (Tile {
                id: (i + 1) as usize,
                position: seeds[i],
                seed_position: seeds[i],
            }));
        }
        assert forall|x: int, y: int|
            in_bounds(size, x, y) && (#[trigger] g_at(g, size, x, y)).id != 0 && !in_queue(
                seeds,
                x,
                y,
            ) implies cell_settled(g, size, x, y) by {
            lemma_init_grid_at(size, seeds, x, y);
            lemma_seed_id_at_range(seeds, x, y);
            let id = seed_id_at(seeds, x, y);
            assert(seeds[id - 1] == (Point { x: x as usize, y: y as usize }));
            assert(in_queue(seeds, x, y));
        }
    }
}

/// Running any number of steps preserves the invariant, and ownership is
/// monotonic: a cell assigned a non-zero id is never reset to 0 by any
/// later step — it is only reassigned or left unchanged.
pub proof fn lemma_run_n_inv(m: Model, size: Point, seeds: Seq<Point>, n: nat)
    requires
        inv(m, size, seeds),
    ensures
        inv(run_n(m, size, n), size, seeds),
        run_n(m, size, n).grid.len() == m.grid.len(),
        forall|x: int, y: int|
            in_bounds(size, x, y) && (#[trigger] g_at(m.grid, size, x, y)).id != 0 ==> g_at(
                run_n(m, size, n).grid,
                size,
                x,
                y,
            ).id != 0,
    decreases n,
{
    if n > 0 {
        let prev = run_n(m, size, (n - 1) as nat);
        lemma_run_n_inv(m, size, seeds, (n - 1) as nat);
        lemma_step1_preserves_inv(prev, size, seeds);
        assert forall|x: int, y: int|
            in_bounds(size, x, y) && (#[trigger] g_at(m.grid, size, x, y)).id != 0 implies g_at(
            run_n(m, size, n).grid,
            size,
            x,
            y,
        ).id != 0 by {
            assert(g_at(prev.grid, size, x, y).id != 0);
        }
    }
}

/// Once the queue is empty the state is a fixpoint: further steps change
/// nothing.
pub proof fn lemma_run_n_stable(m: Model, size: Point, n1: nat, n2: nat)
    requires
        run_n(m, size, n1).queue.len() == 0,
        n1 <= n2,
    ensures
        run_n(m, size, n2) == run_n(m, size, n1),
    decreases n2,
{
    if n2 > n1 {
        lemma_run_n_stable(m, size, n1, (n2 - 1) as nat);
    }
}

/// Sequential determinism: however many steps two executions take to drain
/// the queue, they end in the same state — the fixpoint reached from a
/// given initial state is unique.
pub proof fn lemma_sequential_deterministic(m: Model, size: Point, n1: nat, n2: nat)
    requires
        run_n(m, size, n1).queue.len() == 0,
        run_n(m, size, n2).queue.len() == 0,
    ensures
        run_n(m, size, n1) == run_n(m, size, n2),
{
    if n1 <= n2 {
        lemma_run_n_stable(m, size, n1, n2);
    } else {
        lemma_run_n_stable(m, size, n2, n1);
    }
}

/// `g` is a grid the sequential engine can end with on this input: the
/// state of some drained execution from the initialized state.
pub open spec fn is_fill_result(size: Point, seeds: Seq<Point>, g: Seq<Tile>) -> bool {
    exists|n: nat|
        run_n(init_model(size, seeds), size, n).queue.len() == 0 && g == run_n(
            init_model(size, seeds),
            size,
            n,
        ).grid
}

/// Sequential determinism at the interface: any two drained executions of
/// the sequential engine on identical input produce identical grids.
pub proof fn lemma_fill_deterministic(size: Point, seeds: Seq<Point>, g1: Seq<Tile>, g2: Seq<Tile>)
    requires
        is_fill_result(size, seeds, g1),
        is_fill_result(size, seeds, g2),
    ensures
        g1 == g2,
{
    let m = init_model(size, seeds);
    let n1 = choose|n: nat|
        run_n(init_model(size, seeds), size, n).queue.len() == 0 && g1 == run_n(
            init_model(size, seeds),
            size,
            n,
        ).grid;
    let n2 = choose|n: nat|
        run_n(init_model(size, seeds), size, n).queue.len() == 0 && g2 == run_n(
            init_model(size, seeds),
            size,
            n,
        ).grid;
    lemma_sequential_deterministic(m, size, n1, n2);
}

/// Absolute value of an integer.
pub open spec fn abs_i(v: int) -> int {
    if v < 0 {
        -v
    } else {
        v
    }
}

proof fn lemma_reach(m: Model, size: Point, seeds: Seq<Point>, x: int, y: int)
    requires
        inv(m, size, seeds),
        m.queue.len() == 0,
        seeds.len() >= 1,
        in_bounds(size, x, y),
    ensures
        g_at(m.grid, size, x, y).id != 0,
    decreases abs_i(x - seeds[0].x) + abs_i(y - seeds[0].y),
{
    let s = seeds[0];
    let sx = s.x as int;
    let sy = s.y as int;
    assert(g_at(m.grid, size, sx, sy) == (Tile {
        id: 1usize,
        position: seeds[0],
        seed_position: seeds[0],
    }));
    if x == sx && y == sy {
    } else {
        let px = if x < sx {
            x + 1
        } else if x > sx {
            x - 1
        } else {
            x
        };
        let py = if y < sy {
            y + 1
        } else if y > sy {
            y - 1
        } else {
            y
        };
        assert(in_bounds(size, px, py));
        lemma_reach(m, size, seeds, px, py);
        assert(!in_queue(m.queue, px, py));
        assert(cell_settled(m.grid, size, px, py));
        let dx = x - px;
        let dy = y - py;
        let k = 3 * (dx + 1) + (dy + 1);
        assert(0 <= k < 9);
        assert(dir_dx(k) == dx && dir_dy(k) == dy);
        assert(!candidate_takes(
            g_at(m.grid, size, px + dir_dx(k), py + dir_dy(k)),
            g_at(m.grid, size, px, py),
        ));
        if g_at(m.grid, size, x, y).id == 0 {
            assert(candidate_takes(g_at(m.grid, size, x, y), g_at(m.grid, size, px, py)));
            assert(false);
        }
    }
}

/// Local optimality read off a settled neighbor: an assigned cell's
/// recorded seed is at least as close to it as the seed recorded by any
/// assigned 8-neighbor. In particular, of two candidate seeds offered
/// through neighbors at strictly different distances, the closer one is
/// the final owner.
pub proof fn lemma_local_optimality(
    g: Seq<Tile>,
    size: Point,
    seeds: Seq<Point>,
    x: int,
    y: int,
    nx: int,
    ny: int,
)
    requires
        grid_ok(g, size, seeds),
        in_bounds(size, x, y),
        in_bounds(size, nx, ny),
        abs_i(nx - x) <= 1,
        abs_i(ny - y) <= 1,
        g_at(g, size, x, y).id != 0,
        g_at(g, size, nx, ny).id != 0,
        cell_settled(g, size, nx, ny),
    ensures
        spec_dist_sq(g_at(g, size, x, y).position, g_at(g, size, x, y).seed_position)
            <= spec_dist_sq(g_at(g, size, x, y).position, g_at(g, size, nx, ny).seed_position),
{
    let c = g_at(g, size, x, y);
    let n = g_at(g, size, nx, ny);
    let dx = x - nx;
    let dy = y - ny;
    let k = 3 * (dx + 1) + (dy + 1);
    assert(0 <= k < 9);
    assert(dir_dx(k) == dx && dir_dy(k) == dy);
    assert(!candidate_takes(g_at(g, size, nx + dir_dx(k), ny + dir_dy(k)), n));
    if c.id == n.id {
        assert(c.seed_position == seeds[c.id - 1]);
        assert(n.seed_position == seeds[c.id - 1]);
    }
}

/// Total coverage: at quiescence of the sequential engine, every cell of
/// the (8-connected, hence connected) grid with at least one seed carries
/// a non-zero id.
pub proof fn lemma_coverage(m: Model, size: Point, seeds: Seq<Point>)
    requires
        inv(m, size, seeds),
        m.queue.len() == 0,
        seeds.len() >= 1,
    ensures
        forall|x: int, y: int|
            in_bounds(size, x, y) ==> (#[trigger] g_at(m.grid, size, x, y)).id != 0,
{
    assert forall|x: int, y: int| in_bounds(size, x, y) implies (#[trigger] g_at(
        m.grid,
        size,
        x,
        y,
    )).id != 0 by {
        lemma_reach(m, size, seeds, x, y);
    }
}

} // verus!
