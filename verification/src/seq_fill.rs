//! The sequential fill engine: a deterministic multi-source breadth-first
//! flood fill over a single shared FIFO queue, verified against the model
//! in [`crate::model`].

use vstd::prelude::*;

verus! {

use crate::geometry::{Point, in_bounds, pt_bounded, point_bounderies, spec_dist_sq};
use crate::tile::{Tile, resolve_candidate};
use crate::grid::{
    Grid,
    place_seeds,
    g_at,
    size_ok,
    seeds_ok,
    tile_ok,
    grid_ok,
    seeds_own,
    queue_ok,
    lemma_tile_ok_bounded,
};
use crate::model::{
    Model,
    dir_dx,
    dir_dy,
    proc_dirs,
    step1,
    run_n,
    init_model,
    inv,
    cell_settled,
    phi_sum,
    abs_i,
    is_fill_result,
    lemma_init_inv,
    lemma_step1_preserves_inv,
    lemma_grid_update,
    lemma_phi_sum_nonneg,
    lemma_coverage,
    lemma_local_optimality,
};

/// The sequential engine's state: the grid, the FIFO work queue (a vector
/// read from `head` onward), and ghost records of the seed list and of how
/// many model steps have run.
pub struct FloodFill {
    pub grid: Grid,
    pub queue: Vec<Point>,
    pub head: usize,
    pub seeds: Ghost<Seq<Point>>,
    pub steps: Ghost<nat>,
}

impl FloodFill {
    /// The model state this engine state refines.
    pub open spec fn model(self) -> Model {
        Model { grid: self.grid.tiles@, queue: self.queue@.skip(self.head as int) }
    }

    /// The engine refines the model: its state is the invariant-preserving
    /// state reached by exactly `steps` model steps from initialization.
    pub open spec fn wf(self) -> bool {
        &&& self.head <= self.queue@.len()
        &&& inv(self.model(), self.grid.size, self.seeds@)
        &&& self.model() == run_n(
            init_model(self.grid.size, self.seeds@),
            self.grid.size,
            self.steps@,
        )
    }

    /// Initialize the engine: a blank grid with the seed cells pre-labeled
    /// 1..N in input order, and the queue holding exactly the seeds.
    pub fn new(space_size: Point, seeds: &Vec<Point>) -> (f: FloodFill)
        requires
            seeds_ok(space_size, seeds@),
        ensures
            f.wf(),
            f.grid.size == space_size,
            f.seeds@ == seeds@,
            f.steps@ == 0,
            f.model() == init_model(space_size, seeds@),
    {
        let mut grid = Grid::new(space_size);
        place_seeds(&mut grid, seeds);
        let mut queue: Vec<Point> = Vec::new();
        let mut i: usize = 0;
        while i < seeds.len()
            invariant
                i <= seeds@.len(),
                queue@ == seeds@.subrange(0, i as int),
            decreases seeds@.len() - i,
        {
            queue.push(seeds[i]);
            proof {
                assert(queue@ =~= seeds@.subrange(0, i + 1 as int));
            }
            i = i + 1;
        }
        proof {
            assert(queue@ =~= seeds@);
        }
        let f = FloodFill {
            grid,
            queue,
            head: 0,
            seeds: Ghost(seeds@),
            steps: Ghost(0nat),
        };
        proof {
            assert(f.model().queue =~= seeds@);
            lemma_init_inv(space_size, seeds@);
            assert(f.model() == init_model(space_size, seeds@));
        }
        f
    }

    /// True when the queue is drained and the labeling is complete.
    pub fn done(&self) -> (r: bool)
        requires
            self.wf(),
        ensures
            r == (self.model().queue.len() == 0),
    {
        self.head == self.queue.len()
    }

    /// The tile whose position is at the front of the queue — what the
    /// next call to `step` will pop and propagate.
    pub fn peek(&self) -> (r: Tile)
        requires
            self.wf(),
            self.model().queue.len() > 0,
        ensures
            r == g_at(
                self.model().grid,
                self.grid.size,
                self.model().queue[0].x as int,
                self.model().queue[0].y as int,
            ),
    {
        proof {
            assert(self.model().queue.len() == self.queue@.len() - self.head);
            assert(self.head < self.queue.len());
            assert(in_bounds(
                self.grid.size,
                (self.model().queue[0]).x as int,
                self.model().queue[0].y as int,
            ));
        }
        let pos = self.queue[self.head];
        self.grid.at(pos.x, pos.y)
    }

    /// One engine step: pop the front position, offer its tile to all nine
    /// unit-offset neighbors (claim unclaimed ones, reassign strictly
    /// closer ones, enqueue every changed cell), and return the popped
    /// tile. Ownership is monotone: no assigned cell is ever cleared.
    pub fn step(&mut self) -> (r: Tile)
        requires
            old(self).wf(),
            old(self).model().queue.len() > 0,
        ensures
            final(self).wf(),
            final(self).grid.size == old(self).grid.size,
            final(self).seeds@ == old(self).seeds@,
            final(self).steps@ == old(self).steps@ + 1,
            final(self).model() == step1(old(self).model(), old(self).grid.size),
            r == g_at(
                old(self).model().grid,
                old(self).grid.size,
                old(self).model().queue[0].x as int,
                old(self).model().queue[0].y as int,
            ),
            forall|x: int, y: int|
                in_bounds(old(self).grid.size, x, y) && (#[trigger] g_at(
                    old(self).model().grid,
                    old(self).grid.size,
                    x,
                    y,
                )).id != 0 ==> g_at(final(self).model().grid, old(self).grid.size, x, y).id != 0,
            phi_sum(final(self).model().grid) + final(self).model().queue.len() < phi_sum(
                old(self).model().grid,
            ) + old(self).model().queue.len(),
    {
        let ghost size = self.grid.size;
        let ghost seedsg = self.seeds@;
        let ghost m0 = self.model();
        proof {
            assert(m0.queue.len() == self.queue@.len() - self.head);
            assert(self.head < self.queue.len());
        }
        let pos = self.queue[self.head];
        self.head = self.head + 1;
        proof {
            assert(m0.queue[0] == pos);
            assert(in_bounds(size, (m0.queue[0]).x as int, m0.queue[0].y as int) && g_at(
                m0.grid,
                size,
                m0.queue[0].x as int,
                m0.queue[0].y as int,
            ).id != 0);
        }
        let current = self.grid.at(pos.x, pos.y);
        let ghost head1 = self.head as int;
        let ghost g0 = self.grid.tiles@;
        let ghost q0 = self.queue@.skip(head1);
        proof {
            assert(q0 =~= m0.queue.skip(1));
            assert(tile_ok(current, seedsg));
            lemma_tile_ok_bounded(current, size, seedsg);
            assert(pt_bounded(current.position));
        }
        let mut k: usize = 0;
        while k < 9
            invariant
                k <= 9,
                self.grid.size == size,
                self.seeds@ == seedsg,
                self.steps@ == old(self).steps@,
                size_ok(size),
                seeds_ok(size, seedsg),
                self.grid.wf(),
                grid_ok(self.grid.tiles@, size, seedsg),
                self.head as int == head1,
                head1 <= self.queue@.len(),
                current.id != 0,
                tile_ok(current, seedsg),
                pt_bounded(current.position),
                pt_bounded(current.seed_position),
                in_bounds(size, pos.x as int, pos.y as int),
                proc_dirs(
                    self.grid.tiles@,
                    self.queue@.skip(head1),
                    current,
                    pos,
                    size,
                    1,
                    k as int,
                ) == proc_dirs(g0, q0, current, pos, size, 1, 0),
            decreases 9 - k,
        {
            let dx: isize = if k < 3 {
                -1
            } else if k < 6 {
                0
            } else {
                1
            };
            let dy: isize = if k == 0 || k == 3 || k == 6 {
                -1
            } else if k == 1 || k == 4 || k == 7 {
                0
            } else {
                1
            };
            proof {
                assert(dx as int == dir_dx(k as int) * 1 && dy as int == dir_dy(k as int) * 1);
                assert(pt_bounded(pos) && pt_bounded(self.grid.size));
            }
            let ghost gk = self.grid.tiles@;
            let ghost qk = self.queue@.skip(head1);
            match point_bounderies(&pos, dx, dy, &self.grid.size) {
                Some((x2, y2)) => {
                    let t = self.grid.at(x2, y2);
                    proof {
                        assert(tile_ok(t, seedsg));
                        if t.id != 0 {
                            lemma_tile_ok_bounded(t, size, seedsg);
                        }
                    }
                    let rc = resolve_candidate(&t, &current);
                    if rc.1 {
                        self.grid.set_at(x2, y2, rc.0);
                        self.queue.push(rc.0.position);
                        proof {
                            assert(self.queue@.skip(head1) =~= qk.push(rc.0.position));
                            assert(tile_ok(rc.0, seedsg));
                            lemma_grid_update(gk, size, seedsg, x2 as int, y2 as int, rc.0);
                            assert(proc_dirs(gk, qk, current, pos, size, 1, k as int)
                                == proc_dirs(
                                self.grid.tiles@,
                                self.queue@.skip(head1),
                                current,
                                pos,
                                size,
                                1,
                                k as int + 1,
                            ));
                        }
                    } else {
                        proof {
                            assert(proc_dirs(gk, qk, current, pos, size, 1, k as int)
                                == proc_dirs(gk, qk, current, pos, size, 1, k as int + 1));
                        }
                    }
                }
                None => {
                    proof {
                        assert(!in_bounds(
                            size,
                            pos.x + dir_dx(k as int) * 1,
                            pos.y + dir_dy(k as int) * 1,
                        ));
                        assert(proc_dirs(gk, qk, current, pos, size, 1, k as int)
                            == proc_dirs(gk, qk, current, pos, size, 1, k as int + 1));
                    }
                }
            }
            k = k + 1;
        }
        proof {
            let gfin = self.grid.tiles@;
            let qfin = self.queue@.skip(head1);
            assert(proc_dirs(gfin, qfin, current, pos, size, 1, 9) == (gfin, qfin));
            assert((gfin, qfin) == proc_dirs(g0, q0, current, pos, size, 1, 0));
            assert(current == g_at(m0.grid, size, m0.queue[0].x as int, m0.queue[0].y as int));
            assert(step1(m0, size) == self.model());
            lemma_step1_preserves_inv(m0, size, seedsg);
        }
        self.steps = Ghost(self.steps@ + 1);
        proof {
            assert(run_n(init_model(size, seedsg), size, self.steps@) == step1(
                run_n(init_model(size, seedsg), size, (self.steps@ - 1) as nat),
                size,
            ));
        }
        current
    }

    /// Run the engine to completion: pop and propagate until the queue is
    /// empty. Every cell assigned on entry is still assigned on exit.
    pub fn run(&mut self)
        requires
            old(self).wf(),
        ensures
            final(self).wf(),
            final(self).grid.size == old(self).grid.size,
            final(self).seeds@ == old(self).seeds@,
            final(self).model().queue.len() == 0,
            forall|x: int, y: int|
                in_bounds(old(self).grid.size, x, y) && (#[trigger] g_at(
                    old(self).model().grid,
                    old(self).grid.size,
                    x,
                    y,
                )).id != 0 ==> g_at(final(self).model().grid, old(self).grid.size, x, y).id != 0,
    {
        let ghost size = self.grid.size;
        let ghost seedsg = self.seeds@;
        let ghost gstart = self.model().grid;
        while self.head < self.queue.len()
            invariant
                self.wf(),
                self.grid.size == size,
                self.seeds@ == seedsg,
                forall|x: int, y: int|
                    in_bounds(size, x, y) && (#[trigger] g_at(gstart, size, x, y)).id != 0
                        ==> g_at(self.model().grid, size, x, y).id != 0,
            decreases phi_sum(self.model().grid) + self.model().queue.len(),
        {
            let ghost gpre = self.model().grid;
            proof {
                lemma_phi_sum_nonneg(self.model().grid);
            }
            self.step();
            proof {
                lemma_phi_sum_nonneg(self.model().grid);
                assert forall|x: int, y: int|
                    in_bounds(size, x, y) && (#[trigger] g_at(gstart, size, x, y)).id != 0 implies
                    g_at(self.model().grid, size, x, y).id != 0 by {
                    assert(g_at(gpre, size, x, y).id != 0);
                }
            }
        }
        proof {
            lemma_phi_sum_nonneg(self.model().grid);
        }
    }
}

/// The sequential engine end to end: initialize a grid from the seed list
/// and flood-fill it to quiescence.
///
/// The result is the unique drained state of the model (`is_fill_result`,
/// which pins it: running twice yields equal grids), every seed owns its
/// own cell, every cell is assigned when at least one seed exists, and
/// every cell is settled: no neighbor could still reassign it, so each
/// owner is at least as close as any owner a neighbor could offer.
pub fn sequential_fill(space_size: Point, seeds: &Vec<Point>) -> (r: Grid)
    requires
        seeds_ok(space_size, seeds@),
    ensures
        r.wf(),
        r.size == space_size,
        grid_ok(r.tiles@, space_size, seeds@),
        seeds_own(r.tiles@, space_size, seeds@),
        is_fill_result(space_size, seeds@, r.tiles@),
        seeds@.len() >= 1 ==> forall|x: int, y: int|
            in_bounds(space_size, x, y) ==> (#[trigger] g_at(r.tiles@, space_size, x, y)).id != 0,
        seeds@.len() >= 1 ==> forall|x: int, y: int|
            in_bounds(space_size, x, y) ==> #[trigger] cell_settled(r.tiles@, space_size, x, y),
        seeds@.len() >= 1 ==> forall|x: int, y: int, nx: int, ny: int|
            in_bounds(space_size, x, y) && in_bounds(space_size, nx, ny) && abs_i(nx - x) <= 1
                && abs_i(ny - y) <= 1 ==> spec_dist_sq(
                (#[trigger] g_at(r.tiles@, space_size, x, y)).position,
                g_at(r.tiles@, space_size, x, y).seed_position,
            ) <= spec_dist_sq(
                g_at(r.tiles@, space_size, x, y).position,
                (#[trigger] g_at(r.tiles@, space_size, nx, ny)).seed_position,
            ),
{
    let mut f = FloodFill::new(space_size, seeds);
    f.run();
    proof {
        let m = f.model();
        assert(run_n(init_model(space_size, seeds@), space_size, f.steps@).queue.len() == 0
            && m.grid == run_n(init_model(space_size, seeds@), space_size, f.steps@).grid);
        assert(is_fill_result(space_size, seeds@, m.grid));
        if seeds@.len() >= 1 {
            lemma_coverage(m, space_size, seeds@);
            assert forall|x: int, y: int| in_bounds(space_size, x, y) implies #[trigger]
            cell_settled(m.grid, space_size, x, y) by {
                assert(g_at(m.grid, space_size, x, y).id != 0);
                assert(!crate::grid::in_queue(m.queue, x, y));
            }
            assert forall|x: int, y: int, nx: int, ny: int|
                in_bounds(space_size, x, y) && in_bounds(space_size, nx, ny) && abs_i(nx - x) <= 1
                    && abs_i(ny - y) <= 1 implies spec_dist_sq(
                (#[trigger] g_at(m.grid, space_size, x, y)).position,
                g_at(m.grid, space_size, x, y).seed_position,
            ) <= spec_dist_sq(
                g_at(m.grid, space_size, x, y).position,
                (#[trigger] g_at(m.grid, space_size, nx, ny)).seed_position,
            ) by {
                lemma_local_optimality(m.grid, space_size, seeds@, x, y, nx, ny);
            }
        }
    }
    let FloodFill { grid, queue: _, head: _, seeds: _, steps: _ } = f;
    grid
}

} // verus!
