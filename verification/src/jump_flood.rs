//! The jump-flood engine's verified core: the descending round/step
//! schedule, and the per-seed task that drains one work queue at a given
//! step size, applying the same candidate-ownership decision as the
//! sequential engine. `jump_flood_fill` runs the full round structure
//! task by task and computes exactly the grid `fill_run` describes; a
//! concurrent driver can run the same tasks in parallel, one worker per
//! seed queue with per-cell synchronization, because each cell update is
//! the self-contained decision of [`crate::tile::resolve_candidate`] —
//! at the cost of the interleaving-dependent outcome of equidistant
//! contests.

use vstd::prelude::*;

verus! {

use crate::MAX_DIM;
use crate::geometry::{Point, in_bounds, pt_bounded, point_bounderies};
use crate::tile::{Tile, resolve_candidate};
use crate::grid::{
    Grid,
    place_seeds,
    g_at,
    size_ok,
    seeds_ok,
    tile_ok,
    grid_ok,
    seeds_own,
    queue_ok,
    init_grid,
    lemma_tile_ok_bounded,
    lemma_queue_ok_monotone,
};
use crate::model::{
    dir_dx,
    dir_dy,
    proc_dirs,
    init_model,
    inv,
    lemma_init_inv,
    lemma_grid_update,
    lemma_seeds_own_update,
};

/// The tail of the round schedule: successive integer halvings of `i`
/// down to 1.
pub open spec fn spec_halving(i: int) -> Seq<isize>
    decreases i,
{
    if i <= 0 {
        Seq::empty()
    } else {
        seq![i as isize] + spec_halving(i / 2)
    }
}

/// The full round schedule for a grid of width `x`: one unit-step pass,
/// then jumps of `x/2, x/4, ...` down to 1.
pub open spec fn spec_schedule(x: int) -> Seq<isize> {
    seq![1isize] + spec_halving(x / 2)
}

/// The grid and the accumulated next-round queue after one task drains
/// its work queue from index `qi` on at the given step size: each popped
/// position re-enqueues itself, then its tile is offered to the eight
/// step-scaled neighbors by the shared pass of the model.
pub open spec fn task_run(
    g: Seq<Tile>,
    q: Seq<Point>,
    next: Seq<Point>,
    size: Point,
    step: int,
    qi: int,
) -> (Seq<Tile>, Seq<Point>)
    decreases q.len() - qi,
{
    if qi < 0 || qi >= q.len() {
        (g, next)
    } else {
        let pos = q[qi];
        let cur = g_at(g, size, pos.x as int, pos.y as int);
        let r = proc_dirs(g, next.push(cur.position), cur, pos, size, step, 0);
        task_run(r.0, q, r.1, size, step, qi + 1)
    }
}

/// One round: one task per seed queue, in order, collecting the
/// next-round queues.
pub open spec fn round_run(
    g: Seq<Tile>,
    qs: Seq<Seq<Point>>,
    acc: Seq<Seq<Point>>,
    size: Point,
    step: int,
    qi: int,
) -> (Seq<Tile>, Seq<Seq<Point>>)
    decreases qs.len() - qi,
{
    if qi < 0 || qi >= qs.len() {
        (g, acc)
    } else {
        let r = task_run(g, qs[qi], Seq::empty(), size, step, 0);
        round_run(r.0, qs, acc.push(r.1), size, step, qi + 1)
    }
}

/// The whole deterministic jump flood from round `si` on: each round's
/// tasks run in seed order at that round's step size, and the queues they
/// return become the next round's queues.
pub open spec fn fill_run(
    g: Seq<Tile>,
    qs: Seq<Seq<Point>>,
    size: Point,
    steps: Seq<isize>,
    si: int,
) -> Seq<Tile>
    decreases steps.len() - si,
{
    if si < 0 || si >= steps.len() {
        g
    } else {
        let r = round_run(g, qs, Seq::empty(), size, steps[si] as int, 0);
        fill_run(r.0, r.1, size, steps, si + 1)
    }
}

/// One singleton work queue per seed, in input order.
pub open spec fn seed_queues(seeds: Seq<Point>) -> Seq<Seq<Point>> {
    Seq::new(seeds.len(), |i: int| seq![seeds[i]])
}

/// The queue contents of a vector of queue vectors.
pub open spec fn queues_view(qs: Seq<Vec<Point>>) -> Seq<Seq<Point>> {
    qs.map_values(|q: Vec<Point>| q@)
}

proof fn lemma_halving_bounds(i: int)
    requires
        0 <= i <= MAX_DIM,
    ensures
        forall|k: int| 0 <= k < spec_halving(i).len() ==> 1 <= #[trigger] spec_halving(i)[k] <= i,
    decreases i,
{
    if i > 0 {
        lemma_halving_bounds(i / 2);
        assert forall|k: int| 0 <= k < spec_halving(i).len() implies 1 <= #[trigger] spec_halving(
            i,
        )[k] <= i by {
            if k > 0 {
                assert(spec_halving(i)[k] == spec_halving(i / 2)[k - 1]);
            }
        }
    }
}

/// Build the round schedule: a leading step of 1, then the grid width's
/// successive halvings, largest jump first among the halvings.
pub fn step_schedule(space_size: &Point) -> (steps: Vec<isize>)
    requires
        size_ok(*space_size),
    ensures
        steps@ == spec_schedule(space_size.x as int),
        forall|k: int| 0 <= k < steps@.len() ==> 1 <= #[trigger] steps@[k] <= MAX_DIM as int,
{
    let x = space_size.x;
    let mut steps: Vec<isize> = Vec::new();
    steps.push(1);
    proof {
        assert(steps@ =~= seq![1isize]);
    }
    let mut i: isize = x as isize / 2;
    proof {
        assert(i as int == (x as int) / 2);
        assert(steps@ + spec_halving(i as int) =~= spec_schedule(x as int));
    }
    while i > 0
        invariant
            0 <= i <= MAX_DIM as int,
            steps@ + spec_halving(i as int) == spec_schedule(x as int),
            forall|k: int| 0 <= k < steps@.len() ==> 1 <= #[trigger] steps@[k] <= MAX_DIM as int,
        decreases i,
    {
        let ghost steps0 = steps@;
        let ghost i0 = i as int;
        steps.push(i);
        i = i / 2;
        proof {
            assert(i as int == i0 / 2);
            assert(spec_halving(i0) == seq![i0 as isize] + spec_halving(i0 / 2));
            assert((i0 as isize) as int == i0);
            assert(steps@ =~= steps0 + seq![i0 as isize]);
            assert(steps@ + spec_halving(i as int) =~= steps0 + spec_halving(i0));
        }
    }
    proof {
        assert(spec_halving(0) =~= Seq::<isize>::empty());
        assert(steps@ + spec_halving(0) =~= steps@);
    }
    steps
}

/// One jump-flood task: drain one seed's work queue at the given step
/// size. For each popped position the task re-enqueues the position itself
/// (a frontier always keeps its own cell), then offers the popped tile to
/// the eight step-scaled neighbors, claiming or reassigning by the shared
/// tie rule and enqueueing every changed cell for the next round.
///
/// The result is exactly `task_run` of the entry state; in addition the
/// grid stays valid, seed cells stay self-owned, no assigned cell is ever
/// cleared, and the returned queue points at assigned in-bounds cells.
pub fn run_task(grid: &mut Grid, queue: &Vec<Point>, step: isize, seeds: Ghost<Seq<Point>>) -> (next:
    Vec<Point>)
    requires
        old(grid).wf(),
        seeds_ok(old(grid).size, seeds@),
        grid_ok(old(grid).tiles@, old(grid).size, seeds@),
        seeds_own(old(grid).tiles@, old(grid).size, seeds@),
        queue_ok(queue@, old(grid).tiles@, old(grid).size),
        1 <= step <= MAX_DIM as int,
    ensures
        final(grid).size == old(grid).size,
        final(grid).wf(),
        (final(grid).tiles@, next@) == task_run(
            old(grid).tiles@,
            queue@,
            Seq::<Point>::empty(),
            old(grid).size,
            step as int,
            0,
        ),
        grid_ok(final(grid).tiles@, old(grid).size, seeds@),
        seeds_own(final(grid).tiles@, old(grid).size, seeds@),
        queue_ok(next@, final(grid).tiles@, old(grid).size),
        forall|x: int, y: int|
            in_bounds(old(grid).size, x, y) && (#[trigger] g_at(
                old(grid).tiles@,
                old(grid).size,
                x,
                y,
            )).id != 0 ==> g_at(final(grid).tiles@, old(grid).size, x, y).id != 0,
{
    let ghost size = grid.size;
    let ghost g_entry = grid.tiles@;
    let mut next: Vec<Point> = Vec::new();
    proof {
        assert(next@ =~= Seq::<Point>::empty());
    }
    let mut qi: usize = 0;
    while qi < queue.len()
        invariant
            qi <= queue@.len(),
            grid.size == size,
            grid.wf(),
            size_ok(size),
            seeds_ok(size, seeds@),
            1 <= step <= MAX_DIM as int,
            grid_ok(grid.tiles@, size, seeds@),
            seeds_own(grid.tiles@, size, seeds@),
            queue_ok(queue@, grid.tiles@, size),
            queue_ok(next@, grid.tiles@, size),
            task_run(grid.tiles@, queue@, next@, size, step as int, qi as int) == task_run(
                g_entry,
                queue@,
                Seq::<Point>::empty(),
                size,
                step as int,
                0,
            ),
            forall|x: int, y: int|
                in_bounds(size, x, y) && (#[trigger] g_at(g_entry, size, x, y)).id != 0 ==> g_at(
                    grid.tiles@,
                    size,
                    x,
                    y,
                ).id != 0,
        decreases queue@.len() - qi,
    {
        let p = queue[qi];
        let current = grid.at(p.x, p.y);
        proof {
            assert(in_bounds(size, (queue@[qi as int]).x as int, queue@[qi as int].y as int)
                && g_at(grid.tiles@, size, queue@[qi as int].x as int, queue@[qi as int].y as int).id
                != 0);
            assert(current.id != 0);
            assert(tile_ok(current, seeds@));
            lemma_tile_ok_bounded(current, size, seeds@);
            assert(current.position == p);
        }
        let ghost gi = grid.tiles@;
        let ghost next_pre = next@;
        next.push(current.position);
        let ghost next1 = next@;
        let mut k: usize = 0;
        while k < 9
            invariant
                k <= 9,
                grid.size == size,
                grid.wf(),
                size_ok(size),
                seeds_ok(size, seeds@),
                1 <= step <= MAX_DIM as int,
                in_bounds(size, p.x as int, p.y as int),
                current.id != 0,
                tile_ok(current, seeds@),
                pt_bounded(current.position),
                pt_bounded(current.seed_position),
                grid_ok(grid.tiles@, size, seeds@),
                seeds_own(grid.tiles@, size, seeds@),
                queue_ok(queue@, grid.tiles@, size),
                queue_ok(next@, grid.tiles@, size),
                proc_dirs(grid.tiles@, next@, current, p, size, step as int, k as int)
                    == proc_dirs(gi, next1, current, p, size, step as int, 0),
                forall|x: int, y: int|
                    in_bounds(size, x, y) && (#[trigger] g_at(g_entry, size, x, y)).id != 0
                        ==> g_at(grid.tiles@, size, x, y).id != 0,
            decreases 9 - k,
        {
            let ox: isize = if k < 3 {
                -step
            } else if k < 6 {
                0
            } else {
                step
            };
            let oy: isize = if k == 0 || k == 3 || k == 6 {
                -step
            } else if k == 1 || k == 4 || k == 7 {
                0
            } else {
                step
            };
            proof {
                let stepi = step as int;
                assert((-1) * stepi == -stepi && 0 * stepi == 0 && 1 * stepi == stepi)
                    by (nonlinear_arith);
                assert(ox as int == dir_dx(k as int) * stepi && oy as int == dir_dy(k as int)
                    * stepi);
                assert(pt_bounded(p) && pt_bounded(grid.size));
            }
            let ghost gk = grid.tiles@;
            let ghost nk = next@;
            match point_bounderies(&p, ox, oy, &grid.size) {
                Some(pair) => {
                    let (x2, y2) = pair;
                    let t = grid.at(x2, y2);
                    proof {
                        assert(tile_ok(t, seeds@));
                        if t.id != 0 {
                            lemma_tile_ok_bounded(t, size, seeds@);
                        }
                    }
                    let rc = resolve_candidate(&t, &current);
                    if rc.1 {
                        grid.set_at(x2, y2, rc.0);
                        next.push(rc.0.position);
                        proof {
                            assert(tile_ok(rc.0, seeds@));
                            lemma_grid_update(gk, size, seeds@, x2 as int, y2 as int, rc.0);
                            lemma_seeds_own_update(gk, size, seeds@, x2 as int, y2 as int, current);
                            assert(proc_dirs(gk, nk, current, p, size, step as int, k as int)
                                == proc_dirs(
                                grid.tiles@,
                                next@,
                                current,
                                p,
                                size,
                                step as int,
                                k as int + 1,
                            ));
                            assert forall|x: int, y: int|
                                in_bounds(size, x, y) && (#[trigger] g_at(gk, size, x, y)).id != 0
                                implies g_at(grid.tiles@, size, x, y).id != 0 by {
                                if x == x2 as int && y == y2 as int {
                                    assert(g_at(grid.tiles@, size, x, y) == rc.0);
                                } else {
                                    assert(g_at(grid.tiles@, size, x, y) == g_at(gk, size, x, y));
                                }
                            }
                            lemma_queue_ok_monotone(queue@, gk, grid.tiles@, size);
                            lemma_queue_ok_monotone(next@.drop_last(), gk, grid.tiles@, size);
                            assert(next@.drop_last() =~= next@.subrange(0, next@.len() - 1));
                            assert forall|j: int| 0 <= j < next@.len() implies in_bounds(
                                size,
                                (#[trigger] next@[j]).x as int,
                                next@[j].y as int,
                            ) && g_at(grid.tiles@, size, next@[j].x as int, next@[j].y as int).id
                                != 0 by {
                                if j < next@.len() - 1 {
                                    assert(next@.drop_last()[j] == next@[j]);
                                } else {
                                    assert(next@[j] == rc.0.position);
                                    assert(g_at(grid.tiles@, size, x2 as int, y2 as int) == rc.0);
                                }
                            }
                            assert forall|x: int, y: int|
                                in_bounds(size, x, y) && (#[trigger] g_at(g_entry, size, x, y)).id
                                != 0 implies g_at(grid.tiles@, size, x, y).id != 0 by {
                                assert(g_at(gk, size, x, y).id != 0);
                            }
                        }
                    } else {
                        proof {
                            assert(proc_dirs(gk, nk, current, p, size, step as int, k as int)
                                == proc_dirs(gk, nk, current, p, size, step as int, k as int + 1));
                        }
                    }
                }
                None => {
                    proof {
                        assert(!in_bounds(
                            size,
                            p.x + dir_dx(k as int) * step,
                            p.y + dir_dy(k as int) * step,
                        ));
                        assert(proc_dirs(gk, nk, current, p, size, step as int, k as int)
                            == proc_dirs(gk, nk, current, p, size, step as int, k as int + 1));
                    }
                }
            }
            k = k + 1;
        }
        proof {
            assert(proc_dirs(grid.tiles@, next@, current, p, size, step as int, 9) == (
            grid.tiles@,
            next@,
            ));
            assert((grid.tiles@, next@) == proc_dirs(gi, next1, current, p, size, step as int, 0));
            assert(next1 == next_pre.push(current.position));
            assert(current == g_at(gi, size, (queue@[qi as int]).x as int, queue@[qi as int].y
                as int));
            assert(task_run(grid.tiles@, queue@, next@, size, step as int, qi as int + 1)
                == task_run(gi, queue@, next_pre, size, step as int, qi as int));
        }
        qi = qi + 1;
    }
    next
}

/// The jump-flood engine run deterministically: initialize the grid, give
/// each seed a one-element work queue, then for every step of the schedule
/// run one task per seed queue and collect the next-round queues.
///
/// The result is exactly the grid `fill_run` computes from the initialized
/// grid, the per-seed singleton queues and the schedule — so two runs on
/// identical input are identical. The grid is valid and its seed cells
/// still carry their own ids; unlike the sequential engine, full coverage
/// of every cell is not promised by the schedule.
pub fn jump_flood_fill(space_size: Point, seeds: &Vec<Point>) -> (r: Grid)
    requires
        seeds_ok(space_size, seeds@),
    ensures
        r.wf(),
        r.size == space_size,
        r.tiles@ == fill_run(
            init_grid(space_size, seeds@),
            seed_queues(seeds@),
            space_size,
            spec_schedule(space_size.x as int),
            0,
        ),
        grid_ok(r.tiles@, space_size, seeds@),
        seeds_own(r.tiles@, space_size, seeds@),
{
    let mut grid = Grid::new(space_size);
    place_seeds(&mut grid, seeds);
    let ghost g_init = grid.tiles@;
    proof {
        lemma_init_inv(space_size, seeds@);
        assert(inv(init_model(space_size, seeds@), space_size, seeds@));
        assert(grid_ok(grid.tiles@, space_size, seeds@));
        assert(seeds_own(grid.tiles@, space_size, seeds@));
        assert(queue_ok(seeds@, grid.tiles@, space_size));
    }
    let mut queues: Vec<Vec<Point>> = Vec::new();
    let mut i: usize = 0;
    while i < seeds.len()
        invariant
            i <= seeds@.len(),
            queues@.len() == i,
            seeds_ok(space_size, seeds@),
            queue_ok(seeds@, grid.tiles@, space_size),
            forall|j: int|
                0 <= j < i ==> (#[trigger] queues@[j])@.len() == 1 && queues@[j]@[0] == seeds@[j],
        decreases seeds@.len() - i,
    {
        let mut q1: Vec<Point> = Vec::new();
        q1.push(seeds[i]);
        queues.push(q1);
        i = i + 1;
    }
    let steps = step_schedule(&space_size);
    let ghost sched = steps@;
    proof {
        assert forall|j: int| 0 <= j < queues@.len() implies queue_ok(
            (#[trigger] queues@[j])@,
            grid.tiles@,
            space_size,
        ) by {
            assert(queues@[j]@[0] == seeds@[j]);
            assert(in_bounds(space_size, (seeds@[j]).x as int, seeds@[j].y as int) && g_at(
                grid.tiles@,
                space_size,
                seeds@[j].x as int,
                seeds@[j].y as int,
            ).id != 0);
        }
        assert(queues_view(queues@) =~~= seed_queues(seeds@));
    }
    let mut si: usize = 0;
    while si < steps.len()
        invariant
            si <= sched.len(),
            sched == steps@,
            grid.size == space_size,
            grid.wf(),
            seeds_ok(space_size, seeds@),
            grid_ok(grid.tiles@, space_size, seeds@),
            seeds_own(grid.tiles@, space_size, seeds@),
            forall|k: int| 0 <= k < sched.len() ==> 1 <= #[trigger] sched[k] <= MAX_DIM as int,
            forall|j: int|
                0 <= j < queues@.len() ==> queue_ok(
                    (#[trigger] queues@[j])@,
                    grid.tiles@,
                    space_size,
                ),
            fill_run(grid.tiles@, queues_view(queues@), space_size, sched, si as int) == fill_run(
                g_init,
                seed_queues(seeds@),
                space_size,
                sched,
                0,
            ),
        decreases sched.len() - si,
    {
        let step = steps[si];
        let ghost g_round = grid.tiles@;
        let ghost qs_round = queues_view(queues@);
        let mut new_queues: Vec<Vec<Point>> = Vec::new();
        proof {
            assert(queues_view(new_queues@) =~~= Seq::<Seq<Point>>::empty());
        }
        let mut qi: usize = 0;
        while qi < queues.len()
            invariant
                qi <= queues@.len(),
                grid.size == space_size,
                grid.wf(),
                seeds_ok(space_size, seeds@),
                1 <= step <= MAX_DIM as int,
                grid_ok(grid.tiles@, space_size, seeds@),
                seeds_own(grid.tiles@, space_size, seeds@),
                new_queues@.len() == qi,
                qs_round == queues_view(queues@),
                forall|j: int|
                    0 <= j < queues@.len() ==> queue_ok(
                        (#[trigger] queues@[j])@,
                        grid.tiles@,
                        space_size,
                    ),
                forall|j: int|
                    0 <= j < new_queues@.len() ==> queue_ok(
                        (#[trigger] new_queues@[j])@,
                        grid.tiles@,
                        space_size,
                    ),
                round_run(
                    grid.tiles@,
                    qs_round,
                    queues_view(new_queues@),
                    space_size,
                    step as int,
                    qi as int,
                ) == round_run(
                    g_round,
                    qs_round,
                    Seq::<Seq<Point>>::empty(),
                    space_size,
                    step as int,
                    0,
                ),
            decreases queues@.len() - qi,
        {
            let ghost gpre = grid.tiles@;
            let ghost acc_pre = queues_view(new_queues@);
            let nq = run_task(&mut grid, &queues[qi], step, Ghost(seeds@));
            new_queues.push(nq);
            proof {
                assert(qs_round[qi as int] == queues@[qi as int]@);
                assert(queues_view(new_queues@) =~~= acc_pre.push(nq@));
                assert(round_run(
                    grid.tiles@,
                    qs_round,
                    queues_view(new_queues@),
                    space_size,
                    step as int,
                    qi as int + 1,
                ) == round_run(gpre, qs_round, acc_pre, space_size, step as int, qi as int));
                assert forall|j: int| 0 <= j < queues@.len() implies queue_ok(
                    (#[trigger] queues@[j])@,
                    grid.tiles@,
                    space_size,
                ) by {
                    lemma_queue_ok_monotone(queues@[j]@, gpre, grid.tiles@, space_size);
                }
                assert forall|j: int| 0 <= j < new_queues@.len() implies queue_ok(
                    (#[trigger] new_queues@[j])@,
                    grid.tiles@,
                    space_size,
                ) by {
                    if j < new_queues@.len() - 1 {
                        assert(new_queues@[j] == new_queues@.drop_last()[j]);
                        lemma_queue_ok_monotone(new_queues@[j]@, gpre, grid.tiles@, space_size);
                    } else {
                        assert(new_queues@[j] == nq);
                    }
                }
            }
            qi = qi + 1;
        }
        proof {
            assert(round_run(
                grid.tiles@,
                qs_round,
                queues_view(new_queues@),
                space_size,
                step as int,
                qs_round.len() as int,
            ) == (grid.tiles@, queues_view(new_queues@)));
            assert(fill_run(grid.tiles@, queues_view(new_queues@), space_size, sched, si as int + 1)
                == fill_run(g_round, qs_round, space_size, sched, si as int));
        }
        queues = new_queues;
        si = si + 1;
    }
    grid
}

} // verus!
