//! The 2D array of cell state: flat row-major storage, bounds and
//! well-formedness invariants, and the point-wise update used by the
//! engines. Owns no algorithm.

use vstd::prelude::*;

verus! {

use crate::MAX_DIM;
use crate::geometry::{Point, in_bounds};
use crate::tile::Tile;
use vstd::arithmetic::div_mod::{
    lemma_fundamental_div_mod,
    lemma_fundamental_div_mod_converse,
    lemma_mod_pos_bound,
};

/// Flat index of cell `(x, y)` in row-major order (rows indexed by `x`).
pub open spec fn grid_index(size: Point, x: int, y: int) -> int {
    x * size.y + y
}

/// The tile at `(x, y)` of a flat grid sequence.
pub open spec fn g_at(g: Seq<Tile>, size: Point, x: int, y: int) -> Tile {
    g[grid_index(size, x, y)]
}

/// Dimensions are positive and within `MAX_DIM`.
pub open spec fn size_ok(size: Point) -> bool {
    1 <= size.x <= MAX_DIM && 1 <= size.y <= MAX_DIM
}

/// Well-formed flat grid: correct length, and every cell records its own
/// position.
pub open spec fn g_wf(g: Seq<Tile>, size: Point) -> bool {
    &&& size_ok(size)
    &&& g.len() == size.x * size.y
    &&& forall|x: int, y: int|
        in_bounds(size, x, y) ==> (#[trigger] g_at(g, size, x, y)).position == (Point {
            x: x as usize,
            y: y as usize,
        })
}

pub proof fn lemma_grid_index_bound(size: Point, x: int, y: int)
    requires
        size_ok(size),
        0 <= x < size.x,
        0 <= y < size.y,
    ensures
        0 <= x * size.y,
        x * size.y + y < size.x * size.y,
        size.x * size.y <= MAX_DIM * MAX_DIM,
{
    assert(0 <= x * size.y && x * size.y + y < size.x * size.y && size.x * size.y <= (MAX_DIM
        as int) * (MAX_DIM as int)) by (nonlinear_arith)
        requires
            1 <= size.y <= MAX_DIM as int,
            1 <= size.x <= MAX_DIM as int,
            0 <= x < size.x,
            0 <= y < size.y,
    ;
}

pub proof fn lemma_grid_index_inj(size: Point, x1: int, y1: int, x2: int, y2: int)
    requires
        1 <= size.y,
        0 <= x1,
        0 <= y1 < size.y,
        0 <= x2,
        0 <= y2 < size.y,
        x1 != x2 || y1 != y2,
    ensures
        grid_index(size, x1, y1) != grid_index(size, x2, y2),
{
    assert(x1 * size.y + y1 != x2 * size.y + y2) by (nonlinear_arith)
        requires
            1 <= size.y,
            0 <= x1,
            0 <= y1 < size.y,
            0 <= x2,
            0 <= y2 < size.y,
            x1 != x2 || y1 != y2,
    ;
}

/// Acceptable engine input: positive bounded dimensions, every seed inside
/// the grid, no two seeds on the same cell, and few enough seeds that every
/// 1-based id fits comfortably in `usize`.
pub open spec fn seeds_ok(size: Point, seeds: Seq<Point>) -> bool {
    &&& size_ok(size)
    &&& seeds.len() <= MAX_DIM * MAX_DIM
    &&& forall|k: int|
        0 <= k < seeds.len() ==> in_bounds(size, (#[trigger] seeds[k]).x as int, seeds[k].y as int)
    &&& forall|k1: int, k2: int| 0 <= k1 < k2 < seeds.len() ==> seeds[k1] != seeds[k2]
}

/// A tile is either unassigned or owned by a real seed, and then records
/// that seed's position.
pub open spec fn tile_ok(t: Tile, seeds: Seq<Point>) -> bool {
    t.id == 0 || (1 <= t.id <= seeds.len() && t.seed_position == seeds[t.id - 1])
}

/// Well-formed grid whose every tile satisfies `tile_ok`.
pub open spec fn grid_ok(g: Seq<Tile>, size: Point, seeds: Seq<Point>) -> bool {
    &&& g_wf(g, size)
    &&& forall|x: int, y: int|
        in_bounds(size, x, y) ==> tile_ok(#[trigger] g_at(g, size, x, y), seeds)
}

/// Self-ownership: the cell under seed `k` is owned by seed `k` (id `k + 1`)
/// and records that seed's own position.
pub open spec fn seeds_own(g: Seq<Tile>, size: Point, seeds: Seq<Point>) -> bool {
    forall|k: int|
        0 <= k < seeds.len() ==> g_at(
            g,
            size,
            (#[trigger] seeds[k]).x as int,
            seeds[k].y as int,
        ) == (Tile { id: (k + 1) as usize, position: seeds[k], seed_position: seeds[k] })
}

/// Every queued position is in bounds and its cell is assigned.
pub open spec fn queue_ok(q: Seq<Point>, g: Seq<Tile>, size: Point) -> bool {
    forall|i: int|
        0 <= i < q.len() ==> in_bounds(size, (#[trigger] q[i]).x as int, q[i].y as int) && g_at(
            g,
            size,
            q[i].x as int,
            q[i].y as int,
        ).id != 0
}

/// Position `(x, y)` occurs somewhere in the queue.
pub open spec fn in_queue(q: Seq<Point>, x: int, y: int) -> bool {
    exists|i: int| 0 <= i < q.len() && q[i] == (Point { x: x as usize, y: y as usize })
}

/// Decide `seeds_ok` at run time: validation of externally supplied input
/// before any engine runs, exact in both directions.
pub fn seeds_valid(space_size: &Point, seeds: &Vec<Point>) -> (r: bool)
    ensures
        r == seeds_ok(*space_size, seeds@),
{
    if !(1 <= space_size.x && space_size.x <= MAX_DIM && 1 <= space_size.y && space_size.y
        <= MAX_DIM) {
        return false;
    }
    if seeds.len() > MAX_DIM * MAX_DIM {
        return false;
    }
    let mut i: usize = 0;
    while i < seeds.len()
        invariant
            i <= seeds@.len(),
            forall|k: int|
                0 <= k < i ==> in_bounds(
                    *space_size,
                    (#[trigger] seeds@[k]).x as int,
                    seeds@[k].y as int,
                ),
        decreases seeds@.len() - i,
    {
        let s = seeds[i];
        if !(s.x < space_size.x && s.y < space_size.y) {
            return false;
        }
        i = i + 1;
    }
    let mut a: usize = 0;
    while a < seeds.len()
        invariant
            a <= seeds@.len(),
            forall|k1: int, k2: int|
                0 <= k1 < k2 < seeds@.len() && k1 < a ==> seeds@[k1] != seeds@[k2],
        decreases seeds@.len() - a,
    {
        let mut b: usize = a + 1;
        while b < seeds.len()
            invariant
                a < b || b == a + 1,
                a < seeds@.len(),
                b <= seeds@.len(),
                a + 1 <= b,
                forall|k2: int| a < k2 < b ==> seeds@[a as int] != #[trigger] seeds@[k2],
                forall|k1: int, k2: int|
                    0 <= k1 < k2 < seeds@.len() && k1 < a ==> seeds@[k1] != seeds@[k2],
            decreases seeds@.len() - b,
        {
            let pa = seeds[a];
            let pb = seeds[b];
            if pa.x == pb.x && pa.y == pb.y {
                proof {
                    assert(seeds@[a as int] == seeds@[b as int]);
                }
                return false;
            }
            b = b + 1;
        }
        a = a + 1;
    }
    true
}

/// A queue stays valid across any grid change that clears no assigned
/// cell.
pub proof fn lemma_queue_ok_monotone(q: Seq<Point>, g1: Seq<Tile>, g2: Seq<Tile>, size: Point)
    requires
        queue_ok(q, g1, size),
        forall|x: int, y: int|
            in_bounds(size, x, y) && (#[trigger] g_at(g1, size, x, y)).id != 0 ==> g_at(
                g2,
                size,
                x,
                y,
            ).id != 0,
    ensures
        queue_ok(q, g2, size),
{
    assert forall|i: int| 0 <= i < q.len() implies in_bounds(
        size,
        (#[trigger] q[i]).x as int,
        q[i].y as int,
    ) && g_at(g2, size, q[i].x as int, q[i].y as int).id != 0 by {
        assert(g_at(g1, size, q[i].x as int, q[i].y as int).id != 0);
    }
}

/// An assigned valid tile records a real seed's position, which lies in
/// the grid and is therefore bounded.
pub proof fn lemma_tile_ok_bounded(t: Tile, size: Point, seeds: Seq<Point>)
    requires
        seeds_ok(size, seeds),
        tile_ok(t, seeds),
        t.id != 0,
    ensures
        crate::geometry::pt_bounded(t.seed_position),
{
    assert(in_bounds(size, seeds[t.id - 1].x as int, seeds[t.id - 1].y as int));
}

/// The id that seeding leaves on cell `(x, y)`: 0 if no seed sits there,
/// otherwise one more than the index of the last seed at that position
/// (later seeds overwrite earlier ones, as placement in input order does).
pub open spec fn seed_id_at(seeds: Seq<Point>, x: int, y: int) -> int
    decreases seeds.len(),
{
    if seeds.len() == 0 {
        0
    } else if seeds.last() == (Point { x: x as usize, y: y as usize }) {
        seeds.len() as int
    } else {
        seed_id_at(seeds.drop_last(), x, y)
    }
}

/// The tile that initialization leaves on cell `(x, y)`: seed cells are
/// pre-labeled with their seed's id and position, all others are blank.
pub open spec fn init_tile(seeds: Seq<Point>, x: int, y: int) -> Tile {
    let id = seed_id_at(seeds, x, y);
    if id == 0 {
        Tile {
            id: 0,
            position: Point { x: x as usize, y: y as usize },
            seed_position: Point { x: 0, y: 0 },
        }
    } else {
        Tile {
            id: id as usize,
            position: Point { x: x as usize, y: y as usize },
            seed_position: Point { x: x as usize, y: y as usize },
        }
    }
}

/// The whole grid immediately after initialization.
pub open spec fn init_grid(size: Point, seeds: Seq<Point>) -> Seq<Tile> {
    Seq::new(
        (size.x * size.y) as nat,
        |i: int| init_tile(seeds, i / (size.y as int), i % (size.y as int)),
    )
}

pub proof fn lemma_seed_id_at_range(seeds: Seq<Point>, x: int, y: int)
    ensures
        0 <= seed_id_at(seeds, x, y) <= seeds.len(),
        seed_id_at(seeds, x, y) != 0 ==> seeds[seed_id_at(seeds, x, y) - 1] == (Point {
            x: x as usize,
            y: y as usize,
        }),
    decreases seeds.len(),
{
    if seeds.len() != 0 && seeds.last() != (Point { x: x as usize, y: y as usize }) {
        lemma_seed_id_at_range(seeds.drop_last(), x, y);
    }
}

pub proof fn lemma_seed_id_at_self(seeds: Seq<Point>, k: int)
    requires
        forall|k1: int, k2: int| 0 <= k1 < k2 < seeds.len() ==> seeds[k1] != seeds[k2],
        0 <= k < seeds.len(),
    ensures
        seed_id_at(seeds, seeds[k].x as int, seeds[k].y as int) == k + 1,
    decreases seeds.len(),
{
    let p = seeds[k];
    assert(p == (Point { x: p.x as usize, y: p.y as usize }));
    if k == seeds.len() - 1 {
    } else {
        assert(seeds.last() != p);
        assert(seeds.drop_last()[k] == p);
        lemma_seed_id_at_self(seeds.drop_last(), k);
    }
}

/// Pointwise characterization of `init_grid`.
pub proof fn lemma_init_grid_at(size: Point, seeds: Seq<Point>, x: int, y: int)
    requires
        size_ok(size),
        in_bounds(size, x, y),
    ensures
        g_at(init_grid(size, seeds), size, x, y) == init_tile(seeds, x, y),
{
    lemma_grid_index_bound(size, x, y);
    lemma_fundamental_div_mod_converse(x * (size.y as int) + y, size.y as int, x, y);
}

/// Two grids of the same dimensions with equal cells everywhere are equal.
pub proof fn lemma_grid_ext(g1: Seq<Tile>, g2: Seq<Tile>, size: Point)
    requires
        size_ok(size),
        g1.len() == size.x * size.y,
        g2.len() == size.x * size.y,
        forall|x: int, y: int|
            in_bounds(size, x, y) ==> #[trigger] g_at(g1, size, x, y) == g_at(g2, size, x, y),
    ensures
        g1 == g2,
{
    let xs = size.x as int;
    let ys = size.y as int;
    assert forall|i: int| 0 <= i < g1.len() implies g1[i] == g2[i] by {
        lemma_fundamental_div_mod(i, ys);
        lemma_mod_pos_bound(i, ys);
        let x = i / ys;
        let y = i % ys;
        assert(0 <= x < xs) by (nonlinear_arith)
            requires
                i == ys * x + y,
                0 <= y < ys,
                0 <= i < xs * ys,
                ys >= 1,
        ;
        assert(x * ys + y == i) by (nonlinear_arith)
            requires
                i == ys * x + y,
        ;
        assert(grid_index(size, x, y) == i);
        assert(in_bounds(size, x, y));
        assert(g_at(g1, size, x, y) == g_at(g2, size, x, y));
    }
    assert(g1 =~= g2);
}

/// A rectangular grid of tiles, flat row-major storage, dimensions fixed at
/// construction.
pub struct Grid {
    pub size: Point,
    pub tiles: Vec<Tile>,
}

impl Grid {
    pub open spec fn wf(self) -> bool {
        g_wf(self.tiles@, self.size)
    }

    pub open spec fn spec_at(self, x: int, y: int) -> Tile {
        g_at(self.tiles@, self.size, x, y)
    }

    /// A fully pre-allocated grid of unassigned tiles, one per coordinate of
    /// `[0, space_size.x) x [0, space_size.y)`.
    pub fn new(space_size: Point) -> (g: Grid)
        requires
            size_ok(space_size),
        ensures
            g.wf(),
            g.size == space_size,
            forall|x: int, y: int|
                in_bounds(space_size, x, y) ==> #[trigger] g.spec_at(x, y) == (Tile {
                    id: 0,
                    position: Point { x: x as usize, y: y as usize },
                    seed_position: Point { x: 0, y: 0 },
                }),
    {
        let ys = space_size.y;
        let mut tiles: Vec<Tile> = Vec::new();
        let mut x: usize = 0;
        while x < space_size.x
            invariant
                size_ok(space_size),
                ys == space_size.y,
                x <= space_size.x,
                tiles@.len() == x * ys,
                forall|x2: int, y2: int|
                    0 <= x2 < x && 0 <= y2 < ys ==> #[trigger] g_at(tiles@, space_size, x2, y2)
                        == (Tile {
                        id: 0,
                        position: Point { x: x2 as usize, y: y2 as usize },
                        seed_position: Point { x: 0, y: 0 },
                    }),
            decreases space_size.x - x,
        {
            let mut y: usize = 0;
            while y < ys
                invariant
                    size_ok(space_size),
                    ys == space_size.y,
                    x < space_size.x,
                    y <= ys,
                    tiles@.len() == x * ys + y,
                    forall|x2: int, y2: int|
                        (0 <= x2 < x && 0 <= y2 < ys) || (x2 == x && 0 <= y2 < y) ==> #[trigger]
                            g_at(tiles@, space_size, x2, y2) == (Tile {
                            id: 0,
                            position: Point { x: x2 as usize, y: y2 as usize },
                            seed_position: Point { x: 0, y: 0 },
                        }),
                decreases ys - y,
            {
                proof {
                    lemma_grid_index_bound(space_size, x as int, y as int);
                }
                let ghost tiles0 = tiles@;
                tiles.push(Tile::new(Point::new(x, y)));
                proof {
                    assert forall|x2: int, y2: int|
                        (0 <= x2 < x && 0 <= y2 < ys) || (x2 == x && 0 <= y2 < y + 1) implies
                        #[trigger] g_at(tiles@, space_size, x2, y2) == (Tile {
                        id: 0,
                        position: Point { x: x2 as usize, y: y2 as usize },
                        seed_position: Point { x: 0, y: 0 },
                    }) by {
                        if x2 == x && y2 == y {
                            assert(grid_index(space_size, x2, y2) == tiles0.len());
                        } else {
                            assert(0 <= x2 * (ys as int) + y2 < x * (ys as int) + y) by (
                            nonlinear_arith)
                                requires
                                    1 <= ys as int,
                                    0 <= y2 < ys as int,
                                    0 <= y < ys as int,
                                    (0 <= x2 < x && 0 <= y2 < ys) || (x2 == x && 0 <= y2 < y + 1),
                                    !(x2 == x && y2 == y),
                            ;
                            assert(g_at(tiles0, space_size, x2, y2) == (Tile {
                                id: 0,
                                position: Point { x: x2 as usize, y: y2 as usize },
                                seed_position: Point { x: 0, y: 0 },
                            }));
                            assert(tiles@[grid_index(space_size, x2, y2)] == tiles0[grid_index(
                                space_size,
                                x2,
                                y2,
                            )]);
                        }
                    }
                }
                y = y + 1;
            }
            x = x + 1;
            proof {
                assert(tiles@.len() == x * ys) by (nonlinear_arith)
                    requires
                        tiles@.len() == (x - 1) * ys + ys,
                ;
            }
        }
        let g = Grid { size: space_size, tiles };
        proof {
            assert forall|x2: int, y2: int| in_bounds(space_size, x2, y2) implies (#[trigger] g_at(
                g.tiles@,
                space_size,
                x2,
                y2,
            )).position == (Point { x: x2 as usize, y: y2 as usize }) by {
                assert(g_at(g.tiles@, space_size, x2, y2) == (Tile {
                    id: 0,
                    position: Point { x: x2 as usize, y: y2 as usize },
                    seed_position: Point { x: 0, y: 0 },
                }));
            }
        }
        g
    }

    /// Read the tile at `(x, y)`.
    pub fn at(&self, x: usize, y: usize) -> (t: Tile)
        requires
            self.wf(),
            x < self.size.x,
            y < self.size.y,
        ensures
            t == self.spec_at(x as int, y as int),
    {
        proof {
            lemma_grid_index_bound(self.size, x as int, y as int);
        }
        self.tiles[x * self.size.y + y]
    }

    /// Overwrite the tile at `(x, y)`; every other cell is unchanged.
    pub fn set_at(&mut self, x: usize, y: usize, t: Tile)
        requires
            old(self).wf(),
            x < old(self).size.x,
            y < old(self).size.y,
        ensures
            final(self).size == old(self).size,
            final(self).tiles@ == old(self).tiles@.update(
                grid_index(old(self).size, x as int, y as int),
                t,
            ),
            final(self).spec_at(x as int, y as int) == t,
            forall|x2: int, y2: int|
                in_bounds(old(self).size, x2, y2) && (x2 != x || y2 != y)
                    ==> #[trigger] final(self).spec_at(x2, y2) == old(self).spec_at(x2, y2),
            t.position == (Point { x, y }) ==> final(self).wf(),
    {
        proof {
            lemma_grid_index_bound(self.size, x as int, y as int);
        }
        let i: usize = x * self.size.y + y;
        self.tiles[i] = t;
        proof {
            assert forall|x2: int, y2: int|
                in_bounds(self.size, x2, y2) && (x2 != x || y2 != y) implies #[trigger] self
                .spec_at(x2, y2) == old(self).spec_at(x2, y2) by {
                lemma_grid_index_inj(self.size, x2, y2, x as int, y as int);
                lemma_grid_index_bound(self.size, x2, y2);
            }
            if t.position == (Point { x, y }) {
                assert forall|x2: int, y2: int| in_bounds(self.size, x2, y2) implies (
                #[trigger] g_at(self.tiles@, self.size, x2, y2)).position == (Point {
                    x: x2 as usize,
                    y: y2 as usize,
                }) by {
                    if x2 == x && y2 == y {
                    } else {
                        lemma_grid_index_inj(self.size, x2, y2, x as int, y as int);
                        lemma_grid_index_bound(self.size, x2, y2);
                        assert(g_at(old(self).tiles@, self.size, x2, y2).position == (Point {
                            x: x2 as usize,
                            y: y2 as usize,
                        }));
                        assert(g_at(self.tiles@, self.size, x2, y2) == g_at(
                            old(self).tiles@,
                            self.size,
                            x2,
                            y2,
                        ));
                    }
                }
            }
        }
    }
}

/// Pre-label every seed's own cell with its 1-based id and position, in
/// input order, turning a blank grid into the initialized grid.
pub fn place_seeds(grid: &mut Grid, seeds: &Vec<Point>)
    requires
        old(grid).wf(),
        seeds_ok(old(grid).size, seeds@),
        forall|x: int, y: int|
            in_bounds(old(grid).size, x, y) ==> #[trigger] old(grid).spec_at(x, y) == (Tile {
                id: 0,
                position: Point { x: x as usize, y: y as usize },
                seed_position: Point { x: 0, y: 0 },
            }),
    ensures
        final(grid).size == old(grid).size,
        final(grid).wf(),
        final(grid).tiles@ == init_grid(old(grid).size, seeds@),
{
    let ghost size = grid.size;
    let ghost all = seeds@;
    let mut i: usize = 0;
    while i < seeds.len()
        invariant
            grid.wf(),
            grid.size == size,
            seeds_ok(size, all),
            all == seeds@,
            i <= all.len(),
            forall|x: int, y: int|
                in_bounds(size, x, y) ==> #[trigger] grid.spec_at(x, y) == init_tile(
                    all.subrange(0, i as int),
                    x,
                    y,
                ),
        decreases seeds@.len() - i,
    {
        let s = seeds[i];
        let ghost gpre = *grid;
        let t = Tile { id: i + 1, position: s, seed_position: s };
        grid.set_at(s.x, s.y, t);
        proof {
            let prefix = all.subrange(0, i as int);
            let prefix2 = all.subrange(0, i + 1 as int);
            assert(prefix2.last() == s);
            assert(prefix2.drop_last() =~= prefix);
            assert forall|x: int, y: int| in_bounds(size, x, y) implies #[trigger] grid.spec_at(
                x,
                y,
            ) == init_tile(prefix2, x, y) by {
                if x == s.x as int && y == s.y as int {
                    assert(s == (Point { x: x as usize, y: y as usize }));
                    assert(seed_id_at(prefix2, x, y) == i + 1);
                    assert(grid.spec_at(x, y) == t);
                } else {
                    assert(prefix2.last() != (Point { x: x as usize, y: y as usize }));
                    assert(seed_id_at(prefix2, x, y) == seed_id_at(prefix, x, y));
                    assert(grid.spec_at(x, y) == gpre.spec_at(x, y));
                }
            }
        }
        i = i + 1;
    }
    proof {
        assert(all.subrange(0, all.len() as int) =~= all);
        assert forall|x: int, y: int| in_bounds(size, x, y) implies g_at(grid.tiles@, size, x, y)
            == g_at(init_grid(size, all), size, x, y) by {
            assert(grid.spec_at(x, y) == init_tile(all.subrange(0, all.len() as int), x, y));
            lemma_init_grid_at(size, all, x, y);
        }
        lemma_grid_ext(grid.tiles@, init_grid(size, all), size);
    }
}

} // verus!
