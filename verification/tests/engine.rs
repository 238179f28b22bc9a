use voronoi::geometry::Point;
use voronoi::grid::{Grid, seeds_valid};
use voronoi::jump_flood::{jump_flood_fill, step_schedule};
use voronoi::seq_fill::{FloodFill, sequential_fill};

fn ids(grid: &Grid) -> Vec<usize> {
    let mut out = Vec::new();
    let mut x = 0;
    while x < grid.size.x {
        let mut y = 0;
        while y < grid.size.y {
            out.push(grid.at(x, y).id);
            y += 1;
        }
        x += 1;
    }
    out
}

#[test]
fn single_seed_3x3_sequential() {
    let seeds = vec![Point::new(1, 1)];
    let grid = sequential_fill(Point::new(3, 3), &seeds);
    for x in 0..3 {
        for y in 0..3 {
            assert_eq!(grid.at(x, y).id, 1);
        }
    }
}

#[test]
fn two_seeds_4x1_sequential() {
    let seeds = vec![Point::new(0, 0), Point::new(3, 0)];
    let grid = sequential_fill(Point::new(4, 1), &seeds);
    assert_eq!(grid.at(0, 0).id, 1);
    assert_eq!(grid.at(1, 0).id, 1);
    assert_eq!(grid.at(2, 0).id, 2);
    assert_eq!(grid.at(3, 0).id, 2);
}

#[test]
fn single_seed_2x2_sequential() {
    let seeds = vec![Point::new(0, 0)];
    let grid = sequential_fill(Point::new(2, 2), &seeds);
    for x in 0..2 {
        for y in 0..2 {
            assert_eq!(grid.at(x, y).id, 1);
        }
    }
    // the far corner is at squared Euclidean distance 2 (distance sqrt 2)
    let corner = grid.at(1, 1);
    assert_eq!(corner.position.dist_sq(&corner.seed_position), 2);
}

#[test]
fn two_seeds_5x5_midline() {
    let seeds = vec![Point::new(0, 0), Point::new(4, 0)];
    let grid = sequential_fill(Point::new(5, 5), &seeds);
    // seed cells own themselves
    assert_eq!(grid.at(0, 0).id, 1);
    assert_eq!(grid.at(4, 0).id, 2);
    for y in 0..5 {
        // columns strictly nearer one seed are owned by it
        assert_eq!(grid.at(0, y).id, 1);
        assert_eq!(grid.at(1, y).id, 1);
        assert_eq!(grid.at(3, y).id, 2);
        assert_eq!(grid.at(4, y).id, 2);
        // the equidistant midline column goes to one of the two valid owners
        let mid = grid.at(2, y).id;
        assert!(mid == 1 || mid == 2);
    }
}

#[test]
fn sequential_engine_deterministic() {
    let seeds = vec![Point::new(0, 0), Point::new(4, 0), Point::new(2, 4)];
    let g1 = sequential_fill(Point::new(5, 5), &seeds);
    let g2 = sequential_fill(Point::new(5, 5), &seeds);
    assert_eq!(ids(&g1), ids(&g2));
}

#[test]
fn total_coverage_sequential() {
    let seeds = vec![Point::new(6, 1)];
    let grid = sequential_fill(Point::new(7, 3), &seeds);
    for x in 0..7 {
        for y in 0..3 {
            assert_ne!(grid.at(x, y).id, 0);
        }
    }
}

#[test]
fn stepwise_engine_monotonic_ownership() {
    let seeds = vec![Point::new(1, 1), Point::new(7, 1)];
    let mut engine = FloodFill::new(Point::new(8, 3), &seeds);
    // seed cells are pre-labeled before any propagation
    assert_eq!(engine.grid.at(1, 1).id, 1);
    assert_eq!(engine.grid.at(7, 1).id, 2);
    let mut assigned: Vec<(usize, usize)> = Vec::new();
    while !engine.done() {
        for x in 0..8 {
            for y in 0..3 {
                if engine.grid.at(x, y).id != 0 {
                    assigned.push((x, y));
                }
            }
        }
        let popped = engine.step();
        assert_ne!(popped.id, 0);
        // once assigned, a cell is never reset to 0
        for &(x, y) in &assigned {
            assert_ne!(engine.grid.at(x, y).id, 0);
        }
        assigned.clear();
    }
    assert_eq!(engine.grid.at(1, 1).id, 1);
    assert_eq!(engine.grid.at(7, 1).id, 2);
}

#[test]
fn single_seed_3x3_jump_flood() {
    let seeds = vec![Point::new(1, 1)];
    let grid = jump_flood_fill(Point::new(3, 3), &seeds);
    for x in 0..3 {
        for y in 0..3 {
            assert_eq!(grid.at(x, y).id, 1);
        }
    }
}

#[test]
fn two_seeds_4x1_jump_flood() {
    let seeds = vec![Point::new(0, 0), Point::new(3, 0)];
    let grid = jump_flood_fill(Point::new(4, 1), &seeds);
    assert_eq!(grid.at(0, 0).id, 1);
    assert_eq!(grid.at(1, 0).id, 1);
    assert_eq!(grid.at(2, 0).id, 2);
    assert_eq!(grid.at(3, 0).id, 2);
}

#[test]
fn jump_flood_midline_valid_owner() {
    let seeds = vec![Point::new(0, 0), Point::new(4, 0)];
    let grid = jump_flood_fill(Point::new(5, 5), &seeds);
    assert_eq!(grid.at(0, 0).id, 1);
    assert_eq!(grid.at(4, 0).id, 2);
    for y in 0..5 {
        let mid = grid.at(2, y).id;
        assert!(mid == 1 || mid == 2);
    }
}

#[test]
fn jump_flood_deterministic() {
    let seeds = vec![Point::new(0, 0), Point::new(4, 0), Point::new(2, 4)];
    let g1 = jump_flood_fill(Point::new(5, 5), &seeds);
    let g2 = jump_flood_fill(Point::new(5, 5), &seeds);
    assert_eq!(ids(&g1), ids(&g2));
}

#[test]
fn schedule_halves_from_half_width() {
    let s8 = step_schedule(&Point::new(8, 8));
    assert_eq!(s8, vec![1, 4, 2, 1]);
    let s5 = step_schedule(&Point::new(5, 5));
    assert_eq!(s5, vec![1, 2, 1]);
    let s1 = step_schedule(&Point::new(1, 1));
    assert_eq!(s1, vec![1]);
}

#[test]
fn seed_validation() {
    let size = Point::new(4, 4);
    assert!(seeds_valid(&size, &vec![Point::new(0, 0), Point::new(3, 3)]));
    // out-of-range seed coordinates are a precondition violation
    assert!(!seeds_valid(&size, &vec![Point::new(4, 0)]));
    assert!(!seeds_valid(&size, &vec![Point::new(0, 4)]));
    // two seeds on one cell would break per-seed pre-labeling
    assert!(!seeds_valid(&size, &vec![Point::new(1, 1), Point::new(1, 1)]));
    // degenerate dimensions are rejected
    assert!(!seeds_valid(&Point::new(0, 3), &vec![]));
    assert!(seeds_valid(&size, &vec![]));
}
