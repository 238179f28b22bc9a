use voronoi::geometry::{Point, point_bounderies};
use voronoi::parse::{parse_count, parse_point};
use voronoi::tile::{Tile, resolve_candidate};

#[test]
fn distance_squares() {
    let a = Point::new(0, 0);
    assert_eq!(a.dist_sq(&Point::new(3, 4)), 25);
    assert_eq!(a.dist_sq(&Point::new(0, 0)), 0);
    assert_eq!(Point::new(5, 2).dist_sq(&Point::new(2, 6)), 25);
    assert_eq!(Point::new(1, 0).dist_sq(&Point::new(0, 1)), 2);
}

#[test]
fn neighbor_stays_inside_grid() {
    let size = Point::new(3, 3);
    // interior moves land inside
    assert_eq!(point_bounderies(&Point::new(1, 1), 1, -1, &size), Some((2, 0)));
    assert_eq!(point_bounderies(&Point::new(1, 1), 0, 0, &size), Some((1, 1)));
    // every step off an edge is rejected
    assert_eq!(point_bounderies(&Point::new(0, 0), -1, 0, &size), None);
    assert_eq!(point_bounderies(&Point::new(0, 0), 0, -1, &size), None);
    assert_eq!(point_bounderies(&Point::new(2, 2), 1, 0, &size), None);
    assert_eq!(point_bounderies(&Point::new(2, 2), 0, 1, &size), None);
    // scaled jumps are bounded the same way
    assert_eq!(point_bounderies(&Point::new(1, 1), 4, 0, &size), None);
    assert_eq!(point_bounderies(&Point::new(1, 1), -4, 0, &size), None);
}

#[test]
fn fresh_tile_is_unassigned() {
    let t = Tile::new(Point::new(2, 5));
    assert_eq!(t.id, 0);
    assert_eq!(t.position, Point::new(2, 5));
    assert_eq!(t.seed_position, Point::new(0, 0));
}

#[test]
fn tie_rule_keeps_incumbent() {
    // cell (1,0), owned by the seed at (0,0): an equidistant candidate
    // seed at (2,0) must not take it
    let owned = Tile { id: 1, position: Point::new(1, 0), seed_position: Point::new(0, 0) };
    assert!(owned.closer_seed(&Point::new(2, 0)));
    let cand = Tile { id: 2, position: Point::new(3, 0), seed_position: Point::new(2, 0) };
    let (after, changed) = resolve_candidate(&owned, &cand);
    assert!(!changed);
    assert_eq!(after, owned);
}

#[test]
fn strictly_closer_candidate_takes() {
    let owned = Tile { id: 1, position: Point::new(3, 0), seed_position: Point::new(0, 0) };
    assert!(!owned.closer_seed(&Point::new(4, 0)));
    let cand = Tile { id: 2, position: Point::new(4, 1), seed_position: Point::new(4, 0) };
    let (after, changed) = resolve_candidate(&owned, &cand);
    assert!(changed);
    assert_eq!(after.id, 2);
    assert_eq!(after.seed_position, Point::new(4, 0));
    assert_eq!(after.position, Point::new(3, 0));
}

#[test]
fn unclaimed_cell_is_claimed() {
    let blank = Tile::new(Point::new(5, 5));
    let cand = Tile { id: 3, position: Point::new(5, 6), seed_position: Point::new(7, 7) };
    let (after, changed) = resolve_candidate(&blank, &cand);
    assert!(changed);
    assert_eq!(after.id, 3);
    assert_eq!(after.seed_position, Point::new(7, 7));
}

#[test]
fn same_owner_propagates_nothing() {
    let t = Tile { id: 2, position: Point::new(1, 1), seed_position: Point::new(0, 0) };
    let cand = Tile { id: 2, position: Point::new(2, 2), seed_position: Point::new(0, 0) };
    let (after, changed) = resolve_candidate(&t, &cand);
    assert!(!changed);
    assert_eq!(after, t);
}

#[test]
fn point_lines_parse() {
    assert_eq!(parse_point("3 4"), Some(Point::new(3, 4)));
    assert_eq!(parse_point("  7\t9  "), Some(Point::new(7, 9)));
    assert_eq!(parse_point("12 0 trailing junk"), Some(Point::new(12, 0)));
    assert_eq!(parse_point("800 600\n"), Some(Point::new(800, 600)));
    assert_eq!(Point::from_string("15 2"), Point::new(15, 2));
}

#[test]
fn malformed_point_lines_rejected() {
    assert_eq!(parse_point(""), None);
    assert_eq!(parse_point("12"), None);
    assert_eq!(parse_point("a b"), None);
    assert_eq!(parse_point("3 x"), None);
    assert_eq!(parse_point("-1 2"), None);
    assert_eq!(parse_point("3 99999999999999999999999999999999"), None);
}

#[test]
fn count_lines_parse() {
    assert_eq!(parse_count("5"), Some(5));
    assert_eq!(parse_count("  42 \n"), Some(42));
    assert_eq!(parse_count(""), None);
    assert_eq!(parse_count("5 6"), None);
    assert_eq!(parse_count("five"), None);
    assert_eq!(parse_count("99999999999999999999999999999999"), None);
}
