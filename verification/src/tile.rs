//! Per-cell ownership state and the candidate-ownership decision shared by
//! both labeling engines.

use vstd::prelude::*;

verus! {

use crate::geometry::{Point, pt_bounded, spec_dist_sq, lemma_dist_sq_nonneg};

/// One grid position's ownership state: `id` is 0 while unassigned, otherwise
/// the 1-based index of the seed currently believed nearest; `position` is
/// the cell's own fixed coordinate; `seed_position` is the coordinate of
/// that seed (meaningless while `id == 0`).
#[derive(Clone, Copy, Debug, PartialEq, Eq, Structural)]
pub struct Tile {
    pub id: usize,
    pub position: Point,
    pub seed_position: Point,
}

impl Tile {
    /// A fresh, unassigned tile at the given position.
    pub fn new(position: Point) -> (t: Tile)
        ensures
            t == (Tile { id: 0, position, seed_position: Point { x: 0, y: 0 } }),
    {
        Tile { id: 0, position: position, seed_position: Point::new(0, 0) }
    }

    /// The tie rule: true when the seed this tile already records is at
    /// least as close as the candidate seed, i.e. when ownership must not
    /// change. Equal distances keep the incumbent.
    pub fn closer_seed(&self, seed_position: &Point) -> (r: bool)
        requires
            pt_bounded(self.position),
            pt_bounded(self.seed_position),
            pt_bounded(*seed_position),
        ensures
            r == (spec_dist_sq(self.position, self.seed_position) <= spec_dist_sq(
                self.position,
                *seed_position,
            )),
    {
        self.position.dist_sq(&self.seed_position) <= self.position.dist_sq(seed_position)
    }
}

/// True when offering `cand`'s seed to tile `t` must change `t`'s ownership:
/// the owners differ, and `t` is either unclaimed or strictly farther from
/// its recorded seed than from the candidate's.
pub open spec fn candidate_takes(t: Tile, cand: Tile) -> bool {
    &&& cand.id != t.id
    &&& (t.id == 0 || spec_dist_sq(t.position, cand.seed_position) < spec_dist_sq(
        t.position,
        t.seed_position,
    ))
}

/// The tile that results from offering `cand`'s seed to `t`.
pub open spec fn apply_candidate(t: Tile, cand: Tile) -> Tile {
    if candidate_takes(t, cand) {
        Tile { id: cand.id, position: t.position, seed_position: cand.seed_position }
    } else {
        t
    }
}

/// The single ownership decision both engines are built from: offer the
/// popped cell `cand`'s seed to tile `t`. Returns the tile's new state and
/// whether it changed (a changed tile is what the engines re-enqueue).
///
/// Unclaimed tiles are claimed outright; claimed tiles are reassigned only
/// when the candidate seed is strictly closer, so ties keep the incumbent
/// and a non-zero id is never cleared back to 0 by a candidate with a
/// non-zero id.
pub fn resolve_candidate(t: &Tile, cand: &Tile) -> (r: (Tile, bool))
    requires
        pt_bounded(t.position),
        t.id != 0 ==> pt_bounded(t.seed_position),
        pt_bounded(cand.seed_position),
    ensures
        r.1 == candidate_takes(*t, *cand),
        r.0 == apply_candidate(*t, *cand),
{
    if cand.id != t.id {
        if t.id == 0 {
            (Tile { id: cand.id, position: t.position, seed_position: cand.seed_position }, true)
        } else if !t.closer_seed(&cand.seed_position) {
            (Tile { id: cand.id, position: t.position, seed_position: cand.seed_position }, true)
        } else {
            (*t, false)
        }
    } else {
        (*t, false)
    }
}

/// Tie-rule correctness for a contested cell: when two candidate seeds at
/// strictly different distances are offered to an unclaimed tile, in either
/// order, the final owner is the strictly closer one.
pub proof fn lemma_tie_rule_strict(t: Tile, a: Tile, b: Tile)
    requires
        t.id == 0,
        a.id != 0,
        b.id != 0,
        a.id != b.id,
        spec_dist_sq(t.position, a.seed_position) < spec_dist_sq(t.position, b.seed_position),
    ensures
        apply_candidate(apply_candidate(t, a), b) == apply_candidate(t, a),
        apply_candidate(apply_candidate(t, b), a) == apply_candidate(t, a),
        apply_candidate(t, a).id == a.id,
{
}

/// Tie-rule determinism at exactly equal distances: the first candidate to
/// claim the cell keeps it; the later equidistant candidate is rejected.
/// (Under the sequential engine "first" is fixed by FIFO order; under a
/// concurrent execution either candidate may legitimately be first.)
pub proof fn lemma_tie_rule_equal(t: Tile, a: Tile, b: Tile)
    requires
        t.id == 0,
        a.id != 0,
        b.id != 0,
        a.id != b.id,
        spec_dist_sq(t.position, a.seed_position) == spec_dist_sq(t.position, b.seed_position),
    ensures
        apply_candidate(apply_candidate(t, a), b) == apply_candidate(t, a),
        apply_candidate(apply_candidate(t, b), a) == apply_candidate(t, b),
        apply_candidate(t, a).id == a.id,
        apply_candidate(t, b).id == b.id,
{
}

/// Monotonic ownership at the decision level: a candidate with a non-zero
/// id never clears a tile back to id 0, and never changes its position.
pub proof fn lemma_candidate_monotonic(t: Tile, cand: Tile)
    requires
        cand.id != 0,
    ensures
        t.id != 0 ==> apply_candidate(t, cand).id != 0,
        apply_candidate(t, cand).id != 0 || t.id == 0,
        apply_candidate(t, cand).position == t.position,
{
}

/// A tile whose recorded seed is at distance 0 (a seed's own cell) is never
/// reassigned: no candidate can be strictly closer.
pub proof fn lemma_seed_cell_keeps_owner(t: Tile, cand: Tile)
    requires
        t.id != 0,
        spec_dist_sq(t.position, t.seed_position) == 0,
    ensures
        apply_candidate(t, cand) == t,
{
    lemma_dist_sq_nonneg(t.position, cand.seed_position);
}

} // verus!
