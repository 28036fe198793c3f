//! Mathematical model of reachability over the obstacle-augmented grid.
//!
//! A cell is free when it lies on the board and is not an obstacle.  A
//! path of length `k` walks from a source cell through free cells, one
//! adjacent step at a time; the source itself need not be free, since a
//! search may start on the snake's own head.  On top of this the module
//! defines the shortest-path distance `min_dist` and the connected
//! `region` of a cell, and proves the laws the search components rely
//! on: distances are monotonic in the obstacle set, a level with no
//! successor ends the search soundly, and a closed superset of the
//! source contains the whole region.

use vstd::prelude::*;

use crate::grid::Cell;
use crate::grid::adjacent;
use crate::grid::in_bounds;

verus! {

/// A cell the search may enter: on the board and not an obstacle.
pub open spec fn free(c: Cell, blocked: Set<Cell>, n: int) -> bool {
    in_bounds(c, n) && !blocked.contains(c)
}

/// There is a walk of at most `k` moves from `src` to `dst` whose every
/// visited cell (the source excepted) is free.
pub open spec fn dist_le(src: Cell, dst: Cell, blocked: Set<Cell>, n: int, k: nat) -> bool
    decreases k,
{
    if src == dst {
        true
    } else if k == 0 {
        false
    } else {
        free(dst, blocked, n) && exists|m: Cell|
            adjacent(m, dst) && dist_le(src, m, blocked, n, (k - 1) as nat)
    }
}

/// `dst` can be reached from `src` in some number of moves.
pub open spec fn reachable(src: Cell, dst: Cell, blocked: Set<Cell>, n: int) -> bool {
    exists|k: nat| dist_le(src, dst, blocked, n, k)
}

/// The connected free region of `src`: every cell it can reach
/// (including `src` itself).
pub open spec fn region(src: Cell, blocked: Set<Cell>, n: int) -> Set<Cell> {
    Set::new(|c: Cell| reachable(src, c, blocked, n))
}

/// The shortest-path distance from `src` to `dst`, if any path exists.
pub open spec fn min_dist(src: Cell, dst: Cell, blocked: Set<Cell>, n: int) -> Option<nat> {
    if reachable(src, dst, blocked, n) {
        Some(
            choose|k: nat|
                #[trigger] dist_le(src, dst, blocked, n, k) && (k == 0 || !dist_le(
                    src,
                    dst,
                    blocked,
                    n,
                    (k - 1) as nat,
                )),
        )
    } else {
        None
    }
}

/// One more step of budget never hurts.
pub proof fn lemma_dist_le_succ(src: Cell, dst: Cell, blocked: Set<Cell>, n: int, k: nat)
    requires
        dist_le(src, dst, blocked, n, k),
    ensures
        dist_le(src, dst, blocked, n, (k + 1) as nat),
    decreases k,
{
    if src != dst {
        let m = choose|m: Cell| adjacent(m, dst) && dist_le(src, m, blocked, n, (k - 1) as nat);
        lemma_dist_le_succ(src, m, blocked, n, (k - 1) as nat);
        assert(adjacent(m, dst) && dist_le(src, m, blocked, n, k));
    }
}

/// Distance bounds are monotone in the budget.
pub proof fn lemma_dist_le_mono(src: Cell, dst: Cell, blocked: Set<Cell>, n: int, k1: nat, k2: nat)
    requires
        dist_le(src, dst, blocked, n, k1),
        k1 <= k2,
    ensures
        dist_le(src, dst, blocked, n, k2),
    decreases k2 - k1,
{
    if k1 < k2 {
        lemma_dist_le_succ(src, dst, blocked, n, k1);
        lemma_dist_le_mono(src, dst, blocked, n, (k1 + 1) as nat, k2);
    }
}

/// Extending a path by one free adjacent step.
pub proof fn lemma_dist_le_step(src: Cell, m: Cell, dst: Cell, blocked: Set<Cell>, n: int, k: nat)
    requires
        dist_le(src, m, blocked, n, k),
        adjacent(m, dst),
        free(dst, blocked, n),
    ensures
        dist_le(src, dst, blocked, n, (k + 1) as nat),
{
    if src == dst {
    } else {
        assert(adjacent(m, dst) && dist_le(src, m, blocked, n, k));
    }
}

/// Prepending one free adjacent step to a walk.
pub proof fn lemma_dist_le_prepend(src: Cell, m: Cell, dst: Cell, blocked: Set<Cell>, n: int, k: nat)
    requires
        adjacent(src, m),
        free(m, blocked, n),
        dist_le(m, dst, blocked, n, k),
    ensures
        dist_le(src, dst, blocked, n, (k + 1) as nat),
    decreases k,
{
    if m == dst {
        assert(dist_le(src, src, blocked, n, 0));
        lemma_dist_le_step(src, src, dst, blocked, n, 0);
        lemma_dist_le_mono(src, dst, blocked, n, 1, (k + 1) as nat);
    } else {
        let m2 = choose|mm: Cell| adjacent(mm, dst) && dist_le(m, mm, blocked, n, (k - 1) as nat);
        lemma_dist_le_prepend(src, m, m2, blocked, n, (k - 1) as nat);
        lemma_dist_le_step(src, m2, dst, blocked, n, k);
    }
}

/// A walk that respects a larger obstacle set also respects a smaller
/// one: removing obstacles never disconnects anything.
pub proof fn lemma_dist_le_obstacle_mono(
    src: Cell,
    dst: Cell,
    b1: Set<Cell>,
    b2: Set<Cell>,
    n: int,
    k: nat,
)
    requires
        b1.subset_of(b2),
        dist_le(src, dst, b2, n, k),
    ensures
        dist_le(src, dst, b1, n, k),
    decreases k,
{
    if src != dst {
        let m = choose|m: Cell| adjacent(m, dst) && dist_le(src, m, b2, n, (k - 1) as nat);
        lemma_dist_le_obstacle_mono(src, m, b1, b2, n, (k - 1) as nat);
        assert(adjacent(m, dst) && dist_le(src, m, b1, n, (k - 1) as nat));
    }
}

/// Every bounded walk admits a minimal budget: the witness behind
/// `min_dist`.
pub proof fn lemma_least_dist_exists(src: Cell, dst: Cell, blocked: Set<Cell>, n: int, k: nat)
    requires
        dist_le(src, dst, blocked, n, k),
    ensures
        exists|j: nat|
            #[trigger] dist_le(src, dst, blocked, n, j) && (j == 0 || !dist_le(
                src,
                dst,
                blocked,
                n,
                (j - 1) as nat,
            )),
    decreases k,
{
    if k == 0 || !dist_le(src, dst, blocked, n, (k - 1) as nat) {
        assert(dist_le(src, dst, blocked, n, k) && (k == 0 || !dist_le(
            src,
            dst,
            blocked,
            n,
            (k - 1) as nat,
        )));
    } else {
        lemma_least_dist_exists(src, dst, blocked, n, (k - 1) as nat);
    }
}

/// The minimal budget is unique, so `min_dist` is well defined.
pub proof fn lemma_min_dist_unique(src: Cell, dst: Cell, blocked: Set<Cell>, n: int, j: nat)
    requires
        dist_le(src, dst, blocked, n, j),
        j == 0 || !dist_le(src, dst, blocked, n, (j - 1) as nat),
    ensures
        min_dist(src, dst, blocked, n) == Some(j),
{
    assert(reachable(src, dst, blocked, n));
    let w = choose|k: nat|
        #[trigger] dist_le(src, dst, blocked, n, k) && (k == 0 || !dist_le(
            src,
            dst,
            blocked,
            n,
            (k - 1) as nat,
        ));
    if w < j {
        lemma_dist_le_mono(src, dst, blocked, n, w, (j - 1) as nat);
    }
    if j < w {
        lemma_dist_le_mono(src, dst, blocked, n, j, (w - 1) as nat);
    }
}

/// Adding obstacles never decreases the shortest-path distance, and
/// never turns an unreachable target reachable: the obstacle-superset
/// monotonicity law of the distance the search computes.
pub proof fn lemma_min_dist_obstacle_mono(src: Cell, dst: Cell, b1: Set<Cell>, b2: Set<Cell>, n: int)
    requires
        b1.subset_of(b2),
    ensures
        min_dist(src, dst, b2, n) is Some ==> min_dist(src, dst, b1, n) is Some,
        min_dist(src, dst, b2, n) is Some && min_dist(src, dst, b1, n) is Some
            ==> min_dist(src, dst, b1, n).unwrap() <= min_dist(src, dst, b2, n).unwrap(),
{
    if reachable(src, dst, b2, n) {
        let k2 = choose|k: nat| dist_le(src, dst, b2, n, k);
        lemma_dist_le_obstacle_mono(src, dst, b1, b2, n, k2);
        assert(reachable(src, dst, b1, n));
        lemma_least_dist_exists(src, dst, b2, n, k2);
        let m2 = choose|k: nat|
            #[trigger] dist_le(src, dst, b2, n, k) && (k == 0 || !dist_le(src, dst, b2, n, (k - 1) as nat));
        lemma_min_dist_unique(src, dst, b2, n, m2);
        lemma_dist_le_obstacle_mono(src, dst, b1, b2, n, m2);
        lemma_least_dist_exists(src, dst, b1, n, m2);
        let m1 = choose|k: nat|
            #[trigger] dist_le(src, dst, b1, n, k) && (k == 0 || !dist_le(src, dst, b1, n, (k - 1) as nat));
        lemma_min_dist_unique(src, dst, b1, n, m1);
        if m1 > m2 {
            lemma_dist_le_mono(src, dst, b1, n, m2, (m1 - 1) as nat);
        }
    }
}

/// If no cell lies at exact distance `s + 1`, the search has saturated:
/// nothing lies beyond distance `s` either.
pub proof fn lemma_no_next_level(
    src: Cell,
    blocked: Set<Cell>,
    n: int,
    s: nat,
    dst: Cell,
    k: nat,
)
    requires
        forall|c: Cell|
            !(#[trigger] dist_le(src, c, blocked, n, (s + 1) as nat) && !dist_le(
                src,
                c,
                blocked,
                n,
                s,
            )),
        dist_le(src, dst, blocked, n, k),
    ensures
        dist_le(src, dst, blocked, n, s),
    decreases k,
{
    if src == dst {
    } else if k == 0 {
    } else {
        let m = choose|m: Cell| adjacent(m, dst) && dist_le(src, m, blocked, n, (k - 1) as nat);
        lemma_no_next_level(src, blocked, n, s, m, (k - 1) as nat);
        lemma_dist_le_step(src, m, dst, blocked, n, s);
        assert(dist_le(src, dst, blocked, n, (s + 1) as nat));
    }
}

/// A set that contains the source and is closed under free adjacent
/// steps contains the whole region of the source.
pub proof fn lemma_closed_set(
    src: Cell,
    blocked: Set<Cell>,
    n: int,
    s: Set<Cell>,
    dst: Cell,
    k: nat,
)
    requires
        s.contains(src),
        forall|a: Cell, b: Cell|
            s.contains(a) && #[trigger] adjacent(a, b) && free(b, blocked, n) ==> s.contains(b),
        dist_le(src, dst, blocked, n, k),
    ensures
        s.contains(dst),
    decreases k,
{
    if src == dst {
    } else {
        let m = choose|m: Cell| adjacent(m, dst) && dist_le(src, m, blocked, n, (k - 1) as nat);
        lemma_closed_set(src, blocked, n, s, m, (k - 1) as nat);
        assert(adjacent(m, dst));
    }
}

} // verus!
