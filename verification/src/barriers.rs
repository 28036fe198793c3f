//! The barrier-aware engine for the fixed 8x8 board.
//!
//! Candidates are the directions whose move is immediately legal (on
//! the board, not on a barrier, not into a cell the shifted body still
//! occupies).  Every candidate is ranked by the exact breadth-first
//! distance from its new head to the food over the barrier set extended
//! with the candidate's own shifted body window; candidates that cannot
//! reach the food are ranked by the size of the free region their new
//! head can still flood.  The engine commits to the best reachable
//! candidate (fewest moves, lowest code on ties) or, when none can
//! reach the food, to the best survival candidate (largest free region,
//! lowest code on ties); the bounded forward rollout only diagnoses
//! whether the food can become reachable again, and under this
//! optimistic policy it never changes the committed direction.  `-1` is
//! returned exactly when no candidate exists.

use vstd::prelude::*;

use crate::cellset::ObstacleSet;
use crate::grid::Cell;
use crate::grid::in_bounds;
use crate::grid::step_cell;
use crate::reach::min_dist;
use crate::reach::region;

verus! {

/// Board size of the barrier engine.
pub const BARRIER_BOARD: i32 = 8;

/// The cell the head moves to in direction `d`.
pub open spec fn move_head(head: Cell, d: int) -> Cell {
    step_cell(head, d)
}

/// Direction `d` is legal: the new head stays on the board, avoids the
/// barriers and avoids every cell of the shifted body window that stays
/// occupied (the old head and the first two trailing segments).
pub open spec fn move_legal(head: Cell, b1: Cell, b2: Cell, bset: Set<Cell>, d: int) -> bool {
    let nh = move_head(head, d);
    &&& in_bounds(nh, BARRIER_BOARD as int)
    &&& !bset.contains(nh)
    &&& nh != head
    &&& nh != b1
    &&& nh != b2
}

/// The obstacle set a candidate's searches run against: the barriers
/// plus the candidate's shifted four-cell body window.
pub open spec fn move_blocks(head: Cell, b1: Cell, b2: Cell, bset: Set<Cell>, d: int) -> Set<
    Cell,
> {
    bset.insert(move_head(head, d)).insert(head).insert(b1).insert(b2)
}

/// The breadth-first distance from the candidate's new head to the
/// target, over the candidate's obstacle set.
pub open spec fn move_dist(
    head: Cell,
    b1: Cell,
    b2: Cell,
    target: Cell,
    bset: Set<Cell>,
    d: int,
) -> Option<nat> {
    min_dist(move_head(head, d), target, move_blocks(head, b1, b2, bset, d), BARRIER_BOARD as int)
}

/// The size of the free region still reachable from the candidate's
/// new head, over the candidate's obstacle set.
pub open spec fn move_space(head: Cell, b1: Cell, b2: Cell, bset: Set<Cell>, d: int) -> int {
    region(move_head(head, d), move_blocks(head, b1, b2, bset, d), BARRIER_BOARD as int).len() as int
}

/// The set of cells a flat barrier coordinate list denotes.
pub open spec fn barrier_cells(b: Seq<i32>) -> Set<Cell> {
    Set::new(
        |c: Cell|
            exists|i: int|
                0 <= i && 2 * i + 1 < b.len() && b[2 * i] == c.x && #[trigger] b[2 * i + 1] == c.y,
    )
}

/// Some candidate can still reach the target.
pub open spec fn some_reachable(head: Cell, b1: Cell, b2: Cell, target: Cell, bset: Set<
    Cell,
>) -> bool {
    exists|d: int|
        0 <= d < 4 && #[trigger] move_legal(head, b1, b2, bset, d) && move_dist(
            head,
            b1,
            b2,
            target,
            bset,
            d,
        ) is Some
}

/// Full characterisation of the barrier engine's answer.
pub open spec fn barriers_post(
    head: Cell,
    b1: Cell,
    b2: Cell,
    target: Cell,
    bset: Set<Cell>,
    r: int,
) -> bool {
    &&& (r == -1 <==> forall|d: int| 0 <= d < 4 ==> !move_legal(head, b1, b2, bset, d))
    &&& r != -1 ==> 0 <= r < 4 && move_legal(head, b1, b2, bset, r)
    &&& some_reachable(head, b1, b2, target, bset) ==> {
        &&& r != -1
        &&& move_dist(head, b1, b2, target, bset, r) is Some
        &&& forall|d: int|
            0 <= d < 4 && #[trigger] move_legal(head, b1, b2, bset, d) && move_dist(
                head,
                b1,
                b2,
                target,
                bset,
                d,
            ) is Some ==> (move_dist(head, b1, b2, target, bset, r).unwrap() < move_dist(
                head,
                b1,
                b2,
                target,
                bset,
                d,
            ).unwrap() || (move_dist(head, b1, b2, target, bset, r) == move_dist(
                head,
                b1,
                b2,
                target,
                bset,
                d,
            ) && r <= d))
    }
    &&& (r != -1 && !some_reachable(head, b1, b2, target, bset)) ==> forall|d: int|
        0 <= d < 4 && #[trigger] move_legal(head, b1, b2, bset, d) ==> (move_space(
            head,
            b1,
            b2,
            bset,
            r,
        ) > move_space(head, b1, b2, bset, d) || (move_space(head, b1, b2, bset, r) == move_space(
            head,
            b1,
            b2,
            bset,
            d,
        ) && r <= d))
}

/// The answer is a pure function of the input: two results that both
/// satisfy the engine's contract on the same input are equal.
pub proof fn lemma_barriers_deterministic(
    head: Cell,
    b1: Cell,
    b2: Cell,
    target: Cell,
    bset: Set<Cell>,
    r1: int,
    r2: int,
)
    requires
        barriers_post(head, b1, b2, target, bset, r1),
        barriers_post(head, b1, b2, target, bset, r2),
    ensures
        r1 == r2,
{
    if r1 != -1 && r2 != -1 {
        assert(move_legal(head, b1, b2, bset, r1));
        assert(move_legal(head, b1, b2, bset, r2));
    }
}

/// Build the barrier set from a flat, even-length coordinate list.
pub fn build_barriers(barriers: &[i32]) -> (r: ObstacleSet)
    requires
        barriers@.len() % 2 == 0,
    ensures
        r@ == barrier_cells(barriers@),
{
    let ghost bs = barriers@;
    let mut r = ObstacleSet::empty();
    let mut i: usize = 0;
    while i + 1 < barriers.len()
        invariant
            bs == barriers@,
            bs.len() % 2 == 0,
            i % 2 == 0,
            0 <= i <= bs.len(),
            forall|c: Cell|
                #[trigger] r@.contains(c) <==> exists|j: int|
                    0 <= j && 2 * j + 1 < i && bs[2 * j] == c.x && #[trigger] bs[2 * j + 1] == c.y,
        decreases barriers.len() - i,
    {
        let c = Cell::new(barriers[i], barriers[i + 1]);
        let ghost r_old = r@;
        r.insert(c);
        proof {
            assert forall|a: Cell|
                #[trigger] r@.contains(a) <==> exists|j: int|
                    0 <= j && 2 * j + 1 < i + 2 && bs[2 * j] == a.x && #[trigger] bs[2 * j + 1]
                        == a.y by {
                if r@.contains(a) {
                    if r_old.contains(a) {
                    } else {
                        assert(a == c);
                        assert(2 * (i as int / 2) == i as int);
                        assert(bs[2 * (i as int / 2)] == a.x && bs[2 * (i as int / 2) + 1] == a.y);
                    }
                } else {
                    assert(!r_old.contains(a));
                    if exists|j: int|
                        0 <= j && 2 * j + 1 < i + 2 && bs[2 * j] == a.x && #[trigger] bs[2 * j + 1]
                            == a.y {
                        let j = choose|j: int|
                            0 <= j && 2 * j + 1 < i + 2 && bs[2 * j] == a.x && #[trigger] bs[2 * j
                                + 1] == a.y;
                        if 2 * j + 1 < i {
                            assert(r_old.contains(a));
                        } else {
                            assert(2 * j == i as int);
                            assert(a == c);
                        }
                    }
                }
            };
        }
        i = i + 2;
    }
    proof {
        assert forall|c: Cell| #[trigger] r@.contains(c) <==> barrier_cells(bs).contains(c) by {
            if barrier_cells(bs).contains(c) {
                let j = choose|j: int|
                    0 <= j && 2 * j + 1 < bs.len() && bs[2 * j] == c.x && #[trigger] bs[2 * j + 1]
                        == c.y;
                assert(2 * j + 1 < i);
            }
        };
        assert(r@ =~= barrier_cells(bs));
    }
    r
}

/// Extend the barrier set with a candidate's shifted body window,
/// leaving the caller's set untouched.
pub fn merge_blocks(bset: &ObstacleSet, nh: Cell, head: Cell, b1: Cell, b2: Cell) -> (r:
    ObstacleSet)
    ensures
        r@ == bset@.insert(nh).insert(head).insert(b1).insert(b2),
{
    let mut r = bset.duplicate();
    r.insert(nh);
    r.insert(head);
    r.insert(b1);
    r.insert(b2);
    r
}

/// Exec check of a single direction's legality.
pub fn legal_move(head: Cell, b1: Cell, b2: Cell, bset: &ObstacleSet, d: i32) -> (r: bool)
    requires
        0 <= d < 4,
        in_bounds(head, BARRIER_BOARD as int),
    ensures
        r == move_legal(head, b1, b2, bset@, d as int),
{
    let nh = head.step(d);
    nh.x >= 1 && nh.x <= BARRIER_BOARD && nh.y >= 1 && nh.y <= BARRIER_BOARD && !bset.contains(nh)
        && !(nh.x == head.x && nh.y == head.y) && !(nh.x == b1.x && nh.y == b1.y) && !(nh.x == b2.x
        && nh.y == b2.y)
}

/// The ordered list of legal candidates: each entry carries the
/// direction code, the resulting new head and the shifted four-cell
/// body window (new head, old head, first and second trailing
/// segments), in ascending code order.
pub fn candidates_generation(head: Cell, b1: Cell, b2: Cell, bset: &ObstacleSet) -> (r: Vec<
    (i32, Cell, (Cell, Cell, Cell, Cell)),
>)
    requires
        in_bounds(head, BARRIER_BOARD as int),
    ensures
        forall|k: int|
            0 <= k < r@.len() ==> {
                &&& 0 <= #[trigger] r@[k].0 < 4
                &&& move_legal(head, b1, b2, bset@, r@[k].0 as int)
                &&& r@[k].1 == move_head(head, r@[k].0 as int)
                &&& r@[k].2 == (move_head(head, r@[k].0 as int), head, b1, b2)
            },
        forall|k1: int, k2: int| 0 <= k1 < k2 < r@.len() ==> r@[k1].0 < r@[k2].0,
        forall|d: int|
            0 <= d < 4 && #[trigger] move_legal(head, b1, b2, bset@, d) ==> exists|k: int|
                0 <= k < r@.len() && #[trigger] r@[k].0 == d,
{
    let mut r: Vec<(i32, Cell, (Cell, Cell, Cell, Cell))> = Vec::new();
    let mut d: i32 = 0;
    while d < 4
        invariant
            0 <= d <= 4,
            in_bounds(head, BARRIER_BOARD as int),
            forall|k: int|
                0 <= k < r@.len() ==> {
                    &&& 0 <= #[trigger] r@[k].0 < d
                    &&& move_legal(head, b1, b2, bset@, r@[k].0 as int)
                    &&& r@[k].1 == move_head(head, r@[k].0 as int)
                    &&& r@[k].2 == (move_head(head, r@[k].0 as int), head, b1, b2)
                },
            forall|k1: int, k2: int| 0 <= k1 < k2 < r@.len() ==> r@[k1].0 < r@[k2].0,
            forall|dd: int|
                0 <= dd < d && #[trigger] move_legal(head, b1, b2, bset@, dd) ==> exists|k: int|
                    0 <= k < r@.len() && #[trigger] r@[k].0 == dd,
        decreases 4 - d,
    {
        if legal_move(head, b1, b2, bset, d) {
            let nh = head.step(d);
            let ghost rp = r@;
            r.push((d, nh, (nh, head, b1, b2)));
            proof {
                assert(r@.len() == rp.len() + 1);
                assert(forall|k: int| 0 <= k < rp.len() ==> r@[k] == rp[k]);
                assert(r@[rp.len() as int].0 == d);
                assert forall|dd: int|
                    0 <= dd < d + 1 && #[trigger] move_legal(head, b1, b2, bset@, dd) implies exists|
                    k: int,
                |
                    0 <= k < r@.len() && #[trigger] r@[k].0 == dd by {
                    if dd < d {
                        let k = choose|k: int| 0 <= k < rp.len() && #[trigger] rp[k].0 == dd;
                        assert(r@[k].0 == dd);
                    } else {
                        assert(r@[rp.len() as int].0 == dd);
                    }
                };
            }
        }
        d = d + 1;
    }
    r
}

/// The survival metric of a position: the size of the free region the
/// flood fill can still reach from it.
pub fn calculate_freedom(pos: Cell, blocks: &ObstacleSet) -> (r: i32)
    requires
        in_bounds(pos, BARRIER_BOARD as int),
    ensures
        r as int == region(pos, blocks@, BARRIER_BOARD as int).len(),
{
    crate::search::region_size(pos, blocks, BARRIER_BOARD)
}

/// Among `(code, steps)` entries, the code with the fewest steps,
/// lowest code on ties.
pub fn select_best_reachable(entries: &Vec<(i32, i32)>) -> (r: i32)
    requires
        entries@.len() >= 1,
    ensures
        exists|k: int|
            0 <= k < entries@.len() && #[trigger] entries@[k].0 == r && forall|j: int|
                0 <= j < entries@.len() ==> (entries@[k].1 < #[trigger] entries@[j].1 || (
                entries@[k].1 == entries@[j].1 && entries@[k].0 <= entries@[j].0)),
{
    let mut best: usize = 0;
    let mut i: usize = 1;
    while i < entries.len()
        invariant
            0 <= best < i <= entries@.len(),
            forall|j: int|
                0 <= j < i ==> (entries@[best as int].1 < #[trigger] entries@[j].1 || (
                entries@[best as int].1 == entries@[j].1 && entries@[best as int].0
                    <= entries@[j].0)),
        decreases entries@.len() - i,
    {
        let e = entries[i];
        let b = entries[best];
        if e.1 < b.1 || (e.1 == b.1 && e.0 < b.0) {
            best = i;
        }
        i = i + 1;
    }
    entries[best].0
}

/// Among `(code, space)` entries, the code with the largest space,
/// lowest code on ties; `-1` when there are no entries.
pub fn select_best_unreachable(entries: &Vec<(i32, i32)>) -> (r: i32)
    ensures
        entries@.len() == 0 ==> r == -1,
        entries@.len() > 0 ==> exists|k: int|
            0 <= k < entries@.len() && #[trigger] entries@[k].0 == r && forall|j: int|
                0 <= j < entries@.len() ==> (entries@[k].1 > #[trigger] entries@[j].1 || (
                entries@[k].1 == entries@[j].1 && entries@[k].0 <= entries@[j].0)),
{
    if entries.len() == 0 {
        return -1;
    }
    let mut best: usize = 0;
    let mut i: usize = 1;
    while i < entries.len()
        invariant
            0 <= best < i <= entries@.len(),
            forall|j: int|
                0 <= j < i ==> (entries@[best as int].1 > #[trigger] entries@[j].1 || (
                entries@[best as int].1 == entries@[j].1 && entries@[best as int].0
                    <= entries@[j].0)),
        decreases entries@.len() - i,
    {
        let e = entries[i];
        let b = entries[best];
        if e.1 > b.1 || (e.1 == b.1 && e.0 < b.0) {
            best = i;
        }
        i = i + 1;
    }
    entries[best].0
}

/// The cell stored at pair index `i` of a flat coordinate list.
pub open spec fn cell_at(s: Seq<i32>, i: int) -> Cell {
    Cell { x: s[2 * i], y: s[2 * i + 1] }
}

/// All coordinates of `s` lie in `[1, n]`.
pub open spec fn flat_on_board(s: Seq<i32>, n: int) -> bool {
    forall|i: int| 0 <= i < s.len() ==> 1 <= #[trigger] s[i] as int <= n
}

/// Direction `d` is the best survival move of the state: legal, and
/// ahead of every legal direction by larger flood-fill region first,
/// lower code on ties.
pub open spec fn is_best_survival(head: Cell, b1: Cell, b2: Cell, bset: Set<Cell>, d: int) -> bool {
    &&& 0 <= d < 4
    &&& move_legal(head, b1, b2, bset, d)
    &&& forall|d2: int|
        0 <= d2 < 4 && #[trigger] move_legal(head, b1, b2, bset, d2) ==> (move_space(
            head,
            b1,
            b2,
            bset,
            d,
        ) > move_space(head, b1, b2, bset, d2) || (move_space(head, b1, b2, bset, d) == move_space(
            head,
            b1,
            b2,
            bset,
            d2,
        ) && d <= d2))
}

/// The best survival move is unique.
pub proof fn lemma_best_survival_unique(
    head: Cell,
    b1: Cell,
    b2: Cell,
    bset: Set<Cell>,
    d1: int,
    d2: int,
)
    requires
        is_best_survival(head, b1, b2, bset, d1),
        is_best_survival(head, b1, b2, bset, d2),
    ensures
        d1 == d2,
{
    assert(move_legal(head, b1, b2, bset, d1));
    assert(move_legal(head, b1, b2, bset, d2));
}

/// The bounded forward rollout, as a mathematical function: from the
/// state `(h, c1, c2)` (new head first), report whether the target is
/// breadth-first reachable from some candidate now, or becomes so
/// after repeatedly taking the best survival move, within the given
/// number of ticks.
pub open spec fn rollout_reaches(
    h: Cell,
    c1: Cell,
    c2: Cell,
    target: Cell,
    bset: Set<Cell>,
    fuel: nat,
) -> bool
    decreases fuel,
{
    if fuel == 0 {
        false
    } else if some_reachable(h, c1, c2, target, bset) {
        true
    } else if exists|d: int| is_best_survival(h, c1, c2, bset, d) {
        rollout_reaches(
            move_head(h, choose|d: int| is_best_survival(h, c1, c2, bset, d)),
            h,
            c1,
            target,
            bset,
            (fuel - 1) as nat,
        )
    } else {
        false
    }
}

/// Bounded forward rollout: starting from the state `(head, b1, b2)`
/// (new head first), repeatedly take the best survival move and report
/// whether the target becomes breadth-first reachable within fifty
/// simulated ticks.  The answer is exactly the mathematical rollout;
/// under the engine's optimistic policy it is a diagnostic only and
/// never changes the committed direction.
pub fn lookahead_reaches_food(head: Cell, b1: Cell, b2: Cell, target: Cell, bset: &ObstacleSet) -> (r:
    bool)
    requires
        in_bounds(head, BARRIER_BOARD as int),
        in_bounds(b1, BARRIER_BOARD as int),
        in_bounds(b2, BARRIER_BOARD as int),
        in_bounds(target, BARRIER_BOARD as int),
    ensures
        r == rollout_reaches(head, b1, b2, target, bset@, 50),
{
    let ghost bs = bset@;
    let mut h = head;
    let mut c1 = b1;
    let mut c2 = b2;
    let mut fuel: i32 = 50;
    while fuel > 0
        invariant
            bs == bset@,
            0 <= fuel <= 50,
            in_bounds(h, BARRIER_BOARD as int),
            in_bounds(c1, BARRIER_BOARD as int),
            in_bounds(c2, BARRIER_BOARD as int),
            in_bounds(target, BARRIER_BOARD as int),
            rollout_reaches(head, b1, b2, target, bs, 50) == rollout_reaches(
                h,
                c1,
                c2,
                target,
                bs,
                fuel as nat,
            ),
        decreases fuel,
    {
        let mut best_code: i32 = -1;
        let mut best_space: i32 = 0;
        let mut d: i32 = 0;
        while d < 4
            invariant
                bs == bset@,
                1 <= fuel <= 50,
                0 <= d <= 4,
                in_bounds(h, BARRIER_BOARD as int),
                in_bounds(c1, BARRIER_BOARD as int),
                in_bounds(c2, BARRIER_BOARD as int),
                in_bounds(target, BARRIER_BOARD as int),
                rollout_reaches(head, b1, b2, target, bs, 50) == rollout_reaches(
                    h,
                    c1,
                    c2,
                    target,
                    bs,
                    fuel as nat,
                ),
                forall|dd: int|
                    0 <= dd < d ==> !(#[trigger] move_legal(h, c1, c2, bs, dd) && move_dist(
                        h,
                        c1,
                        c2,
                        target,
                        bs,
                        dd,
                    ) is Some),
                best_code == -1 ==> forall|dd: int|
                    0 <= dd < d ==> !(#[trigger] move_legal(h, c1, c2, bs, dd)),
                best_code != -1 ==> {
                    &&& 0 <= best_code < d
                    &&& 1 <= best_space
                    &&& move_legal(h, c1, c2, bs, best_code as int)
                    &&& best_space as int == move_space(h, c1, c2, bs, best_code as int)
                    &&& forall|dd: int|
                        0 <= dd < d && #[trigger] move_legal(h, c1, c2, bs, dd) ==> ((
                        best_space as int) > move_space(h, c1, c2, bs, dd) || (best_space as int
                            == move_space(h, c1, c2, bs, dd) && best_code <= dd))
                },
            decreases 4 - d,
        {
            if legal_move(h, c1, c2, bset, d) {
                let nh = h.step(d);
                let blocks = merge_blocks(bset, nh, h, c1, c2);
                proof {
                    assert(blocks@ == move_blocks(h, c1, c2, bs, d as int));
                }
                match crate::search::bfs(nh, target, &blocks, BARRIER_BOARD) {
                    Some(_) => {
                        proof {
                            assert(move_dist(h, c1, c2, target, bs, d as int) is Some);
                            assert(some_reachable(h, c1, c2, target, bs));
                            assert(rollout_reaches(h, c1, c2, target, bs, fuel as nat));
                        }
                        return true;
                    },
                    None => {
                        proof {
                            assert(move_dist(h, c1, c2, target, bs, d as int) is None);
                        }
                        let space = crate::search::region_size(nh, &blocks, BARRIER_BOARD);
                        proof {
                            assert(space as int == move_space(h, c1, c2, bs, d as int));
                        }
                        if best_code == -1 || space > best_space {
                            best_code = d;
                            best_space = space;
                        }
                    },
                }
            }
            d = d + 1;
        }
        proof {
            assert(!some_reachable(h, c1, c2, target, bs));
        }
        if best_code == -1 {
            proof {
                assert(forall|dd: int| !is_best_survival(h, c1, c2, bs, dd));
                assert(!rollout_reaches(h, c1, c2, target, bs, fuel as nat));
            }
            return false;
        }
        let nh = h.step(best_code);
        proof {
            assert(is_best_survival(h, c1, c2, bs, best_code as int));
            let dc = choose|dd: int| is_best_survival(h, c1, c2, bs, dd);
            lemma_best_survival_unique(h, c1, c2, bs, dc, best_code as int);
            assert(nh == move_head(h, best_code as int));
            assert(rollout_reaches(h, c1, c2, target, bs, fuel as nat) == rollout_reaches(
                nh,
                h,
                c1,
                target,
                bs,
                (fuel - 1) as nat,
            ));
        }
        c2 = c1;
        c1 = h;
        h = nh;
        fuel = fuel - 1;
    }
    false
}


/// Barrier-aware greedy move on the fixed 8x8 board.
///
/// `snake` holds four cells (head first) as eight flat coordinates,
/// `fruit` one cell, and `barriers` an even-length coordinate list.
/// The engine returns the legal direction whose move reaches the fruit
/// in the fewest breadth-first steps (lowest code on ties); when no
/// candidate can reach the fruit it commits to the candidate whose new
/// head floods the largest free region (lowest code on ties), which is
/// also what the bounded rollout would commit under the optimistic
/// policy; and it returns `-1` exactly when no direction is legal.
pub fn greedy_snake_move_barriers(snake: &[i32], fruit: &[i32], barriers: &[i32]) -> (r: i32)
    requires
        snake@.len() == 8,
        fruit@.len() == 2,
        barriers@.len() % 2 == 0,
        flat_on_board(snake@, BARRIER_BOARD as int),
        flat_on_board(fruit@, BARRIER_BOARD as int),
    ensures
        barriers_post(
            cell_at(snake@, 0),
            cell_at(snake@, 1),
            cell_at(snake@, 2),
            cell_at(fruit@, 0),
            barrier_cells(barriers@),
            r as int,
        ),
{
    let head = Cell::new(snake[0], snake[1]);
    let b1 = Cell::new(snake[2], snake[3]);
    let b2 = Cell::new(snake[4], snake[5]);
    let target = Cell::new(fruit[0], fruit[1]);
    proof {
        assert(head == cell_at(snake@, 0));
        assert(b1 == cell_at(snake@, 1));
        assert(b2 == cell_at(snake@, 2));
        assert(target == cell_at(fruit@, 0));
        assert(1 <= snake@[0] as int <= 8 && 1 <= snake@[1] as int <= 8);
        assert(1 <= fruit@[0] as int <= 8 && 1 <= fruit@[1] as int <= 8);
    }
    let bset = build_barriers(barriers);
    let ghost bs = bset@;
    let mut best_r: i32 = -1;
    let mut best_r_steps: i32 = 0;
    let mut best_u: i32 = -1;
    let mut best_u_space: i32 = 0;
    let mut d: i32 = 0;
    while d < 4
        invariant
            0 <= d <= 4,
            bs == bset@,
            in_bounds(head, BARRIER_BOARD as int),
            in_bounds(target, BARRIER_BOARD as int),
            best_r == -1 ==> forall|dd: int|
                0 <= dd < d ==> !(#[trigger] move_legal(head, b1, b2, bs, dd) && move_dist(
                    head,
                    b1,
                    b2,
                    target,
                    bs,
                    dd,
                ) is Some),
            best_r != -1 ==> {
                &&& 0 <= best_r < d
                &&& 0 <= best_r_steps
                &&& move_legal(head, b1, b2, bs, best_r as int)
                &&& move_dist(head, b1, b2, target, bs, best_r as int) == Some(
                    best_r_steps as nat,
                )
                &&& forall|dd: int|
                    0 <= dd < d && #[trigger] move_legal(head, b1, b2, bs, dd) && move_dist(
                        head,
                        b1,
                        b2,
                        target,
                        bs,
                        dd,
                    ) is Some ==> ((best_r_steps as nat) < move_dist(
                        head,
                        b1,
                        b2,
                        target,
                        bs,
                        dd,
                    ).unwrap() || (best_r_steps as nat == move_dist(
                        head,
                        b1,
                        b2,
                        target,
                        bs,
                        dd,
                    ).unwrap() && best_r <= dd))
            },
            best_u == -1 ==> forall|dd: int|
                0 <= dd < d ==> !(#[trigger] move_legal(head, b1, b2, bs, dd) && move_dist(
                    head,
                    b1,
                    b2,
                    target,
                    bs,
                    dd,
                ) is None),
            best_u != -1 ==> {
                &&& 0 <= best_u < d
                &&& 1 <= best_u_space
                &&& move_legal(head, b1, b2, bs, best_u as int)
                &&& move_dist(head, b1, b2, target, bs, best_u as int) is None
                &&& best_u_space as int == move_space(head, b1, b2, bs, best_u as int)
                &&& forall|dd: int|
                    0 <= dd < d && #[trigger] move_legal(head, b1, b2, bs, dd) && move_dist(
                        head,
                        b1,
                        b2,
                        target,
                        bs,
                        dd,
                    ) is None ==> ((best_u_space as int) > move_space(head, b1, b2, bs, dd) || (
                    best_u_space as int == move_space(head, b1, b2, bs, dd) && best_u <= dd))
            },
        decreases 4 - d,
    {
        if legal_move(head, b1, b2, &bset, d) {
            let nh = head.step(d);
            let blocks = merge_blocks(&bset, nh, head, b1, b2);
            proof {
                assert(blocks@ == move_blocks(head, b1, b2, bs, d as int));
            }
            match crate::search::bfs(nh, target, &blocks, BARRIER_BOARD) {
                Some(steps) => {
                    proof {
                        assert(move_dist(head, b1, b2, target, bs, d as int) == Some(
                            steps as nat,
                        ));
                    }
                    if best_r == -1 || steps < best_r_steps {
                        best_r = d;
                        best_r_steps = steps;
                    }
                },
                None => {
                    proof {
                        assert(move_dist(head, b1, b2, target, bs, d as int) is None);
                    }
                    let space = crate::search::region_size(nh, &blocks, BARRIER_BOARD);
                    if best_u == -1 || space > best_u_space {
                        best_u = d;
                        best_u_space = space;
                    }
                },
            }
        }
        d = d + 1;
    }
    if best_r != -1 {
        return best_r;
    }
    if best_u == -1 {
        return -1;
    }
    best_u
}

} // verus!
