//! The greedy single-food engine for the fixed 8x8 board.
//!
//! Each of the four directions is tried in code order; a direction is
//! legal when the new head stays on the board and does not collide with a
//! cell the snake still occupies after the move (the first two trailing
//! segments; the tail cell is vacated by the move and the move toward it
//! is treated as safe).  Among the legal directions the one with the
//! smallest squared Euclidean distance to the food wins, earlier code on
//! ties.  When no direction is legal the engine returns the sentinel `-1`.

use vstd::prelude::*;

use crate::grid::Cell;
use crate::grid::step_spec;

verus! {

/// Board size of the simple engine.
pub const SIMPLE_BOARD: i32 = 8;

/// The head cell encoded in a flat snake array.
pub open spec fn head_of(s: Seq<i32>) -> Cell {
    Cell { x: s[0], y: s[1] }
}

/// New head coordinates after moving in direction `d`.
pub open spec fn simple_new_head(s: Seq<i32>, d: int) -> (int, int) {
    step_spec(head_of(s), d)
}

/// Legality of direction `d` for the simple engine: the new head is on
/// the 8x8 board and differs from the two body cells that remain occupied
/// after the move (`s[2..4]` and `s[4..6]`).
pub open spec fn simple_legal(s: Seq<i32>, d: int) -> bool {
    let (nx, ny) = simple_new_head(s, d);
    &&& 1 <= nx <= SIMPLE_BOARD as int
    &&& 1 <= ny <= SIMPLE_BOARD as int
    &&& !(nx == s[2] as int && ny == s[3] as int)
    &&& !(nx == s[4] as int && ny == s[5] as int)
}

/// Squared Euclidean distance from the new head in direction `d` to the
/// food cell.
pub open spec fn simple_dist(s: Seq<i32>, f: Seq<i32>, d: int) -> int {
    let (nx, ny) = simple_new_head(s, d);
    (nx - f[0] as int) * (nx - f[0] as int) + (ny - f[1] as int) * (ny - f[1] as int)
}

/// All coordinates of `s` lie in `[1, n]`.
pub open spec fn coords_on_board(s: Seq<i32>, n: int) -> bool {
    forall|i: int| 0 <= i < s.len() ==> 1 <= #[trigger] s[i] as int <= n
}

/// Full characterisation of the simple engine's answer.
pub open spec fn simple_post(s: Seq<i32>, f: Seq<i32>, r: int) -> bool {
    &&& (r == -1 <==> forall|d: int| 0 <= d < 4 ==> !simple_legal(s, d))
    &&& r != -1 ==> {
        &&& 0 <= r < 4
        &&& simple_legal(s, r)
        &&& forall|d: int|
            0 <= d < 4 && #[trigger] simple_legal(s, d) ==> (simple_dist(s, f, r) < simple_dist(
                s,
                f,
                d,
            ) || (simple_dist(s, f, r) == simple_dist(s, f, d) && r <= d))
    }
}

/// The answer is a pure function of the input: any two results that both
/// satisfy the engine's contract on the same input are equal.
pub proof fn lemma_simple_deterministic(s: Seq<i32>, f: Seq<i32>, r1: int, r2: int)
    requires
        simple_post(s, f, r1),
        simple_post(s, f, r2),
    ensures
        r1 == r2,
{
    if r1 != -1 && r2 != -1 {
        assert(simple_legal(s, r1) && simple_legal(s, r2));
    }
}

/// Greedy move on the fixed 8x8 board with no barriers.
///
/// `snake` holds four cells (head first) as eight flat coordinates and
/// `food` one cell.  The result is the direction code of the legal move
/// that brings the head closest to the food (squared Euclidean metric,
/// lowest code on ties), or `-1` when no direction is legal; this engine
/// deliberately reports `-1` rather than guessing when boxed in.
pub fn greedy_snake_move(snake: Vec<i32>, food: Vec<i32>) -> (r: i32)
    requires
        snake.len() == 8,
        food.len() == 2,
        coords_on_board(snake@, SIMPLE_BOARD as int),
        coords_on_board(food@, SIMPLE_BOARD as int),
    ensures
        simple_post(snake@, food@, r as int),
{
    let head = Cell { x: snake[0], y: snake[1] };
    let mut ans: i32 = -1;
    let mut min_distance: i32 = i32::MAX;
    let mut d: i32 = 0;
    while d < 4
        invariant
            0 <= d <= 4,
            snake.len() == 8,
            food.len() == 2,
            coords_on_board(snake@, SIMPLE_BOARD as int),
            coords_on_board(food@, SIMPLE_BOARD as int),
            head == head_of(snake@),
            ans == -1 ==> forall|dd: int| 0 <= dd < d ==> !(#[trigger] simple_legal(snake@, dd)),
            ans == -1 ==> min_distance == i32::MAX,
            ans != -1 ==> {
                &&& 0 <= ans < d
                &&& simple_legal(snake@, ans as int)
                &&& min_distance as int == simple_dist(snake@, food@, ans as int)
                &&& forall|dd: int|
                    0 <= dd < d && #[trigger] simple_legal(snake@, dd) ==> ((min_distance as int)
                        < simple_dist(snake@, food@, dd) || (min_distance as int == simple_dist(
                        snake@,
                        food@,
                        dd,
                    ) && ans <= dd))
            },
        decreases 4 - d,
    {
        let nh = head.step(d);
        let legal = nh.x >= 1 && nh.x <= SIMPLE_BOARD && nh.y >= 1 && nh.y <= SIMPLE_BOARD && !(
        nh.x == snake[2] && nh.y == snake[3]) && !(nh.x == snake[4] && nh.y == snake[5]);
        assert(legal == simple_legal(snake@, d as int));
        if legal {
            assert(1 <= food@[0] as int <= 8 && 1 <= food@[1] as int <= 8);
            let dx: i32 = nh.x - food[0];
            let dy: i32 = nh.y - food[1];
            assert(0 <= dx as int * dx as int <= 49 && 0 <= dy as int * dy as int <= 49)
                by (nonlinear_arith)
                requires
                    -7 <= dx as int <= 7,
                    -7 <= dy as int <= 7,
            ;
            let distance: i32 = dx * dx + dy * dy;
            assert(distance as int == simple_dist(snake@, food@, d as int));
            if distance < min_distance {
                min_distance = distance;
                ans = d;
            }
        }
        d = d + 1;
    }
    ans
}

} // verus!
