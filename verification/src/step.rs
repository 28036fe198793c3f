//! The multi-rival engine for a variable-size board.
//!
//! The obstacle set is built from every active rival: the rival's first
//! three body segments and the four one-step-ahead cells its head could
//! reach next tick, each kept only when it lies on the board.  The
//! engine then runs a cost-guided search toward the nearest reachable
//! food (Manhattan heuristic plus a fixed danger penalty, an anti-trap
//! guard on every expansion) and falls back to the defensive flood-fill
//! ranking when the search yields no direction.  An inactive snake
//! (head marker `-1`) gets the neutral code 0; `-1` is returned exactly
//! when no direction is legal.

use vstd::prelude::*;

use crate::cellset::ObstacleSet;
use crate::cellset::vec_contains;
use crate::grid::Cell;
use crate::grid::adjacent;
use crate::grid::grid_set;
use crate::grid::in_bounds;
use crate::grid::is_step;
use crate::grid::lemma_adjacent_steps;
use crate::grid::lemma_grid_card;
use crate::grid::is_valid;
use crate::grid::manhattan;
use crate::grid::manhattan_spec;
use crate::grid::step_cell;
use crate::reach::dist_le;
use crate::reach::free;
use crate::reach::reachable;
use crate::reach::region;
use crate::search::bfs;
use crate::search::region_size;

verus! {

/// Largest board size the multi-rival engine accepts: the largest `n`
/// for which the search budget `4 * n * n + 8`, and with it every
/// accumulated cost, stays representable in an `i32`.
pub const MAX_STEP_BOARD: i32 = 23000;

/// The `j`-th body segment of rival block `i` in the flat rival list.
pub open spec fn rival_seg(o: Seq<i32>, i: int, j: int) -> Cell {
    Cell { x: o[8 * i + 2 * j], y: o[8 * i + 2 * j + 1] }
}

/// The head of rival block `i`.
pub open spec fn rival_head(o: Seq<i32>, i: int) -> Cell {
    Cell { x: o[8 * i], y: o[8 * i + 1] }
}

/// Whether rival block `i` contributes the cell `c` to the obstacle
/// set: an active rival contributes its first three on-board body
/// segments and every on-board cell its head can step to next tick.
pub open spec fn rival_contrib(o: Seq<i32>, n: int, i: int, c: Cell) -> bool {
    o[8 * i] != -1 && ((exists|j: int|
        0 <= j < 3 && in_bounds(#[trigger] rival_seg(o, i, j), n) && c == rival_seg(o, i, j))
        || (exists|d: int|
        0 <= d < 4 && c == #[trigger] step_cell(rival_head(o, i), d) && in_bounds(c, n)))
}

/// The obstacle predicate of the whole rival list.
pub open spec fn obstacle_cell(o: Seq<i32>, n: int, c: Cell) -> bool {
    exists|i: int| 0 <= i && 8 * i + 7 < o.len() && #[trigger] rival_contrib(o, n, i, c)
}

/// Every rival block either starts with the inactive marker or has an
/// on-board head (the head is the only pair the prediction steps from).
pub open spec fn rivals_well_formed(o: Seq<i32>, n: int) -> bool {
    forall|i: int|
        0 <= i && 8 * i + 7 < o.len() ==> (o[8 * i] == -1 || (1 <= #[trigger] o[8 * i] as int <= n
            && 1 <= o[8 * i + 1] as int <= n))
}

/// A legal own move: on the board, not on an obstacle, and not into a
/// cell the own body still occupies after the move (the second and
/// third segments; the tail cell is vacated).
pub open spec fn step_legal(head: Cell, s2: Cell, s3: Cell, obs: Set<Cell>, n: int, d: int) -> bool {
    let nh = step_cell(head, d);
    &&& in_bounds(nh, n)
    &&& !obs.contains(nh)
    &&& nh != s2
    &&& nh != s3
}

/// Build the obstacle set from the flat rival list: for every active
/// rival, its first three on-board segments and the four predicted
/// head cells.
pub fn get_obstacles(other_snakes: &[i32], board_size: i32) -> (r: ObstacleSet)
    requires
        other_snakes@.len() % 8 == 0,
        1 <= board_size <= MAX_STEP_BOARD,
        rivals_well_formed(other_snakes@, board_size as int),
    ensures
        forall|c: Cell|
            #[trigger] r@.contains(c) <==> obstacle_cell(other_snakes@, board_size as int, c),
        forall|c: Cell| #[trigger] r@.contains(c) ==> in_bounds(c, board_size as int),
{
    let ghost o = other_snakes@;
    let ghost nn = board_size as int;
    let mut r = ObstacleSet::empty();
    let mut base: usize = 0;
    let ghost mut b: int = 0;
    while base < other_snakes.len()
        invariant
            o == other_snakes@,
            o.len() % 8 == 0,
            1 <= board_size <= MAX_STEP_BOARD,
            nn == board_size as int,
            rivals_well_formed(o, nn),
            0 <= base as int <= o.len(),
            base % 8 == 0,
            b == base as int / 8,
            forall|c: Cell|
                #[trigger] r@.contains(c) <==> exists|i: int|
                    0 <= i < b && #[trigger] rival_contrib(o, nn, i, c),
        decreases o.len() - base as int,
    {
        assert(base as int + 8 <= o.len());
        assert(8 * b == base as int);
        assert(8 * b + 7 < o.len());
        let ghost r_block = r@;
        if other_snakes[base] != -1 {
            // the first three body segments, where on the board
            let mut j: usize = 0;
            while j < 3
                invariant
                    o == other_snakes@,
                    nn == board_size as int,
                    1 <= board_size <= MAX_STEP_BOARD,
                    base as int == 8 * b,
                    8 * b + 7 < o.len(),
                    o[8 * b] != -1,
                    0 <= j <= 3,
                    forall|c: Cell|
                        #[trigger] r@.contains(c) <==> (r_block.contains(c) || exists|jj: int|
                            0 <= jj < j && in_bounds(#[trigger] rival_seg(o, b, jj), nn)
                                && c == rival_seg(o, b, jj)),
                decreases 3 - j,
            {
                let cx = other_snakes[base + 2 * j];
                let cy = other_snakes[base + 2 * j + 1];
                let cseg = Cell::new(cx, cy);
                assert(cseg == rival_seg(o, b, j as int));
                if is_valid(cx, cy, board_size) {
                    let ghost rp = r@;
                    r.insert(cseg);
                    proof {
                        assert forall|c: Cell|
                            #[trigger] r@.contains(c) <==> (r_block.contains(c) || exists|jj: int|
                                0 <= jj < j + 1 && in_bounds(#[trigger] rival_seg(o, b, jj), nn)
                                    && c == rival_seg(o, b, jj)) by {
                            if r@.contains(c) && !rp.contains(c) {
                                assert(c == cseg);
                                assert(in_bounds(rival_seg(o, b, j as int), nn) && c
                                    == rival_seg(o, b, j as int));
                            }
                        };
                    }
                }
                j = j + 1;
            }
            // the four predicted head positions, where on the board
            let hd = Cell::new(other_snakes[base], other_snakes[base + 1]);
            assert(hd == rival_head(o, b));
            let mut d: i32 = 0;
            let ghost r_seg = r@;
            while d < 4
                invariant
                    o == other_snakes@,
                    nn == board_size as int,
                    1 <= board_size <= MAX_STEP_BOARD,
                    base as int == 8 * b,
                    8 * b + 7 < o.len(),
                    o[8 * b] != -1,
                    hd == rival_head(o, b),
                    1 <= hd.x as int <= nn,
                    1 <= hd.y as int <= nn,
                    0 <= d <= 4,
                    forall|c: Cell|
                        #[trigger] r@.contains(c) <==> (r_seg.contains(c) || exists|dd: int|
                            0 <= dd < d && c == #[trigger] step_cell(rival_head(o, b), dd)
                                && in_bounds(c, nn)),
                decreases 4 - d,
            {
                let nb = hd.step(d);
                assert(nb == step_cell(rival_head(o, b), d as int));
                if is_valid(nb.x, nb.y, board_size) {
                    let ghost rp = r@;
                    r.insert(nb);
                    proof {
                        assert forall|c: Cell|
                            #[trigger] r@.contains(c) <==> (r_seg.contains(c) || exists|dd: int|
                                0 <= dd < d + 1 && c == #[trigger] step_cell(
                                    rival_head(o, b),
                                    dd,
                                ) && in_bounds(c, nn)) by {
                            if r@.contains(c) && !rp.contains(c) {
                                assert(c == step_cell(rival_head(o, b), d as int)
                                    && in_bounds(c, nn));
                            }
                        };
                    }
                }
                d = d + 1;
            }
            proof {
                assert forall|c: Cell|
                    #[trigger] r@.contains(c) <==> (r_block.contains(c) || rival_contrib(
                        o,
                        nn,
                        b as int,
                        c,
                    )) by {};
            }
        } else {
            proof {
                assert forall|c: Cell|
                    #[trigger] r@.contains(c) <==> (r_block.contains(c) || rival_contrib(
                        o,
                        nn,
                        b as int,
                        c,
                    )) by {};
            }
        }
        proof {
            assert forall|c: Cell|
                #[trigger] r@.contains(c) <==> exists|i: int|
                    0 <= i < b + 1 && #[trigger] rival_contrib(o, nn, i, c) by {
                if r@.contains(c) {
                    if r_block.contains(c) {
                        let i = choose|i: int| 0 <= i < b && #[trigger] rival_contrib(o, nn, i, c);
                        assert(rival_contrib(o, nn, i, c));
                    } else {
                        assert(rival_contrib(o, nn, b, c));
                    }
                } else {
                    if exists|i: int| 0 <= i < b + 1 && #[trigger] rival_contrib(o, nn, i, c) {
                        let i = choose|i: int|
                            0 <= i < b + 1 && #[trigger] rival_contrib(o, nn, i, c);
                        if i < b {
                            assert(r_block.contains(c));
                        }
                    }
                }
            };
        }
        base = base + 8;
        proof {
            b = b + 1;
        }
    }
    proof {
        assert forall|c: Cell| #[trigger] r@.contains(c) <==> obstacle_cell(o, nn, c) by {
            if r@.contains(c) {
                let i = choose|i: int| 0 <= i < b && #[trigger] rival_contrib(o, nn, i, c);
                assert(8 * i + 7 < o.len());
            } else {
                if obstacle_cell(o, nn, c) {
                    let i = choose|i: int|
                        0 <= i && 8 * i + 7 < o.len() && #[trigger] rival_contrib(o, nn, i, c);
                    assert(i < b);
                }
            }
        };
        assert forall|c: Cell| #[trigger] r@.contains(c) implies in_bounds(c, nn) by {
            let i = choose|i: int|
                0 <= i && 8 * i + 7 < o.len() && #[trigger] rival_contrib(o, nn, i, c);
            if exists|j: int|
                0 <= j < 3 && in_bounds(#[trigger] rival_seg(o, i, j), nn) && c == rival_seg(
                    o,
                    i,
                    j,
                ) {
                let j = choose|j: int|
                    0 <= j < 3 && in_bounds(#[trigger] rival_seg(o, i, j), nn) && c == rival_seg(
                        o,
                        i,
                        j,
                    );
                assert(in_bounds(c, nn));
            }
        };
    }
    r
}

/// Collision check for an own move: boundary first, then obstacles,
/// then the cells the own body still occupies after the move.
pub fn is_valid_move(new_head: Cell, s2: Cell, s3: Cell, obstacles: &ObstacleSet, board_size: i32) -> (r:
    bool)
    ensures
        r == (in_bounds(new_head, board_size as int) && !obstacles@.contains(new_head) && new_head
            != s2 && new_head != s3),
{
    is_valid(new_head.x, new_head.y, board_size) && !obstacles.contains(new_head) && !(new_head.x
        == s2.x && new_head.y == s2.y) && !(new_head.x == s3.x && new_head.y == s3.y)
}

/// How many of the four neighbours of `c` are on the board and free of
/// obstacles.
pub open spec fn escape_count(c: Cell, obs: Set<Cell>, n: int) -> int {
    (if in_bounds(step_cell(c, 0), n) && !obs.contains(step_cell(c, 0)) {
        1int
    } else {
        0int
    }) + (if in_bounds(step_cell(c, 1), n) && !obs.contains(step_cell(c, 1)) {
        1int
    } else {
        0int
    }) + (if in_bounds(step_cell(c, 2), n) && !obs.contains(step_cell(c, 2)) {
        1int
    } else {
        0int
    }) + (if in_bounds(step_cell(c, 3), n) && !obs.contains(step_cell(c, 3)) {
        1int
    } else {
        0int
    })
}

/// The anti-trap guard: a cell is only worth entering when at least two
/// escape neighbours remain.
pub fn has_escape_routes(x: i32, y: i32, obstacles: &ObstacleSet, board_size: i32) -> (r: bool)
    requires
        -MAX_STEP_BOARD <= x <= MAX_STEP_BOARD,
        -MAX_STEP_BOARD <= y <= MAX_STEP_BOARD,
    ensures
        r == (escape_count(Cell { x, y }, obstacles@, board_size as int) >= 2),
{
    let c = Cell::new(x, y);
    let mut count: i32 = 0;
    let mut d: i32 = 0;
    while d < 4
        invariant
            0 <= d <= 4,
            c.x == x,
            c.y == y,
            -MAX_STEP_BOARD <= x <= MAX_STEP_BOARD,
            -MAX_STEP_BOARD <= y <= MAX_STEP_BOARD,
            0 <= count <= d,
            count as int == (if d >= 1 && in_bounds(step_cell(c, 0), board_size as int)
                && !obstacles@.contains(step_cell(c, 0)) {
                1int
            } else {
                0int
            }) + (if d >= 2 && in_bounds(step_cell(c, 1), board_size as int)
                && !obstacles@.contains(step_cell(c, 1)) {
                1int
            } else {
                0int
            }) + (if d >= 3 && in_bounds(step_cell(c, 2), board_size as int)
                && !obstacles@.contains(step_cell(c, 2)) {
                1int
            } else {
                0int
            }) + (if d >= 4 && in_bounds(step_cell(c, 3), board_size as int)
                && !obstacles@.contains(step_cell(c, 3)) {
                1int
            } else {
                0int
            }),
        decreases 4 - d,
    {
        let nb = c.step(d);
        if is_valid(nb.x, nb.y, board_size) && !obstacles.contains(nb) {
            count = count + 1;
        }
        d = d + 1;
    }
    count >= 2
}

/// Flood-fill free space from a coordinate pair.
pub fn flood_fill_space(x: i32, y: i32, obstacles: &ObstacleSet, board_size: i32) -> (r: i32)
    requires
        1 <= board_size <= MAX_STEP_BOARD,
        in_bounds(Cell { x, y }, board_size as int),
    ensures
        r as int == region(Cell { x, y }, obstacles@, board_size as int).len(),
        r >= 1,
{
    region_size(Cell::new(x, y), obstacles, board_size)
}

/// Whether any breadth-first path connects `start` to `end` over the
/// free cells.
pub fn has_path(start: Cell, end: Cell, obstacles: &ObstacleSet, board_size: i32) -> (r: bool)
    requires
        1 <= board_size <= MAX_STEP_BOARD,
        in_bounds(start, board_size as int),
        in_bounds(end, board_size as int),
    ensures
        r == reachable(start, end, obstacles@, board_size as int),
{
    let r = bfs(start, end, obstacles, board_size);
    proof {
        if reachable(start, end, obstacles@, board_size as int) {
            assert(crate::reach::min_dist(start, end, obstacles@, board_size as int) is Some);
        }
    }
    r.is_some()
}

/// The search heuristic: Manhattan distance to the target plus a fixed
/// penalty of 50 when the evaluated cell is itself a danger cell.
pub fn enhanced_heuristic(x: i32, y: i32, tx: i32, ty: i32, dangers: &ObstacleSet) -> (r: i32)
    requires
        1 <= x as int <= MAX_STEP_BOARD,
        1 <= y as int <= MAX_STEP_BOARD,
        1 <= tx as int <= MAX_STEP_BOARD,
        1 <= ty as int <= MAX_STEP_BOARD,
    ensures
        r as int == manhattan_spec(x as int, y as int, tx as int, ty as int) + (
        if dangers@.contains(Cell { x, y }) {
            50int
        } else {
            0int
        }),
        0 <= r as int <= 2 * (MAX_STEP_BOARD as int) + 50,
{
    let base = manhattan(x, y, tx, ty);
    let danger_penalty: i32 = if dangers.contains(Cell::new(x, y)) {
        50
    } else {
        0
    };
    base + danger_penalty
}

/// The `k`-th food cell of a flat food coordinate list.
pub open spec fn food_cell(f: Seq<i32>, k: int) -> Cell {
    Cell { x: f[2 * k], y: f[2 * k + 1] }
}

/// The Manhattan distance from `head` to food `k`.
pub open spec fn food_manh(head: Cell, f: Seq<i32>, k: int) -> int {
    manhattan_spec(head.x as int, head.y as int, f[2 * k] as int, f[2 * k + 1] as int)
}

/// Some food cell is reachable from the head.
pub open spec fn some_food_reachable(head: Cell, f: Seq<i32>, obs: Set<Cell>, n: int) -> bool {
    exists|k: int|
        0 <= k && 2 * k + 1 < f.len() && reachable(head, #[trigger] food_cell(f, k), obs, n)
}

/// Index `k` names the goal food: reachable, at minimal Manhattan
/// distance from the head, earliest index on ties.
pub open spec fn goal_index_ok(head: Cell, f: Seq<i32>, obs: Set<Cell>, n: int, k: int) -> bool {
    &&& 0 <= k
    &&& 2 * k + 1 < f.len()
    &&& reachable(head, food_cell(f, k), obs, n)
    &&& forall|j: int|
        0 <= j && 2 * j + 1 < f.len() && reachable(head, #[trigger] food_cell(f, j), obs, n) ==> ((
        food_manh(head, f, k)) < food_manh(head, f, j) || (food_manh(head, f, k) == food_manh(
            head,
            f,
            j,
        ) && k <= j))
}

/// The goal index is unique.
pub proof fn lemma_goal_index_unique(
    head: Cell,
    f: Seq<i32>,
    obs: Set<Cell>,
    n: int,
    k1: int,
    k2: int,
)
    requires
        goal_index_ok(head, f, obs, n, k1),
        goal_index_ok(head, f, obs, n, k2),
    ensures
        k1 == k2,
{
    assert(reachable(head, food_cell(f, k1), obs, n));
    assert(reachable(head, food_cell(f, k2), obs, n));
}

/// The goal the search runs toward: the reachable food nearest by
/// Manhattan distance (earliest index on ties), or the first food when
/// none is reachable (it then only anchors the heuristic).
pub open spec fn selected_goal(head: Cell, f: Seq<i32>, obs: Set<Cell>, n: int) -> Cell {
    if exists|k: int| goal_index_ok(head, f, obs, n, k) {
        food_cell(f, choose|k: int| goal_index_ok(head, f, obs, n, k))
    } else {
        food_cell(f, 0)
    }
}

/// The cells the guarded search may not enter: obstacles, the two
/// occupied own-body cells, and every cell failing the anti-trap
/// guard.  A cell is guard-free exactly when a search expansion may
/// step on it.
pub open spec fn guard_blocked(s2: Cell, s3: Cell, obs: Set<Cell>, n: int) -> Set<Cell> {
    Set::new(
        |c: Cell|
            obs.contains(c) || c == s2 || c == s3 || escape_count(c, obs, n) < 2,
    )
}

/// Some queued node sits on the cell `c`.
pub open spec fn open_has(open: Seq<Node>, c: Cell) -> bool {
    exists|q: int| 0 <= q < open.len() && (#[trigger] open[q]).x == c.x && open[q].y == c.y
}

/// Queue growth by suffix extension keeps every held cell.
proof fn lemma_open_grow(pre: Seq<Node>, post: Seq<Node>)
    requires
        pre.len() <= post.len(),
        forall|q: int| 0 <= q < pre.len() ==> post[q] == pre[q],
    ensures
        forall|c: Cell| #[trigger] open_has(pre, c) ==> open_has(post, c),
{
    assert forall|c: Cell| #[trigger] open_has(pre, c) implies open_has(post, c) by {
        let q = choose|q: int| 0 <= q < pre.len() && (#[trigger] pre[q]).x == c.x && pre[q].y == c.y;
        assert((post[q]).x == c.x && post[q].y == c.y);
    };
}

/// Pick the goal food: the reachable food nearest by Manhattan
/// distance (earliest index on ties), or the first food when none is
/// reachable (it then only anchors the search heuristic).
pub fn select_target(head: Cell, foods: &[i32], obstacles: &ObstacleSet, board_size: i32) -> (r:
    Cell)
    requires
        1 <= board_size <= MAX_STEP_BOARD,
        in_bounds(head, board_size as int),
        foods@.len() >= 2,
        foods@.len() % 2 == 0,
        crate::barriers::flat_on_board(foods@, board_size as int),
    ensures
        in_bounds(r, board_size as int),
        some_food_reachable(head, foods@, obstacles@, board_size as int) ==> exists|k: int|
            0 <= k && 2 * k + 1 < foods@.len() && r == #[trigger] food_cell(foods@, k) && reachable(
                head,
                food_cell(foods@, k),
                obstacles@,
                board_size as int,
            ) && forall|j: int|
                0 <= j && 2 * j + 1 < foods@.len() && reachable(
                    head,
                    #[trigger] food_cell(foods@, j),
                    obstacles@,
                    board_size as int,
                ) ==> ((food_manh(head, foods@, k)) < food_manh(head, foods@, j) || (food_manh(
                    head,
                    foods@,
                    k,
                ) == food_manh(head, foods@, j) && k <= j)),
        !some_food_reachable(head, foods@, obstacles@, board_size as int) ==> r == food_cell(
            foods@,
            0,
        ),
        r == selected_goal(head, foods@, obstacles@, board_size as int),
{
    let ghost fs = foods@;
    let ghost nn = board_size as int;
    let mut found = false;
    let mut best = Cell::new(foods[0], foods[1]);
    let ghost mut bk: int = 0;
    let mut best_m: i32 = 0;
    let mut off: usize = 0;
    let ghost mut k: int = 0;
    proof {
        assert(1 <= fs[0] as int <= nn && 1 <= fs[1] as int <= nn);
    }
    while off < foods.len()
        invariant
            fs == foods@,
            nn == board_size as int,
            1 <= board_size <= MAX_STEP_BOARD,
            in_bounds(head, nn),
            fs.len() >= 2,
            fs.len() % 2 == 0,
            crate::barriers::flat_on_board(fs, nn),
            0 <= off as int <= fs.len(),
            off % 2 == 0,
            k == off as int / 2,
            !found ==> forall|kk: int|
                0 <= kk < k ==> !reachable(head, #[trigger] food_cell(fs, kk), obstacles@, nn),
            found ==> {
                &&& 0 <= bk < k
                &&& 2 * bk + 1 < fs.len()
                &&& best == food_cell(fs, bk)
                &&& reachable(head, food_cell(fs, bk), obstacles@, nn)
                &&& best_m as int == food_manh(head, fs, bk)
                &&& forall|kk: int|
                    0 <= kk < k && reachable(head, #[trigger] food_cell(fs, kk), obstacles@, nn)
                        ==> ((best_m as int) < food_manh(head, fs, kk) || (best_m as int == food_manh(
                        head,
                        fs,
                        kk,
                    ) && bk <= kk))
            },
            !found ==> best == food_cell(fs, 0),
        decreases fs.len() - off as int,
    {
        assert(off as int + 2 <= fs.len());
        assert(2 * k == off as int);
        let fc = Cell::new(foods[off], foods[off + 1]);
        assert(fc == food_cell(fs, k));
        assert(1 <= fs[2 * k] as int <= nn && 1 <= fs[2 * k + 1] as int <= nn);
        if has_path(head, fc, obstacles, board_size) {
            let m = manhattan(head.x, head.y, fc.x, fc.y);
            assert(m as int == food_manh(head, fs, k));
            if !found || m < best_m {
                found = true;
                best = fc;
                best_m = m;
                proof {
                    bk = k;
                }
            }
        }
        off = off + 2;
        proof {
            k = k + 1;
        }
    }
    proof {
        if found {
            assert forall|j: int|
                0 <= j && 2 * j + 1 < fs.len() && reachable(
                    head,
                    #[trigger] food_cell(fs, j),
                    obstacles@,
                    nn,
                ) implies ((best_m as int) < food_manh(head, fs, j) || (best_m as int == food_manh(
                head,
                fs,
                j,
            ) && bk <= j)) by {
                assert(j < k);
            };
            assert(goal_index_ok(head, fs, obstacles@, nn, bk));
            let kc = choose|kx: int| goal_index_ok(head, fs, obstacles@, nn, kx);
            lemma_goal_index_unique(head, fs, obstacles@, nn, bk, kc);
        } else {
            if exists|kx: int| goal_index_ok(head, fs, obstacles@, nn, kx) {
                let kx = choose|kx: int| goal_index_ok(head, fs, obstacles@, nn, kx);
                assert(kx < k);
                assert(!reachable(head, food_cell(fs, kx), obstacles@, nn));
            }
        }
        assert(best == selected_goal(head, fs, obstacles@, nn));
    }
    best
}

/// A search node: a position, its accumulated cost, its heuristic and
/// the first move of the path that discovered it.
#[derive(Clone, Copy)]
pub struct Node {
    pub x: i32,
    pub y: i32,
    pub cost: i32,
    pub heuristic: i32,
    pub parent_dir: i32,
}

/// A node the search may hold: it is the start node (no first move
/// yet) or records a legal, escape-guarded first move, and its
/// position is on the board.
pub open spec fn node_ok(
    nd: Node,
    start: Cell,
    s2: Cell,
    s3: Cell,
    obs: Set<Cell>,
    n: int,
) -> bool {
    &&& (nd.parent_dir == -1 ==> nd.x == start.x && nd.y == start.y)
    &&& (nd.parent_dir != -1 ==> 0 <= nd.parent_dir < 4 && step_legal(
        start,
        s2,
        s3,
        obs,
        n,
        nd.parent_dir as int,
    ) && escape_count(step_cell(start, nd.parent_dir as int), obs, n) >= 2 && in_bounds(
        Cell { x: nd.x, y: nd.y },
        n,
    ))
    &&& 0 <= nd.heuristic
    &&& reachable(start, Cell { x: nd.x, y: nd.y }, obs, n)
    &&& (nd.parent_dir != -1 ==> reachable(
        step_cell(start, nd.parent_dir as int),
        Cell { x: nd.x, y: nd.y },
        guard_blocked(s2, s3, obs, n),
        n,
    ))
}

/// Cost-guided search for the first move of a cheap path to the
/// selected food: a min-queue ordered by cost plus heuristic, with the
/// anti-trap guard on every expansion.  Each cell is expanded at most
/// once, so the expansion budget can never run out before the queue
/// drains; the search is therefore complete over the guarded grid: it
/// returns a direction exactly when some guarded path (every step on
/// the board, off the obstacles and the occupied body cells, and with
/// at least two escape neighbours) leads from the start to the
/// selected goal, and the returned direction's move begins such a
/// path.  Which of several such first moves wins depends on the queue
/// order (lowest cost plus heuristic, earliest queued on ties).
pub fn advanced_pathfinding(
    start: Cell,
    s2: Cell,
    s3: Cell,
    foods: &[i32],
    obstacles: &ObstacleSet,
    board_size: i32,
) -> (r: Option<i32>)
    requires
        1 <= board_size <= MAX_STEP_BOARD,
        in_bounds(start, board_size as int),
        foods@.len() >= 2,
        foods@.len() % 2 == 0,
        crate::barriers::flat_on_board(foods@, board_size as int),
    ensures
        r matches Some(d) ==> 0 <= d < 4 && step_legal(
            start,
            s2,
            s3,
            obstacles@,
            board_size as int,
            d as int,
        ) && escape_count(step_cell(start, d as int), obstacles@, board_size as int) >= 2,
        r matches Some(d) ==> reachable(
            step_cell(start, d as int),
            selected_goal(start, foods@, obstacles@, board_size as int),
            guard_blocked(s2, s3, obstacles@, board_size as int),
            board_size as int,
        ),
        r is Some ==> start != selected_goal(start, foods@, obstacles@, board_size as int)
            && reachable(
            start,
            selected_goal(start, foods@, obstacles@, board_size as int),
            guard_blocked(s2, s3, obstacles@, board_size as int),
            board_size as int,
        ),
        start != selected_goal(start, foods@, obstacles@, board_size as int) && reachable(
            start,
            selected_goal(start, foods@, obstacles@, board_size as int),
            guard_blocked(s2, s3, obstacles@, board_size as int),
            board_size as int,
        ) ==> r is Some,
        start == selected_goal(start, foods@, obstacles@, board_size as int) ==> r is None,
        !some_food_reachable(start, foods@, obstacles@, board_size as int) ==> r is None,
{
    let ghost nn = board_size as int;
    let ghost obs = obstacles@;
    let ghost gb = guard_blocked(s2, s3, obs, nn);
    let target = select_target(start, foods, obstacles, board_size);
    if start.x == target.x && start.y == target.y {
        proof {
            assert(start == selected_goal(start, foods@, obs, nn));
        }
        return None;
    }
    proof {
        assert((board_size as int) * (board_size as int) <= 529000000) by (nonlinear_arith)
            requires
                1 <= board_size as int <= 23000,
        ;
    }
    let bb: i32 = board_size * board_size;
    let budget: i32 = 4 * bb + 8;
    let ghost budget0 = budget as int;
    proof {
        assert(bb as int == nn * nn);
        assert(budget0 == 4 * (nn * nn) + 8);
    }
    let mut fuel: i32 = budget;
    let mut open: Vec<Node> = Vec::new();
    let mut closed: Vec<Cell> = Vec::new();
    let h0 = enhanced_heuristic(start.x, start.y, target.x, target.y, obstacles);
    proof {
        assert(dist_le(start, start, obs, nn, 0));
        assert(reachable(start, start, obs, nn));
    }
    open.push(Node { x: start.x, y: start.y, cost: 0, heuristic: h0, parent_dir: -1 });
    proof {
        assert((open@[0]).x == start.x && open@[0].y == start.y);
        assert(open_has(open@, start));
    }
    while fuel > 0 && open.len() > 0
        invariant
            nn == board_size as int,
            obs == obstacles@,
            gb == guard_blocked(s2, s3, obs, nn),
            1 <= board_size <= MAX_STEP_BOARD,
            in_bounds(start, nn),
            in_bounds(target, nn),
            start != target,
            target == selected_goal(start, foods@, obs, nn),
            foods@.len() >= 2,
            budget0 == 4 * (nn * nn) + 8,
            budget0 <= 2116000008,
            0 <= fuel <= budget0,
            forall|q: int|
                0 <= q < open@.len() ==> node_ok(#[trigger] open@[q], start, s2, s3, obs, nn),
            forall|q: int| 0 <= q < open@.len() ==> 0 <= #[trigger] open@[q].cost <= budget0 - fuel,
            forall|q: int|
                0 <= q < open@.len() ==> #[trigger] open@[q].heuristic <= 2 * (
                MAX_STEP_BOARD as int) + 50,
            closed@.no_duplicates(),
            forall|c: Cell| #[trigger] closed@.contains(c) ==> in_bounds(c, nn),
            !closed@.contains(target),
            closed@.len() <= nn * nn,
            open@.len() + (budget0 - fuel) <= 1 + 4 * closed@.len(),
            closed@.contains(start) || open_has(open@, start),
            forall|a: Cell, b: Cell|
                closed@.contains(a) && #[trigger] adjacent(a, b) && free(b, gb, nn)
                    ==> closed@.contains(b) || open_has(open@, b),
        decreases fuel,
    {
        fuel = fuel - 1;
        // pop the node with the smallest cost-plus-heuristic key
        let mut mi: usize = 0;
        let mut i: usize = 1;
        while i < open.len()
            invariant
                open@.len() > 0,
                0 <= mi < open@.len(),
                1 <= i <= open@.len(),
                forall|q: int|
                    0 <= q < open@.len() ==> node_ok(#[trigger] open@[q], start, s2, s3, obs, nn),
                forall|q: int|
                    0 <= q < open@.len() ==> 0 <= #[trigger] open@[q].cost <= budget0 - fuel - 1,
                budget0 <= 2116000008,
                0 <= fuel <= budget0,
                forall|q: int|
                    0 <= q < open@.len() ==> #[trigger] open@[q].heuristic <= 2 * (
                    MAX_STEP_BOARD as int) + 50,
            decreases open@.len() - i,
        {
            if open[i].cost + open[i].heuristic < open[mi].cost + open[mi].heuristic {
                mi = i;
            }
            i = i + 1;
        }
        let ghost open_pre = open@;
        let cur = open.swap_remove(mi);
        let cur_cell = Cell::new(cur.x, cur.y);
        proof {
            assert(node_ok(cur, start, s2, s3, obs, nn));
            assert forall|q: int|
                0 <= q < open@.len() implies open@[q] == open_pre[q] || open@[q] == open_pre[
                open_pre.len() - 1] by {}
            assert forall|c: Cell| #[trigger] open_has(open_pre, c) implies (open_has(open@, c) || c
                == cur_cell) by {
                let q = choose|q: int|
                    0 <= q < open_pre.len() && (#[trigger] open_pre[q]).x == c.x && open_pre[q].y
                        == c.y;
                if q == mi as int {
                    assert(c == cur_cell);
                } else if q == open_pre.len() - 1 {
                    assert(open@[mi as int] == open_pre[q]);
                    assert(open_has(open@, c));
                } else {
                    assert(open@[q] == open_pre[q]);
                    assert(open_has(open@, c));
                }
            };
        }
        if !vec_contains(&closed, cur_cell) {
            let ghost closed_pre = closed@;
            proof {
                crate::search::lemma_push_contains(closed_pre, cur_cell);
                crate::search::lemma_push_no_dup(closed_pre, cur_cell);
            }
            closed.push(cur_cell);
            proof {
                closed@.unique_seq_to_set();
                lemma_grid_card(nn);
                vstd::set_lib::lemma_len_subset(closed@.to_set(), grid_set(nn));
            }
            if cur.x == target.x && cur.y == target.y {
                proof {
                    assert(cur_cell == target);
                    assert(reachable(start, target, obs, nn));
                    if !some_food_reachable(start, foods@, obs, nn) {
                        if exists|kx: int| goal_index_ok(start, foods@, obs, nn, kx) {
                            let kx = choose|kx: int| goal_index_ok(start, foods@, obs, nn, kx);
                            assert(reachable(start, food_cell(foods@, kx), obs, nn));
                        }
                        assert(target == food_cell(foods@, 0));
                        assert(some_food_reachable(start, foods@, obs, nn));
                    }
                }
                if cur.parent_dir >= 0 {
                    proof {
                        let fm = step_cell(start, cur.parent_dir as int);
                        assert(reachable(fm, target, gb, nn));
                        assert(free(fm, gb, nn));
                        assert(adjacent(start, fm));
                        let kg = choose|k: nat| dist_le(fm, target, gb, nn, k);
                        crate::reach::lemma_dist_le_prepend(start, fm, target, gb, nn, kg);
                        assert(reachable(start, target, gb, nn));
                    }
                    return Some(cur.parent_dir);
                }
                proof {
                    assert(cur.x == start.x && cur.y == start.y);
                    assert(false);
                }
                return None;
            }
            proof {
                if cur.parent_dir == -1 {
                    assert(cur_cell == start);
                    assert(in_bounds(Cell { x: cur.x, y: cur.y }, nn));
                }
            }
            let ghost od0 = open@.len() as int;
            let mut d: i32 = 0;
            while d < 4
                invariant
                    nn == board_size as int,
                    obs == obstacles@,
                    gb == guard_blocked(s2, s3, obs, nn),
                    1 <= board_size <= MAX_STEP_BOARD,
                    in_bounds(start, nn),
                    in_bounds(target, nn),
                    start != target,
                    0 <= d <= 4,
                    node_ok(cur, start, s2, s3, obs, nn),
                    cur_cell == (Cell { x: cur.x, y: cur.y }),
                    in_bounds(Cell { x: cur.x, y: cur.y }, nn),
                    0 <= cur.cost <= budget0 - fuel - 1,
                    0 <= fuel <= budget0,
                    budget0 <= 2116000008,
                    forall|q: int|
                        0 <= q < open@.len() ==> node_ok(
                            #[trigger] open@[q],
                            start,
                            s2,
                            s3,
                            obs,
                            nn,
                        ),
                    forall|q: int|
                        0 <= q < open@.len() ==> 0 <= #[trigger] open@[q].cost <= budget0 - fuel,
                    forall|q: int|
                        0 <= q < open@.len() ==> #[trigger] open@[q].heuristic <= 2 * (
                        MAX_STEP_BOARD as int) + 50,
                    open@.len() <= od0 + d,
                    closed@.no_duplicates(),
                    forall|c: Cell| #[trigger] closed@.contains(c) ==> in_bounds(c, nn),
                    !closed@.contains(target),
                    closed@.len() <= nn * nn,
                    closed@.contains(cur_cell),
                    closed@.contains(start) || open_has(open@, start),
                    forall|a: Cell, b: Cell|
                        closed@.contains(a) && a != cur_cell && #[trigger] adjacent(a, b) && free(
                            b,
                            gb,
                            nn,
                        ) ==> closed@.contains(b) || open_has(open@, b),
                    forall|b: Cell|
                        (exists|dd: int| 0 <= dd < d && #[trigger] is_step(cur_cell, b, dd))
                            && free(b, gb, nn) ==> closed@.contains(b) || open_has(open@, b),
                decreases 4 - d,
            {
                let nb = cur_cell.step(d);
                assert(is_step(cur_cell, nb, d as int));
                if is_valid_move(nb, s2, s3, obstacles, board_size) && has_escape_routes(
                    nb.x,
                    nb.y,
                    obstacles,
                    board_size,
                ) {
                    let parent_dir: i32 = if cur.parent_dir == -1 {
                        d
                    } else {
                        cur.parent_dir
                    };
                    proof {
                        assert(free(nb, gb, nn));
                        if cur.parent_dir == -1 {
                            assert(cur_cell == start);
                            assert(nb == step_cell(start, d as int));
                            assert(step_legal(start, s2, s3, obs, nn, d as int));
                            assert(dist_le(nb, nb, gb, nn, 0));
                            assert(reachable(nb, nb, gb, nn));
                        } else {
                            let fm = step_cell(start, cur.parent_dir as int);
                            assert(reachable(fm, cur_cell, gb, nn));
                            let kg = choose|k: nat| dist_le(fm, cur_cell, gb, nn, k);
                            crate::reach::lemma_dist_le_step(fm, cur_cell, nb, gb, nn, kg);
                            assert(reachable(fm, nb, gb, nn));
                        }
                        let k = choose|k: nat| dist_le(start, cur_cell, obs, nn, k);
                        crate::reach::lemma_dist_le_step(start, cur_cell, nb, obs, nn, k);
                        assert(reachable(start, nb, obs, nn));
                    }
                    let h = enhanced_heuristic(nb.x, nb.y, target.x, target.y, obstacles);
                    let ghost open_grow_pre = open@;
                    open.push(
                        Node { x: nb.x, y: nb.y, cost: cur.cost + 1, heuristic: h, parent_dir },
                    );
                    proof {
                        lemma_open_grow(open_grow_pre, open@);
                        assert((open@[open@.len() - 1]).x == nb.x && open@[open@.len() - 1].y
                            == nb.y);
                        assert(open_has(open@, nb));
                    }
                }
                d = d + 1;
            }
            proof {
                // every guard-free neighbour of the newly closed cell is queued
                assert forall|a: Cell, b: Cell|
                    closed@.contains(a) && #[trigger] adjacent(a, b) && free(b, gb, nn) implies (
                closed@.contains(b) || open_has(open@, b)) by {
                    if a == cur_cell {
                        lemma_adjacent_steps(cur_cell, b);
                    }
                };
            }
        } else {
            proof {
                assert(closed@.contains(cur_cell));
                assert forall|a: Cell, b: Cell|
                    closed@.contains(a) && #[trigger] adjacent(a, b) && free(b, gb, nn) implies (
                closed@.contains(b) || open_has(open@, b)) by {
                    if !closed@.contains(b) {
                        assert(open_has(open_pre, b));
                        if b == cur_cell {
                            assert(closed@.contains(b));
                        }
                    }
                };
                if !closed@.contains(start) {
                    assert(open_has(open_pre, start));
                    if start == cur_cell {
                        assert(closed@.contains(start));
                    }
                }
            }
        }
    }
    proof {
        if fuel == 0 {
            assert(open@.len() + budget0 <= 1 + 4 * (nn * nn));
            assert(false);
        }
        assert(open@.len() == 0);
        assert(closed@.contains(start));
        let cset = closed@.to_set();
        if reachable(start, target, gb, nn) {
            assert forall|a: Cell, b: Cell|
                cset.contains(a) && #[trigger] adjacent(a, b) && free(b, gb, nn) implies
                cset.contains(b) by {
                assert(closed@.contains(a));
            };
            let k = choose|k: nat| dist_le(start, target, gb, nn, k);
            crate::reach::lemma_closed_set(start, gb, nn, cset, target, k);
            assert(closed@.contains(target));
            assert(false);
        }
    }
    None
}

/// The flood-fill space a defensive move in direction `d` keeps open.
pub open spec fn defensive_space(head: Cell, obs: Set<Cell>, n: int, d: int) -> int {
    region(step_cell(head, d), obs, n).len() as int
}

/// Full characterisation of the defensive ranking: the legal move
/// whose new head floods the largest free region, lowest code on
/// ties, and `-1` exactly when no move is legal.
pub open spec fn defensive_post(head: Cell, s2: Cell, s3: Cell, obs: Set<Cell>, n: int, r: int) -> bool {
    &&& (r == -1 <==> forall|d: int| 0 <= d < 4 ==> !step_legal(head, s2, s3, obs, n, d))
    &&& r != -1 ==> {
        &&& 0 <= r < 4
        &&& step_legal(head, s2, s3, obs, n, r)
        &&& forall|d: int|
            0 <= d < 4 && #[trigger] step_legal(head, s2, s3, obs, n, d) ==> (defensive_space(
                head,
                obs,
                n,
                r,
            ) > defensive_space(head, obs, n, d) || (defensive_space(head, obs, n, r)
                == defensive_space(head, obs, n, d) && r <= d))
    }
}

/// The defensive ranking is a pure function of the state: two results
/// that both satisfy its characterisation are equal.
pub proof fn lemma_defensive_deterministic(
    head: Cell,
    s2: Cell,
    s3: Cell,
    obs: Set<Cell>,
    n: int,
    r1: int,
    r2: int,
)
    requires
        defensive_post(head, s2, s3, obs, n, r1),
        defensive_post(head, s2, s3, obs, n, r2),
    ensures
        r1 == r2,
{
    if r1 != -1 && r2 != -1 {
        assert(step_legal(head, s2, s3, obs, n, r1));
        assert(step_legal(head, s2, s3, obs, n, r2));
    }
}

/// Defensive ranking: among the legal moves, take the one whose new
/// head floods the largest free region (lowest code on ties); `-1`
/// when no move is legal.
pub fn defensive_move(head: Cell, s2: Cell, s3: Cell, obstacles: &ObstacleSet, board_size: i32) -> (r:
    i32)
    requires
        1 <= board_size <= MAX_STEP_BOARD,
        in_bounds(head, board_size as int),
    ensures
        defensive_post(head, s2, s3, obstacles@, board_size as int, r as int),
{
    let ghost obs = obstacles@;
    let ghost nn = board_size as int;
    let mut best_dir: i32 = -1;
    let mut max_space: i32 = 0;
    let mut d: i32 = 0;
    while d < 4
        invariant
            obs == obstacles@,
            nn == board_size as int,
            1 <= board_size <= MAX_STEP_BOARD,
            in_bounds(head, nn),
            0 <= d <= 4,
            best_dir == -1 ==> forall|dd: int| 0 <= dd < d ==> !step_legal(head, s2, s3, obs, nn, dd),
            best_dir != -1 ==> {
                &&& 0 <= best_dir < d
                &&& 1 <= max_space
                &&& step_legal(head, s2, s3, obs, nn, best_dir as int)
                &&& max_space as int == defensive_space(head, obs, nn, best_dir as int)
                &&& forall|dd: int|
                    0 <= dd < d && #[trigger] step_legal(head, s2, s3, obs, nn, dd) ==> (
                    max_space as int > defensive_space(head, obs, nn, dd) || (max_space as int
                        == defensive_space(head, obs, nn, dd) && best_dir <= dd))
            },
        decreases 4 - d,
    {
        let nb = head.step(d);
        if is_valid_move(nb, s2, s3, obstacles, board_size) {
            let space = flood_fill_space(nb.x, nb.y, obstacles, board_size);
            proof {
                assert(space as int == defensive_space(head, obs, nn, d as int));
            }
            if best_dir == -1 || space > max_space {
                best_dir = d;
                max_space = space;
            }
        }
        d = d + 1;
    }
    best_dir
}

/// Full characterisation of the multi-rival engine's answer: an
/// inactive snake gets the neutral code 0; otherwise the answer is a
/// legal move whenever one exists, `-1` exactly when none does, and
/// the strategy is pinned: when a guarded path to the selected goal
/// exists the answer begins one, and otherwise the answer is the
/// defensive flood-fill ranking.
pub open spec fn step_post(snake: Seq<i32>, o: Seq<i32>, foods: Seq<i32>, n: int, r: int) -> bool {
    let head = Cell { x: snake[0], y: snake[1] };
    let s2 = Cell { x: snake[2], y: snake[3] };
    let s3 = Cell { x: snake[4], y: snake[5] };
    let obs = Set::new(|c: Cell| obstacle_cell(o, n, c));
    let goal = selected_goal(head, foods, obs, n);
    let gb = guard_blocked(s2, s3, obs, n);
    &&& snake[0] == -1 ==> r == 0
    &&& snake[0] != -1 ==> {
        &&& (r == -1 <==> forall|d: int| 0 <= d < 4 ==> !step_legal(head, s2, s3, obs, n, d))
        &&& r != -1 ==> 0 <= r < 4 && step_legal(head, s2, s3, obs, n, r)
        &&& (head == goal || !reachable(head, goal, gb, n)) ==> defensive_post(
            head,
            s2,
            s3,
            obs,
            n,
            r,
        )
        &&& (head != goal && reachable(head, goal, gb, n)) ==> (0 <= r < 4 && escape_count(
            step_cell(head, r),
            obs,
            n,
        ) >= 2 && reachable(step_cell(head, r), goal, gb, n))
        &&& !some_food_reachable(head, foods, obs, n) ==> defensive_post(head, s2, s3, obs, n, r)
    }
}

/// Where the contract pins the answer it is a pure function of the
/// input: for an eliminated snake, and whenever no guarded path leads
/// to the selected goal (the defensive ranking then decides alone).
/// When such a path exists the direction is pinned only up to the
/// queue order of the cost-guided search, which the design leaves to
/// the implementation.
pub proof fn lemma_step_deterministic_when_food_sealed(
    snake: Seq<i32>,
    o: Seq<i32>,
    foods: Seq<i32>,
    n: int,
    r1: int,
    r2: int,
)
    requires
        step_post(snake, o, foods, n, r1),
        step_post(snake, o, foods, n, r2),
        snake[0] == -1 || {
            let head = Cell { x: snake[0], y: snake[1] };
            let s2 = Cell { x: snake[2], y: snake[3] };
            let s3 = Cell { x: snake[4], y: snake[5] };
            let obs = Set::new(|c: Cell| obstacle_cell(o, n, c));
            let goal = selected_goal(head, foods, obs, n);
            head == goal || !reachable(head, goal, guard_blocked(s2, s3, obs, n), n)
        },
    ensures
        r1 == r2,
{
    if snake[0] != -1 {
        let head = Cell { x: snake[0], y: snake[1] };
        let s2 = Cell { x: snake[2], y: snake[3] };
        let s3 = Cell { x: snake[4], y: snake[5] };
        let obs = Set::new(|c: Cell| obstacle_cell(o, n, c));
        lemma_defensive_deterministic(head, s2, s3, obs, n, r1, r2);
    }
}

/// One tick of the multi-rival engine.
///
/// `snake` is the own snake (four cells, head first; first coordinate
/// `-1` when eliminated), `other_snakes` holds one eight-value block
/// per rival, and `foods` the food cells.  The answer is the
/// cost-guided search direction when one is found, the defensive
/// flood-fill direction otherwise, `0` for an eliminated snake, and
/// `-1` exactly when no legal move exists.  `snake_num` and `round`
/// are part of the tick interface but the decision does not depend on
/// them.
pub fn greedy_snake_step(
    board_size: i32,
    snake: &[i32],
    snake_num: i32,
    other_snakes: &[i32],
    food_num: i32,
    foods: &[i32],
    round: i32,
) -> (r: i32)
    requires
        1 <= board_size <= MAX_STEP_BOARD,
        snake@.len() >= 6,
        other_snakes@.len() % 8 == 0,
        rivals_well_formed(other_snakes@, board_size as int),
        food_num >= 1,
        foods@.len() == 2 * food_num,
        crate::barriers::flat_on_board(foods@, board_size as int),
        snake@[0] == -1 || crate::barriers::flat_on_board(
            snake@.subrange(0, 6),
            board_size as int,
        ),
    ensures
        step_post(snake@, other_snakes@, foods@, board_size as int, r as int),
{
    let ghost nn = board_size as int;
    if snake[0] == -1 {
        return 0;
    }
    let head = Cell::new(snake[0], snake[1]);
    let s2 = Cell::new(snake[2], snake[3]);
    let s3 = Cell::new(snake[4], snake[5]);
    let obstacles = get_obstacles(other_snakes, board_size);
    proof {
        assert(obstacles@ =~= Set::new(|c: Cell| obstacle_cell(other_snakes@, nn, c)));
        assert(snake@.subrange(0, 6)[0] == snake@[0] && snake@.subrange(0, 6)[1] == snake@[1]);
        assert(1 <= snake@[0] as int <= nn && 1 <= snake@[1] as int <= nn);
    }
    let ghost obs = obstacles@;
    let ghost goal = selected_goal(head, foods@, obs, nn);
    let ghost gb = guard_blocked(s2, s3, obs, nn);
    match advanced_pathfinding(head, s2, s3, foods, &obstacles, board_size) {
        Some(dir) => {
            proof {
                assert(step_legal(head, s2, s3, obs, nn, dir as int));
                assert(head != goal && reachable(head, goal, gb, nn));
                assert(reachable(step_cell(head, dir as int), goal, gb, nn));
            }
            dir
        },
        None => {
            proof {
                // the search is complete: a guarded path would have produced a direction
                assert(!(head != goal && reachable(head, goal, gb, nn)));
            }
            defensive_move(head, s2, s3, &obstacles, board_size)
        },
    }
}

} // verus!
