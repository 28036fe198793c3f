//! Board geometry: cells, bounds, directions and distances.
//!
//! Coordinates are 1-indexed; a cell (x, y) lies on a board of size `n`
//! when both coordinates are in `[1, n]`.  The four cardinal directions
//! carry the fixed codes 0 = up (+y), 1 = left (-x), 2 = down (-y),
//! 3 = right (+x); the code order doubles as the deterministic tie-break
//! key throughout the engine.

use vstd::prelude::*;

verus! {

/// A board cell, identified by its 1-indexed coordinates.
#[derive(Clone, Copy, PartialEq, Eq, Structural, Debug, Hash)]
pub struct Cell {
    pub x: i32,
    pub y: i32,
}

/// Largest board size the engine accepts: keeps `n * n` (the cell count)
/// representable in an `i32`.
pub const MAX_BOARD: i32 = 46340;

/// Whether `c` lies on a board of size `n`.
pub open spec fn in_bounds(c: Cell, n: int) -> bool {
    1 <= c.x as int && c.x as int <= n && 1 <= c.y as int && c.y as int <= n
}

/// The neighbour of `c` in direction `d` (0 = up, 1 = left, 2 = down,
/// 3 = right), as a mathematical cell (no overflow concerns).
pub open spec fn step_spec(c: Cell, d: int) -> (int, int) {
    if d == 0 {
        (c.x as int, c.y as int + 1)
    } else if d == 1 {
        (c.x as int - 1, c.y as int)
    } else if d == 2 {
        (c.x as int, c.y as int - 1)
    } else {
        (c.x as int + 1, c.y as int)
    }
}

/// The neighbour of `c` in direction `d`, as a cell (the coordinates
/// are assumed representable; every use keeps them within the board
/// plus one ring around it).
pub open spec fn step_cell(c: Cell, d: int) -> Cell {
    if d == 0 {
        Cell { x: c.x, y: (c.y as int + 1) as i32 }
    } else if d == 1 {
        Cell { x: (c.x as int - 1) as i32, y: c.y }
    } else if d == 2 {
        Cell { x: c.x, y: (c.y as int - 1) as i32 }
    } else {
        Cell { x: (c.x as int + 1) as i32, y: c.y }
    }
}

/// `c` is the neighbour of `f` in direction `d`.
pub open spec fn is_step(f: Cell, c: Cell, d: int) -> bool {
    (c.x as int, c.y as int) == step_spec(f, d)
}

/// Two cells are adjacent when they differ by one step in exactly one axis.
pub open spec fn adjacent(a: Cell, b: Cell) -> bool {
    (a.x == b.x && (a.y as int + 1 == b.y as int || a.y as int - 1 == b.y as int)) || (a.y == b.y
        && (a.x as int + 1 == b.x as int || a.x as int - 1 == b.x as int))
}

impl Cell {
    /// Exec constructor, so callers can build cells without struct syntax.
    pub fn new(x: i32, y: i32) -> (c: Cell)
        ensures
            c.x == x,
            c.y == y,
    {
        Cell { x, y }
    }

    /// The neighbour of `self` in direction `d`.
    pub fn step(self, d: i32) -> (r: Cell)
        requires
            0 <= d < 4,
            -MAX_BOARD <= self.x as int <= MAX_BOARD,
            -MAX_BOARD <= self.y as int <= MAX_BOARD,
        ensures
            (r.x as int, r.y as int) == step_spec(self, d as int),
            r == step_cell(self, d as int),
            adjacent(self, r),
    {
        if d == 0 {
            Cell { x: self.x, y: self.y + 1 }
        } else if d == 1 {
            Cell { x: self.x - 1, y: self.y }
        } else if d == 2 {
            Cell { x: self.x, y: self.y - 1 }
        } else {
            Cell { x: self.x + 1, y: self.y }
        }
    }
}

/// The neighbours of a cell are exactly its four direction steps.
pub proof fn lemma_adjacent_steps(f: Cell, c: Cell)
    ensures
        adjacent(f, c) <==> exists|d: int| 0 <= d < 4 && #[trigger] is_step(f, c, d),
{
    if adjacent(f, c) {
        if f.x == c.x && c.y as int == f.y as int + 1 {
            assert(is_step(f, c, 0));
        } else if f.x == c.x && c.y as int == f.y as int - 1 {
            assert(is_step(f, c, 2));
        } else if f.y == c.y && c.x as int == f.x as int - 1 {
            assert(is_step(f, c, 1));
        } else {
            assert(is_step(f, c, 3));
        }
    }
}

/// Whether the coordinate pair (x, y) lies on a board of size `n`.
pub fn is_valid(x: i32, y: i32, board_size: i32) -> (r: bool)
    ensures
        r == in_bounds(Cell { x, y }, board_size as int),
{
    x >= 1 && x <= board_size && y >= 1 && y <= board_size
}

/// All cells of a board of size `n`.
pub open spec fn grid_set(n: int) -> Set<Cell> {
    Set::new(|c: Cell| in_bounds(c, n))
}

/// The cells of the first `m - 1` full columns plus the first `k` cells
/// of column `m`: the induction ladder for counting the grid.
pub open spec fn grid_prefix(n: int, m: int, k: int) -> Set<Cell> {
    Set::new(
        |c: Cell|
            (1 <= c.x as int && (c.x as int) < m && 1 <= c.y as int && c.y as int <= n) || (
            c.x as int == m && 1 <= c.y as int && c.y as int <= k),
    )
}

proof fn lemma_grid_prefix_card(n: int, m: int, k: int)
    requires
        1 <= n <= MAX_BOARD as int,
        1 <= m <= n,
        0 <= k <= n,
    ensures
        grid_prefix(n, m, k).finite(),
        grid_prefix(n, m, k).len() == (m - 1) * n + k,
    decreases m, k,
{
    if k == 0 {
        if m == 1 {
            assert(grid_prefix(n, m, k) =~= Set::<Cell>::empty());
        } else {
            lemma_grid_prefix_card(n, m - 1, n);
            assert(grid_prefix(n, m, 0) =~= grid_prefix(n, m - 1, n));
            assert((m - 2) * n + n == (m - 1) * n) by (nonlinear_arith);
        }
    } else {
        lemma_grid_prefix_card(n, m, k - 1);
        let cnew = Cell { x: m as i32, y: k as i32 };
        assert(cnew.x as int == m && cnew.y as int == k);
        assert(!grid_prefix(n, m, k - 1).contains(cnew));
        assert(grid_prefix(n, m, k) =~= grid_prefix(n, m, k - 1).insert(cnew));
    }
}

/// A board of size `n` has exactly `n * n` cells.
pub proof fn lemma_grid_card(n: int)
    requires
        0 <= n <= MAX_BOARD as int,
    ensures
        grid_set(n).finite(),
        grid_set(n).len() == n * n,
{
    if n == 0 {
        assert(grid_set(0) =~= Set::<Cell>::empty());
    } else {
        lemma_grid_prefix_card(n, n, n);
        assert(grid_set(n) =~= grid_prefix(n, n, n));
        assert((n - 1) * n + n == n * n) by (nonlinear_arith);
    }
}

/// Manhattan distance, as a spec-level integer.
pub open spec fn manhattan_spec(x1: int, y1: int, x2: int, y2: int) -> int {
    (if x1 >= x2 {
        x1 - x2
    } else {
        x2 - x1
    }) + (if y1 >= y2 {
        y1 - y2
    } else {
        y2 - y1
    })
}

/// Manhattan distance between two on-board points.
pub fn manhattan(x1: i32, y1: i32, x2: i32, y2: i32) -> (r: i32)
    requires
        1 <= x1 as int <= MAX_BOARD,
        1 <= y1 as int <= MAX_BOARD,
        1 <= x2 as int <= MAX_BOARD,
        1 <= y2 as int <= MAX_BOARD,
    ensures
        r as int == manhattan_spec(x1 as int, y1 as int, x2 as int, y2 as int),
        0 <= r as int <= 2 * (MAX_BOARD as int),
{
    let dx: i32 = if x1 >= x2 {
        x1 - x2
    } else {
        x2 - x1
    };
    let dy: i32 = if y1 >= y2 {
        y1 - y2
    } else {
        y2 - y1
    };
    dx + dy
}

} // verus!
