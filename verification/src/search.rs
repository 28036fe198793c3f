//! The two verified searches over the obstacle-augmented grid: flood
//! fill (connected free-region size) and level-order breadth-first
//! search (exact shortest-path distance).  Both keep the set of
//! discovered cells as a duplicate-free list, so that its length is the
//! cardinality of the discovered region, and both terminate because the
//! list can never outgrow the board.

use vstd::prelude::*;

use crate::cellset::ObstacleSet;
use crate::cellset::vec_contains;
use crate::grid::Cell;
use crate::grid::MAX_BOARD;
use crate::grid::adjacent;
use crate::grid::grid_set;
use crate::grid::in_bounds;
use crate::grid::is_step;
use crate::grid::is_valid;
use crate::grid::lemma_adjacent_steps;
use crate::grid::lemma_grid_card;
use crate::reach::dist_le;
use crate::reach::free;
use crate::reach::lemma_closed_set;
use crate::reach::lemma_dist_le_step;
use crate::reach::lemma_min_dist_unique;
use crate::reach::lemma_no_next_level;
use crate::reach::min_dist;
use crate::reach::reachable;
use crate::reach::region;

verus! {

/// Appending an element extends list membership by exactly that element.
pub(crate) proof fn lemma_push_contains(s: Seq<Cell>, c: Cell)
    ensures
        forall|a: Cell| #[trigger] s.push(c).contains(a) <==> (s.contains(a) || a == c),
{
    assert forall|a: Cell| s.push(c).contains(a) implies (s.contains(a) || a == c) by {
        let i = choose|i: int| 0 <= i < s.push(c).len() && s.push(c)[i] == a;
        if i < s.len() {
            assert(s[i] == a);
        }
    };
    assert forall|a: Cell| s.contains(a) implies s.push(c).contains(a) by {
        let i = choose|i: int| 0 <= i < s.len() && s[i] == a;
        assert(s.push(c)[i] == a);
    };
    assert(s.push(c)[s.len() as int] == c);
}

/// Appending a fresh element keeps a list duplicate-free.
pub(crate) proof fn lemma_push_no_dup(s: Seq<Cell>, c: Cell)
    requires
        s.no_duplicates(),
        !s.contains(c),
    ensures
        s.push(c).no_duplicates(),
{
    assert forall|i: int, j: int|
        0 <= i < s.push(c).len() && 0 <= j < s.push(c).len() && i != j implies s.push(c)[i]
        != s.push(c)[j] by {
        if i < s.len() && j < s.len() {
        } else if i < s.len() {
            assert(s.contains(s[i]));
        } else if j < s.len() {
            assert(s.contains(s[j]));
        }
    };
}

/// Visit the four neighbours of `f`: every free, not yet discovered
/// neighbour is appended both to `visited` and to `next`.
fn expand(f: Cell, blocks: &ObstacleSet, n: i32, visited: &mut Vec<Cell>, next: &mut Vec<Cell>)
    requires
        1 <= n <= MAX_BOARD,
        in_bounds(f, n as int),
        old(visited)@.no_duplicates(),
        forall|c: Cell| #[trigger] old(visited)@.contains(c) ==> in_bounds(c, n as int),
    ensures
        forall|c: Cell|
            #[trigger] final(visited)@.contains(c) <==> (old(visited)@.contains(c) || (adjacent(
                f,
                c,
            ) && free(c, blocks@, n as int))),
        forall|c: Cell|
            #[trigger] final(next)@.contains(c) <==> (old(next)@.contains(c) || (adjacent(f, c)
                && free(c, blocks@, n as int) && !old(visited)@.contains(c))),
        final(visited)@.no_duplicates(),
        forall|c: Cell| #[trigger] final(visited)@.contains(c) ==> in_bounds(c, n as int),
        final(visited)@.len() - old(visited)@.len() == final(next)@.len() - old(next)@.len(),
        old(visited)@.len() <= final(visited)@.len(),
{
    let ghost v0 = visited@;
    let ghost n0 = next@;
    let ghost bl = blocks@;
    let mut d: i32 = 0;
    while d < 4
        invariant
            0 <= d <= 4,
            1 <= n <= MAX_BOARD,
            in_bounds(f, n as int),
            visited@.no_duplicates(),
            forall|c: Cell| #[trigger] visited@.contains(c) ==> in_bounds(c, n as int),
            forall|c: Cell|
                #[trigger] visited@.contains(c) <==> (v0.contains(c) || exists|dd: int|
                    0 <= dd < d && #[trigger] is_step(f, c, dd) && free(c, bl, n as int)),
            forall|c: Cell|
                #[trigger] next@.contains(c) <==> (n0.contains(c) || exists|dd: int|
                    0 <= dd < d && #[trigger] is_step(f, c, dd) && free(c, bl, n as int)
                        && !v0.contains(c)),
            visited@.len() - v0.len() == next@.len() - n0.len(),
            v0.len() <= visited@.len(),
            bl == blocks@,
        decreases 4 - d,
    {
        let nb = f.step(d);
        assert(is_step(f, nb, d as int));
        if is_valid(nb.x, nb.y, n) && !blocks.contains(nb) && !vec_contains(visited, nb) {
            assert(free(nb, bl, n as int));
            let ghost vprev = visited@;
            let ghost nprev = next@;
            visited.push(nb);
            next.push(nb);
            proof {
                lemma_push_contains(vprev, nb);
                lemma_push_no_dup(vprev, nb);
                lemma_push_contains(nprev, nb);
                assert(visited@ == vprev.push(nb));
                assert(next@ == nprev.push(nb));
                assert(forall|a: Cell|
                    #[trigger] visited@.contains(a) <==> (vprev.contains(a) || a == nb));
                assert(forall|a: Cell|
                    #[trigger] next@.contains(a) <==> (nprev.contains(a) || a == nb));
            }
        }
        d = d + 1;
    }
    proof {
        assert forall|c: Cell|
            #[trigger] visited@.contains(c) <==> (v0.contains(c) || (adjacent(f, c) && free(
                c,
                bl,
                n as int,
            ))) by {
            lemma_adjacent_steps(f, c);
        };
        assert forall|c: Cell|
            #[trigger] next@.contains(c) <==> (n0.contains(c) || (adjacent(f, c) && free(
                c,
                bl,
                n as int,
            ) && !v0.contains(c))) by {
            lemma_adjacent_steps(f, c);
        };
    }
}

/// Dropping the last element only shrinks membership.
proof fn lemma_drop_last_contains(s: Seq<Cell>)
    requires
        s.len() > 0,
    ensures
        forall|a: Cell| #[trigger] s.drop_last().contains(a) ==> s.contains(a),
        forall|a: Cell| #[trigger] s.contains(a) && a != s.last() ==> s.drop_last().contains(a),
{
    assert forall|a: Cell| #[trigger] s.drop_last().contains(a) implies s.contains(a) by {
        let i = choose|i: int| 0 <= i < s.drop_last().len() && s.drop_last()[i] == a;
        assert(s[i] == a);
    };
    assert forall|a: Cell| #[trigger] s.contains(a) && a != s.last() implies s.drop_last().contains(
        a,
    ) by {
        let i = choose|i: int| 0 <= i < s.len() && s[i] == a;
        assert(i < s.len() - 1);
        assert(s.drop_last()[i] == a);
    };
}

/// The size of the connected free region of `start`: how many cells a
/// flood fill can reach over the obstacle-augmented grid.  The result
/// is the cardinality of the mathematical region, so it does not depend
/// on any traversal order.
pub fn region_size(start: Cell, blocks: &ObstacleSet, n: i32) -> (r: i32)
    requires
        1 <= n <= MAX_BOARD,
        in_bounds(start, n as int),
    ensures
        r as int == region(start, blocks@, n as int).len(),
        r >= 1,
{
    let ghost bl = blocks@;
    let ghost nn = n as int;
    let mut visited: Vec<Cell> = Vec::new();
    let mut wl: Vec<Cell> = Vec::new();
    visited.push(start);
    wl.push(start);
    proof {
        assert(visited@ =~= seq![start]);
        assert(wl@ =~= seq![start]);
        assert(visited@[0] == start);
        assert(visited@.contains(start));
        assert(1 <= nn * nn) by (nonlinear_arith)
            requires
                1 <= nn,
        ;
        assert(dist_le(start, start, bl, nn, 0));
    }
    while wl.len() > 0
        invariant
            1 <= n <= MAX_BOARD,
            nn == n as int,
            bl == blocks@,
            in_bounds(start, nn),
            visited@.no_duplicates(),
            forall|c: Cell| #[trigger] visited@.contains(c) ==> in_bounds(c, nn),
            visited@.contains(start),
            forall|c: Cell| #[trigger] wl@.contains(c) ==> visited@.contains(c),
            forall|c: Cell| #[trigger] visited@.contains(c) ==> reachable(start, c, bl, nn),
            forall|a: Cell, b: Cell|
                visited@.contains(a) && !wl@.contains(a) && #[trigger] adjacent(a, b) && free(
                    b,
                    bl,
                    nn,
                ) ==> visited@.contains(b),
            1 <= visited@.len() <= nn * nn,
        decreases nn * nn - visited@.len(), wl@.len(),
    {
        let ghost v_old = visited@;
        let ghost wl_old = wl@;
        let f = wl.pop().unwrap();
        assert(wl_old.contains(f)) by {
            assert(wl_old[wl_old.len() - 1] == f);
        }
        proof {
            lemma_drop_last_contains(wl_old);
        }
        let ghost wl_mid = wl@;
        expand(f, blocks, n, &mut visited, &mut wl);
        proof {
            // soundness of the newly discovered cells
            assert forall|c: Cell| #[trigger] visited@.contains(c) implies reachable(
                start,
                c,
                bl,
                nn,
            ) by {
                if !v_old.contains(c) {
                    assert(adjacent(f, c) && free(c, bl, nn));
                    let k = choose|k: nat| dist_le(start, f, bl, nn, k);
                    lemma_dist_le_step(start, f, c, bl, nn, k);
                }
            };
            // the processed cells stay closed under free adjacent steps
            assert forall|a: Cell, b: Cell|
                visited@.contains(a) && !wl@.contains(a) && #[trigger] adjacent(a, b) && free(
                    b,
                    bl,
                    nn,
                ) implies visited@.contains(b) by {
                if a == f {
                } else if v_old.contains(a) {
                    if wl_old.contains(a) {
                        assert(wl_mid.contains(a));
                        assert(wl@.contains(a));
                    }
                } else {
                    assert(wl@.contains(a));
                }
            };
            // the worklist stays inside the discovered list
            assert forall|c: Cell| #[trigger] wl@.contains(c) implies visited@.contains(c) by {
                if wl_mid.contains(c) {
                    assert(wl_old.contains(c));
                    assert(v_old.contains(c));
                }
            };
            // the discovered list still fits on the board
            visited@.unique_seq_to_set();
            lemma_grid_card(nn);
            vstd::set_lib::lemma_len_subset(visited@.to_set(), grid_set(nn));
        }
    }
    proof {
        let vset = visited@.to_set();
        assert forall|c: Cell| #[trigger] region(start, bl, nn).contains(c) implies vset.contains(
            c,
        ) by {
            let k = choose|k: nat| dist_le(start, c, bl, nn, k);
            lemma_closed_set(start, bl, nn, vset, c, k);
        };
        assert(vset =~= region(start, bl, nn));
        visited@.unique_seq_to_set();
        assert(region(start, bl, nn).len() == visited@.len());
        assert(nn * nn <= 2147395600) by (nonlinear_arith)
            requires
                1 <= nn <= 46340,
        ;
    }
    visited.len() as i32
}

/// Level-order breadth-first search: the minimum number of moves from
/// `start` to `end` over free cells, or `None` when `end` cannot be
/// reached.  The search proceeds level by level, so the level at which
/// the target first appears is exactly the shortest-path distance.
pub fn bfs(start: Cell, end: Cell, blocks: &ObstacleSet, n: i32) -> (r: Option<i32>)
    requires
        1 <= n <= MAX_BOARD,
        in_bounds(start, n as int),
        in_bounds(end, n as int),
    ensures
        match r {
            Some(s) => 0 <= s && min_dist(start, end, blocks@, n as int) == Some(s as nat),
            None => min_dist(start, end, blocks@, n as int) is None,
        },
{
    let ghost bl = blocks@;
    let ghost nn = n as int;
    if start.x == end.x && start.y == end.y {
        proof {
            assert(start == end);
            assert(dist_le(start, end, bl, nn, 0));
            lemma_min_dist_unique(start, end, bl, nn, 0);
        }
        return Some(0);
    }
    let mut visited: Vec<Cell> = Vec::new();
    let mut frontier: Vec<Cell> = Vec::new();
    let mut steps: i32 = 0;
    visited.push(start);
    frontier.push(start);
    proof {
        assert(visited@ =~= seq![start]);
        assert(frontier@ =~= seq![start]);
        assert(visited@[0] == start);
        assert(visited@.contains(start));
        assert(1 <= nn * nn) by (nonlinear_arith)
            requires
                1 <= nn,
        ;
        assert(dist_le(start, start, bl, nn, 0));
        assert forall|c: Cell| #[trigger] visited@.contains(c) implies dist_le(
            start,
            c,
            bl,
            nn,
            0,
        ) by {
            assert(c == start);
        };
        assert forall|c: Cell| dist_le(start, c, bl, nn, 0) implies visited@.contains(c) by {
            assert(c == start);
        };
    }
    loop
        invariant
            1 <= n <= MAX_BOARD,
            nn == n as int,
            bl == blocks@,
            in_bounds(start, nn),
            in_bounds(end, nn),
            start != end,
            visited@.no_duplicates(),
            forall|c: Cell| #[trigger] visited@.contains(c) ==> in_bounds(c, nn),
            visited@.contains(start),
            0 <= steps,
            steps as int <= visited@.len() - 1,
            visited@.len() <= nn * nn,
            forall|c: Cell|
                #[trigger] visited@.contains(c) <==> dist_le(start, c, bl, nn, steps as nat),
            forall|c: Cell|
                #[trigger] frontier@.contains(c) <==> (dist_le(start, c, bl, nn, steps as nat) && (
                steps == 0 || !dist_le(start, c, bl, nn, (steps - 1) as nat))),
            !dist_le(start, end, bl, nn, steps as nat),
        decreases nn * nn - visited@.len(),
    {
        let ghost s = steps as nat;
        let ghost v_level = visited@;
        let mut next: Vec<Cell> = Vec::new();
        let mut i: usize = 0;
        while i < frontier.len()
            invariant
                1 <= n <= MAX_BOARD,
                nn == n as int,
                bl == blocks@,
                in_bounds(start, nn),
                s == steps as nat,
                0 <= i <= frontier.len(),
                visited@.no_duplicates(),
                forall|c: Cell| #[trigger] visited@.contains(c) ==> in_bounds(c, nn),
                visited@.contains(start),
                forall|c: Cell|
                    #[trigger] frontier@.contains(c) <==> (dist_le(start, c, bl, nn, s) && (s == 0
                        || !dist_le(start, c, bl, nn, (s - 1) as nat))),
                forall|c: Cell|
                    #[trigger] visited@.contains(c) <==> (dist_le(start, c, bl, nn, s) || exists|
                        j: int,
                    |
                        0 <= j < i && #[trigger] adjacent(frontier@[j], c) && free(c, bl, nn)),
                forall|c: Cell|
                    #[trigger] next@.contains(c) <==> (exists|j: int|
                        0 <= j < i && #[trigger] adjacent(frontier@[j], c) && free(c, bl, nn)
                            && !dist_le(start, c, bl, nn, s)),
                visited@.len() == v_level.len() + next@.len(),
                v_level.len() <= visited@.len(),
                forall|c: Cell| #[trigger] v_level.contains(c) ==> visited@.contains(c),
            decreases frontier.len() - i,
        {
            let f = frontier[i];
            assert(frontier@.contains(f));
            assert(in_bounds(f, nn)) by {
                if f != start {
                    assert(dist_le(start, f, bl, nn, s));
                    assert(free(f, bl, nn));
                }
            }
            let ghost v_before = visited@;
            let ghost nx_before = next@;
            expand(f, blocks, n, &mut visited, &mut next);
            proof {
                assert forall|c: Cell|
                    #[trigger] visited@.contains(c) <==> (dist_le(start, c, bl, nn, s) || exists|
                        j: int,
                    |
                        0 <= j < i + 1 && #[trigger] adjacent(frontier@[j], c) && free(
                            c,
                            bl,
                            nn,
                        )) by {
                    if visited@.contains(c) {
                        if v_before.contains(c) {
                        } else {
                            assert(adjacent(f, c) && free(c, bl, nn));
                            assert(frontier@[i as int] == f);
                        }
                    } else {
                        assert(!v_before.contains(c));
                    }
                };
                assert forall|c: Cell|
                    #[trigger] next@.contains(c) <==> (exists|j: int|
                        0 <= j < i + 1 && #[trigger] adjacent(frontier@[j], c) && free(c, bl, nn)
                            && !dist_le(start, c, bl, nn, s)) by {
                    if next@.contains(c) {
                        if nx_before.contains(c) {
                        } else {
                            assert(adjacent(f, c) && free(c, bl, nn) && !v_before.contains(c));
                            assert(!dist_le(start, c, bl, nn, s));
                            assert(frontier@[i as int] == f);
                        }
                    } else {
                        if exists|j: int|
                            0 <= j < i + 1 && #[trigger] adjacent(frontier@[j], c) && free(
                                c,
                                bl,
                                nn,
                            ) && !dist_le(start, c, bl, nn, s) {
                            let j = choose|j: int|
                                0 <= j < i + 1 && #[trigger] adjacent(frontier@[j], c) && free(
                                    c,
                                    bl,
                                    nn,
                                ) && !dist_le(start, c, bl, nn, s);
                            if j < i {
                                assert(nx_before.contains(c));
                            } else {
                                assert(adjacent(f, c));
                                assert(visited@.contains(c));
                                assert(!v_before.contains(c));
                                assert(nx_before.contains(c));
                            }
                        }
                    }
                };
            }
            i = i + 1;
        }
        // the new level is exactly the cells at distance `steps + 1`
        proof {
            assert forall|c: Cell|
                #[trigger] next@.contains(c) <==> (dist_le(start, c, bl, nn, (s + 1) as nat)
                    && !dist_le(start, c, bl, nn, s)) by {
                if next@.contains(c) {
                    let j = choose|j: int|
                        0 <= j < frontier@.len() && #[trigger] adjacent(frontier@[j], c) && free(
                            c,
                            bl,
                            nn,
                        ) && !dist_le(start, c, bl, nn, s);
                    let m = frontier@[j];
                    assert(frontier@.contains(m));
                    assert(dist_le(start, m, bl, nn, s));
                    lemma_dist_le_step(start, m, c, bl, nn, s);
                } else {
                    if dist_le(start, c, bl, nn, (s + 1) as nat) && !dist_le(start, c, bl, nn, s) {
                        assert(c != start);
                        let m = choose|m: Cell|
                            adjacent(m, c) && dist_le(start, m, bl, nn, ((s + 1) - 1) as nat);
                        assert(free(c, bl, nn));
                        if s > 0 && dist_le(start, m, bl, nn, (s - 1) as nat) {
                            lemma_dist_le_step(start, m, c, bl, nn, (s - 1) as nat);
                            assert(dist_le(start, c, bl, nn, s));
                        }
                        assert(frontier@.contains(m));
                        let j = choose|j: int| 0 <= j < frontier@.len() && frontier@[j] == m;
                        assert(adjacent(frontier@[j], c) && free(c, bl, nn) && !dist_le(
                            start,
                            c,
                            bl,
                            nn,
                            s,
                        ));
                    }
                }
            };
        }
        if vec_contains(&next, end) {
            proof {
                assert(dist_le(start, end, bl, nn, (s + 1) as nat));
                assert(!dist_le(start, end, bl, nn, s));
                lemma_min_dist_unique(start, end, bl, nn, (s + 1) as nat);
                assert(steps as int <= v_level.len() - 1);
                assert(nn * nn <= 2147395600) by (nonlinear_arith)
                    requires
                        1 <= nn <= 46340,
                ;
            }
            return Some(steps + 1);
        }
        if next.len() == 0 {
            proof {
                assert forall|k: nat| !dist_le(start, end, bl, nn, k) by {
                    if dist_le(start, end, bl, nn, k) {
                        assert forall|c: Cell|
                            !(#[trigger] dist_le(start, c, bl, nn, (s + 1) as nat) && !dist_le(
                                start,
                                c,
                                bl,
                                nn,
                                s,
                            )) by {
                            if dist_le(start, c, bl, nn, (s + 1) as nat) && !dist_le(
                                start,
                                c,
                                bl,
                                nn,
                                s,
                            ) {
                                assert(next@.contains(c));
                            }
                        };
                        lemma_no_next_level(start, bl, nn, s, end, k);
                    }
                };
                assert(!reachable(start, end, bl, nn));
            }
            return None;
        }
        proof {
            // the next level is non-empty, so the search advances
            assert(next@.contains(next@[0]));
            assert(!v_level.contains(next@[0]));
            assert(visited@.len() >= v_level.len() + 1);
            // level-up: everything within `steps + 1` moves is discovered
            assert forall|c: Cell|
                #[trigger] visited@.contains(c) <==> dist_le(start, c, bl, nn, (s + 1) as nat) by {
                if visited@.contains(c) {
                    if dist_le(start, c, bl, nn, s) {
                        crate::reach::lemma_dist_le_succ(start, c, bl, nn, s);
                    } else {
                        assert(next@.contains(c));
                    }
                } else {
                    assert(!next@.contains(c));
                    assert(!dist_le(start, c, bl, nn, s));
                }
            };
            assert(!dist_le(start, end, bl, nn, (s + 1) as nat)) by {
                assert(!next@.contains(end));
                assert(!visited@.contains(end)) by {
                    if visited@.contains(end) {
                        assert(dist_le(start, end, bl, nn, s) || next@.contains(end));
                    }
                }
            }
            // the discovered list still fits on the board
            visited@.unique_seq_to_set();
            lemma_grid_card(nn);
            vstd::set_lib::lemma_len_subset(visited@.to_set(), grid_set(nn));
            assert(steps as int <= v_level.len() - 1);
            assert(nn * nn <= 2147395600) by (nonlinear_arith)
                requires
                    1 <= nn <= 46340,
            ;
        }
        steps = steps + 1;
        frontier = next;
    }
}

} // verus!
