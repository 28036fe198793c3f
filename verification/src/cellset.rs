//! The obstacle set: the cells the current tick's searches may not
//! enter.  Built fresh per call from the snake's own body, static
//! barriers, rival bodies and predicted rival heads; viewed abstractly
//! as a `Set<Cell>`.

use vstd::prelude::*;

use crate::grid::Cell;

verus! {

/// A set of blocked cells, stored as the list of insertions.
pub struct ObstacleSet {
    cells: Vec<Cell>,
}

impl View for ObstacleSet {
    type V = Set<Cell>;

    closed spec fn view(&self) -> Set<Cell> {
        self.cells@.to_set()
    }
}

impl ObstacleSet {
    /// The empty obstacle set.
    pub fn empty() -> (r: ObstacleSet)
        ensures
            r@ == Set::<Cell>::empty(),
    {
        let r = ObstacleSet { cells: Vec::new() };
        proof {
            assert(r@ =~= Set::<Cell>::empty());
        }
        r
    }

    /// Mark one more cell as blocked.
    pub fn insert(&mut self, c: Cell)
        ensures
            final(self)@ == old(self)@.insert(c),
    {
        self.cells.push(c);
        proof {
            let s0 = old(self).cells@;
            let s1 = self.cells@;
            assert forall|a: Cell| s1.contains(a) implies s0.contains(a) || a == c by {
                let i = choose|i: int| 0 <= i < s1.len() && s1[i] == a;
                if i < s0.len() {
                    assert(s0[i] == a);
                }
            };
            assert forall|a: Cell| s0.contains(a) implies s1.contains(a) by {
                let i = choose|i: int| 0 <= i < s0.len() && s0[i] == a;
                assert(s1[i] == a);
            };
            assert(s1[s1.len() - 1] == c);
            assert(self@ =~= old(self)@.insert(c));
        }
    }

    /// Whether `c` is blocked.
    pub fn contains(&self, c: Cell) -> (r: bool)
        ensures
            r == self@.contains(c),
    {
        vec_contains(&self.cells, c)
    }

    /// An independent copy, so a search can extend the obstacle set
    /// without the caller observing the speculative cells.
    pub fn duplicate(&self) -> (r: ObstacleSet)
        ensures
            r@ == self@,
    {
        let r = ObstacleSet { cells: self.cells.clone() };
        proof {
            assert(r.cells@ =~= self.cells@);
            assert(r@ =~= self@);
        }
        r
    }
}

/// Linear membership scan over a cell list.
pub fn vec_contains(v: &Vec<Cell>, c: Cell) -> (r: bool)
    ensures
        r == v@.contains(c),
{
    let mut i: usize = 0;
    while i < v.len()
        invariant
            0 <= i <= v.len(),
            forall|j: int| 0 <= j < i ==> v@[j] != c,
        decreases v.len() - i,
    {
        if v[i] == c {
            return true;
        }
        i = i + 1;
    }
    false
}

} // verus!
