//! The two cubic grids the generator mutates: the occupancy grid, which
//! records the owning room of each cell, and the frontier grid, which tracks
//! each cell's growth eligibility.

use vstd::prelude::*;
use vstd::pervasive::VecAdditionalExecFns;
use crate::coords::{in_bounds, lex_lt, Coord};

verus! {

/// Growth eligibility of one cell. `Filled` is monotonic: once a cell is
/// filled it never reverts.
#[derive(Clone, Copy, PartialEq, Eq, Structural, Debug)]
pub enum CellState {
    Empty,
    Frontier,
    Filled,
}

/// The backing index of a cell inside a flat vector of `n * n * n` cells.
spec fn flat_index(c: (int, int, int), n: int) -> int {
    (c.0 * n + c.1) * n + c.2
}

proof fn lemma_flat_index_bounds(c: (int, int, int), n: int)
    requires
        in_bounds(c, n),
    ensures
        0 <= flat_index(c, n) < n * n * n,
{
    assert(0 <= (c.0 * n + c.1) * n + c.2 < n * n * n) by (nonlinear_arith)
        requires
            0 <= c.0 < n,
            0 <= c.1 < n,
            0 <= c.2 < n,
    ;
}

proof fn lemma_mul_add_cancel(p: int, q: int, r: int, s: int, n: int)
    requires
        p * n + r == q * n + s,
        0 <= r < n,
        0 <= s < n,
    ensures
        p == q,
        r == s,
{
    if p > q {
        assert(false) by (nonlinear_arith)
            requires
                p > q,
                p * n + r == q * n + s,
                0 <= r < n,
                0 <= s < n,
        ;
    }
    if p < q {
        assert(false) by (nonlinear_arith)
            requires
                p < q,
                p * n + r == q * n + s,
                0 <= r < n,
                0 <= s < n,
        ;
    }
}

proof fn lemma_flat_index_injective(a: (int, int, int), b: (int, int, int), n: int)
    requires
        in_bounds(a, n),
        in_bounds(b, n),
        flat_index(a, n) == flat_index(b, n),
    ensures
        a == b,
{
    lemma_mul_add_cancel(a.0 * n + a.1, b.0 * n + b.1, a.2, b.2, n);
    lemma_mul_add_cancel(a.0, b.0, a.1, b.1, n);
}

/// Computes the flat index of an in-bounds cell without overflow.
fn index_of(c: Coord, n: usize) -> (r: usize)
    requires
        in_bounds(c@, n as int),
        n as int * n as int * n as int <= usize::MAX,
    ensures
        r == flat_index(c@, n as int),
        r < n as int * n as int * n as int,
{
    proof {
        lemma_flat_index_bounds(c@, n as int);
        assert(c.x * n + c.y < n * n && n * n <= n * n * n) by (nonlinear_arith)
            requires
                0 <= c.x < n,
                0 <= c.y < n,
        ;
        assert((c.x * n + c.y) * n + c.z < n * n * n) by (nonlinear_arith)
            requires
                0 <= c.x < n,
                0 <= c.y < n,
                0 <= c.z < n,
        ;
    }
    (c.x * n + c.y) * n + c.z
}

/// Records which room, if any, owns each cell of the grid.
pub struct OccupancyGrid {
    n: usize,
    cells: Vec<Option<usize>>,
}

impl OccupancyGrid {
    /// The edge length of the grid.
    pub closed spec fn size(self) -> int {
        self.n as int
    }

    pub closed spec fn wf(self) -> bool {
        &&& self.n >= 2
        &&& self.size() * self.size() * self.size() <= usize::MAX
        &&& self.cells@.len() == self.size() * self.size() * self.size()
    }

    /// The owner recorded at an in-bounds cell.
    pub closed spec fn at(self, c: (int, int, int)) -> Option<usize>
        recommends
            self.wf(),
            in_bounds(c, self.size()),
    {
        self.cells@[flat_index(c, self.size())]
    }

    /// A fresh grid with every cell unowned.
    pub fn new(n: usize) -> (r: OccupancyGrid)
        requires
            n >= 2,
            n as int * n as int * n as int <= usize::MAX,
        ensures
            r.wf(),
            r.size() == n,
            forall|c: (int, int, int)| in_bounds(c, n as int) ==> #[trigger] r.at(c) is None,
    {
        proof {
            assert(n * n <= n * n * n) by (nonlinear_arith)
                requires
                    n >= 2,
            ;
        }
        let side: usize = n * n;
        let total: usize = side * n;
        let cells: Vec<Option<usize>> = vec![None; total];
        let r = OccupancyGrid { n, cells };
        proof {
            assert forall|c: (int, int, int)| in_bounds(c, n as int) implies #[trigger] r.at(c) is None by {
                lemma_flat_index_bounds(c, n as int);
            }
        }
        r
    }

    /// Whether the cell is owned by some room.
    pub fn is_occupied(&self, c: Coord) -> (r: bool)
        requires
            self.wf(),
            in_bounds(c@, self.size()),
        ensures
            r == self.at(c@) is Some,
    {
        let i = index_of(c, self.n);
        self.cells[i].is_some()
    }

    /// Records `room_id` as the owner of a currently unowned cell; the
    /// caller guarantees the cell is unowned through prior validation.
    pub fn set(&mut self, c: Coord, room_id: usize)
        requires
            old(self).wf(),
            in_bounds(c@, old(self).size()),
            old(self).at(c@) is None,
        ensures
            final(self).wf(),
            final(self).size() == old(self).size(),
            final(self).at(c@) == Some(room_id),
            forall|d: (int, int, int)|
                in_bounds(d, old(self).size()) && d != c@
                    ==> #[trigger] final(self).at(d) == old(self).at(d),
    {
        proof {
            lemma_flat_index_bounds(c@, self.size());
        }
        let i = index_of(c, self.n);
        self.cells.set(i, Some(room_id));
        proof {
            assert forall|d: (int, int, int)|
                in_bounds(d, old(self).size()) && d != c@
                    implies #[trigger] self.at(d) == old(self).at(d) by {
                lemma_flat_index_bounds(d, self.size());
                if flat_index(d, self.size()) == flat_index(c@, self.size()) {
                    lemma_flat_index_injective(d, c@, self.size());
                }
            }
        }
    }
}

/// Tracks the growth eligibility of each cell of the grid.
pub struct FrontierGrid {
    n: usize,
    cells: Vec<CellState>,
}

impl FrontierGrid {
    /// The edge length of the grid.
    pub closed spec fn size(self) -> int {
        self.n as int
    }

    pub closed spec fn wf(self) -> bool {
        &&& self.n >= 2
        &&& self.size() * self.size() * self.size() <= usize::MAX
        &&& self.cells@.len() == self.size() * self.size() * self.size()
    }

    /// The state recorded at an in-bounds cell.
    pub closed spec fn at(self, c: (int, int, int)) -> CellState
        recommends
            self.wf(),
            in_bounds(c, self.size()),
    {
        self.cells@[flat_index(c, self.size())]
    }

    /// A fresh grid with every cell `Empty`.
    pub fn new(n: usize) -> (r: FrontierGrid)
        requires
            n >= 2,
            n as int * n as int * n as int <= usize::MAX,
        ensures
            r.wf(),
            r.size() == n,
            forall|c: (int, int, int)|
                in_bounds(c, n as int) ==> #[trigger] r.at(c) == CellState::Empty,
    {
        proof {
            assert(n * n <= n * n * n) by (nonlinear_arith)
                requires
                    n >= 2,
            ;
        }
        let side: usize = n * n;
        let total: usize = side * n;
        let cells: Vec<CellState> = vec![CellState::Empty; total];
        let r = FrontierGrid { n, cells };
        proof {
            assert forall|c: (int, int, int)|
                in_bounds(c, n as int) implies #[trigger] r.at(c) == CellState::Empty by {
                lemma_flat_index_bounds(c, n as int);
            }
        }
        r
    }

    /// The state of one cell.
    pub fn get(&self, c: Coord) -> (r: CellState)
        requires
            self.wf(),
            in_bounds(c@, self.size()),
        ensures
            r == self.at(c@),
    {
        let i = index_of(c, self.n);
        self.cells[i]
    }

    /// Makes an `Empty` cell eligible as a future anchor; any other state is
    /// left as it is.
    pub fn mark_frontier(&mut self, c: Coord)
        requires
            old(self).wf(),
            in_bounds(c@, old(self).size()),
        ensures
            final(self).wf(),
            final(self).size() == old(self).size(),
            final(self).at(c@) == (if old(self).at(c@) == CellState::Empty {
                CellState::Frontier
            } else {
                old(self).at(c@)
            }),
            forall|d: (int, int, int)|
                in_bounds(d, old(self).size()) && d != c@
                    ==> #[trigger] final(self).at(d) == old(self).at(d),
    {
        proof {
            lemma_flat_index_bounds(c@, self.size());
        }
        let i = index_of(c, self.n);
        if matches!(self.cells[i], CellState::Empty) {
            self.cells.set(i, CellState::Frontier);
        }
        proof {
            assert forall|d: (int, int, int)|
                in_bounds(d, old(self).size()) && d != c@
                    implies #[trigger] self.at(d) == old(self).at(d) by {
                lemma_flat_index_bounds(d, self.size());
                if flat_index(d, self.size()) == flat_index(c@, self.size()) {
                    lemma_flat_index_injective(d, c@, self.size());
                }
            }
        }
    }

    /// Fills a cell, whatever its previous state; filled cells never revert.
    pub fn mark_filled(&mut self, c: Coord)
        requires
            old(self).wf(),
            in_bounds(c@, old(self).size()),
        ensures
            final(self).wf(),
            final(self).size() == old(self).size(),
            final(self).at(c@) == CellState::Filled,
            forall|d: (int, int, int)|
                in_bounds(d, old(self).size()) && d != c@
                    ==> #[trigger] final(self).at(d) == old(self).at(d),
    {
        proof {
            lemma_flat_index_bounds(c@, self.size());
        }
        let i = index_of(c, self.n);
        self.cells.set(i, CellState::Filled);
        proof {
            assert forall|d: (int, int, int)|
                in_bounds(d, old(self).size()) && d != c@
                    implies #[trigger] self.at(d) == old(self).at(d) by {
                lemma_flat_index_bounds(d, self.size());
                if flat_index(d, self.size()) == flat_index(c@, self.size()) {
                    lemma_flat_index_injective(d, c@, self.size());
                }
            }
        }
    }

    /// Collects every `Frontier` cell, scanning the grid in a fixed
    /// axis-by-axis order so that repeated runs list the candidates
    /// identically.
    pub fn collect_frontier(&self) -> (r: Vec<Coord>)
        requires
            self.wf(),
        ensures
            forall|k: int|
                0 <= k < r@.len()
                    ==> in_bounds((#[trigger] r@[k])@, self.size())
                        && self.at(r@[k]@) == CellState::Frontier,
            forall|c: (int, int, int)|
                in_bounds(c, self.size()) && #[trigger] self.at(c) == CellState::Frontier
                    ==> exists|k: int| 0 <= k < r@.len() && (#[trigger] r@[k])@ == c,
            forall|k1: int, k2: int|
                #![trigger r@[k1], r@[k2]]
                0 <= k1 < k2 < r@.len() ==> lex_lt(r@[k1]@, r@[k2]@),
    {
        let n = self.n;
        let mut r: Vec<Coord> = Vec::new();
        let mut x: usize = 0;
        while x < n
            invariant
                self.wf(),
                n == self.size(),
                x <= n,
                forall|k: int|
                    0 <= k < r@.len()
                        ==> in_bounds((#[trigger] r@[k])@, self.size())
                            && self.at(r@[k]@) == CellState::Frontier,
                forall|c: (int, int, int)|
                    in_bounds(c, self.size()) && c.0 < x
                        && #[trigger] self.at(c) == CellState::Frontier
                        ==> exists|k: int| 0 <= k < r@.len() && (#[trigger] r@[k])@ == c,
                forall|k: int| 0 <= k < r@.len() ==> (#[trigger] r@[k])@.0 < x,
                forall|k1: int, k2: int|
                    #![trigger r@[k1], r@[k2]]
                    0 <= k1 < k2 < r@.len() ==> lex_lt(r@[k1]@, r@[k2]@),
            decreases n - x,
        {
            let mut y: usize = 0;
            while y < n
                invariant
                    self.wf(),
                    n == self.size(),
                    x < n,
                    y <= n,
                    forall|k: int|
                        0 <= k < r@.len()
                            ==> in_bounds((#[trigger] r@[k])@, self.size())
                                && self.at(r@[k]@) == CellState::Frontier,
                    forall|c: (int, int, int)|
                        in_bounds(c, self.size()) && (c.0 < x || (c.0 == x && c.1 < y))
                            && #[trigger] self.at(c) == CellState::Frontier
                            ==> exists|k: int| 0 <= k < r@.len() && (#[trigger] r@[k])@ == c,
                    forall|k: int|
                        0 <= k < r@.len()
                            ==> lex_lt((#[trigger] r@[k])@, (x as int, y as int, 0)),
                    forall|k1: int, k2: int|
                        #![trigger r@[k1], r@[k2]]
                        0 <= k1 < k2 < r@.len() ==> lex_lt(r@[k1]@, r@[k2]@),
                decreases n - y,
            {
                let mut z: usize = 0;
                while z < n
                    invariant
                        self.wf(),
                        n == self.size(),
                        x < n,
                        y < n,
                        z <= n,
                        forall|k: int|
                            0 <= k < r@.len()
                                ==> in_bounds((#[trigger] r@[k])@, self.size())
                                    && self.at(r@[k]@) == CellState::Frontier,
                        forall|c: (int, int, int)|
                            in_bounds(c, self.size())
                                && (c.0 < x || (c.0 == x && c.1 < y) || (c.0 == x && c.1 == y
                                && c.2 < z)) && #[trigger] self.at(c) == CellState::Frontier
                                ==> exists|k: int| 0 <= k < r@.len() && (#[trigger] r@[k])@ == c,
                        forall|k: int|
                            0 <= k < r@.len()
                                ==> lex_lt((#[trigger] r@[k])@, (x as int, y as int, z as int)),
                        forall|k1: int, k2: int|
                            #![trigger r@[k1], r@[k2]]
                            0 <= k1 < k2 < r@.len() ==> lex_lt(r@[k1]@, r@[k2]@),
                    decreases n - z,
                {
                    let c = Coord { x, y, z };
                    let ghost prev = r@;
                    if matches!(self.get(c), CellState::Frontier) {
                        r.push(c);
                    }
                    proof {
                        assert forall|d: (int, int, int)|
                            in_bounds(d, self.size())
                                && (d.0 < x || (d.0 == x && d.1 < y) || (d.0 == x && d.1 == y
                                && d.2 < z + 1)) && #[trigger] self.at(d) == CellState::Frontier
                                implies exists|k: int|
                                    0 <= k < r@.len() && (#[trigger] r@[k])@ == d by {
                            if d == c@ {
                                assert(r@[r@.len() - 1]@ == d);
                            } else {
                                let k0 = choose|k: int|
                                    0 <= k < prev.len() && (#[trigger] prev[k])@ == d;
                                assert(r@[k0]@ == d);
                            }
                        }
                    }
                    z = z + 1;
                }
                y = y + 1;
            }
            x = x + 1;
        }
        r
    }
}

} // verus!
