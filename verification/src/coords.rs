//! Grid coordinates and the bounds predicate shared by the whole crate.

use vstd::prelude::*;

verus! {

/// A cell of the cubic grid, identified by its three axis indices.
#[derive(Clone, Copy, PartialEq, Eq, Structural, Debug)]
pub struct Coord {
    pub x: usize,
    pub y: usize,
    pub z: usize,
}

impl View for Coord {
    type V = (int, int, int);

    open spec fn view(&self) -> (int, int, int) {
        (self.x as int, self.y as int, self.z as int)
    }
}

/// A cell lies strictly within the grid when all three indices are below `n`.
pub open spec fn in_bounds(c: (int, int, int), n: int) -> bool {
    0 <= c.0 < n && 0 <= c.1 < n && 0 <= c.2 < n
}

/// Lexicographic order on cells, axis by axis; the order in which a scan of
/// the grid visits them.
pub open spec fn lex_lt(a: (int, int, int), b: (int, int, int)) -> bool {
    a.0 < b.0 || (a.0 == b.0 && (a.1 < b.1 || (a.1 == b.1 && a.2 < b.2)))
}

/// Whether one of the coordinates in `s` names the cell `c`.
pub open spec fn coords_contain(s: Seq<Coord>, c: (int, int, int)) -> bool {
    exists|k: int| 0 <= k < s.len() && (#[trigger] s[k])@ == c
}

/// Whether one of the first `k` coordinates in `s` names the cell `c`.
pub open spec fn coords_contain_prefix(s: Seq<Coord>, c: (int, int, int), k: int) -> bool {
    exists|j: int| 0 <= j < k && (#[trigger] s[j])@ == c
}

} // verus!
