//! Placed rooms, the cosmetic tags handed through to the presentation layer,
//! and the errors a generation attempt can report.

use vstd::prelude::*;
use crate::catalog::{
    all_cells_in_bounds, cell_at, footprint_offsets, off_view, room_cells, room_frontier,
    spec_footprint_offsets, RoomType,
};
use crate::coords::{in_bounds, Coord};

verus! {

/// Cosmetic tag of the first room placed.
pub const TAG_SEED: u32 = 0;

/// Cosmetic tag of every interior room.
pub const TAG_INTERIOR: u32 = 1;

/// Cosmetic tag of the end room.
pub const TAG_END: u32 = 2;

/// A placed room: its position in the output order, its shape, the anchor
/// cell its footprint is measured from, and an opaque cosmetic tag for the
/// layer that instantiates it.
#[derive(Clone, Copy, PartialEq, Eq, Structural, Debug)]
pub struct Room {
    pub id: usize,
    pub room_type: RoomType,
    pub anchor: Coord,
    pub tag: u32,
}

impl Room {
    /// The cells this room occupies.
    pub open spec fn cells(self) -> Seq<(int, int, int)> {
        room_cells(self.room_type, self.anchor@)
    }

    /// Whether this room occupies the cell `c`.
    pub open spec fn owns(self, c: (int, int, int)) -> bool {
        self.cells().contains(c)
    }

    /// The cells this room probes as frontier when it is committed.
    pub open spec fn frontier(self) -> Seq<(int, int, int)> {
        room_frontier(self.room_type, self.anchor@)
    }

    /// Whether `c` lies in this room's frontier region, i.e. whether a room
    /// anchored at `c` counts as adjacent to this room.
    pub open spec fn probes(self, c: (int, int, int)) -> bool {
        self.frontier().contains(c)
    }

    /// The footprint of this room inside a grid of the given size, or `None`
    /// when some footprint cell falls outside the grid.
    pub fn footprint(&self, grid_size: usize) -> (r: Option<Vec<Coord>>)
        requires
            grid_size >= 2,
            grid_size as int * grid_size as int * grid_size as int <= usize::MAX,
            in_bounds(self.anchor@, grid_size as int),
        ensures
            r is Some <==> all_cells_in_bounds(self.room_type, self.anchor@, grid_size as int),
            r matches Some(v) ==> v@.len() == self.cells().len() && (forall|k: int|
                0 <= k < v@.len() ==> (#[trigger] v@[k])@ == self.cells()[k]),
    {
        footprint_cells(self.room_type, self.anchor, grid_size)
    }
}

/// The ways a generation attempt can fail.
#[derive(Clone, Copy, PartialEq, Eq, Structural, Debug)]
pub enum GenerationError {
    /// The requested room count is zero, or the grid cannot hold the seed
    /// room together with one neighbouring cell.
    InvalidParameters,
    /// The candidate pool became empty before the room quota was met.
    FrontierExhausted,
    /// Too many consecutive proposals were invalid without a commit.
    RetryBudgetExceeded,
}

/// Computes the footprint cells of a room of type `t` anchored at `anchor`,
/// or `None` when some cell falls outside the grid.
pub fn footprint_cells(t: RoomType, anchor: Coord, grid_size: usize) -> (r: Option<Vec<Coord>>)
    requires
        grid_size >= 2,
        grid_size as int * grid_size as int * grid_size as int <= usize::MAX,
        in_bounds(anchor@, grid_size as int),
    ensures
        r is Some <==> all_cells_in_bounds(t, anchor@, grid_size as int),
        r matches Some(v) ==> v@.len() == room_cells(t, anchor@).len() && (forall|k: int|
            0 <= k < v@.len() ==> (#[trigger] v@[k])@ == room_cells(t, anchor@)[k]),
{
    let n = grid_size;
    let offs = footprint_offsets(t);
    let mut cells: Vec<Coord> = Vec::new();
    let mut k: usize = 0;
    while k < offs.len()
        invariant
            grid_size >= 2,
            grid_size as int * grid_size as int * grid_size as int <= usize::MAX,
            in_bounds(anchor@, grid_size as int),
            n == grid_size,
            k <= offs.len(),
            offs@.len() == spec_footprint_offsets(t).len(),
            forall|j: int|
                0 <= j < offs@.len()
                    ==> off_view(#[trigger] offs@[j]) == spec_footprint_offsets(t)[j],
            cells@.len() == k,
            forall|j: int|
                0 <= j < k ==> (#[trigger] cells@[j])@ == room_cells(t, anchor@)[j],
            forall|j: int|
                0 <= j < k ==> in_bounds(#[trigger] room_cells(t, anchor@)[j], grid_size as int),
        decreases offs.len() - k,
    {
        let off = offs[k];
        match offset_cell(anchor, off, n) {
            Some(c) => {
                proof {
                    assert(c@ == room_cells(t, anchor@)[k as int]);
                }
                cells.push(c);
            },
            None => {
                proof {
                    assert(!in_bounds(room_cells(t, anchor@)[k as int], grid_size as int));
                }
                return None;
            },
        }
        k = k + 1;
    }
    Some(cells)
}

/// The cell reached from `anchor` by `off` inside a grid of size `n`, or
/// `None` when it falls outside the grid.
pub(crate) fn offset_cell(anchor: Coord, off: (i32, i32, i32), n: usize) -> (r: Option<Coord>)
    requires
        n >= 2,
        n as int * n as int * n as int <= usize::MAX,
        in_bounds(anchor@, n as int),
    ensures
        match r {
            Some(c) => c@ == cell_at(anchor@, off_view(off)) && in_bounds(c@, n as int),
            None => !in_bounds(cell_at(anchor@, off_view(off)), n as int),
        },
{
    proof {
        lemma_grid_side_small(n);
    }
    let cx: i64 = anchor.x as i64 + off.0 as i64;
    let cy: i64 = anchor.y as i64 + off.1 as i64;
    let cz: i64 = anchor.z as i64 + off.2 as i64;
    let ni: i64 = n as i64;
    if 0 <= cx && cx < ni && 0 <= cy && cy < ni && 0 <= cz && cz < ni {
        Some(Coord { x: cx as usize, y: cy as usize, z: cz as usize })
    } else {
        None
    }
}

/// A grid whose cell vector fits in memory has a small edge: the edge is at
/// most a quarter of `usize::MAX`.
proof fn lemma_grid_side_small(n: usize)
    requires
        n >= 2,
        n as int * n as int * n as int <= usize::MAX,
    ensures
        n as int <= 0x4000_0000_0000_0000,
{
    assert(4 * (n as int) <= n as int * n as int * n as int) by (nonlinear_arith)
        requires
            n >= 2,
    ;
}

} // verus!
