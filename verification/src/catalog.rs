//! The room template catalog: a pure lookup of each room type's footprint
//! offsets and frontier-probe offsets, all measured from the room's anchor.

use vstd::prelude::*;
use crate::coords::in_bounds;

verus! {

/// The closed set of room shapes. `Cube` occupies a single cell; the four
/// `Extend` variants occupy the anchor cell plus one neighbour along the
/// named axis and direction.
#[derive(Clone, Copy, PartialEq, Eq, Structural, Debug)]
pub enum RoomType {
    Cube,
    ExtendPosZ,
    ExtendNegX,
    ExtendNegZ,
    ExtendPosX,
}

/// The footprint of a room type, as offsets from the anchor.
pub open spec fn spec_footprint_offsets(t: RoomType) -> Seq<(int, int, int)> {
    match t {
        RoomType::Cube => seq![(0, 0, 0)],
        RoomType::ExtendPosZ => seq![(0, 0, 0), (0, 0, 1)],
        RoomType::ExtendNegX => seq![(0, 0, 0), (-1, 0, 0)],
        RoomType::ExtendNegZ => seq![(0, 0, 0), (0, 0, -1)],
        RoomType::ExtendPosX => seq![(0, 0, 0), (1, 0, 0)],
    }
}

/// The frontier-probe offsets of a room type: the cells that become eligible
/// anchors once a room of this type is committed. A `Cube` probes its six
/// axis-aligned neighbours; a two-cell room probes the four lateral
/// neighbours of each footprint cell plus the cell beyond each end of the
/// domino along its growth axis.
pub open spec fn spec_frontier_offsets(t: RoomType) -> Seq<(int, int, int)> {
    match t {
        RoomType::Cube => seq![
            (1, 0, 0),
            (-1, 0, 0),
            (0, 1, 0),
            (0, -1, 0),
            (0, 0, 1),
            (0, 0, -1),
        ],
        RoomType::ExtendPosZ => seq![
            (1, 0, 0),
            (-1, 0, 0),
            (0, 1, 0),
            (0, -1, 0),
            (1, 0, 1),
            (-1, 0, 1),
            (0, 1, 1),
            (0, -1, 1),
            (0, 0, -1),
            (0, 0, 2),
        ],
        RoomType::ExtendNegX => seq![
            (0, 1, 0),
            (0, -1, 0),
            (0, 0, 1),
            (0, 0, -1),
            (-1, 1, 0),
            (-1, -1, 0),
            (-1, 0, 1),
            (-1, 0, -1),
            (1, 0, 0),
            (-2, 0, 0),
        ],
        RoomType::ExtendNegZ => seq![
            (1, 0, 0),
            (-1, 0, 0),
            (0, 1, 0),
            (0, -1, 0),
            (1, 0, -1),
            (-1, 0, -1),
            (0, 1, -1),
            (0, -1, -1),
            (0, 0, 1),
            (0, 0, -2),
        ],
        RoomType::ExtendPosX => seq![
            (0, 1, 0),
            (0, -1, 0),
            (0, 0, 1),
            (0, 0, -1),
            (1, 1, 0),
            (1, -1, 0),
            (1, 0, 1),
            (1, 0, -1),
            (-1, 0, 0),
            (2, 0, 0),
        ],
    }
}

/// The integer value of an executable offset triple.
pub open spec fn off_view(o: (i32, i32, i32)) -> (int, int, int) {
    (o.0 as int, o.1 as int, o.2 as int)
}

/// Footprint offsets as executable data, matching `spec_footprint_offsets`.
pub fn footprint_offsets(t: RoomType) -> (r: Vec<(i32, i32, i32)>)
    ensures
        r@.len() == spec_footprint_offsets(t).len(),
        forall|k: int|
            0 <= k < r@.len() ==> off_view(#[trigger] r@[k]) == spec_footprint_offsets(t)[k],
{
    match t {
        RoomType::Cube => vec![(0, 0, 0)],
        RoomType::ExtendPosZ => vec![(0, 0, 0), (0, 0, 1)],
        RoomType::ExtendNegX => vec![(0, 0, 0), (-1, 0, 0)],
        RoomType::ExtendNegZ => vec![(0, 0, 0), (0, 0, -1)],
        RoomType::ExtendPosX => vec![(0, 0, 0), (1, 0, 0)],
    }
}

/// Frontier offsets as executable data, matching `spec_frontier_offsets`.
pub fn frontier_offsets(t: RoomType) -> (r: Vec<(i32, i32, i32)>)
    ensures
        r@.len() == spec_frontier_offsets(t).len(),
        forall|k: int|
            0 <= k < r@.len() ==> off_view(#[trigger] r@[k]) == spec_frontier_offsets(t)[k],
{
    match t {
        RoomType::Cube => vec![
            (1, 0, 0),
            (-1, 0, 0),
            (0, 1, 0),
            (0, -1, 0),
            (0, 0, 1),
            (0, 0, -1),
        ],
        RoomType::ExtendPosZ => vec![
            (1, 0, 0),
            (-1, 0, 0),
            (0, 1, 0),
            (0, -1, 0),
            (1, 0, 1),
            (-1, 0, 1),
            (0, 1, 1),
            (0, -1, 1),
            (0, 0, -1),
            (0, 0, 2),
        ],
        RoomType::ExtendNegX => vec![
            (0, 1, 0),
            (0, -1, 0),
            (0, 0, 1),
            (0, 0, -1),
            (-1, 1, 0),
            (-1, -1, 0),
            (-1, 0, 1),
            (-1, 0, -1),
            (1, 0, 0),
            (-2, 0, 0),
        ],
        RoomType::ExtendNegZ => vec![
            (1, 0, 0),
            (-1, 0, 0),
            (0, 1, 0),
            (0, -1, 0),
            (1, 0, -1),
            (-1, 0, -1),
            (0, 1, -1),
            (0, -1, -1),
            (0, 0, 1),
            (0, 0, -2),
        ],
        RoomType::ExtendPosX => vec![
            (0, 1, 0),
            (0, -1, 0),
            (0, 0, 1),
            (0, 0, -1),
            (1, 1, 0),
            (1, -1, 0),
            (1, 0, 1),
            (1, 0, -1),
            (-1, 0, 0),
            (2, 0, 0),
        ],
    }
}

/// The room type drawn for a uniform index below five.
pub open spec fn spec_room_type_from_index(i: int) -> RoomType {
    if i == 0 {
        RoomType::Cube
    } else if i == 1 {
        RoomType::ExtendPosZ
    } else if i == 2 {
        RoomType::ExtendNegX
    } else if i == 3 {
        RoomType::ExtendNegZ
    } else {
        RoomType::ExtendPosX
    }
}

/// Maps a uniform draw in `[0, 5)` to a room type.
pub fn room_type_from_index(i: usize) -> (t: RoomType)
    requires
        i < 5,
    ensures
        t == spec_room_type_from_index(i as int),
{
    if i == 0 {
        RoomType::Cube
    } else if i == 1 {
        RoomType::ExtendPosZ
    } else if i == 2 {
        RoomType::ExtendNegX
    } else if i == 3 {
        RoomType::ExtendNegZ
    } else {
        RoomType::ExtendPosX
    }
}

/// The grid cell reached from `anchor` by `offset`.
pub open spec fn cell_at(anchor: (int, int, int), offset: (int, int, int)) -> (int, int, int) {
    (anchor.0 + offset.0, anchor.1 + offset.1, anchor.2 + offset.2)
}

/// The cells a room of type `t` anchored at `anchor` occupies.
pub open spec fn room_cells(t: RoomType, anchor: (int, int, int)) -> Seq<(int, int, int)> {
    spec_footprint_offsets(t).map_values(|o: (int, int, int)| cell_at(anchor, o))
}

/// Whether every footprint cell of a room of type `t` anchored at `anchor`
/// lies inside a grid of size `n`.
pub open spec fn all_cells_in_bounds(t: RoomType, anchor: (int, int, int), n: int) -> bool {
    forall|k: int|
        0 <= k < room_cells(t, anchor).len()
            ==> in_bounds(#[trigger] room_cells(t, anchor)[k], n)
}

/// The cells a room of type `t` anchored at `anchor` probes as frontier.
pub open spec fn room_frontier(t: RoomType, anchor: (int, int, int)) -> Seq<(int, int, int)> {
    spec_frontier_offsets(t).map_values(|o: (int, int, int)| cell_at(anchor, o))
}

/// The anchor cell is always part of the footprint: offset zero leads the
/// footprint table of every room type.
pub proof fn lemma_anchor_in_cells(t: RoomType, anchor: (int, int, int))
    ensures
        room_cells(t, anchor).len() >= 1,
        room_cells(t, anchor)[0] == anchor,
        room_cells(t, anchor).contains(anchor),
{
    assert(spec_footprint_offsets(t)[0] == (0int, 0int, 0int)) by {
        match t {
            RoomType::Cube => {},
            RoomType::ExtendPosZ => {},
            RoomType::ExtendNegX => {},
            RoomType::ExtendNegZ => {},
            RoomType::ExtendPosX => {},
        }
    }
    assert(room_cells(t, anchor)[0] == anchor);
}

/// A `Cube` room occupies exactly its anchor cell.
pub proof fn lemma_cube_cells(anchor: (int, int, int))
    ensures
        room_cells(RoomType::Cube, anchor).len() == 1,
        room_cells(RoomType::Cube, anchor)[0] == anchor,
        forall|c: (int, int, int)|
            #[trigger] room_cells(RoomType::Cube, anchor).contains(c) <==> c == anchor,
{
    let s = room_cells(RoomType::Cube, anchor);
    assert(s[0] == anchor);
    assert forall|c: (int, int, int)| #[trigger] s.contains(c) <==> c == anchor by {
        if s.contains(c) {
            let k = choose|k: int| 0 <= k < s.len() && s[k] == c;
            assert(k == 0);
        }
        if c == anchor {
            assert(s[0] == c);
        }
    }
}

/// The footprint cells of one room are pairwise distinct.
pub proof fn lemma_cells_distinct(t: RoomType, anchor: (int, int, int))
    ensures
        forall|k1: int, k2: int|
            0 <= k1 < k2 < room_cells(t, anchor).len()
                ==> #[trigger] room_cells(t, anchor)[k1] != #[trigger] room_cells(t, anchor)[k2],
{
    let cells = room_cells(t, anchor);
    assert forall|k1: int, k2: int|
        0 <= k1 < k2 < cells.len() implies #[trigger] cells[k1] != #[trigger] cells[k2] by {
        match t {
            RoomType::Cube => {},
            RoomType::ExtendPosZ => {},
            RoomType::ExtendNegX => {},
            RoomType::ExtendNegZ => {},
            RoomType::ExtendPosX => {},
        }
    }
}

} // verus!
