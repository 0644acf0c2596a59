//! The generator: seeds a start room at the grid centre, grows interior
//! rooms from the frontier, and appends an end room, while maintaining the
//! invariants every produced dungeon must satisfy.

use vstd::prelude::*;
use crate::catalog::{
    all_cells_in_bounds, cell_at, frontier_offsets, lemma_anchor_in_cells, lemma_cells_distinct,
    lemma_cube_cells, off_view, room_cells, room_frontier, room_type_from_index,
    spec_frontier_offsets, RoomType,
};
use crate::coords::{coords_contain, coords_contain_prefix, in_bounds, Coord};
use crate::grids::{CellState, FrontierGrid, OccupancyGrid};
use crate::rng::rand_below;
use rand::rngs::StdRng;
use crate::rooms::{
    footprint_cells, offset_cell, GenerationError, Room, TAG_END, TAG_INTERIOR, TAG_SEED,
};

verus! {

/// How many consecutive invalid proposals the grow phase tolerates before it
/// gives up instead of spinning.
pub const RETRY_LIMIT: usize = 1000;

/// The anchor of the seed room: the centre cell of the grid.
pub open spec fn seed_anchor(n: int) -> (int, int, int) {
    (n / 2, n / 2, n / 2)
}

/// The cell next to the seed room along the negative first axis; it lies in
/// every grid of size at least two and becomes frontier when the seed room
/// is committed.
spec fn seed_side(n: int) -> (int, int, int) {
    (n / 2 - 1, n / 2, n / 2)
}

/// The inputs `generate` accepts: at least one room, and a grid that can
/// hold the seed room plus one neighbouring cell.
pub open spec fn valid_params(room_count: usize, grid_size: usize) -> bool {
    room_count >= 1 && grid_size >= 2
}

/// Room `i` of the list is adjacent to some earlier room: its anchor lies in
/// the frontier region of a room placed before it.
pub open spec fn connected_to_earlier(rooms: Seq<Room>, i: int) -> bool {
    exists|j: int| 0 <= j < i && (#[trigger] rooms[j]).probes(rooms[i].anchor@)
}

/// One cell of the first `k` frontier probes of a room of type `t` anchored
/// at `a` is the cell `c`.
spec fn frontier_prefix_hits(t: RoomType, a: (int, int, int), c: (int, int, int), k: int) -> bool {
    exists|j: int| 0 <= j < k && #[trigger] room_frontier(t, a)[j] == c
}

/// One generation attempt: the two grids, the rooms committed so far, and
/// the grid size. It lives only for the span of one `generate` call.
struct Session {
    n: usize,
    occ: OccupancyGrid,
    fr: FrontierGrid,
    rooms: Vec<Room>,
}

impl Session {
    spec fn size(self) -> int {
        self.n as int
    }

    spec fn len(self) -> int {
        self.rooms@.len() as int
    }

    spec fn grids_wf(self) -> bool {
        &&& self.n >= 2
        &&& self.size() * self.size() * self.size() <= usize::MAX
        &&& self.occ.wf()
        &&& self.fr.wf()
        &&& self.occ.size() == self.size()
        &&& self.fr.size() == self.size()
    }

    /// The committed rooms are numbered in placement order, anchored in
    /// bounds with their whole footprint in bounds, and start with the seed.
    spec fn rooms_wf(self) -> bool {
        &&& self.len() >= 1
        &&& forall|i: int|
            0 <= i < self.len() ==> {
                let r = #[trigger] self.rooms@[i];
                &&& r.id == i
                &&& in_bounds(r.anchor@, self.size())
                &&& all_cells_in_bounds(r.room_type, r.anchor@, self.size())
            }
        &&& self.rooms@[0].room_type == RoomType::Cube
        &&& self.rooms@[0].anchor@ == seed_anchor(self.size())
    }

    /// Every cell of every committed room is recorded in the occupancy grid
    /// under that room's id.
    spec fn occ_matches(self) -> bool {
        forall|i: int, c: (int, int, int)|
            0 <= i < self.len() && in_bounds(c, self.size())
                && #[trigger] self.rooms@[i].owns(c)
                ==> self.occ.at(c) == Some(self.rooms@[i].id)
    }

    /// Every owner the occupancy grid records is a committed room that owns
    /// the cell.
    spec fn occ_sound(self) -> bool {
        forall|c: (int, int, int)|
            in_bounds(c, self.size()) ==> match #[trigger] self.occ.at(c) {
                Some(id) => id < self.len() && self.rooms@[id as int].owns(c),
                None => true,
            }
    }

    /// A cell is `Filled` exactly when some room occupies it.
    spec fn filled_matches(self) -> bool {
        forall|c: (int, int, int)|
            in_bounds(c, self.size())
                ==> ((#[trigger] self.fr.at(c)) == CellState::Filled <==> self.occ.at(c) is Some)
    }

    /// Every `Frontier` cell was probed by some committed room.
    spec fn frontier_justified(self) -> bool {
        forall|c: (int, int, int)|
            in_bounds(c, self.size()) && (#[trigger] self.fr.at(c)) == CellState::Frontier
                ==> exists|j: int| 0 <= j < self.len() && (#[trigger] self.rooms@[j]).probes(c)
    }

    /// Every room after the seed is adjacent to an earlier room.
    spec fn connected(self) -> bool {
        forall|i: int| 1 <= i < self.len() ==> #[trigger] connected_to_earlier(self.rooms@, i)
    }

    spec fn inv(self) -> bool {
        &&& self.grids_wf()
        &&& self.rooms_wf()
        &&& self.occ_matches()
        &&& self.occ_sound()
        &&& self.filled_matches()
        &&& self.frontier_justified()
        &&& self.connected()
    }
}

/// Writes every cell of `cells` into the occupancy grid under `room_id` and
/// fills it in the frontier grid; no other cell changes.
fn commit_cells(occ: &mut OccupancyGrid, fr: &mut FrontierGrid, cells: &Vec<Coord>, room_id: usize)
    requires
        old(occ).wf(),
        old(fr).wf(),
        old(occ).size() == old(fr).size(),
        forall|k: int| 0 <= k < cells@.len() ==> in_bounds((#[trigger] cells@[k])@, old(occ).size()),
        forall|k: int| 0 <= k < cells@.len() ==> old(occ).at((#[trigger] cells@[k])@) is None,
        forall|k1: int, k2: int|
            0 <= k1 < k2 < cells@.len() ==> (#[trigger] cells@[k1])@ != (#[trigger] cells@[k2])@,
    ensures
        final(occ).wf(),
        final(fr).wf(),
        final(occ).size() == old(occ).size(),
        final(fr).size() == old(fr).size(),
        forall|c: (int, int, int)|
            in_bounds(c, old(occ).size()) ==> (#[trigger] final(occ).at(c)) == (
            if coords_contain(cells@, c) {
                Some(room_id)
            } else {
                old(occ).at(c)
            }),
        forall|c: (int, int, int)|
            in_bounds(c, old(occ).size()) ==> (#[trigger] final(fr).at(c)) == (
            if coords_contain(cells@, c) {
                CellState::Filled
            } else {
                old(fr).at(c)
            }),
{
    let mut k: usize = 0;
    while k < cells.len()
        invariant
            occ.wf(),
            fr.wf(),
            occ.size() == old(occ).size(),
            fr.size() == old(fr).size(),
            old(occ).size() == old(fr).size(),
            k <= cells@.len(),
            forall|j: int|
                0 <= j < cells@.len() ==> in_bounds((#[trigger] cells@[j])@, old(occ).size()),
            forall|j: int| 0 <= j < cells@.len() ==> old(occ).at((#[trigger] cells@[j])@) is None,
            forall|j1: int, j2: int|
                0 <= j1 < j2 < cells@.len()
                    ==> (#[trigger] cells@[j1])@ != (#[trigger] cells@[j2])@,
            forall|c: (int, int, int)|
                in_bounds(c, old(occ).size()) ==> (#[trigger] occ.at(c)) == (
                if coords_contain_prefix(cells@, c, k as int) {
                    Some(room_id)
                } else {
                    old(occ).at(c)
                }),
            forall|c: (int, int, int)|
                in_bounds(c, old(occ).size()) ==> (#[trigger] fr.at(c)) == (
                if coords_contain_prefix(cells@, c, k as int) {
                    CellState::Filled
                } else {
                    old(fr).at(c)
                }),
        decreases cells@.len() - k,
    {
        let c = cells[k];
        proof {
            // The cell about to be written is not among the first `k`, so it
            // still carries its original, unowned state.
            if coords_contain_prefix(cells@, c@, k as int) {
                let j = choose|j: int| 0 <= j < k as int && (#[trigger] cells@[j])@ == c@;
                assert(cells@[j]@ == cells@[k as int]@);
                assert(false);
            }
        }
        occ.set(c, room_id);
        fr.mark_filled(c);
        proof {
            assert forall|d: (int, int, int)| in_bounds(d, old(occ).size()) implies
                (#[trigger] occ.at(d)) == (if coords_contain_prefix(cells@, d, k as int + 1) {
                    Some(room_id)
                } else {
                    old(occ).at(d)
                }) && (#[trigger] fr.at(d)) == (if coords_contain_prefix(cells@, d, k as int + 1) {
                    CellState::Filled
                } else {
                    old(fr).at(d)
                }) by {
                if d == c@ {
                    assert(cells@[k as int]@ == d);
                    assert(coords_contain_prefix(cells@, d, k as int + 1));
                } else {
                    if coords_contain_prefix(cells@, d, k as int + 1) {
                        let j = choose|j: int| 0 <= j < k as int + 1 && (#[trigger] cells@[j])@ == d;
                        assert(j != k as int);
                        assert(coords_contain_prefix(cells@, d, k as int));
                    }
                    if coords_contain_prefix(cells@, d, k as int) {
                        let j = choose|j: int| 0 <= j < k as int && (#[trigger] cells@[j])@ == d;
                        assert(coords_contain_prefix(cells@, d, k as int + 1));
                    }
                }
            }
        }
        k = k + 1;
    }
    proof {
        assert forall|c: (int, int, int)| in_bounds(c, old(occ).size()) implies
            (coords_contain_prefix(cells@, c, cells@.len() as int) == coords_contain(cells@, c)) by {
            if coords_contain_prefix(cells@, c, cells@.len() as int) {
                let j = choose|j: int|
                    0 <= j < cells@.len() as int && (#[trigger] cells@[j])@ == c;
                assert(coords_contain(cells@, c));
            }
            if coords_contain(cells@, c) {
                let j = choose|j: int| 0 <= j < cells@.len() && (#[trigger] cells@[j])@ == c;
                assert(coords_contain_prefix(cells@, c, cells@.len() as int));
            }
        }
    }
}

/// Marks every in-bounds, not-yet-filled frontier probe of a room of type
/// `t` anchored at `anchor` as `Frontier`; no other cell changes.
fn mark_room_frontier(fr: &mut FrontierGrid, t: RoomType, anchor: Coord, n: usize)
    requires
        old(fr).wf(),
        old(fr).size() == n as int,
        n >= 2,
        n as int * n as int * n as int <= usize::MAX,
        in_bounds(anchor@, n as int),
    ensures
        final(fr).wf(),
        final(fr).size() == n as int,
        forall|c: (int, int, int)|
            in_bounds(c, n as int) ==> (#[trigger] final(fr).at(c)) == (
            if room_frontier(t, anchor@).contains(c) && old(fr).at(c) == CellState::Empty {
                CellState::Frontier
            } else {
                old(fr).at(c)
            }),
{
    let offs = frontier_offsets(t);
    let mut k: usize = 0;
    while k < offs.len()
        invariant
            fr.wf(),
            fr.size() == n as int,
            n >= 2,
            n as int * n as int * n as int <= usize::MAX,
            in_bounds(anchor@, n as int),
            k <= offs@.len(),
            offs@.len() == spec_frontier_offsets(t).len(),
            forall|j: int|
                0 <= j < offs@.len()
                    ==> off_view(#[trigger] offs@[j]) == spec_frontier_offsets(t)[j],
            forall|c: (int, int, int)|
                in_bounds(c, n as int) ==> (#[trigger] fr.at(c)) == (
                if frontier_prefix_hits(t, anchor@, c, k as int) && old(fr).at(c)
                    == CellState::Empty {
                    CellState::Frontier
                } else {
                    old(fr).at(c)
                }),
        decreases offs@.len() - k,
    {
        let ghost pre = *fr;
        let off = offs[k];
        match offset_cell(anchor, off, n) {
            Some(c) => {
                fr.mark_frontier(c);
            },
            None => {},
        }
        proof {
            let a = anchor@;
            let cellk = room_frontier(t, a)[k as int];
            assert(cellk == cell_at(a, off_view(offs@[k as int])));
            assert forall|c: (int, int, int)| in_bounds(c, n as int) implies
                (#[trigger] fr.at(c)) == (
                if frontier_prefix_hits(t, a, c, k as int + 1) && old(fr).at(c)
                    == CellState::Empty {
                    CellState::Frontier
                } else {
                    old(fr).at(c)
                }) by {
                if c == cellk {
                    assert(room_frontier(t, a)[k as int] == c);
                    assert(frontier_prefix_hits(t, a, c, k as int + 1));
                } else {
                    if frontier_prefix_hits(t, a, c, k as int + 1) {
                        let j = choose|j: int|
                            0 <= j < k as int + 1 && #[trigger] room_frontier(t, a)[j] == c;
                        assert(j < k as int);
                        assert(frontier_prefix_hits(t, a, c, k as int));
                    }
                    if frontier_prefix_hits(t, a, c, k as int) {
                        let j = choose|j: int|
                            0 <= j < k as int && #[trigger] room_frontier(t, a)[j] == c;
                        assert(frontier_prefix_hits(t, a, c, k as int + 1));
                    }
                }
            }
        }
        k = k + 1;
    }
    proof {
        let a = anchor@;
        let s = room_frontier(t, a);
        assert forall|c: (int, int, int)| in_bounds(c, n as int) implies
            (frontier_prefix_hits(t, a, c, s.len() as int) == s.contains(c)) by {
            if frontier_prefix_hits(t, a, c, s.len() as int) {
                let j = choose|j: int| 0 <= j < s.len() as int && #[trigger] s[j] == c;
                assert(s.contains(c));
            }
            if s.contains(c) {
                let j = choose|j: int| 0 <= j < s.len() && s[j] == c;
                assert(s[j] == c);
                assert(frontier_prefix_hits(t, a, c, s.len() as int));
            }
        }
    }
}

impl Session {
    /// A fresh session over an empty grid with the seed room committed at
    /// the grid centre and its surroundings marked frontier.
    fn new(n: usize) -> (s: Session)
        requires
            n >= 2,
            n as int * n as int * n as int <= usize::MAX,
        ensures
            s.inv(),
            s.size() == n as int,
            s.len() == 1,
            s.rooms@[0] == (Room {
                id: 0,
                room_type: RoomType::Cube,
                anchor: Coord { x: n / 2, y: n / 2, z: n / 2 },
                tag: TAG_SEED,
            }),
            s.fr.at(seed_side(n as int)) == CellState::Frontier,
    {
        let mut occ = OccupancyGrid::new(n);
        let mut fr = FrontierGrid::new(n);
        let centre: usize = n / 2;
        let anchor = Coord { x: centre, y: centre, z: centre };
        proof {
            assert(in_bounds(anchor@, n as int));
            lemma_cube_cells(anchor@);
        }
        occ.set(anchor, 0);
        fr.mark_filled(anchor);
        mark_room_frontier(&mut fr, RoomType::Cube, anchor, n);
        let seed = Room { id: 0, room_type: RoomType::Cube, anchor, tag: TAG_SEED };
        let mut rooms: Vec<Room> = Vec::new();
        rooms.push(seed);
        let s = Session { n, occ, fr, rooms };
        proof {
            let size = n as int;
            let a = anchor@;
            lemma_anchor_in_cells(RoomType::Cube, a);
            assert(s.rooms_wf()) by {
                assert(s.rooms@[0] == seed);
                assert forall|i: int| 0 <= i < s.len() implies {
                    let r = #[trigger] s.rooms@[i];
                    &&& r.id == i
                    &&& in_bounds(r.anchor@, size)
                    &&& all_cells_in_bounds(r.room_type, r.anchor@, size)
                } by {
                    assert(i == 0);
                    assert forall|k: int| 0 <= k < room_cells(RoomType::Cube, a).len()
                        implies in_bounds(#[trigger] room_cells(RoomType::Cube, a)[k], size) by {
                        assert(k == 0);
                    }
                }
            }
            assert(s.occ_matches()) by {
                assert forall|i: int, c: (int, int, int)|
                    0 <= i < s.len() && in_bounds(c, size) && #[trigger] s.rooms@[i].owns(c)
                    implies s.occ.at(c) == Some(s.rooms@[i].id) by {
                    assert(i == 0);
                    assert(c == a);
                }
            }
            assert(s.occ_sound());
            assert(s.filled_matches()) by {
                assert forall|c: (int, int, int)| in_bounds(c, size) implies
                    ((#[trigger] s.fr.at(c)) == CellState::Filled <==> s.occ.at(c) is Some) by {
                    if c != a {
                        assert(s.occ.at(c) is None);
                    }
                }
            }
            assert(s.frontier_justified()) by {
                assert forall|c: (int, int, int)|
                    in_bounds(c, size) && (#[trigger] s.fr.at(c)) == CellState::Frontier
                    implies exists|j: int|
                        0 <= j < s.len() && (#[trigger] s.rooms@[j]).probes(c) by {
                    assert(room_frontier(RoomType::Cube, a).contains(c));
                    assert(s.rooms@[0].probes(c));
                }
            }
            assert(s.connected());
            // The cell one step along the negative first axis from the seed
            // is a probe of the seed room and was empty before seeding.
            let side = seed_side(size);
            assert(room_frontier(RoomType::Cube, a)[1] == side);
            assert(room_frontier(RoomType::Cube, a).contains(side));
            assert(in_bounds(side, size));
            assert(side != a);
            assert(s.fr.at(side) == CellState::Frontier);
        }
        s
    }
}

/// A proposal is valid exactly when every footprint cell lies strictly
/// inside the grid and is unoccupied.
spec fn placeable(t: RoomType, a: (int, int, int), s: Session) -> bool {
    &&& all_cells_in_bounds(t, a, s.size())
    &&& forall|k: int|
        0 <= k < room_cells(t, a).len()
            ==> s.occ.at(#[trigger] room_cells(t, a)[k]) is None
}

impl Session {
    /// Validates the proposal of a room of type `t` anchored at a frontier
    /// cell; commits it when valid, and otherwise leaves the session as it
    /// was.
    fn try_place(&mut self, t: RoomType, anchor: Coord, tag: u32) -> (ok: bool)
        requires
            old(self).inv(),
            in_bounds(anchor@, old(self).size()),
            old(self).fr.at(anchor@) == CellState::Frontier,
        ensures
            final(self).inv(),
            final(self).size() == old(self).size(),
            ok == placeable(t, anchor@, *old(self)),
            !ok ==> *final(self) == *old(self),
            ok ==> final(self).rooms@ == old(self).rooms@.push(Room {
                id: old(self).rooms@.len() as usize,
                room_type: t,
                anchor,
                tag,
            }),
    {
        let n = self.n;
        let cells = match footprint_cells(t, anchor, n) {
            Some(v) => v,
            None => {
                return false;
            },
        };
        let mut k: usize = 0;
        while k < cells.len()
            invariant
                *self == *old(self),
                old(self).inv(),
                n == old(self).n,
                in_bounds(anchor@, old(self).size()),
                k <= cells@.len(),
                cells@.len() == room_cells(t, anchor@).len(),
                forall|j: int|
                    0 <= j < cells@.len()
                        ==> (#[trigger] cells@[j])@ == room_cells(t, anchor@)[j],
                all_cells_in_bounds(t, anchor@, old(self).size()),
                forall|j: int|
                    0 <= j < k ==> self.occ.at(#[trigger] room_cells(t, anchor@)[j]) is None,
            decreases cells@.len() - k,
        {
            let c = cells[k];
            proof {
                assert(in_bounds(room_cells(t, anchor@)[k as int], self.size()));
            }
            if self.occ.is_occupied(c) {
                return false;
            }
            if matches!(self.fr.get(c), CellState::Filled) {
                proof {
                    assert(self.occ.at(c@) is Some);
                }
                return false;
            }
            k = k + 1;
        }
        // The proposal is valid: commit the footprint, mark the new
        // frontier probes, and append the room.
        let ghost s0 = *self;
        let id = self.rooms.len();
        proof {
            lemma_cells_distinct(t, anchor@);
            assert forall|k1: int, k2: int| 0 <= k1 < k2 < cells@.len()
                implies (#[trigger] cells@[k1])@ != (#[trigger] cells@[k2])@ by {
                assert(cells@[k1]@ == room_cells(t, anchor@)[k1]);
                assert(cells@[k2]@ == room_cells(t, anchor@)[k2]);
            }
            assert forall|j: int| 0 <= j < cells@.len()
                implies self.occ.at((#[trigger] cells@[j])@) is None by {
                assert(cells@[j]@ == room_cells(t, anchor@)[j]);
            }
        }
        commit_cells(&mut self.occ, &mut self.fr, &cells, id);
        let ghost occ1 = self.occ;
        let ghost fr1 = self.fr;
        mark_room_frontier(&mut self.fr, t, anchor, n);
        let new_room = Room { id, room_type: t, anchor, tag };
        self.rooms.push(new_room);
        proof {
            let size = s0.size();
            let av = anchor@;
            let len0 = s0.len();
            let rs = self.rooms@;
            assert(rs == s0.rooms@.push(new_room));
            assert(rs[len0] == new_room);
            assert forall|i: int| 0 <= i < len0 implies rs[i] == s0.rooms@[i] by {}
            // A room owns a cell exactly when the committed coordinate list
            // names it.
            assert forall|c: (int, int, int)|
                coords_contain(cells@, c) == room_cells(t, av).contains(c) by {
                if coords_contain(cells@, c) {
                    let j = choose|j: int| 0 <= j < cells@.len() && (#[trigger] cells@[j])@ == c;
                    assert(room_cells(t, av)[j] == c);
                    assert(room_cells(t, av).contains(c));
                }
                if room_cells(t, av).contains(c) {
                    let j = choose|j: int|
                        0 <= j < room_cells(t, av).len() && room_cells(t, av)[j] == c;
                    assert(cells@[j]@ == c);
                    assert(coords_contain(cells@, c));
                }
            }
            assert(self.rooms_wf()) by {
                assert forall|i: int| 0 <= i < self.len() implies {
                    let r = #[trigger] self.rooms@[i];
                    &&& r.id == i
                    &&& in_bounds(r.anchor@, size)
                    &&& all_cells_in_bounds(r.room_type, r.anchor@, size)
                } by {
                    if i < len0 {
                        assert(s0.rooms@[i].id == i);
                    }
                }
                assert(rs[0] == s0.rooms@[0]);
            }
            assert(self.occ_matches()) by {
                assert forall|i: int, c: (int, int, int)|
                    0 <= i < self.len() && in_bounds(c, size) && #[trigger] self.rooms@[i].owns(c)
                    implies self.occ.at(c) == Some(self.rooms@[i].id) by {
                    if i == len0 {
                        assert(coords_contain(cells@, c));
                        assert(self.occ.at(c) == Some(id));
                    } else {
                        assert(s0.rooms@[i].owns(c));
                        assert(s0.occ.at(c) == Some(s0.rooms@[i].id));
                        if coords_contain(cells@, c) {
                            let j = choose|j: int|
                                0 <= j < cells@.len() && (#[trigger] cells@[j])@ == c;
                            assert(s0.occ.at(room_cells(t, av)[j]) is None);
                            assert(false);
                        }
                    }
                }
            }
            assert(self.occ_sound()) by {
                assert forall|c: (int, int, int)| in_bounds(c, size) implies
                    match #[trigger] self.occ.at(c) {
                        Some(oid) => oid < self.len() && self.rooms@[oid as int].owns(c),
                        None => true,
                    } by {
                    if coords_contain(cells@, c) {
                        assert(self.occ.at(c) == Some(id));
                        assert(self.rooms@[id as int].owns(c));
                    } else {
                        assert(self.occ.at(c) == s0.occ.at(c));
                    }
                }
            }
            assert(self.filled_matches()) by {
                assert forall|c: (int, int, int)| in_bounds(c, size) implies
                    ((#[trigger] self.fr.at(c)) == CellState::Filled <==> self.occ.at(c) is Some)
                    by {
                    if coords_contain(cells@, c) {
                        assert(fr1.at(c) == CellState::Filled);
                        assert(self.fr.at(c) == CellState::Filled);
                    } else {
                        assert(fr1.at(c) == s0.fr.at(c));
                        assert(self.occ.at(c) == s0.occ.at(c));
                        if room_frontier(t, av).contains(c) && fr1.at(c) == CellState::Empty {
                            assert(self.fr.at(c) == CellState::Frontier);
                            assert(s0.fr.at(c) != CellState::Filled);
                        }
                    }
                }
            }
            assert(self.frontier_justified()) by {
                assert forall|c: (int, int, int)|
                    in_bounds(c, size) && (#[trigger] self.fr.at(c)) == CellState::Frontier
                    implies exists|j: int|
                        0 <= j < self.len() && (#[trigger] self.rooms@[j]).probes(c) by {
                    if coords_contain(cells@, c) {
                        assert(self.fr.at(c) == CellState::Filled);
                        assert(false);
                    } else if room_frontier(t, av).contains(c) && fr1.at(c) == CellState::Empty {
                        assert(self.rooms@[len0].probes(c));
                    } else {
                        assert(s0.fr.at(c) == CellState::Frontier);
                        let j = choose|j: int|
                            0 <= j < len0 && (#[trigger] s0.rooms@[j]).probes(c);
                        assert(self.rooms@[j].probes(c));
                    }
                }
            }
            assert(self.connected()) by {
                assert forall|i: int| 1 <= i < self.len()
                    implies #[trigger] connected_to_earlier(self.rooms@, i) by {
                    if i < len0 {
                        assert(connected_to_earlier(s0.rooms@, i));
                        let j = choose|j: int|
                            0 <= j < i && (#[trigger] s0.rooms@[j]).probes(s0.rooms@[i].anchor@);
                        assert(self.rooms@[j].probes(self.rooms@[i].anchor@));
                    } else {
                        assert(s0.fr.at(av) == CellState::Frontier);
                        let j = choose|j: int|
                            0 <= j < len0 && (#[trigger] s0.rooms@[j]).probes(av);
                        assert(self.rooms@[j].probes(self.rooms@[i].anchor@));
                    }
                }
            }
        }
        true
    }

    /// Appends the end room at a frontier cell. The frontier invariant
    /// already guarantees the cell is in bounds and unoccupied, so no
    /// validation is re-run.
    fn push_end(&mut self, anchor: Coord)
        requires
            old(self).inv(),
            in_bounds(anchor@, old(self).size()),
            old(self).fr.at(anchor@) == CellState::Frontier,
        ensures
            final(self).inv(),
            final(self).size() == old(self).size(),
            final(self).rooms@ == old(self).rooms@.push(Room {
                id: old(self).rooms@.len() as usize,
                room_type: RoomType::Cube,
                anchor,
                tag: TAG_END,
            }),
            forall|i: int|
                0 <= i < old(self).len() ==> !(#[trigger] old(self).rooms@[i]).owns(anchor@),
    {
        let ghost s0 = *self;
        proof {
            lemma_cube_cells(anchor@);
            assert(s0.occ.at(anchor@) is None);
            assert forall|i: int| 0 <= i < s0.len()
                implies !(#[trigger] s0.rooms@[i]).owns(anchor@) by {
                if s0.rooms@[i].owns(anchor@) {
                    assert(s0.occ.at(anchor@) == Some(s0.rooms@[i].id));
                    assert(false);
                }
            }
        }
        let id = self.rooms.len();
        self.occ.set(anchor, id);
        self.fr.mark_filled(anchor);
        let end_room = Room { id, room_type: RoomType::Cube, anchor, tag: TAG_END };
        self.rooms.push(end_room);
        proof {
            let size = s0.size();
            let av = anchor@;
            let len0 = s0.len();
            assert(self.rooms@[len0] == end_room);
            assert forall|i: int| 0 <= i < len0 implies self.rooms@[i] == s0.rooms@[i] by {}
            assert forall|c: (int, int, int)|
                #[trigger] end_room.owns(c) <==> c == av by {}
            assert(self.rooms_wf()) by {
                assert forall|i: int| 0 <= i < self.len() implies {
                    let r = #[trigger] self.rooms@[i];
                    &&& r.id == i
                    &&& in_bounds(r.anchor@, size)
                    &&& all_cells_in_bounds(r.room_type, r.anchor@, size)
                } by {
                    if i < len0 {
                        assert(s0.rooms@[i].id == i);
                    } else {
                        assert forall|k: int| 0 <= k < room_cells(RoomType::Cube, av).len()
                            implies in_bounds(#[trigger] room_cells(RoomType::Cube, av)[k], size)
                            by {
                            assert(k == 0);
                        }
                    }
                }
                assert(self.rooms@[0] == s0.rooms@[0]);
            }
            assert(self.occ_matches()) by {
                assert forall|i: int, c: (int, int, int)|
                    0 <= i < self.len() && in_bounds(c, size) && #[trigger] self.rooms@[i].owns(c)
                    implies self.occ.at(c) == Some(self.rooms@[i].id) by {
                    if i == len0 {
                        assert(c == av);
                    } else {
                        assert(s0.rooms@[i].owns(c));
                        assert(c != av);
                    }
                }
            }
            assert(self.occ_sound()) by {
                assert forall|c: (int, int, int)| in_bounds(c, size) implies
                    match #[trigger] self.occ.at(c) {
                        Some(oid) => oid < self.len() && self.rooms@[oid as int].owns(c),
                        None => true,
                    } by {
                    if c == av {
                        assert(self.occ.at(c) == Some(id));
                        assert(self.rooms@[id as int].owns(c));
                    } else {
                        assert(self.occ.at(c) == s0.occ.at(c));
                    }
                }
            }
            assert(self.filled_matches()) by {
                assert forall|c: (int, int, int)| in_bounds(c, size) implies
                    ((#[trigger] self.fr.at(c)) == CellState::Filled <==> self.occ.at(c) is Some)
                    by {
                    if c != av {
                        assert(self.fr.at(c) == s0.fr.at(c));
                        assert(self.occ.at(c) == s0.occ.at(c));
                    }
                }
            }
            assert(self.frontier_justified()) by {
                assert forall|c: (int, int, int)|
                    in_bounds(c, size) && (#[trigger] self.fr.at(c)) == CellState::Frontier
                    implies exists|j: int|
                        0 <= j < self.len() && (#[trigger] self.rooms@[j]).probes(c) by {
                    assert(c != av);
                    assert(s0.fr.at(c) == CellState::Frontier);
                    let j = choose|j: int| 0 <= j < len0 && (#[trigger] s0.rooms@[j]).probes(c);
                    assert(self.rooms@[j].probes(c));
                }
            }
            assert(self.connected()) by {
                assert forall|i: int| 1 <= i < self.len()
                    implies #[trigger] connected_to_earlier(self.rooms@, i) by {
                    if i < len0 {
                        assert(connected_to_earlier(s0.rooms@, i));
                        let j = choose|j: int|
                            0 <= j < i && (#[trigger] s0.rooms@[j]).probes(s0.rooms@[i].anchor@);
                        assert(self.rooms@[j].probes(self.rooms@[i].anchor@));
                    } else {
                        let j = choose|j: int|
                            0 <= j < len0 && (#[trigger] s0.rooms@[j]).probes(av);
                        assert(self.rooms@[j].probes(self.rooms@[i].anchor@));
                    }
                }
            }
        }
    }
}

/// Everything a produced dungeon guarantees: the list holds `room_count`
/// interior rooms (the seed first) plus the end room, rooms are numbered in
/// placement order, every footprint lies strictly inside the grid, no two
/// footprints share a cell, every room after the seed is adjacent to an
/// earlier room, and the end room is a `Cube` whose anchor differs from
/// every other room's anchor.
pub open spec fn dungeon_ok(rooms: Seq<Room>, room_count: int, n: int) -> bool {
    &&& rooms.len() == room_count + 1
    &&& forall|i: int| 0 <= i < rooms.len() ==> (#[trigger] rooms[i]).id == i
    &&& rooms[0].room_type == RoomType::Cube
    &&& rooms[0].anchor@ == seed_anchor(n)
    &&& rooms[0].tag == TAG_SEED
    &&& rooms[rooms.len() - 1].room_type == RoomType::Cube
    &&& rooms[rooms.len() - 1].tag == TAG_END
    &&& forall|i: int| 1 <= i < rooms.len() - 1 ==> (#[trigger] rooms[i]).tag == TAG_INTERIOR
    &&& forall|i: int|
        0 <= i < rooms.len()
            ==> all_cells_in_bounds((#[trigger] rooms[i]).room_type, rooms[i].anchor@, n)
    &&& forall|i: int, j: int, c: (int, int, int)|
        #![trigger rooms[i].owns(c), rooms[j].owns(c)]
        0 <= i < j < rooms.len() ==> !(rooms[i].owns(c) && rooms[j].owns(c))
    &&& forall|i: int| 1 <= i < rooms.len() ==> #[trigger] connected_to_earlier(rooms, i)
    &&& forall|i: int|
        0 <= i < rooms.len() - 1 ==> (#[trigger] rooms[i]).anchor != rooms[rooms.len() - 1].anchor
}

/// Generates a connected, non-overlapping dungeon of `room_count` interior
/// rooms (the seed included) plus an end room inside a cubic grid of edge
/// `grid_size`, drawing proposals from `rng`. Candidate rooms whose
/// footprint leaves the grid or touches a placed room are discarded and
/// redrawn; a bounded number of consecutive failures, or an empty candidate
/// pool, ends the attempt with an error instead of spinning.
pub fn generate(room_count: usize, grid_size: usize, rng: &mut StdRng) -> (r: Result<
    Vec<Room>,
    GenerationError,
>)
    requires
        grid_size as int * grid_size as int * grid_size as int <= usize::MAX,
    ensures
        (r matches Err(GenerationError::InvalidParameters)) <==> !valid_params(
            room_count,
            grid_size,
        ),
        r matches Ok(rooms) ==> dungeon_ok(rooms@, room_count as int, grid_size as int),
        r is Ok ==> valid_params(room_count, grid_size),
        (r matches Err(GenerationError::FrontierExhausted) || r matches Err(
            GenerationError::RetryBudgetExceeded,
        )) ==> room_count >= 2 && grid_size >= 2,
        valid_params(room_count, grid_size) && room_count == 1 ==> r is Ok,
{
    if room_count == 0 || grid_size < 2 {
        return Err(GenerationError::InvalidParameters);
    }
    let n = grid_size;
    let mut session = Session::new(n);
    let mut rooms_to_go: usize = room_count;
    let mut retries: usize = RETRY_LIMIT;
    while rooms_to_go > 1
        invariant
            session.inv(),
            session.size() == grid_size as int,
            grid_size >= 2,
            room_count >= 1,
            grid_size as int * grid_size as int * grid_size as int <= usize::MAX,
            rooms_to_go >= 1,
            session.len() + rooms_to_go == room_count + 1,
            retries <= RETRY_LIMIT,
            room_count == 1 ==> session.fr.at(seed_side(grid_size as int))
                == CellState::Frontier,
            session.rooms@[0].tag == TAG_SEED,
            forall|i: int|
                1 <= i < session.len() ==> (#[trigger] session.rooms@[i]).tag == TAG_INTERIOR,
        decreases rooms_to_go, retries,
    {
        let cands = session.fr.collect_frontier();
        if cands.len() == 0 {
            return Err(GenerationError::FrontierExhausted);
        }
        let ti = rand_below(rng, 5);
        let ci = rand_below(rng, cands.len());
        let t = room_type_from_index(ti);
        let anchor = cands[ci];
        let ghost before = session;
        if session.try_place(t, anchor, TAG_INTERIOR) {
            proof {
                assert(session.rooms@[0] == before.rooms@[0]);
                assert forall|i: int| 1 <= i < session.len()
                    implies (#[trigger] session.rooms@[i]).tag == TAG_INTERIOR by {
                    if i < before.len() {
                        assert(session.rooms@[i] == before.rooms@[i]);
                    }
                }
            }
            rooms_to_go = rooms_to_go - 1;
            retries = RETRY_LIMIT;
        } else {
            if retries == 0 {
                return Err(GenerationError::RetryBudgetExceeded);
            }
            retries = retries - 1;
        }
    }
    // The growth quota is met: choose the end room from the remaining
    // frontier.
    let cands = session.fr.collect_frontier();
    if cands.len() == 0 {
        proof {
            if room_count == 1 {
                let side = seed_side(grid_size as int);
                assert(in_bounds(side, grid_size as int));
                assert(false);
            }
        }
        return Err(GenerationError::FrontierExhausted);
    }
    let ci = rand_below(rng, cands.len());
    let end_anchor = cands[ci];
    let ghost s1 = session;
    session.push_end(end_anchor);
    proof {
        let size = grid_size as int;
        let rs = session.rooms@;
        let len1 = s1.len();
        let last = rs.len() - 1;
        assert(rs[last] == (Room {
            id: s1.rooms@.len() as usize,
            room_type: RoomType::Cube,
            anchor: end_anchor,
            tag: TAG_END,
        }));
        assert forall|i: int| 0 <= i < len1 implies rs[i] == s1.rooms@[i] by {}
        assert(rs[0] == s1.rooms@[0]);
        assert forall|i: int, j: int, c: (int, int, int)|
            #![trigger rs[i].owns(c), rs[j].owns(c)]
            0 <= i < j < rs.len() implies !(rs[i].owns(c) && rs[j].owns(c)) by {
            if rs[i].owns(c) && rs[j].owns(c) {
                let k = choose|k: int| 0 <= k < rs[j].cells().len() && rs[j].cells()[k] == c;
                assert(in_bounds(room_cells(rs[j].room_type, rs[j].anchor@)[k], size));
                assert(session.occ.at(c) == Some(rs[i].id));
                assert(session.occ.at(c) == Some(rs[j].id));
                assert(rs[i].id == i && rs[j].id == j);
                assert(false);
            }
        }
        assert forall|i: int| 0 <= i < rs.len() - 1
            implies (#[trigger] rs[i]).anchor != rs[last].anchor by {
            if rs[i].anchor == rs[last].anchor {
                lemma_anchor_in_cells(rs[i].room_type, rs[i].anchor@);
                assert(rs[i].owns(end_anchor@));
                assert(s1.rooms@[i].owns(end_anchor@));
                assert(false);
            }
        }
        assert(dungeon_ok(rs, room_count as int, grid_size as int));
    }
    let out = session.rooms;
    Ok(out)
}

} // verus!
