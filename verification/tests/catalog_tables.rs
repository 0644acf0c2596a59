use dungeon_gen::{
    footprint_cells, footprint_offsets, frontier_offsets, room_type_from_index, Coord, RoomType,
};

#[test]
fn footprint_tables() {
    assert_eq!(footprint_offsets(RoomType::Cube), vec![(0, 0, 0)]);
    assert_eq!(footprint_offsets(RoomType::ExtendPosZ), vec![(0, 0, 0), (0, 0, 1)]);
    assert_eq!(footprint_offsets(RoomType::ExtendNegX), vec![(0, 0, 0), (-1, 0, 0)]);
    assert_eq!(footprint_offsets(RoomType::ExtendNegZ), vec![(0, 0, 0), (0, 0, -1)]);
    assert_eq!(footprint_offsets(RoomType::ExtendPosX), vec![(0, 0, 0), (1, 0, 0)]);
}

#[test]
fn frontier_table_sizes() {
    assert_eq!(frontier_offsets(RoomType::Cube).len(), 6);
    assert_eq!(frontier_offsets(RoomType::ExtendPosZ).len(), 10);
    assert_eq!(frontier_offsets(RoomType::ExtendNegX).len(), 10);
    assert_eq!(frontier_offsets(RoomType::ExtendNegZ).len(), 10);
    assert_eq!(frontier_offsets(RoomType::ExtendPosX).len(), 10);
}

#[test]
fn cube_frontier_is_the_six_neighbours() {
    let offs = frontier_offsets(RoomType::Cube);
    for expected in [(1, 0, 0), (-1, 0, 0), (0, 1, 0), (0, -1, 0), (0, 0, 1), (0, 0, -1)] {
        assert!(offs.contains(&expected));
    }
}

#[test]
fn domino_frontier_probes_both_cells_and_both_ends() {
    // For the domino growing along positive x: the four lateral neighbours
    // of each footprint cell, plus the cell beyond each end.
    let offs = frontier_offsets(RoomType::ExtendPosX);
    for expected in [
        (0, 1, 0),
        (0, -1, 0),
        (0, 0, 1),
        (0, 0, -1),
        (1, 1, 0),
        (1, -1, 0),
        (1, 0, 1),
        (1, 0, -1),
        (-1, 0, 0),
        (2, 0, 0),
    ] {
        assert!(offs.contains(&expected));
    }
    // No probe lands on the footprint itself.
    assert!(!offs.contains(&(0, 0, 0)));
    assert!(!offs.contains(&(1, 0, 0)));
}

#[test]
fn frontier_tables_have_no_duplicates() {
    for t in [
        RoomType::Cube,
        RoomType::ExtendPosZ,
        RoomType::ExtendNegX,
        RoomType::ExtendNegZ,
        RoomType::ExtendPosX,
    ] {
        let offs = frontier_offsets(t);
        for i in 0..offs.len() {
            for j in (i + 1)..offs.len() {
                assert_ne!(offs[i], offs[j]);
            }
        }
    }
}

#[test]
fn draw_index_maps_to_each_room_type() {
    assert_eq!(room_type_from_index(0), RoomType::Cube);
    assert_eq!(room_type_from_index(1), RoomType::ExtendPosZ);
    assert_eq!(room_type_from_index(2), RoomType::ExtendNegX);
    assert_eq!(room_type_from_index(3), RoomType::ExtendNegZ);
    assert_eq!(room_type_from_index(4), RoomType::ExtendPosX);
}

#[test]
fn footprint_cells_inside_grid() {
    let anchor = Coord { x: 4, y: 4, z: 4 };
    let cells = footprint_cells(RoomType::ExtendNegX, anchor, 10).expect("both cells fit");
    assert_eq!(cells.len(), 2);
    assert_eq!(cells[0], Coord { x: 4, y: 4, z: 4 });
    assert_eq!(cells[1], Coord { x: 3, y: 4, z: 4 });
}

#[test]
fn footprint_cells_leaving_grid_rejected() {
    // The second cell of the negative-x domino would sit at x = -1.
    let anchor = Coord { x: 0, y: 4, z: 4 };
    assert!(footprint_cells(RoomType::ExtendNegX, anchor, 10).is_none());
    // The second cell of the positive-z domino would sit at z = 10.
    let anchor = Coord { x: 4, y: 4, z: 9 };
    assert!(footprint_cells(RoomType::ExtendPosZ, anchor, 10).is_none());
    // A cube at a corner still fits.
    let anchor = Coord { x: 0, y: 0, z: 0 };
    assert!(footprint_cells(RoomType::Cube, anchor, 10).is_some());
}
