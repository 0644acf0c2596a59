use dungeon_gen::{CellState, Coord, FrontierGrid, OccupancyGrid};

#[test]
fn occupancy_starts_empty_and_records_owners() {
    let mut occ = OccupancyGrid::new(4);
    let a = Coord { x: 0, y: 0, z: 0 };
    let b = Coord { x: 3, y: 3, z: 3 };
    assert!(!occ.is_occupied(a));
    assert!(!occ.is_occupied(b));
    occ.set(a, 0);
    assert!(occ.is_occupied(a));
    assert!(!occ.is_occupied(b));
    occ.set(b, 1);
    assert!(occ.is_occupied(b));
}

#[test]
fn frontier_marking_is_monotonic() {
    let mut fr = FrontierGrid::new(4);
    let c = Coord { x: 1, y: 2, z: 3 };
    assert_eq!(fr.get(c), CellState::Empty);
    // Empty cells become frontier.
    fr.mark_frontier(c);
    assert_eq!(fr.get(c), CellState::Frontier);
    // Filling wins over frontier, and later frontier marks cannot revert it.
    fr.mark_filled(c);
    assert_eq!(fr.get(c), CellState::Filled);
    fr.mark_frontier(c);
    assert_eq!(fr.get(c), CellState::Filled);
}

#[test]
fn collect_frontier_lists_exactly_the_frontier_cells() {
    let mut fr = FrontierGrid::new(3);
    let a = Coord { x: 0, y: 1, z: 2 };
    let b = Coord { x: 2, y: 0, z: 0 };
    let filled = Coord { x: 1, y: 1, z: 1 };
    fr.mark_frontier(a);
    fr.mark_frontier(b);
    fr.mark_filled(filled);
    let cands = fr.collect_frontier();
    assert_eq!(cands.len(), 2);
    assert!(cands.contains(&a));
    assert!(cands.contains(&b));
    assert!(!cands.contains(&filled));
}

#[test]
fn collect_frontier_order_is_stable() {
    // The scan order is fixed, so two collections of the same grid agree,
    // and cells come out in axis order.
    let mut fr = FrontierGrid::new(3);
    let cells = [
        Coord { x: 2, y: 2, z: 2 },
        Coord { x: 0, y: 0, z: 1 },
        Coord { x: 1, y: 0, z: 0 },
        Coord { x: 0, y: 2, z: 0 },
    ];
    for c in cells {
        fr.mark_frontier(c);
    }
    let first = fr.collect_frontier();
    let second = fr.collect_frontier();
    assert_eq!(first, second);
    assert_eq!(
        first,
        vec![
            Coord { x: 0, y: 0, z: 1 },
            Coord { x: 0, y: 2, z: 0 },
            Coord { x: 1, y: 0, z: 0 },
            Coord { x: 2, y: 2, z: 2 },
        ]
    );
}
