//! Procedural generation of a connected, non-overlapping set of rooms inside
//! a fixed-size cubic voxel grid.

mod catalog;
mod coords;
mod generator;
mod grids;
mod rng;
mod rooms;

pub use catalog::{
    all_cells_in_bounds, cell_at, footprint_offsets, frontier_offsets, off_view, room_cells,
    room_frontier, room_type_from_index, spec_footprint_offsets, spec_frontier_offsets,
    spec_room_type_from_index, RoomType,
};
pub use coords::{coords_contain, in_bounds, lex_lt, Coord};
pub use generator::{
    connected_to_earlier, dungeon_ok, generate, seed_anchor, valid_params, RETRY_LIMIT,
};
pub use grids::{CellState, FrontierGrid, OccupancyGrid};
pub use rooms::{footprint_cells, GenerationError, Room, TAG_END, TAG_INTERIOR, TAG_SEED};
