//! Minesweeper board engine: grid generation with mine placement and
//! neighbor counting, covered/uncovered state tracking, flood-fill reveal,
//! and pointer hit-testing.

pub mod board;
pub mod board_options;
pub mod bounds;
pub mod components;
pub mod tile;
pub mod tile_map;
pub mod uncover;

pub use board::{adaptative_tile_size, create_board, Board, BoardError};
pub use board_options::{BoardOptions, BoardPosition, TileSize};
pub use bounds::Bounds2;
pub use components::{Bomb, BombNeighbor, Coordinates};
pub use tile::Tile;
pub use tile_map::TileMap;
pub use uncover::{
    resolve_pending, trigger_event_handler, uncover_tiles, RevealOutcome, TileTriggerEvent,
};
