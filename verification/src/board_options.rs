//! Host-supplied configuration, consumed once when a board is created.

use vstd::prelude::*;

verus! {

/// Requested tile edge length, in host units.
#[derive(Debug, Clone, Copy)]
pub enum TileSize {
    /// A fixed edge length.
    Fixed(u32),
    /// Resolved against the hosting window: the largest edge at which the
    /// whole grid fits, clamped into `[min, max]`.
    Adaptative { min: u32, max: u32 },
}

/// Where the board rectangle is placed in the hosting window.
#[derive(Debug, Clone, Copy)]
pub enum BoardPosition {
    /// Centered on the window origin, shifted by `offset`.
    Centered { offset: (i32, i32) },
    /// At an explicit position.
    Custom((i32, i32)),
}

/// Configuration for one board round.
#[derive(Debug, Clone, Copy)]
pub struct BoardOptions {
    /// Grid dimensions: (columns, rows).
    pub map_size: (u16, u16),
    /// How many mines to place.
    pub bomb_count: u16,
    /// Board placement.
    pub position: BoardPosition,
    /// Tile edge length.
    pub tile_size: TileSize,
    /// Gap left between tiles by the renderer; not read by the board
    /// logic.
    pub tile_padding: u32,
    /// Whether generation immediately schedules one empty tile (if any)
    /// for uncovering, so the first reveal is never a mine report.
    pub safe_start: bool,
}

impl BoardOptions {
    /// The requested tile size resolves to a positive edge length.
    pub open spec fn tile_size_wf(self) -> bool {
        match self.tile_size {
            TileSize::Fixed(v) => v > 0,
            TileSize::Adaptative { min, max } => 0 < min <= max,
        }
    }
}

impl Default for BoardOptions {
    /// A 15 x 15 board with 30 mines, centered, adaptive tile size, no
    /// padding and no safe start.
    fn default() -> (r: Self)
        ensures
            r.map_size == (15u16, 15u16),
            r.bomb_count == 30u16,
            r.position == (BoardPosition::Centered { offset: (0i32, 0i32) }),
            r.tile_size == (TileSize::Adaptative { min: 10u32, max: 50u32 }),
            r.tile_padding == 0u32,
            r.safe_start == false,
            r.tile_size_wf(),
    {
        BoardOptions {
            map_size: (15, 15),
            bomb_count: 30,
            position: BoardPosition::Centered { offset: (0, 0) },
            tile_size: TileSize::Adaptative { min: 10, max: 50 },
            tile_padding: 0,
            safe_start: false,
        }
    }
}

} // verus!
