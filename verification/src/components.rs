//! Plain marker components: grid positions and the per-tile markers that a
//! reveal reports to its consumer.

use vstd::prelude::*;

verus! {

/// A grid position: the unique (x, y) key of one tile.
///
/// The valid range for a grid of `width` columns and `height` rows is
/// `[0, width) x [0, height)`.
#[derive(Debug, Clone, Copy, PartialEq, Eq, Hash, Structural)]
pub struct Coordinates {
    pub x: u16,
    pub y: u16,
}

/// Marker for a mined tile.
#[derive(Debug, Clone, Copy, PartialEq, Eq, PartialOrd, Ord, Hash, Structural)]
pub struct Bomb;

/// Marker for a tile adjacent to at least one mined tile, carrying the
/// count of mined tiles among its in-bounds neighbors.
#[derive(Debug, Clone, Copy, PartialEq, Eq, Hash, Structural)]
pub struct BombNeighbor {
    pub count: u8,
}

} // verus!
