//! The fixed content of one grid cell.

use vstd::prelude::*;
use crate::components::{Bomb, BombNeighbor};

verus! {

/// Content of a cell, immutable once the grid is generated: a mine, a count
/// of adjacent mines in `[1, 8]`, or nothing.
#[derive(Debug, Clone, Copy, PartialEq, Eq, Structural)]
pub enum Tile {
    /// No mine here and no mine on any in-bounds neighbor.
    Empty,
    /// A mine.
    Bomb,
    /// No mine here, but `n` mines among the in-bounds neighbors, `n > 0`.
    BombNeighbor(u8),
}

/// The character the diagnostic dump prints for one tile: `*` for a
/// mine, the digit for a neighbor count, a blank for an empty tile.
pub open spec fn tile_char(t: Tile) -> char {
    match t {
        Tile::Empty => ' ',
        Tile::Bomb => '*',
        Tile::BombNeighbor(n) => match n {
            1u8 => '1',
            2u8 => '2',
            3u8 => '3',
            4u8 => '4',
            5u8 => '5',
            6u8 => '6',
            7u8 => '7',
            8u8 => '8',
            _ => '?',
        },
    }
}

impl Tile {
    /// The marker a reveal of this tile reports when the tile is mined.
    pub fn bomb_marker(&self) -> (r: Option<Bomb>)
        ensures
            r == (if *self is Bomb { Some(Bomb) } else { Option::<Bomb>::None }),
    {
        match self {
            Tile::Bomb => Some(Bomb),
            _ => None,
        }
    }

    /// The marker a reveal of this tile reports when the tile carries a
    /// neighbor count.
    pub fn neighbor_marker(&self) -> (r: Option<BombNeighbor>)
        ensures
            r == (match *self {
                Tile::BombNeighbor(n) => Some(BombNeighbor { count: n }),
                _ => Option::<BombNeighbor>::None,
            }),
    {
        match self {
            Tile::BombNeighbor(n) => Some(BombNeighbor { count: *n }),
            _ => None,
        }
    }

    /// The dump character for this tile, as a one-character string.
    pub fn console_str(&self) -> (r: &'static str)
        ensures
            r@ == seq![tile_char(*self)],
    {
        match self {
            Tile::Empty => {
                proof {
                    reveal_strlit(" ");
                }
                " "
            }
            Tile::Bomb => {
                proof {
                    reveal_strlit("*");
                }
                "*"
            }
            Tile::BombNeighbor(n) => match n {
                1u8 => {
                    proof {
                        reveal_strlit("1");
                    }
                    "1"
                }
                2u8 => {
                    proof {
                        reveal_strlit("2");
                    }
                    "2"
                }
                3u8 => {
                    proof {
                        reveal_strlit("3");
                    }
                    "3"
                }
                4u8 => {
                    proof {
                        reveal_strlit("4");
                    }
                    "4"
                }
                5u8 => {
                    proof {
                        reveal_strlit("5");
                    }
                    "5"
                }
                6u8 => {
                    proof {
                        reveal_strlit("6");
                    }
                    "6"
                }
                7u8 => {
                    proof {
                        reveal_strlit("7");
                    }
                    "7"
                }
                8u8 => {
                    proof {
                        reveal_strlit("8");
                    }
                    "8"
                }
                _ => {
                    proof {
                        reveal_strlit("?");
                    }
                    "?"
                }
            },
        }
    }

    pub fn is_bomb(&self) -> (r: bool)
        ensures
            r == (*self is Bomb),
    {
        matches!(self, Tile::Bomb)
    }
}

} // verus!
