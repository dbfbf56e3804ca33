//! Runtime board state: the generated grid, its placement bounds, and the
//! covered-tiles mapping, with hit-testing and uncover transactions.

use vstd::prelude::*;
use vstd::arithmetic::div_mod::{lemma_fundamental_div_mod_converse, lemma_multiply_divide_lt};
use vstd::arithmetic::mul::{lemma_mul_inequality, lemma_mul_is_commutative};
use crate::board_options::{BoardOptions, BoardPosition, TileSize};
use crate::bounds::Bounds2;
use crate::components::Coordinates;
use crate::tile_map::{flat_index, lemma_flat_index_bound, safe_neighbors, TileMap};

verus! {

/// Why a board could not be created from its configuration.
#[derive(Debug, Clone, Copy, PartialEq, Eq, Structural)]
pub enum BoardError {
    /// The requested grid has zero width or zero height.
    ZeroSize,
    /// More mines were requested than the grid has cells.
    TooManyBombs,
}

/// Number of covered entries among the first `n` cells.
pub open spec fn count_covered_prefix(s: Seq<Option<u64>>, n: int) -> int
    decreases n,
{
    if n <= 0 {
        0
    } else {
        count_covered_prefix(s, n - 1) + if s[n - 1] is Some {
            1int
        } else {
            0int
        }
    }
}

pub proof fn lemma_count_covered_nonneg(s: Seq<Option<u64>>, n: int)
    ensures
        0 <= count_covered_prefix(s, n) <= vstd::math::max(n, 0),
    decreases n,
{
    if n > 0 {
        lemma_count_covered_nonneg(s, n - 1);
    }
}

/// Emptying one covered cell lowers the count by one; rewriting an
/// uncovered cell with `None` changes nothing.
pub proof fn lemma_count_covered_update_none(s: Seq<Option<u64>>, i: int, n: int)
    requires
        0 <= i < s.len(),
        n <= s.len(),
    ensures
        count_covered_prefix(s.update(i, Option::<u64>::None), n) == count_covered_prefix(s, n)
            - if i < n && s[i] is Some {
            1int
        } else {
            0int
        },
    decreases n,
{
    if n > 0 {
        lemma_count_covered_update_none(s, i, n - 1);
    }
}

/// A prefix of all-covered cells counts its own length.
pub proof fn lemma_count_covered_full(s: Seq<Option<u64>>, n: int)
    requires
        forall|i: int| 0 <= i < n ==> (#[trigger] s[i]) is Some,
    ensures
        count_covered_prefix(s, n) == vstd::math::max(n, 0),
    decreases n,
{
    if n > 0 {
        lemma_count_covered_full(s, n - 1);
    }
}

/// One game round's state: the generated grid, its placement in the
/// hosting window, the tile edge length, and the covered-tiles mapping
/// from coordinate to the host's opaque visual handle. The mapping only
/// ever shrinks: once a coordinate's entry is removed it is never put
/// back.
#[derive(Debug)]
pub struct Board {
    pub tile_map: TileMap,
    pub bounds: Bounds2,
    pub tile_size: u32,
    pub covered_tiles: Vec<Option<u64>>,
}

impl Board {
    /// The covered-tiles mapping as a row-major sequence: `Some(handle)`
    /// while the cell is covered.
    pub open spec fn covered(self) -> Seq<Option<u64>> {
        self.covered_tiles@
    }

    pub open spec fn wf(self) -> bool {
        &&& self.tile_map.inv()
        &&& self.covered().len() == self.tile_map.grid().len()
        &&& self.bounds.wf()
        &&& self.tile_size > 0
        &&& self.bounds.size.0 == self.tile_map.spec_width() * self.tile_size
        &&& self.bounds.size.1 == self.tile_map.spec_height() * self.tile_size
    }

    pub open spec fn valid_coord(self, c: Coordinates) -> bool {
        self.tile_map.valid_coord(c)
    }

    pub open spec fn covered_at(self, c: Coordinates) -> Option<u64> {
        self.covered()[flat_index(self.tile_map.spec_width(), c)]
    }

    pub open spec fn is_covered(self, c: Coordinates) -> bool {
        self.valid_coord(c) && self.covered_at(c) is Some
    }

    /// What a covered-tile lookup returns: the handle while covered,
    /// nothing for an uncovered or out-of-range coordinate.
    pub open spec fn covered_lookup(self, c: Coordinates) -> Option<u64> {
        if self.valid_coord(c) {
            self.covered_at(c)
        } else {
            Option::<u64>::None
        }
    }

    /// The covered sequence after one uncover of `c`: the entry is
    /// removed if present, nothing else changes.
    pub open spec fn covered_after_uncover(self, c: Coordinates) -> Seq<Option<u64>> {
        if self.is_covered(c) {
            self.covered().update(flat_index(self.tile_map.spec_width(), c), Option::<u64>::None)
        } else {
            self.covered()
        }
    }

    /// How many tiles are still covered.
    pub open spec fn spec_covered_count(self) -> int {
        count_covered_prefix(self.covered(), self.covered().len() as int)
    }

    /// Read-only lookup of a covered tile's handle; no mutation.
    pub fn tile_to_uncover(&self, coords: &Coordinates) -> (r: Option<u64>)
        requires
            self.wf(),
        ensures
            r == self.covered_lookup(*coords),
    {
        let w = self.tile_map.width();
        let h = self.tile_map.height();
        if coords.x < w && coords.y < h {
            proof {
                lemma_flat_index_bound(w, h, *coords);
            }
            let idx: usize = (coords.y as usize) * (w as usize) + (coords.x as usize);
            self.covered_tiles[idx]
        } else {
            None
        }
    }

    /// Remove and return the covered entry for `coords`. Returns `None`
    /// if the coordinate was already uncovered, never covered, or out of
    /// range: a safe no-op, not an error. Idempotent: a second call with
    /// the same coordinate returns `None` and changes nothing.
    pub fn try_uncover_tile(&mut self, coords: &Coordinates) -> (r: Option<u64>)
        requires
            old(self).wf(),
        ensures
            final(self).wf(),
            final(self).tile_map == old(self).tile_map,
            final(self).bounds == old(self).bounds,
            final(self).tile_size == old(self).tile_size,
            r == old(self).covered_lookup(*coords),
            final(self).covered() == old(self).covered_after_uncover(*coords),
            final(self).spec_covered_count() == old(self).spec_covered_count() - if old(
                self,
            ).is_covered(*coords) {
                1int
            } else {
                0int
            },
    {
        let w = self.tile_map.width();
        let h = self.tile_map.height();
        if coords.x < w && coords.y < h {
            proof {
                lemma_flat_index_bound(w, h, *coords);
                lemma_count_covered_update_none(
                    self.covered(),
                    flat_index(w, *coords),
                    self.covered().len() as int,
                );
            }
            let idx: usize = (coords.y as usize) * (w as usize) + (coords.x as usize);
            let cur = self.covered_tiles[idx];
            if cur.is_some() {
                self.covered_tiles[idx] = None;
            }
            cur
        } else {
            None
        }
    }

    /// The still-covered in-bounds neighbors of `coord`, each with its
    /// handle; exactly the tiles a cascade from `coord` must schedule.
    #[verifier::rlimit(60)]
    pub fn adjacent_covered_tiles(&self, coord: Coordinates) -> (v: Vec<(Coordinates, u64)>)
        requires
            self.wf(),
            self.valid_coord(coord),
        ensures
            v@.len() <= 8,
            forall|t: int|
                0 <= t < v@.len() ==> {
                    &&& safe_neighbors(
                        self.tile_map.spec_width(),
                        self.tile_map.spec_height(),
                        coord,
                    ).contains((#[trigger] v@[t]).0)
                    &&& self.is_covered(v@[t].0)
                    &&& self.covered_at(v@[t].0) == Some(v@[t].1)
                },
            forall|k: int|
                0 <= k < safe_neighbors(
                    self.tile_map.spec_width(),
                    self.tile_map.spec_height(),
                    coord,
                ).len() && self.is_covered(
                    #[trigger] safe_neighbors(
                        self.tile_map.spec_width(),
                        self.tile_map.spec_height(),
                        coord,
                    )[k],
                ) ==> exists|t: int|
                    0 <= t < v@.len() && (#[trigger] v@[t]).0 == safe_neighbors(
                        self.tile_map.spec_width(),
                        self.tile_map.spec_height(),
                        coord,
                    )[k],
            // each covered neighbor is listed at most once
            forall|t1: int, t2: int|
                0 <= t1 < t2 < v@.len() ==> (#[trigger] v@[t1]).0 != (#[trigger] v@[t2]).0,
    {
        let ghost w = self.tile_map.spec_width();
        let ghost h = self.tile_map.spec_height();
        let neighbors = self.tile_map.safe_square_at(coord);
        proof {
            crate::tile_map::lemma_safe_neighbors_props(w, h, coord);
        }
        let mut v: Vec<(Coordinates, u64)> = Vec::new();
        let mut i: usize = 0;
        while i < neighbors.len()
            invariant
                self.wf(),
                neighbors@ == safe_neighbors(w, h, coord),
                forall|k1: int, k2: int|
                    0 <= k1 < k2 < neighbors@.len() ==> neighbors@[k1] != neighbors@[k2],
                i <= neighbors@.len(),
                neighbors@.len() <= 8,
                v@.len() <= i,
                forall|t: int|
                    0 <= t < v@.len() ==> exists|k: int|
                        0 <= k < i && (#[trigger] v@[t]).0 == neighbors@[k],
                forall|t1: int, t2: int|
                    0 <= t1 < t2 < v@.len() ==> (#[trigger] v@[t1]).0 != (#[trigger] v@[t2]).0,
                forall|t: int|
                    0 <= t < v@.len() ==> {
                        &&& safe_neighbors(w, h, coord).contains((#[trigger] v@[t]).0)
                        &&& self.is_covered(v@[t].0)
                        &&& self.covered_at(v@[t].0) == Some(v@[t].1)
                    },
                forall|k: int|
                    0 <= k < i && self.is_covered(#[trigger] neighbors@[k]) ==> exists|t: int|
                        0 <= t < v@.len() && (#[trigger] v@[t]).0 == neighbors@[k],
            decreases neighbors@.len() - i,
        {
            let c = neighbors[i];
            let ghost pre = v@;
            if let Some(handle) = self.tile_to_uncover(&c) {
                v.push((c, handle));
                proof {
                    assert(neighbors@.contains(c)) by {
                        assert(neighbors@[i as int] == c);
                    }
                    assert((v@[v@.len() - 1]).0 == c);
                    assert forall|k: int|
                        0 <= k < i + 1 && self.is_covered(neighbors@[k]) implies exists|t: int|
                        0 <= t < v@.len() && (#[trigger] v@[t]).0 == neighbors@[k] by {
                        if k < i {
                            let t = choose|t: int|
                                0 <= t < pre.len() && (#[trigger] pre[t]).0 == neighbors@[k];
                            assert(v@[t] == pre[t]);
                        } else {
                            assert((v@[v@.len() - 1]).0 == neighbors@[k]);
                        }
                    }
                    assert forall|t: int| 0 <= t < v@.len() implies exists|k: int|
                        0 <= k < i + 1 && (#[trigger] v@[t]).0 == neighbors@[k] by {
                        if t < pre.len() {
                            assert(v@[t] == pre[t]);
                            let k = choose|k: int|
                                0 <= k < i && (#[trigger] pre[t]).0 == neighbors@[k];
                            assert(v@[t].0 == neighbors@[k]);
                        } else {
                            assert(v@[t].0 == neighbors@[i as int]);
                        }
                    }
                    assert forall|t1: int, t2: int|
                        0 <= t1 < t2 < v@.len() implies (#[trigger] v@[t1]).0 != (
                    #[trigger] v@[t2]).0 by {
                        if t2 < pre.len() {
                            assert(v@[t1] == pre[t1]);
                            assert(v@[t2] == pre[t2]);
                        } else {
                            // the new entry is neighbor `i`; every earlier
                            // entry is an earlier neighbor, and the
                            // enumeration is duplicate-free
                            assert(v@[t1] == pre[t1]);
                            let k = choose|k: int|
                                0 <= k < i && (#[trigger] pre[t1]).0 == neighbors@[k];
                            assert(v@[t2].0 == neighbors@[i as int]);
                            assert(neighbors@[k] != neighbors@[i as int]);
                        }
                    }
                }
            }
            i = i + 1;
        }
        v
    }

    /// How many tiles are still covered.
    pub fn covered_count(&self) -> (n: usize)
        ensures
            n == self.spec_covered_count(),
    {
        let mut n: usize = 0;
        let mut i: usize = 0;
        proof {
            lemma_count_covered_nonneg(self.covered(), self.covered().len() as int);
        }
        while i < self.covered_tiles.len()
            invariant
                i <= self.covered().len(),
                n == count_covered_prefix(self.covered(), i as int),
                n <= i,
            decreases self.covered().len() - i,
        {
            if self.covered_tiles[i].is_some() {
                n = n + 1;
            }
            i = i + 1;
        }
        n
    }

    /// Where `locate` sends a board-space point: nothing when the point
    /// misses the board's bounds; otherwise the coordinate found by
    /// integer division of the (non-negative) offset by the tile size.
    pub open spec fn spec_locate(self, x: int, y: int) -> Option<Coordinates> {
        if !self.bounds.spec_in_bounds(x, y) {
            Option::<Coordinates>::None
        } else {
            Some(
                Coordinates {
                    x: ((x - self.bounds.position.0) / (self.tile_size as int)) as u16,
                    y: ((y - self.bounds.position.1) / (self.tile_size as int)) as u16,
                },
            )
        }
    }

    /// Translate a window-space pointer position into a grid coordinate.
    /// The position is first shifted so the window center becomes the
    /// origin, then tested against the board's bounds: a miss returns
    /// `None`, a hit divides the board-local offset by the tile size.
    /// No side effects.
    pub fn mouse_position(
        &self,
        window_width: u32,
        window_height: u32,
        px: i32,
        py: i32,
    ) -> (r: Option<Coordinates>)
        requires
            self.wf(),
        ensures
            r == self.spec_locate(
                px - window_width as int / 2,
                py - window_height as int / 2,
            ),
            (r is None) <==> !self.bounds.spec_in_bounds(
                px - window_width as int / 2,
                py - window_height as int / 2,
            ),
            r matches Some(c) ==> self.valid_coord(c),
    {
        let cx: i64 = (px as i64) - ((window_width / 2) as i64);
        let cy: i64 = (py as i64) - ((window_height / 2) as i64);
        if !self.bounds.in_bounds(cx, cy) {
            return None;
        }
        let ts: u64 = self.tile_size as u64;
        let ox: u64 = (cx - self.bounds.position.0) as u64;
        let oy: u64 = (cy - self.bounds.position.1) as u64;
        let qx: u64 = ox / ts;
        let qy: u64 = oy / ts;
        proof {
            let w = self.tile_map.spec_width() as int;
            let h = self.tile_map.spec_height() as int;
            let t = ts as int;
            assert(ox as int == cx - self.bounds.position.0);
            assert(oy as int == cy - self.bounds.position.1);
            lemma_mul_is_commutative(w, t);
            lemma_mul_is_commutative(h, t);
            lemma_multiply_divide_lt(ox as int, t, w);
            lemma_multiply_divide_lt(oy as int, t, h);
        }
        Some(Coordinates { x: qx as u16, y: qy as u16 })
    }
}

/// The largest tile edge at which the whole grid fits the window, clamped
/// into `[min, max]`.
pub open spec fn adaptative_size_spec(
    window_width: u32,
    window_height: u32,
    min: u32,
    max: u32,
    width: u16,
    height: u16,
) -> int {
    let fit_w = window_width as int / width as int;
    let fit_h = window_height as int / height as int;
    let fit = if fit_w < fit_h {
        fit_w
    } else {
        fit_h
    };
    if fit < min {
        min as int
    } else if fit > max {
        max as int
    } else {
        fit
    }
}

/// Resolve an adaptive tile size against the hosting window: the largest
/// edge at which the whole grid fits, clamped into `[min, max]`.
pub fn adaptative_tile_size(
    window_width: u32,
    window_height: u32,
    min: u32,
    max: u32,
    width: u16,
    height: u16,
) -> (r: u32)
    requires
        width > 0,
        height > 0,
        0 < min <= max,
    ensures
        r == adaptative_size_spec(window_width, window_height, min, max, width, height),
        min <= r <= max,
{
    let max_width = window_width / (width as u32);
    let max_height = window_height / (height as u32);
    let fit = if max_width < max_height {
        max_width
    } else {
        max_height
    };
    if fit < min {
        min
    } else if fit > max {
        max
    } else {
        fit
    }
}

/// The tile edge length a configuration resolves to against a window.
pub open spec fn resolved_tile_size(
    options: BoardOptions,
    window_width: u32,
    window_height: u32,
) -> int {
    match options.tile_size {
        TileSize::Fixed(v) => v as int,
        TileSize::Adaptative { min, max } => adaptative_size_spec(
            window_width,
            window_height,
            min,
            max,
            options.map_size.0,
            options.map_size.1,
        ),
    }
}

/// Create the board for one round: generate the grid (mines placed
/// uniformly at random, then neighbor counts), resolve the tile size,
/// place the board rectangle, and cover every tile, the handle of cell
/// `(x, y)` being its row-major position. Configuration errors are
/// surfaced before any board is produced, never clamped.
///
/// The second component of the result is the safe-start coordinate: when
/// the configuration asks for a safe start and the grid has an `Empty`
/// tile, one such tile, to be scheduled for uncovering before any
/// external trigger; it is never a mine.
pub fn create_board(
    options: &BoardOptions,
    window_width: u32,
    window_height: u32,
) -> (r: Result<(Board, Option<Coordinates>), BoardError>)
    requires
        options.tile_size_wf(),
    ensures
        (r matches Err(e) && e == BoardError::ZeroSize) <==> (options.map_size.0 == 0
            || options.map_size.1 == 0),
        (r matches Err(e) && e == BoardError::TooManyBombs) <==> (options.map_size.0 > 0
            && options.map_size.1 > 0 && options.bomb_count > options.map_size.0
            * options.map_size.1),
        r matches Ok(pair) ==> {
            let b = pair.0;
            let safe = pair.1;
            &&& b.wf()
            &&& b.tile_map.spec_width() == options.map_size.0
            &&& b.tile_map.spec_height() == options.map_size.1
            &&& b.tile_map.spec_bomb_count() == options.bomb_count
            &&& b.tile_size == resolved_tile_size(*options, window_width, window_height)
            &&& (b.bounds.position.0 == match options.position {
                BoardPosition::Centered { offset } => -(b.bounds.size.0 as int / 2) + offset.0,
                BoardPosition::Custom(p) => p.0 as int,
            })
            &&& (b.bounds.position.1 == match options.position {
                BoardPosition::Centered { offset } => -(b.bounds.size.1 as int / 2) + offset.1,
                BoardPosition::Custom(p) => p.1 as int,
            })
            &&& forall|i: int| 0 <= i < b.covered().len() ==> b.covered()[i] == Some(i as u64)
            &&& b.spec_covered_count() == options.map_size.0 * options.map_size.1
            &&& ((safe is Some) <==> (options.safe_start && exists|c: Coordinates|
                b.valid_coord(c) && (#[trigger] b.tile_map.tile_at(c)) is Empty))
            &&& (safe matches Some(c) ==> b.valid_coord(c) && b.tile_map.tile_at(c) is Empty
                && !(b.tile_map.tile_at(c) is Bomb) && b.is_covered(c))
        },
{
    let w = options.map_size.0;
    let h = options.map_size.1;
    if w == 0 || h == 0 {
        return Err(BoardError::ZeroSize);
    }
    assert(w * h <= 0xffff_ffff) by (nonlinear_arith)
        requires
            w <= 0xffff,
            h <= 0xffff,
    ;
    let cells: u64 = (w as u64) * (h as u64);
    if (options.bomb_count as u64) > cells {
        return Err(BoardError::TooManyBombs);
    }
    let mut tile_map = TileMap::empty(w, h);
    tile_map.set_bombs(options.bomb_count);
    let ts: u32 = match options.tile_size {
        TileSize::Fixed(v) => v,
        TileSize::Adaptative { min, max } => adaptative_tile_size(
            window_width,
            window_height,
            min,
            max,
            w,
            h,
        ),
    };
    assert(w * ts < 0x1_0000_0000_0000 && h * ts < 0x1_0000_0000_0000) by (nonlinear_arith)
        requires
            w <= 0xffff,
            h <= 0xffff,
            ts <= 0xffff_ffff,
    ;
    let bw: u64 = (w as u64) * (ts as u64);
    let bh: u64 = (h as u64) * (ts as u64);
    let (pos_x, pos_y): (i64, i64) = match options.position {
        BoardPosition::Centered { offset } => (
            -((bw / 2) as i64) + (offset.0 as i64),
            -((bh / 2) as i64) + (offset.1 as i64),
        ),
        BoardPosition::Custom(p) => ((p.0 as i64), (p.1 as i64)),
    };
    let bounds = Bounds2 { position: (pos_x, pos_y), size: (bw, bh) };
    let n: usize = (w as usize) * (h as usize);
    let mut covered_tiles: Vec<Option<u64>> = Vec::new();
    let mut i: usize = 0;
    while i < n
        invariant
            i <= n,
            n <= 0xffff_ffff,
            covered_tiles@.len() == i,
            forall|k: int| 0 <= k < i ==> covered_tiles@[k] == Some(k as u64),
        decreases n - i,
    {
        covered_tiles.push(Some(i as u64));
        i = i + 1;
    }
    let safe = if options.safe_start {
        tile_map.first_empty_tile()
    } else {
        None
    };
    let board = Board { tile_map, bounds, tile_size: ts, covered_tiles };
    proof {
        lemma_count_covered_full(board.covered(), board.covered().len() as int);
        if safe is Some {
            lemma_flat_index_bound(w, h, safe->Some_0);
        }
    }
    Ok((board, safe))
}

/// Law: any two pointer positions inside the rectangle of one tile cell
/// are mapped to that same cell, so `locate` cannot split a cell.
pub proof fn lemma_locate_same_cell(b: Board, c: Coordinates, x: int, y: int)
    requires
        b.wf(),
        b.valid_coord(c),
        b.bounds.position.0 + c.x * b.tile_size <= x < b.bounds.position.0 + (c.x + 1)
            * b.tile_size,
        b.bounds.position.1 + c.y * b.tile_size <= y < b.bounds.position.1 + (c.y + 1)
            * b.tile_size,
    ensures
        b.spec_locate(x, y) == Some(c),
{
    let ts = b.tile_size as int;
    let w = b.tile_map.spec_width() as int;
    let h = b.tile_map.spec_height() as int;
    lemma_mul_inequality(c.x + 1, w, ts);
    lemma_mul_inequality(c.y + 1, h, ts);
    assert(c.x * ts >= 0) by (nonlinear_arith)
        requires
            c.x >= 0,
            ts >= 0,
    ;
    assert(c.y * ts >= 0) by (nonlinear_arith)
        requires
            c.y >= 0,
            ts >= 0,
    ;
    assert((c.x + 1) * ts == c.x * ts + ts) by (nonlinear_arith);
    assert((c.y + 1) * ts == c.y * ts + ts) by (nonlinear_arith);
    assert(b.bounds.spec_in_bounds(x, y));
    let ox = x - b.bounds.position.0;
    let oy = y - b.bounds.position.1;
    lemma_fundamental_div_mod_converse(ox, ts, c.x as int, ox - c.x * ts);
    lemma_fundamental_div_mod_converse(oy, ts, c.y as int, oy - c.y * ts);
}

/// Law: uncovering is idempotent. After one uncover of `c` the covered
/// mapping no longer holds `c`, so a second uncover of `c` returns
/// nothing and leaves the mapping exactly as it is.
pub proof fn lemma_try_uncover_idempotent(before: Board, after: Board, c: Coordinates)
    requires
        before.wf(),
        after.tile_map == before.tile_map,
        after.covered() == before.covered_after_uncover(c),
    ensures
        after.covered_lookup(c) is None,
        after.covered_after_uncover(c) == after.covered(),
{
    if before.is_covered(c) {
        lemma_flat_index_bound(
            before.tile_map.spec_width(),
            before.tile_map.spec_height(),
            c,
        );
    }
}

} // verus!
