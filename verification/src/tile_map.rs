//! The generated grid of tiles: mine placement, neighbor counting, and the
//! in-bounds neighbor enumeration shared by generation and cascades.

use vstd::prelude::*;
use vstd::string::StringExecFns;
use crate::components::Coordinates;
use crate::tile::Tile;

verus! {

/// Row-major position of a coordinate in a grid of `width` columns.
pub open spec fn flat_index(width: u16, c: Coordinates) -> int {
    c.y * width + c.x
}

/// Whether a coordinate lies in `[0, width) x [0, height)`.
pub open spec fn coord_in_grid(width: u16, height: u16, c: Coordinates) -> bool {
    c.x < width && c.y < height
}

pub proof fn lemma_flat_index_bound(width: u16, height: u16, c: Coordinates)
    requires
        coord_in_grid(width, height, c),
    ensures
        0 <= flat_index(width, c) < width * height,
        flat_index(width, c) < 0xffff_ffff,
{
    assert(c.y * width + c.x < width * height && width * height <= 0xffff_ffff) by (nonlinear_arith)
        requires
            c.x < width,
            c.y < height,
            width <= 0xffff,
            height <= 0xffff,
    ;
}

pub proof fn lemma_flat_index_injective(width: u16, height: u16, a: Coordinates, b: Coordinates)
    requires
        coord_in_grid(width, height, a),
        coord_in_grid(width, height, b),
        flat_index(width, a) == flat_index(width, b),
    ensures
        a == b,
{
    assert(a.x == b.x && a.y == b.y) by (nonlinear_arith)
        requires
            a.x < width,
            b.x < width,
            a.y * width + a.x == b.y * width + b.x,
    ;
}

/// Number of mined cells among the first `n` cells of a grid.
pub open spec fn bombs_in_prefix(g: Seq<Tile>, n: int) -> int
    decreases n,
{
    if n <= 0 {
        0
    } else {
        bombs_in_prefix(g, n - 1) + if g[n - 1] is Bomb {
            1int
        } else {
            0int
        }
    }
}

/// Number of mined cells of a grid.
pub open spec fn total_bombs(g: Seq<Tile>) -> int {
    bombs_in_prefix(g, g.len() as int)
}

/// Rewriting one cell changes a prefix count by the difference of the old
/// and new cell, when the cell lies in the prefix.
pub proof fn lemma_bombs_in_prefix_update(g: Seq<Tile>, i: int, t: Tile, n: int)
    requires
        0 <= i < g.len(),
        n <= g.len(),
    ensures
        bombs_in_prefix(g.update(i, t), n) == bombs_in_prefix(g, n) + if i < n {
            (if t is Bomb { 1int } else { 0int }) - (if g[i] is Bomb { 1int } else { 0int })
        } else {
            0int
        },
    decreases n,
{
    if n > 0 {
        lemma_bombs_in_prefix_update(g, i, t, n - 1);
    }
}

/// A prefix without mines counts zero.
pub proof fn lemma_bombs_in_prefix_zero(g: Seq<Tile>, n: int)
    requires
        forall|i: int| 0 <= i < n ==> !((#[trigger] g[i]) is Bomb),
    ensures
        bombs_in_prefix(g, n) == 0,
    decreases n,
{
    if n > 0 {
        lemma_bombs_in_prefix_zero(g, n - 1);
    }
}

/// Two grids with mines in the same cells have the same prefix counts.
pub proof fn lemma_bombs_in_prefix_same(g1: Seq<Tile>, g2: Seq<Tile>, n: int)
    requires
        forall|i: int| 0 <= i < n ==> ((#[trigger] g1[i]) is Bomb <==> g2[i] is Bomb),
    ensures
        bombs_in_prefix(g1, n) == bombs_in_prefix(g2, n),
    decreases n,
{
    if n > 0 {
        lemma_bombs_in_prefix_same(g1, g2, n - 1);
    }
}

/// The singleton `[(x, y)]` when that position is on the grid, else empty.
pub open spec fn maybe_coord(width: u16, height: u16, x: int, y: int) -> Seq<Coordinates> {
    if 0 <= x < width && 0 <= y < height {
        seq![Coordinates { x: x as u16, y: y as u16 }]
    } else {
        Seq::empty()
    }
}

/// The in-bounds neighbors of `c`, in a fixed row-by-row order (up to 8,
/// fewer at edges and corners), excluding `c` itself. This single
/// definition fixes the adjacency semantics for generation and cascades.
pub open spec fn safe_neighbors(width: u16, height: u16, c: Coordinates) -> Seq<Coordinates> {
    maybe_coord(width, height, c.x - 1, c.y - 1) + maybe_coord(width, height, c.x as int, c.y - 1)
        + maybe_coord(width, height, c.x + 1, c.y - 1) + maybe_coord(
        width,
        height,
        c.x - 1,
        c.y as int,
    ) + maybe_coord(width, height, c.x + 1, c.y as int) + maybe_coord(
        width,
        height,
        c.x - 1,
        c.y + 1,
    ) + maybe_coord(width, height, c.x as int, c.y + 1) + maybe_coord(
        width,
        height,
        c.x + 1,
        c.y + 1,
    )
}

/// Every enumerated neighbor is on the grid, distinct from the center,
/// no neighbor is enumerated twice, and at most 8 are enumerated.
pub proof fn lemma_safe_neighbors_props(width: u16, height: u16, c: Coordinates)
    requires
        coord_in_grid(width, height, c),
    ensures
        safe_neighbors(width, height, c).len() <= 8,
        forall|i: int|
            0 <= i < safe_neighbors(width, height, c).len() ==> coord_in_grid(
                width,
                height,
                #[trigger] safe_neighbors(width, height, c)[i],
            ) && safe_neighbors(width, height, c)[i] != c,
        forall|i: int, j: int|
            0 <= i < j < safe_neighbors(width, height, c).len() ==> safe_neighbors(
                width,
                height,
                c,
            )[i] != safe_neighbors(width, height, c)[j],
{
}

/// Number of mined cells among the listed coordinates (with multiplicity).
pub open spec fn bombs_at(g: Seq<Tile>, width: u16, cs: Seq<Coordinates>) -> int
    decreases cs.len(),
{
    if cs.len() == 0 {
        0
    } else {
        (if g[flat_index(width, cs[0])] is Bomb {
            1int
        } else {
            0int
        }) + bombs_at(g, width, cs.drop_first())
    }
}

pub proof fn lemma_bombs_at_nonneg(g: Seq<Tile>, width: u16, cs: Seq<Coordinates>)
    ensures
        0 <= bombs_at(g, width, cs) <= cs.len(),
    decreases cs.len(),
{
    if cs.len() > 0 {
        lemma_bombs_at_nonneg(g, width, cs.drop_first());
    }
}

/// Two grids with mines in the same cells agree on any neighbor count.
pub proof fn lemma_bombs_at_same(g1: Seq<Tile>, g2: Seq<Tile>, width: u16, cs: Seq<Coordinates>)
    requires
        forall|i: int| 0 <= i < g1.len() ==> ((#[trigger] g1[i]) is Bomb <==> g2[i] is Bomb),
        forall|i: int|
            0 <= i < cs.len() ==> 0 <= flat_index(width, #[trigger] cs[i]) < g1.len(),
    ensures
        bombs_at(g1, width, cs) == bombs_at(g2, width, cs),
    decreases cs.len(),
{
    if cs.len() > 0 {
        assert(forall|i: int|
            0 <= i < cs.drop_first().len() ==> 0 <= flat_index(width, #[trigger] cs.drop_first()[i])
                < g1.len());
        lemma_bombs_at_same(g1, g2, width, cs.drop_first());
    }
}

/// Every neighbor's flat position lies inside a grid of `width * height`
/// cells.
pub proof fn lemma_neighbors_flat_bounds(width: u16, height: u16, c: Coordinates)
    requires
        coord_in_grid(width, height, c),
    ensures
        forall|i: int|
            0 <= i < safe_neighbors(width, height, c).len() ==> 0 <= flat_index(
                width,
                #[trigger] safe_neighbors(width, height, c)[i],
            ) < width * height,
{
    lemma_safe_neighbors_props(width, height, c);
    assert forall|i: int| 0 <= i < safe_neighbors(width, height, c).len() implies 0 <= flat_index(
        width,
        #[trigger] safe_neighbors(width, height, c)[i],
    ) < width * height by {
        lemma_flat_index_bound(width, height, safe_neighbors(width, height, c)[i]);
    }
}

/// What the neighbor-counting pass leaves in one cell, as a function of the
/// grid right after mine placement: mines stay, any other cell gets its
/// neighbor count if positive, else stays empty.
spec fn decided_tile(placed: Seq<Tile>, width: u16, height: u16, c: Coordinates) -> Tile {
    if placed[flat_index(width, c)] is Bomb {
        Tile::Bomb
    } else {
        let m = bombs_at(placed, width, safe_neighbors(width, height, c));
        if m > 0 {
            Tile::BombNeighbor(m as u8)
        } else {
            Tile::Empty
        }
    }
}

/// One exchange of the partial shuffle: the cells at `k` and `j` trade
/// places.
pub open spec fn shuffle_swap(cells: Seq<usize>, k: int, j: int) -> Seq<usize> {
    cells.update(k, cells[j]).update(j, cells[k])
}

/// The cell list after the partial shuffle has run from position `k` on:
/// each remaining position trades places with the one its pick selects.
pub open spec fn shuffled_cells(cells: Seq<usize>, picks: Seq<usize>, k: int) -> Seq<usize>
    decreases picks.len() - k,
{
    if k < 0 || k >= picks.len() {
        cells
    } else {
        shuffled_cells(shuffle_swap(cells, k, k + picks[k]), picks, k + 1)
    }
}

/// The distinct cells the picks select for mining: the first
/// `picks.len()` positions of the partially shuffled list of all cell
/// positions.
pub open spec fn chosen_cells(n: int, picks: Seq<usize>) -> Seq<usize> {
    shuffled_cells(Seq::new(n as nat, |i: int| i as usize), picks, 0).subrange(
        0,
        picks.len() as int,
    )
}

/// One row of the diagnostic dump: the characters of row `y`, left to
/// right.
pub open spec fn console_row(tm: TileMap, y: int) -> Seq<char> {
    Seq::new(
        tm.spec_width() as nat,
        |x: int| crate::tile::tile_char(tm.grid()[y * tm.spec_width() + x]),
    )
}

/// The diagnostic dump of the first `y` rows, each ended by a newline.
pub open spec fn console_upto(tm: TileMap, y: int) -> Seq<char>
    decreases y,
{
    if y <= 0 {
        Seq::empty()
    } else {
        console_upto(tm, y - 1) + console_row(tm, y - 1) + seq!['\n']
    }
}

/// The whole diagnostic dump, the `y = 0` row first.
pub open spec fn console_spec(tm: TileMap) -> Seq<char> {
    console_upto(tm, tm.spec_height() as int)
}

/// Relies on rand::thread_rng and rand::Rng::gen_range on the half-open
/// range `0..bound`: the draw lies strictly below the bound, and the range
/// is non-empty so the call does not panic.
#[verifier::external_body]
fn random_below(bound: usize) -> (r: usize)
    requires
        bound > 0,
    ensures
        r < bound,
{
    rand::Rng::gen_range(&mut rand::thread_rng(), 0..bound)
}

/// The generated grid: dimensions, mine count, and one tile per cell in
/// row-major order.
#[derive(Debug)]
pub struct TileMap {
    width: u16,
    height: u16,
    bomb_count: u16,
    map: Vec<Tile>,
}

impl TileMap {
    pub closed spec fn spec_width(self) -> u16 {
        self.width
    }

    pub closed spec fn spec_height(self) -> u16 {
        self.height
    }

    pub closed spec fn spec_bomb_count(self) -> u16 {
        self.bomb_count
    }

    /// The row-major sequence of tiles.
    pub closed spec fn grid(self) -> Seq<Tile> {
        self.map@
    }

    pub open spec fn dims_wf(self) -> bool {
        self.grid().len() == self.spec_width() * self.spec_height()
    }

    pub open spec fn valid_coord(self, c: Coordinates) -> bool {
        coord_in_grid(self.spec_width(), self.spec_height(), c)
    }

    pub open spec fn tile_at(self, c: Coordinates) -> Tile {
        self.grid()[flat_index(self.spec_width(), c)]
    }

    /// Count of mined cells among the in-bounds neighbors of `c`.
    pub open spec fn neighbor_bomb_count(self, c: Coordinates) -> int {
        bombs_at(
            self.grid(),
            self.spec_width(),
            safe_neighbors(self.spec_width(), self.spec_height(), c),
        )
    }

    /// One cell obeys the data-model invariant: a non-mined cell carries
    /// `BombNeighbor(n)` exactly when `n` of its in-bounds neighbors are
    /// mined and `n > 0`, and is `Empty` exactly when none is.
    pub open spec fn tile_ok(self, c: Coordinates) -> bool {
        match self.tile_at(c) {
            Tile::Bomb => true,
            Tile::Empty => self.neighbor_bomb_count(c) == 0,
            Tile::BombNeighbor(n) => 1 <= n <= 8 && n == self.neighbor_bomb_count(c),
        }
    }

    /// The full grid invariant after generation: the mine count is exact
    /// and every cell obeys the data-model invariant.
    pub open spec fn inv(self) -> bool {
        &&& self.dims_wf()
        &&& total_bombs(self.grid()) == self.spec_bomb_count()
        &&& forall|c: Coordinates| self.valid_coord(c) ==> #[trigger] self.tile_ok(c)
    }

    pub fn width(&self) -> (w: u16)
        ensures
            w == self.spec_width(),
    {
        self.width
    }

    pub fn height(&self) -> (h: u16)
        ensures
            h == self.spec_height(),
    {
        self.height
    }

    pub fn bomb_count(&self) -> (n: u16)
        ensures
            n == self.spec_bomb_count(),
    {
        self.bomb_count
    }

    /// A grid of the given dimensions with every cell `Empty` and no mines
    /// recorded yet.
    pub fn empty(width: u16, height: u16) -> (tm: TileMap)
        ensures
            tm.spec_width() == width,
            tm.spec_height() == height,
            tm.spec_bomb_count() == 0,
            tm.dims_wf(),
            forall|i: int| 0 <= i < tm.grid().len() ==> tm.grid()[i] == Tile::Empty,
    {
        assert(width * height <= 0xffff_ffff) by (nonlinear_arith)
            requires
                width <= 0xffff,
                height <= 0xffff,
        ;
        let len: usize = (width as usize) * (height as usize);
        let mut map: Vec<Tile> = Vec::new();
        let mut i: usize = 0;
        while i < len
            invariant
                i <= len,
                map@.len() == i,
                forall|k: int| 0 <= k < i ==> map@[k] == Tile::Empty,
            decreases len - i,
        {
            map.push(Tile::Empty);
            i = i + 1;
        }
        TileMap { width, height, bomb_count: 0, map }
    }

    /// The tile at an in-bounds coordinate.
    pub fn tile(&self, c: Coordinates) -> (t: Tile)
        requires
            self.dims_wf(),
            self.valid_coord(c),
        ensures
            t == self.tile_at(c),
    {
        proof {
            lemma_flat_index_bound(self.width, self.height, c);
        }
        let idx: usize = (c.y as usize) * (self.width as usize) + (c.x as usize);
        self.map[idx]
    }

    /// Whether the tile at an in-bounds coordinate is mined.
    pub fn is_bomb_at(&self, c: Coordinates) -> (r: bool)
        requires
            self.dims_wf(),
            self.valid_coord(c),
        ensures
            r == (self.tile_at(c) is Bomb),
    {
        self.tile(c).is_bomb()
    }

    /// The in-bounds neighbors of `c`, in a fixed row-by-row order: up to
    /// 8 coordinates, fewer at edges and corners, never `c` itself and
    /// never a coordinate off the grid.
    pub fn safe_square_at(&self, c: Coordinates) -> (v: Vec<Coordinates>)
        requires
            self.valid_coord(c),
        ensures
            v@ == safe_neighbors(self.spec_width(), self.spec_height(), c),
            v@.len() <= 8,
            forall|i: int|
                0 <= i < v@.len() ==> self.valid_coord(#[trigger] v@[i]) && v@[i] != c,
    {
        let w = self.width;
        let h = self.height;
        let x = c.x;
        let y = c.y;
        let mut v: Vec<Coordinates> = Vec::new();
        if x > 0 && y > 0 {
            v.push(Coordinates { x: x - 1, y: y - 1 });
        }
        assert(v@ =~= maybe_coord(w, h, x - 1, y - 1));
        if y > 0 {
            v.push(Coordinates { x, y: y - 1 });
        }
        assert(v@ =~= maybe_coord(w, h, x - 1, y - 1) + maybe_coord(w, h, x as int, y - 1));
        if x + 1 < w && y > 0 {
            v.push(Coordinates { x: x + 1, y: y - 1 });
        }
        assert(v@ =~= maybe_coord(w, h, x - 1, y - 1) + maybe_coord(w, h, x as int, y - 1)
            + maybe_coord(w, h, x + 1, y - 1));
        if x > 0 {
            v.push(Coordinates { x: x - 1, y });
        }
        assert(v@ =~= maybe_coord(w, h, x - 1, y - 1) + maybe_coord(w, h, x as int, y - 1)
            + maybe_coord(w, h, x + 1, y - 1) + maybe_coord(w, h, x - 1, y as int));
        if x + 1 < w {
            v.push(Coordinates { x: x + 1, y });
        }
        assert(v@ =~= maybe_coord(w, h, x - 1, y - 1) + maybe_coord(w, h, x as int, y - 1)
            + maybe_coord(w, h, x + 1, y - 1) + maybe_coord(w, h, x - 1, y as int)
            + maybe_coord(w, h, x + 1, y as int));
        if x > 0 && y + 1 < h {
            v.push(Coordinates { x: x - 1, y: y + 1 });
        }
        assert(v@ =~= maybe_coord(w, h, x - 1, y - 1) + maybe_coord(w, h, x as int, y - 1)
            + maybe_coord(w, h, x + 1, y - 1) + maybe_coord(w, h, x - 1, y as int)
            + maybe_coord(w, h, x + 1, y as int) + maybe_coord(w, h, x - 1, y + 1));
        if y + 1 < h {
            v.push(Coordinates { x, y: y + 1 });
        }
        assert(v@ =~= maybe_coord(w, h, x - 1, y - 1) + maybe_coord(w, h, x as int, y - 1)
            + maybe_coord(w, h, x + 1, y - 1) + maybe_coord(w, h, x - 1, y as int)
            + maybe_coord(w, h, x + 1, y as int) + maybe_coord(w, h, x - 1, y + 1)
            + maybe_coord(w, h, x as int, y + 1));
        if x + 1 < w && y + 1 < h {
            v.push(Coordinates { x: x + 1, y: y + 1 });
        }
        assert(v@ =~= safe_neighbors(w, h, c));
        proof {
            lemma_safe_neighbors_props(w, h, c);
        }
        v
    }

    /// Count of mined cells among the in-bounds neighbors of `c`.
    pub fn bomb_count_at(&self, c: Coordinates) -> (n: u8)
        requires
            self.dims_wf(),
            self.valid_coord(c),
        ensures
            n == self.neighbor_bomb_count(c),
    {
        let neighbors = self.safe_square_at(c);
        let ghost all = neighbors@;
        let mut n: u8 = 0;
        let mut i: usize = 0;
        proof {
            lemma_bombs_at_nonneg(self.grid(), self.spec_width(), all);
            assert(all.subrange(0, all.len() as int) =~= all);
        }
        while i < neighbors.len()
            invariant
                i <= all.len(),
                all.len() <= 8,
                neighbors@ == all,
                self.dims_wf(),
                forall|k: int| 0 <= k < all.len() ==> self.valid_coord(#[trigger] all[k]),
                n <= i,
                n + bombs_at(self.grid(), self.spec_width(), all.subrange(i as int, all.len() as int))
                    == bombs_at(self.grid(), self.spec_width(), all),
            decreases all.len() - i,
        {
            let ghost rest = all.subrange(i as int, all.len() as int);
            proof {
                assert(rest.drop_first() =~= all.subrange(i + 1, all.len() as int));
                lemma_bombs_at_nonneg(
                    self.grid(),
                    self.spec_width(),
                    all.subrange(i + 1, all.len() as int),
                );
            }
            if self.is_bomb_at(neighbors[i]) {
                n = n + 1;
            }
            i = i + 1;
        }
        n
    }

    /// Diagnostic text dump of the grid: one row per `y`, the `y = 0` row
    /// first, one character per tile — `*` for a mine, the digit for a
    /// neighbor count, a blank for an empty tile — each row ended by a
    /// newline. Diagnostic only: no game logic reads it.
    pub fn console_output(&self) -> (r: String)
        requires
            self.dims_wf(),
        ensures
            r@ == console_spec(*self),
    {
        let w = self.width;
        let h = self.height;
        let mut s = String::new();
        let mut y: u16 = 0;
        proof {
            assert(s@ =~= console_upto(*self, 0));
        }
        while y < h
            invariant
                y <= h,
                w == self.spec_width(),
                h == self.spec_height(),
                self.dims_wf(),
                s@ == console_upto(*self, y as int),
            decreases h - y,
        {
            let ghost row_start = s@;
            let mut x: u16 = 0;
            while x < w
                invariant
                    x <= w,
                    y < h,
                    w == self.spec_width(),
                    h == self.spec_height(),
                    self.dims_wf(),
                    row_start == console_upto(*self, y as int),
                    s@ == row_start + console_row(*self, y as int).subrange(0, x as int),
                decreases w - x,
            {
                let c = Coordinates { x, y };
                let piece = self.tile(c).console_str();
                s.append(piece);
                proof {
                    assert(s@ =~= row_start + console_row(*self, y as int).subrange(
                        0,
                        x + 1,
                    ));
                }
                x = x + 1;
            }
            s.append("\n");
            proof {
                reveal_strlit("\n");
                assert(console_row(*self, y as int).subrange(
                    0,
                    w as int,
                ) =~= console_row(*self, y as int));
                assert(s@ =~= console_upto(*self, y as int + 1));
            }
            y = y + 1;
        }
        s
    }

    /// The first `Empty` tile in row-major order, if the grid has one.
    /// Used to pick the safe-start tile: the returned tile is never a
    /// mine.
    pub fn first_empty_tile(&self) -> (r: Option<Coordinates>)
        requires
            self.dims_wf(),
        ensures
            r matches Some(c) ==> self.valid_coord(c) && self.tile_at(c) is Empty,
            r matches Some(c) ==> forall|d: Coordinates|
                self.valid_coord(d) && (d.y < c.y || (d.y == c.y && d.x < c.x)) ==> !((
                #[trigger] self.tile_at(d)) is Empty),
            r is None ==> forall|c: Coordinates|
                self.valid_coord(c) ==> !((#[trigger] self.tile_at(c)) is Empty),
    {
        let w = self.width;
        let h = self.height;
        let mut y: u16 = 0;
        while y < h
            invariant
                y <= h,
                w == self.spec_width(),
                h == self.spec_height(),
                self.dims_wf(),
                forall|c: Coordinates|
                    coord_in_grid(w, h, c) && c.y < y ==> !((#[trigger] self.tile_at(c)) is Empty),
            decreases h - y,
        {
            let mut x: u16 = 0;
            while x < w
                invariant
                    x <= w,
                    y < h,
                    w == self.spec_width(),
                    h == self.spec_height(),
                    self.dims_wf(),
                    forall|c: Coordinates|
                        coord_in_grid(w, h, c) && (c.y < y || (c.y == y && c.x < x)) ==> !((
                        #[trigger] self.tile_at(c)) is Empty),
                decreases w - x,
            {
                let c = Coordinates { x, y };
                if let Tile::Empty = self.tile(c) {
                    return Some(c);
                }
                x = x + 1;
            }
            y = y + 1;
        }
        None
    }

    /// Place `bomb_count` mines on an all-empty grid at the distinct cells
    /// selected by a partial shuffle driven by `picks`, then write every
    /// non-mined cell's neighbor count. When the picks are uniform draws
    /// (`picks[k]` uniform below `cells - k`), the mined cells are a uniform
    /// sample without replacement of the whole coordinate space.
    pub fn set_bombs_from_picks(&mut self, bomb_count: u16, picks: &Vec<usize>)
        requires
            old(self).dims_wf(),
            forall|i: int| 0 <= i < old(self).grid().len() ==> old(self).grid()[i] == Tile::Empty,
            bomb_count <= old(self).spec_width() * old(self).spec_height(),
            picks@.len() == bomb_count,
            forall|k: int| 0 <= k < bomb_count ==> #[trigger] picks@[k] < old(self).grid().len() - k,
        ensures
            final(self).inv(),
            final(self).spec_width() == old(self).spec_width(),
            final(self).spec_height() == old(self).spec_height(),
            final(self).spec_bomb_count() == bomb_count,
            forall|idx: int|
                0 <= idx < final(self).grid().len() ==> (((#[trigger] final(self).grid()[idx])
                    is Bomb) <==> chosen_cells(old(self).grid().len() as int, picks@).contains(
                    idx as usize,
                )),
    {
        let w = self.width;
        let h = self.height;
        let n = self.map.len();
        let bombs = bomb_count as usize;

        // Select `bomb_count` distinct cells: a partial shuffle of the full
        // list of cell positions.
        let mut cells: Vec<usize> = Vec::new();
        let mut i: usize = 0;
        while i < n
            invariant
                i <= n,
                cells@.len() == i,
                forall|t: int| 0 <= t < i ==> #[trigger] cells@[t] == t,
            decreases n - i,
        {
            cells.push(i);
            i = i + 1;
        }
        let ghost init_cells = cells@;
        proof {
            assert(init_cells =~= Seq::new(n as nat, |t: int| t as usize));
        }
        let mut k: usize = 0;
        while k < bombs
            invariant
                k <= bombs,
                bombs <= n,
                picks@.len() == bombs,
                forall|t: int| 0 <= t < bombs ==> #[trigger] picks@[t] < n - t,
                cells@.len() == n,
                forall|t: int| 0 <= t < n ==> 0 <= #[trigger] cells@[t] < n,
                forall|a: int, b: int| 0 <= a < b < n ==> cells@[a] != cells@[b],
                shuffled_cells(cells@, picks@, k as int) == shuffled_cells(init_cells, picks@, 0),
            decreases bombs - k,
        {
            let ghost pre_cells = cells@;
            let j = k + picks[k];
            let a = cells[k];
            let b = cells[j];
            cells[k] = b;
            cells[j] = a;
            proof {
                assert(cells@ == shuffle_swap(pre_cells, k as int, k + picks@[k as int]));
            }
            k = k + 1;
        }
        proof {
            assert(shuffled_cells(cells@, picks@, bombs as int) == cells@);
            assert(chosen_cells(n as int, picks@) == cells@.subrange(0, bombs as int));
        }

        // Mark the selected cells as mines.
        proof {
            lemma_bombs_in_prefix_zero(self.map@, n as int);
        }
        let mut k2: usize = 0;
        while k2 < bombs
            invariant
                k2 <= bombs,
                bombs <= n,
                self.map@.len() == n,
                self.width == w,
                self.height == h,
                cells@.len() == n,
                forall|t: int| 0 <= t < n ==> 0 <= #[trigger] cells@[t] < n,
                forall|a: int, b: int| 0 <= a < b < n ==> cells@[a] != cells@[b],
                forall|t: int|
                    k2 <= t < n ==> !((#[trigger] self.map@[cells@[t] as int]) is Bomb),
                forall|idx: int|
                    0 <= idx < n ==> ((#[trigger] self.map@[idx]) is Bomb || self.map@[idx]
                        == Tile::Empty),
                forall|idx: int|
                    0 <= idx < n ==> (((#[trigger] self.map@[idx]) is Bomb) <==> exists|t: int|
                        0 <= t < k2 && #[trigger] cells@[t] == idx),
                total_bombs(self.map@) == k2,
            decreases bombs - k2,
        {
            let ci = cells[k2];
            let ghost map_pre = self.map@;
            proof {
                assert(!(self.map@[ci as int] is Bomb));
                lemma_bombs_in_prefix_update(self.map@, ci as int, Tile::Bomb, n as int);
            }
            self.map[ci] = Tile::Bomb;
            proof {
                assert forall|idx: int|
                    0 <= idx < n implies (((#[trigger] self.map@[idx]) is Bomb) <==> exists|t: int|
                    0 <= t < k2 + 1 && #[trigger] cells@[t] == idx) by {
                    if idx == ci {
                        assert(cells@[k2 as int] == idx);
                    } else {
                        assert(self.map@[idx] == map_pre[idx]);
                        if exists|t: int| 0 <= t < k2 + 1 && #[trigger] cells@[t] == idx {
                            let t = choose|t: int| 0 <= t < k2 + 1 && #[trigger] cells@[t] == idx;
                            assert(t != k2);
                        }
                        if map_pre[idx] is Bomb {
                            let t = choose|t: int| 0 <= t < k2 && #[trigger] cells@[t] == idx;
                            assert(0 <= t < k2 + 1 && cells@[t] == idx);
                        }
                    }
                }
            }
            k2 = k2 + 1;
        }
        self.bomb_count = bomb_count;
        proof {
            let ch = chosen_cells(n as int, picks@);
            assert forall|idx: int| 0 <= idx < n implies (((#[trigger] self.map@[idx]) is Bomb)
                <==> ch.contains(idx as usize)) by {
                if self.map@[idx] is Bomb {
                    let t = choose|t: int| 0 <= t < bombs && #[trigger] cells@[t] == idx;
                    assert(ch[t] == cells@[t]);
                    assert(ch.contains(idx as usize)) by {
                        assert(ch[t] == idx as usize);
                    }
                }
                if ch.contains(idx as usize) {
                    let t = choose|t: int| 0 <= t < ch.len() && #[trigger] ch[t] == idx as usize;
                    assert(cells@[t] == idx as usize);
                }
            }
        }

        // Write each non-mined cell's neighbor count, computed against the
        // placement above; mine positions never change in this pass.
        let ghost placed = self.map@;
        proof {
            assert(total_bombs(placed) == bomb_count);
        }
        let mut y: u16 = 0;
        while y < h
            invariant
                y <= h,
                self.width == w,
                self.height == h,
                self.bomb_count == bomb_count,
                self.map@.len() == n,
                n == w * h,
                placed.len() == n,
                forall|idx: int|
                    0 <= idx < n ==> ((#[trigger] placed[idx]) is Bomb || placed[idx]
                        == Tile::Empty),
                forall|idx: int|
                    0 <= idx < n ==> (((#[trigger] self.map@[idx]) is Bomb) <==> (placed[idx]
                        is Bomb)),
                forall|c: Coordinates|
                    coord_in_grid(w, h, c) && c.y < y ==> #[trigger] self.map@[flat_index(w, c)]
                        == decided_tile(placed, w, h, c),
                forall|c: Coordinates|
                    coord_in_grid(w, h, c) && c.y >= y ==> #[trigger] self.map@[flat_index(w, c)]
                        == placed[flat_index(w, c)],
            decreases h - y,
        {
            let mut x: u16 = 0;
            while x < w
                invariant
                    x <= w,
                    y < h,
                    self.width == w,
                    self.height == h,
                    self.bomb_count == bomb_count,
                    self.map@.len() == n,
                    n == w * h,
                    placed.len() == n,
                    forall|idx: int|
                        0 <= idx < n ==> ((#[trigger] placed[idx]) is Bomb || placed[idx]
                            == Tile::Empty),
                    forall|idx: int|
                        0 <= idx < n ==> (((#[trigger] self.map@[idx]) is Bomb) <==> (placed[idx]
                            is Bomb)),
                    forall|c: Coordinates|
                        coord_in_grid(w, h, c) && (c.y < y || (c.y == y && c.x < x))
                            ==> #[trigger] self.map@[flat_index(w, c)] == decided_tile(
                            placed,
                            w,
                            h,
                            c,
                        ),
                    forall|c: Coordinates|
                        coord_in_grid(w, h, c) && (c.y > y || (c.y == y && c.x >= x))
                            ==> #[trigger] self.map@[flat_index(w, c)] == placed[flat_index(w, c)],
                decreases w - x,
            {
                let c = Coordinates { x, y };
                let ghost entry = self.map@;
                proof {
                    lemma_flat_index_bound(w, h, c);
                    lemma_neighbors_flat_bounds(w, h, c);
                    lemma_safe_neighbors_props(w, h, c);
                    lemma_bombs_at_same(entry, placed, w, safe_neighbors(w, h, c));
                    lemma_bombs_at_nonneg(placed, w, safe_neighbors(w, h, c));
                }
                let ghost decided = decided_tile(placed, w, h, c);
                if !self.is_bomb_at(c) {
                    let num = self.bomb_count_at(c);
                    if num > 0 {
                        let idx: usize = (y as usize) * (w as usize) + (x as usize);
                        self.map[idx] = Tile::BombNeighbor(num);
                        proof {
                            assert(self.map@ == entry.update(
                                flat_index(w, c),
                                Tile::BombNeighbor(num),
                            ));
                        }
                    }
                }
                proof {
                    assert(self.map@[flat_index(w, c)] == decided);
                    assert forall|d: Coordinates|
                        coord_in_grid(w, h, d) && d != c implies self.map@[flat_index(w, d)]
                        == entry[flat_index(w, d)] by {
                        if flat_index(w, d) == flat_index(w, c) {
                            lemma_flat_index_injective(w, h, d, c);
                        }
                        lemma_flat_index_bound(w, h, d);
                    }
                    assert forall|d: Coordinates|
                        coord_in_grid(w, h, d) && (d.y < y || (d.y == y && d.x <= x))
                        implies self.map@[flat_index(w, d)] == decided_tile(
                        placed,
                        w,
                        h,
                        d,
                    ) by {
                        lemma_flat_index_bound(w, h, d);
                        if d != c {
                            assert(entry[flat_index(w, d)] == decided_tile(placed, w, h, d));
                        }
                    }
                    assert forall|d: Coordinates|
                        coord_in_grid(w, h, d) && (d.y > y || (d.y == y && d.x > x))
                        implies self.map@[flat_index(w, d)] == placed[flat_index(w, d)] by {
                        lemma_flat_index_bound(w, h, d);
                        assert(entry[flat_index(w, d)] == placed[flat_index(w, d)]);
                    }
                }
                x = x + 1;
            }
            y = y + 1;
        }

        // Every cell now holds its decided value; conclude the invariant.
        proof {
            assert forall|c: Coordinates| self.valid_coord(c) implies #[trigger] self.tile_ok(c) by {
                lemma_flat_index_bound(w, h, c);
                lemma_neighbors_flat_bounds(w, h, c);
                lemma_safe_neighbors_props(w, h, c);
                lemma_bombs_at_same(self.map@, placed, w, safe_neighbors(w, h, c));
                lemma_bombs_at_nonneg(placed, w, safe_neighbors(w, h, c));
                assert(self.map@[flat_index(w, c)] == decided_tile(placed, w, h, c));
            }
            lemma_bombs_in_prefix_same(self.map@, placed, n as int);
            assert forall|idx: int|
                0 <= idx < n implies (((#[trigger] self.map@[idx]) is Bomb) <==> chosen_cells(
                n as int,
                picks@,
            ).contains(idx as usize)) by {
                assert((self.map@[idx] is Bomb) <==> (placed[idx] is Bomb));
                assert((placed[idx] is Bomb) <==> chosen_cells(n as int, picks@).contains(
                    idx as usize,
                ));
            }
        }
    }

    /// Place `bomb_count` mines at distinct cells chosen uniformly at
    /// random without replacement from the full coordinate space, then
    /// write every non-mined cell's neighbor count.
    pub fn set_bombs(&mut self, bomb_count: u16)
        requires
            old(self).dims_wf(),
            forall|i: int| 0 <= i < old(self).grid().len() ==> old(self).grid()[i] == Tile::Empty,
            bomb_count <= old(self).spec_width() * old(self).spec_height(),
        ensures
            final(self).inv(),
            final(self).spec_width() == old(self).spec_width(),
            final(self).spec_height() == old(self).spec_height(),
            final(self).spec_bomb_count() == bomb_count,
    {
        let n = self.map.len();
        let bombs = bomb_count as usize;
        let mut picks: Vec<usize> = Vec::new();
        let mut k: usize = 0;
        while k < bombs
            invariant
                k <= bombs,
                bombs <= n,
                picks@.len() == k,
                forall|t: int| 0 <= t < k ==> #[trigger] picks@[t] < n - t,
            decreases bombs - k,
        {
            let r = random_below(n - k);
            picks.push(r);
            k = k + 1;
        }
        self.set_bombs_from_picks(bomb_count, &picks);
    }
}

} // verus!
