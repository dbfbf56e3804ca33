use minesweeper::{Coordinates, Tile, TileMap};

fn count_bombs(tm: &TileMap) -> u32 {
    let mut n = 0;
    for y in 0..tm.height() {
        for x in 0..tm.width() {
            if tm.is_bomb_at(Coordinates { x, y }) {
                n += 1;
            }
        }
    }
    n
}

fn manual_neighbor_bombs(tm: &TileMap, x: u16, y: u16) -> u8 {
    let mut n = 0;
    for dy in -1i32..=1 {
        for dx in -1i32..=1 {
            if dx == 0 && dy == 0 {
                continue;
            }
            let nx = x as i32 + dx;
            let ny = y as i32 + dy;
            if nx >= 0 && ny >= 0 && nx < tm.width() as i32 && ny < tm.height() as i32 {
                if tm.is_bomb_at(Coordinates { x: nx as u16, y: ny as u16 }) {
                    n += 1;
                }
            }
        }
    }
    n
}

#[test]
fn single_cell_no_bomb_is_empty() {
    // 1x1 grid, no mines: the one tile is Empty with neighbor count 0.
    let mut tm = TileMap::empty(1, 1);
    tm.set_bombs_from_picks(0, &Vec::new());
    let c = Coordinates { x: 0, y: 0 };
    assert_eq!(tm.tile(c), Tile::Empty);
    assert_eq!(tm.bomb_count_at(c), 0);
    assert_eq!(tm.bomb_count(), 0);
}

#[test]
fn three_by_three_center_bomb_ring() {
    // A single mine at (1, 1): every surrounding cell counts exactly 1.
    let mut tm = TileMap::empty(3, 3);
    tm.set_bombs_from_picks(1, &vec![4]);
    assert_eq!(tm.tile(Coordinates { x: 1, y: 1 }), Tile::Bomb);
    for y in 0..3u16 {
        for x in 0..3u16 {
            if x == 1 && y == 1 {
                continue;
            }
            assert_eq!(tm.tile(Coordinates { x, y }), Tile::BombNeighbor(1));
        }
    }
}

#[test]
fn random_generation_places_exact_bomb_count() {
    let mut tm = TileMap::empty(8, 8);
    tm.set_bombs(10);
    assert_eq!(tm.bomb_count(), 10);
    assert_eq!(count_bombs(&tm), 10);
}

#[test]
fn random_generation_neighbor_counts_are_exact() {
    let mut tm = TileMap::empty(8, 8);
    tm.set_bombs(12);
    for y in 0..8u16 {
        for x in 0..8u16 {
            let c = Coordinates { x, y };
            let expected = manual_neighbor_bombs(&tm, x, y);
            match tm.tile(c) {
                Tile::Bomb => {}
                Tile::Empty => assert_eq!(expected, 0),
                Tile::BombNeighbor(n) => {
                    assert!(n >= 1);
                    assert_eq!(n, expected);
                }
            }
        }
    }
}

#[test]
fn full_grid_of_bombs() {
    // Every cell mined: placement still counts exactly.
    let mut tm = TileMap::empty(2, 2);
    tm.set_bombs(4);
    assert_eq!(count_bombs(&tm), 4);
    for y in 0..2u16 {
        for x in 0..2u16 {
            assert_eq!(tm.tile(Coordinates { x, y }), Tile::Bomb);
        }
    }
}

#[test]
fn safe_square_at_center_order_and_bounds() {
    let tm = TileMap::empty(3, 3);
    let v = tm.safe_square_at(Coordinates { x: 1, y: 1 });
    let expected = [(0, 0), (1, 0), (2, 0), (0, 1), (2, 1), (0, 2), (1, 2), (2, 2)];
    assert_eq!(v.len(), expected.len());
    for (i, (x, y)) in expected.iter().enumerate() {
        assert_eq!(v[i], Coordinates { x: *x, y: *y });
    }
    for c in &v {
        assert!(c.x < 3 && c.y < 3);
        assert!(*c != Coordinates { x: 1, y: 1 });
    }
}

#[test]
fn safe_square_at_corner_and_edge() {
    let tm = TileMap::empty(3, 3);
    let corner = tm.safe_square_at(Coordinates { x: 0, y: 0 });
    let expected = [(1, 0), (0, 1), (1, 1)];
    assert_eq!(corner.len(), expected.len());
    for (i, (x, y)) in expected.iter().enumerate() {
        assert_eq!(corner[i], Coordinates { x: *x, y: *y });
    }
    let edge = tm.safe_square_at(Coordinates { x: 1, y: 0 });
    assert_eq!(edge.len(), 5);
    for c in &edge {
        assert!(c.x < 3 && c.y < 3);
        assert!(*c != Coordinates { x: 1, y: 0 });
    }
}

#[test]
fn first_empty_tile_row_major() {
    // A mine in the top-left corner: its three neighbors count 1, so the
    // first empty tile in row-major order is (2, 0).
    let mut tm = TileMap::empty(3, 3);
    tm.set_bombs_from_picks(1, &vec![0]);
    assert_eq!(tm.first_empty_tile(), Some(Coordinates { x: 2, y: 0 }));
}

#[test]
fn first_empty_tile_none_when_no_empty() {
    // A mine in the center: every other cell counts it, so no tile is
    // empty.
    let mut tm = TileMap::empty(3, 3);
    tm.set_bombs_from_picks(1, &vec![4]);
    assert_eq!(tm.first_empty_tile(), None);
}

#[test]
fn console_output_grid() {
    let mut tm = TileMap::empty(3, 3);
    tm.set_bombs_from_picks(1, &vec![4]);
    assert_eq!(tm.console_output(), "111\n1*1\n111\n");
}

#[test]
fn console_output_empty_grid() {
    let tm = TileMap::empty(2, 1);
    assert_eq!(tm.console_output(), "  \n");
}
