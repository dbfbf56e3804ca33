use minesweeper::{
    adaptative_tile_size, create_board, BoardError, BoardOptions, BoardPosition, Coordinates,
    Tile, TileSize,
};

fn options(w: u16, h: u16, bombs: u16) -> BoardOptions {
    BoardOptions {
        map_size: (w, h),
        bomb_count: bombs,
        position: BoardPosition::Custom((0, 0)),
        tile_size: TileSize::Fixed(10),
        tile_padding: 0,
        safe_start: false,
    }
}

#[test]
fn zero_width_is_a_configuration_error() {
    let r = create_board(&options(0, 5, 0), 100, 100);
    assert_eq!(r.err(), Some(BoardError::ZeroSize));
}

#[test]
fn zero_height_is_a_configuration_error() {
    let r = create_board(&options(5, 0, 0), 100, 100);
    assert_eq!(r.err(), Some(BoardError::ZeroSize));
}

#[test]
fn too_many_bombs_is_a_configuration_error() {
    let r = create_board(&options(2, 2, 5), 100, 100);
    assert_eq!(r.err(), Some(BoardError::TooManyBombs));
}

#[test]
fn created_board_covers_every_tile() {
    let (board, safe) = create_board(&options(3, 3, 0), 100, 100).unwrap();
    assert_eq!(safe, None);
    assert_eq!(board.covered_count(), 9);
    // the handle of cell (x, y) is its row-major position
    assert_eq!(board.tile_to_uncover(&Coordinates { x: 2, y: 1 }), Some(5));
    assert_eq!(board.tile_to_uncover(&Coordinates { x: 0, y: 0 }), Some(0));
}

#[test]
fn try_uncover_is_idempotent() {
    let (mut board, _) = create_board(&options(2, 2, 0), 100, 100).unwrap();
    let c = Coordinates { x: 0, y: 0 };
    assert_eq!(board.try_uncover_tile(&c), Some(0));
    assert_eq!(board.try_uncover_tile(&c), None);
    assert_eq!(board.covered_count(), 3);
}

#[test]
fn uncover_out_of_range_is_a_no_op() {
    let (mut board, _) = create_board(&options(2, 2, 0), 100, 100).unwrap();
    assert_eq!(board.try_uncover_tile(&Coordinates { x: 5, y: 5 }), None);
    assert_eq!(board.covered_count(), 4);
}

#[test]
fn peek_does_not_mutate() {
    let (board, _) = create_board(&options(2, 2, 0), 100, 100).unwrap();
    assert_eq!(board.tile_to_uncover(&Coordinates { x: 1, y: 1 }), Some(3));
    assert_eq!(board.tile_to_uncover(&Coordinates { x: 1, y: 1 }), Some(3));
    assert_eq!(board.covered_count(), 4);
}

#[test]
fn adjacent_covered_tiles_intersects_neighbors_with_covering() {
    let (mut board, _) = create_board(&options(3, 3, 0), 100, 100).unwrap();
    let center = Coordinates { x: 1, y: 1 };
    assert_eq!(board.adjacent_covered_tiles(center).len(), 8);
    board.try_uncover_tile(&Coordinates { x: 0, y: 0 });
    board.try_uncover_tile(&Coordinates { x: 2, y: 2 });
    let adj = board.adjacent_covered_tiles(center);
    assert_eq!(adj.len(), 6);
    for (c, handle) in &adj {
        assert_eq!(*handle, (c.y as u64) * 3 + c.x as u64);
        assert!(*c != Coordinates { x: 0, y: 0 });
        assert!(*c != Coordinates { x: 2, y: 2 });
    }
}

#[test]
fn safe_start_tile_is_never_a_bomb() {
    let opts = BoardOptions {
        map_size: (5, 5),
        bomb_count: 1,
        position: BoardPosition::Custom((0, 0)),
        tile_size: TileSize::Fixed(10),
        tile_padding: 0,
        safe_start: true,
    };
    // a 5x5 grid with one mine always has an empty tile, wherever the
    // mine landed, so the safe-start tile must exist and must be empty
    let (board, safe) = create_board(&opts, 100, 100).unwrap();
    let c = safe.expect("a 5x5 grid with one mine has an empty tile");
    assert!(!board.tile_map.is_bomb_at(c));
    assert_eq!(board.tile_map.tile(c), Tile::Empty);
}

#[test]
fn no_safe_start_when_not_requested() {
    let (_, safe) = create_board(&options(5, 5, 1), 100, 100).unwrap();
    assert_eq!(safe, None);
}

#[test]
fn adaptative_tile_size_picks_the_tightest_fit() {
    // 700 / 20 = 35, 800 / 20 = 40; the tighter fit wins, inside [10, 50]
    assert_eq!(adaptative_tile_size(700, 800, 10, 50, 20, 20), 35);
    // clamped from below and above
    assert_eq!(adaptative_tile_size(10, 10, 10, 50, 20, 20), 10);
    assert_eq!(adaptative_tile_size(5000, 5000, 10, 50, 20, 20), 50);
}

#[test]
fn default_options() {
    let o = BoardOptions::default();
    assert_eq!(o.map_size, (15, 15));
    assert_eq!(o.bomb_count, 30);
    assert!(matches!(o.position, BoardPosition::Centered { offset: (0, 0) }));
    assert!(matches!(o.tile_size, TileSize::Adaptative { min: 10, max: 50 }));
    assert_eq!(o.tile_padding, 0);
    assert!(!o.safe_start);
}

#[test]
fn centered_board_is_placed_around_the_window_center() {
    let opts = BoardOptions {
        map_size: (2, 2),
        bomb_count: 0,
        position: BoardPosition::Centered { offset: (0, 0) },
        tile_size: TileSize::Fixed(10),
        tile_padding: 0,
        safe_start: false,
    };
    let (board, _) = create_board(&opts, 100, 100).unwrap();
    assert_eq!(board.bounds.position, (-10, -10));
    assert_eq!(board.bounds.size, (20, 20));
    // the board occupies [40, 60) x [40, 60) in window space
    assert_eq!(
        board.mouse_position(100, 100, 45, 45),
        Some(Coordinates { x: 0, y: 0 })
    );
    assert_eq!(
        board.mouse_position(100, 100, 55, 59),
        Some(Coordinates { x: 1, y: 1 })
    );
    assert_eq!(board.mouse_position(100, 100, 39, 45), None);
    assert_eq!(board.mouse_position(100, 100, 45, 60), None);
}

#[test]
fn mouse_position_outside_bounds_is_none() {
    // board placed at (10, 20) from the window center, 4x4 tiles of 16
    let opts = BoardOptions {
        map_size: (4, 4),
        bomb_count: 0,
        position: BoardPosition::Custom((10, 20)),
        tile_size: TileSize::Fixed(16),
        tile_padding: 0,
        safe_start: false,
    };
    let (board, _) = create_board(&opts, 100, 60).unwrap();
    // window center is (50, 30); the board rectangle in window space is
    // [60, 124) x [50, 114)
    assert_eq!(board.mouse_position(100, 60, 59, 80), None);
    assert_eq!(board.mouse_position(100, 60, 124, 80), None);
    assert_eq!(board.mouse_position(100, 60, 80, 49), None);
    assert_eq!(board.mouse_position(100, 60, 80, 114), None);
    assert_eq!(board.mouse_position(100, 60, -500, -500), None);
}

#[test]
fn mouse_position_maps_cell_interior_consistently() {
    let opts = BoardOptions {
        map_size: (4, 4),
        bomb_count: 0,
        position: BoardPosition::Custom((10, 20)),
        tile_size: TileSize::Fixed(16),
        tile_padding: 0,
        safe_start: false,
    };
    let (board, _) = create_board(&opts, 100, 60).unwrap();
    // cell (1, 2) spans window x in [76, 92) and y in [82, 98)
    let c = Coordinates { x: 1, y: 2 };
    assert_eq!(board.mouse_position(100, 60, 76, 82), Some(c));
    assert_eq!(board.mouse_position(100, 60, 91, 97), Some(c));
    assert_eq!(board.mouse_position(100, 60, 80, 90), Some(c));
    // the first cell starts at the bounds origin
    assert_eq!(
        board.mouse_position(100, 60, 60, 50),
        Some(Coordinates { x: 0, y: 0 })
    );
}
