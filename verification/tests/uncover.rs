use minesweeper::{
    create_board, resolve_pending, trigger_event_handler, uncover_tiles, Bomb, BoardOptions,
    BoardPosition, BombNeighbor, Coordinates, TileSize, TileTriggerEvent,
};

fn options(w: u16, h: u16, bombs: u16) -> BoardOptions {
    BoardOptions {
        map_size: (w, h),
        bomb_count: bombs,
        position: BoardPosition::Custom((0, 0)),
        tile_size: TileSize::Fixed(10),
        tile_padding: 0,
        safe_start: false,
    }
}

#[test]
fn trigger_handler_marks_only_covered_tiles() {
    let (mut board, _) = create_board(&options(2, 2, 0), 100, 100).unwrap();
    board.try_uncover_tile(&Coordinates { x: 0, y: 0 });
    let events = vec![
        TileTriggerEvent(Coordinates { x: 0, y: 0 }),
        TileTriggerEvent(Coordinates { x: 1, y: 1 }),
        TileTriggerEvent(Coordinates { x: 9, y: 9 }),
    ];
    let mut pending: Vec<Coordinates> = Vec::new();
    trigger_event_handler(&board, &events, &mut pending);
    assert_eq!(pending, vec![Coordinates { x: 1, y: 1 }]);
}

#[test]
fn full_cascade_uncovers_whole_empty_board() {
    // 5x5 grid without mines: a trigger at the corner floods the whole
    // board and the covered mapping ends empty.
    let (mut board, _) = create_board(&options(5, 5, 0), 100, 100).unwrap();
    let events = vec![TileTriggerEvent(Coordinates { x: 0, y: 0 })];
    let mut pending: Vec<Coordinates> = Vec::new();
    trigger_event_handler(&board, &events, &mut pending);
    let outcomes = resolve_pending(&mut board, &mut pending);
    assert_eq!(outcomes.len(), 25);
    assert_eq!(board.covered_count(), 0);
    assert!(pending.is_empty());
    for o in &outcomes {
        assert_eq!(o.bomb, None);
        assert_eq!(o.bomb_neighbor, None);
        assert_eq!(
            o.handle,
            (o.coordinates.y as u64) * 5 + o.coordinates.x as u64
        );
    }
    // no coordinate was revealed twice
    for i in 0..outcomes.len() {
        for j in 0..i {
            assert!(outcomes[i].coordinates != outcomes[j].coordinates);
        }
    }
}

#[test]
fn step_spread_cascade_advances_one_ring_per_step() {
    let (mut board, _) = create_board(&options(5, 5, 0), 100, 100).unwrap();
    let mut pending = vec![Coordinates { x: 0, y: 0 }];
    let first = uncover_tiles(&mut board, &mut pending);
    assert_eq!(first.len(), 1);
    assert_eq!(first[0].coordinates, Coordinates { x: 0, y: 0 });
    // the corner has exactly three neighbors, all covered
    assert_eq!(pending.len(), 3);
    assert_eq!(board.covered_count(), 24);
    let second = uncover_tiles(&mut board, &mut pending);
    assert_eq!(second.len(), 3);
    assert_eq!(board.covered_count(), 21);
}

#[test]
fn bomb_reveal_reports_marker_and_stops() {
    // a mine in the center of a 3x3 grid
    let mut tile_map = minesweeper::TileMap::empty(3, 3);
    tile_map.set_bombs_from_picks(1, &vec![4]);
    let covered: Vec<Option<u64>> = (0..9).map(|i| Some(i as u64)).collect();
    let mut board = minesweeper::Board {
        tile_map,
        bounds: minesweeper::Bounds2 { position: (0, 0), size: (30, 30) },
        tile_size: 10,
        covered_tiles: covered,
    };
    let mut pending = vec![Coordinates { x: 1, y: 1 }];
    let outcomes = uncover_tiles(&mut board, &mut pending);
    assert_eq!(outcomes.len(), 1);
    assert_eq!(outcomes[0].bomb, Some(Bomb));
    assert_eq!(outcomes[0].bomb_neighbor, None);
    // a mine reveal schedules nothing
    assert!(pending.is_empty());
    assert_eq!(board.covered_count(), 8);
}

#[test]
fn counted_reveal_reports_count_and_stops() {
    let mut tile_map = minesweeper::TileMap::empty(3, 3);
    tile_map.set_bombs_from_picks(1, &vec![4]);
    let covered: Vec<Option<u64>> = (0..9).map(|i| Some(i as u64)).collect();
    let mut board = minesweeper::Board {
        tile_map,
        bounds: minesweeper::Bounds2 { position: (0, 0), size: (30, 30) },
        tile_size: 10,
        covered_tiles: covered,
    };
    let mut pending = vec![Coordinates { x: 0, y: 0 }];
    let outcomes = uncover_tiles(&mut board, &mut pending);
    assert_eq!(outcomes.len(), 1);
    assert_eq!(outcomes[0].bomb, None);
    assert_eq!(outcomes[0].bomb_neighbor, Some(BombNeighbor { count: 1 }));
    assert!(pending.is_empty());
}

#[test]
fn duplicate_pending_marks_collapse() {
    let (mut board, _) = create_board(&options(3, 3, 0), 100, 100).unwrap();
    // schedule the same coordinate twice in one step: the two marks
    // collapse to a single effective uncover and a single reveal
    let c = Coordinates { x: 1, y: 1 };
    let mut pending = vec![c, c];
    let outcomes = uncover_tiles(&mut board, &mut pending);
    assert_eq!(outcomes.len(), 1);
    assert_eq!(outcomes[0].coordinates, c);
    assert_eq!(board.covered_count(), 8);
}

#[test]
fn cascade_stops_at_counted_fringe() {
    // one mine in the corner of a 4x4 grid: the cascade from the far
    // corner uncovers everything except the mine itself
    let mut tile_map = minesweeper::TileMap::empty(4, 4);
    tile_map.set_bombs_from_picks(1, &vec![0]);
    let covered: Vec<Option<u64>> = (0..16).map(|i| Some(i as u64)).collect();
    let mut board = minesweeper::Board {
        tile_map,
        bounds: minesweeper::Bounds2 { position: (0, 0), size: (40, 40) },
        tile_size: 10,
        covered_tiles: covered,
    };
    let mut pending = vec![Coordinates { x: 3, y: 3 }];
    let outcomes = resolve_pending(&mut board, &mut pending);
    assert_eq!(outcomes.len(), 15);
    assert_eq!(board.covered_count(), 1);
    assert_eq!(board.tile_to_uncover(&Coordinates { x: 0, y: 0 }), Some(0));
    for o in &outcomes {
        assert_eq!(o.bomb, None);
    }
}

#[test]
fn resolving_an_empty_queue_does_nothing() {
    let (mut board, _) = create_board(&options(3, 3, 0), 100, 100).unwrap();
    let mut pending: Vec<Coordinates> = Vec::new();
    let outcomes = resolve_pending(&mut board, &mut pending);
    assert!(outcomes.is_empty());
    assert_eq!(board.covered_count(), 9);
}
