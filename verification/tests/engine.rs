use grid2048::board::{Board, ConfigurationError};
use grid2048::shift::BoardShiftDirection;
use grid2048::tile::{Position, TileSet};
use std::cmp::Ordering;

fn board4() -> Board {
    Board::new(4).unwrap()
}

fn value_at(tiles: &TileSet, x: u8, y: u8) -> Option<u32> {
    let id = tiles.find_at(Position { x, y })?;
    tiles.get(id).map(|t| t.points.value)
}

#[test]
fn board_new_validates_size() {
    assert!(matches!(Board::new(0), Err(ConfigurationError::BoardTooSmall)));
    assert!(matches!(Board::new(1), Err(ConfigurationError::BoardTooSmall)));
    assert_eq!(Board::new(2).unwrap().size, 2);
    assert_eq!(Board::new(4).unwrap().size, 4);
}

#[test]
fn board_total_tiles_and_is_full() {
    let board = board4();
    assert_eq!(board.total_tiles(), 16);
    assert!(board.is_full(16));
    assert!(!board.is_full(15));
    assert!(!board.is_full(17));
    assert_eq!(Board::new(2).unwrap().total_tiles(), 4);
}

#[test]
fn board_largest_size_counts_cells() {
    let board = Board::new(255).unwrap();
    assert_eq!(board.total_tiles(), 65025);
    assert!(!board.is_full(65024));
    assert!(board.is_full(65025));
}

#[test]
fn board_contains_checks_both_axes() {
    let board = board4();
    assert!(board.contains(Position { x: 0, y: 0 }));
    assert!(board.contains(Position { x: 3, y: 3 }));
    assert!(!board.contains(Position { x: 4, y: 0 }));
    assert!(!board.contains(Position { x: 0, y: 4 }));
}

#[test]
fn board_iter_dimensions_is_x_major_and_complete() {
    let board = Board::new(2).unwrap();
    let cells = board.iter_dimensions();
    let expected = vec![
        Position { x: 0, y: 0 },
        Position { x: 0, y: 1 },
        Position { x: 1, y: 0 },
        Position { x: 1, y: 1 },
    ];
    assert_eq!(cells, expected);
    assert_eq!(board4().iter_dimensions().len(), 16);
}

#[test]
fn tileset_add_get_remove() {
    let mut tiles = TileSet::new();
    let a = tiles.add(Position { x: 1, y: 2 }, 2);
    let b = tiles.add(Position { x: 3, y: 0 }, 4);
    assert_ne!(a, b);
    assert_eq!(tiles.count(), 2);
    let got = tiles.get(a).unwrap();
    assert_eq!(got.position, Position { x: 1, y: 2 });
    assert_eq!(got.points.value, 2);
    assert!(tiles.remove(a));
    assert!(!tiles.remove(a));
    assert_eq!(tiles.count(), 1);
    assert!(tiles.get(a).is_none());
    assert_eq!(tiles.get(b).unwrap().points.value, 4);
}

#[test]
fn tileset_find_at_and_occupied_positions() {
    let mut tiles = TileSet::new();
    let id = tiles.add(Position { x: 2, y: 2 }, 8);
    assert_eq!(tiles.find_at(Position { x: 2, y: 2 }), Some(id));
    assert_eq!(tiles.find_at(Position { x: 0, y: 0 }), None);
    assert_eq!(tiles.occupied_positions(), vec![Position { x: 2, y: 2 }]);
    let all = tiles.iter_all();
    assert_eq!(all.len(), 1);
    assert_eq!(all[0].id, id);
}

#[test]
fn tileset_ids_are_never_reused() {
    let mut tiles = TileSet::new();
    let a = tiles.add(Position { x: 0, y: 0 }, 2);
    tiles.remove(a);
    let b = tiles.add(Position { x: 0, y: 0 }, 2);
    assert_ne!(a, b);
    tiles.clear();
    let c = tiles.add(Position { x: 0, y: 0 }, 2);
    assert_ne!(b, c);
}

#[test]
fn comparator_orders_by_lane_then_distance() {
    let dir = BoardShiftDirection::Left;
    let a = Position { x: 0, y: 0 };
    let b = Position { x: 1, y: 0 };
    let c = Position { x: 0, y: 1 };
    assert_eq!(dir.sort_tiles(&a, &b), Ordering::Less);
    assert_eq!(dir.sort_tiles(&b, &c), Ordering::Less);
    assert_eq!(dir.sort_tiles(&a, &a), Ordering::Equal);
    let dir = BoardShiftDirection::Right;
    assert_eq!(dir.sort_tiles(&b, &a), Ordering::Less);
    assert_eq!(dir.sort_tiles(&c, &b), Ordering::Less);
    let dir = BoardShiftDirection::Up;
    assert_eq!(
        dir.sort_tiles(&Position { x: 0, y: 3 }, &Position { x: 0, y: 0 }),
        Ordering::Less
    );
    let dir = BoardShiftDirection::Down;
    assert_eq!(
        dir.sort_tiles(&Position { x: 0, y: 0 }, &Position { x: 0, y: 3 }),
        Ordering::Less
    );
}

#[test]
fn set_position_column_maps_slots_to_cells() {
    let mut p = Position { x: 2, y: 1 };
    BoardShiftDirection::Left.set_position_column(4, &mut p, 0);
    assert_eq!(p, Position { x: 0, y: 1 });
    let mut p = Position { x: 0, y: 1 };
    BoardShiftDirection::Right.set_position_column(4, &mut p, 0);
    assert_eq!(p, Position { x: 3, y: 1 });
    let mut p = Position { x: 1, y: 0 };
    BoardShiftDirection::Up.set_position_column(4, &mut p, 1);
    assert_eq!(p, Position { x: 1, y: 2 });
    let mut p = Position { x: 1, y: 3 };
    BoardShiftDirection::Down.set_position_column(4, &mut p, 0);
    assert_eq!(p, Position { x: 1, y: 0 });
}

#[test]
fn get_position_row_picks_the_lane_axis() {
    let p = Position { x: 2, y: 3 };
    assert_eq!(BoardShiftDirection::Left.get_position_row(&p), 3);
    assert_eq!(BoardShiftDirection::Right.get_position_row(&p), 3);
    assert_eq!(BoardShiftDirection::Up.get_position_row(&p), 2);
    assert_eq!(BoardShiftDirection::Down.get_position_row(&p), 2);
}

#[test]
fn shift_merges_pair_toward_left_edge() {
    let board = board4();
    let mut tiles = TileSet::new();
    tiles.add(Position { x: 0, y: 0 }, 2);
    tiles.add(Position { x: 1, y: 0 }, 2);
    let (changed, gained) = BoardShiftDirection::Left.shift(&board, &mut tiles);
    assert!(changed);
    assert_eq!(gained, 4);
    assert_eq!(tiles.count(), 1);
    assert_eq!(value_at(&tiles, 0, 0), Some(4));
}

#[test]
fn shift_merges_once_per_tile_per_move() {
    // Tiles 2, 2, 4 in one row: the 2s merge, but the fresh 4 does not merge
    // with the old 4 in the same move.
    let board = board4();
    let mut tiles = TileSet::new();
    tiles.add(Position { x: 0, y: 0 }, 2);
    tiles.add(Position { x: 1, y: 0 }, 2);
    tiles.add(Position { x: 2, y: 0 }, 4);
    let (changed, gained) = BoardShiftDirection::Left.shift(&board, &mut tiles);
    assert!(changed);
    assert_eq!(gained, 4);
    assert_eq!(tiles.count(), 2);
    assert_eq!(value_at(&tiles, 0, 0), Some(4));
    assert_eq!(value_at(&tiles, 1, 0), Some(4));
}

#[test]
fn shift_four_equal_tiles_merge_pairwise() {
    let board = board4();
    let mut tiles = TileSet::new();
    for x in 0..4 {
        tiles.add(Position { x, y: 2 }, 2);
    }
    let (changed, gained) = BoardShiftDirection::Left.shift(&board, &mut tiles);
    assert!(changed);
    assert_eq!(gained, 8);
    assert_eq!(tiles.count(), 2);
    assert_eq!(value_at(&tiles, 0, 2), Some(4));
    assert_eq!(value_at(&tiles, 1, 2), Some(4));
}

#[test]
fn shift_sorts_before_compacting() {
    // Added in far-to-near order; the pass must still put the nearer tile
    // first.
    let board = board4();
    let mut tiles = TileSet::new();
    tiles.add(Position { x: 2, y: 0 }, 2);
    tiles.add(Position { x: 0, y: 0 }, 4);
    let (changed, _) = BoardShiftDirection::Left.shift(&board, &mut tiles);
    assert!(changed);
    assert_eq!(value_at(&tiles, 0, 0), Some(4));
    assert_eq!(value_at(&tiles, 1, 0), Some(2));
}

#[test]
fn shift_right_compacts_to_high_x() {
    let board = board4();
    let mut tiles = TileSet::new();
    tiles.add(Position { x: 0, y: 1 }, 2);
    tiles.add(Position { x: 2, y: 1 }, 4);
    let (changed, gained) = BoardShiftDirection::Right.shift(&board, &mut tiles);
    assert!(changed);
    assert_eq!(gained, 0);
    assert_eq!(value_at(&tiles, 3, 1), Some(4));
    assert_eq!(value_at(&tiles, 2, 1), Some(2));
}

#[test]
fn shift_keeps_lanes_apart() {
    let board = board4();
    let mut tiles = TileSet::new();
    tiles.add(Position { x: 3, y: 0 }, 2);
    tiles.add(Position { x: 3, y: 1 }, 2);
    let (changed, gained) = BoardShiftDirection::Left.shift(&board, &mut tiles);
    assert!(changed);
    assert_eq!(gained, 0);
    assert_eq!(tiles.count(), 2);
    assert_eq!(value_at(&tiles, 0, 0), Some(2));
    assert_eq!(value_at(&tiles, 0, 1), Some(2));
}

#[test]
fn shift_on_compacted_board_is_noop() {
    let board = board4();
    let mut tiles = TileSet::new();
    tiles.add(Position { x: 0, y: 0 }, 2);
    tiles.add(Position { x: 1, y: 0 }, 4);
    let (changed, gained) = BoardShiftDirection::Left.shift(&board, &mut tiles);
    assert!(!changed);
    assert_eq!(gained, 0);
    assert_eq!(tiles.count(), 2);
    assert_eq!(value_at(&tiles, 0, 0), Some(2));
    assert_eq!(value_at(&tiles, 1, 0), Some(4));
}

#[test]
fn shift_settled_full_lane_is_noop() {
    // A lane fully compacted against the edge with alternating values
    // offers no legal compaction or merge: the move must change nothing.
    let board = board4();
    let mut tiles = TileSet::new();
    tiles.add(Position { x: 0, y: 2 }, 2);
    tiles.add(Position { x: 1, y: 2 }, 4);
    tiles.add(Position { x: 2, y: 2 }, 2);
    tiles.add(Position { x: 3, y: 2 }, 4);
    let (changed, gained) = BoardShiftDirection::Left.shift(&board, &mut tiles);
    assert!(!changed);
    assert_eq!(gained, 0);
    assert_eq!(tiles.count(), 4);
    assert_eq!(value_at(&tiles, 0, 2), Some(2));
    assert_eq!(value_at(&tiles, 1, 2), Some(4));
    assert_eq!(value_at(&tiles, 2, 2), Some(2));
    assert_eq!(value_at(&tiles, 3, 2), Some(4));
}

#[test]
fn shift_empty_board_is_noop() {
    let board = board4();
    let mut tiles = TileSet::new();
    let (changed, gained) = BoardShiftDirection::Up.shift(&board, &mut tiles);
    assert!(!changed);
    assert_eq!(gained, 0);
    assert_eq!(tiles.count(), 0);
}

#[test]
fn free_cells_excludes_occupied() {
    let board = Board::new(2).unwrap();
    let mut tiles = TileSet::new();
    tiles.add(Position { x: 0, y: 1 }, 2);
    let free = board.free_cells(&tiles);
    assert_eq!(
        free,
        vec![
            Position { x: 0, y: 0 },
            Position { x: 1, y: 0 },
            Position { x: 1, y: 1 },
        ]
    );
}

#[test]
fn spawn_tiles_fills_only_free_cells() {
    let board = Board::new(2).unwrap();
    let mut tiles = TileSet::new();
    tiles.add(Position { x: 0, y: 0 }, 2);
    tiles.add(Position { x: 0, y: 1 }, 2);
    let spawned = board.spawn_tiles(&mut tiles, 3);
    // Only two cells were free: the policy degrades instead of failing.
    assert_eq!(spawned.len(), 2);
    assert_eq!(tiles.count(), 4);
    let mut cells: Vec<(u8, u8)> = spawned.iter().map(|t| (t.position.x, t.position.y)).collect();
    cells.sort();
    assert_eq!(cells, vec![(1, 0), (1, 1)]);
    for t in spawned {
        assert_eq!(t.points.value, 2);
    }
}

#[test]
fn spawn_at_places_injected_cells_deterministically() {
    let board = board4();
    let mut tiles = TileSet::new();
    let cells = vec![Position { x: 1, y: 1 }, Position { x: 2, y: 3 }];
    let spawned = board.spawn_at(&mut tiles, &cells);
    assert_eq!(spawned.len(), 2);
    assert_eq!(spawned[0].position, Position { x: 1, y: 1 });
    assert_eq!(spawned[1].position, Position { x: 2, y: 3 });
    assert_eq!(spawned[0].points.value, 2);
    assert_eq!(spawned[1].points.value, 2);
    assert_ne!(spawned[0].id, spawned[1].id);
    assert_eq!(value_at(&tiles, 1, 1), Some(2));
    assert_eq!(value_at(&tiles, 2, 3), Some(2));
}

#[test]
fn spawn_tiles_respects_amount() {
    let board = board4();
    let mut tiles = TileSet::new();
    let spawned = board.spawn_tiles(&mut tiles, 2);
    assert_eq!(spawned.len(), 2);
    assert_eq!(tiles.count(), 2);
    assert_ne!(spawned[0].position, spawned[1].position);
    assert!(spawned[0].position.x < 4 && spawned[0].position.y < 4);
    assert!(spawned[1].position.x < 4 && spawned[1].position.y < 4);
}
