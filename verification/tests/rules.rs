use grid2048::board::{Board, ConfigurationError};
use grid2048::game::{apply_move, check_game_over, reset, Game, GameState};
use grid2048::shift::BoardShiftDirection;
use grid2048::tile::{Position, TileSet};

fn board4() -> Board {
    Board::new(4).unwrap()
}

fn value_at(tiles: &TileSet, x: u8, y: u8) -> Option<u32> {
    let id = tiles.find_at(Position { x, y })?;
    tiles.get(id).map(|t| t.points.value)
}

/// A full 4x4 board where no two adjacent cells share a value: 2s and 4s in
/// a checkerboard.
fn checkerboard(tiles: &mut TileSet) {
    for x in 0..4u8 {
        for y in 0..4u8 {
            let value = if (x + y) % 2 == 0 { 2 } else { 4 };
            tiles.add(Position { x, y }, value);
        }
    }
}

#[test]
fn game_tracks_running_and_best_score() {
    let mut game = Game::new();
    assert_eq!(game.score, 0);
    assert_eq!(game.best_score, 0);
    game.on_merge(4);
    assert_eq!(game.score, 4);
    assert_eq!(game.best_score, 4);
    game.on_merge(4);
    assert_eq!(game.score, 8);
    assert_eq!(game.best_score, 8);
    game.on_reset();
    assert_eq!(game.score, 0);
    assert_eq!(game.best_score, 8);
    game.on_merge(2);
    assert_eq!(game.score, 2);
    assert_eq!(game.best_score, 8);
}

#[test]
fn game_score_handles_the_full_range() {
    let mut game = Game::new();
    game.on_merge(u32::MAX);
    assert_eq!(game.score, u32::MAX);
    assert_eq!(game.best_score, u32::MAX);
    game.on_reset();
    assert_eq!(game.score, 0);
    assert_eq!(game.best_score, u32::MAX);
}

#[test]
fn game_default_is_zeroed() {
    let game = Game::default();
    assert_eq!(game.score, 0);
    assert_eq!(game.best_score, 0);
    assert_eq!(GameState::default(), GameState::Playing);
}

#[test]
fn check_game_over_rejects_small_board() {
    let tiles = TileSet::new();
    let board = Board { size: 1 };
    assert_eq!(
        check_game_over(&board, &tiles),
        Err(ConfigurationError::BoardTooSmall)
    );
}

#[test]
fn check_game_over_rejects_overfull_tileset() {
    let board = Board::new(2).unwrap();
    let mut tiles = TileSet::new();
    for _ in 0..5 {
        tiles.add(Position { x: 0, y: 0 }, 2);
    }
    assert_eq!(
        check_game_over(&board, &tiles),
        Err(ConfigurationError::TooManyTiles)
    );
}

#[test]
fn check_game_over_not_full_keeps_playing() {
    let board = board4();
    let mut tiles = TileSet::new();
    checkerboard(&mut tiles);
    let id = tiles.find_at(Position { x: 0, y: 0 }).unwrap();
    tiles.remove(id);
    assert_eq!(check_game_over(&board, &tiles), Ok(GameState::Playing));
}

#[test]
fn check_game_over_full_without_neighbors_ends_game() {
    let board = board4();
    let mut tiles = TileSet::new();
    checkerboard(&mut tiles);
    assert_eq!(check_game_over(&board, &tiles), Ok(GameState::GameOver));
}

#[test]
fn check_game_over_full_with_equal_neighbors_keeps_playing() {
    let board = board4();
    let mut tiles = TileSet::new();
    checkerboard(&mut tiles);
    // Overwrite one cell so that two equal values touch.
    let id = tiles.find_at(Position { x: 0, y: 1 }).unwrap();
    tiles.remove(id);
    tiles.add(Position { x: 0, y: 1 }, 2);
    assert_eq!(check_game_over(&board, &tiles), Ok(GameState::Playing));
}

#[test]
fn scenario_up_merges_column_and_spawns() {
    // Tiles at (0,0)=2 and (0,1)=2, direction Up: a single 4 at (0,3),
    // score rises by 4, and one fresh tile appears elsewhere.
    let board = board4();
    let mut tiles = TileSet::new();
    tiles.add(Position { x: 0, y: 0 }, 2);
    tiles.add(Position { x: 0, y: 1 }, 2);
    let mut game = Game::new();
    let mut status = GameState::Playing;
    let outcome = apply_move(&board, BoardShiftDirection::Up, &mut tiles, &mut game, &mut status);
    assert!(outcome.changed);
    assert_eq!(outcome.gained, 4);
    assert_eq!(game.score, 4);
    assert_eq!(game.best_score, 4);
    assert_eq!(value_at(&tiles, 0, 3), Some(4));
    assert_eq!(tiles.count(), 2);
    let spawned = outcome.spawned.unwrap();
    assert_ne!(spawned.position, Position { x: 0, y: 3 });
    assert_eq!(spawned.points.value, 2);
    assert_eq!(status, GameState::Playing);
}

#[test]
fn scenario_left_merges_only_once() {
    // (0,0)=2, (1,0)=2, (2,0)=4, direction Left: the 2s merge into a 4 at
    // (0,0); the old 4 slides to (1,0) but does not merge this move.
    let board = board4();
    let mut tiles = TileSet::new();
    tiles.add(Position { x: 0, y: 0 }, 2);
    tiles.add(Position { x: 1, y: 0 }, 2);
    tiles.add(Position { x: 2, y: 0 }, 4);
    let mut game = Game::new();
    let mut status = GameState::Playing;
    let outcome = apply_move(
        &board,
        BoardShiftDirection::Left,
        &mut tiles,
        &mut game,
        &mut status,
    );
    assert!(outcome.changed);
    assert_eq!(outcome.gained, 4);
    assert_eq!(game.score, 4);
    assert_eq!(value_at(&tiles, 0, 0), Some(4));
    assert_eq!(value_at(&tiles, 1, 0), Some(4));
    assert_eq!(tiles.count(), 3);
}

#[test]
fn scenario_blocked_move_is_noop() {
    // A single tile already against the right edge: no change, no spawn, no
    // score.
    let board = board4();
    let mut tiles = TileSet::new();
    let id = tiles.add(Position { x: 3, y: 3 }, 2);
    let mut game = Game::new();
    let mut status = GameState::Playing;
    let outcome = apply_move(
        &board,
        BoardShiftDirection::Right,
        &mut tiles,
        &mut game,
        &mut status,
    );
    assert!(!outcome.changed);
    assert_eq!(outcome.gained, 0);
    assert!(outcome.spawned.is_none());
    assert_eq!(game.score, 0);
    assert_eq!(tiles.count(), 1);
    let t = tiles.get(id).unwrap();
    assert_eq!(t.position, Position { x: 3, y: 3 });
    assert_eq!(t.points.value, 2);
    assert_eq!(status, GameState::Playing);
}

#[test]
fn scenario_checkerboard_is_game_over() {
    let board = board4();
    let mut tiles = TileSet::new();
    checkerboard(&mut tiles);
    let mut game = Game::new();
    let mut status = GameState::Playing;
    // The board is full with no equal neighbors: nothing compacts, so the
    // status check (run after any settle) reports the terminal state.
    assert_eq!(check_game_over(&board, &tiles), Ok(GameState::GameOver));
    // And a move against it changes nothing.
    let outcome = apply_move(
        &board,
        BoardShiftDirection::Left,
        &mut tiles,
        &mut game,
        &mut status,
    );
    assert!(!outcome.changed);
    assert_eq!(tiles.count(), 16);
}

#[test]
fn scenario_reset_keeps_best_score() {
    let board = board4();
    let mut tiles = TileSet::new();
    tiles.add(Position { x: 0, y: 0 }, 512);
    let mut game = Game::new();
    game.on_merge(1024);
    assert_eq!(game.score, 1024);
    assert_eq!(game.best_score, 1024);
    let spawned = reset(&board, &mut tiles, &mut game);
    assert_eq!(game.score, 0);
    assert_eq!(game.best_score, 1024);
    assert_eq!(tiles.count(), 2);
    assert_eq!(spawned.len(), 2);
    assert_ne!(spawned[0].position, spawned[1].position);
    assert_eq!(spawned[0].points.value, 2);
    assert_eq!(spawned[1].points.value, 2);
}

#[test]
fn apply_move_is_ignored_after_game_over() {
    let board = board4();
    let mut tiles = TileSet::new();
    tiles.add(Position { x: 3, y: 0 }, 2);
    let mut game = Game::new();
    let mut status = GameState::GameOver;
    let outcome = apply_move(
        &board,
        BoardShiftDirection::Left,
        &mut tiles,
        &mut game,
        &mut status,
    );
    assert!(!outcome.changed);
    assert_eq!(status, GameState::GameOver);
    assert_eq!(tiles.count(), 1);
    assert_eq!(value_at(&tiles, 3, 0), Some(2));
}

#[test]
fn merge_cap_holds_over_a_full_row_merge() {
    // Four equal tiles merge into two: merges == 2 == count/2, count drops
    // by the number of merges, then one tile spawns.
    let board = board4();
    let mut tiles = TileSet::new();
    for x in 0..4u8 {
        tiles.add(Position { x, y: 0 }, 4);
    }
    let mut game = Game::new();
    let mut status = GameState::Playing;
    let outcome = apply_move(
        &board,
        BoardShiftDirection::Left,
        &mut tiles,
        &mut game,
        &mut status,
    );
    assert!(outcome.changed);
    assert_eq!(outcome.gained, 16);
    assert_eq!(value_at(&tiles, 0, 0), Some(8));
    assert_eq!(value_at(&tiles, 1, 0), Some(8));
    assert_eq!(tiles.count(), 3);
}

#[test]
fn best_score_never_decreases_over_runs() {
    let mut game = Game::new();
    let mut last_best = 0;
    for round in 0..5u32 {
        game.on_merge(4 * (round + 1));
        assert!(game.best_score >= last_best);
        last_best = game.best_score;
        game.on_reset();
        assert!(game.best_score >= last_best);
        last_best = game.best_score;
    }
    assert_eq!(game.best_score, 20);
}

#[test]
fn quiescent_board_has_distinct_positions_after_moves() {
    let board = board4();
    let mut tiles = TileSet::new();
    let mut game = Game::new();
    let mut status = GameState::Playing;
    reset(&board, &mut tiles, &mut game);
    let dirs = [
        BoardShiftDirection::Left,
        BoardShiftDirection::Up,
        BoardShiftDirection::Right,
        BoardShiftDirection::Down,
    ];
    for round in 0..12 {
        let dir = dirs[round % 4];
        apply_move(&board, dir, &mut tiles, &mut game, &mut status);
        let mut cells: Vec<(u8, u8)> = tiles
            .iter_all()
            .iter()
            .map(|t| (t.position.x, t.position.y))
            .collect();
        let before = cells.len();
        cells.sort();
        cells.dedup();
        assert_eq!(cells.len(), before);
        if status == GameState::GameOver {
            break;
        }
    }
}
