use vstd::prelude::*;

use crate::board::{Board, ConfigurationError};
use crate::shift::{
    is_power_of_two, positions_in_range, sum_tiles, values_pow2, BoardShiftDirection,
};
use crate::tile::{
    distinct_positions, lemma_find_at_from, lemma_find_at_unique, lemma_find_id_unique, occupied,
    spec_find_at, Position, Tile, TileSet,
};

verus! {

/// The score pair: the running score of the current game and the best score
/// ever reached in this process.
#[derive(Debug, PartialEq, Eq, Structural, Clone, Copy)]
pub struct Game {
    pub score: u32,
    pub best_score: u32,
}

/// The mathematical view of the score pair.
pub struct ScoreModel {
    pub score: int,
    pub best: int,
}

/// One score-relevant event: a move that gained some merge score, or a game
/// reset.
pub enum ScoreEvent {
    Gained(int),
    Reset,
}

/// What one event does to the score pair: a gain raises the running score
/// and lifts the best score up to it; a reset zeroes the running score and
/// leaves the best score alone.
pub open spec fn score_step(s: ScoreModel, e: ScoreEvent) -> ScoreModel {
    match e {
        ScoreEvent::Gained(a) => ScoreModel {
            score: s.score + a,
            best: if s.best >= s.score + a {
                s.best
            } else {
                s.score + a
            },
        },
        ScoreEvent::Reset => ScoreModel { score: 0, best: s.best },
    }
}

/// The score pair after a whole sequence of events.
pub open spec fn score_run(s: ScoreModel, es: Seq<ScoreEvent>) -> ScoreModel
    decreases es.len(),
{
    if es.len() == 0 {
        s
    } else {
        score_run(score_step(s, es[0]), es.drop_first())
    }
}

/// Law (score monotonicity): across any sequence of moves and resets, the
/// best score never decreases; and once it dominates the running score it
/// keeps doing so.
pub proof fn lemma_best_score_monotone(s: ScoreModel, es: Seq<ScoreEvent>)
    ensures
        score_run(s, es).best >= s.best,
        s.best >= s.score && s.best >= 0 ==> score_run(s, es).best >= score_run(s, es).score,
    decreases es.len(),
{
    if es.len() > 0 {
        lemma_best_score_monotone(score_step(s, es[0]), es.drop_first());
    }
}

impl Game {
    /// The score pair as mathematical integers.
    pub open spec fn model(self) -> ScoreModel {
        ScoreModel { score: self.score as int, best: self.best_score as int }
    }

    /// The tracker's invariant: the best score dominates the running score.
    pub open spec fn wf(self) -> bool {
        self.best_score >= self.score
    }

    pub fn new() -> (r: Game)
        ensures
            r.score == 0,
            r.best_score == 0,
            r.wf(),
    {
        Game { score: 0, best_score: 0 }
    }

    /// ScoreTracker on a merge: adds the merged value to the running score
    /// and lifts the best score up to it.
    pub fn on_merge(&mut self, amount: u32)
        requires
            old(self).score + amount <= u32::MAX,
        ensures
            final(self).model() == score_step(
                old(self).model(),
                ScoreEvent::Gained(amount as int),
            ),
            final(self).score == old(self).score + amount,
            final(self).best_score >= old(self).best_score,
            final(self).wf(),
    {
        self.score = self.score + amount;
        if self.score > self.best_score {
            self.best_score = self.score;
        }
    }

    /// ScoreTracker on a reset: zeroes the running score; the best score
    /// persists.
    pub fn on_reset(&mut self)
        ensures
            final(self).model() == score_step(old(self).model(), ScoreEvent::Reset),
            final(self).score == 0,
            final(self).best_score == old(self).best_score,
            final(self).wf(),
    {
        self.score = 0;
    }
}

impl Default for Game {
    fn default() -> (r: Game)
        ensures
            r.score == 0,
            r.best_score == 0,
            r.wf(),
    {
        Game { score: 0, best_score: 0 }
    }
}

/// Whether the game still accepts moves. It starts `Playing`, turns
/// `GameOver` only through the terminal check, and turns back only through
/// an explicit reset.
#[derive(Debug, Default, PartialEq, Eq, Structural, Clone, Copy, Hash)]
pub enum GameState {
    #[default]
    Playing,
    GameOver,
}

/// Two cells touching along one axis.
pub open spec fn is_adjacent(a: Position, b: Position) -> bool {
    (a.x == b.x && (a.y + 1 == b.y || b.y + 1 == a.y)) || (a.y == b.y && (a.x + 1 == b.x || b.x
        + 1 == a.x))
}

/// Tile `i` has an equal-valued tile on an adjacent cell.
pub open spec fn merge_pair_at(s: Seq<Tile>, i: int) -> bool {
    exists|j: int|
        0 <= j < s.len() && j != i && is_adjacent(s[i].position, (#[trigger] s[j]).position)
            && s[i].points.value == s[j].points.value
}

/// Among the first `n` tiles, some tile has an equal-valued neighbor.
pub open spec fn has_merge_pair_upto(s: Seq<Tile>, n: int) -> bool {
    exists|i: int| 0 <= i < n && #[trigger] merge_pair_at(s, i)
}

/// Some two tiles of `s` stand on adjacent cells and share a value: one more
/// merge is geometrically possible.
pub open spec fn has_merge_pair(s: Seq<Tile>) -> bool {
    has_merge_pair_upto(s, s.len() as int)
}

/// Every cell of a `size`-sided board holds a tile.
pub open spec fn board_full(size: u8, s: Seq<Tile>) -> bool {
    forall|x: int, y: int|
        0 <= x < size && 0 <= y < size ==> #[trigger] occupied(
            s,
            (Position { x: x as u8, y: y as u8 }),
        )
}

/// The terminal rule: the game is over exactly when the board is full and no
/// two adjacent tiles share a value.
pub open spec fn spec_game_status(size: u8, s: Seq<Tile>) -> GameState {
    if board_full(size, s) && !has_merge_pair(s) {
        GameState::GameOver
    } else {
        GameState::Playing
    }
}

/// Law (full-board termination): on a full board the game is over exactly
/// when no two axis-adjacent tiles share a value; a board with a free cell
/// keeps playing.
pub proof fn lemma_terminal_rule(size: u8, s: Seq<Tile>)
    ensures
        board_full(size, s) ==> (spec_game_status(size, s) == GameState::GameOver
            <==> !has_merge_pair(s)),
        !board_full(size, s) ==> spec_game_status(size, s) == GameState::Playing,
{
}

/// The pigeonhole behind the full-board test: tiles standing on distinct
/// in-range cells number at most `size * size`, and exactly that many cover
/// every cell.
pub proof fn lemma_full_iff_count(size: u8, s: Seq<Tile>)
    requires
        size >= 1,
        distinct_positions(s),
        positions_in_range(s, size),
    ensures
        s.len() <= size * size,
        (s.len() == size * size) <==> board_full(size, s),
{
    broadcast use vstd::set::group_set_axioms;

    let n = size as int;
    let f = |t: Tile| (t.position.x as int) * n + (t.position.y as int);
    let cells = s.map_values(f);
    assert(cells.len() == s.len());
    assert forall|i: int, j: int| 0 <= i < j < cells.len() implies cells[i] != cells[j] by {
        if cells[i] == cells[j] {
            vstd::arithmetic::div_mod::lemma_fundamental_div_mod_converse(
                cells[i],
                n,
                s[i].position.x as int,
                s[i].position.y as int,
            );
            vstd::arithmetic::div_mod::lemma_fundamental_div_mod_converse(
                cells[j],
                n,
                s[j].position.x as int,
                s[j].position.y as int,
            );
            assert(s[i].position == s[j].position);
        }
    }
    assert(cells.no_duplicates());
    cells.unique_seq_to_set();
    let range = vstd::set_lib::set_int_range(0, n * n);
    vstd::set_lib::lemma_int_range(0, n * n);
    assert forall|k: int| cells.to_set().contains(k) implies range.contains(k) by {
        let i = choose|i: int| 0 <= i < cells.len() && cells[i] == k;
        let px = s[i].position.x as int;
        let py = s[i].position.y as int;
        assert(0 <= px * n + py < n * n) by (nonlinear_arith)
            requires n >= 1 && 0 <= px < n && 0 <= py < n;
    }
    assert(cells.to_set().subset_of(range));
    vstd::set_lib::lemma_len_subset(cells.to_set(), range);
    assert(s.len() <= n * n);
    if s.len() == n * n {
        assert forall|x: int, y: int| 0 <= x < size && 0 <= y < size implies #[trigger] occupied(
            s,
            (Position { x: x as u8, y: y as u8 }),
        ) by {
            let k = x * n + y;
            assert(0 <= k < n * n) by (nonlinear_arith)
                requires n >= 1 && 0 <= x < n && 0 <= y < n && k == x * n + y;
            assert(range.contains(k));
            if !cells.to_set().contains(k) {
                assert(cells.to_set().subset_of(range.remove(k)));
                vstd::set_lib::lemma_len_subset(cells.to_set(), range.remove(k));
                assert(range.remove(k).len() == n * n - 1);
                assert(false);
            }
            let i = choose|i: int| 0 <= i < cells.len() && cells[i] == k;
            vstd::arithmetic::div_mod::lemma_fundamental_div_mod_converse(
                k,
                n,
                s[i].position.x as int,
                s[i].position.y as int,
            );
            vstd::arithmetic::div_mod::lemma_fundamental_div_mod_converse(k, n, x, y);
            assert(s[i].position == (Position { x: x as u8, y: y as u8 }));
        }
    }
    if board_full(size, s) {
        assert forall|k: int| range.contains(k) implies cells.to_set().contains(k) by {
            crate::board::lemma_cell_index_bounds(k, n);
            let x = k / n;
            let y = k % n;
            assert(occupied(s, (Position { x: x as u8, y: y as u8 })));
            let i = choose|i: int|
                0 <= i < s.len() && (#[trigger] s[i]).position == (Position {
                    x: x as u8,
                    y: y as u8,
                });
            vstd::arithmetic::div_mod::lemma_fundamental_div_mod(k, n);
            assert(cells[i] == x * n + y);
            assert(cells[i] == k);
            assert(cells.to_set().contains(cells[i]));
        }
        assert(range.subset_of(cells.to_set()));
        vstd::set_lib::lemma_len_subset(range, cells.to_set());
        assert(s.len() == n * n);
    }
}

/// Whether the tile standing on `q`, if any, carries value `v`.
fn value_matches(tiles: &TileSet, q: Position, v: u32) -> (r: bool)
    requires
        tiles.wf(),
    ensures
        r == match spec_find_at(tiles@, q) {
            Some(t) => t.points.value == v,
            None => false,
        },
{
    match tiles.find_at(q) {
        None => false,
        Some(id) => {
            proof {
                lemma_find_at_from(tiles@, q, 0);
                match spec_find_at(tiles@, q) {
                    Some(t) => {
                        let j = choose|j: int|
                            0 <= j < tiles@.len() && #[trigger] tiles@[j] == t;
                        lemma_find_id_unique(tiles@, j);
                    },
                    None => {},
                }
            }
            match tiles.get(id) {
                Some(t) => t.points.value == v,
                None => false,
            }
        },
    }
}

/// Whether some tile on a cell axis-adjacent to `t` carries `t`'s value.
fn has_equal_neighbor(board: &Board, tiles: &TileSet, t: Tile) -> (r: bool)
    requires
        tiles.wf(),
        board.size >= 1,
    ensures
        r ==> exists|j: int|
            0 <= j < tiles@.len() && (#[trigger] tiles@[j]) != t && is_adjacent(
                t.position,
                tiles@[j].position,
            ) && tiles@[j].points.value == t.points.value,
        (distinct_positions(tiles@) && positions_in_range(tiles@, board.size)) ==> (r
            <==> exists|j: int|
            0 <= j < tiles@.len() && (#[trigger] tiles@[j]) != t && is_adjacent(
                t.position,
                tiles@[j].position,
            ) && tiles@[j].points.value == t.points.value),
{
    let p = t.position;
    let v = t.points.value;
    let left = p.x > 0 && value_matches(
        tiles,
        Position { x: p.x - 1, y: p.y },
        v,
    );
    let right = p.x < board.size - 1 && value_matches(
        tiles,
        Position { x: p.x + 1, y: p.y },
        v,
    );
    let down = p.y > 0 && value_matches(
        tiles,
        Position { x: p.x, y: p.y - 1 },
        v,
    );
    let up = p.y < board.size - 1 && value_matches(
        tiles,
        Position { x: p.x, y: p.y + 1 },
        v,
    );
    let r = left || right || down || up;
    proof {
        let s = tiles@;
        if r {
            let q = if left {
                Position { x: (p.x - 1) as u8, y: p.y }
            } else if right {
                Position { x: (p.x + 1) as u8, y: p.y }
            } else if down {
                Position { x: p.x, y: (p.y - 1) as u8 }
            } else {
                Position { x: p.x, y: (p.y + 1) as u8 }
            };
            lemma_find_at_from(s, q, 0);
            match spec_find_at(s, q) {
                Some(w) => {
                    let j = choose|j: int| 0 <= j < s.len() && #[trigger] s[j] == w;
                    assert(s[j] != t && is_adjacent(t.position, s[j].position)
                        && s[j].points.value == t.points.value);
                },
                None => {},
            }
        }
        if distinct_positions(s) && positions_in_range(s, board.size) && !r {
            assert forall|j: int|
                0 <= j < s.len() && (#[trigger] s[j]) != t implies !(is_adjacent(
                t.position,
                s[j].position,
            ) && s[j].points.value == t.points.value) by {
                if is_adjacent(t.position, s[j].position) && s[j].points.value
                    == t.points.value {
                    lemma_find_at_unique(s, j);
                    assert(s[j].position.x < board.size && s[j].position.y < board.size);
                    assert(false);
                }
            }
        }
    }
    r
}

/// The terminal detector: decides `GameOver` exactly on a full board where
/// no two axis-adjacent tiles share a value. A board that is not full keeps
/// playing: some direction still compacts into a free cell. Setup
/// violations — a board below the minimum size, or more tiles than cells —
/// fail fast instead of being evaluated.
pub fn check_game_over(board: &Board, tiles: &TileSet) -> (r: Result<
    GameState,
    ConfigurationError,
>)
    requires
        tiles.wf(),
    ensures
        board.size < 2 ==> r == Err::<GameState, ConfigurationError>(
            ConfigurationError::BoardTooSmall,
        ),
        board.size >= 2 ==> ((r == Err::<GameState, ConfigurationError>(
            ConfigurationError::TooManyTiles,
        )) <==> tiles@.len() > board.total_cells()),
        board.size >= 2 && tiles@.len() <= board.total_cells() && distinct_positions(tiles@)
            && positions_in_range(tiles@, board.size) ==> r == Ok::<
            GameState,
            ConfigurationError,
        >(spec_game_status(board.size, tiles@)),
{
    if board.size < 2 {
        return Err(ConfigurationError::BoardTooSmall);
    }
    let total = board.total_tiles() as usize;
    let count = tiles.count();
    if count > total {
        return Err(ConfigurationError::TooManyTiles);
    }
    proof {
        if distinct_positions(tiles@) && positions_in_range(tiles@, board.size) {
            lemma_full_iff_count(board.size, tiles@);
        }
    }
    if count < total {
        return Ok(GameState::Playing);
    }
    let all = tiles.iter_all();
    let mut has_move = false;
    let mut i: usize = 0;
    while i < all.len()
        invariant
            tiles.wf(),
            board.size >= 2,
            all@ == tiles@,
            0 <= i <= tiles@.len(),
            (distinct_positions(tiles@) && positions_in_range(tiles@, board.size)) ==> (
            has_move <==> has_merge_pair_upto(tiles@, i as int)),
        decreases tiles@.len() - i,
    {
        let t = all[i];
        let ghost s = tiles@;
        let ghost before = has_move;
        if has_equal_neighbor(board, tiles, t) {
            has_move = true;
        }
        proof {
            if distinct_positions(s) && positions_in_range(s, board.size) {
                assert forall|j: int| 0 <= j < s.len() implies ((#[trigger] s[j]) != s[i as int]
                    <==> j != i as int) by {
                    if j != i as int && s[j] == s[i as int] {
                        assert(s[j].position == s[i as int].position);
                    }
                }
                if has_move && !before {
                    let j = choose|j: int|
                        0 <= j < s.len() && (#[trigger] s[j]) != t && is_adjacent(
                            t.position,
                            s[j].position,
                        ) && s[j].points.value == t.points.value;
                    assert(merge_pair_at(s, i as int));
                }
                if merge_pair_at(s, i as int) {
                    let j = choose|j: int|
                        0 <= j < s.len() && j != i as int && is_adjacent(
                            s[i as int].position,
                            (#[trigger] s[j]).position,
                        ) && s[i as int].points.value == s[j].points.value;
                    assert(s[j] != t && is_adjacent(t.position, s[j].position)
                        && s[j].points.value == t.points.value);
                    assert(has_move);
                }
                assert forall|k: int| 0 <= k < i + 1 && #[trigger] merge_pair_at(s, k) implies
                    has_merge_pair_upto(s, i + 1) by {}
            }
        }
        i = i + 1;
    }
    if has_move {
        Ok(GameState::Playing)
    } else {
        Ok(GameState::GameOver)
    }
}

/// A reset: destroys every tile, zeroes the running score (the best score
/// persists), and reseeds the board with exactly two random tiles of value 2
/// on distinct cells.
pub fn reset(board: &Board, tiles: &mut TileSet, game: &mut Game) -> (spawned: Vec<Tile>)
    requires
        board.wf(),
        old(tiles).wf(),
        old(tiles).next_id() + 2 <= u64::MAX,
    ensures
        final(game).score == 0,
        final(game).best_score == old(game).best_score,
        final(game).model() == score_step(old(game).model(), ScoreEvent::Reset),
        final(game).wf(),
        final(tiles).wf(),
        final(tiles)@ == spawned@,
        spawned@.len() == 2,
        forall|k: int|
            0 <= k < 2 ==> (#[trigger] spawned@[k]).points.value
                == crate::spawn::SPAWN_VALUE,
        distinct_positions(final(tiles)@),
        positions_in_range(final(tiles)@, board.size),
        values_pow2(final(tiles)@),
        sum_tiles(final(tiles)@) == 4,
        final(tiles).next_id() == old(tiles).next_id() + 2,
{
    tiles.clear();
    game.on_reset();
    let ghost empty = tiles@;
    let spawned = board.spawn_tiles(tiles, 2);
    proof {
        crate::board::lemma_positions_facts(board.size);
        let ps = crate::board::spec_positions(board.size);
        let pred = |p: Position| !occupied(empty, p);
        crate::spawn::lemma_filter_all(ps, pred);
        assert(crate::spawn::spec_free_cells(board.size, empty) == ps);
        assert((board.size as int) * (board.size as int) >= 4) by (nonlinear_arith)
            requires board.size >= 2;
        assert(tiles@ =~= spawned@);
        assert forall|k: int| 0 <= k < tiles@.len() implies (#[trigger] tiles@[k]).position.x
            < board.size && tiles@[k].position.y < board.size by {}
        assert(is_power_of_two(1));
        assert(is_power_of_two(2));
        assert(sum_tiles(spawned@) == 4) by {
            assert(crate::shift::sum_from(spawned@, 2) == 0);
            assert(crate::shift::sum_from(spawned@, 1) == 2);
            assert(crate::shift::sum_from(spawned@, 0) == 4);
        }
    }
    spawned
}

/// What one accepted move reports to the caller: whether the board changed,
/// the merge score gained, and the tile spawned after a change (none when
/// the settled board left no free cell).
pub struct MoveOutcome {
    pub changed: bool,
    pub gained: u32,
    pub spawned: Option<Tile>,
}

/// One full turn: while the game is over, moves are ignored; otherwise the
/// direction is applied, the score tracker records the merges, exactly one
/// tile spawns if anything changed and a cell is free, and the terminal
/// detector settles the new status. A move that changes nothing is a no-op:
/// no spawn, no score change, no status change.
pub fn apply_move(
    board: &Board,
    direction: BoardShiftDirection,
    tiles: &mut TileSet,
    game: &mut Game,
    status: &mut GameState,
) -> (outcome: MoveOutcome)
    requires
        board.wf(),
        old(tiles).wf(),
        distinct_positions(old(tiles)@),
        positions_in_range(old(tiles)@, board.size),
        old(game).score + sum_tiles(old(tiles)@) <= u32::MAX,
        old(tiles).next_id() < u64::MAX,
    ensures
        final(tiles).wf(),
        distinct_positions(final(tiles)@),
        positions_in_range(final(tiles)@, board.size),
        final(game).best_score >= old(game).best_score,
        old(game).wf() ==> final(game).wf(),
        values_pow2(old(tiles)@) ==> values_pow2(final(tiles)@),
        sum_tiles(final(tiles)@) <= sum_tiles(old(tiles)@) + 2,
        final(tiles).next_id() <= old(tiles).next_id() + 1,
        outcome.gained <= sum_tiles(old(tiles)@),
        final(game).score <= old(game).score + outcome.gained,
        *old(status) == GameState::GameOver ==> final(tiles)@ == old(tiles)@ && *final(game)
            == *old(game) && *final(status) == GameState::GameOver && !outcome.changed
            && outcome.gained == 0 && outcome.spawned is None && final(tiles).next_id() == old(
            tiles,
        ).next_id(),
        *old(status) == GameState::Playing ==> outcome.changed == direction.shift_spec(
            board.size,
            old(tiles)@,
        ).moved && outcome.gained as int == direction.shift_spec(
            board.size,
            old(tiles)@,
        ).gained,
        *old(status) == GameState::Playing && !outcome.changed ==> final(tiles)@.to_multiset()
            == old(tiles)@.to_multiset() && *final(game) == *old(game) && *final(status)
            == GameState::Playing && outcome.gained == 0 && final(tiles)@.len() == old(
            tiles,
        )@.len() && outcome.spawned is None && final(tiles).next_id() == old(
            tiles,
        ).next_id(),
        *old(status) == GameState::Playing && outcome.changed ==> final(game).score == old(
            game,
        ).score + outcome.gained && final(game).model() == score_step(
            old(game).model(),
            ScoreEvent::Gained(outcome.gained as int),
        ),
        *old(status) == GameState::Playing && outcome.changed ==> final(tiles)@.subrange(
            0,
            direction.shift_spec(board.size, old(tiles)@).tiles.len() as int,
        ) == direction.shift_spec(board.size, old(tiles)@).tiles,
        *old(status) == GameState::Playing && outcome.changed ==> final(tiles)@.len()
            == direction.shift_spec(board.size, old(tiles)@).tiles.len() + (
        if crate::spawn::spec_free_cells(
            board.size,
            direction.shift_spec(board.size, old(tiles)@).tiles,
        ).len() > 0 {
            1int
        } else {
            0int
        }),
        *old(status) == GameState::Playing && outcome.changed ==> ((outcome.spawned is None)
            <==> crate::spawn::spec_free_cells(
            board.size,
            direction.shift_spec(board.size, old(tiles)@).tiles,
        ).len() == 0),
        *old(status) == GameState::Playing && outcome.changed ==> (outcome.spawned matches Some(
            t,
        ) ==> final(tiles)@ == direction.shift_spec(board.size, old(tiles)@).tiles.push(t)
            && t.points.value == crate::spawn::SPAWN_VALUE && !occupied(
            direction.shift_spec(board.size, old(tiles)@).tiles,
            t.position,
        ) && t.position.x < board.size && t.position.y < board.size),
        *old(status) == GameState::Playing && outcome.changed ==> *final(status)
            == spec_game_status(board.size, final(tiles)@),
{
    if *status == GameState::GameOver {
        proof {
            crate::shift::lemma_sum_from_nonneg(tiles@, 0);
        }
        return MoveOutcome { changed: false, gained: 0, spawned: None };
    }
    let (changed, gained) = direction.shift(board, tiles);
    if !changed {
        proof {
            crate::shift::lemma_sum_permutation(old(tiles)@, tiles@);
        }
        return MoveOutcome { changed: false, gained, spawned: None };
    }
    game.on_merge(gained);
    let ghost settled = tiles@;
    let spawned_vec = board.spawn_tiles(tiles, 1);
    let spawned = if spawned_vec.len() > 0 {
        Some(*spawned_vec.get(0).unwrap())
    } else {
        None
    };
    proof {
        if spawned_vec@.len() > 0 {
            assert(tiles@ =~= settled.push(spawned_vec@[0]));
            crate::shift::lemma_sum_push(settled, spawned_vec@[0]);
        } else {
            assert(tiles@ =~= settled);
        }
        if values_pow2(old(tiles)@) {
            assert(is_power_of_two(1));
            assert(is_power_of_two(2));
            assert forall|k: int| 0 <= k < tiles@.len() implies is_power_of_two(
                (#[trigger] tiles@[k]).points.value as int,
            ) && tiles@[k].points.value >= 2 by {
                if k < settled.len() {
                    assert(tiles@[k] == settled[k]);
                }
            }
        }
        assert forall|k: int| 0 <= k < tiles@.len() implies (#[trigger] tiles@[k]).position.x
            < board.size && tiles@[k].position.y < board.size by {
            if k < settled.len() {
                assert(tiles@[k] == settled[k]);
            }
        }
        lemma_full_iff_count(board.size, tiles@);
    }
    let verdict = check_game_over(board, tiles);
    match verdict {
        Ok(st) => {
            *status = st;
        },
        Err(_) => {
            proof {
                assert(false);
            }
        },
    }
    MoveOutcome { changed: true, gained, spawned }
}

} // verus!
