use vstd::prelude::*;

use crate::board::Board;
use crate::tile::{distinct_ids, distinct_positions, Points, Position, Tile, TileSet};
use core::cmp::Ordering;
use itertools::Itertools;

verus! {

/// The four player moves: tiles compact toward the named edge.
#[derive(Debug, PartialEq, Eq, Structural, Clone, Copy)]
pub enum BoardShiftDirection {
    Left,
    Right,
    Up,
    Down,
}

/// Every coordinate of every tile of `s` lies inside a `size`-sided board.
pub open spec fn positions_in_range(s: Seq<Tile>, size: u8) -> bool {
    forall|k: int|
        0 <= k < s.len() ==> (#[trigger] s[k]).position.x < size && s[k].position.y < size
}

/// `v` is a power of two.
pub open spec fn is_power_of_two(v: int) -> bool
    decreases v,
{
    if v <= 0 {
        false
    } else if v == 1 {
        true
    } else {
        v % 2 == 0 && is_power_of_two(v / 2)
    }
}

/// Every tile of `s` carries a power-of-two value of at least 2.
pub open spec fn values_pow2(s: Seq<Tile>) -> bool {
    forall|k: int|
        0 <= k < s.len() ==> is_power_of_two((#[trigger] s[k]).points.value as int) && s[k].points.value
            >= 2
}

/// The summed point values of the tiles of `s` from index `i` on.
pub open spec fn sum_from(s: Seq<Tile>, i: int) -> int
    decreases s.len() - i,
{
    if i < 0 || i >= s.len() {
        0
    } else {
        s[i].points.value + sum_from(s, i + 1)
    }
}

/// The summed point values of all tiles of `s`.
pub open spec fn sum_tiles(s: Seq<Tile>) -> int {
    sum_from(s, 0)
}

/// The result of one directional pass: the settled tiles in traversal order,
/// the score gained from merges, the number of merges, and whether anything
/// about the board changed.
pub struct ShiftOutcome {
    pub tiles: Seq<Tile>,
    pub gained: int,
    pub merges: int,
    pub moved: bool,
}

impl BoardShiftDirection {
    /// The lane coordinate: the axis a sliding tile keeps — the row for
    /// horizontal moves, the column for vertical ones.
    pub open spec fn spec_row(self, p: Position) -> u8 {
        match self {
            BoardShiftDirection::Left | BoardShiftDirection::Right => p.y,
            BoardShiftDirection::Up | BoardShiftDirection::Down => p.x,
        }
    }

    /// A rank for the lane coordinate, negated where the traversal walks
    /// lanes in descending order, so that the sort is ascending in it.
    pub open spec fn lane_rank(self, p: Position) -> int {
        match self {
            BoardShiftDirection::Left => p.y as int,
            BoardShiftDirection::Right => -(p.y as int),
            BoardShiftDirection::Up => -(p.x as int),
            BoardShiftDirection::Down => p.x as int,
        }
    }

    /// A rank for the sliding coordinate, oriented so that tiles closer to
    /// the destination edge rank lower.
    pub open spec fn dist_rank(self, p: Position) -> int {
        match self {
            BoardShiftDirection::Left => p.x as int,
            BoardShiftDirection::Right => -(p.x as int),
            BoardShiftDirection::Up => -(p.y as int),
            BoardShiftDirection::Down => p.y as int,
        }
    }

    /// How many slots from the destination edge `p` stands, inside a
    /// `size`-sided board: 0 names the edge itself.
    pub open spec fn edge_distance(self, size: u8, p: Position) -> int {
        match self {
            BoardShiftDirection::Left => p.x as int,
            BoardShiftDirection::Right => size - 1 - p.x,
            BoardShiftDirection::Up => size - 1 - p.y,
            BoardShiftDirection::Down => p.y as int,
        }
    }

    /// Strict traversal order on cells: lanes first, then distance to the
    /// destination edge.
    pub open spec fn pos_rank_lt(self, a: Position, b: Position) -> bool {
        self.lane_rank(a) < self.lane_rank(b) || (self.lane_rank(a) == self.lane_rank(b)
            && self.dist_rank(a) < self.dist_rank(b))
    }

    /// A total order on tiles: traversal order on cells, identities and
    /// values breaking the (never occurring) ties between tiles that share a
    /// cell.
    pub open spec fn tile_le(self, a: Tile, b: Tile) -> bool {
        ||| self.pos_rank_lt(a.position, b.position)
        ||| (a.position == b.position && a.id < b.id)
        ||| (a.position == b.position && a.id == b.id && a.points.value <= b.points.value)
    }

    /// `tile_le` as a closure, for vstd's sorting vocabulary.
    pub open spec fn tile_order(self) -> spec_fn(Tile, Tile) -> bool {
        |a: Tile, b: Tile| self.tile_le(a, b)
    }

    /// Cells with equal ranks are the same cell.
    pub proof fn lemma_rank_injective(self, a: Position, b: Position)
        requires
            self.lane_rank(a) == self.lane_rank(b),
            self.dist_rank(a) == self.dist_rank(b),
        ensures
            a == b,
    {
    }

    /// The tie-broken traversal order is a total order, as vstd's sorting
    /// lemmas demand.
    pub proof fn lemma_tile_le_total(self)
        ensures
            vstd::relations::total_ordering(self.tile_order()),
    {
        let leq = self.tile_order();
        assert forall|a: Tile, b: Tile| #[trigger] leq(a, b) && #[trigger] leq(b, a) implies a
            == b by {
            if a.position != b.position {
                assert(!(self.pos_rank_lt(a.position, b.position) && self.pos_rank_lt(
                    b.position,
                    a.position,
                )));
                self.lemma_rank_injective(a.position, b.position);
            }
        }
        assert forall|a: Tile, b: Tile| #[trigger] leq(a, b) || #[trigger] leq(b, a) by {
            if a.position != b.position {
                if !self.pos_rank_lt(a.position, b.position) && !self.pos_rank_lt(
                    b.position,
                    a.position,
                ) {
                    self.lemma_rank_injective(a.position, b.position);
                }
            }
        }
        assert forall|a: Tile, b: Tile, c: Tile|
            #[trigger] leq(a, b) && #[trigger] leq(b, c) implies leq(a, c) by {
            if a.position == b.position && b.position != c.position {
            } else if a.position != b.position && b.position == c.position {
            }
        }
    }

    /// The sorted traversal sequence of `s` for this direction.
    pub open spec fn sorted_tiles(self, s: Seq<Tile>) -> Seq<Tile> {
        s.sort_by(self.tile_order())
    }

    /// The cell that slot number `column` of a lane maps to: counted from
    /// the destination edge, keeping the lane coordinate of `p`.
    pub open spec fn spec_slot(self, size: u8, p: Position, column: int) -> Position {
        match self {
            BoardShiftDirection::Left => Position { x: column as u8, y: p.y },
            BoardShiftDirection::Right => Position { x: (size - 1 - column) as u8, y: p.y },
            BoardShiftDirection::Up => Position { x: p.x, y: (size - 1 - column) as u8 },
            BoardShiftDirection::Down => Position { x: p.x, y: column as u8 },
        }
    }

    /// `t` moved to slot `column` of its lane.
    pub open spec fn spec_place(self, size: u8, t: Tile, column: int) -> Tile {
        Tile { id: t.id, position: self.spec_slot(size, t.position, column), points: t.points }
    }

    /// The single forward pass of the move algorithm over the sorted
    /// traversal sequence `s`, from index `i` on, with `column` the next
    /// free slot of the current lane. Each tile is placed at the running
    /// slot; a lane change resets the slot; an equal-valued successor in the
    /// same lane is absorbed into the current tile, which cannot merge again
    /// because the pass then advances past both.
    pub open spec fn shift_pass(self, size: u8, s: Seq<Tile>, i: int, column: int) -> ShiftOutcome
        decreases s.len() - i,
    {
        if i < 0 || i >= s.len() {
            ShiftOutcome { tiles: Seq::empty(), gained: 0, merges: 0, moved: false }
        } else {
            let cur = s[i];
            let placed = self.spec_place(size, cur, column);
            if i + 1 >= s.len() {
                ShiftOutcome { tiles: seq![placed], gained: 0, merges: 0, moved: placed != cur }
            } else if self.spec_row(s[i + 1].position) != self.spec_row(cur.position) {
                let rest = self.shift_pass(size, s, i + 1, 0);
                ShiftOutcome {
                    tiles: seq![placed] + rest.tiles,
                    gained: rest.gained,
                    merges: rest.merges,
                    moved: placed != cur || rest.moved,
                }
            } else if s[i + 1].points.value != cur.points.value {
                let rest = self.shift_pass(size, s, i + 1, column + 1);
                ShiftOutcome {
                    tiles: seq![placed] + rest.tiles,
                    gained: rest.gained,
                    merges: rest.merges,
                    moved: placed != cur || rest.moved,
                }
            } else {
                let merged = Tile {
                    id: cur.id,
                    position: placed.position,
                    points: Points {
                        value: (cur.points.value + s[i + 1].points.value) as u32,
                    },
                };
                let rest = if i + 2 < s.len() && self.spec_row(s[i + 2].position)
                    == self.spec_row(cur.position) {
                    self.shift_pass(size, s, i + 2, column + 1)
                } else {
                    self.shift_pass(size, s, i + 2, 0)
                };
                ShiftOutcome {
                    tiles: seq![merged] + rest.tiles,
                    gained: rest.gained + cur.points.value + s[i + 1].points.value,
                    merges: rest.merges + 1,
                    moved: true,
                }
            }
        }
    }

    /// What one move does to the board `s`: sort into traversal order, then
    /// run the forward pass from slot 0.
    pub open spec fn shift_spec(self, size: u8, s: Seq<Tile>) -> ShiftOutcome {
        self.shift_pass(size, self.sorted_tiles(s), 0, 0)
    }

    /// Applies this move to the board: sorts the tiles into traversal order,
    /// runs the single forward pass — compacting each lane toward the edge
    /// and merging each equal-valued adjacent pair once — and installs the
    /// settled tiles. Returns whether anything changed and the score gained.
    pub fn shift(self, board: &Board, tiles: &mut TileSet) -> (r: (bool, u32))
        requires
            old(tiles).wf(),
            distinct_positions(old(tiles)@),
            positions_in_range(old(tiles)@, board.size),
            board.wf(),
            sum_tiles(old(tiles)@) <= u32::MAX,
        ensures
            final(tiles)@ == self.shift_spec(board.size, old(tiles)@).tiles,
            r.0 == self.shift_spec(board.size, old(tiles)@).moved,
            r.1 as int == self.shift_spec(board.size, old(tiles)@).gained,
            r.1 <= sum_tiles(old(tiles)@),
            final(tiles).next_id() == old(tiles).next_id(),
            final(tiles).wf(),
            distinct_positions(final(tiles)@),
            positions_in_range(final(tiles)@, board.size),
            values_pow2(old(tiles)@) ==> values_pow2(final(tiles)@),
            sum_tiles(final(tiles)@) == sum_tiles(old(tiles)@),
            final(tiles)@.len() + self.shift_spec(board.size, old(tiles)@).merges == old(
                tiles,
            )@.len(),
            0 <= self.shift_spec(board.size, old(tiles)@).merges,
            2 * self.shift_spec(board.size, old(tiles)@).merges <= old(tiles)@.len(),
            !r.0 ==> final(tiles)@.to_multiset() == old(tiles)@.to_multiset(),
            !r.0 ==> r.1 == 0 && final(tiles)@.len() == old(tiles)@.len(),
    {
        let ghost orig = tiles@;
        let snapshot = tiles.iter_all();
        let sorted = sorted_by_direction(self, snapshot);
        let ghost ss = sorted@;
        proof {
            self.lemma_sorted_perm_unique(orig, ss);
            self.lemma_sorted_tiles_props(orig);
            lemma_sum_permutation(orig, ss);
            assert forall|k: int| 0 <= k < ss.len() implies (#[trigger] ss[k]).position.x
                < board.size && ss[k].position.y < board.size && ss[k].id < old(
                tiles,
            ).next_id() by {
                assert(ss.contains(ss[k]));
                assert(orig.contains(ss[k]));
                let l = choose|l: int| 0 <= l < orig.len() && orig[l] == ss[k];
                assert(orig[l].id < old(tiles).next_id());
            }
            if values_pow2(orig) {
                assert forall|k: int| 0 <= k < ss.len() implies is_power_of_two(
                    (#[trigger] ss[k]).points.value as int,
                ) && ss[k].points.value >= 2 by {
                    assert(ss.contains(ss[k]));
                    assert(orig.contains(ss[k]));
                    let l = choose|l: int| 0 <= l < orig.len() && orig[l] == ss[k];
                    assert(is_power_of_two(orig[l].points.value as int));
                }
            }
            if ss.len() > 0 {
                self.lemma_rank_facts(board.size, ss[0].position, ss[0].position);
            }
            assert(self.pass_pre(board.size, ss, 0, 0));
            self.lemma_pass_geometry(board.size, ss, 0, 0);
            self.lemma_pass_contents(board.size, ss, 0, 0);
        }
        let ghost full = self.shift_pass(board.size, ss, 0, 0);
        let mut out: Vec<Tile> = Vec::new();
        let mut gained: u32 = 0;
        let mut moved = false;
        let mut i: usize = 0;
        let mut column: u8 = 0;
        let n = sorted.len();
        while i < n
            invariant
                n == ss.len(),
                sorted@ == ss,
                board.size >= 2,
                0 <= i <= n,
                column < board.size,
                self.pass_pre(board.size, ss, i as int, column as int),
                full == self.shift_pass(board.size, ss, 0, 0),
                full.tiles == out@ + self.shift_pass(
                    board.size,
                    ss,
                    i as int,
                    column as int,
                ).tiles,
                full.gained == gained + self.shift_pass(
                    board.size,
                    ss,
                    i as int,
                    column as int,
                ).gained,
                full.moved == (moved || self.shift_pass(
                    board.size,
                    ss,
                    i as int,
                    column as int,
                ).moved),
                sum_tiles(ss) <= u32::MAX,
                gained + sum_from(ss, i as int) <= sum_tiles(ss),
            decreases n - i,
        {
            let ghost rest = self.shift_pass(board.size, ss, i as int, column as int);
            let ghost out_prev = out@;
            let cur = sorted[i];
            let mut pos = cur.position;
            self.set_position_column(board.size, &mut pos, column);
            let placed = Tile { id: cur.id, position: pos, points: cur.points };
            proof {
                assert(placed == self.spec_place(board.size, ss[i as int], column as int));
                self.lemma_place_props(board.size, cur.position, column as int);
                lemma_sum_from_nonneg(ss, i + 1);
                assert(sum_from(ss, i as int) == cur.points.value + sum_from(ss, i + 1));
            }
            if i + 1 >= n {
                out.push(placed);
                moved = moved || placed != cur;
                i = i + 1;
                proof {
                    assert(rest.tiles == seq![placed]);
                    assert(out@ =~= out_prev + seq![placed]);
                    assert(full.tiles =~= out@ + self.shift_pass(
                        board.size,
                        ss,
                        i as int,
                        column as int,
                    ).tiles);
                }
            } else {
                let nxt = sorted[i + 1];
                let row_cur = self.get_position_row(&pos);
                let row_nxt = self.get_position_row(&nxt.position);
                proof {
                    assert(row_cur == self.spec_row(cur.position));
                    assert(self.pos_rank_lt(cur.position, nxt.position));
                    self.lemma_rank_facts(board.size, cur.position, nxt.position);
                    lemma_sum_from_nonneg(ss, i + 2);
                    assert(sum_from(ss, i + 1) == ss[i + 1].points.value + sum_from(ss, i + 2));
                }
                if row_nxt != row_cur {
                    out.push(placed);
                    moved = moved || placed != cur;
                    i = i + 1;
                    column = 0;
                    proof {
                        assert(out@ =~= out_prev + seq![placed]);
                        assert(rest.tiles =~= seq![placed] + self.shift_pass(
                            board.size,
                            ss,
                            i as int,
                            0,
                        ).tiles);
                        assert(full.tiles =~= out@ + self.shift_pass(
                            board.size,
                            ss,
                            i as int,
                            column as int,
                        ).tiles);
                    }
                } else if nxt.points.value != cur.points.value {
                    proof {
                        assert(column + 1 <= self.edge_distance(board.size, nxt.position));
                    }
                    out.push(placed);
                    moved = moved || placed != cur;
                    i = i + 1;
                    column = column + 1;
                    proof {
                        assert(out@ =~= out_prev + seq![placed]);
                        assert(full.tiles =~= out@ + self.shift_pass(
                            board.size,
                            ss,
                            i as int,
                            column as int,
                        ).tiles);
                    }
                } else {
                    proof {
                        assert(cur.points.value + nxt.points.value <= sum_from(ss, i as int));
                        assert(gained + sum_from(ss, i as int) <= u32::MAX);
                    }
                    let merged_value = cur.points.value + nxt.points.value;
                    let merged = Tile {
                        id: placed.id,
                        position: placed.position,
                        points: Points { value: merged_value },
                    };
                    out.push(merged);
                    gained = gained + merged_value;
                    moved = true;
                    if i + 2 < n {
                        let fut = sorted[i + 2];
                        let row_fut = self.get_position_row(&fut.position);
                        proof {
                            self.lemma_rank_facts(board.size, cur.position, fut.position);
                            self.lemma_rank_facts(board.size, nxt.position, fut.position);
                            assert(self.pos_rank_lt(cur.position, fut.position));
                            assert(self.pos_rank_lt(nxt.position, fut.position));
                        }
                        if row_fut != row_cur {
                            column = 0;
                        } else {
                            proof {
                                assert(column + 1 <= self.edge_distance(
                                    board.size,
                                    fut.position,
                                ));
                            }
                            column = column + 1;
                        }
                    } else {
                        column = 0;
                    }
                    i = i + 2;
                    proof {
                        assert(out@ =~= out_prev + seq![merged]);
                        assert(rest.tiles =~= seq![merged] + self.shift_pass(
                            board.size,
                            ss,
                            i as int,
                            column as int,
                        ).tiles);
                        assert(full.tiles =~= out@ + self.shift_pass(
                            board.size,
                            ss,
                            i as int,
                            column as int,
                        ).tiles);
                    }
                }
            }
        }
        proof {
            assert(self.shift_pass(board.size, ss, i as int, column as int).tiles
                == Seq::<Tile>::empty());
            assert(full.tiles =~= out@);
            assert forall|k: int| 0 <= k < out@.len() implies (#[trigger] out@[k]).id < old(
                tiles,
            ).next_id() by {
                let j = choose|j: int| 0 <= j < ss.len() && (#[trigger] out@[k]).id == ss[j].id;
                assert(ss[j].id < old(tiles).next_id());
            }
            if !full.moved {
                assert(full.tiles == ss.subrange(0, ss.len() as int));
                assert(ss.subrange(0, ss.len() as int) =~= ss);
            }
        }
        tiles.set_tiles(out);
        (moved, gained)
    }

    /// The lane coordinate of a cell (the row for horizontal moves, the
    /// column for vertical ones).
    pub fn get_position_row(&self, position: &Position) -> (r: u8)
        ensures
            r == self.spec_row(*position),
    {
        match self {
            BoardShiftDirection::Left | BoardShiftDirection::Right => position.y,
            BoardShiftDirection::Up | BoardShiftDirection::Down => position.x,
        }
    }

    /// Moves `position` to slot `new_column` of its lane, counted from the
    /// destination edge.
    pub fn set_position_column(
        &self,
        board_size: u8,
        position: &mut Position,
        new_column: u8,
    )
        requires
            new_column < board_size,
        ensures
            *final(position) == self.spec_slot(board_size, *old(position), new_column as int),
    {
        match self {
            BoardShiftDirection::Left => position.x = new_column,
            BoardShiftDirection::Right => position.x = board_size - 1 - new_column,
            BoardShiftDirection::Up => position.y = board_size - 1 - new_column,
            BoardShiftDirection::Down => position.y = new_column,
        }
    }

    /// The traversal comparator: lanes ascending for Left/Down moves and
    /// descending for Right/Up, with the coordinate nearer the destination
    /// edge always first within a lane.
    pub fn sort_tiles(&self, a: &Position, b: &Position) -> (r: Ordering)
        ensures
            r == Ordering::Less <==> self.pos_rank_lt(*a, *b),
            r == Ordering::Greater <==> self.pos_rank_lt(*b, *a),
            r == Ordering::Equal <==> *a == *b,
    {
        proof {
            if self.lane_rank(*a) == self.lane_rank(*b) && self.dist_rank(*a) == self.dist_rank(
                *b,
            ) {
                self.lemma_rank_injective(*a, *b);
            }
        }
        match self {
            BoardShiftDirection::Left => match cmp_u8(a.y, b.y) {
                Ordering::Equal => cmp_u8(a.x, b.x),
                ordering => ordering,
            },
            BoardShiftDirection::Right => match cmp_u8(b.y, a.y) {
                Ordering::Equal => cmp_u8(b.x, a.x),
                ordering => ordering,
            },
            BoardShiftDirection::Up => match cmp_u8(b.x, a.x) {
                Ordering::Equal => cmp_u8(b.y, a.y),
                ordering => ordering,
            },
            BoardShiftDirection::Down => match cmp_u8(a.x, b.x) {
                Ordering::Equal => cmp_u8(a.y, b.y),
                ordering => ordering,
            },
        }
    }
}

/// Three-way comparison of two cell coordinates.
fn cmp_u8(a: u8, b: u8) -> (r: Ordering)
    ensures
        r == Ordering::Less <==> a < b,
        r == Ordering::Greater <==> a > b,
        r == Ordering::Equal <==> a == b,
{
    if a < b {
        Ordering::Less
    } else if a == b {
        Ordering::Equal
    } else {
        Ordering::Greater
    }
}

/// Tile values never go negative, so partial sums never do either.
pub proof fn lemma_sum_from_nonneg(s: Seq<Tile>, i: int)
    ensures
        sum_from(s, i) >= 0,
    decreases s.len() - i,
{
    if 0 <= i < s.len() {
        lemma_sum_from_nonneg(s, i + 1);
    }
}

/// Dropping the entry at `m` drops exactly its value from any partial sum
/// that still covers it.
proof fn lemma_sum_remove(s: Seq<Tile>, m: int, k: int)
    requires
        0 <= k <= m < s.len(),
    ensures
        sum_from(s.remove(m), k) == sum_from(s, k) - s[m].points.value,
    decreases m - k,
{
    if k == m {
        lemma_sum_tail_shift(s, m, m);
    } else {
        lemma_sum_remove(s, m, k + 1);
    }
}

/// Past the removal point, partial sums of `s.remove(m)` track those of `s`
/// one index later.
proof fn lemma_sum_tail_shift(s: Seq<Tile>, m: int, j: int)
    requires
        0 <= m <= j <= s.len() - 1,
        m < s.len(),
    ensures
        sum_from(s.remove(m), j) == sum_from(s, j + 1),
    decreases s.len() - j,
{
    if j < s.len() - 1 {
        assert(s.remove(m)[j] == s[j + 1]);
        lemma_sum_tail_shift(s, m, j + 1);
    }
}

/// Appending one tile adds its value to the sum.
pub proof fn lemma_sum_push(s: Seq<Tile>, t: Tile)
    ensures
        sum_tiles(s.push(t)) == sum_tiles(s) + t.points.value,
{
    lemma_sum_remove(s.push(t), s.len() as int, 0);
    assert(s.push(t).remove(s.len() as int) =~= s);
}

/// Reordering tiles does not change their summed value.
pub proof fn lemma_sum_permutation(a: Seq<Tile>, b: Seq<Tile>)
    requires
        a.to_multiset() == b.to_multiset(),
    ensures
        sum_tiles(a) == sum_tiles(b),
    decreases a.len(),
{
    broadcast use vstd::seq_lib::group_to_multiset_ensures;

    if a.len() == 0 {
        assert(b.len() == b.to_multiset().len());
    } else {
        let x = a[0];
        assert(a.contains(x));
        assert(a.to_multiset().count(x) > 0);
        assert(b.to_multiset().count(x) > 0);
        assert(b.contains(x));
        let m = choose|m: int| 0 <= m < b.len() && b[m] == x;
        assert(a.remove(0).to_multiset() == a.to_multiset().remove(x));
        assert(b.remove(m).to_multiset() == b.to_multiset().remove(x));
        lemma_sum_permutation(a.remove(0), b.remove(m));
        lemma_sum_remove(a, 0, 0);
        lemma_sum_remove(b, m, 0);
    }
}

/// Prepending one tile adds its value to the sum.
proof fn lemma_sum_cons(t: Tile, r: Seq<Tile>)
    ensures
        sum_tiles(seq![t] + r) == t.points.value + sum_tiles(r),
{
    let c = seq![t] + r;
    assert(c[0] == t);
    lemma_sum_cons_shift(t, r, 0);
}

/// Partial sums of a prepended sequence track those of the tail one index
/// earlier.
proof fn lemma_sum_cons_shift(t: Tile, r: Seq<Tile>, k: int)
    requires
        0 <= k <= r.len(),
    ensures
        sum_from(seq![t] + r, k + 1) == sum_from(r, k),
    decreases r.len() - k,
{
    if k < r.len() {
        assert((seq![t] + r)[k + 1] == r[k]);
        lemma_sum_cons_shift(t, r, k + 1);
    }
}

/// Rearranging tiles does not disturb the store's invariants: a permutation
/// of a duplicate-free board is a duplicate-free board with the same tiles.
pub proof fn lemma_perm_distinct_positions(a: Seq<Tile>, b: Seq<Tile>)
    requires
        a.to_multiset() == b.to_multiset(),
        distinct_positions(a),
    ensures
        b.len() == a.len(),
        distinct_positions(b),
        forall|t: Tile| a.contains(t) <==> b.contains(t),
        distinct_ids(a) ==> distinct_ids(b),
{
    broadcast use vstd::seq_lib::group_to_multiset_ensures;

    assert(a.len() == a.to_multiset().len());
    assert(b.len() == b.to_multiset().len());
    assert forall|t: Tile| a.contains(t) <==> b.contains(t) by {
        if a.contains(t) {
            assert(a.to_multiset().count(t) > 0);
        }
        if b.contains(t) {
            assert(b.to_multiset().count(t) > 0);
        }
    }
    assert(a.no_duplicates()) by {
        assert forall|i: int, j: int| 0 <= i < j < a.len() implies a[i] != a[j] by {
            assert(a[i].position != a[j].position);
        }
    }
    a.lemma_multiset_has_no_duplicates();
    b.lemma_multiset_has_no_duplicates_conv();
    assert forall|i: int, j: int| 0 <= i < j < b.len() implies b[i].position
        != b[j].position by {
        if b[i].position == b[j].position {
            assert(b[i] != b[j]);
            assert(b.contains(b[i]) && b.contains(b[j]));
            assert(b.to_multiset().count(b[i]) > 0 && b.to_multiset().count(b[j]) > 0);
            assert(a.to_multiset().count(b[i]) > 0 && a.to_multiset().count(b[j]) > 0);
            assert(a.contains(b[i]) && a.contains(b[j]));
            let k = choose|k: int| 0 <= k < a.len() && a[k] == b[i];
            let l = choose|l: int| 0 <= l < a.len() && a[l] == b[j];
            assert(a[k].position == a[l].position && k != l);
        }
    }
    if distinct_ids(a) {
        assert forall|i: int, j: int| 0 <= i < j < b.len() implies b[i].id != b[j].id by {
            if b[i].id == b[j].id {
                assert(b[i] != b[j]);
                assert(b.contains(b[i]) && b.contains(b[j]));
                assert(b.to_multiset().count(b[i]) > 0 && b.to_multiset().count(b[j]) > 0);
                assert(a.to_multiset().count(b[i]) > 0 && a.to_multiset().count(b[j]) > 0);
                assert(a.contains(b[i]) && a.contains(b[j]));
                let k = choose|k: int| 0 <= k < a.len() && a[k] == b[i];
                let l = choose|l: int| 0 <= l < a.len() && a[l] == b[j];
                assert(a[k].id == a[l].id && k != l);
            }
        }
    }
}

impl BoardShiftDirection {
    /// On a board without shared cells the traversal order is unambiguous:
    /// any rank-sorted permutation is the one sorted traversal sequence.
    pub proof fn lemma_sorted_perm_unique(self, s: Seq<Tile>, r: Seq<Tile>)
        requires
            distinct_positions(s),
            r.to_multiset() == s.to_multiset(),
            forall|i: int, j: int|
                0 <= i < j < r.len() ==> !self.pos_rank_lt(r[j].position, r[i].position),
        ensures
            r == self.sorted_tiles(s),
    {
        self.lemma_tile_le_total();
        s.lemma_sort_by_ensures(self.tile_order());
        let ss = self.sorted_tiles(s);
        assert(s.to_multiset() == ss.to_multiset());
        lemma_perm_distinct_positions(s, r);
        assert forall|i: int, j: int| 0 <= i < j < r.len() implies #[trigger] self.tile_order()(
            r[i],
            r[j],
        ) by {
            assert(r[i].position != r[j].position);
            assert(!self.pos_rank_lt(r[j].position, r[i].position));
            if !self.pos_rank_lt(r[i].position, r[j].position) {
                self.lemma_rank_injective(r[i].position, r[j].position);
            }
        }
        assert(vstd::relations::sorted_by(r, self.tile_order()));
        vstd::seq_lib::lemma_sorted_unique(r, ss, self.tile_order());
        assert(r =~= ss);
    }

    /// What the forward pass runs under: a board of in-range cells, sorted
    /// strictly into traversal order from the front, with the pending slot
    /// `column` no farther from the edge than the next tile stands.
    pub open spec fn pass_pre(self, size: u8, s: Seq<Tile>, i: int, column: int) -> bool {
        &&& 0 <= i <= s.len()
        &&& 0 <= column
        &&& positions_in_range(s, size)
        &&& (forall|j: int, k: int|
            0 <= j < k < s.len() ==> self.pos_rank_lt(
                (#[trigger] s[j]).position,
                (#[trigger] s[k]).position,
            ))
        &&& (i < s.len() ==> column <= self.edge_distance(size, s[i].position))
    }

    /// Placing a tile into slot `column` keeps it on the board and in its
    /// lane, exactly `column` slots from the destination edge.
    proof fn lemma_place_props(self, size: u8, p: Position, c: int)
        requires
            p.x < size,
            p.y < size,
            0 <= c < size,
        ensures
            self.spec_slot(size, p, c).x < size,
            self.spec_slot(size, p, c).y < size,
            self.lane_rank(self.spec_slot(size, p, c)) == self.lane_rank(p),
            self.spec_row(self.spec_slot(size, p, c)) == self.spec_row(p),
            self.edge_distance(size, self.spec_slot(size, p, c)) == c,
    {
    }

    /// How the ranks fit together: sharing a lane is sharing a lane rank,
    /// and within a lane the distance rank orders tiles by their distance to
    /// the destination edge.
    proof fn lemma_rank_facts(self, size: u8, a: Position, b: Position)
        ensures
            (self.spec_row(a) == self.spec_row(b)) <==> (self.lane_rank(a) == self.lane_rank(
                b,
            )),
            (self.dist_rank(a) < self.dist_rank(b)) <==> (self.edge_distance(size, a)
                < self.edge_distance(size, b)),
            0 <= self.edge_distance(size, a) < size || !(a.x < size && a.y < size),
    {
    }

    /// The geometry of one pass: every tile lands on the board, no two land
    /// on the same cell, each merge removes exactly one tile, and at most
    /// every second tile can merge. Tiles keep to lanes at or past the one
    /// being filled, and within the current lane they land at slot `column`
    /// or beyond — which is what keeps the landing cells distinct.
    pub proof fn lemma_pass_geometry(self, size: u8, s: Seq<Tile>, i: int, column: int)
        requires
            self.pass_pre(size, s, i, column),
            size >= 1,
        ensures
            self.shift_pass(size, s, i, column).tiles.len() + self.shift_pass(
                size,
                s,
                i,
                column,
            ).merges == s.len() - i,
            0 <= self.shift_pass(size, s, i, column).merges,
            2 * self.shift_pass(size, s, i, column).merges <= s.len() - i,
            positions_in_range(self.shift_pass(size, s, i, column).tiles, size),
            distinct_positions(self.shift_pass(size, s, i, column).tiles),
            i < s.len() ==> forall|k: int|
                0 <= k < self.shift_pass(size, s, i, column).tiles.len() ==> self.lane_rank(
                    (#[trigger] self.shift_pass(size, s, i, column).tiles[k]).position,
                ) >= self.lane_rank(s[i].position),
            i < s.len() ==> forall|k: int|
                0 <= k < self.shift_pass(size, s, i, column).tiles.len() && self.lane_rank(
                    (#[trigger] self.shift_pass(size, s, i, column).tiles[k]).position,
                ) == self.lane_rank(s[i].position) ==> self.edge_distance(
                    size,
                    self.shift_pass(size, s, i, column).tiles[k].position,
                ) >= column,
        decreases s.len() - i,
    {
        let out = self.shift_pass(size, s, i, column);
        if i < 0 || i >= s.len() {
        } else {
            let cur = s[i];
            self.lemma_rank_facts(size, cur.position, cur.position);
            assert(0 <= column < size);
            let placed = self.spec_place(size, cur, column);
            self.lemma_place_props(size, cur.position, column);
            if i + 1 >= s.len() {
                assert(out.tiles == seq![placed]);
            } else {
                let nxt = s[i + 1];
                assert(self.pos_rank_lt(cur.position, nxt.position));
                self.lemma_rank_facts(size, cur.position, nxt.position);
                if self.spec_row(nxt.position) != self.spec_row(cur.position) {
                    let rest = self.shift_pass(size, s, i + 1, 0);
                    assert(self.lane_rank(cur.position) < self.lane_rank(nxt.position));
                    assert(self.pass_pre(size, s, i + 1, 0));
                    self.lemma_pass_geometry(size, s, i + 1, 0);
                    assert(out.tiles == seq![placed] + rest.tiles);
                    self.combine_head_rest(size, s, i, column, placed, rest.tiles, i + 1);
                } else if nxt.points.value != cur.points.value {
                    let rest = self.shift_pass(size, s, i + 1, column + 1);
                    assert(self.lane_rank(cur.position) == self.lane_rank(nxt.position));
                    assert(self.dist_rank(cur.position) < self.dist_rank(nxt.position));
                    assert(column + 1 <= self.edge_distance(size, nxt.position));
                    assert(self.pass_pre(size, s, i + 1, column + 1));
                    self.lemma_pass_geometry(size, s, i + 1, column + 1);
                    assert(out.tiles == seq![placed] + rest.tiles);
                    self.combine_head_rest(size, s, i, column, placed, rest.tiles, i + 1);
                } else {
                    let merged = Tile {
                        id: cur.id,
                        position: placed.position,
                        points: Points {
                            value: (cur.points.value + nxt.points.value) as u32,
                        },
                    };
                    if i + 2 < s.len() && self.spec_row(s[i + 2].position) == self.spec_row(
                        cur.position,
                    ) {
                        let rest = self.shift_pass(size, s, i + 2, column + 1);
                        self.lemma_rank_facts(size, cur.position, s[i + 2].position);
                        self.lemma_rank_facts(size, nxt.position, s[i + 2].position);
                        assert(self.pos_rank_lt(cur.position, s[i + 2].position));
                        assert(self.pos_rank_lt(nxt.position, s[i + 2].position));
                        assert(column + 1 <= self.edge_distance(size, s[i + 2].position));
                        assert(self.pass_pre(size, s, i + 2, column + 1));
                        self.lemma_pass_geometry(size, s, i + 2, column + 1);
                        assert(out.tiles == seq![merged] + rest.tiles);
                        self.combine_head_rest(size, s, i, column, merged, rest.tiles, i + 2);
                    } else {
                        let rest = self.shift_pass(size, s, i + 2, 0);
                        if i + 2 < s.len() {
                            self.lemma_rank_facts(size, cur.position, s[i + 2].position);
                            assert(self.pos_rank_lt(cur.position, s[i + 2].position));
                            assert(self.lane_rank(cur.position) < self.lane_rank(
                                s[i + 2].position,
                            ));
                        }
                        assert(self.pass_pre(size, s, i + 2, 0));
                        self.lemma_pass_geometry(size, s, i + 2, 0);
                        assert(out.tiles == seq![merged] + rest.tiles);
                        self.combine_head_rest(size, s, i, column, merged, rest.tiles, i + 2);
                    }
                }
            }
        }
    }

    /// The gluing step of the geometry induction: a head tile standing at
    /// slot `column` of lane `s[i]`, followed by the pass over `s` from
    /// `next` on, stays duplicate-free, because later tiles either sit in
    /// later lanes or at strictly later slots of the same lane.
    proof fn combine_head_rest(
        self,
        size: u8,
        s: Seq<Tile>,
        i: int,
        column: int,
        head: Tile,
        rest: Seq<Tile>,
        next: int,
    )
        requires
            0 <= i < next <= s.len(),
            0 <= column < size,
            positions_in_range(s, size),
            head.position.x < size,
            head.position.y < size,
            self.lane_rank(head.position) == self.lane_rank(s[i].position),
            self.edge_distance(size, head.position) == column,
            positions_in_range(rest, size),
            distinct_positions(rest),
            next < s.len() ==> forall|k: int|
                0 <= k < rest.len() ==> self.lane_rank((#[trigger] rest[k]).position)
                    >= self.lane_rank(s[next].position),
            next >= s.len() ==> rest.len() == 0,
            next < s.len() ==> (self.lane_rank(s[next].position) > self.lane_rank(
                s[i].position,
            ) || (self.lane_rank(s[next].position) == self.lane_rank(s[i].position)
                && forall|k: int|
                0 <= k < rest.len() && self.lane_rank((#[trigger] rest[k]).position)
                    == self.lane_rank(s[next].position) ==> self.edge_distance(
                    size,
                    rest[k].position,
                ) > column)),
        ensures
            positions_in_range(seq![head] + rest, size),
            distinct_positions(seq![head] + rest),
            forall|k: int|
                0 <= k < (seq![head] + rest).len() ==> self.lane_rank(
                    (#[trigger] (seq![head] + rest)[k]).position,
                ) >= self.lane_rank(s[i].position),
            forall|k: int|
                0 <= k < (seq![head] + rest).len() && self.lane_rank(
                    (#[trigger] (seq![head] + rest)[k]).position,
                ) == self.lane_rank(s[i].position) ==> self.edge_distance(
                    size,
                    (seq![head] + rest)[k].position,
                ) >= column,
    {
        let c = seq![head] + rest;
        assert(c[0] == head);
        assert(forall|k: int| 1 <= k < c.len() ==> c[k] == rest[k - 1]);
        assert forall|j: int, k: int| 0 <= j < k < c.len() implies c[j].position
            != c[k].position by {
            if j == 0 {
                let t = rest[k - 1];
                if self.lane_rank(t.position) == self.lane_rank(head.position) {
                    assert(self.edge_distance(size, t.position) > column);
                    if t.position == head.position {
                        self.lemma_rank_facts(size, t.position, head.position);
                    }
                } else {
                    if t.position == head.position {
                        assert(self.lane_rank(t.position) == self.lane_rank(head.position));
                    }
                }
            }
        }
    }

    /// The bookkeeping of one pass: every surviving tile keeps the identity
    /// of a traversed tile (so identities stay distinct), values stay
    /// powers of two (a merge doubles one), the total value on the board is
    /// conserved, the gained score never exceeds it, and a pass that moved
    /// nothing returned the traversal sequence untouched.
    #[verifier::rlimit(80)]
    #[verifier::spinoff_prover]
    pub proof fn lemma_pass_contents(self, size: u8, s: Seq<Tile>, i: int, column: int)
        requires
            self.pass_pre(size, s, i, column),
            size >= 1,
            sum_from(s, i) <= u32::MAX,
        ensures
            forall|k: int|
                0 <= k < self.shift_pass(size, s, i, column).tiles.len() ==> exists|j: int|
                    i <= j < s.len() && (#[trigger] self.shift_pass(
                        size,
                        s,
                        i,
                        column,
                    ).tiles[k]).id == s[j].id,
            distinct_ids(s) ==> distinct_ids(self.shift_pass(size, s, i, column).tiles),
            values_pow2(s) ==> values_pow2(self.shift_pass(size, s, i, column).tiles),
            sum_tiles(self.shift_pass(size, s, i, column).tiles) == sum_from(s, i),
            0 <= self.shift_pass(size, s, i, column).gained <= sum_from(s, i),
            !self.shift_pass(size, s, i, column).moved ==> (self.shift_pass(
                size,
                s,
                i,
                column,
            ).tiles == s.subrange(i, s.len() as int) && self.shift_pass(size, s, i, column).merges
                == 0 && self.shift_pass(size, s, i, column).gained == 0),
        decreases s.len() - i,
    {
        let out = self.shift_pass(size, s, i, column);
        lemma_sum_from_nonneg(s, i);
        if i < 0 || i >= s.len() {
            assert(out.tiles =~= s.subrange(i, s.len() as int));
        } else {
            let cur = s[i];
            let placed = self.spec_place(size, cur, column);
            lemma_sum_from_nonneg(s, i + 1);
            if i + 1 >= s.len() {
                assert(out.tiles == seq![placed]);
                lemma_sum_cons(placed, Seq::<Tile>::empty());
                assert(out.tiles =~= seq![placed] + Seq::<Tile>::empty());
                assert(sum_tiles(out.tiles) == placed.points.value + sum_tiles(
                    Seq::<Tile>::empty(),
                ));
                if !out.moved {
                    assert(out.tiles =~= s.subrange(i, s.len() as int));
                }
                self.lift_contents(s, i, i + 1, placed, Seq::<Tile>::empty());
            } else {
                let nxt = s[i + 1];
                lemma_sum_from_nonneg(s, i + 2);
                if self.spec_row(nxt.position) != self.spec_row(cur.position) {
                    let rest = self.shift_pass(size, s, i + 1, 0);
                    self.lemma_rank_facts(size, cur.position, nxt.position);
                    assert(self.pos_rank_lt(cur.position, nxt.position));
                    assert(self.pass_pre(size, s, i + 1, 0));
                    self.lemma_pass_contents(size, s, i + 1, 0);
                    lemma_sum_cons(placed, rest.tiles);
                    self.lift_contents(s, i, i + 1, placed, rest.tiles);
                    if !out.moved {
                        assert(out.tiles =~= s.subrange(i, s.len() as int));
                    }
                } else if nxt.points.value != cur.points.value {
                    let rest = self.shift_pass(size, s, i + 1, column + 1);
                    self.lemma_rank_facts(size, cur.position, nxt.position);
                    assert(self.pos_rank_lt(cur.position, nxt.position));
                    assert(column + 1 <= self.edge_distance(size, nxt.position));
                    assert(self.pass_pre(size, s, i + 1, column + 1));
                    self.lemma_pass_contents(size, s, i + 1, column + 1);
                    lemma_sum_cons(placed, rest.tiles);
                    self.lift_contents(s, i, i + 1, placed, rest.tiles);
                    if !out.moved {
                        assert(out.tiles =~= s.subrange(i, s.len() as int));
                    }
                } else {
                    let vv = cur.points.value as int;
                    assert(sum_from(s, i) == vv + vv + sum_from(s, i + 2));
                    assert(vv + vv <= u32::MAX);
                    let merged = Tile {
                        id: cur.id,
                        position: placed.position,
                        points: Points {
                            value: (cur.points.value + nxt.points.value) as u32,
                        },
                    };
                    assert(merged.points.value == vv + vv);
                    let rest = if i + 2 < s.len() && self.spec_row(s[i + 2].position)
                        == self.spec_row(cur.position) {
                        self.shift_pass(size, s, i + 2, column + 1)
                    } else {
                        self.shift_pass(size, s, i + 2, 0)
                    };
                    if i + 2 < s.len() && self.spec_row(s[i + 2].position) == self.spec_row(
                        cur.position,
                    ) {
                        self.lemma_rank_facts(size, cur.position, s[i + 2].position);
                        self.lemma_rank_facts(size, nxt.position, s[i + 2].position);
                        assert(self.pos_rank_lt(cur.position, s[i + 2].position));
                        assert(self.pos_rank_lt(nxt.position, s[i + 2].position));
                        assert(column + 1 <= self.edge_distance(size, s[i + 2].position));
                        assert(self.pass_pre(size, s, i + 2, column + 1));
                        self.lemma_pass_contents(size, s, i + 2, column + 1);
                    } else {
                        assert(self.pass_pre(size, s, i + 2, 0));
                        self.lemma_pass_contents(size, s, i + 2, 0);
                    }
                    assert(out.tiles == seq![merged] + rest.tiles);
                    lemma_sum_cons(merged, rest.tiles);
                    if values_pow2(s) {
                        assert(is_power_of_two(vv) && vv >= 2);
                        assert((2 * vv) % 2 == 0 && (2 * vv) / 2 == vv) by (nonlinear_arith)
                            requires vv >= 2;
                        assert(is_power_of_two(vv + vv));
                    }
                    self.lift_contents(s, i, i + 2, merged, rest.tiles);
                }
            }
        }
    }

    /// A pass never counts a negative number of merges.
    proof fn lemma_pass_merges_nonneg(self, size: u8, s: Seq<Tile>, i: int, column: int)
        ensures
            self.shift_pass(size, s, i, column).merges >= 0,
        decreases s.len() - i,
    {
        if 0 <= i < s.len() {
            if i + 1 < s.len() {
                self.lemma_pass_merges_nonneg(size, s, i + 1, 0);
                self.lemma_pass_merges_nonneg(size, s, i + 1, column + 1);
                self.lemma_pass_merges_nonneg(size, s, i + 2, 0);
                self.lemma_pass_merges_nonneg(size, s, i + 2, column + 1);
            }
        }
    }

    /// A pass that reports a change really made one: either it merged, or
    /// some surviving tile differs from the traversed tile it came from.
    #[verifier::spinoff_prover]
    pub proof fn lemma_pass_change_witness(self, size: u8, s: Seq<Tile>, i: int, column: int)
        requires
            self.pass_pre(size, s, i, column),
            size >= 1,
        ensures
            self.shift_pass(size, s, i, column).moved ==> self.shift_pass(
                size,
                s,
                i,
                column,
            ).merges > 0 || exists|k: int, j: int|
                0 <= k < self.shift_pass(size, s, i, column).tiles.len() && i <= j < s.len()
                    && (#[trigger] self.shift_pass(size, s, i, column).tiles[k]).id == (
                #[trigger] s[j]).id && self.shift_pass(size, s, i, column).tiles[k] != s[j],
        decreases s.len() - i,
    {
        let out = self.shift_pass(size, s, i, column);
        self.lemma_pass_merges_nonneg(size, s, i + 1, column + 1);
        self.lemma_pass_merges_nonneg(size, s, i + 2, column + 1);
        self.lemma_pass_merges_nonneg(size, s, i + 2, 0);
        if i < 0 || i >= s.len() {
        } else {
            let cur = s[i];
            let placed = self.spec_place(size, cur, column);
            if i + 1 >= s.len() {
                if out.moved {
                    assert(out.tiles[0] == placed && placed.id == s[i].id && placed != s[i]);
                }
            } else {
                let nxt = s[i + 1];
                if self.spec_row(nxt.position) != self.spec_row(cur.position)
                    || nxt.points.value != cur.points.value {
                    let c2: int = if self.spec_row(nxt.position) != self.spec_row(
                        cur.position,
                    ) {
                        0
                    } else {
                        column + 1
                    };
                    let rest = self.shift_pass(size, s, i + 1, c2);
                    self.lemma_rank_facts(size, cur.position, nxt.position);
                    assert(self.pos_rank_lt(cur.position, nxt.position));
                    assert(self.pass_pre(size, s, i + 1, c2));
                    self.lemma_pass_change_witness(size, s, i + 1, c2);
                    assert(out.tiles == seq![placed] + rest.tiles);
                    if out.moved {
                        if placed != cur {
                            assert(out.tiles[0] == placed && placed.id == s[i].id && placed
                                != s[i]);
                        } else if rest.merges > 0 {
                        } else {
                            let (k, j) = choose|k: int, j: int|
                                0 <= k < rest.tiles.len() && i + 1 <= j < s.len() && (
                                #[trigger] rest.tiles[k]).id == (#[trigger] s[j]).id
                                    && rest.tiles[k] != s[j];
                            assert(out.tiles[k + 1] == rest.tiles[k]);
                            assert(0 <= k + 1 < out.tiles.len() && i <= j < s.len()
                                && out.tiles[k + 1].id == s[j].id && out.tiles[k + 1] != s[j]);
                        }
                    }
                }
            }
        }
    }

    /// The gluing step of the bookkeeping induction: identity and value
    /// facts about a head tile drawn from `s[i]` extend over the tail of the
    /// pass, which drew its tiles from `s[next]` on.
    proof fn lift_contents(self, s: Seq<Tile>, i: int, next: int, head: Tile, rest: Seq<Tile>)
        requires
            0 <= i < next <= s.len(),
            head.id == s[i].id,
            forall|k: int|
                0 <= k < rest.len() ==> exists|j: int|
                    next <= j < s.len() && (#[trigger] rest[k]).id == s[j].id,
            distinct_ids(s) ==> distinct_ids(rest),
        ensures
            forall|k: int|
                0 <= k < (seq![head] + rest).len() ==> exists|j: int|
                    i <= j < s.len() && (#[trigger] (seq![head] + rest)[k]).id == s[j].id,
            distinct_ids(s) ==> distinct_ids(seq![head] + rest),
    {
        let c = seq![head] + rest;
        assert(c[0] == head);
        assert(forall|k: int| 1 <= k < c.len() ==> c[k] == rest[k - 1]);
        assert forall|k: int| 0 <= k < c.len() implies exists|j: int|
            i <= j < s.len() && (#[trigger] c[k]).id == s[j].id by {
            if k == 0 {
                assert(i <= i < s.len() && c[0].id == s[i].id);
            } else {
                let j = choose|j: int| next <= j < s.len() && (#[trigger] rest[k - 1]).id
                    == s[j].id;
                assert(i <= j < s.len() && c[k].id == s[j].id);
            }
        }
        if distinct_ids(s) {
            assert forall|j: int, k: int| 0 <= j < k < c.len() implies c[j].id != c[k].id by {
                if j == 0 {
                    let m = choose|m: int| next <= m < s.len() && (#[trigger] rest[k - 1]).id
                        == s[m].id;
                    assert(s[i].id != s[m].id);
                }
            }
        }
    }

    /// What sorting into traversal order guarantees: the same tiles, with
    /// shared cells still absent, ranked strictly ascending.
    pub proof fn lemma_sorted_tiles_props(self, s: Seq<Tile>)
        requires
            distinct_positions(s),
        ensures
            self.sorted_tiles(s).to_multiset() == s.to_multiset(),
            self.sorted_tiles(s).len() == s.len(),
            forall|t: Tile| self.sorted_tiles(s).contains(t) <==> s.contains(t),
            distinct_positions(self.sorted_tiles(s)),
            forall|i: int, j: int|
                0 <= i < j < self.sorted_tiles(s).len() ==> self.pos_rank_lt(
                    #[trigger] self.sorted_tiles(s)[i].position,
                    #[trigger] self.sorted_tiles(s)[j].position,
                ),
            distinct_ids(s) ==> distinct_ids(self.sorted_tiles(s)),
    {
        broadcast use vstd::seq_lib::group_to_multiset_ensures;

        self.lemma_tile_le_total();
        s.lemma_sort_by_ensures(self.tile_order());
        let ss = self.sorted_tiles(s);
        assert(s.to_multiset() == ss.to_multiset());
        lemma_perm_distinct_positions(s, ss);
        assert forall|i: int, j: int| 0 <= i < j < ss.len() implies self.pos_rank_lt(
            #[trigger] ss[i].position,
            #[trigger] ss[j].position,
        ) by {
            assert(self.tile_order()(ss[i], ss[j]));
            assert(ss[i].position != ss[j].position);
            if !self.pos_rank_lt(ss[i].position, ss[j].position) {
                self.lemma_rank_injective(ss[i].position, ss[j].position);
            }
        }
    }
}

impl BoardShiftDirection {
    /// The shared setup of the move laws: a duplicate-free in-range board,
    /// sorted into traversal order, satisfies the forward pass's
    /// precondition from the front.
    proof fn lemma_shift_setup(self, size: u8, s: Seq<Tile>)
        requires
            size >= 1,
            distinct_positions(s),
            positions_in_range(s, size),
        ensures
            self.pass_pre(size, self.sorted_tiles(s), 0, 0),
            self.sorted_tiles(s).len() == s.len(),
            self.sorted_tiles(s).to_multiset() == s.to_multiset(),
            positions_in_range(self.sorted_tiles(s), size),
            sum_tiles(self.sorted_tiles(s)) == sum_tiles(s),
    {
        self.lemma_sorted_tiles_props(s);
        let ss = self.sorted_tiles(s);
        lemma_sum_permutation(s, ss);
        assert forall|k: int| 0 <= k < ss.len() implies (#[trigger] ss[k]).position.x < size
            && ss[k].position.y < size by {
            assert(ss.contains(ss[k]));
            assert(s.contains(ss[k]));
            let l = choose|l: int| 0 <= l < s.len() && s[l] == ss[k];
        }
        if ss.len() > 0 {
            self.lemma_rank_facts(size, ss[0].position, ss[0].position);
        }
    }

    /// Law (no duplicate positions): a move settles every surviving tile on
    /// the board, no two of them on the same cell — the quiescent-state
    /// invariant the store relies on.
    pub proof fn lemma_shift_distinct_positions(self, size: u8, s: Seq<Tile>)
        requires
            size >= 1,
            distinct_positions(s),
            positions_in_range(s, size),
        ensures
            distinct_positions(self.shift_spec(size, s).tiles),
            positions_in_range(self.shift_spec(size, s).tiles, size),
    {
        self.lemma_shift_setup(size, s);
        self.lemma_pass_geometry(size, self.sorted_tiles(s), 0, 0);
    }

    /// Law (merge cap): a move performs at most one merge per surviving
    /// tile pair — never more than half the tile count — and every merge
    /// removes exactly one tile.
    pub proof fn lemma_shift_merge_cap(self, size: u8, s: Seq<Tile>)
        requires
            size >= 1,
            distinct_positions(s),
            positions_in_range(s, size),
        ensures
            0 <= self.shift_spec(size, s).merges,
            2 * self.shift_spec(size, s).merges <= s.len(),
            self.shift_spec(size, s).tiles.len() == s.len() - self.shift_spec(size, s).merges,
    {
        self.lemma_shift_setup(size, s);
        self.lemma_pass_geometry(size, self.sorted_tiles(s), 0, 0);
    }

    /// Law (no-op moves): a move that reports no change performed no merge,
    /// gained no score, and left the very same tiles on the very same cells.
    pub proof fn lemma_shift_noop(self, size: u8, s: Seq<Tile>)
        requires
            size >= 1,
            distinct_positions(s),
            positions_in_range(s, size),
            sum_tiles(s) <= u32::MAX,
        ensures
            !self.shift_spec(size, s).moved ==> self.shift_spec(size, s).tiles.to_multiset()
                == s.to_multiset(),
            !self.shift_spec(size, s).moved ==> self.shift_spec(size, s).merges == 0
                && self.shift_spec(size, s).gained == 0,
    {
        self.lemma_shift_setup(size, s);
        let ss = self.sorted_tiles(s);
        self.lemma_pass_contents(size, ss, 0, 0);
        if !self.shift_spec(size, s).moved {
            assert(self.shift_spec(size, s).tiles == ss.subrange(0, ss.len() as int));
            assert(ss.subrange(0, ss.len() as int) =~= ss);
        }
    }

    /// Some tile of `s` stands in `t`'s lane, one slot nearer the
    /// destination edge.
    pub open spec fn flush_below(self, size: u8, s: Seq<Tile>, t: Tile) -> bool {
        exists|j: int|
            0 <= j < s.len() && self.spec_row((#[trigger] s[j]).position) == self.spec_row(
                t.position,
            ) && self.edge_distance(size, s[j].position) == self.edge_distance(
                size,
                t.position,
            ) - 1
    }

    /// Every tile stands flush for this direction: on the destination edge,
    /// or directly behind a lane-mate one slot nearer to it — no tile has a
    /// gap to slide into.
    pub open spec fn compacted(self, size: u8, s: Seq<Tile>) -> bool {
        forall|i: int|
            0 <= i < s.len() && self.edge_distance(size, (#[trigger] s[i]).position) > 0
                ==> self.flush_below(size, s, s[i])
    }

    /// No two tiles on consecutive slots of one lane share a value — on a
    /// compacted board, no merge is possible in this direction.
    pub open spec fn no_lane_merge(self, size: u8, s: Seq<Tile>) -> bool {
        forall|i: int, j: int|
            0 <= i < s.len() && 0 <= j < s.len() && self.spec_row((#[trigger] s[i]).position)
                == self.spec_row((#[trigger] s[j]).position) && self.edge_distance(
                size,
                s[j].position,
            ) == self.edge_distance(size, s[i].position) + 1 ==> s[i].points.value
                != s[j].points.value
    }

    /// Under a strict traversal order, a smaller rank means an earlier index.
    proof fn lemma_rank_index(self, s: Seq<Tile>, a: int, b: int)
        requires
            forall|j: int, k: int|
                0 <= j < k < s.len() ==> self.pos_rank_lt(
                    (#[trigger] s[j]).position,
                    (#[trigger] s[k]).position,
                ),
            0 <= a < s.len(),
            0 <= b < s.len(),
            self.pos_rank_lt(s[a].position, s[b].position),
        ensures
            a < b,
    {
        if a == b {
        } else if a > b {
            assert(self.pos_rank_lt(s[b].position, s[a].position));
        }
    }

    /// On a compacted, strictly sorted board, the first tile of each lane
    /// stands on the destination edge.
    proof fn lemma_lane_first_on_edge(self, size: u8, s: Seq<Tile>, i: int)
        requires
            forall|j: int, k: int|
                0 <= j < k < s.len() ==> self.pos_rank_lt(
                    (#[trigger] s[j]).position,
                    (#[trigger] s[k]).position,
                ),
            positions_in_range(s, size),
            self.compacted(size, s),
            0 <= i < s.len(),
            i == 0 || self.spec_row(s[i - 1].position) != self.spec_row(s[i].position),
        ensures
            self.edge_distance(size, s[i].position) == 0,
    {
        self.lemma_rank_facts(size, s[i].position, s[i].position);
        if self.edge_distance(size, s[i].position) > 0 {
            assert(self.flush_below(size, s, s[i]));
            let j = choose|j: int|
                0 <= j < s.len() && self.spec_row((#[trigger] s[j]).position) == self.spec_row(
                    s[i].position,
                ) && self.edge_distance(size, s[j].position) == self.edge_distance(
                    size,
                    s[i].position,
                ) - 1;
            self.lemma_rank_facts(size, s[j].position, s[i].position);
            assert(self.pos_rank_lt(s[j].position, s[i].position));
            self.lemma_rank_index(s, j, i);
            if i == 0 {
                assert(false);
            } else {
                if j < i - 1 {
                    assert(self.pos_rank_lt(s[j].position, s[i - 1].position));
                }
                assert(self.pos_rank_lt(s[i - 1].position, s[i].position));
                self.lemma_rank_facts(size, s[j].position, s[i - 1].position);
                self.lemma_rank_facts(size, s[i - 1].position, s[i].position);
                assert(self.lane_rank(s[j].position) <= self.lane_rank(s[i - 1].position));
                assert(self.lane_rank(s[i - 1].position) <= self.lane_rank(s[i].position));
                assert(self.lane_rank(s[j].position) == self.lane_rank(s[i].position));
                assert(self.spec_row(s[i - 1].position) == self.spec_row(s[i].position));
                assert(false);
            }
        }
    }

    /// On a compacted, strictly sorted board, two neighbors of one lane in
    /// traversal order stand on consecutive slots.
    proof fn lemma_lane_successor_step(self, size: u8, s: Seq<Tile>, i: int)
        requires
            forall|j: int, k: int|
                0 <= j < k < s.len() ==> self.pos_rank_lt(
                    (#[trigger] s[j]).position,
                    (#[trigger] s[k]).position,
                ),
            positions_in_range(s, size),
            self.compacted(size, s),
            0 <= i,
            i + 1 < s.len(),
            self.spec_row(s[i].position) == self.spec_row(s[i + 1].position),
        ensures
            self.edge_distance(size, s[i + 1].position) == self.edge_distance(
                size,
                s[i].position,
            ) + 1,
    {
        self.lemma_rank_facts(size, s[i].position, s[i + 1].position);
        assert(self.pos_rank_lt(s[i].position, s[i + 1].position));
        assert(self.edge_distance(size, s[i].position) < self.edge_distance(
            size,
            s[i + 1].position,
        ));
        if self.edge_distance(size, s[i + 1].position) > self.edge_distance(size, s[i].position)
            + 1 {
            assert(self.edge_distance(size, s[i + 1].position) > 0);
            assert(self.flush_below(size, s, s[i + 1]));
            let j = choose|j: int|
                0 <= j < s.len() && self.spec_row((#[trigger] s[j]).position) == self.spec_row(
                    s[i + 1].position,
                ) && self.edge_distance(size, s[j].position) == self.edge_distance(
                    size,
                    s[i + 1].position,
                ) - 1;
            self.lemma_rank_facts(size, s[i].position, s[j].position);
            self.lemma_rank_facts(size, s[j].position, s[i + 1].position);
            assert(self.pos_rank_lt(s[i].position, s[j].position));
            assert(self.pos_rank_lt(s[j].position, s[i + 1].position));
            self.lemma_rank_index(s, i, j);
            self.lemma_rank_index(s, j, i + 1);
        }
    }

    /// Placing a tile into the slot it already occupies moves nothing.
    proof fn lemma_slot_identity(self, size: u8, p: Position)
        requires
            p.x < size,
            p.y < size,
        ensures
            self.spec_slot(size, p, self.edge_distance(size, p)) == p,
    {
    }

    /// The settled-board induction: with every tile flush and no two
    /// lane-consecutive tiles equal, the pass walks the board re-placing each
    /// tile exactly where it stands, never merging.
    proof fn lemma_pass_settled(self, size: u8, s: Seq<Tile>, i: int, column: int)
        requires
            self.pass_pre(size, s, i, column),
            size >= 1,
            self.compacted(size, s),
            self.no_lane_merge(size, s),
            i < s.len() ==> column == self.edge_distance(size, s[i].position),
        ensures
            !self.shift_pass(size, s, i, column).moved,
        decreases s.len() - i,
    {
        if i < 0 || i >= s.len() {
        } else {
            let cur = s[i];
            self.lemma_rank_facts(size, cur.position, cur.position);
            self.lemma_slot_identity(size, cur.position);
            assert(self.spec_place(size, cur, column) == cur);
            if i + 1 >= s.len() {
            } else {
                let nxt = s[i + 1];
                assert(self.pos_rank_lt(cur.position, nxt.position));
                self.lemma_rank_facts(size, cur.position, nxt.position);
                if self.spec_row(nxt.position) != self.spec_row(cur.position) {
                    self.lemma_lane_first_on_edge(size, s, i + 1);
                    assert(self.pass_pre(size, s, i + 1, 0));
                    self.lemma_pass_settled(size, s, i + 1, 0);
                } else {
                    self.lemma_lane_successor_step(size, s, i);
                    assert(nxt.points.value != cur.points.value);
                    assert(column + 1 == self.edge_distance(size, nxt.position));
                    assert(self.pass_pre(size, s, i + 1, column + 1));
                    self.lemma_pass_settled(size, s, i + 1, column + 1);
                }
            }
        }
    }

    /// Law (no legal move is a no-op): against a board already compacted
    /// toward this direction's edge, with no two lane-consecutive tiles
    /// sharing a value, the move reports no change — and so, by the no-op
    /// law, leaves the tiles, the score and the spawn count untouched.
    pub proof fn lemma_settled_board_noop(self, size: u8, s: Seq<Tile>)
        requires
            size >= 1,
            distinct_positions(s),
            positions_in_range(s, size),
            self.compacted(size, s),
            self.no_lane_merge(size, s),
        ensures
            !self.shift_spec(size, s).moved,
    {
        self.lemma_shift_setup(size, s);
        self.lemma_sorted_tiles_props(s);
        let ss = self.sorted_tiles(s);
        assert(self.compacted(size, ss)) by {
            assert forall|i: int|
                0 <= i < ss.len() && self.edge_distance(size, (#[trigger] ss[i]).position)
                    > 0 implies self.flush_below(size, ss, ss[i]) by {
                assert(ss.contains(ss[i]));
                assert(s.contains(ss[i]));
                let l = choose|l: int| 0 <= l < s.len() && s[l] == ss[i];
                assert(self.flush_below(size, s, s[l]));
                let m = choose|m: int|
                    0 <= m < s.len() && self.spec_row((#[trigger] s[m]).position)
                        == self.spec_row(s[l].position) && self.edge_distance(
                        size,
                        s[m].position,
                    ) == self.edge_distance(size, s[l].position) - 1;
                assert(s.contains(s[m]));
                assert(ss.contains(s[m]));
                let j = choose|j: int| 0 <= j < ss.len() && ss[j] == s[m];
                assert(0 <= j < ss.len() && self.spec_row((#[trigger] ss[j]).position)
                    == self.spec_row(ss[i].position) && self.edge_distance(
                    size,
                    ss[j].position,
                ) == self.edge_distance(size, ss[i].position) - 1);
            }
        }
        assert(self.no_lane_merge(size, ss)) by {
            assert forall|i: int, j: int|
                0 <= i < ss.len() && 0 <= j < ss.len() && self.spec_row(
                    (#[trigger] ss[i]).position,
                ) == self.spec_row((#[trigger] ss[j]).position) && self.edge_distance(
                    size,
                    ss[j].position,
                ) == self.edge_distance(size, ss[i].position) + 1 implies ss[i].points.value
                != ss[j].points.value by {
                assert(ss.contains(ss[i]) && ss.contains(ss[j]));
                assert(s.contains(ss[i]) && s.contains(ss[j]));
                let l = choose|l: int| 0 <= l < s.len() && s[l] == ss[i];
                let m = choose|m: int| 0 <= m < s.len() && s[m] == ss[j];
                assert(s[l].points.value != s[m].points.value);
            }
        }
        if ss.len() > 0 {
            self.lemma_lane_first_on_edge(size, ss, 0);
        }
        self.lemma_pass_settled(size, ss, 0, 0);
    }

    /// Law (change detection is exact): a move reports a change exactly
    /// when the settled tiles differ from the board it was given.
    pub proof fn lemma_change_detection_exact(self, size: u8, s: Seq<Tile>)
        requires
            size >= 1,
            distinct_positions(s),
            positions_in_range(s, size),
            distinct_ids(s),
            sum_tiles(s) <= u32::MAX,
        ensures
            self.shift_spec(size, s).moved <==> self.shift_spec(size, s).tiles.to_multiset()
                != s.to_multiset(),
    {
        broadcast use vstd::seq_lib::group_to_multiset_ensures;

        self.lemma_shift_setup(size, s);
        let ss = self.sorted_tiles(s);
        self.lemma_sorted_tiles_props(s);
        self.lemma_pass_contents(size, ss, 0, 0);
        self.lemma_pass_geometry(size, ss, 0, 0);
        self.lemma_pass_change_witness(size, ss, 0, 0);
        let out = self.shift_spec(size, s);
        if !out.moved {
            assert(out.tiles == ss.subrange(0, ss.len() as int));
            assert(ss.subrange(0, ss.len() as int) =~= ss);
        } else {
            if out.merges > 0 {
                assert(out.tiles.len() < ss.len());
                assert(out.tiles.to_multiset().len() == out.tiles.len());
                assert(s.to_multiset().len() == s.len());
                assert(out.tiles.to_multiset() != s.to_multiset());
            } else {
                let (k, j) = choose|k: int, j: int|
                    0 <= k < self.shift_pass(size, ss, 0, 0).tiles.len() && 0 <= j < ss.len()
                        && (#[trigger] self.shift_pass(size, ss, 0, 0).tiles[k]).id == (
                    #[trigger] ss[j]).id && self.shift_pass(size, ss, 0, 0).tiles[k] != ss[j];
                let w = out.tiles[k];
                assert(out.tiles.contains(w));
                assert(out.tiles.to_multiset().count(w) > 0);
                if s.to_multiset().count(w) > 0 {
                    assert(s.contains(w));
                    let m = choose|m: int| 0 <= m < s.len() && #[trigger] s[m] == w;
                    assert(ss.contains(ss[j]));
                    assert(s.contains(ss[j]));
                    let l = choose|l: int| 0 <= l < s.len() && #[trigger] s[l] == ss[j];
                    if m != l {
                        assert(s[m].id != s[l].id);
                    }
                    assert(false);
                }
                assert(out.tiles.to_multiset() != s.to_multiset());
            }
        }
    }

    /// Law (value conservation): a move conserves the summed tile value,
    /// and the score it reports never exceeds that sum.
    pub proof fn lemma_shift_conserves_sum(self, size: u8, s: Seq<Tile>)
        requires
            size >= 1,
            distinct_positions(s),
            positions_in_range(s, size),
            sum_tiles(s) <= u32::MAX,
        ensures
            sum_tiles(self.shift_spec(size, s).tiles) == sum_tiles(s),
            0 <= self.shift_spec(size, s).gained <= sum_tiles(s),
    {
        self.lemma_shift_setup(size, s);
        self.lemma_pass_contents(size, self.sorted_tiles(s), 0, 0);
    }
}

/// Relies on itertools' `Itertools::sorted_by`, backed by `slice::sort_by`:
/// the result holds exactly the input items, reordered ascending by the
/// comparator (here the direction's traversal comparator, a total order on
/// cells with ties only between tiles sharing a cell).
#[verifier::external_body]
fn sorted_by_direction(dir: BoardShiftDirection, tiles: Vec<Tile>) -> (r: Vec<Tile>)
    ensures
        r@.to_multiset() == tiles@.to_multiset(),
        forall|i: int, j: int|
            0 <= i < j < r@.len() ==> !dir.pos_rank_lt(r@[j].position, r@[i].position),
{
    tiles
        .into_iter()
        .sorted_by(|a, b| dir.sort_tiles(&a.position, &b.position))
        .collect()
}

} // verus!
