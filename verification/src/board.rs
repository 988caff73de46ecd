use vstd::prelude::*;

use crate::tile::Position;
use itertools::Itertools;

verus! {

/// A broken setup request: the move pipeline itself never fails, but
/// construction and invariant checks do, fast and explicitly.
#[derive(Debug, PartialEq, Eq, Structural, Clone, Copy)]
pub enum ConfigurationError {
    /// A board needs at least two cells per axis.
    BoardTooSmall,
    /// A terminal check was asked about more tiles than the board has cells.
    TooManyTiles,
}

/// The coordinate-space authority: a fixed square grid. It owns no tiles.
#[derive(Debug, PartialEq, Eq, Structural, Clone, Copy)]
pub struct Board {
    /// The length of the x & y axis
    pub size: u8,
}

/// The cells of a `size`-sided board in x-major order: index `k` holds the
/// cell `(k / size, k mod size)`.
pub open spec fn spec_positions(size: u8) -> Seq<Position> {
    Seq::new(
        (size * size) as nat,
        |k: int|
            Position { x: (k / (size as int)) as u8, y: (k % (size as int)) as u8 },
    )
}

/// Relies on itertools' `Itertools::cartesian_product` on two ranges, which
/// yields every pair, ordered as the equivalent nested loops produce them:
/// the left (x) range outermost.
#[verifier::external_body]
fn cartesian_positions(size: u8) -> (r: Vec<Position>)
    ensures
        r@ == spec_positions(size),
{
    (0..size)
        .cartesian_product(0..size)
        .map(|(x, y)| Position { x, y })
        .collect()
}

impl Board {
    /// A validated board: at least 2 cells per axis.
    pub open spec fn wf(self) -> bool {
        self.size >= 2
    }

    /// Validates the requested size: anything below 2 is a setup error.
    pub fn new(size: u8) -> (r: Result<Board, ConfigurationError>)
        ensures
            size >= 2 ==> r == Ok::<Board, ConfigurationError>((Board { size })),
            size < 2 ==> r == Err::<Board, ConfigurationError>(
                ConfigurationError::BoardTooSmall,
            ),
    {
        if size >= 2 {
            Ok(Board { size })
        } else {
            Err(ConfigurationError::BoardTooSmall)
        }
    }

    /// The number of cells on the board.
    pub open spec fn total_cells(self) -> int {
        (self.size as int) * (self.size as int)
    }

    pub fn total_tiles(&self) -> (r: u16)
        ensures
            r == self.total_cells(),
    {
        proof {
            assert((self.size as int) * (self.size as int) <= 255 * 255) by (nonlinear_arith)
                requires self.size <= 255;
        }
        (self.size as u16) * (self.size as u16)
    }

    /// The given coordinates name a cell of this board.
    pub open spec fn spec_contains(self, x: int, y: int) -> bool {
        0 <= x < self.size && 0 <= y < self.size
    }

    pub fn contains(&self, position: Position) -> (r: bool)
        ensures
            r == self.spec_contains(position.x as int, position.y as int),
    {
        position.x < self.size && position.y < self.size
    }

    /// A board holding that many tiles has no free cell left.
    pub fn is_full(&self, tile_count: usize) -> (r: bool)
        ensures
            r <==> tile_count == self.total_cells(),
    {
        tile_count == (self.total_tiles() as usize)
    }

    /// Every cell of the board, in a fixed x-major order.
    pub fn iter_dimensions(&self) -> (r: Vec<Position>)
        ensures
            r@ == spec_positions(self.size),
    {
        cartesian_positions(self.size)
    }
}

/// An index below `n * n` decomposes into a quotient and remainder both
/// inside `[0, n)`.
pub proof fn lemma_cell_index_bounds(k: int, n: int)
    requires
        n >= 1,
        0 <= k < n * n,
    ensures
        0 <= k / n < n,
        0 <= k % n < n,
{
    vstd::arithmetic::div_mod::lemma_mod_bound(k, n);
    vstd::arithmetic::div_mod::lemma_fundamental_div_mod(k, n);
    assert(k == n * (k / n) + k % n);
    if k / n >= n {
        assert(n * (k / n) >= n * n) by (nonlinear_arith)
            requires n >= 1 && k / n >= n;
    }
    if k / n < 0 {
        assert(n * (k / n) <= n * (-1)) by (nonlinear_arith)
            requires n >= 1 && k / n <= -1;
    }
}

/// What the cell enumeration promises: every entry is a cell of the board,
/// no cell repeats, and every cell of the board appears.
pub proof fn lemma_positions_facts(size: u8)
    requires
        size >= 1,
    ensures
        spec_positions(size).len() == size * size,
        forall|k: int|
            0 <= k < spec_positions(size).len() ==> (#[trigger] spec_positions(size)[k]).x
                < size && spec_positions(size)[k].y < size,
        spec_positions(size).no_duplicates(),
        forall|p: Position|
            p.x < size && p.y < size ==> #[trigger] spec_positions(size).contains(p),
{
    let s = spec_positions(size);
    let n = size as int;
    assert forall|k: int| 0 <= k < s.len() implies (#[trigger] s[k]).x < size && s[k].y
        < size by {
        lemma_cell_index_bounds(k, n);
    };
    assert forall|i: int, j: int| 0 <= i < j < s.len() implies s[i] != s[j] by {
        lemma_cell_index_bounds(i, n);
        lemma_cell_index_bounds(j, n);
        if s[i] == s[j] {
            vstd::arithmetic::div_mod::lemma_fundamental_div_mod(i, n);
            vstd::arithmetic::div_mod::lemma_fundamental_div_mod(j, n);
            assert(i / n == j / n && i % n == j % n);
            assert(i == j);
        }
    };
    assert forall|p: Position| p.x < size && p.y < size implies #[trigger] s.contains(p) by {
        let k = (p.x as int) * n + (p.y as int);
        assert(k < n * n) by (nonlinear_arith)
            requires n >= 1 && 0 <= p.x as int <= n - 1 && 0 <= p.y as int <= n - 1 && k == (
            p.x as int) * n + (p.y as int);
        vstd::arithmetic::div_mod::lemma_fundamental_div_mod_converse(
            k,
            n,
            p.x as int,
            p.y as int,
        );
        assert(s[k] == p);
    };
}

} // verus!
