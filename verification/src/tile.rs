use vstd::prelude::*;

verus! {

/// A cell coordinate on the board: both axes run from `0` up to the board
/// size, exclusive.
#[derive(Debug, PartialEq, Eq, Structural, Clone, Copy, Hash)]
pub struct Position {
    pub x: u8,
    pub y: u8,
}

/// The point value carried by a tile; always a power of two, at least 2.
#[derive(Debug, PartialEq, Eq, Structural, Clone, Copy)]
pub struct Points {
    pub value: u32,
}

/// One live tile: a stable identity, a cell, and a value.
#[derive(Debug, PartialEq, Eq, Structural, Clone, Copy)]
pub struct Tile {
    pub id: u64,
    pub position: Position,
    pub points: Points,
}

/// No two entries of `s` carry the same identity.
pub open spec fn distinct_ids(s: Seq<Tile>) -> bool {
    forall|i: int, j: int| 0 <= i < j < s.len() ==> s[i].id != s[j].id
}

/// Every identity in `s` lies strictly below `bound`.
pub open spec fn ids_below(s: Seq<Tile>, bound: u64) -> bool {
    forall|i: int| 0 <= i < s.len() ==> #[trigger] s[i].id < bound
}

/// No two entries of `s` occupy the same cell: the quiescent-state invariant
/// that the shift engine re-establishes after every settle.
pub open spec fn distinct_positions(s: Seq<Tile>) -> bool {
    forall|i: int, j: int| 0 <= i < j < s.len() ==> s[i].position != s[j].position
}

/// First tile of `s`, at index `i` or later, standing on cell `p`.
pub open spec fn find_at_from(s: Seq<Tile>, p: Position, i: int) -> Option<Tile>
    decreases s.len() - i,
{
    if i < 0 || i >= s.len() {
        None
    } else if s[i].position == p {
        Some(s[i])
    } else {
        find_at_from(s, p, i + 1)
    }
}

/// First tile of `s` standing on cell `p`.
pub open spec fn spec_find_at(s: Seq<Tile>, p: Position) -> Option<Tile> {
    find_at_from(s, p, 0)
}

/// First tile of `s`, at index `i` or later, with identity `id`.
pub open spec fn find_id_from(s: Seq<Tile>, id: u64, i: int) -> Option<Tile>
    decreases s.len() - i,
{
    if i < 0 || i >= s.len() {
        None
    } else if s[i].id == id {
        Some(s[i])
    } else {
        find_id_from(s, id, i + 1)
    }
}

/// First tile of `s` with identity `id`.
pub open spec fn spec_find_id(s: Seq<Tile>, id: u64) -> Option<Tile> {
    find_id_from(s, id, 0)
}

/// Some tile of `s` stands on cell `p`.
pub open spec fn occupied(s: Seq<Tile>, p: Position) -> bool {
    exists|i: int| 0 <= i < s.len() && #[trigger] s[i].position == p
}

/// `find_at_from` returns a tile on `p` drawn from `s` whenever one exists at
/// index `i` or later, and `None` exactly when none does.
pub proof fn lemma_find_at_from(s: Seq<Tile>, p: Position, i: int)
    requires
        0 <= i <= s.len(),
    ensures
        match find_at_from(s, p, i) {
            Some(t) => t.position == p && exists|j: int|
                i <= j < s.len() && #[trigger] s[j] == t,
            None => forall|j: int| i <= j < s.len() ==> #[trigger] s[j].position != p,
        },
    decreases s.len() - i,
{
    if i < s.len() {
        if s[i].position == p {
            assert(s[i] == s[i]);
        } else {
            lemma_find_at_from(s, p, i + 1);
        }
    }
}

/// `find_id_from` returns the tile of `s` carrying `id` whenever one exists at
/// index `i` or later, and `None` exactly when none does.
pub proof fn lemma_find_id_from(s: Seq<Tile>, id: u64, i: int)
    requires
        0 <= i <= s.len(),
    ensures
        match find_id_from(s, id, i) {
            Some(t) => t.id == id && exists|j: int| i <= j < s.len() && #[trigger] s[j] == t,
            None => forall|j: int| i <= j < s.len() ==> #[trigger] s[j].id != id,
        },
    decreases s.len() - i,
{
    if i < s.len() {
        if s[i].id == id {
            assert(s[i] == s[i]);
        } else {
            lemma_find_id_from(s, id, i + 1);
        }
    }
}

/// On a board without shared cells, looking a cell up finds exactly the tile
/// standing there.
pub proof fn lemma_find_at_unique(s: Seq<Tile>, j: int)
    requires
        distinct_positions(s),
        0 <= j < s.len(),
    ensures
        spec_find_at(s, s[j].position) == Some(s[j]),
{
    lemma_find_at_from(s, s[j].position, 0);
    match spec_find_at(s, s[j].position) {
        Some(t) => {
            let l = choose|l: int| 0 <= l < s.len() && #[trigger] s[l] == t;
            if l != j {
                assert(s[l].position == s[j].position);
            }
        },
        None => {
            assert(s[j].position == s[j].position);
        },
    }
}

/// With identities distinct, looking an identity up finds exactly the tile
/// carrying it.
pub proof fn lemma_find_id_unique(s: Seq<Tile>, j: int)
    requires
        distinct_ids(s),
        0 <= j < s.len(),
    ensures
        spec_find_id(s, s[j].id) == Some(s[j]),
{
    lemma_find_id_from(s, s[j].id, 0);
    match spec_find_id(s, s[j].id) {
        Some(t) => {
            let l = choose|l: int| 0 <= l < s.len() && #[trigger] s[l] == t;
            if l != j {
                assert(s[l].id == s[j].id);
            }
        },
        None => {
            assert(s[j].id == s[j].id);
        },
    }
}

/// The arena of live tiles: a dumb store mapping stable identities to tiles.
/// Its view is the sequence of live tiles in insertion order; that order is
/// deterministic within one call but not guaranteed stable across moves.
pub struct TileSet {
    tiles: Vec<Tile>,
    next_id: u64,
}

impl TileSet {
    /// The live tiles, in the store's current enumeration order.
    pub closed spec fn view(&self) -> Seq<Tile> {
        self.tiles@
    }

    /// The identity that the next added tile will receive.
    pub closed spec fn next_id(&self) -> u64 {
        self.next_id
    }

    /// Identities are pairwise distinct and below the allocation counter.
    pub open spec fn wf(&self) -> bool {
        distinct_ids(self@) && ids_below(self@, self.next_id())
    }

    pub fn new() -> (r: TileSet)
        ensures
            r@ == Seq::<Tile>::empty(),
            r.next_id() == 0,
            r.wf(),
    {
        TileSet { tiles: Vec::new(), next_id: 0 }
    }

    /// The allocation counter behind fresh identities.
    pub fn next_tile_id(&self) -> (r: u64)
        ensures
            r == self.next_id(),
    {
        self.next_id
    }

    pub fn count(&self) -> (r: usize)
        ensures
            r == self@.len(),
    {
        self.tiles.len()
    }

    /// Creates a tile on `position` with `value` and hands back its fresh
    /// identity. The store does not police positions: keeping cells distinct
    /// is the shift engine's burden.
    pub fn add(&mut self, position: Position, value: u32) -> (id: u64)
        requires
            old(self).next_id() < u64::MAX,
        ensures
            id == old(self).next_id(),
            final(self)@ == old(self)@.push(
                (Tile { id, position, points: (Points { value }) }),
            ),
            final(self).next_id() == old(self).next_id() + 1,
            old(self).wf() ==> final(self).wf(),
    {
        let id = self.next_id;
        self.tiles.push(Tile { id, position, points: Points { value } });
        self.next_id = self.next_id + 1;
        id
    }

    /// Destroys the tile carrying `id`, if any; the remaining tiles keep
    /// their relative order.
    pub fn remove(&mut self, id: u64) -> (removed: bool)
        ensures
            final(self)@ == old(self)@.filter(|t: Tile| t.id != id),
            final(self).next_id() == old(self).next_id(),
            removed <==> exists|i: int|
                0 <= i < old(self)@.len() && #[trigger] old(self)@[i].id == id,
            old(self).wf() ==> final(self).wf(),
    {
        let ghost s = self.tiles@;
        let mut kept: Vec<Tile> = Vec::new();
        let mut removed = false;
        let mut i: usize = 0;
        while i < self.tiles.len()
            invariant
                0 <= i <= s.len(),
                self.tiles@ == s,
                kept@ == s.subrange(0, i as int).filter(|t: Tile| t.id != id),
                removed <==> exists|j: int| 0 <= j < i && #[trigger] s[j].id == id,
            decreases s.len() - i,
        {
            let t = self.tiles[i];
            if t.id != id {
                kept.push(t);
            } else {
                removed = true;
            }
            proof {
                assert(s.subrange(0, i + 1 as int).drop_last() == s.subrange(0, i as int));
                reveal(Seq::filter);
            }
            i = i + 1;
        }
        proof {
            assert(s.subrange(0, s.len() as int) == s);
            lemma_filter_preserves(s, |t: Tile| t.id != id);
            if removed {
                let j = choose|j: int| 0 <= j < s.len() && #[trigger] s[j].id == id;
                assert(old(self)@[j].id == id);
            }
        }
        self.tiles = kept;
        removed
    }

    /// The tile carrying `id`, if it is live.
    pub fn get(&self, id: u64) -> (r: Option<Tile>)
        ensures
            r == spec_find_id(self@, id),
    {
        let mut i: usize = 0;
        while i < self.tiles.len()
            invariant
                0 <= i <= self@.len(),
                spec_find_id(self@, id) == find_id_from(self@, id, i as int),
            decreases self@.len() - i,
        {
            if self.tiles[i].id == id {
                return Some(self.tiles[i]);
            }
            i = i + 1;
        }
        None
    }

    /// The identity of the first tile standing on `position`, if any.
    pub fn find_at(&self, position: Position) -> (r: Option<u64>)
        ensures
            r == match spec_find_at(self@, position) {
                Some(t) => Some(t.id),
                None => None::<u64>,
            },
    {
        let mut i: usize = 0;
        while i < self.tiles.len()
            invariant
                0 <= i <= self@.len(),
                spec_find_at(self@, position) == find_at_from(self@, position, i as int),
            decreases self@.len() - i,
        {
            if self.tiles[i].position.x == position.x && self.tiles[i].position.y == position.y {
                return Some(self.tiles[i].id);
            }
            i = i + 1;
        }
        None
    }

    /// A snapshot of every live tile, in the store's enumeration order.
    pub fn iter_all(&self) -> (r: Vec<Tile>)
        ensures
            r@ == self@,
    {
        let mut out: Vec<Tile> = Vec::new();
        let mut i: usize = 0;
        while i < self.tiles.len()
            invariant
                0 <= i <= self@.len(),
                out@ == self@.subrange(0, i as int),
            decreases self@.len() - i,
        {
            out.push(self.tiles[i]);
            i = i + 1;
        }
        proof {
            assert(self@.subrange(0, self@.len() as int) == self@);
        }
        out
    }

    /// The cells the live tiles stand on, in enumeration order.
    pub fn occupied_positions(&self) -> (r: Vec<Position>)
        ensures
            r@ == self@.map_values(|t: Tile| t.position),
    {
        let mut out: Vec<Position> = Vec::new();
        let mut i: usize = 0;
        while i < self.tiles.len()
            invariant
                0 <= i <= self@.len(),
                out@ == self@.subrange(0, i as int).map_values(|t: Tile| t.position),
            decreases self@.len() - i,
        {
            out.push(self.tiles[i].position);
            proof {
                assert(self@.subrange(0, i + 1 as int).map_values(|t: Tile| t.position)
                    == self@.subrange(0, i as int).map_values(|t: Tile| t.position).push(
                    self@[i as int].position,
                ));
            }
            i = i + 1;
        }
        proof {
            assert(self@.subrange(0, self@.len() as int) == self@);
        }
        out
    }

    /// Destroys every live tile; the allocation counter keeps running, so
    /// identities are never reused.
    pub fn clear(&mut self)
        ensures
            final(self)@ == Seq::<Tile>::empty(),
            final(self).next_id() == old(self).next_id(),
            final(self).wf(),
    {
        self.tiles = Vec::new();
    }

    /// Replaces the whole population in one step; the shift engine uses this
    /// to install a settled board.
    pub(crate) fn set_tiles(&mut self, tiles: Vec<Tile>)
        ensures
            final(self)@ == tiles@,
            final(self).next_id() == old(self).next_id(),
    {
        self.tiles = tiles;
    }
}

/// Filtering keeps distinctness of identities and membership: every kept tile
/// is a tile of `s`.
pub proof fn lemma_filter_preserves(s: Seq<Tile>, pred: spec_fn(Tile) -> bool)
    ensures
        forall|i: int| 0 <= i < s.filter(pred).len() ==> s.contains(#[trigger] s.filter(pred)[i]),
        distinct_ids(s) ==> distinct_ids(s.filter(pred)),
        forall|bound: u64| ids_below(s, bound) ==> ids_below(s.filter(pred), bound),
    decreases s.len(),
{
    reveal(Seq::filter);
    if s.len() > 0 {
        lemma_filter_preserves(s.drop_last(), pred);
        assert forall|i: int| 0 <= i < s.filter(pred).len() implies s.contains(
            #[trigger] s.filter(pred)[i],
        ) by {
            let f = s.filter(pred);
            let fd = s.drop_last().filter(pred);
            if i < fd.len() {
                assert(s.drop_last().contains(fd[i]));
                let j = choose|j: int| 0 <= j < s.drop_last().len() && s.drop_last()[j] == fd[i];
                assert(s[j] == fd[i]);
            } else {
                assert(f[i] == s.last());
            }
        }
        if distinct_ids(s) {
            assert(distinct_ids(s.drop_last()));
            assert forall|i: int, j: int|
                0 <= i < j < s.filter(pred).len() implies s.filter(pred)[i].id != s.filter(
                pred,
            )[j].id by {
                let f = s.filter(pred);
                let fd = s.drop_last().filter(pred);
                if j < fd.len() {
                } else {
                    assert(f[j] == s.last());
                    assert(s.drop_last().contains(fd[i]));
                    let k = choose|k: int|
                        0 <= k < s.drop_last().len() && s.drop_last()[k] == fd[i];
                    assert(s[k].id == f[i].id);
                    assert(s[k].id != s[s.len() - 1].id);
                }
            }
        }
        assert forall|bound: u64| ids_below(s, bound) implies ids_below(
            s.filter(pred),
            bound,
        ) by {
            if ids_below(s, bound) {
                assert forall|i: int| 0 <= i < s.filter(pred).len() implies #[trigger] s.filter(
                    pred,
                )[i].id < bound by {
                    let f = s.filter(pred);
                    let fd = s.drop_last().filter(pred);
                    if i < fd.len() {
                        assert(ids_below(s.drop_last(), bound));
                    } else {
                        assert(f[i] == s.last());
                    }
                }
            }
        }
    }
}

} // verus!
