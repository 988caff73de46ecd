use vstd::prelude::*;

use crate::board::{spec_positions, Board};
use crate::tile::{distinct_positions, occupied, Points, Position, Tile, TileSet};
use rand::seq::IteratorRandom;

verus! {

/// The value every freshly spawned tile carries.
pub const SPAWN_VALUE: u32 = 2;

/// The board's free cells: the cell enumeration with the occupied cells
/// dropped.
pub open spec fn spec_free_cells(size: u8, s: Seq<Tile>) -> Seq<Position> {
    spec_positions(size).filter(|p: Position| !occupied(s, p))
}

/// Filtering keeps elements of the source and never introduces duplicates.
proof fn lemma_filter_elements<A>(s: Seq<A>, pred: spec_fn(A) -> bool)
    ensures
        forall|i: int|
            0 <= i < s.filter(pred).len() ==> s.contains(#[trigger] s.filter(pred)[i]),
        s.no_duplicates() ==> s.filter(pred).no_duplicates(),
    decreases s.len(),
{
    reveal(Seq::filter);
    if s.len() > 0 {
        lemma_filter_elements(s.drop_last(), pred);
        let f = s.filter(pred);
        let fd = s.drop_last().filter(pred);
        assert forall|i: int| 0 <= i < f.len() implies s.contains(#[trigger] f[i]) by {
            if i < fd.len() {
                assert(s.drop_last().contains(fd[i]));
                let j = choose|j: int| 0 <= j < s.drop_last().len() && s.drop_last()[j] == fd[i];
                assert(s[j] == fd[i]);
            } else {
                assert(f[i] == s.last());
            }
        }
        if s.no_duplicates() {
            assert(s.drop_last().no_duplicates());
            assert forall|i: int, j: int| 0 <= i < j < f.len() implies f[i] != f[j] by {
                if j >= fd.len() {
                    assert(f[j] == s.last());
                    assert(s.drop_last().contains(fd[i]));
                    let k = choose|k: int|
                        0 <= k < s.drop_last().len() && s.drop_last()[k] == fd[i];
                    assert(s[k] == f[i]);
                    assert(s[k] != s[s.len() - 1]);
                }
            }
        }
    }
}

/// A filter whose test holds everywhere keeps everything.
pub proof fn lemma_filter_all<A>(s: Seq<A>, pred: spec_fn(A) -> bool)
    requires
        forall|i: int| 0 <= i < s.len() ==> pred(#[trigger] s[i]),
    ensures
        s.filter(pred) == s,
    decreases s.len(),
{
    reveal(Seq::filter);
    if s.len() > 0 {
        lemma_filter_all(s.drop_last(), pred);
        assert(s.filter(pred) =~= s);
    }
}

/// Relies on rand's `IteratorRandom::sample` with the process-wide
/// `rand::rng()` generator: it returns `amount` elements of the input — all
/// of them when fewer exist — each input element taken at most once, chosen
/// uniformly at random, in no promised order.
#[verifier::external_body]
fn choose_free_cells(free: Vec<Position>, amount: usize) -> (r: Vec<Position>)
    ensures
        r@.len() == vstd::math::min(free@.len() as int, amount as int),
        forall|p: Position|
            #[trigger] r@.to_multiset().count(p) <= free@.to_multiset().count(p),
{
    let mut rng = rand::rng();
    free.into_iter().sample(&mut rng, amount)
}

impl Board {
    /// Every free cell of the board, in the fixed enumeration order.
    pub fn free_cells(&self, tiles: &TileSet) -> (r: Vec<Position>)
        ensures
            r@ == spec_free_cells(self.size, tiles@),
    {
        let all = self.iter_dimensions();
        let ghost ps = spec_positions(self.size);
        let pred = Ghost(|p: Position| !occupied(tiles@, p));
        let mut free: Vec<Position> = Vec::new();
        let mut i: usize = 0;
        while i < all.len()
            invariant
                all@ == ps,
                0 <= i <= ps.len(),
                pred@ == (|p: Position| !occupied(tiles@, p)),
                free@ == ps.subrange(0, i as int).filter(pred@),
            decreases ps.len() - i,
        {
            let p = all[i];
            proof {
                crate::tile::lemma_find_at_from(tiles@, p, 0);
            }
            if tiles.find_at(p).is_none() {
                free.push(p);
            }
            proof {
                assert(ps.subrange(0, i + 1 as int).drop_last() == ps.subrange(0, i as int));
                reveal(Seq::filter);
            }
            i = i + 1;
        }
        proof {
            assert(ps.subrange(0, ps.len() as int) == ps);
        }
        free
    }

    /// The spawn policy: picks `amount` free cells uniformly at random
    /// without replacement — all of them when fewer remain, never failing —
    /// and creates a tile of value 2 on each. Returns the new tiles.
    pub fn spawn_tiles(&self, tiles: &mut TileSet, amount: usize) -> (spawned: Vec<Tile>)
        requires
            old(tiles).wf(),
            self.size >= 1,
            old(tiles).next_id() + amount <= u64::MAX,
        ensures
            spawned@.len() == vstd::math::min(
                spec_free_cells(self.size, old(tiles)@).len() as int,
                amount as int,
            ),
            final(tiles)@ == old(tiles)@ + spawned@,
            final(tiles).next_id() == old(tiles).next_id() + spawned@.len(),
            final(tiles).wf(),
            forall|k: int|
                0 <= k < spawned@.len() ==> (#[trigger] spawned@[k]).points.value == SPAWN_VALUE
                    && spawned@[k].position.x < self.size && spawned@[k].position.y < self.size
                    && !occupied(old(tiles)@, spawned@[k].position) && spawned@[k].id == old(
                    tiles,
                ).next_id() + k,
            distinct_positions(spawned@),
            distinct_positions(old(tiles)@) ==> distinct_positions(final(tiles)@),
    {
        let ghost orig = tiles@;
        let free = self.free_cells(tiles);
        let chosen = choose_free_cells(free, amount);
        proof {
            broadcast use vstd::seq_lib::group_to_multiset_ensures;

            crate::board::lemma_positions_facts(self.size);
            let ps = spec_positions(self.size);
            let pred = |p: Position| !occupied(orig, p);
            #[allow(deprecated)]
            ps.filter_lemma(pred);
            lemma_filter_elements(ps, pred);
            assert(free@.no_duplicates());
            free@.lemma_multiset_has_no_duplicates();
            assert forall|x: Position| chosen@.to_multiset().contains(x) implies chosen@.to_multiset().count(
                x,
            ) == 1 by {
                assert(chosen@.to_multiset().count(x) > 0);
                assert(free@.to_multiset().count(x) > 0);
                assert(free@.to_multiset().contains(x));
            }
            chosen@.lemma_multiset_has_no_duplicates_conv();
            assert(chosen@.no_duplicates());
            assert forall|k: int| 0 <= k < chosen@.len() implies !occupied(
                orig,
                (#[trigger] chosen@[k]),
            ) && chosen@[k].x < self.size && chosen@[k].y < self.size by {
                assert(chosen@.contains(chosen@[k]));
                assert(chosen@.to_multiset().count(chosen@[k]) > 0);
                assert(free@.to_multiset().count(chosen@[k]) > 0);
                assert(free@.contains(chosen@[k]));
                let l = choose|l: int| 0 <= l < free@.len() && free@[l] == chosen@[k];
                assert(pred(free@[l]) && ps.contains(free@[l]));
                let m = choose|m: int| 0 <= m < ps.len() && ps[m] == free@[l];
            }
        }
        let ghost picks = chosen@;
        let spawned = self.spawn_at(tiles, &chosen);
        proof {
            assert forall|k: int| 0 <= k < spawned@.len() implies (
            #[trigger] spawned@[k]).points.value == SPAWN_VALUE && spawned@[k].position.x
                < self.size && spawned@[k].position.y < self.size && !occupied(
                orig,
                spawned@[k].position,
            ) && spawned@[k].id == old(tiles).next_id() + k by {
                assert(spawned@[k].position == picks[k]);
            }
            assert forall|i: int, j: int| 0 <= i < j < spawned@.len() implies spawned@[i].position
                != spawned@[j].position by {
                assert(spawned@[i].position == picks[i] && spawned@[j].position == picks[j]);
            }
        }
        spawned
    }

    /// The deterministic half of the spawn policy: places one tile of value
    /// 2 on each given cell, in order, under fresh consecutive identities.
    /// A test injects its own selection of cells here in place of the random
    /// one.
    pub fn spawn_at(&self, tiles: &mut TileSet, cells: &Vec<Position>) -> (spawned: Vec<Tile>)
        requires
            old(tiles).wf(),
            old(tiles).next_id() + cells@.len() <= u64::MAX,
        ensures
            spawned@.len() == cells@.len(),
            final(tiles)@ == old(tiles)@ + spawned@,
            final(tiles).next_id() == old(tiles).next_id() + cells@.len(),
            final(tiles).wf(),
            forall|k: int|
                0 <= k < cells@.len() ==> (#[trigger] spawned@[k]) == (Tile {
                    id: (old(tiles).next_id() + k) as u64,
                    position: cells@[k],
                    points: (Points { value: SPAWN_VALUE }),
                }),
            (distinct_positions(old(tiles)@) && cells@.no_duplicates() && (forall|k: int|
                0 <= k < cells@.len() ==> !occupied(old(tiles)@, #[trigger] cells@[k])))
                ==> distinct_positions(final(tiles)@),
    {
        let ghost orig = tiles@;
        let ghost picks = cells@;
        let mut spawned: Vec<Tile> = Vec::new();
        let mut i: usize = 0;
        while i < cells.len()
            invariant
                cells@ == picks,
                0 <= i <= picks.len(),
                tiles.wf(),
                tiles@ == orig + spawned@,
                tiles.next_id() == old(tiles).next_id() + i,
                old(tiles).next_id() + picks.len() <= u64::MAX,
                spawned@.len() == i,
                forall|k: int|
                    0 <= k < i ==> (#[trigger] spawned@[k]) == (Tile {
                        id: (old(tiles).next_id() + k) as u64,
                        position: picks[k],
                        points: (Points { value: SPAWN_VALUE }),
                    }),
            decreases picks.len() - i,
        {
            let p = cells[i];
            let id = tiles.add(p, SPAWN_VALUE);
            spawned.push(Tile { id, position: p, points: Points { value: SPAWN_VALUE } });
            proof {
                assert(tiles@ =~= orig + spawned@);
            }
            i = i + 1;
        }
        proof {
            if distinct_positions(orig) && picks.no_duplicates() && (forall|k: int|
                0 <= k < picks.len() ==> !occupied(orig, #[trigger] picks[k])) {
                let all = orig + spawned@;
                assert forall|i: int, j: int| 0 <= i < j < all.len() implies all[i].position
                    != all[j].position by {
                    if i < orig.len() && j >= orig.len() {
                        assert(all[i] == orig[i] && all[j] == spawned@[j - orig.len()]);
                        if all[i].position == all[j].position {
                            assert(occupied(orig, spawned@[j - orig.len()].position));
                        }
                    } else if i >= orig.len() {
                        assert(all[i] == spawned@[i - orig.len()]);
                        assert(all[j] == spawned@[j - orig.len()]);
                        assert(spawned@[i - orig.len()].position == picks[i - orig.len()]);
                        assert(spawned@[j - orig.len()].position == picks[j - orig.len()]);
                    }
                }
            }
        }
        spawned
    }
}

} // verus!
