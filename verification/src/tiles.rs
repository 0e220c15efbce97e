//! Tiles are numbered by their place in the alphabet: 0 is the blank, 1 is the
//! first letter, and so on. A tally gives, for each tile, how many copies are
//! still unseen.

use vstd::prelude::*;

verus! {

broadcast use vstd::seq_lib::group_seq_properties;

/// `count` copies of `tile`.
pub open spec fn copies(tile: u8, count: nat) -> Seq<u8> {
    Seq::new(count, |_j: int| tile)
}

/// Every tile of the tally, in tile order: tile `t` repeated `tally[t]` times.
pub open spec fn expand_tally(tally: Seq<u8>) -> Seq<u8>
    decreases tally.len(),
{
    if tally.len() == 0 {
        Seq::empty()
    } else {
        expand_tally(tally.drop_last()) + copies((tally.len() - 1) as u8, tally.last() as nat)
    }
}

/// The number of tiles a tally counts.
pub open spec fn tally_total(tally: Seq<u8>) -> nat
    decreases tally.len(),
{
    if tally.len() == 0 {
        0
    } else {
        tally_total(tally.drop_last()) + tally.last() as nat
    }
}

/// Lists the unseen tiles of a tally, lowest tile first, each as many times as
/// the tally counts it. Tiles are numbered with a `u8`, so the tally has at
/// most 256 entries.
pub fn unseen_tiles(available_tally: &Vec<u8>) -> (tiles: Vec<u8>)
    requires
        available_tally.len() <= 256,
    ensures
        tiles@ == expand_tally(available_tally@),
{
    let mut tiles: Vec<u8> = Vec::new();
    let mut i: usize = 0;
    while i < available_tally.len()
        invariant
            i <= available_tally.len() <= 256,
            tiles@ == expand_tally(available_tally@.take(i as int)),
        decreases available_tally.len() - i,
    {
        let tile: u8 = i as u8;
        let count: u8 = available_tally[i];
        let ghost before = tiles@;
        let mut c: u8 = 0;
        while c < count
            invariant
                c <= count,
                tiles@ == before + copies(tile, c as nat),
            decreases count - c,
        {
            tiles.push(tile);
            c = c + 1;
            assert(tiles@ =~= before + copies(tile, c as nat));
        }
        proof {
            let next = available_tally@.take(i + 1);
            assert(next.drop_last() =~= available_tally@.take(i as int));
            assert(next.last() == count);
        }
        i = i + 1;
    }
    assert(available_tally@.take(available_tally.len() as int) =~= available_tally@);
    tiles
}

proof fn lemma_copies_count(tile: u8, count: nat, x: u8)
    ensures
        copies(tile, count).to_multiset().count(x) == (if x == tile { count } else { 0 }),
    decreases count,
{
    broadcast use vstd::multiset::group_multiset_axioms;

    if count == 0 {
        assert(copies(tile, count) =~= Seq::<u8>::empty());
    } else {
        let shorter = copies(tile, (count - 1) as nat);
        assert(copies(tile, count) =~= shorter.push(tile));
        lemma_copies_count(tile, (count - 1) as nat, x);
    }
}

/// Each tile occurs among the unseen tiles exactly as often as the tally
/// counts it, and no number past the end of the tally occurs at all.
pub proof fn lemma_unseen_tile_counts(tally: Seq<u8>, x: u8)
    requires
        tally.len() <= 256,
    ensures
        expand_tally(tally).to_multiset().count(x) == (if (x as int) < tally.len() {
            tally[x as int] as nat
        } else {
            0
        }),
    decreases tally.len(),
{
    broadcast use vstd::multiset::group_multiset_axioms;

    if tally.len() == 0 {
        assert(expand_tally(tally) =~= Seq::<u8>::empty());
    } else {
        let prefix = tally.drop_last();
        let last_tile = (tally.len() - 1) as u8;
        lemma_unseen_tile_counts(prefix, x);
        lemma_copies_count(last_tile, tally.last() as nat, x);
        vstd::seq_lib::lemma_multiset_commutative(
            expand_tally(prefix),
            copies(last_tile, tally.last() as nat),
        );
    }
}

/// There are as many unseen tiles as the tally's counts add up to.
pub proof fn lemma_unseen_tile_total(tally: Seq<u8>)
    ensures
        expand_tally(tally).len() == tally_total(tally),
    decreases tally.len(),
{
    if tally.len() > 0 {
        lemma_unseen_tile_total(tally.drop_last());
    }
}

/// The unseen tiles come lowest tile first.
pub proof fn lemma_unseen_tiles_sorted(tally: Seq<u8>)
    requires
        tally.len() <= 256,
    ensures
        forall|i: int, j: int|
            0 <= i <= j < expand_tally(tally).len() ==> expand_tally(tally)[i] <= expand_tally(
                tally,
            )[j],
        forall|i: int| 0 <= i < expand_tally(tally).len() ==> (expand_tally(tally)[i] as int) < tally.len(),
    decreases tally.len(),
{
    if tally.len() > 0 {
        let prefix = tally.drop_last();
        lemma_unseen_tiles_sorted(prefix);
        let p = expand_tally(prefix);
        let e = expand_tally(tally);
        let last_tile = (tally.len() - 1) as u8;
        assert(e == p + copies(last_tile, tally.last() as nat));
        assert forall|i: int| 0 <= i < e.len() implies (e[i] as int) < tally.len() && (i >= p.len()
            ==> e[i] == last_tile) && (i < p.len() ==> e[i] == p[i] && (e[i] as int) < tally.len()
            - 1) by {
            if i < p.len() {
                assert(e[i] == p[i]);
            } else {
                assert(e[i] == last_tile);
            }
        }
    }
}

} // verus!
