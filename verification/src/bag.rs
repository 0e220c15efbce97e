//! Drawing tiles from the bag onto racks, and dealing the racks of a
//! simulated position.

use crate::sim_request::SimPrepareError;
use crate::tiles::{expand_tally, tally_total, unseen_tiles, lemma_unseen_tile_total};
use rand_chacha::ChaCha20Rng;
use vstd::prelude::*;

verus! {

broadcast use vstd::seq_lib::group_seq_properties;

/// How many tiles a rack holding `rack_len` tiles draws to reach `rack_size`
/// from a bag of `bag_len` tiles: what it lacks, or the whole bag if that is
/// fewer.
pub open spec fn draw_count(bag_len: nat, rack_len: nat, rack_size: nat) -> nat {
    let want: nat = if rack_len >= rack_size { 0 } else { (rack_size - rack_len) as nat };
    if want <= bag_len { want } else { bag_len }
}

/// A rack short of `rack_size` draws until it is full or the bag is empty;
/// a rack that is full already draws nothing; no draw takes more tiles than
/// the bag holds.
pub proof fn lemma_draw_count_fills(bag_len: nat, rack_len: nat, rack_size: nat)
    ensures
        draw_count(bag_len, rack_len, rack_size) <= bag_len,
        rack_len >= rack_size ==> draw_count(bag_len, rack_len, rack_size) == 0,
        rack_len < rack_size ==> rack_len + draw_count(bag_len, rack_len, rack_size) == (if rack_size
            <= rack_len + bag_len {
            rack_size
        } else {
            rack_len + bag_len
        }),
        rack_len + draw_count(bag_len, rack_len, rack_size) < rack_size ==> draw_count(
            bag_len,
            rack_len,
            rack_size,
        ) == bag_len,
{
}

/// Fills `rack` up to `rack_size` tiles, or until the bag is empty, taking
/// tiles one at a time from the end of the bag.
pub fn replenish(bag: &mut Vec<u8>, rack: &mut Vec<u8>, rack_size: usize)
    ensures
        old(rack)@.len() >= rack_size ==> final(rack)@ == old(rack)@ && final(bag)@ == old(bag)@,
        old(rack)@.len() < rack_size ==> final(rack)@.len() == (if rack_size <= old(rack)@.len()
            + old(bag)@.len() {
            rack_size as nat
        } else {
            old(rack)@.len() + old(bag)@.len()
        }),
        final(rack)@.len() < rack_size ==> final(bag)@.len() == 0,
        final(rack)@.len() >= old(rack)@.len(),
        final(rack)@.take(old(rack)@.len() as int) == old(rack)@,
        old(bag)@ == final(bag)@ + final(rack)@.skip(old(rack)@.len() as int).reverse(),
        final(bag)@ == old(bag)@.take(
            old(bag)@.len() - draw_count(old(bag)@.len(), old(rack)@.len(), rack_size as nat),
        ),
        final(rack)@ == old(rack)@ + old(bag)@.skip(
            old(bag)@.len() - draw_count(old(bag)@.len(), old(rack)@.len(), rack_size as nat),
        ).reverse(),
{
    let want: usize = if rack.len() >= rack_size { 0 } else { rack_size - rack.len() };
    let k: usize = if want <= bag.len() { want } else { bag.len() };
    let ghost bag0 = bag@;
    let ghost rack0 = rack@;
    let ghost len0 = bag@.len();
    let mut drawn: usize = 0;
    while drawn < k
        invariant
            k <= len0,
            drawn <= k,
            k == draw_count(len0, rack0.len(), rack_size as nat),
            bag0.len() == len0,
            bag@ == bag0.take(len0 - drawn),
            rack@ == rack0 + bag0.skip(len0 - drawn).reverse(),
        decreases k - drawn,
    {
        let popped = bag.pop();
        match popped {
            Some(tile) => {
                rack.push(tile);
                proof {
                    assert(tile == bag0[len0 - drawn - 1]);
                    assert(bag0.skip(len0 - drawn - 1).reverse() =~= bag0.skip(
                        len0 - drawn,
                    ).reverse().push(tile));
                }
            },
            None => {},
        }
        drawn = drawn + 1;
        proof {
            assert(bag@ =~= bag0.take(len0 - drawn));
        }
    }
    proof {
        lemma_draw_count_fills(len0, rack0.len(), rack_size as nat);
        let moved = bag0.skip(len0 - k);
        assert(rack@.take(rack0.len() as int) =~= rack0);
        assert(rack@.skip(rack0.len() as int) =~= moved.reverse());
        assert(moved.reverse().reverse() =~= moved);
        assert(bag0 =~= bag@ + moved);
    }
}
/// How many tiles the players before player `i`, other than the player to
/// move, draw from the bag.
pub open spec fn drawn_before(rack_sizes: Seq<u8>, turn: int, i: nat) -> nat
    decreases i,
{
    if i == 0 {
        0
    } else {
        drawn_before(rack_sizes, turn, (i - 1) as nat) + (if i - 1 == turn {
            0
        } else {
            rack_sizes[i - 1] as nat
        })
    }
}

/// The rack that player `i` draws: the next tiles from the end of the bag,
/// last tile first.
pub open spec fn dealt_rack(bag: Seq<u8>, rack_sizes: Seq<u8>, turn: int, i: nat) -> Seq<u8> {
    bag.subrange(
        bag.len() - drawn_before(rack_sizes, turn, i + 1),
        bag.len() - drawn_before(rack_sizes, turn, i),
    ).reverse()
}

/// The bag holds enough tiles for every other player's rack, and the player
/// to move holds as many tiles as its rack size says.
pub open spec fn deal_fits(bag_len: nat, rack_len: nat, rack_sizes: Seq<u8>, turn: int) -> bool {
    &&& drawn_before(rack_sizes, turn, rack_sizes.len()) <= bag_len
    &&& rack_sizes[turn] == rack_len
}

/// The racks of every player and the tiles left in the bag.
pub struct SimDeal {
    pub racks: Vec<Vec<u8>>,
    pub bag: Vec<u8>,
}

pub proof fn lemma_drawn_before_monotone(rack_sizes: Seq<u8>, turn: int, i: nat, j: nat)
    requires
        i <= j,
    ensures
        drawn_before(rack_sizes, turn, i) <= drawn_before(rack_sizes, turn, j),
    decreases j - i,
{
    if i < j {
        lemma_drawn_before_monotone(rack_sizes, turn, i, (j - 1) as nat);
    }
}

/// The sum of the rack sizes.
pub open spec fn total_size(rack_sizes: Seq<u8>) -> nat
    decreases rack_sizes.len(),
{
    if rack_sizes.len() == 0 {
        0
    } else {
        total_size(rack_sizes.drop_last()) + rack_sizes.last() as nat
    }
}

proof fn lemma_drawn_before_prefix(rack_sizes: Seq<u8>, turn: int, i: nat)
    requires
        0 <= turn < rack_sizes.len(),
        i <= rack_sizes.len(),
    ensures
        drawn_before(rack_sizes, turn, i) + (if turn < i { rack_sizes[turn] as nat } else { 0 })
            == total_size(rack_sizes.take(i as int)),
    decreases i,
{
    if i == 0 {
        assert(rack_sizes.take(0) =~= Seq::<u8>::empty());
    } else {
        lemma_drawn_before_prefix(rack_sizes, turn, (i - 1) as nat);
        assert(rack_sizes.take(i as int).drop_last() =~= rack_sizes.take(i - 1));
    }
}

/// The other players draw, between them, the sum of all rack sizes less the
/// size of the mover's rack; so a deal fits exactly when that many tiles are
/// in the bag and the mover's rack has its given size.
pub proof fn lemma_deal_fits_iff(bag_len: nat, rack_len: nat, rack_sizes: Seq<u8>, turn: int)
    requires
        0 <= turn < rack_sizes.len(),
    ensures
        drawn_before(rack_sizes, turn, rack_sizes.len()) + rack_sizes[turn] == total_size(rack_sizes),
        deal_fits(bag_len, rack_len, rack_sizes, turn) <==> (total_size(rack_sizes) - rack_sizes[turn]
            <= bag_len && rack_sizes[turn] == rack_len),
{
    lemma_drawn_before_prefix(rack_sizes, turn, rack_sizes.len());
    assert(rack_sizes.take(rack_sizes.len() as int) =~= rack_sizes);
}

/// Deals the racks of a simulated position from `bag`: the player to move
/// keeps `rack`, and each other player in turn fills an empty rack to its
/// size from the end of the bag. Fails if a rack cannot be filled, naming the
/// rack sizes and the number of unplayed tiles (the bag and the rack).
pub fn deal_sim_racks(bag: Vec<u8>, turn: u8, rack: &Vec<u8>, rack_sizes: &Vec<u8>) -> (r: Result<SimDeal, SimPrepareError>)
    requires
        (turn as int) < rack_sizes@.len(),
        bag@.len() + rack@.len() <= usize::MAX,
    ensures
        r is Ok <==> deal_fits(bag@.len(), rack@.len(), rack_sizes@, turn as int),
        r is Ok <==> (total_size(rack_sizes@) - rack_sizes@[turn as int] <= bag@.len()
            && rack_sizes@[turn as int] == rack@.len()),
        r matches Err(e) ==> (e matches SimPrepareError::UnableToDraw { rack_sizes: sizes, unplayed: n }
            && sizes@ == rack_sizes@ && n == bag@.len() + rack@.len()),
        r matches Ok(d) ==> {
            &&& d.racks@.len() == rack_sizes@.len()
            &&& forall|i: int|
                0 <= i < rack_sizes@.len() ==> (#[trigger] d.racks@[i])@.len() == rack_sizes@[i]
            &&& d.bag@.len() + total_size(rack_sizes@) - rack_sizes@[turn as int] == bag@.len()
            &&& d.racks@[turn as int]@ == rack@
            &&& forall|i: int|
                0 <= i < rack_sizes@.len() && i != turn ==> #[trigger] d.racks@[i]@ == dealt_rack(
                    bag@,
                    rack_sizes@,
                    turn as int,
                    i as nat,
                )
            &&& d.bag@ == bag@.take(
                bag@.len() - drawn_before(rack_sizes@, turn as int, rack_sizes@.len()),
            )
        },
{
    let ghost bag0 = bag@;
    let ghost len0 = bag@.len();
    let ghost t = turn as int;
    let unplayed: usize = bag.len() + rack.len();
    let mut pool = bag;
    let mut racks: Vec<Vec<u8>> = Vec::new();
    let mut i: usize = 0;
    while i < rack_sizes.len()
        invariant
            (turn as int) < rack_sizes@.len(),
            t == turn as int,
            bag0 == bag@,
            bag0.len() == len0,
            unplayed == len0 + rack@.len(),
            i <= rack_sizes@.len(),
            racks@.len() == i,
            drawn_before(rack_sizes@, t, i as nat) <= len0,
            pool@ == bag0.take(len0 - drawn_before(rack_sizes@, t, i as nat)),
            forall|j: int|
                0 <= j < i && j != t ==> #[trigger] racks@[j]@ == dealt_rack(
                    bag0,
                    rack_sizes@,
                    t,
                    j as nat,
                ),
            t < i ==> racks@[t]@ == rack@ && rack_sizes@[t] == rack@.len(),
        decreases rack_sizes@.len() - i,
    {
        let size: u8 = rack_sizes[i];
        let ghost before = drawn_before(rack_sizes@, t, i as nat);
        if i == turn as usize {
            if rack.len() != size as usize {
                let sizes = rack_sizes.clone();
                assert(sizes@ == rack_sizes@);
                assert(unplayed == len0 + rack@.len());
                assert(!deal_fits(len0, rack@.len(), rack_sizes@, t));
                proof {
                    lemma_deal_fits_iff(len0, rack@.len(), rack_sizes@, t);
                }
                return Err(SimPrepareError::UnableToDraw { rack_sizes: sizes, unplayed });
            }
            racks.push(rack.clone());
            proof {
                assert(rack_sizes@[t] == rack@.len());
            }
        } else {
            let mut drawn: Vec<u8> = Vec::new();
            replenish(&mut pool, &mut drawn, size as usize);
            proof {
                assert(drawn@.len() == draw_count((len0 - before) as nat, 0, size as nat));
                assert(drawn_before(rack_sizes@, t, (i + 1) as nat) == before + size);
            }
            if drawn.len() != size as usize {
                proof {
                    lemma_drawn_before_monotone(rack_sizes@, t, (i + 1) as nat, rack_sizes@.len());
                    assert(!deal_fits(len0, rack@.len(), rack_sizes@, t));
                    lemma_deal_fits_iff(len0, rack@.len(), rack_sizes@, t);
                }
                return Err(SimPrepareError::UnableToDraw { rack_sizes: rack_sizes.clone(), unplayed });
            }
            proof {
                let after = drawn_before(rack_sizes@, t, (i + 1) as nat);
                assert(after == before + size);
                assert(bag0.take(len0 - before).skip(len0 - before - size) =~= bag0.subrange(
                    len0 - after,
                    len0 - before,
                ));
                assert(drawn@ =~= dealt_rack(bag0, rack_sizes@, t, i as nat));
                assert(pool@ =~= bag0.take(len0 - after));
            }
            racks.push(drawn);
        }
        i = i + 1;
    }
    proof {
        lemma_deal_fits_iff(len0, rack@.len(), rack_sizes@, t);
        lemma_deal_conserves_tiles(bag0, rack_sizes@, t);
        assert forall|i: int| 0 <= i < rack_sizes@.len() implies (#[trigger] racks@[i])@.len()
            == rack_sizes@[i] by {
            if i != t {
                assert(dealt_rack(bag0, rack_sizes@, t, i as nat).len() == rack_sizes@[i]);
            }
        }
    }
    Ok(SimDeal { racks, bag: pool })
}

/// The tiles that the players other than the player to move hold, among the
/// first `i` racks, in player order.
pub open spec fn tiles_of_others(racks: Seq<Vec<u8>>, turn: int, i: nat) -> Seq<u8>
    decreases i,
{
    if i == 0 {
        Seq::empty()
    } else {
        tiles_of_others(racks, turn, (i - 1) as nat) + (if i - 1 == turn {
            Seq::empty()
        } else {
            racks[i - 1]@
        })
    }
}

/// The racks dealt to the other players among the first `i`, in player order.
pub open spec fn dealt_to_others(bag: Seq<u8>, rack_sizes: Seq<u8>, turn: int, i: nat) -> Seq<u8>
    decreases i,
{
    if i == 0 {
        Seq::empty()
    } else {
        dealt_to_others(bag, rack_sizes, turn, (i - 1) as nat) + (if i - 1 == turn {
            Seq::empty()
        } else {
            dealt_rack(bag, rack_sizes, turn, (i - 1) as nat)
        })
    }
}

proof fn lemma_dealt_is_bag_tail(bag: Seq<u8>, rack_sizes: Seq<u8>, turn: int, i: nat)
    requires
        i <= rack_sizes.len(),
        drawn_before(rack_sizes, turn, i) <= bag.len(),
    ensures
        dealt_to_others(bag, rack_sizes, turn, i).to_multiset() == bag.subrange(
            bag.len() - drawn_before(rack_sizes, turn, i),
            bag.len() as int,
        ).to_multiset(),
    decreases i,
{
    broadcast use vstd::multiset::group_multiset_axioms;

    if i == 0 {
        assert(bag.subrange(bag.len() as int, bag.len() as int) =~= Seq::<u8>::empty());
    } else {
        let prev = (i - 1) as nat;
        lemma_drawn_before_monotone(rack_sizes, turn, prev, i);
        lemma_dealt_is_bag_tail(bag, rack_sizes, turn, prev);
        let len = bag.len() as int;
        let a = len - drawn_before(rack_sizes, turn, i);
        let b = len - drawn_before(rack_sizes, turn, prev);
        assert(bag.subrange(a, len) =~= bag.subrange(a, b) + bag.subrange(b, len));
        vstd::seq_lib::lemma_multiset_commutative(bag.subrange(a, b), bag.subrange(b, len));
        let piece = if prev == turn {
            Seq::<u8>::empty()
        } else {
            dealt_rack(bag, rack_sizes, turn, prev)
        };
        vstd::seq_lib::lemma_multiset_commutative(
            dealt_to_others(bag, rack_sizes, turn, prev),
            piece,
        );
        if prev == turn {
            assert(bag.subrange(a, b) =~= Seq::<u8>::empty());
        } else {
            bag.subrange(a, b).lemma_reverse_to_multiset();
        }
        assert(dealt_to_others(bag, rack_sizes, turn, i) == dealt_to_others(
            bag,
            rack_sizes,
            turn,
            prev,
        ) + piece);
    }
}

/// Dealing neither creates nor loses a tile: what stays in the bag and what
/// the other players draw are, together, exactly the tiles the bag held, and
/// each other player draws exactly its rack size.
pub proof fn lemma_deal_conserves_tiles(bag: Seq<u8>, rack_sizes: Seq<u8>, turn: int)
    requires
        0 <= turn < rack_sizes.len(),
        drawn_before(rack_sizes, turn, rack_sizes.len()) <= bag.len(),
    ensures
        bag.take(bag.len() - drawn_before(rack_sizes, turn, rack_sizes.len())).to_multiset().add(
            dealt_to_others(bag, rack_sizes, turn, rack_sizes.len()).to_multiset(),
        ) == bag.to_multiset(),
        forall|i: int|
            0 <= i < rack_sizes.len() && i != turn ==> #[trigger] dealt_rack(
                bag,
                rack_sizes,
                turn,
                i as nat,
            ).len() == rack_sizes[i],
{
    let n = rack_sizes.len();
    let len = bag.len() as int;
    let cut = len - drawn_before(rack_sizes, turn, n);
    lemma_dealt_is_bag_tail(bag, rack_sizes, turn, n);
    assert(bag =~= bag.take(cut) + bag.subrange(cut, len));
    vstd::seq_lib::lemma_multiset_commutative(bag.take(cut), bag.subrange(cut, len));
    assert forall|i: int|
        0 <= i < rack_sizes.len() && i != turn implies #[trigger] dealt_rack(
            bag,
            rack_sizes,
            turn,
            i as nat,
        ).len() == rack_sizes[i] by {
        lemma_drawn_before_monotone(rack_sizes, turn, (i + 1) as nat, n);
        assert(drawn_before(rack_sizes, turn, (i + 1) as nat) == drawn_before(
            rack_sizes,
            turn,
            i as nat,
        ) + rack_sizes[i]);
    }
}

proof fn lemma_others_are_dealt(racks: Seq<Vec<u8>>, bag: Seq<u8>, rack_sizes: Seq<u8>, turn: int, i: nat)
    requires
        i <= racks.len(),
        forall|j: int|
            0 <= j < racks.len() && j != turn ==> #[trigger] racks[j]@ == dealt_rack(
                bag,
                rack_sizes,
                turn,
                j as nat,
            ),
    ensures
        tiles_of_others(racks, turn, i) == dealt_to_others(bag, rack_sizes, turn, i),
    decreases i,
{
    if i > 0 {
        lemma_others_are_dealt(racks, bag, rack_sizes, turn, (i - 1) as nat);
        if i - 1 != turn {
            assert(racks[i - 1]@ == dealt_rack(bag, rack_sizes, turn, (i - 1) as nat));
        }
    }
}

/// rand_chacha's ChaCha20 generator, carried through to the shuffle; its
/// state is opaque here.
#[verifier::external_type_specification]
#[verifier::external_body]
pub struct ExChaCha20Rng(rand_chacha::ChaCha20Rng);

/// Shuffles `tiles` in place with rand's `SliceRandom::shuffle`, a
/// Fisher-Yates shuffle made of swaps. Claimed: the result holds the same
/// tiles, each as often as before. Which order comes out depends on the
/// generator's state and is left unsaid.
#[verifier::external_body]
fn shuffle_tiles(tiles: &mut Vec<u8>, rng: &mut ChaCha20Rng)
    ensures
        final(tiles)@.len() == old(tiles)@.len(),
        final(tiles)@.to_multiset() == old(tiles)@.to_multiset(),
{
    rand::seq::SliceRandom::shuffle(tiles.as_mut_slice(), rng)
}

/// The unseen tiles of a tally, in a random order.
pub fn shuffled_bag(available_tally: &Vec<u8>, rng: &mut ChaCha20Rng) -> (bag: Vec<u8>)
    requires
        available_tally@.len() <= 256,
    ensures
        bag@.len() == tally_total(available_tally@),
        bag@.to_multiset() == expand_tally(available_tally@).to_multiset(),
{
    let mut bag = unseen_tiles(available_tally);
    shuffle_tiles(&mut bag, rng);
    proof {
        lemma_unseen_tile_total(available_tally@);
    }
    bag
}

/// Deals a simulated position: the unseen tiles of the tally go into the bag
/// in a random order, the player to move keeps `rack`, and the other players
/// draw their racks from the bag in player order. Fails exactly when the bag
/// cannot fill the other racks or `rack` does not have the size given for
/// it.
pub fn deal_sim(
    available_tally: &Vec<u8>,
    rng: &mut ChaCha20Rng,
    turn: u8,
    rack: &Vec<u8>,
    rack_sizes: &Vec<u8>,
) -> (r: Result<SimDeal, SimPrepareError>)
    requires
        available_tally@.len() <= 256,
        (turn as int) < rack_sizes@.len(),
        tally_total(available_tally@) + rack@.len() <= usize::MAX,
    ensures
        r is Ok <==> deal_fits(tally_total(available_tally@), rack@.len(), rack_sizes@, turn as int),
        r is Ok <==> (total_size(rack_sizes@) - rack_sizes@[turn as int] <= tally_total(available_tally@)
            && rack_sizes@[turn as int] == rack@.len()),
        r matches Err(e) ==> (e matches SimPrepareError::UnableToDraw { rack_sizes: sizes, unplayed: n }
            && sizes@ == rack_sizes@ && n == tally_total(available_tally@) + rack@.len()),
        r matches Ok(d) ==> {
            &&& d.racks@.len() == rack_sizes@.len()
            &&& d.racks@[turn as int]@ == rack@
            &&& forall|i: int|
                0 <= i < rack_sizes@.len() ==> (#[trigger] d.racks@[i])@.len() == rack_sizes@[i]
            &&& d.bag@.len() == tally_total(available_tally@) - drawn_before(
                rack_sizes@,
                turn as int,
                rack_sizes@.len(),
            )
            &&& d.bag@.to_multiset().add(
                tiles_of_others(d.racks@, turn as int, rack_sizes@.len()).to_multiset(),
            ) == expand_tally(available_tally@).to_multiset()
        },
{
    let bag = shuffled_bag(available_tally, rng);
    let ghost b = bag@;
    let r = deal_sim_racks(bag, turn, rack, rack_sizes);
    proof {
        if r is Ok {
            let d = r->Ok_0;
            let t = turn as int;
            lemma_deal_conserves_tiles(b, rack_sizes@, t);
            lemma_others_are_dealt(d.racks@, b, rack_sizes@, t, rack_sizes@.len());
            assert forall|i: int| 0 <= i < rack_sizes@.len() implies (#[trigger] d.racks@[i])@.len()
                == rack_sizes@[i] by {
                if i != t {
                    assert(dealt_rack(b, rack_sizes@, t, i as nat).len() == rack_sizes@[i]);
                }
            }
        }
    }
    r
}

} // verus!
