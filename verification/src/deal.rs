//! Filling the other players' racks with the unseen tiles before a play is
//! scored: each other player in turn takes a full rack, or what is left,
//! from the unseen tiles in tile order, and the rest forms the bag.

use crate::rules::GameRules;
use crate::tiles::{expand_tally, unseen_tiles};
use vstd::prelude::*;

verus! {

broadcast use vstd::seq_lib::group_seq_properties;

/// How many unseen tiles the first `i` other players take between them: each
/// takes a full rack while enough tiles are left, and then the rest.
pub open spec fn taken_by_first(total: nat, rack_size: nat, i: nat) -> nat
    decreases i,
{
    if i == 0 {
        0
    } else {
        let before = taken_by_first(total, rack_size, (i - 1) as nat);
        if before + rack_size <= total {
            before + rack_size
        } else {
            total
        }
    }
}

/// The rack of other player `i` (1 up to the number of players, exclusive)
/// when `unseen` is dealt out with racks of `rack_size`.
pub open spec fn opponent_rack(unseen: Seq<u8>, rack_size: nat, i: nat) -> Seq<u8> {
    unseen.subrange(
        taken_by_first(unseen.len(), rack_size, (i - 1) as nat) as int,
        taken_by_first(unseen.len(), rack_size, i) as int,
    )
}

/// The racks of racks `1` up to `i`, exclusive, one after the other.
pub open spec fn opponent_tiles(racks: Seq<Vec<u8>>, i: nat) -> Seq<u8>
    decreases i,
{
    if i <= 1 {
        Seq::empty()
    } else {
        opponent_tiles(racks, (i - 1) as nat) + racks[i - 1]@
    }
}

/// Every player's rack, and the bag.
pub struct ScoringDeal {
    pub racks: Vec<Vec<u8>>,
    pub bag: Vec<u8>,
}

pub proof fn lemma_taken_bounds(total: nat, rack_size: nat, i: nat)
    ensures
        taken_by_first(total, rack_size, i) <= total,
        i > 0 ==> taken_by_first(total, rack_size, (i - 1) as nat) <= taken_by_first(
            total,
            rack_size,
            i,
        ),
    decreases i,
{
    if i > 0 {
        lemma_taken_bounds(total, rack_size, (i - 1) as nat);
    }
}

fn copy_range(v: &Vec<u8>, lo: usize, hi: usize) -> (out: Vec<u8>)
    requires
        lo <= hi <= v@.len(),
    ensures
        out@ == v@.subrange(lo as int, hi as int),
{
    let mut out: Vec<u8> = Vec::new();
    let mut k: usize = lo;
    while k < hi
        invariant
            lo <= k <= hi <= v@.len(),
            out@ == v@.subrange(lo as int, k as int),
        decreases hi - k,
    {
        out.push(v[k]);
        k = k + 1;
        assert(out@ =~= v@.subrange(lo as int, k as int));
    }
    out
}

/// Deals the unseen tiles of a tally before a play is scored: the player to
/// move (player 0) holds `rack`; each other player, in order, takes a full
/// rack from the unseen tiles in tile order, or all that is left; the rest is
/// the bag.
pub fn deal_unseen(available_tally: &Vec<u8>, rules: &GameRules, rack: &Vec<u8>) -> (deal: ScoringDeal)
    requires
        available_tally@.len() <= 256,
        rules.num_players >= 1,
    ensures
        deal.racks@.len() == rules.num_players,
        deal.racks@[0]@ == rack@,
        forall|i: int|
            1 <= i < rules.num_players ==> (#[trigger] deal.racks@[i])@ == opponent_rack(
                expand_tally(available_tally@),
                rules.rack_size as nat,
                i as nat,
            ),
        opponent_tiles(deal.racks@, rules.num_players as nat) + deal.bag@ == expand_tally(
            available_tally@,
        ),
        deal.bag@ == expand_tally(available_tally@).skip(
            taken_by_first(
                expand_tally(available_tally@).len(),
                rules.rack_size as nat,
                (rules.num_players - 1) as nat,
            ) as int,
        ),
{
    let unseen = unseen_tiles(available_tally);
    let ghost u = unseen@;
    let rack_size: usize = rules.rack_size as usize;
    let num_players: usize = rules.num_players as usize;
    let mut racks: Vec<Vec<u8>> = Vec::new();
    racks.push(rack.clone());
    let mut pos: usize = 0;
    let mut i: usize = 1;
    while i < num_players
        invariant
            1 <= i <= num_players,
            num_players == rules.num_players,
            rack_size == rules.rack_size,
            u == unseen@,
            u == expand_tally(available_tally@),
            racks@.len() == i,
            racks@[0]@ == rack@,
            pos == taken_by_first(u.len(), rack_size as nat, (i - 1) as nat),
            pos <= u.len(),
            forall|j: int|
                1 <= j < i ==> (#[trigger] racks@[j])@ == opponent_rack(u, rack_size as nat, j as nat),
        decreases num_players - i,
    {
        let left: usize = unseen.len() - pos;
        let take: usize = if rack_size <= left { rack_size } else { left };
        let end: usize = pos + take;
        let this_rack = copy_range(&unseen, pos, end);
        proof {
            assert(end == taken_by_first(u.len(), rack_size as nat, i as nat));
        }
        racks.push(this_rack);
        pos = end;
        i = i + 1;
    }
    let bag = copy_range(&unseen, pos, unseen.len());
    assert(bag@ =~= u.skip(pos as int));
    proof {
        lemma_scoring_deal_conserves_tiles(racks@, u, rack_size as nat, num_players as nat);
    }
    ScoringDeal { racks, bag }
}

proof fn lemma_opponents_prefix(racks: Seq<Vec<u8>>, unseen: Seq<u8>, rack_size: nat, i: nat)
    requires
        1 <= i <= racks.len(),
        forall|j: int| 1 <= j < i ==> (#[trigger] racks[j])@ == opponent_rack(unseen, rack_size, j as nat),
    ensures
        opponent_tiles(racks, i) == unseen.take(taken_by_first(unseen.len(), rack_size, (i - 1) as nat) as int),
    decreases i,
{
    if i == 1 {
        assert(unseen.take(0) =~= Seq::<u8>::empty());
    } else {
        let prev = (i - 1) as nat;
        lemma_opponents_prefix(racks, unseen, rack_size, prev);
        lemma_taken_bounds(unseen.len(), rack_size, prev);
        assert(racks[i - 1]@ == opponent_rack(unseen, rack_size, prev));
        let a = taken_by_first(unseen.len(), rack_size, (prev - 1) as nat) as int;
        let b = taken_by_first(unseen.len(), rack_size, prev) as int;
        assert(unseen.take(a) + unseen.subrange(a, b) =~= unseen.take(b));
    }
}

/// Dealing before scoring neither creates nor loses a tile: the other
/// players' racks, in player order, followed by the bag, are exactly the
/// unseen tiles. No rack holds more than a full rack, and a rack falls short
/// only when the unseen tiles have run out.
pub proof fn lemma_scoring_deal_conserves_tiles(
    racks: Seq<Vec<u8>>,
    unseen: Seq<u8>,
    rack_size: nat,
    num_players: nat,
)
    requires
        num_players >= 1,
        racks.len() == num_players,
        forall|j: int|
            1 <= j < num_players ==> (#[trigger] racks[j])@ == opponent_rack(unseen, rack_size, j as nat),
    ensures
        opponent_tiles(racks, num_players) + unseen.skip(
            taken_by_first(unseen.len(), rack_size, (num_players - 1) as nat) as int,
        ) == unseen,
        forall|i: int| 1 <= i < num_players ==> (#[trigger] racks[i])@.len() <= rack_size,
        forall|i: int|
            1 <= i < num_players && (#[trigger] racks[i])@.len() < rack_size ==> taken_by_first(
                unseen.len(),
                rack_size,
                i as nat,
            ) == unseen.len(),
{
    lemma_opponents_prefix(racks, unseen, rack_size, num_players);
    let cut = taken_by_first(unseen.len(), rack_size, (num_players - 1) as nat) as int;
    lemma_taken_bounds(unseen.len(), rack_size, (num_players - 1) as nat);
    assert(unseen.take(cut) + unseen.skip(cut) =~= unseen);
    assert forall|i: int| 1 <= i < num_players implies (#[trigger] racks[i])@.len() <= rack_size && (
    racks[i]@.len() < rack_size ==> taken_by_first(unseen.len(), rack_size, i as nat) == unseen.len()) by {
        lemma_taken_bounds(unseen.len(), rack_size, i as nat);
    }
}

} // verus!
