//! The checks a request to prepare a simulation must pass before any tile is
//! dealt, and the errors it is answered with.

use crate::rules::GameRules;
use vstd::prelude::*;

verus! {

/// Why a simulation could not be prepared.
#[derive(Clone, Debug, PartialEq, Eq)]
pub enum SimPrepareError {
    /// The rack holds more tiles than a rack can.
    RackTooLong { max: u8, rack_len: usize },
    /// The player to move is not one of the players.
    TurnOutOfRange { num_players: u8, turn: u8 },
    /// There is not one rack size per player.
    RackSizesLength { expected: u8, found: usize },
    /// Some rack size is larger than a rack can hold.
    RackSizeTooLarge { max: u8, rack_sizes: Vec<u8> },
    /// The size given for the player to move differs from the rack given.
    RackSizeMismatch { turn: u8, rack_size: u8, rack_len: usize },
    /// There is not one score per player.
    ScoresLength { expected: u8, found: usize },
    /// The unplayed tiles do not suffice to fill the racks of the given sizes.
    UnableToDraw { rack_sizes: Vec<u8>, unplayed: usize },
}

/// Some rack size exceeds what a rack holds.
pub open spec fn some_size_too_large(rules: GameRules, rack_sizes: Seq<u8>) -> bool {
    exists|i: int| 0 <= i < rack_sizes.len() && rack_sizes[i] > rules.rack_size
}

/// The request passes every check.
pub open spec fn sim_request_ok(
    rules: GameRules,
    rack: Seq<u8>,
    turn: u8,
    rack_sizes: Seq<u8>,
    scores_len: nat,
) -> bool {
    &&& rack.len() <= rules.rack_size
    &&& turn < rules.num_players
    &&& rack_sizes.len() == rules.num_players
    &&& !some_size_too_large(rules, rack_sizes)
    &&& rack_sizes[turn as int] == rack.len()
    &&& scores_len == rules.num_players
}

/// A request is accepted exactly when the rack fits a rack, the player to
/// move is one of the players, there is one rack size and one score per
/// player, every rack size (the first one included) is at most the rack
/// size of the rules, and the mover's size is the length of its rack.
pub proof fn lemma_sim_request_ok_means(
    rules: GameRules,
    rack: Seq<u8>,
    turn: u8,
    rack_sizes: Seq<u8>,
    scores_len: nat,
)
    ensures
        sim_request_ok(rules, rack, turn, rack_sizes, scores_len) <==> {
            &&& rack.len() <= rules.rack_size
            &&& turn < rules.num_players
            &&& rack_sizes.len() == rules.num_players
            &&& forall|i: int| 0 <= i < rack_sizes.len() ==> rack_sizes[i] <= rules.rack_size
            &&& rack_sizes[turn as int] == rack.len()
            &&& scores_len == rules.num_players
        },
        some_size_too_large(rules, rack_sizes) <==> exists|i: int|
            0 <= i < rack_sizes.len() && rack_sizes[i] > rules.rack_size,
{
}

/// Checks a simulation request, in this order: the rack fits a rack, the
/// player to move exists, there is one rack size per player, no rack size
/// exceeds a rack, the size for the player to move is the rack's length, and
/// there is one score per player. The first check that fails gives the error.
pub fn check_sim_request(rules: &GameRules, rack: &Vec<u8>, turn: u8, rack_sizes: &Vec<u8>, scores: &Vec<i16>) -> (r: Result<(), SimPrepareError>)
    ensures
        r is Ok <==> sim_request_ok(*rules, rack@, turn, rack_sizes@, scores@.len()),
        r is Ok <==> {
            &&& rack@.len() <= rules.rack_size
            &&& turn < rules.num_players
            &&& rack_sizes@.len() == rules.num_players
            &&& forall|i: int| 0 <= i < rack_sizes@.len() ==> rack_sizes@[i] <= rules.rack_size
            &&& rack_sizes@[turn as int] == rack@.len()
            &&& scores@.len() == rules.num_players
        },
        rack@.len() <= rules.rack_size && turn < rules.num_players && rack_sizes@.len() == rules.num_players
            && (exists|i: int| 0 <= i < rack_sizes@.len() && rack_sizes@[i] > rules.rack_size) ==> (r matches Err(
            SimPrepareError::RackSizeTooLarge { max, rack_sizes: sizes },
        ) && max == rules.rack_size && sizes@ == rack_sizes@),
        rack@.len() > rules.rack_size ==> r == Err::<(), SimPrepareError>(
            SimPrepareError::RackTooLong { max: rules.rack_size, rack_len: rack.len() },
        ),
        rack@.len() <= rules.rack_size && turn >= rules.num_players ==> r == Err::<(), SimPrepareError>(
            SimPrepareError::TurnOutOfRange { num_players: rules.num_players, turn },
        ),
        rack@.len() <= rules.rack_size && turn < rules.num_players && rack_sizes@.len() != rules.num_players
            ==> r == Err::<(), SimPrepareError>(
            SimPrepareError::RackSizesLength { expected: rules.num_players, found: rack_sizes.len() },
        ),
        rack@.len() <= rules.rack_size && turn < rules.num_players && rack_sizes@.len() == rules.num_players
            && some_size_too_large(*rules, rack_sizes@) ==> (r matches Err(
            SimPrepareError::RackSizeTooLarge { max, rack_sizes: sizes },
        ) && max == rules.rack_size && sizes@ == rack_sizes@),
        rack@.len() <= rules.rack_size && turn < rules.num_players && rack_sizes@.len() == rules.num_players
            && !some_size_too_large(*rules, rack_sizes@) && rack_sizes@[turn as int] != rack@.len() ==> r
            == Err::<(), SimPrepareError>(
            SimPrepareError::RackSizeMismatch {
                turn,
                rack_size: rack_sizes@[turn as int],
                rack_len: rack.len(),
            },
        ),
        rack@.len() <= rules.rack_size && turn < rules.num_players && rack_sizes@.len() == rules.num_players
            && !some_size_too_large(*rules, rack_sizes@) && rack_sizes@[turn as int] == rack@.len()
            && scores@.len() != rules.num_players ==> r == Err::<(), SimPrepareError>(
            SimPrepareError::ScoresLength { expected: rules.num_players, found: scores.len() },
        ),
{
    let max: u8 = rules.rack_size;
    let num_players: u8 = rules.num_players;
    if rack.len() > max as usize {
        return Err(SimPrepareError::RackTooLong { max, rack_len: rack.len() });
    }
    if turn >= num_players {
        return Err(SimPrepareError::TurnOutOfRange { num_players, turn });
    }
    if rack_sizes.len() != num_players as usize {
        return Err(SimPrepareError::RackSizesLength { expected: num_players, found: rack_sizes.len() });
    }
    let mut i: usize = 0;
    while i < rack_sizes.len()
        invariant
            i <= rack_sizes.len(),
            max == rules.rack_size,
            num_players == rules.num_players,
            rack.len() <= max,
            turn < num_players,
            rack_sizes.len() == num_players,
            forall|j: int| 0 <= j < i ==> rack_sizes@[j] <= max,
        decreases rack_sizes.len() - i,
    {
        if rack_sizes[i] > max {
            return Err(SimPrepareError::RackSizeTooLarge { max, rack_sizes: rack_sizes.clone() });
        }
        i = i + 1;
    }
    let at_turn: u8 = rack_sizes[turn as usize];
    if at_turn as usize != rack.len() {
        return Err(SimPrepareError::RackSizeMismatch { turn, rack_size: at_turn, rack_len: rack.len() });
    }
    if scores.len() != num_players as usize {
        return Err(SimPrepareError::ScoresLength { expected: num_players, found: scores.len() });
    }
    Ok(())
}

} // verus!
