//! The parts of a rule set that the request handling reads.

use vstd::prelude::*;

verus! {

/// How many players take part and how many tiles a full rack holds.
#[derive(Clone, Copy, Debug, PartialEq, Eq, Structural)]
pub struct GameRules {
    pub num_players: u8,
    pub rack_size: u8,
}

impl GameRules {
    /// The rules of a game of `num_players` with racks of `rack_size` tiles.
    pub fn new(num_players: u8, rack_size: u8) -> (rules: GameRules)
        ensures
            rules.num_players == num_players,
            rules.rack_size == rack_size,
    {
        GameRules { num_players, rack_size }
    }
}

} // verus!
