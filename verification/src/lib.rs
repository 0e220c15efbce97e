//! Game-independent logic behind the word-game engine's browser entry points:
//! the tiles that are still unseen, how they are dealt to the other players
//! and to the bag, the checks a simulation request must pass, and the
//! registries that hold lexicons, rule sets and running simulations.

pub mod bag;
pub mod deal;
pub mod named_cache;
pub mod rules;
pub mod sim_registry;
pub mod sim_request;
pub mod tiles;
