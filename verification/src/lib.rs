//! A deduction game of hidden cards: the rules, the beliefs a player can
//! hold about the hidden deal, and the agents that choose moves from them.

pub mod abstract_game;
pub mod agent;
pub mod arrange;
pub mod belief;
pub mod cards;
pub mod chance;
pub mod defs;
pub mod filters;
pub mod laws;
pub mod utils;
