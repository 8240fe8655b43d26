//! A multiplayer poker table engine: cards and hand classification,
//! a line-based protocol codec, participant records, and the table
//! state machine that runs hands from lobby to showdown.

pub mod bot;
pub mod card;
pub mod evaluator;
pub mod classify;
pub mod hand;
pub mod human;
pub mod message;
pub mod player;
mod rng;
pub mod seq_util;
pub mod server;
pub mod table;
pub mod text;

pub use card::Card;
