//! A four-seat trick-taking card game played over a line protocol: cards,
//! dealing, admission of connections, the rules of play as a state machine,
//! and the server and client sides of the conversation.
//!
//! Beside the game the crate holds the logic of three small tools, a
//! password checker, an expression evaluator and a base converter, and a
//! queue that knows its maximum.

pub mod admission;
pub mod args;
pub mod card;
pub mod client;
pub mod context;
pub mod deck;
pub mod game;
pub mod laws;
pub mod model;
pub mod protocol;
pub mod session;

pub mod basejump;
pub mod entropy;
pub mod expression;
pub mod guess;
pub mod order;
pub mod queue;
pub mod text;
pub mod unscramble;
pub mod uqexpr;
