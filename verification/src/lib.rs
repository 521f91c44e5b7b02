//! Rules engine for Manille, a four-player partnership trick-taking game
//! played with a 32-card deck.
//!
//! Card sets are 32-bit masks. Every operation on them is specified over the
//! set of card indices that the mask stands for, and the round state machine
//! is proved to keep the deck partitioned between the four hands and the
//! cards already played.

pub mod action;
pub mod action_collection;
pub mod array;
pub mod bits;
pub mod card;
pub mod game;
pub mod inference;
pub mod io;
pub mod model;
pub mod players;
pub mod round;
mod random;
pub mod stack;
pub mod suit;
pub mod trick;
pub mod weights;
