//! A verified Wordle solver: it keeps the words of one length that are still
//! consistent with the clues a player has been given, and narrows them down
//! as each scored guess is folded in.

pub mod letters;
pub mod order;
pub mod text;
pub mod dictionary;
pub mod model;
pub mod solver;
pub mod command;
pub mod laws;
