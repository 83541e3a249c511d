use vstd::prelude::*;

pub mod game;
pub mod keyboard;
pub mod scoring;
pub mod stats;
pub mod text;
pub mod tiles;
pub mod words;

verus! {

/// Number of letters in every word of the game.
pub const WORD_LENGTH: usize = 5;

/// Number of guesses a player gets.
pub const MAX_GUESSES: usize = 6;

} // verus!
