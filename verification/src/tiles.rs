//! The board's building blocks: the colour of a tile, a tile, and the state
//! of a game.
use vstd::prelude::*;

verus! {

/// What a tile on the board (or a key on the keyboard) shows.
#[derive(Clone, Copy, PartialEq, Eq, Debug, Structural)]
pub enum TileState {
    /// Nothing typed here yet.
    Empty,
    /// A letter of the guess being typed.
    Typing,
    /// Green: right letter, right position.
    Correct,
    /// Yellow: right letter, wrong position.
    Present,
    /// Gray: letter not in the word (or no more of it).
    Absent,
}

/// One square of the board: a character and its colour.
#[derive(Clone, Copy, Debug)]
pub struct Tile {
    pub ch: char,
    pub state: TileState,
}

impl Tile {
    /// A tile showing `ch` in colour `state`.
    pub fn new(ch: char, state: TileState) -> (t: Tile)
        ensures
            t.ch == ch,
            t.state == state,
    {
        Tile { ch, state }
    }

    /// A blank, empty tile.
    pub open spec fn blank() -> Tile {
        Tile { ch: ' ', state: TileState::Empty }
    }
}

impl Default for Tile {
    fn default() -> (t: Tile)
        ensures
            t == Tile::blank(),
    {
        Tile { ch: ' ', state: TileState::Empty }
    }
}

/// Whether a game is still going on, and how it ended.
#[derive(Clone, Copy, PartialEq, Eq, Debug, Structural)]
pub enum GameStatus {
    Playing,
    Won,
    Lost,
}

} // verus!
