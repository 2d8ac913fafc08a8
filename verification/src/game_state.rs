use vstd::prelude::*;

verus! {

/// What one cell of a board shows.
#[derive(Clone, Copy, Debug, PartialEq, Eq, Structural)]
pub enum Field {
    Water,
    Ship,
    Hit,
    Miss,
    Sunk,
}

/// The phase the game is in.
#[derive(Debug, PartialEq, Eq)]
pub enum GameState {
    Placement,
    PlayerTurn,
    ComputerTurn,
    GameOver(String),
}

} // verus!
