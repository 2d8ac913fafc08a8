//! Game logic of a two-board Battleship: placing a fleet, shooting, sinking
//! ships, and the computer opponent's targeting.
use vstd::prelude::*;

pub mod constants;
pub mod game_state;
pub mod board;
pub mod sinking;
pub mod ai;
pub mod fleet;
pub mod shooting;
pub mod game;
pub mod look;
mod random;
