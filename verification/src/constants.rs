use vstd::prelude::*;

verus! {

/// Number of rows and of columns of a board.
pub const BOARD_SIZE: usize = 10;

/// The lengths of the ships of a fleet, in the order they are placed.
pub open spec fn fleet_lengths() -> Seq<usize> {
    seq![4usize, 3, 3, 2, 2, 2, 1, 1, 1, 1]
}

/// The lengths of the ships of a fleet, in the order they are placed.
pub fn fleet() -> (ships: Vec<usize>)
    ensures
        ships@ == fleet_lengths(),
{
    let ships: Vec<usize> = vec![4, 3, 3, 2, 2, 2, 1, 1, 1, 1];
    proof {
        assert(ships@ =~= fleet_lengths());
    }
    ships
}

/// How long the computer waits, in milliseconds, before its first shot after
/// the player missed.
pub const DELAY_AFTER_PLAYER_MISS_MS: u32 = 800;

/// How long the computer waits, in milliseconds, before shooting again after
/// it hit.
pub const DELAY_AFTER_COMPUTER_HIT_MS: u32 = 600;

} // verus!
