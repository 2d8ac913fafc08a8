use vstd::prelude::*;
use crate::game_state::Field;

verus! {

/// How a cell is drawn.
#[derive(Clone, Copy, Debug, PartialEq, Eq, Structural)]
pub enum CellLook {
    /// Plain water.
    Water,
    /// An unhit ship part, shown.
    Ship,
    /// A hit ship part: its colour with a black cross.
    Hit,
    /// A part of a sunk ship: its colour with a red cross.
    Sunk,
    /// A shot into the water: water with a mark.
    Miss,
}

/// How a cell showing `f` is drawn; with `hide_ships`, unhit ship parts are
/// drawn as water.
pub open spec fn look_of(f: Field, hide_ships: bool) -> CellLook {
    match f {
        Field::Water => CellLook::Water,
        Field::Ship => if hide_ships {
            CellLook::Water
        } else {
            CellLook::Ship
        },
        Field::Hit => CellLook::Hit,
        Field::Sunk => CellLook::Sunk,
        Field::Miss => CellLook::Miss,
    }
}

/// How a cell showing `f` is drawn.  With `hide_ships` an unhit ship part
/// looks exactly like water, so a hidden board gives nothing away; every
/// other field looks the same whether ships are hidden or not.
pub fn cell_look(f: Field, hide_ships: bool) -> (look: CellLook)
    ensures
        look == look_of(f, hide_ships),
        hide_ships && (f == Field::Ship || f == Field::Water) ==> look == CellLook::Water,
        f != Field::Ship ==> look == look_of(f, !hide_ships),
{
    match f {
        Field::Water => CellLook::Water,
        Field::Ship => {
            if hide_ships {
                CellLook::Water
            } else {
                CellLook::Ship
            }
        },
        Field::Hit => CellLook::Hit,
        Field::Sunk => CellLook::Sunk,
        Field::Miss => CellLook::Miss,
    }
}

} // verus!
