use battleship::game_state::Field;
use battleship::look::{cell_look, CellLook};

#[test]
fn hidden_ships_look_like_water() {
    assert_eq!(cell_look(Field::Ship, true), CellLook::Water);
    assert_eq!(cell_look(Field::Water, true), CellLook::Water);
    assert_eq!(cell_look(Field::Ship, false), CellLook::Ship);
}

#[test]
fn shots_look_the_same_hidden_or_not() {
    for hide in [true, false] {
        assert_eq!(cell_look(Field::Hit, hide), CellLook::Hit);
        assert_eq!(cell_look(Field::Sunk, hide), CellLook::Sunk);
        assert_eq!(cell_look(Field::Miss, hide), CellLook::Miss);
        assert_eq!(cell_look(Field::Water, hide), CellLook::Water);
    }
}
