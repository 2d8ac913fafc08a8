use battleship::board::Board;
use battleship::constants::BOARD_SIZE;
use battleship::game_state::Field;

fn empty_board() -> Board {
    Board {
        grid: [[Field::Water; BOARD_SIZE]; BOARD_SIZE],
        potential_targets: Vec::new(),
        hunt_mode_targets: Vec::new(),
    }
}

fn count(board: &Board, f: Field) -> usize {
    board.grid.iter().flatten().filter(|&&x| x == f).count()
}

#[test]
fn new_board_is_water_with_every_cell_listed_once() {
    let b = Board::new();
    assert_eq!(count(&b, Field::Water), BOARD_SIZE * BOARD_SIZE);
    assert!(b.hunt_mode_targets.is_empty());
    assert_eq!(b.potential_targets.len(), BOARD_SIZE * BOARD_SIZE);
    let mut seen = [[false; BOARD_SIZE]; BOARD_SIZE];
    for &(r, c) in &b.potential_targets {
        assert!(r < BOARD_SIZE && c < BOARD_SIZE);
        assert!(!seen[r][c]);
        seen[r][c] = true;
    }
}

#[test]
fn new_board_shuffles_its_targets() {
    macroquad::rand::srand(7);
    let b = Board::new();
    let in_order: Vec<(usize, usize)> =
        (0..BOARD_SIZE).flat_map(|r| (0..BOARD_SIZE).map(move |c| (r, c))).collect();
    assert_ne!(b.potential_targets, in_order);
}

#[test]
fn swap_targets_exchanges_two_entries() {
    let mut t = vec![(0, 0), (1, 1), (2, 2)];
    battleship::board::swap_targets(&mut t, 0, 2);
    assert_eq!(t, vec![(2, 2), (1, 1), (0, 0)]);
    battleship::board::swap_targets(&mut t, 1, 1);
    assert_eq!(t, vec![(2, 2), (1, 1), (0, 0)]);
}

#[test]
fn placement_on_empty_board_is_valid() {
    let b = empty_board();
    assert!(b.is_valid_placement(0, 0, 4, true));
    assert!(b.is_valid_placement(0, 6, 4, true));
    assert!(b.is_valid_placement(6, 9, 4, false));
    assert!(b.is_valid_placement(9, 9, 1, true));
}

#[test]
fn placement_past_the_edge_is_invalid() {
    let b = empty_board();
    assert!(!b.is_valid_placement(0, 7, 4, true));
    assert!(!b.is_valid_placement(7, 0, 4, false));
    assert!(!b.is_valid_placement(0, 10, 1, true));
}

#[test]
fn placement_needs_water_all_around() {
    let mut b = empty_board();
    b.place_ship(4, 4, 2, true); // (4,4) and (4,5)
    // touching side, end, corner
    assert!(!b.is_valid_placement(5, 4, 1, true));
    assert!(!b.is_valid_placement(4, 6, 2, true));
    assert!(!b.is_valid_placement(3, 6, 1, true));
    assert!(!b.is_valid_placement(2, 3, 2, false));
    // one free cell between is enough
    assert!(b.is_valid_placement(4, 7, 3, true));
    assert!(b.is_valid_placement(6, 4, 3, false));
    assert!(b.is_valid_placement(2, 2, 1, true));
}

#[test]
fn horizontal_placement_checks_only_the_columns_of_its_row_below_the_board() {
    // A horizontal ship starting on row 10 is not rejected for its row; only
    // row 9 of its buffer lies on the board and is checked.
    let mut b = empty_board();
    assert!(b.is_valid_placement(10, 0, 1, true));
    b.place_ship(9, 1, 1, true);
    assert!(!b.is_valid_placement(10, 0, 1, true));
    assert!(b.is_valid_placement(12, 0, 1, true));
}

#[test]
fn place_ship_marks_exactly_its_cells() {
    let mut b = empty_board();
    b.place_ship(2, 3, 3, false);
    assert_eq!(count(&b, Field::Ship), 3);
    assert_eq!(b.grid[2][3], Field::Ship);
    assert_eq!(b.grid[3][3], Field::Ship);
    assert_eq!(b.grid[4][3], Field::Ship);
    b.place_ship(0, 0, 0, true);
    assert_eq!(count(&b, Field::Ship), 3);
}

#[test]
fn try_place_ship_places_only_where_valid() {
    let mut b = empty_board();
    assert!(b.try_place_ship(0, 0, 4, true));
    assert_eq!(count(&b, Field::Ship), 4);
    assert!(!b.try_place_ship(1, 0, 2, true));
    assert_eq!(count(&b, Field::Ship), 4);
    assert!(!b.try_place_ship(0, 8, 3, true));
    assert_eq!(count(&b, Field::Ship), 4);
}

#[test]
fn all_sunk_means_no_unhit_ship_part() {
    let mut b = empty_board();
    assert!(b.all_sunk());
    b.place_ship(1, 1, 2, true);
    assert!(!b.all_sunk());
    b.grid[1][1] = Field::Hit;
    assert!(!b.all_sunk());
    b.grid[1][2] = Field::Hit;
    assert!(b.all_sunk());
}

#[test]
fn hover_cell_accepts_only_board_cells() {
    assert_eq!(Board::hover_cell(0, 0), Some((0, 0)));
    assert_eq!(Board::hover_cell(9, 3), Some((9, 3)));
    assert_eq!(Board::hover_cell(10, 3), None);
    assert_eq!(Board::hover_cell(3, -1), None);
    assert_eq!(Board::hover_cell(-5, 20), None);
}

#[test]
fn shuffle_targets_follows_the_draws() {
    let mut t = vec![(0, 0), (0, 1), (0, 2), (0, 3)];
    battleship::board::shuffle_targets(&mut t, &vec![0, 0, 1]);
    assert_eq!(t, vec![(0, 2), (0, 1), (0, 3), (0, 0)]);
    let mut u = vec![(1, 1), (2, 2)];
    battleship::board::shuffle_targets(&mut u, &vec![]);
    assert_eq!(u, vec![(1, 1), (2, 2)]);
}

#[test]
fn same_seed_gives_the_same_shuffle() {
    macroquad::rand::srand(5);
    let a = Board::new();
    macroquad::rand::srand(5);
    let b = Board::new();
    assert_eq!(a.potential_targets, b.potential_targets);
}
