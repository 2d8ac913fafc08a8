use battleship::board::Board;
use battleship::constants::BOARD_SIZE;
use battleship::game_state::Field;
use battleship::shooting::ShotResult;

fn empty_board() -> Board {
    Board {
        grid: [[Field::Water; BOARD_SIZE]; BOARD_SIZE],
        potential_targets: Vec::new(),
        hunt_mode_targets: Vec::new(),
    }
}

#[test]
fn partly_hit_ship_is_not_sunk_and_nothing_changes() {
    let mut b = empty_board();
    b.place_ship(3, 3, 3, true);
    b.grid[3][3] = Field::Hit;
    let before = b.grid;
    assert!(!b.check_and_mark_sunk(3, 3));
    assert_eq!(b.grid, before);
    b.grid[3][5] = Field::Hit;
    assert!(!b.check_and_mark_sunk(3, 5));
    assert_eq!(b.grid[3][4], Field::Ship);
}

#[test]
fn fully_hit_ship_sinks_and_water_around_becomes_miss() {
    let mut b = empty_board();
    b.place_ship(3, 3, 3, true);
    b.place_ship(7, 7, 1, true);
    b.grid[3][3] = Field::Hit;
    b.grid[3][4] = Field::Hit;
    b.grid[3][5] = Field::Hit;
    assert!(b.check_and_mark_sunk(3, 4));
    for c in 3..=5 {
        assert_eq!(b.grid[3][c], Field::Sunk);
    }
    for r in 2..=4 {
        for c in 2..=6 {
            if r != 3 || c < 3 || c > 5 {
                assert_eq!(b.grid[r][c], Field::Miss, "cell {} {}", r, c);
            }
        }
    }
    assert_eq!(b.grid[1][3], Field::Water);
    assert_eq!(b.grid[3][7], Field::Water);
    assert_eq!(b.grid[7][7], Field::Ship);
}

#[test]
fn sinking_in_a_corner_stays_on_the_board() {
    let mut b = empty_board();
    b.grid[0][0] = Field::Hit;
    assert!(b.check_and_mark_sunk(0, 0));
    assert_eq!(b.grid[0][0], Field::Sunk);
    assert_eq!(b.grid[0][1], Field::Miss);
    assert_eq!(b.grid[1][0], Field::Miss);
    assert_eq!(b.grid[1][1], Field::Miss);
    assert_eq!(b.grid[2][2], Field::Water);
}

#[test]
fn earlier_misses_and_sunk_ships_are_kept() {
    let mut b = empty_board();
    b.grid[5][5] = Field::Hit;
    b.grid[4][4] = Field::Miss;
    b.grid[6][6] = Field::Sunk;
    assert!(b.check_and_mark_sunk(5, 5));
    assert_eq!(b.grid[5][5], Field::Sunk);
    assert_eq!(b.grid[4][4], Field::Miss);
    assert_eq!(b.grid[6][6], Field::Sunk);
    assert_eq!(b.grid[4][5], Field::Miss);
}

#[test]
fn region_follows_hit_cells_side_by_side_only() {
    let mut b = empty_board();
    // a vertical hit run and a diagonal hit that is not joined to it
    b.grid[1][1] = Field::Hit;
    b.grid[2][1] = Field::Hit;
    b.grid[3][2] = Field::Hit;
    assert!(b.check_and_mark_sunk(1, 1));
    assert_eq!(b.grid[1][1], Field::Sunk);
    assert_eq!(b.grid[2][1], Field::Sunk);
    assert_eq!(b.grid[3][2], Field::Hit);
}

#[test]
fn shot_at_water_is_a_miss() {
    let mut b = empty_board();
    assert_eq!(b.receive_shot(4, 4), ShotResult::Miss);
    assert_eq!(b.grid[4][4], Field::Miss);
    assert_eq!(b.receive_shot(4, 4), ShotResult::Repeated);
    assert_eq!(b.grid[4][4], Field::Miss);
}

#[test]
fn shots_hit_then_sink() {
    let mut b = empty_board();
    b.place_ship(0, 0, 2, false);
    assert_eq!(b.receive_shot(0, 0), ShotResult::Hit);
    assert_eq!(b.grid[0][0], Field::Hit);
    assert_eq!(b.receive_shot(0, 0), ShotResult::Repeated);
    assert_eq!(b.receive_shot(1, 0), ShotResult::Sunk);
    assert_eq!(b.grid[0][0], Field::Sunk);
    assert_eq!(b.grid[1][0], Field::Sunk);
    assert_eq!(b.grid[2][0], Field::Miss);
    assert_eq!(b.grid[2][1], Field::Miss);
    assert!(b.all_sunk());
}

#[test]
fn start_off_the_board_reports_a_floating_ship() {
    let mut b = empty_board();
    b.grid[9][0] = Field::Ship;
    let before = b.grid;
    assert!(!b.check_and_mark_sunk(10, 0));
    assert_eq!(b.grid, before);

    let mut b = empty_board();
    b.grid[9][3] = Field::Hit;
    b.grid[8][3] = Field::Ship;
    let before = b.grid;
    assert!(!b.check_and_mark_sunk(10, 3));
    assert_eq!(b.grid, before);
}
