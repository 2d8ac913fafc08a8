use battleship::ai::{pick_ai_target, push_neighbors_to_hunt};
use battleship::board::Board;
use battleship::constants::BOARD_SIZE;
use battleship::game_state::Field;

fn empty_board() -> Board {
    Board {
        grid: [[Field::Water; BOARD_SIZE]; BOARD_SIZE],
        potential_targets: Vec::new(),
        hunt_mode_targets: Vec::new(),
    }
}

#[test]
fn hunting_targets_come_first_and_shot_cells_are_skipped() {
    let mut b = empty_board();
    b.potential_targets = vec![(0, 0), (5, 5)];
    b.hunt_mode_targets = vec![(1, 1), (2, 2), (3, 3)];
    b.grid[3][3] = Field::Miss;
    b.grid[2][2] = Field::Ship;
    assert_eq!(pick_ai_target(&mut b), Some((2, 2)));
    assert_eq!(b.hunt_mode_targets, vec![(1, 1)]);
    assert_eq!(b.potential_targets, vec![(0, 0), (5, 5)]);
}

#[test]
fn shuffled_list_is_used_when_hunting_runs_dry() {
    let mut b = empty_board();
    b.potential_targets = vec![(0, 0), (5, 5), (6, 6)];
    b.hunt_mode_targets = vec![(1, 1)];
    b.grid[1][1] = Field::Hit;
    b.grid[6][6] = Field::Sunk;
    assert_eq!(pick_ai_target(&mut b), Some((5, 5)));
    assert!(b.hunt_mode_targets.is_empty());
    assert_eq!(b.potential_targets, vec![(0, 0)]);
}

#[test]
fn no_target_left_empties_both_lists() {
    let mut b = empty_board();
    b.potential_targets = vec![(0, 0)];
    b.hunt_mode_targets = vec![(1, 1)];
    b.grid[0][0] = Field::Miss;
    b.grid[1][1] = Field::Sunk;
    assert_eq!(pick_ai_target(&mut b), None);
    assert!(b.potential_targets.is_empty());
    assert!(b.hunt_mode_targets.is_empty());
}

#[test]
fn neighbours_are_queued_right_left_down_up() {
    let mut b = empty_board();
    b.hunt_mode_targets = vec![(9, 9)];
    push_neighbors_to_hunt(&mut b, 4, 4);
    assert_eq!(b.hunt_mode_targets, vec![(9, 9), (4, 5), (4, 3), (5, 4), (3, 4)]);
}

#[test]
fn neighbours_off_board_or_shot_are_not_queued() {
    let mut b = empty_board();
    b.grid[0][1] = Field::Miss;
    b.grid[1][0] = Field::Ship;
    push_neighbors_to_hunt(&mut b, 0, 0);
    assert_eq!(b.hunt_mode_targets, vec![(1, 0)]);
}
