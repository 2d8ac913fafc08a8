use battleship::board::Board;
use battleship::constants::{fleet, BOARD_SIZE};
use battleship::game::{FrameInput, Game, Message, ShipOutline};
use battleship::game_state::{Field, GameState};

fn empty_board() -> Board {
    Board {
        grid: [[Field::Water; BOARD_SIZE]; BOARD_SIZE],
        potential_targets: Vec::new(),
        hunt_mode_targets: Vec::new(),
    }
}

fn idle() -> FrameInput {
    FrameInput {
        rotate_pressed: false,
        confirm_pressed: false,
        clicked: false,
        player_hover: None,
        enemy_hover: None,
        delay_elapsed: false,
    }
}

fn ship_cells(b: &Board) -> usize {
    b.grid.iter().flatten().filter(|&&f| f == Field::Ship).count()
}

/// Ships lie in straight lines that never touch one another.
fn fleet_apart(b: &Board) -> bool {
    let part = |r: i32, c: i32| -> bool {
        r >= 0
            && c >= 0
            && (r as usize) < BOARD_SIZE
            && (c as usize) < BOARD_SIZE
            && matches!(b.grid[r as usize][c as usize], Field::Ship | Field::Hit | Field::Sunk)
    };
    for r in 0..BOARD_SIZE as i32 {
        for c in 0..BOARD_SIZE as i32 {
            if part(r, c) {
                if part(r - 1, c - 1) || part(r - 1, c + 1) || part(r + 1, c - 1) || part(r + 1, c + 1) {
                    return false;
                }
                if (part(r, c - 1) || part(r, c + 1)) && (part(r - 1, c) || part(r + 1, c)) {
                    return false;
                }
            }
        }
    }
    true
}

#[test]
fn fleet_has_ten_ships() {
    assert_eq!(fleet(), vec![4, 3, 3, 2, 2, 2, 1, 1, 1, 1]);
}

#[test]
fn new_game_waits_for_the_player_fleet() {
    let g = Game::new();
    assert_eq!(g.state, GameState::Placement);
    assert_eq!(g.message, Message::PlaceFleet);
    assert!(g.horizontal);
    assert_eq!(g.ships_queue, fleet());
    assert_eq!(ship_cells(&g.player_board), 0);
    assert!(ship_cells(&g.enemy_board) <= 20);
    assert!(fleet_apart(&g.enemy_board));
}

#[test]
fn randomized_fleet_is_placed_apart() {
    macroquad::rand::srand(12345);
    for _ in 0..5 {
        let mut b = Board::new();
        b.randomize_ships();
        let n = ship_cells(&b);
        // a generator that always gave its lower bound would place only the first ship
        assert!(n > 4, "only {} ship cells", n);
        assert!(n <= 20);
        assert!(fleet_apart(&b));
    }
}

#[test]
fn placement_frame_rotates_places_and_starts() {
    let mut g = Game::new();
    let mut input = idle();
    input.rotate_pressed = true;
    let out = g.step(&input);
    assert!(!g.horizontal);
    assert!(out.outline.is_none());

    input = idle();
    input.player_hover = Some((0, 0));
    let out = g.step(&input);
    assert_eq!(
        out.outline,
        Some(ShipOutline { row: 0, col: 0, len: 4, horizontal: false, valid: true })
    );
    assert_eq!(ship_cells(&g.player_board), 0);

    input.clicked = true;
    g.step(&input);
    assert_eq!(ship_cells(&g.player_board), 4);
    assert_eq!(g.ships_queue, vec![3, 3, 2, 2, 2, 1, 1, 1, 1]);
    assert_eq!(g.message, Message::PlaceShip(3));

    // the same spot is now taken
    let out = g.step(&input);
    assert_eq!(out.outline.map(|s| s.valid), Some(false));
    assert_eq!(ship_cells(&g.player_board), 4);

    // confirming too early does nothing
    let mut confirm = idle();
    confirm.confirm_pressed = true;
    g.step(&confirm);
    assert_eq!(g.state, GameState::Placement);

    let spots = [(0, 2), (0, 4), (0, 6), (0, 8), (5, 0), (5, 2), (5, 4), (5, 6), (5, 8)];
    for &(r, c) in &spots {
        let mut click = idle();
        click.player_hover = Some((r, c));
        click.clicked = true;
        g.step(&click);
    }
    assert!(g.ships_queue.is_empty());
    assert_eq!(g.message, Message::FleetPlaced);
    assert_eq!(ship_cells(&g.player_board), 20);
    assert!(fleet_apart(&g.player_board));

    g.step(&confirm);
    assert_eq!(g.state, GameState::PlayerTurn);
    assert_eq!(g.message, Message::StartShooting);
}

fn game_in_player_turn(enemy: Board, player: Board) -> Game {
    let mut g = Game::new();
    g.enemy_board = enemy;
    g.player_board = player;
    g.ships_queue.clear();
    g.state = GameState::PlayerTurn;
    g
}

#[test]
fn player_miss_hands_the_turn_over() {
    let mut enemy = empty_board();
    enemy.place_ship(0, 0, 1, true);
    let mut g = game_in_player_turn(enemy, empty_board());
    let mut shot = idle();
    shot.enemy_hover = Some((5, 5));
    let out = g.step(&shot);
    assert_eq!(out.turn_delay_ms, None);
    assert_eq!(g.enemy_board.grid[5][5], Field::Water);

    shot.clicked = true;
    let out = g.step(&shot);
    assert_eq!(g.enemy_board.grid[5][5], Field::Miss);
    assert_eq!(g.state, GameState::ComputerTurn);
    assert_eq!(g.message, Message::PlayerMiss);
    assert_eq!(out.turn_delay_ms, Some(800));
}

#[test]
fn player_hit_keeps_the_turn_and_last_sink_wins() {
    let mut enemy = empty_board();
    enemy.place_ship(2, 2, 2, true);
    enemy.place_ship(6, 6, 1, true);
    let mut g = game_in_player_turn(enemy, empty_board());
    let mut shot = idle();
    shot.clicked = true;

    shot.enemy_hover = Some((2, 2));
    g.step(&shot);
    assert_eq!(g.message, Message::PlayerHit);
    assert_eq!(g.state, GameState::PlayerTurn);

    // shooting the same cell again changes nothing
    g.step(&shot);
    assert_eq!(g.message, Message::PlayerHit);
    assert_eq!(g.state, GameState::PlayerTurn);

    shot.enemy_hover = Some((2, 3));
    g.step(&shot);
    assert_eq!(g.message, Message::PlayerSunk);
    assert_eq!(g.state, GameState::PlayerTurn);
    assert_eq!(g.enemy_board.grid[1][1], Field::Miss);

    shot.enemy_hover = Some((6, 6));
    g.step(&shot);
    assert_eq!(g.message, Message::PlayerSunk);
    assert_eq!(g.state, GameState::GameOver("ZWYCIESTWO!".to_string()));
}

#[test]
fn computer_waits_then_fires_from_its_list() {
    let mut player = empty_board();
    player.place_ship(4, 4, 2, true);
    player.potential_targets = vec![(9, 9), (4, 4)];
    let mut g = game_in_player_turn(empty_board(), player);
    g.state = GameState::ComputerTurn;

    let out = g.step(&idle());
    assert_eq!(g.state, GameState::ComputerTurn);
    assert_eq!(out.turn_delay_ms, None);
    assert_eq!(g.player_board.potential_targets.len(), 2);

    let mut go = idle();
    go.delay_elapsed = true;
    let out = g.step(&go);
    assert_eq!(g.player_board.grid[4][4], Field::Hit);
    assert_eq!(g.message, Message::ComputerHit);
    assert_eq!(g.state, GameState::ComputerTurn);
    assert_eq!(out.turn_delay_ms, Some(600));
    assert_eq!(g.player_board.hunt_mode_targets, vec![(4, 5), (4, 3), (5, 4), (3, 4)]);

    // the most recently queued neighbour comes first: up, then down, then left
    for &(r, c) in &[(3, 4), (5, 4), (4, 3)] {
        g.step(&go);
        assert_eq!(g.player_board.grid[r][c], Field::Miss);
        assert_eq!(g.state, GameState::PlayerTurn);
        assert_eq!(g.message, Message::YourTurn);
        g.state = GameState::ComputerTurn;
    }

    let out = g.step(&go);
    assert_eq!(g.player_board.grid[4][5], Field::Sunk);
    assert_eq!(g.player_board.grid[4][4], Field::Sunk);
    assert!(g.player_board.hunt_mode_targets.is_empty());
    assert_eq!(g.state, GameState::GameOver("PORAZKA...".to_string()));
    assert_eq!(g.message, Message::YourTurn);
    assert_eq!(out.turn_delay_ms, None);
}

#[test]
fn computer_miss_returns_the_turn() {
    let mut player = empty_board();
    player.place_ship(0, 0, 1, true);
    player.potential_targets = vec![(7, 7)];
    let mut g = game_in_player_turn(empty_board(), player);
    g.state = GameState::ComputerTurn;
    let mut go = idle();
    go.delay_elapsed = true;
    g.step(&go);
    assert_eq!(g.player_board.grid[7][7], Field::Miss);
    assert_eq!(g.state, GameState::PlayerTurn);
    assert_eq!(g.message, Message::YourTurn);
    assert!(g.player_board.potential_targets.is_empty());

    // nothing left to fire at: the turn simply passes back
    g.state = GameState::ComputerTurn;
    g.message = Message::StartShooting;
    g.step(&go);
    assert_eq!(g.state, GameState::PlayerTurn);
    assert_eq!(g.message, Message::StartShooting);
}

#[test]
fn game_over_announces_and_restarts_on_confirm() {
    let mut g = game_in_player_turn(empty_board(), empty_board());
    g.state = GameState::GameOver("ZWYCIESTWO!".to_string());
    let out = g.step(&idle());
    assert_eq!(g.message, Message::GameOver);
    assert_eq!(g.state, GameState::GameOver("ZWYCIESTWO!".to_string()));
    assert_eq!(out.turn_delay_ms, None);

    let mut confirm = idle();
    confirm.confirm_pressed = true;
    let out = g.step(&confirm);
    assert_eq!(g.state, GameState::Placement);
    assert_eq!(g.message, Message::PlaceFleet);
    assert_eq!(g.ships_queue, fleet());
    assert!(g.horizontal);
    assert_eq!(out.turn_delay_ms, Some(0));
    assert_eq!(ship_cells(&g.player_board), 0);
    assert_eq!(g.player_board.potential_targets.len(), 100);
}

fn ship_parts(b: &Board) -> Vec<(usize, usize)> {
    let mut v = Vec::new();
    for r in 0..BOARD_SIZE {
        for c in 0..BOARD_SIZE {
            if matches!(b.grid[r][c], Field::Ship | Field::Hit | Field::Sunk) {
                v.push((r, c));
            }
        }
    }
    v
}

#[test]
fn computer_clears_a_board_without_repeating_or_moving_ships() {
    macroquad::rand::srand(99);
    let mut player = Board::new();
    player.randomize_ships();
    let parts = ship_parts(&player);
    let mut g = game_in_player_turn(empty_board(), player);
    let mut go = idle();
    go.delay_elapsed = true;
    let mut shots = 0;
    while matches!(g.state, GameState::ComputerTurn | GameState::PlayerTurn) && shots < 200 {
        g.state = GameState::ComputerTurn;
        g.step(&go);
        shots += 1;
        assert_ne!(g.message, Message::TargetError);
        assert_eq!(ship_parts(&g.player_board), parts);
        assert!(fleet_apart(&g.player_board));
    }
    assert_eq!(g.state, GameState::GameOver("PORAZKA...".to_string()));
    assert!(g.player_board.all_sunk());
    assert!(shots <= 100);
}
