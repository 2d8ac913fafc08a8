use vstd::prelude::*;
use crate::ai::{shootable, shootable_at, last_shootable, lemma_last_shootable_bounds, lemma_scan_in_board, pick_ai_target, push_neighbors_to_hunt, shootable_sides};
use crate::board::{all_water, each_cell_once, in_board, no_ship_left, placement_ok, sized, with_ship, Board};
use crate::constants::{fleet, fleet_lengths, BOARD_SIZE, DELAY_AFTER_COMPUTER_HIT_MS, DELAY_AFTER_PLAYER_MISS_MS};
use crate::fleet::{draws_on_board, fleet_apart, fleet_from_draws, lemma_random_fleet_not_empty, Draw};
use crate::game_state::{Field, GameState};
use crate::shooting::{lemma_same_parts_keep_fleet_apart, lemma_shot_keeps_ship_parts, shot_outcome, ShotResult};

verus! {

/// The line of text the game shows under the boards.
#[derive(Clone, Copy, Debug, PartialEq, Eq, Structural)]
pub enum Message {
    /// The player is asked to place the fleet.
    PlaceFleet,
    /// The player is asked to place the next ship, of the given length.
    PlaceShip(usize),
    /// Every ship is placed; the player may start.
    FleetPlaced,
    /// The player may shoot at the computer's board.
    StartShooting,
    /// The player missed; the computer shoots next.
    PlayerMiss,
    /// The player sank a ship and shoots again.
    PlayerSunk,
    /// The player hit a ship.
    PlayerHit,
    /// The computer missed; the player shoots next.
    YourTurn,
    /// The computer hit one of the player's ships.
    ComputerHit,
    /// The computer picked a cell that had already been shot at.
    TargetError,
    /// The game is over.
    GameOver,
}

/// What happened since the previous frame: keys pressed, the mouse button
/// pressed, the cells under the mouse on each board, and whether the
/// computer's waiting time has run out.
#[derive(Clone, Copy, Debug)]
pub struct FrameInput {
    pub rotate_pressed: bool,
    pub confirm_pressed: bool,
    pub clicked: bool,
    pub player_hover: Option<(usize, usize)>,
    pub enemy_hover: Option<(usize, usize)>,
    pub delay_elapsed: bool,
}

/// The outline of the ship about to be placed, where the mouse points, and
/// whether it may be placed there.
#[derive(Clone, Copy, Debug, PartialEq, Eq, Structural)]
pub struct ShipOutline {
    pub row: usize,
    pub col: usize,
    pub len: usize,
    pub horizontal: bool,
    pub valid: bool,
}

/// What a frame asks of its caller: the ship outline to draw, and the delay
/// (in milliseconds) to wait before the computer's next shot, when a new one
/// starts.
#[derive(Clone, Copy, Debug)]
pub struct FrameOutput {
    pub outline: Option<ShipOutline>,
    pub turn_delay_ms: Option<u32>,
}

/// A whole game: both boards, the ships the player has still to place, the
/// direction of the next ship, the phase, and the message shown.
pub struct Game {
    pub player_board: Board,
    pub enemy_board: Board,
    pub ships_queue: Vec<usize>,
    pub horizontal: bool,
    pub state: GameState,
    pub message: Message,
}

/// The game is won by the player.
pub open spec fn is_victory(s: GameState) -> bool {
    s matches GameState::GameOver(w) && w@ == "ZWYCIESTWO!"@
}

/// The game is won by the computer.
pub open spec fn is_defeat(s: GameState) -> bool {
    s matches GameState::GameOver(w) && w@ == "PORAZKA..."@
}

/// The grid of water only.
pub open spec fn water_grid() -> Seq<Seq<Field>> {
    Seq::new(BOARD_SIZE as nat, |i: int| Seq::new(BOARD_SIZE as nat, |j: int| Field::Water))
}

/// A new board: water everywhere, every cell once in the computer's shuffled
/// list, nothing queued for hunting.
pub open spec fn fresh_board(b: Board) -> bool {
    &&& b.wf()
    &&& all_water(b.cells())
    &&& each_cell_once(b.potential_targets@)
    &&& b.hunt_mode_targets@.len() == 0
}

/// A new board on which the fleet was placed from random draws: each ship in
/// turn at the first of at most `ATTEMPTS_PER_SHIP` drawn positions that
/// `placement_ok` allowed, or left out after that many refusals.  At least
/// one ship stands on it.
pub open spec fn fleet_board(b: Board) -> bool {
    &&& b.wf()
    &&& !no_ship_left(b.cells())
    &&& each_cell_once(b.potential_targets@)
    &&& b.hunt_mode_targets@.len() == 0
    &&& exists|draws: Seq<Draw>|
        {
            &&& draws_on_board(draws)
            &&& #[trigger] fleet_from_draws(water_grid(), fleet_lengths(), draws) == Some(b.cells())
        }
}

/// Two boards hold the same grid and the same target lists.
pub open spec fn same_board(a: Board, b: Board) -> bool {
    &&& a.grid == b.grid
    &&& a.potential_targets@ == b.potential_targets@
    &&& a.hunt_mode_targets@ == b.hunt_mode_targets@
}

/// The direction of the next ship after this frame's key presses.
pub open spec fn next_orientation(o: Game, i: FrameInput) -> bool {
    if i.rotate_pressed {
        !o.horizontal
    } else {
        o.horizontal
    }
}

/// The ship outline shown while placing: where the mouse points on the
/// player's board, while ships remain to be placed.
pub open spec fn ship_outline(o: Game, i: FrameInput) -> Option<ShipOutline> {
    match i.player_hover {
        Some(cell) => if o.ships_queue@.len() > 0 {
            let h = next_orientation(o, i);
            let len = o.ships_queue@[0];
            Some(
                ShipOutline {
                    row: cell.0,
                    col: cell.1,
                    len,
                    horizontal: h,
                    valid: placement_ok(o.player_board.cells(), cell.0 as int, cell.1 as int, len as int, h),
                },
            )
        } else {
            None
        },
        None => None,
    }
}

/// The phase `Placement`: rotate on request, place the next ship where the
/// player clicks if it may go there, and start shooting on request once
/// every ship is placed.
pub open spec fn placement_frame_ok(o: Game, n: Game, i: FrameInput, out: FrameOutput) -> bool {
    let gs = ship_outline(o, i);
    let placed = gs matches Some(s) && s.valid && i.clicked;
    let q = o.ships_queue@;
    let q2 = if placed { q.drop_first() } else { q };
    let msg = if placed {
        if q2.len() == 0 {
            Message::FleetPlaced
        } else {
            Message::PlaceShip(q2[0])
        }
    } else {
        o.message
    };
    &&& n.horizontal == next_orientation(o, i)
    &&& out.outline == gs
    &&& out.turn_delay_ms is None
    &&& n.player_board.cells() == match gs {
        Some(s) => if placed {
            with_ship(o.player_board.cells(), s.row as int, s.col as int, s.len as int, s.horizontal)
        } else {
            o.player_board.cells()
        },
        None => o.player_board.cells(),
    }
    &&& n.player_board.potential_targets@ == o.player_board.potential_targets@
    &&& n.player_board.hunt_mode_targets@ == o.player_board.hunt_mode_targets@
    &&& same_board(n.enemy_board, o.enemy_board)
    &&& n.ships_queue@ == q2
    &&& if q2.len() == 0 && i.confirm_pressed {
        n.state == GameState::PlayerTurn && n.message == Message::StartShooting
    } else {
        n.state == GameState::Placement && n.message == msg
    }
}

/// The phase `PlayerTurn`: a click on the computer's board shoots there.  A
/// miss hands the turn to the computer; a hit lets the player shoot again,
/// and ends the game when no unhit ship part is left; a cell shot before
/// changes nothing.
pub open spec fn player_turn_frame_ok(o: Game, n: Game, i: FrameInput, out: FrameOutput) -> bool {
    &&& same_board(n.player_board, o.player_board)
    &&& n.ships_queue@ == o.ships_queue@
    &&& n.horizontal == o.horizontal
    &&& out.outline is None
    &&& n.enemy_board.potential_targets@ == o.enemy_board.potential_targets@
    &&& n.enemy_board.hunt_mode_targets@ == o.enemy_board.hunt_mode_targets@
    &&& if i.clicked && i.enemy_hover is Some {
        let cell = i.enemy_hover->0;
        let (g2, res) = shot_outcome(o.enemy_board.cells(), cell.0 as int, cell.1 as int);
        &&& n.enemy_board.cells() == g2
        &&& match res {
            ShotResult::Miss => {
                &&& n.message == Message::PlayerMiss
                &&& n.state == GameState::ComputerTurn
                &&& out.turn_delay_ms == Some(DELAY_AFTER_PLAYER_MISS_MS)
            },
            ShotResult::Repeated => {
                &&& n.message == o.message
                &&& n.state == GameState::PlayerTurn
                &&& out.turn_delay_ms is None
            },
            _ => {
                &&& n.message == if res == ShotResult::Sunk {
                    Message::PlayerSunk
                } else {
                    Message::PlayerHit
                }
                &&& if no_ship_left(g2) {
                    is_victory(n.state)
                } else {
                    n.state == GameState::PlayerTurn
                }
                &&& out.turn_delay_ms is None
            },
        }
    } else {
        &&& n.enemy_board.grid == o.enemy_board.grid
        &&& n.message == o.message
        &&& n.state == GameState::PlayerTurn
        &&& out.turn_delay_ms is None
    }
}

/// The cell the computer fires at: the last queued hunting target that may
/// still be fired at, else the last such cell of its shuffled list.
pub open spec fn computer_target(b: Board) -> Option<(usize, usize)> {
    let g = b.cells();
    let h = b.hunt_mode_targets@;
    let p = b.potential_targets@;
    let kh = last_shootable(g, h);
    let kp = last_shootable(g, p);
    if kh >= 0 {
        Some(h[kh])
    } else if kp >= 0 {
        Some(p[kp])
    } else {
        None
    }
}

/// The phase `ComputerTurn`, once the waiting time has run out: the computer
/// fires at `computer_target`, dropping from its lists every entry it passes
/// over.  A miss hands the turn to the player.  A hit that does not sink
/// queues the hit cell's side-neighbours that may still be fired at; a sinking
/// hit empties the queue; after either the game ends when no unhit ship part
/// is left, and otherwise the computer waits and fires again.
pub open spec fn computer_turn_frame_ok(o: Game, n: Game, i: FrameInput, out: FrameOutput) -> bool {
    &&& same_board(n.enemy_board, o.enemy_board)
    &&& n.ships_queue@ == o.ships_queue@
    &&& n.horizontal == o.horizontal
    &&& out.outline is None
    &&& if !i.delay_elapsed {
        &&& same_board(n.player_board, o.player_board)
        &&& n.message == o.message
        &&& n.state == GameState::ComputerTurn
        &&& out.turn_delay_ms is None
    } else {
        let g = o.player_board.cells();
        let h = o.player_board.hunt_mode_targets@;
        let p = o.player_board.potential_targets@;
        let kh = last_shootable(g, h);
        let kp = last_shootable(g, p);
        let h1 = if kh >= 0 {
            h.take(kh)
        } else {
            Seq::empty()
        };
        let p1 = if kh >= 0 {
            p
        } else if kp >= 0 {
            p.take(kp)
        } else {
            Seq::empty()
        };
        &&& n.player_board.potential_targets@ == p1
        &&& match computer_target(o.player_board) {
            None => {
                &&& n.player_board.grid == o.player_board.grid
                &&& n.player_board.hunt_mode_targets@ == h1
                &&& n.message == o.message
                &&& n.state == GameState::PlayerTurn
                &&& out.turn_delay_ms is None
            },
            Some(cell) => {
                let (g2, res) = shot_outcome(g, cell.0 as int, cell.1 as int);
                &&& n.player_board.cells() == g2
                &&& match res {
                    ShotResult::Miss => {
                        &&& n.player_board.hunt_mode_targets@ == h1
                        &&& n.message == Message::YourTurn
                        &&& n.state == GameState::PlayerTurn
                        &&& out.turn_delay_ms is None
                    },
                    ShotResult::Repeated => {
                        &&& n.player_board.hunt_mode_targets@ == h1
                        &&& n.message == Message::TargetError
                        &&& n.state == GameState::PlayerTurn
                        &&& out.turn_delay_ms is None
                    },
                    _ => {
                        &&& n.player_board.hunt_mode_targets@ == if res == ShotResult::Hit {
                            h1 + shootable_sides(g2, (cell.0 as int, cell.1 as int))
                        } else {
                            Seq::empty()
                        }
                        &&& if no_ship_left(g2) {
                            &&& is_defeat(n.state)
                            &&& n.message == o.message
                            &&& out.turn_delay_ms is None
                        } else {
                            &&& n.state == GameState::ComputerTurn
                            &&& n.message == Message::ComputerHit
                            &&& out.turn_delay_ms == Some(DELAY_AFTER_COMPUTER_HIT_MS)
                        }
                    },
                }
            },
        }
    }
}

/// A game as it starts: an empty board for the player, the computer's fleet
/// placed at random, the whole fleet still to place, ships running right,
/// and the request to place the fleet.
pub open spec fn new_game(n: Game) -> bool {
    &&& fresh_board(n.player_board)
    &&& fleet_board(n.enemy_board)
    &&& n.ships_queue@ == fleet_lengths()
    &&& n.horizontal
    &&& n.state == GameState::Placement
    &&& n.message == Message::PlaceFleet
}

/// The phase `GameOver`: the end of the game is announced; confirming starts
/// a new game.
pub open spec fn game_over_frame_ok(o: Game, n: Game, i: FrameInput, out: FrameOutput) -> bool {
    &&& out.outline is None
    &&& if i.confirm_pressed {
        &&& new_game(n)
        &&& out.turn_delay_ms == Some(0u32)
    } else {
        &&& same_board(n.player_board, o.player_board)
        &&& same_board(n.enemy_board, o.enemy_board)
        &&& n.ships_queue@ == o.ships_queue@
        &&& n.horizontal == o.horizontal
        &&& n.state == o.state
        &&& n.message == Message::GameOver
        &&& out.turn_delay_ms is None
    }
}

impl Game {
    /// Both boards name only board cells in their target lists, and every
    /// ship still to place fits on a board.
    pub open spec fn wf(&self) -> bool {
        &&& self.player_board.wf()
        &&& self.enemy_board.wf()
        &&& forall|k: int| 0 <= k < self.ships_queue@.len() ==> #[trigger] self.ships_queue@[k] <= BOARD_SIZE
    }

    /// On both boards the ships stand apart.
    pub open spec fn fleets_apart(&self) -> bool {
        &&& fleet_apart(self.player_board.cells())
        &&& fleet_apart(self.enemy_board.cells())
    }
}

/// One frame of the game, in whatever phase it is in.
pub open spec fn step_ok(o: Game, n: Game, i: FrameInput, out: FrameOutput) -> bool {
    match o.state {
        GameState::Placement => placement_frame_ok(o, n, i, out),
        GameState::PlayerTurn => player_turn_frame_ok(o, n, i, out),
        GameState::ComputerTurn => computer_turn_frame_ok(o, n, i, out),
        GameState::GameOver(_) => game_over_frame_ok(o, n, i, out),
    }
}

/// In the player's turn, a click on a cell of the computer's board that was
/// shot before (not water, not an unhit ship part) changes nothing: the
/// player keeps the turn, the message and both boards stay, and no delay
/// starts.
pub proof fn lemma_player_repeat_changes_nothing(
    o: Game,
    n: Game,
    i: FrameInput,
    out: FrameOutput,
    r: usize,
    c: usize,
)
    requires
        step_ok(o, n, i, out),
        o.state == GameState::PlayerTurn,
        i.clicked,
        i.enemy_hover == Some((r, c)),
        in_board(r as int, c as int),
        o.enemy_board.cells()[r as int][c as int] != Field::Water,
        o.enemy_board.cells()[r as int][c as int] != Field::Ship,
    ensures
        n.state == GameState::PlayerTurn,
        n.message == o.message,
        out.turn_delay_ms is None,
        n.enemy_board.cells() == o.enemy_board.cells(),
        same_board(n.player_board, o.player_board),
{
    o.enemy_board.lemma_cells_sized();
    crate::shooting::lemma_shot_repeated(o.enemy_board.cells(), r as int, c as int);
}

/// In the player's turn, a shot into the water hands the turn to the
/// computer after `DELAY_AFTER_PLAYER_MISS_MS`, and that cell shows `Miss`.
pub proof fn lemma_player_miss_passes_turn(o: Game, n: Game, i: FrameInput, out: FrameOutput, r: usize, c: usize)
    requires
        step_ok(o, n, i, out),
        o.state == GameState::PlayerTurn,
        i.clicked,
        i.enemy_hover == Some((r, c)),
        in_board(r as int, c as int),
        o.enemy_board.cells()[r as int][c as int] == Field::Water,
    ensures
        n.state == GameState::ComputerTurn,
        n.message == Message::PlayerMiss,
        out.turn_delay_ms == Some(DELAY_AFTER_PLAYER_MISS_MS),
        n.enemy_board.cells()[r as int][c as int] == Field::Miss,
{
    o.enemy_board.lemma_cells_sized();
    crate::shooting::lemma_shot_into_water(o.enemy_board.cells(), r as int, c as int);
}

/// In the player's turn, a shot at an unhit ship part hits it (it shows
/// `Hit` or `Sunk`); the player keeps the turn while some unhit ship part is
/// left on the computer's board, and wins when none is.
pub proof fn lemma_player_hit_keeps_turn(o: Game, n: Game, i: FrameInput, out: FrameOutput, r: usize, c: usize)
    requires
        step_ok(o, n, i, out),
        o.state == GameState::PlayerTurn,
        i.clicked,
        i.enemy_hover == Some((r, c)),
        in_board(r as int, c as int),
        o.enemy_board.cells()[r as int][c as int] == Field::Ship,
    ensures
        n.enemy_board.cells()[r as int][c as int] == Field::Hit || n.enemy_board.cells()[r as int][c
            as int] == Field::Sunk,
        out.turn_delay_ms is None,
        !no_ship_left(n.enemy_board.cells()) ==> n.state == GameState::PlayerTurn,
        no_ship_left(n.enemy_board.cells()) ==> is_victory(n.state),
{
    o.enemy_board.lemma_cells_sized();
    crate::shooting::lemma_shot_at_ship(o.enemy_board.cells(), r as int, c as int);
}

/// In the computer's turn, once the delay has run out: when the cell it
/// fires at holds an unhit ship part, that part is hit, and the computer
/// keeps the turn (message `ComputerHit`, next shot after
/// `DELAY_AFTER_COMPUTER_HIT_MS`) while some unhit ship part is left on the
/// player's board, whether or not the ship sank; when none is left, the
/// computer wins.
pub proof fn lemma_computer_hit_keeps_turn(o: Game, n: Game, i: FrameInput, out: FrameOutput, r: usize, c: usize)
    requires
        step_ok(o, n, i, out),
        o.state == GameState::ComputerTurn,
        i.delay_elapsed,
        computer_target(o.player_board) == Some((r, c)),
        in_board(r as int, c as int),
        o.player_board.cells()[r as int][c as int] == Field::Ship,
    ensures
        n.player_board.cells()[r as int][c as int] == Field::Hit || n.player_board.cells()[r as int][c
            as int] == Field::Sunk,
        !no_ship_left(n.player_board.cells()) ==> {
            &&& n.state == GameState::ComputerTurn
            &&& n.message == Message::ComputerHit
            &&& out.turn_delay_ms == Some(DELAY_AFTER_COMPUTER_HIT_MS)
        },
        no_ship_left(n.player_board.cells()) ==> is_defeat(n.state) && out.turn_delay_ms is None,
{
    o.player_board.lemma_cells_sized();
    crate::shooting::lemma_shot_at_ship(o.player_board.cells(), r as int, c as int);
}

/// In the computer's turn, once the delay has run out: when the cell it
/// fires at is water, that cell shows `Miss` and the turn passes to the
/// player with no delay.
pub proof fn lemma_computer_miss_passes_turn(o: Game, n: Game, i: FrameInput, out: FrameOutput, r: usize, c: usize)
    requires
        step_ok(o, n, i, out),
        o.state == GameState::ComputerTurn,
        i.delay_elapsed,
        computer_target(o.player_board) == Some((r, c)),
        in_board(r as int, c as int),
        o.player_board.cells()[r as int][c as int] == Field::Water,
    ensures
        n.player_board.cells()[r as int][c as int] == Field::Miss,
        n.state == GameState::PlayerTurn,
        n.message == Message::YourTurn,
        out.turn_delay_ms is None,
{
    o.player_board.lemma_cells_sized();
    crate::shooting::lemma_shot_into_water(o.player_board.cells(), r as int, c as int);
}

/// The cells under the mouse lie on the boards.
pub open spec fn input_ok(i: FrameInput) -> bool {
    &&& (i.player_hover matches Some(p) ==> in_board(p.0 as int, p.1 as int))
    &&& (i.enemy_hover matches Some(p) ==> in_board(p.0 as int, p.1 as int))
}

/// The computer never fires twice at the same cell: the cell it picks lies on
/// the board, and a shot there is never `Repeated`.
pub proof fn lemma_computer_never_repeats(b: Board)
    requires
        b.wf(),
    ensures
        computer_target(b) matches Some(t) ==> {
            &&& in_board(t.0 as int, t.1 as int)
            &&& shot_outcome(b.cells(), t.0 as int, t.1 as int).1 != ShotResult::Repeated
        },
{
    let g = b.cells();
    lemma_last_shootable_bounds(g, b.hunt_mode_targets@);
    lemma_last_shootable_bounds(g, b.potential_targets@);
    let kh = last_shootable(g, b.hunt_mode_targets@);
    let kp = last_shootable(g, b.potential_targets@);
    if kh >= 0 {
        assert(in_board(b.hunt_mode_targets@[kh].0 as int, b.hunt_mode_targets@[kh].1 as int));
    } else if kp >= 0 {
        assert(in_board(b.potential_targets@[kp].0 as int, b.potential_targets@[kp].1 as int));
    }
}

/// Over any run of computer picks in which each picked cell is fired at
/// before the next pick, and no cell that cannot be fired at is ever made
/// fireable again, no cell is picked twice.
pub proof fn lemma_no_cell_picked_twice(boards: Seq<Board>, picks: Seq<(usize, usize)>)
    requires
        boards.len() == picks.len(),
        forall|k: int| 0 <= k < boards.len() ==> (#[trigger] boards[k]).wf(),
        forall|k: int| 0 <= k < boards.len() ==> computer_target(#[trigger] boards[k]) == Some(picks[k]),
        forall|k: int| 0 <= k < boards.len() - 1 ==> !shootable_at((#[trigger] boards[k + 1]).cells(), picks[k]),
        forall|k: int, i: int, j: int|
            0 <= k < boards.len() - 1 && in_board(i, j) && !shootable(#[trigger] boards[k].cells()[i][j])
                ==> !shootable(boards[k + 1].cells()[i][j]),
    ensures
        forall|a: int, b: int| 0 <= a < b < picks.len() ==> picks[a] != picks[b],
{
    assert forall|a: int, b: int| 0 <= a < b < picks.len() implies picks[a] != picks[b] by {
        lemma_computer_never_repeats(boards[a]);
        lemma_computer_never_repeats(boards[b]);
        assert(computer_target(boards[a]) == Some(picks[a]));
        assert(computer_target(boards[b]) == Some(picks[b]));
        lemma_spent_stays_spent(boards, picks[a], a + 1, b);
        if picks[a] == picks[b] {
            assert(!shootable_at(boards[b].cells(), picks[b]));
            assert(shootable_at(boards[b].cells(), picks[b])) by {
                assert(shot_outcome(boards[b].cells(), picks[b].0 as int, picks[b].1 as int).1 != ShotResult::Repeated);
            }
        }
    }
}

/// A board cell that cannot be fired at stays so from board `from` to board `to`.
proof fn lemma_spent_stays_spent(boards: Seq<Board>, t: (usize, usize), from: int, to: int)
    requires
        0 <= from <= to < boards.len(),
        in_board(t.0 as int, t.1 as int),
        !shootable_at(boards[from].cells(), t),
        forall|k: int, i: int, j: int|
            0 <= k < boards.len() - 1 && in_board(i, j) && !shootable(#[trigger] boards[k].cells()[i][j])
                ==> !shootable(boards[k + 1].cells()[i][j]),
    ensures
        !shootable_at(boards[to].cells(), t),
    decreases to - from,
{
    if from < to {
        assert(!shootable(boards[from].cells()[t.0 as int][t.1 as int]));
        lemma_spent_stays_spent(boards, t, from + 1, to);
    }
}

proof fn lemma_water_grid(g: Seq<Seq<Field>>)
    requires
        sized(g),
        all_water(g),
    ensures
        g == water_grid(),
        fleet_apart(g),
{
    assert(g =~~= water_grid());
}

impl Game {
    /// A new game: an empty board for the player, and a board for the
    /// computer with its fleet placed at random.
    pub fn new() -> (game: Game)
        ensures
            new_game(game),
            game.wf(),
            game.fleets_apart(),
    {
        let player_board = Board::new();
        let mut enemy_board = Board::new();
        proof {
            player_board.lemma_cells_sized();
            enemy_board.lemma_cells_sized();
            lemma_water_grid(player_board.cells());
            lemma_water_grid(enemy_board.cells());
        }
        enemy_board.randomize_ships();
        proof {
            let draws = choose|draws: Seq<Draw>|
                {
                    &&& draws_on_board(draws)
                    &&& #[trigger] fleet_from_draws(water_grid(), fleet_lengths(), draws) == Some(enemy_board.cells())
                };
            lemma_random_fleet_not_empty(water_grid(), draws, enemy_board.cells());
        }
        let ships_queue = fleet();
        Game {
            player_board,
            enemy_board,
            ships_queue,
            horizontal: true,
            state: GameState::Placement,
            message: Message::PlaceFleet,
        }
    }

    fn placement_frame(&mut self, input: &FrameInput) -> (out: FrameOutput)
        requires
            old(self).state == GameState::Placement,
            old(self).wf(),
            input_ok(*input),
        ensures
            final(self).wf(),
            placement_frame_ok(*old(self), *final(self), *input, out),
            old(self).fleets_apart() ==> final(self).fleets_apart(),
    {
        if input.rotate_pressed {
            self.horizontal = !self.horizontal;
        }
        let mut outline: Option<ShipOutline> = None;
        if let Some((r, c)) = input.player_hover {
            if self.ships_queue.len() > 0 {
                let len = self.ships_queue[0];
                let ok = self.player_board.is_valid_placement(r, c, len, self.horizontal);
                outline = Some(ShipOutline { row: r, col: c, len, horizontal: self.horizontal, valid: ok });
                if ok && input.clicked {
                    let ghost before = self.player_board.cells();
                    self.player_board.place_ship(r, c, len, self.horizontal);
                    proof {
                        if fleet_apart(before) { crate::fleet::lemma_placement_keeps_lines_apart(before, true, r as int, c as int, len as int, self.horizontal); }
                    }
                    self.ships_queue.remove(0);
                    if self.ships_queue.len() == 0 {
                        self.message = Message::FleetPlaced;
                    } else {
                        self.message = Message::PlaceShip(self.ships_queue[0]);
                    }
                }
            }
        }
        if self.ships_queue.len() == 0 && input.confirm_pressed {
            self.state = GameState::PlayerTurn;
            self.message = Message::StartShooting;
        }
        proof {
            assert(old(self).ships_queue@.len() > 0 ==> old(self).ships_queue@.drop_first() =~= old(self).ships_queue@.remove(0));
        }
        FrameOutput { outline, turn_delay_ms: None }
    }

    fn player_turn_frame(&mut self, input: &FrameInput) -> (out: FrameOutput)
        requires
            old(self).state == GameState::PlayerTurn,
            old(self).wf(),
            input_ok(*input),
        ensures
            final(self).wf(),
            player_turn_frame_ok(*old(self), *final(self), *input, out),
            old(self).fleets_apart() ==> final(self).fleets_apart(),
    {
        let mut delay: Option<u32> = None;
        if input.clicked {
            if let Some((r, c)) = input.enemy_hover {
                let ghost before = self.enemy_board.cells();
                let res = self.enemy_board.receive_shot(r, c);
                proof {
                    self.enemy_board.lemma_cells_sized();
                    lemma_shot_keeps_ship_parts(before, r as int, c as int);
                    if fleet_apart(before) {
                        lemma_same_parts_keep_fleet_apart(before, self.enemy_board.cells());
                    }
                }
                match res {
                    ShotResult::Miss => {
                        self.message = Message::PlayerMiss;
                        self.state = GameState::ComputerTurn;
                        delay = Some(DELAY_AFTER_PLAYER_MISS_MS);
                    },
                    ShotResult::Repeated => {},
                    _ => {
                        self.message = if res == ShotResult::Sunk {
                            Message::PlayerSunk
                        } else {
                            Message::PlayerHit
                        };
                        if self.enemy_board.all_sunk() {
                            self.state = GameState::GameOver("ZWYCIESTWO!".to_string());
                        }
                    },
                }
            }
        }
        FrameOutput { outline: None, turn_delay_ms: delay }
    }

    fn computer_turn_frame(&mut self, input: &FrameInput) -> (out: FrameOutput)
        requires
            old(self).state == GameState::ComputerTurn,
            old(self).wf(),
            input_ok(*input),
        ensures
            final(self).wf(),
            computer_turn_frame_ok(*old(self), *final(self), *input, out),
            old(self).fleets_apart() ==> final(self).fleets_apart(),
    {
        let mut delay: Option<u32> = None;
        if input.delay_elapsed {
            proof {
                lemma_scan_in_board(self.player_board.cells(), self.player_board.hunt_mode_targets@);
                lemma_scan_in_board(self.player_board.cells(), self.player_board.potential_targets@);
            }
            let target = pick_ai_target(&mut self.player_board);
            match target {
                Some((r, c)) => {
                    let ghost before = self.player_board.cells();
                    let res = self.player_board.receive_shot(r, c);
                    proof {
                        self.player_board.lemma_cells_sized();
                        lemma_shot_keeps_ship_parts(before, r as int, c as int);
                        if fleet_apart(before) {
                            lemma_same_parts_keep_fleet_apart(before, self.player_board.cells());
                        }
                    }
                    match res {
                        ShotResult::Miss => {
                            self.message = Message::YourTurn;
                            self.state = GameState::PlayerTurn;
                        },
                        ShotResult::Repeated => {
                            self.message = Message::TargetError;
                            self.state = GameState::PlayerTurn;
                        },
                        _ => {
                            if res == ShotResult::Hit {
                                push_neighbors_to_hunt(&mut self.player_board, r, c);
                            } else {
                                self.player_board.hunt_mode_targets.clear();
                            }
                            if self.player_board.all_sunk() {
                                self.state = GameState::GameOver("PORAZKA...".to_string());
                            } else {
                                self.message = Message::ComputerHit;
                                delay = Some(DELAY_AFTER_COMPUTER_HIT_MS);
                            }
                        },
                    }
                },
                None => {
                    self.state = GameState::PlayerTurn;
                },
            }
        }
        FrameOutput { outline: None, turn_delay_ms: delay }
    }

    fn game_over_frame(&mut self, input: &FrameInput) -> (out: FrameOutput)
        requires
            old(self).wf(),
        ensures
            final(self).wf(),
            game_over_frame_ok(*old(self), *final(self), *input, out),
            old(self).fleets_apart() ==> final(self).fleets_apart(),
    {
        self.message = Message::GameOver;
        if input.confirm_pressed {
            *self = Game::new();
            return FrameOutput { outline: None, turn_delay_ms: Some(0) };
        }
        FrameOutput { outline: None, turn_delay_ms: None }
    }

    /// Runs the game's decisions for one frame of input, in the phase the
    /// game is in, and says what the caller has to draw and time.
    pub fn step(&mut self, input: &FrameInput) -> (out: FrameOutput)
        requires
            old(self).wf(),
            input_ok(*input),
        ensures
            final(self).wf(),
            old(self).fleets_apart() ==> final(self).fleets_apart(),
            step_ok(*old(self), *final(self), *input, out),
    {
        match self.state {
            GameState::Placement => self.placement_frame(input),
            GameState::PlayerTurn => self.player_turn_frame(input),
            GameState::ComputerTurn => self.computer_turn_frame(input),
            GameState::GameOver(_) => self.game_over_frame(input),
        }
    }
}

} // verus!