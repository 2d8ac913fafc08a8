use vstd::prelude::*;
use crate::ai::shootable;
use crate::board::{in_board, set_cell, sized, Board};
use crate::fleet::{fleet_apart, is_ship_part, same_ship_parts, ship_at_cell};
use crate::game_state::Field;
use crate::sinking::{hit_step, in_hit_region, is_hit_path, near, ship_at, side, sinks, sunk_grid, touches_ship};

verus! {

/// What a shot at a cell did.
#[derive(Clone, Copy, Debug, PartialEq, Eq, Structural)]
pub enum ShotResult {
    /// It fell in the water, which now shows `Miss`.
    Miss,
    /// It hit a ship that still floats.
    Hit,
    /// It hit the last unhit part of a ship, which is now marked sunk.
    Sunk,
    /// The cell had been shot at before; nothing changed.
    Repeated,
}

/// The grid after a shot at (`r`, `c`), and what the shot did.
pub open spec fn shot_outcome(g: Seq<Seq<Field>>, r: int, c: int) -> (Seq<Seq<Field>>, ShotResult) {
    let f = g[r][c];
    if f == Field::Water {
        (set_cell(g, r, c, Field::Miss), ShotResult::Miss)
    } else if f == Field::Ship {
        let hit = set_cell(g, r, c, Field::Hit);
        if sinks(hit, (r, c)) {
            (sunk_grid(hit, (r, c)), ShotResult::Sunk)
        } else {
            (hit, ShotResult::Hit)
        }
    } else {
        (g, ShotResult::Repeated)
    }
}

impl Board {
    /// Resolves a shot at (`r`, `c`): water becomes `Miss`; an unhit ship
    /// part becomes `Hit`, after which the ship is marked sunk when no unhit
    /// part of it is left; any other cell stays as it is.
    pub fn receive_shot(&mut self, r: usize, c: usize) -> (res: ShotResult)
        requires
            in_board(r as int, c as int),
        ensures
            (final(self).cells(), res) == shot_outcome(old(self).cells(), r as int, c as int),
            final(self).potential_targets == old(self).potential_targets,
            final(self).hunt_mode_targets == old(self).hunt_mode_targets,
    {
        match self.grid[r][c] {
            Field::Water => {
                self.set_field(r, c, Field::Miss);
                ShotResult::Miss
            },
            Field::Ship => {
                self.set_field(r, c, Field::Hit);
                if self.check_and_mark_sunk(r, c) {
                    ShotResult::Sunk
                } else {
                    ShotResult::Hit
                }
            },
            _ => ShotResult::Repeated,
        }
    }
}

/// A shot never adds, moves or removes a ship part: every cell shows a ship
/// part after the shot exactly when it did before.
pub proof fn lemma_shot_keeps_ship_parts(g: Seq<Seq<Field>>, r: int, c: int)
    requires
        sized(g),
        in_board(r, c),
    ensures
        same_ship_parts(g, shot_outcome(g, r, c).0),
{
    let g2 = shot_outcome(g, r, c).0;
    if g[r][c] == Field::Ship {
        let hit = set_cell(g, r, c, Field::Hit);
        if sinks(hit, (r, c)) {
            assert forall|i: int, j: int| in_board(i, j) implies is_ship_part(#[trigger] g[i][j]) == is_ship_part(g2[i][j]) by {
                if in_hit_region(hit, (r, c), (i, j)) {
                    let path = choose|path: Seq<(int, int)>| #[trigger] is_hit_path(hit, (r, c), path) && path.last() == (i, j);
                    if path.len() > 1 {
                        let k = path.len() - 1;
                        assert(hit_step(hit, path[k - 1], path[k]));
                    }
                    assert(is_ship_part(hit[i][j]));
                }
            }
        }
    }
}

/// Boards with ship parts on the same cells either both have their ships
/// apart or both do not.
pub proof fn lemma_same_parts_keep_fleet_apart(g1: Seq<Seq<Field>>, g2: Seq<Seq<Field>>)
    requires
        same_ship_parts(g1, g2),
        fleet_apart(g1),
    ensures
        fleet_apart(g2),
{
    assert forall|r: int, c: int| ship_at_cell(g1, true, r, c) == #[trigger] ship_at_cell(g2, true, r, c) by {
        if in_board(r, c) {
            assert(is_ship_part(g1[r][c]) == is_ship_part(g2[r][c]));
        }
    }
}

/// A shot spends its cell: a cell that could still be fired at cannot be
/// afterwards, and a cell that could not be fired at still cannot.
pub proof fn lemma_shot_spends_cell(g: Seq<Seq<Field>>, r: int, c: int)
    requires
        sized(g),
        in_board(r, c),
    ensures
        shootable(g[r][c]) ==> !shootable(shot_outcome(g, r, c).0[r][c]),
        forall|i: int, j: int|
            in_board(i, j) && !shootable(g[i][j]) ==> !shootable(#[trigger] shot_outcome(g, r, c).0[i][j]),
{
    if g[r][c] == Field::Ship {
        let hit = set_cell(g, r, c, Field::Hit);
        if sinks(hit, (r, c)) {
            let path = seq![(r, c)];
            assert(is_hit_path(hit, (r, c), path));
            assert(in_hit_region(hit, (r, c), (r, c)));
        }
    }
}

/// Whether an unhit ship part lies beside some cell joined to (`r`, `c`)
/// through hit cells, side by side.
pub open spec fn ship_left_beside(g: Seq<Seq<Field>>, r: int, c: int) -> bool {
    exists|p: (int, int)|
        #[trigger] in_hit_region(g, (r, c), p) && (ship_at(g, p.0, p.1 + 1) || ship_at(g, p.0, p.1 - 1) || ship_at(
            g,
            p.0 + 1,
            p.1,
        ) || ship_at(g, p.0 - 1, p.1))
}

proof fn lemma_touches_ship_unfolded(g: Seq<Seq<Field>>, p: (int, int))
    ensures
        touches_ship(g, p) <==> (ship_at(g, p.0, p.1 + 1) || ship_at(g, p.0, p.1 - 1) || ship_at(g, p.0 + 1, p.1)
            || ship_at(g, p.0 - 1, p.1)),
{
    if ship_at(g, p.0, p.1 + 1) {
        assert(ship_at(g, side(p, 0).0, side(p, 0).1));
    } else if ship_at(g, p.0, p.1 - 1) {
        assert(ship_at(g, side(p, 1).0, side(p, 1).1));
    } else if ship_at(g, p.0 + 1, p.1) {
        assert(ship_at(g, side(p, 2).0, side(p, 2).1));
    } else if ship_at(g, p.0 - 1, p.1) {
        assert(ship_at(g, side(p, 3).0, side(p, 3).1));
    }
}

/// A shot into the water is a miss: that cell shows `Miss` and nothing else
/// changes.
pub proof fn lemma_shot_into_water(g: Seq<Seq<Field>>, r: int, c: int)
    requires
        sized(g),
        in_board(r, c),
        g[r][c] == Field::Water,
    ensures
        shot_outcome(g, r, c).1 == ShotResult::Miss,
        shot_outcome(g, r, c).0[r][c] == Field::Miss,
        forall|i: int, j: int|
            in_board(i, j) && (i, j) != (r, c) ==> #[trigger] shot_outcome(g, r, c).0[i][j] == g[i][j],
{
}

/// A shot at a cell shot before changes nothing.
pub proof fn lemma_shot_repeated(g: Seq<Seq<Field>>, r: int, c: int)
    requires
        sized(g),
        in_board(r, c),
        g[r][c] != Field::Water,
        g[r][c] != Field::Ship,
    ensures
        shot_outcome(g, r, c).1 == ShotResult::Repeated,
        shot_outcome(g, r, c).0 == g,
{
}

/// A shot at an unhit ship part hits it.  With `h` the grid where that part
/// is hit: the shot is `Hit` exactly when an unhit ship part still lies
/// beside the hit cells joined to it, and then the grid is `h`; otherwise it
/// is `Sunk`, and then every hit cell joined to it shows `Sunk`, the water
/// around the shot cell shows `Miss`, and every unhit ship part stays.
pub proof fn lemma_shot_at_ship(g: Seq<Seq<Field>>, r: int, c: int)
    requires
        sized(g),
        in_board(r, c),
        g[r][c] == Field::Ship,
    ensures
        ({
            let h = set_cell(g, r, c, Field::Hit);
            let (g2, res) = shot_outcome(g, r, c);
            &&& res == ShotResult::Hit || res == ShotResult::Sunk
            &&& res == ShotResult::Hit <==> ship_left_beside(h, r, c)
            &&& res == ShotResult::Hit ==> g2 == h && g2[r][c] == Field::Hit
            &&& res == ShotResult::Sunk ==> {
                &&& g2[r][c] == Field::Sunk
                &&& forall|p: (int, int)| in_hit_region(h, (r, c), p) ==> #[trigger] g2[p.0][p.1] == Field::Sunk
                &&& forall|i: int, j: int|
                    in_board(i, j) && near((r, c), i, j) && g[i][j] == Field::Water ==> #[trigger] g2[i][j]
                        == Field::Miss
                &&& forall|i: int, j: int| in_board(i, j) && g[i][j] == Field::Ship && (i, j) != (r, c) ==> #[trigger] g2[i][j] == Field::Ship
            }
        }),
{
    let h = set_cell(g, r, c, Field::Hit);
    let g2 = shot_outcome(g, r, c).0;
    assert(is_hit_path(h, (r, c), seq![(r, c)]));
    assert(in_hit_region(h, (r, c), (r, c)));
    if sinks(h, (r, c)) {
        assert(!ship_left_beside(h, r, c)) by {
            if ship_left_beside(h, r, c) {
                let p = choose|p: (int, int)|
                    #[trigger] in_hit_region(h, (r, c), p) && (ship_at(h, p.0, p.1 + 1) || ship_at(h, p.0, p.1 - 1)
                        || ship_at(h, p.0 + 1, p.1) || ship_at(h, p.0 - 1, p.1));
                lemma_touches_ship_unfolded(h, p);
            }
        }
        assert forall|p: (int, int)| in_hit_region(h, (r, c), p) implies #[trigger] g2[p.0][p.1] == Field::Sunk by {
            let path = choose|path: Seq<(int, int)>| #[trigger] is_hit_path(h, (r, c), path) && path.last() == p;
            if path.len() > 1 {
                let k = path.len() - 1;
                assert(hit_step(h, path[k - 1], path[k]));
            }
        }
        assert forall|i: int, j: int| in_board(i, j) && near((r, c), i, j) && g[i][j] == Field::Water implies #[trigger] g2[i][j] == Field::Miss by {
            if in_hit_region(h, (r, c), (i, j)) {
                let path = choose|path: Seq<(int, int)>| #[trigger] is_hit_path(h, (r, c), path) && path.last() == (i, j);
                if path.len() > 1 {
                    let k = path.len() - 1;
                    assert(hit_step(h, path[k - 1], path[k]));
                }
            }
        }
        assert forall|i: int, j: int| in_board(i, j) && g[i][j] == Field::Ship && (i, j) != (r, c) implies #[trigger] g2[i][j] == Field::Ship by {
            if in_hit_region(h, (r, c), (i, j)) {
                let path = choose|path: Seq<(int, int)>| #[trigger] is_hit_path(h, (r, c), path) && path.last() == (i, j);
                if path.len() > 1 {
                    let k = path.len() - 1;
                    assert(hit_step(h, path[k - 1], path[k]));
                }
            }
        }
    } else {
        let p = choose|p: (int, int)| #[trigger] in_hit_region(h, (r, c), p) && touches_ship(h, p);
        lemma_touches_ship_unfolded(h, p);
        assert(ship_left_beside(h, r, c));
    }
}

} // verus!