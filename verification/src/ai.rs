use vstd::prelude::*;
use crate::board::{in_board, sized, targets_in_board, Board};
use crate::constants::BOARD_SIZE;
use crate::game_state::Field;
use crate::sinking::side;

verus! {

/// Whether the computer may still fire at a cell showing `f`: it has not been
/// shot at yet.
pub open spec fn shootable(f: Field) -> bool {
    f == Field::Water || f == Field::Ship
}

/// Whether the listed cell `t` may still be fired at.
pub open spec fn shootable_at(g: Seq<Seq<Field>>, t: (usize, usize)) -> bool {
    shootable(g[t.0 as int][t.1 as int])
}

/// The index of the last entry of `s` that may still be fired at, or -1.
pub open spec fn last_shootable(g: Seq<Seq<Field>>, s: Seq<(usize, usize)>) -> int
    decreases s.len(),
{
    if s.len() == 0 {
        -1
    } else if shootable_at(g, s.last()) {
        s.len() - 1
    } else {
        last_shootable(g, s.drop_last())
    }
}

/// The one-cell list holding `q` when `q` is on the board and may still be
/// fired at, and the empty list otherwise.
pub open spec fn if_shootable(g: Seq<Seq<Field>>, q: (int, int)) -> Seq<(usize, usize)> {
    if in_board(q.0, q.1) && shootable(g[q.0][q.1]) {
        seq![(q.0 as usize, q.1 as usize)]
    } else {
        Seq::empty()
    }
}

/// The side-neighbours of `p` among the first `d` directions (right, left,
/// down, up) that may still be fired at, in that order.
pub open spec fn shootable_sides_upto(g: Seq<Seq<Field>>, p: (int, int), d: int) -> Seq<(usize, usize)>
    decreases d,
{
    if d <= 0 {
        Seq::empty()
    } else {
        shootable_sides_upto(g, p, d - 1) + if_shootable(g, side(p, d - 1))
    }
}

/// The side-neighbours of `p` that may still be fired at, right, left, down, up.
pub open spec fn shootable_sides(g: Seq<Seq<Field>>, p: (int, int)) -> Seq<(usize, usize)> {
    shootable_sides_upto(g, p, 4)
}

/// Taking entries from the end of `s` up to the first one that may still be
/// fired at (or all of them), every entry taken lies on the board.
pub open spec fn scan_in_board(g: Seq<Seq<Field>>, s: Seq<(usize, usize)>) -> bool
    decreases s.len(),
{
    s.len() == 0 || (in_board(s.last().0 as int, s.last().1 as int) && (shootable_at(g, s.last())
        || scan_in_board(g, s.drop_last())))
}

/// A list of board cells only is scanned on the board.
pub proof fn lemma_scan_in_board(g: Seq<Seq<Field>>, s: Seq<(usize, usize)>)
    requires
        targets_in_board(s),
    ensures
        scan_in_board(g, s),
    decreases s.len(),
{
    if s.len() > 0 {
        assert(in_board(s[s.len() - 1].0 as int, s[s.len() - 1].1 as int));
        assert forall|k: int| 0 <= k < s.drop_last().len() implies #[trigger] in_board(s.drop_last()[k].0 as int, s.drop_last()[k].1 as int) by {
            assert(in_board(s[k].0 as int, s[k].1 as int));
        }
        lemma_scan_in_board(g, s.drop_last());
    }
}

pub proof fn lemma_last_shootable_bounds(g: Seq<Seq<Field>>, s: Seq<(usize, usize)>)
    ensures
        -1 <= last_shootable(g, s) < s.len(),
        last_shootable(g, s) >= 0 ==> shootable_at(g, s[last_shootable(g, s)]),
    decreases s.len(),
{
    if s.len() > 0 && !shootable_at(g, s.last()) {
        lemma_last_shootable_bounds(g, s.drop_last());
    }
}

/// Dropping entries that may not be fired at from the end of a list does not
/// change its last entry that may.
proof fn lemma_last_shootable_prefix(g: Seq<Seq<Field>>, s: Seq<(usize, usize)>, n: int)
    requires
        0 <= n <= s.len(),
        forall|m: int| n <= m < s.len() ==> !#[trigger] shootable_at(g, s[m]),
    ensures
        last_shootable(g, s) == last_shootable(g, s.take(n)),
    decreases s.len() - n,
{
    if n < s.len() {
        assert(!shootable_at(g, s[s.len() - 1]));
        assert(s.drop_last() == s.take(s.len() - 1));
        lemma_last_shootable_prefix(g, s.drop_last(), n);
        assert(s.drop_last().take(n) == s.take(n));
    } else {
        assert(s.take(n) == s);
    }
}

/// Pops cells from the end of `stack` until one that may still be fired at
/// comes up, and gives that one; `None` once the list runs empty.
fn pop_shootable(g: Ghost<Seq<Seq<Field>>>, grid: &[[Field; BOARD_SIZE]; BOARD_SIZE], stack: &mut Vec<(usize, usize)>) -> (t: Option<(usize, usize)>)
    requires
        g@ == grid@.map_values(|row: [Field; BOARD_SIZE]| row@),
        scan_in_board(g@, old(stack)@),
    ensures
        ({
            let k = last_shootable(g@, old(stack)@);
            &&& k >= 0 ==> t == Some(old(stack)@[k]) && final(stack)@ == old(stack)@.take(k)
            &&& k < 0 ==> t is None && final(stack)@ == Seq::<(usize, usize)>::empty()
        }),
        targets_in_board(old(stack)@) ==> targets_in_board(final(stack)@),
        t matches Some(x) ==> in_board(x.0 as int, x.1 as int),
{
    let ghost s0 = stack@;
    proof {
        assert(sized(g@)) by {
            assert forall|r: int| 0 <= r < BOARD_SIZE implies (#[trigger] g@[r]).len() == BOARD_SIZE by {
                assert(grid@[r]@.len() == BOARD_SIZE);
            }
        }
    }
    let mut found: Option<(usize, usize)> = None;
    while found.is_none() && stack.len() > 0
        invariant
            g@ == grid@.map_values(|row: [Field; BOARD_SIZE]| row@),
            sized(g@),
            found is None ==> scan_in_board(g@, stack@),
            found matches Some(x) ==> in_board(x.0 as int, x.1 as int),
            stack@.len() <= s0.len(),
            stack@ == s0.take(stack@.len() as int),
            found is None ==> forall|m: int| stack@.len() <= m < s0.len() ==> !#[trigger] shootable_at(g@, s0[m]),
            found matches Some(t) ==> last_shootable(g@, s0) == stack@.len() && t == s0[stack@.len() as int],
        decreases stack@.len(),
    {
        let ghost n = stack@.len() as int;
        let (r, c) = stack.pop().unwrap();
        proof {
            assert(s0[n - 1] == (r, c));
            assert(s0.take(n).last() == s0[n - 1]);
            assert(s0.take(n).drop_last() == s0.take(n - 1));
            assert(in_board(s0[n - 1].0 as int, s0[n - 1].1 as int));
            assert(stack@ == s0.take(n - 1));
        }
        match grid[r][c] {
            Field::Water | Field::Ship => {
                proof {
                    assert(shootable_at(g@, s0[n - 1]));
                    lemma_last_shootable_prefix(g@, s0, n);
                    assert(s0.take(n).last() == s0[n - 1]);
                    assert(last_shootable(g@, s0.take(n)) == n - 1);
                }
                found = Some((r, c));
            },
            _ => {
                proof {
                    assert(!shootable_at(g@, s0[n - 1]));
                }
            },
        }
    }
    proof {
        if found is None {
            lemma_last_shootable_prefix(g@, s0, 0);
            assert(s0.take(0) == Seq::<(usize, usize)>::empty());
            assert(stack@ =~= Seq::<(usize, usize)>::empty());
        }
        if targets_in_board(s0) {
            assert forall|k: int| 0 <= k < stack@.len() implies #[trigger] in_board(stack@[k].0 as int, stack@[k].1 as int) by {
                assert(stack@[k] == s0[k]);
            }
        }
    }
    found
}

/// The computer's choice of the next cell to fire at: the most recently
/// queued neighbour of a hit that may still be fired at, else the next
/// untouched cell of its shuffled list of all cells.  Every entry it passes
/// over on the way is dropped from its list.
pub fn pick_ai_target(board: &mut Board) -> (target: Option<(usize, usize)>)
    requires
        scan_in_board(old(board).cells(), old(board).hunt_mode_targets@),
        last_shootable(old(board).cells(), old(board).hunt_mode_targets@) < 0 ==> scan_in_board(
            old(board).cells(),
            old(board).potential_targets@,
        ),
    ensures
        old(board).wf() ==> final(board).wf(),
        final(board).grid == old(board).grid,
        ({
            let g = old(board).cells();
            let h = old(board).hunt_mode_targets@;
            let p = old(board).potential_targets@;
            let kh = last_shootable(g, h);
            let kp = last_shootable(g, p);
            &&& kh >= 0 ==> target == Some(h[kh]) && final(board).hunt_mode_targets@ == h.take(kh)
                && final(board).potential_targets@ == p
            &&& kh < 0 ==> final(board).hunt_mode_targets@ == Seq::<(usize, usize)>::empty()
            &&& kh < 0 && kp >= 0 ==> target == Some(p[kp]) && final(board).potential_targets@ == p.take(kp)
            &&& kh < 0 && kp < 0 ==> target is None && final(board).potential_targets@ == Seq::<(usize, usize)>::empty()
        }),
        target matches Some(t) ==> in_board(t.0 as int, t.1 as int) && shootable_at(old(board).cells(), t),
{
    let ghost g = board.cells();
    proof {
        lemma_last_shootable_bounds(g, board.hunt_mode_targets@);
        lemma_last_shootable_bounds(g, board.potential_targets@);
    }
    if let Some(t) = pop_shootable(Ghost(g), &board.grid, &mut board.hunt_mode_targets) {
        return Some(t);
    }
    pop_shootable(Ghost(g), &board.grid, &mut board.potential_targets)
}

/// Queues, for the computer's next shots, the side-neighbours of (`r`, `c`)
/// that lie on the board and may still be fired at: right, left, down, up.
pub fn push_neighbors_to_hunt(board: &mut Board, r: usize, c: usize)
    requires
        r < i32::MAX,
        c < i32::MAX,
    ensures
        old(board).wf() ==> final(board).wf(),
        final(board).grid == old(board).grid,
        final(board).potential_targets == old(board).potential_targets,
        final(board).hunt_mode_targets@ == old(board).hunt_mode_targets@ + shootable_sides(
            old(board).cells(),
            (r as int, c as int),
        ),
{
    let ghost g = board.cells();
    let ghost p = (r as int, c as int);
    let ghost h0 = board.hunt_mode_targets@;
    proof {
        board.lemma_cells_sized();
    }
    let dirs: [(i32, i32); 4] = [(0_i32, 1_i32), (0, -1), (1, 0), (-1, 0)];
    let mut d: usize = 0;
    while d < 4
        invariant
            g == board.cells(),
            sized(g),
            p == (r as int, c as int),
            r < i32::MAX,
            c < i32::MAX,
            dirs@ == seq![(0i32, 1i32), (0i32, -1i32), (1i32, 0i32), (-1i32, 0i32)],
            d <= 4,
            board.grid == old(board).grid,
            board.potential_targets == old(board).potential_targets,
            board.hunt_mode_targets@ == h0 + shootable_sides_upto(g, p, d as int),
            targets_in_board(h0) ==> targets_in_board(board.hunt_mode_targets@),
        decreases 4 - d,
    {
        let (dr, dc) = dirs[d];
        let nr = r as i32 + dr;
        let nc = c as i32 + dc;
        let ghost q = side(p, d as int);
        assert(q == (nr as int, nc as int));
        let ghost before = board.hunt_mode_targets@;
        if nr >= 0 && nr < BOARD_SIZE as i32 && nc >= 0 && nc < BOARD_SIZE as i32 {
            let (nr, nc) = (nr as usize, nc as usize);
            if matches!(board.grid[nr][nc], Field::Water | Field::Ship) {
                board.hunt_mode_targets.push((nr, nc));
            }
        }
        proof {
            assert(if_shootable(g, q) =~= board.hunt_mode_targets@.skip(before.len() as int));
            assert(board.hunt_mode_targets@ =~= h0 + shootable_sides_upto(g, p, d + 1));
        }
        d += 1;
    }
}

} // verus!
