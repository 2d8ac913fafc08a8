use vstd::prelude::*;
use crate::constants::BOARD_SIZE;
use crate::game_state::Field;
use crate::random::gen_range;

verus! {

/// One player's board: the grid of fields and the computer's two lists of
/// cells to shoot at (a shuffled list of every cell, and a stack of cells
/// next to a ship it has hit).
pub struct Board {
    pub grid: [[Field; BOARD_SIZE]; BOARD_SIZE],
    pub potential_targets: Vec<(usize, usize)>,
    pub hunt_mode_targets: Vec<(usize, usize)>,
}

/// Whether row `r`, column `c` lies on a board.
pub open spec fn in_board(r: int, c: int) -> bool {
    0 <= r < BOARD_SIZE as int && 0 <= c < BOARD_SIZE as int
}

/// Every listed cell lies on the board.
pub open spec fn targets_in_board(t: Seq<(usize, usize)>) -> bool {
    forall|k: int| 0 <= k < t.len() ==> #[trigger] in_board(t[k].0 as int, t[k].1 as int)
}

/// The list holds every cell of the board exactly once.
pub open spec fn each_cell_once(t: Seq<(usize, usize)>) -> bool {
    &&& t.len() == BOARD_SIZE * BOARD_SIZE
    &&& t.no_duplicates()
    &&& targets_in_board(t)
    &&& forall|r: usize, c: usize| #[trigger] in_board(r as int, c as int) ==> t.contains((r, c))
}

/// A grid model has `BOARD_SIZE` rows of `BOARD_SIZE` fields.
pub open spec fn sized(g: Seq<Seq<Field>>) -> bool {
    &&& g.len() == BOARD_SIZE
    &&& forall|r: int| 0 <= r < BOARD_SIZE ==> (#[trigger] g[r]).len() == BOARD_SIZE
}

/// Every cell is water.
pub open spec fn all_water(g: Seq<Seq<Field>>) -> bool {
    forall|r: int, c: int| in_board(r, c) ==> #[trigger] g[r][c] == Field::Water
}

/// No cell holds an unhit ship part.
pub open spec fn no_ship_left(g: Seq<Seq<Field>>) -> bool {
    forall|r: int, c: int| in_board(r, c) ==> #[trigger] g[r][c] != Field::Ship
}

/// The grid with one field replaced.
pub open spec fn set_cell(g: Seq<Seq<Field>>, r: int, c: int, f: Field) -> Seq<Seq<Field>> {
    g.update(r, g[r].update(c, f))
}

/// Whether a ship of length `len` starting at (`r`, `c`) ends inside the board
/// in the direction it runs.
pub open spec fn fits(r: int, c: int, len: int, horizontal: bool) -> bool {
    if horizontal {
        c + len <= BOARD_SIZE
    } else {
        r + len <= BOARD_SIZE
    }
}

/// Whether (`i`, `j`) lies in the box that reaches one cell beyond the ship on
/// every side: the ship itself and the water it must keep around it.
pub open spec fn in_buffer(r: int, c: int, len: int, horizontal: bool, i: int, j: int) -> bool {
    let r_last = if horizontal { r + 1 } else { r + len };
    let c_last = if horizontal { c + len } else { c + 1 };
    r - 1 <= i <= r_last && c - 1 <= j <= c_last
}

/// Whether a ship may be put there: it fits, and every board cell of its
/// buffer box is water.
pub open spec fn placement_ok(g: Seq<Seq<Field>>, r: int, c: int, len: int, horizontal: bool) -> bool {
    &&& fits(r, c, len, horizontal)
    &&& forall|i: int, j: int|
        in_board(i, j) && in_buffer(r, c, len, horizontal, i, j) ==> #[trigger] g[i][j] == Field::Water
}

/// The placement rule spelled out: a ship of length `len` may start at
/// (`r`, `c`) exactly when it ends inside the board in the direction it runs
/// and every board cell from one row above it to one row below its last row,
/// and from one column left of it to one column right of its last column, is
/// water.
pub proof fn lemma_placement_rule(g: Seq<Seq<Field>>, r: int, c: int, len: int, horizontal: bool)
    ensures
        placement_ok(g, r, c, len, horizontal) <==> {
            &&& if horizontal {
                c + len <= BOARD_SIZE
            } else {
                r + len <= BOARD_SIZE
            }
            &&& forall|i: int, j: int|
                0 <= i < BOARD_SIZE && 0 <= j < BOARD_SIZE && r - 1 <= i <= (if horizontal {
                    r + 1
                } else {
                    r + len
                }) && c - 1 <= j <= (if horizontal {
                    c + len
                } else {
                    c + 1
                }) ==> #[trigger] g[i][j] == Field::Water
        },
{
}

/// Only the cells within one cell of a ship decide whether it may be placed:
/// two grids that agree on those cells agree on the answer.
pub proof fn lemma_placement_is_local(
    g1: Seq<Seq<Field>>,
    g2: Seq<Seq<Field>>,
    r: int,
    c: int,
    len: int,
    horizontal: bool,
)
    requires
        forall|i: int, j: int|
            0 <= i < BOARD_SIZE && 0 <= j < BOARD_SIZE && r - 1 <= i <= (if horizontal {
                r + 1
            } else {
                r + len
            }) && c - 1 <= j <= (if horizontal {
                c + len
            } else {
                c + 1
            }) ==> #[trigger] g1[i][j] == g2[i][j],
    ensures
        placement_ok(g1, r, c, len, horizontal) == placement_ok(g2, r, c, len, horizontal),
{
    lemma_placement_rule(g1, r, c, len, horizontal);
    lemma_placement_rule(g2, r, c, len, horizontal);
    if placement_ok(g1, r, c, len, horizontal) {
        assert forall|i: int, j: int|
            in_board(i, j) && in_buffer(r, c, len, horizontal, i, j) implies #[trigger] g2[i][j] == Field::Water by {
            assert(g1[i][j] == g2[i][j]);
        }
    }
    if placement_ok(g2, r, c, len, horizontal) {
        assert forall|i: int, j: int|
            in_board(i, j) && in_buffer(r, c, len, horizontal, i, j) implies #[trigger] g1[i][j] == Field::Water by {
            assert(g1[i][j] == g2[i][j]);
        }
    }
}

/// Whether (`i`, `j`) is one of the cells a ship of length `len` at (`r`, `c`) covers.
pub open spec fn on_segment(r: int, c: int, len: int, horizontal: bool, i: int, j: int) -> bool {
    if horizontal {
        i == r && c <= j < c + len
    } else {
        j == c && r <= i < r + len
    }
}

/// The grid after a ship is drawn on it.
pub open spec fn with_ship(g: Seq<Seq<Field>>, r: int, c: int, len: int, horizontal: bool) -> Seq<Seq<Field>> {
    Seq::new(
        g.len(),
        |i: int|
            Seq::new(
                g[i].len(),
                |j: int|
                    if on_segment(r, c, len, horizontal, i, j) {
                        Field::Ship
                    } else {
                        g[i][j]
                    },
            ),
    )
}

/// Every cell of the board, row by row.
pub open spec fn row_major_cells() -> Seq<(usize, usize)> {
    Seq::new(
        (BOARD_SIZE * BOARD_SIZE) as nat,
        |k: int| ((k / BOARD_SIZE as int) as usize, (k % BOARD_SIZE as int) as usize),
    )
}

/// A list with entries `i` and `j` exchanged.
pub open spec fn swapped(t: Seq<(usize, usize)>, i: int, j: int) -> Seq<(usize, usize)> {
    t.update(i, t[j]).update(j, t[i])
}

/// The list after the first `n` steps of a Fisher-Yates shuffle that runs
/// from the last entry down: step `k` exchanges entry `len - 1 - k` with
/// entry `draws[k]`.
pub open spec fn fisher_yates(t: Seq<(usize, usize)>, draws: Seq<usize>, n: int) -> Seq<(usize, usize)>
    decreases n,
{
    if n <= 0 {
        t
    } else {
        swapped(fisher_yates(t, draws, n - 1), t.len() - n, draws[n - 1] as int)
    }
}

/// The draws suit a shuffle of a list of `len` entries: at most one per
/// entry, and the one for entry `len - 1 - k` names an entry at or below it.
pub open spec fn draws_fit(len: int, draws: Seq<usize>) -> bool {
    &&& draws.len() <= len
    &&& forall|k: int| 0 <= k < draws.len() ==> #[trigger] draws[k] <= len - 1 - k
}

impl Board {
    /// The grid as a sequence of rows.
    pub open spec fn cells(&self) -> Seq<Seq<Field>> {
        self.grid@.map_values(|row: [Field; BOARD_SIZE]| row@)
    }

    /// Both target lists name only cells of the board.
    pub open spec fn wf(&self) -> bool {
        &&& targets_in_board(self.potential_targets@)
        &&& targets_in_board(self.hunt_mode_targets@)
    }

    /// The grid model has `BOARD_SIZE` rows of `BOARD_SIZE` fields.
    pub proof fn lemma_cells_sized(&self)
        ensures
            sized(self.cells()),
    {
        assert forall|r: int| 0 <= r < BOARD_SIZE implies (#[trigger] self.cells()[r]).len() == BOARD_SIZE by {
            let row = self.grid@[r];
            assert(row@.len() == BOARD_SIZE);
        }
    }

    /// Writes one field.
    pub(crate) fn set_field(&mut self, r: usize, c: usize, f: Field)
        requires
            r < BOARD_SIZE,
            c < BOARD_SIZE,
        ensures
            final(self).cells() == set_cell(old(self).cells(), r as int, c as int, f),
            final(self).potential_targets == old(self).potential_targets,
            final(self).hunt_mode_targets == old(self).hunt_mode_targets,
    {
        let ghost g0 = self.cells();
        self.grid[r][c] = f;
        proof {
            self.lemma_cells_sized();
            assert(self.cells() =~~= set_cell(g0, r as int, c as int, f));
        }
    }
}

impl Board {
    /// A board of water whose computer target list holds every cell once.
    /// The list starts row by row; 99 numbers are drawn from the global
    /// random generator, the one for entry `i` (from 99 down to 1) between 0
    /// and `i`, and a Fisher-Yates shuffle exchanges each entry `i` with the
    /// entry its number names.
    pub fn new() -> (b: Board)
        ensures
            b.wf(),
            all_water(b.cells()),
            each_cell_once(b.potential_targets@),
            b.hunt_mode_targets@.len() == 0,
            exists|draws: Seq<usize>|
                {
                    &&& draws.len() == BOARD_SIZE * BOARD_SIZE - 1
                    &&& draws_fit(BOARD_SIZE * BOARD_SIZE, draws)
                    &&& #[trigger] fisher_yates(row_major_cells(), draws, draws.len() as int) == b.potential_targets@
                },
    {
        let mut targets: Vec<(usize, usize)> = Vec::new();
        let mut r: usize = 0;
        while r < BOARD_SIZE
            invariant
                r <= BOARD_SIZE,
                targets@.len() == r * BOARD_SIZE,
                forall|k: int|
                    0 <= k < targets@.len() ==> (#[trigger] targets@[k]).0 * BOARD_SIZE
                        + targets@[k].1 == k && targets@[k].1 < BOARD_SIZE,
            decreases BOARD_SIZE - r,
        {
            let mut c: usize = 0;
            while c < BOARD_SIZE
                invariant
                    r < BOARD_SIZE,
                    c <= BOARD_SIZE,
                    targets@.len() == r * BOARD_SIZE + c,
                    forall|k: int|
                        0 <= k < targets@.len() ==> (#[trigger] targets@[k]).0 * BOARD_SIZE
                            + targets@[k].1 == k && targets@[k].1 < BOARD_SIZE,
                decreases BOARD_SIZE - c,
            {
                targets.push((r, c));
                c += 1;
            }
            r += 1;
        }
        proof {
            lemma_ordered_cells_once(targets@);
            assert forall|k: int| 0 <= k < targets@.len() implies #[trigger] targets@[k] == row_major_cells()[k] by {
                assert(targets@[k].0 * BOARD_SIZE + targets@[k].1 == k);
            }
            assert(targets@ =~= row_major_cells());
        }
        let len = targets.len();
        let mut draws: Vec<usize> = Vec::new();
        let mut i: usize = len - 1;
        while i > 0
            invariant
                len == BOARD_SIZE * BOARD_SIZE,
                i < len,
                draws@.len() == len - 1 - i,
                draws_fit(len as int, draws@),
            decreases i,
        {
            draws.push(gen_range(0, i + 1));
            i -= 1;
        }
        shuffle_targets(&mut targets, &draws);
        Board {
            grid: [[Field::Water; BOARD_SIZE]; BOARD_SIZE],
            potential_targets: targets,
            hunt_mode_targets: Vec::new(),
        }
    }
}

/// The cells listed row by row make a list of every cell once.
proof fn lemma_ordered_cells_once(t: Seq<(usize, usize)>)
    requires
        t.len() == BOARD_SIZE * BOARD_SIZE,
        forall|k: int|
            0 <= k < t.len() ==> (#[trigger] t[k]).0 * BOARD_SIZE + t[k].1 == k && t[k].1
                < BOARD_SIZE,
    ensures
        each_cell_once(t),
{
    assert forall|k: int| 0 <= k < t.len() implies #[trigger] in_board(t[k].0 as int, t[k].1 as int) by {
        assert(t[k].0 * BOARD_SIZE + t[k].1 == k);
    }
    assert forall|a: int, b: int| 0 <= a < t.len() && 0 <= b < t.len() && a != b implies t[a] != t[b] by {
        assert(t[a].0 * BOARD_SIZE + t[a].1 == a);
        assert(t[b].0 * BOARD_SIZE + t[b].1 == b);
    }
    assert forall|r: usize, c: usize| #[trigger] in_board(r as int, c as int) implies t.contains((r, c)) by {
        let k = r * BOARD_SIZE + c;
        assert(0 <= k < t.len());
        assert(t[k].0 * BOARD_SIZE + t[k].1 == k);
        assert(t[k] == (r, c));
    }
}

/// Exchanges two entries of a target list.
pub fn swap_targets(targets: &mut Vec<(usize, usize)>, i: usize, j: usize)
    requires
        i < old(targets)@.len(),
        j < old(targets)@.len(),
    ensures
        final(targets)@ == old(targets)@.update(i as int, old(targets)@[j as int]).update(
            j as int,
            old(targets)@[i as int],
        ),
        each_cell_once(old(targets)@) ==> each_cell_once(final(targets)@),
{
    let ghost t = targets@;
    let ti = targets[i];
    let tj = targets[j];
    targets.set(i, tj);
    targets.set(j, ti);
    proof {
        let u = targets@;
        if each_cell_once(t) {
            assert forall|k: int| 0 <= k < u.len() implies #[trigger] in_board(u[k].0 as int, u[k].1 as int) by {
                if k == i {
                    assert(in_board(t[j as int].0 as int, t[j as int].1 as int));
                } else if k == j {
                    assert(in_board(t[i as int].0 as int, t[i as int].1 as int));
                } else {
                    assert(in_board(t[k].0 as int, t[k].1 as int));
                }
            }
            assert forall|a: int, b: int| 0 <= a < u.len() && 0 <= b < u.len() && a != b implies u[a] != u[b] by {
                let oa = if a == i { j as int } else if a == j { i as int } else { a };
                let ob = if b == i { j as int } else if b == j { i as int } else { b };
                assert(u[a] == t[oa]);
                assert(u[b] == t[ob]);
            }
            assert forall|r: usize, c: usize| #[trigger] in_board(r as int, c as int) implies u.contains((r, c)) by {
                assert(t.contains((r, c)));
                let m = choose|m: int| 0 <= m < t.len() && t[m] == (r, c);
                let nm = if m == i { j as int } else if m == j { i as int } else { m };
                assert(u[nm] == (r, c));
            }
        }
    }
}

impl Board {
    /// Whether a ship of length `len` may start at (`r`, `c`), running right
    /// when `horizontal` and down otherwise: it has to end inside the board
    /// in the direction it runs (the other coordinate is not checked), and
    /// every board cell of the box one cell wider than the ship on each side
    /// has to be water.
    pub fn is_valid_placement(&self, r: usize, c: usize, len: usize, horizontal: bool) -> (ok: bool)
        requires
            horizontal ==> c + len <= usize::MAX && (c + len <= BOARD_SIZE ==> r < usize::MAX),
            !horizontal ==> r + len <= usize::MAX && (r + len <= BOARD_SIZE ==> c < usize::MAX),
        ensures
            ok == placement_ok(self.cells(), r as int, c as int, len as int, horizontal),
    {
        if horizontal {
            if c + len > BOARD_SIZE {
                return false;
            }
        } else {
            if r + len > BOARD_SIZE {
                return false;
            }
        }

        let r_start = r.saturating_sub(1);
        let c_start = c.saturating_sub(1);
        let r_end = if horizontal {
            (r + 1).min(BOARD_SIZE - 1)
        } else {
            (r + len).min(BOARD_SIZE - 1)
        };
        let c_end = if horizontal {
            (c + len).min(BOARD_SIZE - 1)
        } else {
            (c + 1).min(BOARD_SIZE - 1)
        };
        let ghost g = self.cells();
        proof {
            self.lemma_cells_sized();
            assert(r_end == if horizontal { r + 1 } else { r + len } || r_end == BOARD_SIZE - 1);
        }

        let mut i = r_start;
        while i <= r_end
            invariant
                g == self.cells(),
                sized(g),
                r_start <= i,
                i <= r_end + 1 || i == r_start,
                r_end < BOARD_SIZE,
                c_end < BOARD_SIZE,
                r_start + 1 >= r,
                c_start + 1 >= c,
                r_end <= if horizontal { r + 1 } else { r + len },
                c_end <= if horizontal { c + len } else { c + 1 },
                forall|a: int, b: int|
                    r_start <= a < i && c_start <= b <= c_end ==> #[trigger] g[a][b] == Field::Water,
            decreases r_end + 1 - i,
        {
            let mut j = c_start;
            while j <= c_end
                invariant
                    g == self.cells(),
                    sized(g),
                    r_start <= i <= r_end,
                    c_start <= j,
                    j <= c_end + 1 || j == c_start,
                    r_end < BOARD_SIZE,
                    c_end < BOARD_SIZE,
                    r_start + 1 >= r,
                    c_start + 1 >= c,
                    r_end <= if horizontal { r + 1 } else { r + len },
                    c_end <= if horizontal { c + len } else { c + 1 },
                    forall|a: int, b: int|
                        r_start <= a < i && c_start <= b <= c_end ==> #[trigger] g[a][b] == Field::Water,
                    forall|b: int| c_start <= b < j ==> #[trigger] g[i as int][b] == Field::Water,
                decreases c_end + 1 - j,
            {
                if self.grid[i][j] != Field::Water {
                    proof {
                        assert(in_board(i as int, j as int));
                        assert(in_buffer(r as int, c as int, len as int, horizontal, i as int, j as int));
                    }
                    return false;
                }
                j += 1;
            }
            i += 1;
        }
        proof {
            assert forall|a: int, b: int|
                in_board(a, b) && in_buffer(r as int, c as int, len as int, horizontal, a, b)
                implies #[trigger] g[a][b] == Field::Water by {
                assert(r_start <= a <= r_end);
                assert(c_start <= b <= c_end);
            }
        }
        true
    }

    /// Draws a ship of length `len` from (`r`, `c`), to the right when
    /// `horizontal` and downward otherwise.  Nothing is checked; the cells it
    /// covers must lie on the board.
    pub fn place_ship(&mut self, r: usize, c: usize, len: usize, horizontal: bool)
        requires
            len > 0 ==> in_board(r as int, c as int) && fits(r as int, c as int, len as int, horizontal),
        ensures
            final(self).cells() == with_ship(old(self).cells(), r as int, c as int, len as int, horizontal),
            final(self).potential_targets == old(self).potential_targets,
            final(self).hunt_mode_targets == old(self).hunt_mode_targets,
    {
        let ghost g0 = self.cells();
        proof {
            self.lemma_cells_sized();
        }
        let mut i: usize = 0;
        while i < len
            invariant
                len > 0 ==> in_board(r as int, c as int) && fits(r as int, c as int, len as int, horizontal),
                i <= len,
                sized(g0),
                sized(self.cells()),
                self.potential_targets == old(self).potential_targets,
                self.hunt_mode_targets == old(self).hunt_mode_targets,
                forall|a: int, b: int|
                    in_board(a, b) ==> #[trigger] self.cells()[a][b] == if on_segment(
                        r as int,
                        c as int,
                        i as int,
                        horizontal,
                        a,
                        b,
                    ) {
                        Field::Ship
                    } else {
                        g0[a][b]
                    },
            decreases len - i,
        {
            if horizontal {
                self.set_field(r, c + i, Field::Ship);
            } else {
                self.set_field(r + i, c, Field::Ship);
            }
            proof {
                self.lemma_cells_sized();
            }
            i += 1;
        }
        proof {
            assert(self.cells() =~~= with_ship(g0, r as int, c as int, len as int, horizontal));
        }
    }

    /// Whether no unhit ship part is left on the board.
    pub fn all_sunk(&self) -> (res: bool)
        ensures
            res == no_ship_left(self.cells()),
    {
        let ghost g = self.cells();
        proof {
            self.lemma_cells_sized();
        }
        let mut r: usize = 0;
        while r < BOARD_SIZE
            invariant
                g == self.cells(),
                sized(g),
                r <= BOARD_SIZE,
                forall|a: int, b: int| 0 <= a < r && in_board(a, b) ==> #[trigger] g[a][b] != Field::Ship,
            decreases BOARD_SIZE - r,
        {
            let mut c: usize = 0;
            while c < BOARD_SIZE
                invariant
                    g == self.cells(),
                    sized(g),
                    r < BOARD_SIZE,
                    c <= BOARD_SIZE,
                    forall|a: int, b: int| 0 <= a < r && in_board(a, b) ==> #[trigger] g[a][b] != Field::Ship,
                    forall|b: int| 0 <= b < c ==> #[trigger] g[r as int][b] != Field::Ship,
                decreases BOARD_SIZE - c,
            {
                if self.grid[r][c] == Field::Ship {
                    return false;
                }
                c += 1;
            }
            r += 1;
        }
        true
    }

    /// The cell at row `row`, column `col` when that lies on the board.
    pub fn hover_cell(row: i32, col: i32) -> (cell: Option<(usize, usize)>)
        ensures
            cell == if in_board(row as int, col as int) {
                Some((row as usize, col as usize))
            } else {
                None
            },
    {
        if col >= 0 && col < BOARD_SIZE as i32 && row >= 0 && row < BOARD_SIZE as i32 {
            Some((row as usize, col as usize))
        } else {
            None
        }
    }
}

/// Shuffles a target list with the given draws: for `k` from 0, exchanges
/// entry `len - 1 - k` with entry `draws[k]`.
pub fn shuffle_targets(targets: &mut Vec<(usize, usize)>, draws: &Vec<usize>)
    requires
        draws_fit(old(targets)@.len() as int, draws@),
    ensures
        final(targets)@ == fisher_yates(old(targets)@, draws@, draws@.len() as int),
        each_cell_once(old(targets)@) ==> each_cell_once(final(targets)@),
{
    let ghost t0 = targets@;
    let len = targets.len();
    let mut k: usize = 0;
    while k < draws.len()
        invariant
            len == t0.len(),
            targets@.len() == len,
            draws_fit(len as int, draws@),
            k <= draws@.len(),
            targets@ == fisher_yates(t0, draws@, k as int),
            each_cell_once(t0) ==> each_cell_once(targets@),
        decreases draws@.len() - k,
    {
        let i = len - 1 - k;
        let j = draws[k];
        proof {
            assert(draws@[k as int] <= len - 1 - k);
        }
        swap_targets(targets, i, j);
        k += 1;
    }
}

} // verus!