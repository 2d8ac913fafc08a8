use vstd::prelude::*;
use crate::board::{all_water, in_board, in_buffer, no_ship_left, on_segment, placement_ok, sized, with_ship, Board};
use crate::constants::{fleet, fleet_lengths, BOARD_SIZE};
use crate::game_state::Field;
use crate::random::gen_range;

verus! {

/// Whether a field shows part of a ship, hit or not.
pub open spec fn is_ship_part(f: Field) -> bool {
    f == Field::Ship || f == Field::Hit || f == Field::Sunk
}

/// Whether a field counts as ship: every ship part when `with_hits`, and
/// only an unhit ship part otherwise.
pub open spec fn counts(f: Field, with_hits: bool) -> bool {
    if with_hits {
        is_ship_part(f)
    } else {
        f == Field::Ship
    }
}

/// Whether a cell that counts as ship lies at (`r`, `c`) on the board.
pub open spec fn ship_at_cell(g: Seq<Seq<Field>>, with_hits: bool, r: int, c: int) -> bool {
    in_board(r, c) && counts(g[r][c], with_hits)
}

/// The cells counted as ship form straight lines that never touch: no two
/// meet at a corner, and none has counted cells beside it both in its row
/// and in its column.
pub open spec fn lines_apart(g: Seq<Seq<Field>>, with_hits: bool) -> bool {
    forall|r: int, c: int|
        #[trigger] ship_at_cell(g, with_hits, r, c) ==> {
            &&& !ship_at_cell(g, with_hits, r - 1, c - 1)
            &&& !ship_at_cell(g, with_hits, r - 1, c + 1)
            &&& !ship_at_cell(g, with_hits, r + 1, c - 1)
            &&& !ship_at_cell(g, with_hits, r + 1, c + 1)
            &&& !((ship_at_cell(g, with_hits, r, c - 1) || ship_at_cell(g, with_hits, r, c + 1)) && (
            ship_at_cell(g, with_hits, r - 1, c) || ship_at_cell(g, with_hits, r + 1, c)))
        }
}

/// The ships stand apart, counting every ship part, hit or not.
pub open spec fn fleet_apart(g: Seq<Seq<Field>>) -> bool {
    lines_apart(g, true)
}

/// The unhit ships stand apart, counting `Ship` cells only.
pub open spec fn ships_apart(g: Seq<Seq<Field>>) -> bool {
    lines_apart(g, false)
}

/// Two grids show ship parts on the same cells.
pub open spec fn same_ship_parts(g1: Seq<Seq<Field>>, g2: Seq<Seq<Field>>) -> bool {
    forall|r: int, c: int| in_board(r, c) ==> is_ship_part(#[trigger] g1[r][c]) == is_ship_part(g2[r][c])
}

/// A ship put where `placement_ok` allows is a line of `len` new `Ship` cells
/// that touches no other ship: inside the box one cell wider than it on each
/// side, every cell counted as ship (either way of counting) belongs to it.
pub proof fn lemma_valid_placement_isolated(
    g: Seq<Seq<Field>>,
    with_hits: bool,
    r: int,
    c: int,
    len: int,
    horizontal: bool,
)
    requires
        sized(g),
        in_board(r, c),
        placement_ok(g, r, c, len, horizontal),
    ensures
        forall|i: int, j: int|
            on_segment(r, c, len, horizontal, i, j) ==> #[trigger] with_ship(g, r, c, len, horizontal)[i][j]
                == Field::Ship,
        forall|a: int, b: int|
            #[trigger] ship_at_cell(with_ship(g, r, c, len, horizontal), with_hits, a, b) && in_buffer(
                r,
                c,
                len,
                horizontal,
                a,
                b,
            ) ==> on_segment(r, c, len, horizontal, a, b),
{
    let g2 = with_ship(g, r, c, len, horizontal);
    assert forall|i: int, j: int| on_segment(r, c, len, horizontal, i, j) implies #[trigger] g2[i][j] == Field::Ship by {
        assert(in_board(i, j));
    }
    assert forall|a: int, b: int|
        #[trigger] ship_at_cell(g2, with_hits, a, b) && in_buffer(r, c, len, horizontal, a, b)
        implies on_segment(r, c, len, horizontal, a, b) by {
        if !on_segment(r, c, len, horizontal, a, b) {
            assert(g[a][b] == Field::Water);
        }
    }
}

/// Lines that stand apart still stand apart after a ship is put where
/// `placement_ok` allows, counting either every ship part or unhit ones only.
pub proof fn lemma_placement_keeps_lines_apart(
    g: Seq<Seq<Field>>,
    with_hits: bool,
    r: int,
    c: int,
    len: int,
    horizontal: bool,
)
    requires
        sized(g),
        lines_apart(g, with_hits),
        in_board(r, c),
        placement_ok(g, r, c, len, horizontal),
    ensures
        lines_apart(with_ship(g, r, c, len, horizontal), with_hits),
{
    let g2 = with_ship(g, r, c, len, horizontal);
    let w = with_hits;
    assert forall|a: int, b: int| #[trigger] ship_at_cell(g2, w, a, b) implies {
        &&& !ship_at_cell(g2, w, a - 1, b - 1)
        &&& !ship_at_cell(g2, w, a - 1, b + 1)
        &&& !ship_at_cell(g2, w, a + 1, b - 1)
        &&& !ship_at_cell(g2, w, a + 1, b + 1)
        &&& !((ship_at_cell(g2, w, a, b - 1) || ship_at_cell(g2, w, a, b + 1)) && (ship_at_cell(g2, w, a - 1, b)
            || ship_at_cell(g2, w, a + 1, b)))
    } by {
        if on_segment(r, c, len, horizontal, a, b) {
            lemma_neighbour_in_buffer(g, w, r, c, len, horizontal, a, b, a - 1, b - 1);
            lemma_neighbour_in_buffer(g, w, r, c, len, horizontal, a, b, a - 1, b + 1);
            lemma_neighbour_in_buffer(g, w, r, c, len, horizontal, a, b, a + 1, b - 1);
            lemma_neighbour_in_buffer(g, w, r, c, len, horizontal, a, b, a + 1, b + 1);
            if horizontal {
                lemma_neighbour_in_buffer(g, w, r, c, len, horizontal, a, b, a - 1, b);
                lemma_neighbour_in_buffer(g, w, r, c, len, horizontal, a, b, a + 1, b);
            } else {
                lemma_neighbour_in_buffer(g, w, r, c, len, horizontal, a, b, a, b - 1);
                lemma_neighbour_in_buffer(g, w, r, c, len, horizontal, a, b, a, b + 1);
            }
        } else {
            assert(ship_at_cell(g, w, a, b));
            if in_buffer(r, c, len, horizontal, a, b) {
                assert(g[a][b] == Field::Water);
            }
            lemma_far_from_ship(g, w, r, c, len, horizontal, a, b, a - 1, b - 1);
            lemma_far_from_ship(g, w, r, c, len, horizontal, a, b, a - 1, b + 1);
            lemma_far_from_ship(g, w, r, c, len, horizontal, a, b, a + 1, b - 1);
            lemma_far_from_ship(g, w, r, c, len, horizontal, a, b, a + 1, b + 1);
            lemma_far_from_ship(g, w, r, c, len, horizontal, a, b, a - 1, b);
            lemma_far_from_ship(g, w, r, c, len, horizontal, a, b, a + 1, b);
            lemma_far_from_ship(g, w, r, c, len, horizontal, a, b, a, b - 1);
            lemma_far_from_ship(g, w, r, c, len, horizontal, a, b, a, b + 1);
        }
    }
}

/// A cell next to a cell of a newly placed ship, but not on it, was water and
/// stays so.
proof fn lemma_neighbour_in_buffer(
    g: Seq<Seq<Field>>,
    with_hits: bool,
    r: int,
    c: int,
    len: int,
    horizontal: bool,
    a: int,
    b: int,
    x: int,
    y: int,
)
    requires
        sized(g),
        placement_ok(g, r, c, len, horizontal),
        on_segment(r, c, len, horizontal, a, b),
        a - 1 <= x <= a + 1,
        b - 1 <= y <= b + 1,
        !on_segment(r, c, len, horizontal, x, y),
    ensures
        !ship_at_cell(with_ship(g, r, c, len, horizontal), with_hits, x, y),
{
    if in_board(x, y) {
        assert(in_buffer(r, c, len, horizontal, x, y));
        assert(g[x][y] == Field::Water);
    }
}

/// Around a cell outside a newly placed ship's buffer the grid is as it was.
proof fn lemma_far_from_ship(
    g: Seq<Seq<Field>>,
    with_hits: bool,
    r: int,
    c: int,
    len: int,
    horizontal: bool,
    a: int,
    b: int,
    x: int,
    y: int,
)
    requires
        sized(g),
        placement_ok(g, r, c, len, horizontal),
        !in_buffer(r, c, len, horizontal, a, b),
        a - 1 <= x <= a + 1,
        b - 1 <= y <= b + 1,
    ensures
        ship_at_cell(with_ship(g, r, c, len, horizontal), with_hits, x, y) == ship_at_cell(g, with_hits, x, y),
{
    if on_segment(r, c, len, horizontal, x, y) {
        assert(in_buffer(r, c, len, horizontal, a, b));
    }
}

/// A ship put on a board: row, column, length, and whether it runs right.
pub type Placement = (int, int, int, bool);

/// The grid after the ships are drawn on it one after another.
pub open spec fn apply_placements(g: Seq<Seq<Field>>, ps: Seq<Placement>) -> Seq<Seq<Field>>
    decreases ps.len(),
{
    if ps.len() == 0 {
        g
    } else {
        let p = ps.last();
        with_ship(apply_placements(g, ps.drop_last()), p.0, p.1, p.2, p.3)
    }
}

/// Each ship, when drawn, started on the board and was allowed by
/// `placement_ok` on the grid drawn so far.
pub open spec fn placements_valid(g: Seq<Seq<Field>>, ps: Seq<Placement>) -> bool
    decreases ps.len(),
{
    if ps.len() == 0 {
        true
    } else {
        let p = ps.last();
        &&& placements_valid(g, ps.drop_last())
        &&& in_board(p.0, p.1)
        &&& placement_ok(apply_placements(g, ps.drop_last()), p.0, p.1, p.2, p.3)
    }
}

/// Whether `a` can be had from `b` by leaving entries out.
pub open spec fn is_subsequence(a: Seq<int>, b: Seq<int>) -> bool
    decreases b.len(),
{
    if a.len() == 0 {
        true
    } else if b.len() == 0 {
        false
    } else {
        (a.last() == b.last() && is_subsequence(a.drop_last(), b.drop_last())) || is_subsequence(a, b.drop_last())
    }
}

/// The lengths of the placed ships.
pub open spec fn placed_lengths(ps: Seq<Placement>) -> Seq<int> {
    ps.map_values(|p: Placement| p.2)
}

/// The fleet's lengths as integers, the first `n` of them.
pub open spec fn fleet_prefix(n: int) -> Seq<int> {
    fleet_lengths().take(n).map_values(|l: usize| l as int)
}

/// One random draw for placing a ship: whether it runs right, its row and
/// its column.
pub type Draw = (bool, usize, usize);

/// How many positions are drawn for one ship before it is left out.
pub const ATTEMPTS_PER_SHIP: u32 = 1000;

/// Every draw names a cell of the board.
pub open spec fn draws_on_board(draws: Seq<Draw>) -> bool {
    forall|k: int| 0 <= k < draws.len() ==> (#[trigger] draws[k]).1 < BOARD_SIZE && draws[k].2 < BOARD_SIZE
}

/// Placing one ship of length `len` from the draws, with at most `tries`
/// tries: the first draw that `placement_ok` allows is used, and after
/// `tries` refused draws the ship is left out.  Gives the grid and how many
/// draws were used, or `None` when the draws run out first.
pub open spec fn ship_from_draws(g: Seq<Seq<Field>>, len: int, draws: Seq<Draw>, tries: nat) -> Option<
    (Seq<Seq<Field>>, nat),
>
    decreases tries,
{
    if tries == 0 {
        Some((g, 0))
    } else if draws.len() == 0 {
        None
    } else {
        let d = draws[0];
        if placement_ok(g, d.1 as int, d.2 as int, len, d.0) {
            Some((with_ship(g, d.1 as int, d.2 as int, len, d.0), 1))
        } else {
            match ship_from_draws(g, len, draws.drop_first(), (tries - 1) as nat) {
                Some(x) => Some((x.0, x.1 + 1)),
                None => None,
            }
        }
    }
}

/// Placing the ships of `ships` in order from the draws, each with
/// `ATTEMPTS_PER_SHIP` tries.  Gives the grid and how many draws were used,
/// or `None` when the draws run out first.
pub open spec fn fleet_prefix_from_draws(g: Seq<Seq<Field>>, ships: Seq<usize>, draws: Seq<Draw>) -> Option<
    (Seq<Seq<Field>>, nat),
>
    decreases ships.len(),
{
    if ships.len() == 0 {
        Some((g, 0))
    } else {
        match fleet_prefix_from_draws(g, ships.drop_last(), draws) {
            Some(x) => match ship_from_draws(
                x.0,
                ships.last() as int,
                draws.skip(x.1 as int),
                ATTEMPTS_PER_SHIP as nat,
            ) {
                Some(y) => Some((y.0, x.1 + y.1)),
                None => None,
            },
            None => None,
        }
    }
}

/// The grid after the ships of `ships` are placed from exactly these draws
/// (every draw used), or `None` when the draws do not fit that rule.
pub open spec fn fleet_from_draws(g: Seq<Seq<Field>>, ships: Seq<usize>, draws: Seq<Draw>) -> Option<
    Seq<Seq<Field>>,
> {
    match fleet_prefix_from_draws(g, ships, draws) {
        Some(x) => if x.1 == draws.len() {
            Some(x.0)
        } else {
            None
        },
        None => None,
    }
}

/// Draws that are all refused give a ship left out after using all of them.
proof fn lemma_ship_refused(g: Seq<Seq<Field>>, len: int, ds: Seq<Draw>, tries: nat)
    requires
        ds.len() == tries,
        forall|k: int| 0 <= k < ds.len() ==> !placement_ok(g, (#[trigger] ds[k]).1 as int, ds[k].2 as int, len, ds[k].0),
    ensures
        ship_from_draws(g, len, ds, tries) == Some((g, tries)),
    decreases tries,
{
    if tries > 0 {
        assert(!placement_ok(g, ds[0].1 as int, ds[0].2 as int, len, ds[0].0));
        assert forall|k: int| 0 <= k < ds.drop_first().len() implies !placement_ok(g, (#[trigger] ds.drop_first()[k]).1 as int, ds.drop_first()[k].2 as int, len, ds.drop_first()[k].0) by {
            assert(ds.drop_first()[k] == ds[k + 1]);
        }
        lemma_ship_refused(g, len, ds.drop_first(), (tries - 1) as nat);
    }
}

/// Refused draws followed by an allowed one place the ship there.
proof fn lemma_ship_placed(g: Seq<Seq<Field>>, len: int, ds: Seq<Draw>, tries: nat)
    requires
        1 <= ds.len() <= tries,
        forall|k: int| 0 <= k < ds.len() - 1 ==> !placement_ok(g, (#[trigger] ds[k]).1 as int, ds[k].2 as int, len, ds[k].0),
        placement_ok(g, ds.last().1 as int, ds.last().2 as int, len, ds.last().0),
    ensures
        ship_from_draws(g, len, ds, tries) == Some((with_ship(g, ds.last().1 as int, ds.last().2 as int, len, ds.last().0), ds.len())),
    decreases tries,
{
    if ds.len() > 1 {
        assert(!placement_ok(g, ds[0].1 as int, ds[0].2 as int, len, ds[0].0));
        let rest = ds.drop_first();
        assert forall|k: int| 0 <= k < rest.len() - 1 implies !placement_ok(g, (#[trigger] rest[k]).1 as int, rest[k].2 as int, len, rest[k].0) by {
            assert(rest[k] == ds[k + 1]);
        }
        assert(rest.last() == ds.last());
        lemma_ship_placed(g, len, rest, (tries - 1) as nat);
    }
}

/// Placing one ship reads no further than the draws it uses.
proof fn lemma_ship_extend(g: Seq<Seq<Field>>, len: int, ds: Seq<Draw>, e: Seq<Draw>, tries: nat)
    ensures
        ship_from_draws(g, len, ds, tries) matches Some(x) ==> x.1 <= ds.len() && ship_from_draws(g, len, ds + e, tries)
            == Some(x),
    decreases tries,
{
    if tries > 0 && ds.len() > 0 {
        assert((ds + e)[0] == ds[0]);
        assert((ds + e).drop_first() == ds.drop_first() + e);
        lemma_ship_extend(g, len, ds.drop_first(), e, (tries - 1) as nat);
    }
}

/// Placing ships reads no further than the draws it uses.
proof fn lemma_fleet_extend(g: Seq<Seq<Field>>, ships: Seq<usize>, ds: Seq<Draw>, e: Seq<Draw>)
    ensures
        fleet_prefix_from_draws(g, ships, ds) matches Some(x) ==> x.1 <= ds.len() && fleet_prefix_from_draws(
            g,
            ships,
            ds + e,
        ) == Some(x),
    decreases ships.len(),
{
    if ships.len() > 0 {
        lemma_fleet_extend(g, ships.drop_last(), ds, e);
        if let Some(x) = fleet_prefix_from_draws(g, ships.drop_last(), ds) {
            assert((ds + e).skip(x.1 as int) == ds.skip(x.1 as int) + e);
            lemma_ship_extend(x.0, ships.last() as int, ds.skip(x.1 as int), e, ATTEMPTS_PER_SHIP as nat);
        }
    }
}

/// Placing one ship from draws keeps every unhit ship part, and either
/// leaves the grid as it was or puts a ship on it; a one-cell ship on a grid
/// of water is always placed by the first draw.
proof fn lemma_ship_from_draws_shape(g: Seq<Seq<Field>>, len: int, ds: Seq<Draw>, tries: nat)
    requires
        sized(g),
        draws_on_board(ds),
        1 <= len <= BOARD_SIZE,
    ensures
        ship_from_draws(g, len, ds, tries) matches Some(y) ==> {
            &&& sized(y.0)
            &&& forall|i: int, j: int| in_board(i, j) && g[i][j] == Field::Ship ==> #[trigger] y.0[i][j] == Field::Ship
            &&& (y.0 == g || !no_ship_left(y.0))
            &&& (all_water(g) && len == 1 && tries >= 1 ==> !no_ship_left(y.0))
        },
    decreases tries,
{
    if tries > 0 && ds.len() > 0 {
        let d = ds[0];
        assert(d.1 < BOARD_SIZE && d.2 < BOARD_SIZE);
        if all_water(g) && len == 1 {
            assert(placement_ok(g, d.1 as int, d.2 as int, len, d.0));
        }
        if placement_ok(g, d.1 as int, d.2 as int, len, d.0) {
            let g2 = with_ship(g, d.1 as int, d.2 as int, len, d.0);
            assert(g2[d.1 as int][d.2 as int] == Field::Ship);
            assert(!no_ship_left(g2));
        } else {
            let rest = ds.drop_first();
            assert forall|k: int| 0 <= k < rest.len() implies (#[trigger] rest[k]).1 < BOARD_SIZE && rest[k].2 < BOARD_SIZE by {
                assert(rest[k] == ds[k + 1]);
            }
            lemma_ship_from_draws_shape(g, len, rest, (tries - 1) as nat);
        }
    }
}

/// Placing ships from draws on a grid of water leaves it as it was or puts
/// a ship on it, and always puts one once a one-cell ship is among them.
proof fn lemma_prefix_shape(g0: Seq<Seq<Field>>, ships: Seq<usize>, draws: Seq<Draw>)
    requires
        sized(g0),
        all_water(g0),
        draws_on_board(draws),
        forall|k: int| 0 <= k < ships.len() ==> 1 <= #[trigger] ships[k] <= BOARD_SIZE,
    ensures
        fleet_prefix_from_draws(g0, ships, draws) matches Some(x) ==> {
            &&& sized(x.0)
            &&& (x.0 == g0 || !no_ship_left(x.0))
            &&& (ships.contains(1usize) ==> !no_ship_left(x.0))
        },
    decreases ships.len(),
{
    if ships.len() > 0 {
        let front = ships.drop_last();
        assert forall|k: int| 0 <= k < front.len() implies 1 <= #[trigger] front[k] <= BOARD_SIZE by {
            assert(front[k] == ships[k]);
        }
        lemma_prefix_shape(g0, front, draws);
        lemma_fleet_extend(g0, front, draws, Seq::empty());
        if let Some(x) = fleet_prefix_from_draws(g0, front, draws) {
            assert(draws + Seq::<Draw>::empty() == draws);
            let ds = draws.skip(x.1 as int);
            assert forall|k: int| 0 <= k < ds.len() implies (#[trigger] ds[k]).1 < BOARD_SIZE && ds[k].2 < BOARD_SIZE by {
                assert(ds[k] == draws[k + x.1]);
            }
            let len = ships.last();
            assert(1 <= len <= BOARD_SIZE);
            lemma_ship_from_draws_shape(x.0, len as int, ds, ATTEMPTS_PER_SHIP as nat);
            if ships.contains(1usize) {
                let k = choose|k: int| 0 <= k < ships.len() && ships[k] == 1usize;
                if k < ships.len() - 1 {
                    assert(front[k] == 1usize);
                    assert(front.contains(1usize));
                }
            }
        }
    }
}

/// The computer's fleet is never empty: placed on a board of water, from
/// any draws on the board, at least one ship stands on it, since a one-cell
/// ship always fits on water.
pub proof fn lemma_random_fleet_not_empty(g0: Seq<Seq<Field>>, draws: Seq<Draw>, g: Seq<Seq<Field>>)
    requires
        sized(g0),
        all_water(g0),
        draws_on_board(draws),
        fleet_from_draws(g0, fleet_lengths(), draws) == Some(g),
    ensures
        !no_ship_left(g),
{
    let ships = fleet_lengths();
    assert(ships[6] == 1usize);
    assert(ships.contains(1usize));
    lemma_prefix_shape(g0, ships, draws);
}

impl Board {
    /// Puts the ship there when `is_valid_placement` allows it, and says
    /// whether it did.
    pub fn try_place_ship(&mut self, r: usize, c: usize, len: usize, horizontal: bool) -> (placed: bool)
        requires
            in_board(r as int, c as int),
            len <= BOARD_SIZE,
        ensures
            placed == placement_ok(old(self).cells(), r as int, c as int, len as int, horizontal),
            final(self).cells() == if placed {
                with_ship(old(self).cells(), r as int, c as int, len as int, horizontal)
            } else {
                old(self).cells()
            },
            final(self).potential_targets == old(self).potential_targets,
            final(self).hunt_mode_targets == old(self).hunt_mode_targets,
    {
        if self.is_valid_placement(r, c, len, horizontal) {
            self.place_ship(r, c, len, horizontal);
            true
        } else {
            false
        }
    }

    /// Places the fleet (lengths 4, 3, 3, 2, 2, 2, 1, 1, 1, 1) at random:
    /// for each ship up to `ATTEMPTS_PER_SHIP` random directions, rows and
    /// columns are drawn, and the first one `is_valid_placement` allows is
    /// used; a ship for which none is allowed is left out.
    pub fn randomize_ships(&mut self)
        ensures
            final(self).potential_targets == old(self).potential_targets,
            final(self).hunt_mode_targets == old(self).hunt_mode_targets,
            exists|ps: Seq<Placement>|
                {
                    &&& placements_valid(old(self).cells(), ps)
                    &&& #[trigger] apply_placements(old(self).cells(), ps) == final(self).cells()
                    &&& is_subsequence(placed_lengths(ps), fleet_prefix(10))
                },
            exists|draws: Seq<Draw>|
                {
                    &&& draws_on_board(draws)
                    &&& #[trigger] fleet_from_draws(old(self).cells(), fleet_lengths(), draws) == Some(final(self).cells())
                },
            fleet_apart(old(self).cells()) ==> fleet_apart(final(self).cells()),
            ships_apart(old(self).cells()) ==> ships_apart(final(self).cells()),
    {
        let ghost g0 = self.cells();
        let ghost mut ps: Seq<Placement> = Seq::empty();
        let ghost mut draws: Seq<Draw> = Seq::empty();
        proof {
            self.lemma_cells_sized();
        }
        let ships = fleet();
        let mut s: usize = 0;
        while s < ships.len()
            invariant
                ships@ == fleet_lengths(),
                s <= ships@.len(),
                sized(g0),
                sized(self.cells()),
                self.potential_targets == old(self).potential_targets,
                self.hunt_mode_targets == old(self).hunt_mode_targets,
                g0 == old(self).cells(),
                placements_valid(g0, ps),
                apply_placements(g0, ps) == self.cells(),
                is_subsequence(placed_lengths(ps), fleet_prefix(s as int)),
                fleet_apart(g0) ==> fleet_apart(self.cells()),
                ships_apart(g0) ==> ships_apart(self.cells()),
                draws_on_board(draws),
                fleet_prefix_from_draws(g0, ships@.take(s as int), draws) == Some((self.cells(), draws.len())),
            decreases ships@.len() - s,
        {
            let len = ships[s];
            let ghost ps_before = ps;
            let ghost g_start = self.cells();
            let ghost mut ds: Seq<Draw> = Seq::empty();
            let mut placed = false;
            let mut attempts: u32 = 0;
            while !placed && attempts < ATTEMPTS_PER_SHIP
                invariant
                    ships@ == fleet_lengths(),
                    s < ships@.len(),
                    len == ships@[s as int],
                    sized(g0),
                    sized(self.cells()),
                    self.potential_targets == old(self).potential_targets,
                    self.hunt_mode_targets == old(self).hunt_mode_targets,
                    placements_valid(g0, ps),
                    apply_placements(g0, ps) == self.cells(),
                    !placed ==> ps == ps_before,
                    placed ==> ps.len() == ps_before.len() + 1 && ps.drop_last() == ps_before && ps.last().2 == len,
                    fleet_apart(g0) ==> fleet_apart(self.cells()),
                    ships_apart(g0) ==> ships_apart(self.cells()),
                    attempts <= ATTEMPTS_PER_SHIP,
                    draws_on_board(ds),
                    !placed ==> ds.len() == attempts && self.cells() == g_start,
                    placed ==> 1 <= ds.len() <= attempts && self.cells() == with_ship(
                        g_start,
                        ds.last().1 as int,
                        ds.last().2 as int,
                        len as int,
                        ds.last().0,
                    ) && placement_ok(g_start, ds.last().1 as int, ds.last().2 as int, len as int, ds.last().0),
                    forall|k: int|
                        0 <= k < (if placed { ds.len() - 1 } else { ds.len() as int }) ==> !placement_ok(
                            g_start,
                            (#[trigger] ds[k]).1 as int,
                            ds[k].2 as int,
                            len as int,
                            ds[k].0,
                        ),
                decreases ATTEMPTS_PER_SHIP - attempts,
            {
                let horizontal = gen_range(0, 2) == 0;
                let r = gen_range(0, BOARD_SIZE);
                let c = gen_range(0, BOARD_SIZE);
                let ghost before = self.cells();
                proof {
                    ds = ds.push((horizontal, r, c));
                }
                if self.try_place_ship(r, c, len, horizontal) {
                    proof {
                        let p: Placement = (r as int, c as int, len as int, horizontal);
                        if fleet_apart(g0) {
                            lemma_placement_keeps_lines_apart(before, true, p.0, p.1, p.2, p.3);
                        }
                        if ships_apart(g0) {
                            lemma_placement_keeps_lines_apart(before, false, p.0, p.1, p.2, p.3);
                        }
                        ps = ps.push(p);
                        assert(ps.drop_last() == ps_before);
                        self.lemma_cells_sized();
                    }
                    placed = true;
                }
                attempts += 1;
            }
            proof {
                if placed {
                    lemma_ship_placed(g_start, len as int, ds, ATTEMPTS_PER_SHIP as nat);
                } else {
                    lemma_ship_refused(g_start, len as int, ds, ATTEMPTS_PER_SHIP as nat);
                }
                lemma_fleet_extend(g0, ships@.take(s as int), draws, ds);
                let ships2 = ships@.take(s as int + 1);
                assert(ships2.drop_last() == ships@.take(s as int));
                assert(ships2.last() == len);
                assert((draws + ds).skip(draws.len() as int) == ds);
                draws = draws + ds;
                let f = fleet_prefix(s as int + 1);
                assert(f.drop_last() == fleet_prefix(s as int));
                assert(f.last() == len as int);
                if placed {
                    assert(placed_lengths(ps).drop_last() == placed_lengths(ps_before));
                    assert(placed_lengths(ps).last() == len as int);
                } else if placed_lengths(ps).len() > 0 {
                    assert(is_subsequence(placed_lengths(ps), f));
                }
            }
            s += 1;
        }
        proof {
            assert(fleet_prefix(10) == fleet_prefix(s as int));
            assert(ships@.take(s as int) == fleet_lengths());
            assert(fleet_from_draws(g0, fleet_lengths(), draws) == Some(self.cells()));
        }
    }
}

} // verus!