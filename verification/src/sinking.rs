use vstd::prelude::*;
use vstd::set_lib::{lemma_int_range, lemma_len_subset, lemma_map_size_bound, set_int_range};
use crate::board::{in_board, set_cell, sized, Board};
use crate::constants::BOARD_SIZE;
use crate::game_state::Field;

verus! {

/// Whether two cells share a side.
pub open spec fn adjacent(a: (int, int), b: (int, int)) -> bool {
    ||| a.0 == b.0 && (a.1 == b.1 + 1 || a.1 + 1 == b.1)
    ||| a.1 == b.1 && (a.0 == b.0 + 1 || a.0 + 1 == b.0)
}

/// A step of a search through hit cells: `q` shares a side with `p`, lies on
/// the board and shows a hit.
pub open spec fn hit_step(g: Seq<Seq<Field>>, p: (int, int), q: (int, int)) -> bool {
    &&& adjacent(p, q)
    &&& in_board(q.0, q.1)
    &&& g[q.0][q.1] == Field::Hit
}

/// A walk from `start` that moves, one side at a time, over hit cells only.
pub open spec fn is_hit_path(g: Seq<Seq<Field>>, start: (int, int), path: Seq<(int, int)>) -> bool {
    &&& path.len() >= 1
    &&& path[0] == start
    &&& forall|k: int| 1 <= k < path.len() ==> #[trigger] hit_step(g, path[k - 1], path[k])
}

/// The cells that such a walk from `start` reaches: `start` itself and the
/// hit cells joined to it side by side.  When `start` was just hit, these are
/// the hit parts of its ship.
pub open spec fn in_hit_region(g: Seq<Seq<Field>>, start: (int, int), p: (int, int)) -> bool {
    exists|path: Seq<(int, int)>| #[trigger] is_hit_path(g, start, path) && path.last() == p
}

/// Whether an unhit ship part lies at (`r`, `c`).
pub open spec fn ship_at(g: Seq<Seq<Field>>, r: int, c: int) -> bool {
    in_board(r, c) && g[r][c] == Field::Ship
}

/// The side-neighbours of a cell, in the order they are examined.
pub open spec fn side(p: (int, int), d: int) -> (int, int) {
    if d == 0 {
        (p.0, p.1 + 1)
    } else if d == 1 {
        (p.0, p.1 - 1)
    } else if d == 2 {
        (p.0 + 1, p.1)
    } else {
        (p.0 - 1, p.1)
    }
}

/// Whether an unhit ship part shares a side with `p`.
pub open spec fn touches_ship(g: Seq<Seq<Field>>, p: (int, int)) -> bool {
    exists|d: int| 0 <= d < 4 && #[trigger] ship_at(g, side(p, d).0, side(p, d).1)
}

/// Whether the ship hit at `start` is sunk: no cell of its hit region has an
/// unhit ship part beside it.
pub open spec fn sinks(g: Seq<Seq<Field>>, start: (int, int)) -> bool {
    forall|p: (int, int)| #[trigger] in_hit_region(g, start, p) ==> !touches_ship(g, p)
}

/// Whether (`i`, `j`) lies in the 3x3 square around `p`.
pub open spec fn near(p: (int, int), i: int, j: int) -> bool {
    p.0 - 1 <= i <= p.0 + 1 && p.1 - 1 <= j <= p.1 + 1
}

/// Whether (`i`, `j`) lies in the 3x3 square around some cell of the hit region.
pub open spec fn borders_region(g: Seq<Seq<Field>>, start: (int, int), i: int, j: int) -> bool {
    exists|p: (int, int)| #[trigger] in_hit_region(g, start, p) && near(p, i, j)
}

/// The grid once the ship hit at `start` is marked sunk: its hit region shows
/// `Sunk`, and the water around it shows `Miss`.
pub open spec fn sunk_grid(g: Seq<Seq<Field>>, start: (int, int)) -> Seq<Seq<Field>> {
    Seq::new(
        g.len(),
        |i: int|
            Seq::new(
                g[i].len(),
                |j: int|
                    if in_hit_region(g, start, (i, j)) {
                        Field::Sunk
                    } else if g[i][j] == Field::Water && borders_region(g, start, i, j) {
                        Field::Miss
                    } else {
                        g[i][j]
                    },
            ),
    )
}

/// The grid with every water cell of the 3x3 square around `p` turned to `Miss`.
pub open spec fn water_marked_around(g: Seq<Seq<Field>>, p: (int, int)) -> Seq<Seq<Field>> {
    Seq::new(
        g.len(),
        |i: int|
            Seq::new(
                g[i].len(),
                |j: int|
                    if g[i][j] == Field::Water && near(p, i, j) {
                        Field::Miss
                    } else {
                        g[i][j]
                    },
            ),
    )
}

/// Whether the cell (`i`, `j`) is among the first `k` entries of a list.
pub open spec fn listed(s: Seq<(usize, usize)>, k: int, i: int, j: int) -> bool {
    exists|m: int| 0 <= m < k && #[trigger] s[m].0 as int == i && s[m].1 as int == j
}

/// Whether (`i`, `j`) lies in the 3x3 square around one of the first `k` entries of a list.
pub open spec fn near_listed(s: Seq<(usize, usize)>, k: int, i: int, j: int) -> bool {
    exists|m: int| 0 <= m < k && near((#[trigger] s[m].0 as int, s[m].1 as int), i, j)
}

proof fn lemma_region_start(g: Seq<Seq<Field>>, start: (int, int))
    ensures
        in_hit_region(g, start, start),
{
    let path = seq![start];
    assert(is_hit_path(g, start, path));
}

proof fn lemma_region_step(g: Seq<Seq<Field>>, start: (int, int), p: (int, int), q: (int, int))
    requires
        in_hit_region(g, start, p),
        hit_step(g, p, q),
    ensures
        in_hit_region(g, start, q),
{
    let path = choose|path: Seq<(int, int)>| #[trigger] is_hit_path(g, start, path) && path.last() == p;
    let longer = path.push(q);
    assert forall|k: int| 1 <= k < longer.len() implies #[trigger] hit_step(g, longer[k - 1], longer[k]) by {
        if k < path.len() {
            assert(hit_step(g, path[k - 1], path[k]));
        }
    }
    assert(is_hit_path(g, start, longer));
}

/// A set of cells that holds `start` and is closed under hit steps holds the
/// whole hit region.
proof fn lemma_region_covered(g: Seq<Seq<Field>>, start: (int, int), seen: Set<(int, int)>)
    requires
        seen.contains(start),
        forall|p: (int, int), q: (int, int)| seen.contains(p) && #[trigger] hit_step(g, p, q) ==> seen.contains(q),
    ensures
        forall|p: (int, int)| #[trigger] in_hit_region(g, start, p) ==> seen.contains(p),
{
    assert forall|p: (int, int)| #[trigger] in_hit_region(g, start, p) implies seen.contains(p) by {
        let path = choose|path: Seq<(int, int)>| #[trigger] is_hit_path(g, start, path) && path.last() == p;
        lemma_path_in(g, start, seen, path, path.len() - 1);
    }
}

proof fn lemma_path_in(g: Seq<Seq<Field>>, start: (int, int), seen: Set<(int, int)>, path: Seq<(int, int)>, k: int)
    requires
        seen.contains(start),
        forall|p: (int, int), q: (int, int)| seen.contains(p) && #[trigger] hit_step(g, p, q) ==> seen.contains(q),
        is_hit_path(g, start, path),
        0 <= k < path.len(),
    ensures
        seen.contains(path[k]),
    decreases k,
{
    if k > 0 {
        lemma_path_in(g, start, seen, path, k - 1);
        assert(hit_step(g, path[k - 1], path[k]));
    }
}

/// A set of board cells and one more cell has at most
/// `BOARD_SIZE * BOARD_SIZE + 1` members.
proof fn lemma_board_set_bound(s: Set<(int, int)>, extra: (int, int))
    requires
        forall|p: (int, int)| #[trigger] s.contains(p) ==> in_board(p.0, p.1) || p == extra,
    ensures
        s.finite(),
        s.len() <= BOARD_SIZE * BOARD_SIZE + 1,
{
    let n = (BOARD_SIZE * BOARD_SIZE) as int;
    let x = set_int_range(0, n);
    let f = |k: int| (k / BOARD_SIZE as int, k % BOARD_SIZE as int);
    let y = x.map(f);
    lemma_int_range(0, n);
    lemma_map_size_bound(x, y, f);
    assert forall|p: (int, int)| s.contains(p) implies y.insert(extra).contains(p) by {
        if p != extra {
            let k = p.0 * BOARD_SIZE + p.1;
            assert(x.contains(k));
            assert(f(k) == p);
        }
    }
    lemma_len_subset(s, y.insert(extra));
}

impl Board {
    /// Turns every water cell of the 3x3 square around (`r`, `c`) into `Miss`.
    fn mark_water_around(&mut self, r: usize, c: usize)
        requires
            in_board(r as int, c as int),
        ensures
            final(self).cells() == water_marked_around(old(self).cells(), (r as int, c as int)),
            final(self).potential_targets == old(self).potential_targets,
            final(self).hunt_mode_targets == old(self).hunt_mode_targets,
    {
        let ghost g = self.cells();
        let ghost p = (r as int, c as int);
        proof {
            self.lemma_cells_sized();
        }
        let r = r as i32;
        let c = c as i32;
        let mut dr: i32 = -1;
        while dr <= 1
            invariant
                -1 <= dr <= 2,
                in_board(r as int, c as int),
                p == (r as int, c as int),
                sized(g),
                sized(self.cells()),
                self.potential_targets == old(self).potential_targets,
                self.hunt_mode_targets == old(self).hunt_mode_targets,
                forall|i: int, j: int|
                    in_board(i, j) ==> #[trigger] self.cells()[i][j] == if g[i][j] == Field::Water && near(p, i, j)
                        && i < r + dr {
                        Field::Miss
                    } else {
                        g[i][j]
                    },
            decreases 2 - dr,
        {
            let mut dc: i32 = -1;
            while dc <= 1
                invariant
                    -1 <= dr <= 1,
                    -1 <= dc <= 2,
                    in_board(r as int, c as int),
                    p == (r as int, c as int),
                    sized(g),
                    sized(self.cells()),
                    self.potential_targets == old(self).potential_targets,
                    self.hunt_mode_targets == old(self).hunt_mode_targets,
                    forall|i: int, j: int|
                        in_board(i, j) ==> #[trigger] self.cells()[i][j] == if g[i][j] == Field::Water && near(p, i, j)
                            && (i < r + dr || (i == r + dr && j < c + dc)) {
                            Field::Miss
                        } else {
                            g[i][j]
                        },
                decreases 2 - dc,
            {
                let nr = r + dr;
                let nc = c + dc;
                if nr >= 0 && nr < BOARD_SIZE as i32 && nc >= 0 && nc < BOARD_SIZE as i32 {
                    let nr = nr as usize;
                    let nc = nc as usize;
                    if self.grid[nr][nc] == Field::Water {
                        self.set_field(nr, nc, Field::Miss);
                        proof {
                            self.lemma_cells_sized();
                        }
                    }
                }
                dc += 1;
            }
            dr += 1;
        }
        proof {
            assert(self.cells() =~~= water_marked_around(g, p));
        }
    }
}

impl Board {
    /// Looks at the four side-neighbours of (`r`, `c`) in turn: stops with
    /// `true` at the first unhit ship part, and pushes each hit neighbour on
    /// `stack` on the way.
    fn scan_sides(&self, r: usize, c: usize, stack: &mut Vec<(usize, usize)>) -> (found_ship: bool)
        requires
            r < i32::MAX,
            c < i32::MAX,
        ensures
            found_ship == touches_ship(self.cells(), (r as int, c as int)),
            old(stack)@.len() <= final(stack)@.len() <= old(stack)@.len() + 4,
            forall|k: int| 0 <= k < old(stack)@.len() ==> #[trigger] final(stack)@[k] == old(stack)@[k],
            forall|k: int|
                old(stack)@.len() <= k < final(stack)@.len() ==> hit_step(
                    self.cells(),
                    (r as int, c as int),
                    (#[trigger] final(stack)@[k].0 as int, final(stack)@[k].1 as int),
                ),
            !found_ship ==> forall|d: int|
                0 <= d < 4 && #[trigger] hit_step(self.cells(), (r as int, c as int), side((r as int, c as int), d))
                    ==> listed(final(stack)@, final(stack)@.len() as int, side((r as int, c as int), d).0, side((r as int, c as int), d).1),
    {
        let ghost g = self.cells();
        let ghost p = (r as int, c as int);
        let ghost s0 = stack@;
        proof {
            self.lemma_cells_sized();
        }
        let neighbors: [(i32, i32); 4] = [(0, 1), (0, -1), (1, 0), (-1, 0)];
        let mut d: usize = 0;
        let mut found_ship = false;
        while d < 4 && !found_ship
            invariant
                g == self.cells(),
                sized(g),
                p == (r as int, c as int),
                r < i32::MAX,
                c < i32::MAX,
                neighbors@ == seq![(0i32, 1i32), (0i32, -1i32), (1i32, 0i32), (-1i32, 0i32)],
                d <= 4,
                s0.len() <= stack@.len() <= s0.len() + d,
                forall|k: int| 0 <= k < s0.len() ==> #[trigger] stack@[k] == s0[k],
                forall|k: int|
                    s0.len() <= k < stack@.len() ==> hit_step(g, p, (#[trigger] stack@[k].0 as int, stack@[k].1 as int)),
                found_ship ==> 1 <= d && ship_at(g, side(p, d - 1).0, side(p, d - 1).1),
                !found_ship ==> forall|e: int| 0 <= e < d ==> !(#[trigger] ship_at(g, side(p, e).0, side(p, e).1)),
                !found_ship ==> forall|e: int|
                    0 <= e < d && #[trigger] hit_step(g, p, side(p, e)) ==> listed(stack@, stack@.len() as int, side(p, e).0, side(p, e).1),
            decreases 4 - d,
        {
            let (dr, dc) = neighbors[d];
            let nr = r as i32 + dr;
            let nc = c as i32 + dc;
            let ghost q = side(p, d as int);
            assert(q == (nr as int, nc as int));
            if nr >= 0 && nr < BOARD_SIZE as i32 && nc >= 0 && nc < BOARD_SIZE as i32 {
                let nr = nr as usize;
                let nc = nc as usize;
                match self.grid[nr][nc] {
                    Field::Ship => {
                        proof {
                            assert(ship_at(g, side(p, d as int).0, side(p, d as int).1));
                        }
                        found_ship = true;
                    },
                    Field::Hit => {
                        let ghost before = stack@;
                        stack.push((nr, nc));
                        proof {
                            assert(stack@[before.len() as int] == (nr, nc));
                            assert forall|e: int|
                                0 <= e < d && #[trigger] hit_step(g, p, side(p, e)) implies listed(stack@, stack@.len() as int, side(p, e).0, side(p, e).1) by {
                                assert(listed(before, before.len() as int, side(p, e).0, side(p, e).1));
                                let m = choose|m: int| 0 <= m < before.len() && #[trigger] before[m].0 as int == side(p, e).0 && before[m].1 as int == side(p, e).1;
                                assert(stack@[m] == before[m]);
                            }
                            assert(hit_step(g, p, q));
                        }
                    },
                    _ => {},
                }
            }
            d += 1;
        }
        proof {
            if !found_ship {
                assert forall|e: int| 0 <= e < 4 implies !(#[trigger] ship_at(g, side(p, e).0, side(p, e).1)) by {}
            }
        }
        found_ship
    }
}

impl Board {
    /// Walks the hit region of (`start_r`, `start_c`) with a stack, starting
    /// from that cell and moving to hit side-neighbours.  Gives `None` as soon
    /// as a region cell has an unhit ship part beside it, and otherwise the
    /// list of the region's cells.
    fn collect_hit_region(&self, start_r: usize, start_c: usize) -> (parts: Option<Vec<(usize, usize)>>)
        requires
            start_r < i32::MAX,
            start_c < i32::MAX,
        ensures
            parts is None <==> !sinks(self.cells(), (start_r as int, start_c as int)),
            parts matches Some(v) ==> {
                &&& forall|m: int|
                    0 <= m < v@.len() ==> in_board(#[trigger] v@[m].0 as int, v@[m].1 as int) || v@[m] == (
                        start_r,
                        start_c,
                    )
                &&& forall|i: int, j: int|
                    in_board(i, j) ==> (listed(v@, v@.len() as int, i, j) <==> #[trigger] in_hit_region(
                        self.cells(),
                        (start_r as int, start_c as int),
                        (i, j),
                    ))
            },
    {
        let ghost g = self.cells();
        let ghost start = (start_r as int, start_c as int);
        proof {
            self.lemma_cells_sized();
            lemma_region_start(g, start);
        }
        let mut ship_parts: Vec<(usize, usize)> = Vec::new();
        let mut stack: Vec<(usize, usize)> = vec![(start_r, start_c)];
        let mut visited = [[false; BOARD_SIZE]; BOARD_SIZE];
        let ghost mut seen: Set<(int, int)> = Set::empty();
        proof {
            assert(stack@[0] == (start_r, start_c));
            lemma_board_set_bound(seen, start);
        }

        while stack.len() > 0
            invariant
                self.cells() == g,
                sized(g),
                start == (start_r as int, start_c as int),
                start_r < i32::MAX,
                start_c < i32::MAX,
                seen.finite(),
                seen.len() <= BOARD_SIZE * BOARD_SIZE + 1,
                forall|i: int, j: int| in_board(i, j) ==> (#[trigger] visited@[i]@[j] <==> seen.contains((i, j))),
                forall|p: (int, int)|
                    #[trigger] seen.contains(p) ==> (in_board(p.0, p.1) || p == start) && in_hit_region(g, start, p)
                        && !touches_ship(g, p),
                forall|k: int|
                    0 <= k < stack@.len() ==> (in_board(#[trigger] stack@[k].0 as int, stack@[k].1 as int) || (k == 0
                    && stack@[k] == (start_r, start_c) && !seen.contains(start))) && in_hit_region(
                        g,
                        start,
                        (stack@[k].0 as int, stack@[k].1 as int),
                    ),
                forall|p: (int, int), q: (int, int)|
                    seen.contains(p) && #[trigger] hit_step(g, p, q) ==> seen.contains(q) || listed(
                        stack@,
                        stack@.len() as int,
                        q.0,
                        q.1,
                    ),
                seen.contains(start) || listed(stack@, stack@.len() as int, start.0, start.1),
                forall|k: int|
                    0 <= k < ship_parts@.len() ==> seen.contains((#[trigger] ship_parts@[k].0 as int, ship_parts@[k].1 as int)),
                forall|p: (int, int)| #[trigger] seen.contains(p) ==> listed(ship_parts@, ship_parts@.len() as int, p.0, p.1),
            decreases (BOARD_SIZE * BOARD_SIZE + 1 - seen.len()) * 5 + stack@.len(),
        {
            let ghost before = stack@;
            let (r, c) = stack.pop().unwrap();
            let ghost cur = (r as int, c as int);
            proof {
                assert(before.last() == (r, c));
                assert(stack@ == before.drop_last());
                assert forall|q: (int, int)|
                    listed(before, before.len() as int, q.0, q.1) && q != cur implies listed(stack@, stack@.len() as int, q.0, q.1) by {
                    let m = choose|m: int| 0 <= m < before.len() && #[trigger] before[m].0 as int == q.0 && before[m].1 as int == q.1;
                    assert(m != before.len() - 1);
                    assert(stack@[m] == before[m]);
                }
                assert(((in_board(cur.0, cur.1) || (before.len() == 1 && (r, c) == (start_r, start_c) && !seen.contains(start)))) && in_hit_region(g, start, cur)) by {
                    assert(before[before.len() - 1] == (r, c));
                }
            }
            if r < BOARD_SIZE && c < BOARD_SIZE {
                if visited[r][c] {
                    proof {
                        assert forall|k: int| 0 <= k < stack@.len() implies (in_board(#[trigger] stack@[k].0 as int, stack@[k].1 as int) || (k == 0
                            && stack@[k] == (start_r, start_c) && !seen.contains(start))) && in_hit_region(
                                g,
                                start,
                                (stack@[k].0 as int, stack@[k].1 as int),
                            ) by {
                            assert(stack@[k] == before[k]);
                        }
                    }
                    continue;
                }
                visited[r][c] = true;
            }
            proof {
                assert(!seen.contains(cur));
                seen = seen.insert(cur);
                lemma_board_set_bound(seen, start);
            }
            let ghost parts_before = ship_parts@;
            ship_parts.push((r, c));
            proof {
                assert(ship_parts@[parts_before.len() as int] == (r, c));
                assert forall|k: int| 0 <= k < ship_parts@.len() implies seen.contains((#[trigger] ship_parts@[k].0 as int, ship_parts@[k].1 as int)) by {
                    if k < parts_before.len() {
                        assert(ship_parts@[k] == parts_before[k]);
                    }
                }
                assert forall|p: (int, int)| #[trigger] seen.contains(p) implies listed(ship_parts@, ship_parts@.len() as int, p.0, p.1) by {
                    if p != cur {
                        assert(listed(parts_before, parts_before.len() as int, p.0, p.1));
                        let m = choose|m: int| 0 <= m < parts_before.len() && #[trigger] parts_before[m].0 as int == p.0 && parts_before[m].1 as int == p.1;
                        assert(ship_parts@[m] == parts_before[m]);
                    }
                }
            }
            let ghost popped = stack@;
            let found_ship = self.scan_sides(r, c, &mut stack);
            if found_ship {
                proof {
                    assert(in_hit_region(g, start, cur));
                    assert(!sinks(g, start));
                }
                return None;
            }
            proof {
                assert forall|q: (int, int)|
                    listed(popped, popped.len() as int, q.0, q.1) implies listed(stack@, stack@.len() as int, q.0, q.1) by {
                    let m = choose|m: int| 0 <= m < popped.len() && #[trigger] popped[m].0 as int == q.0 && popped[m].1 as int == q.1;
                    assert(stack@[m] == popped[m]);
                }
                assert forall|k: int| 0 <= k < stack@.len() implies (in_board(#[trigger] stack@[k].0 as int, stack@[k].1 as int) || (k == 0
                    && stack@[k] == (start_r, start_c) && !seen.contains(start))) && in_hit_region(
                        g,
                        start,
                        (stack@[k].0 as int, stack@[k].1 as int),
                    ) by {
                    if k < popped.len() {
                        assert(stack@[k] == popped[k]);
                        assert(stack@[k] == before[k]);
                        if !in_board(stack@[k].0 as int, stack@[k].1 as int) {
                            assert(k == 0 && stack@[k] == (start_r, start_c));
                            if !in_board(cur.0, cur.1) {
                                assert(before.len() - 1 == 0);
                            }
                        }
                    } else {
                        lemma_region_step(g, start, cur, (stack@[k].0 as int, stack@[k].1 as int));
                    }
                }
                assert forall|p: (int, int), q: (int, int)|
                    seen.contains(p) && #[trigger] hit_step(g, p, q) implies seen.contains(q) || listed(
                        stack@,
                        stack@.len() as int,
                        q.0,
                        q.1,
                    ) by {
                    if p == cur {
                        let d = if q == side(cur, 0) { 0int } else if q == side(cur, 1) { 1int } else if q == side(cur, 2) { 2int } else { 3int };
                        assert(q == side(cur, d));
                        assert(hit_step(g, cur, side(cur, d)));
                    }
                }
                assert(!touches_ship(g, cur));
            }
        }
        proof {
            assert forall|p: (int, int), q: (int, int)| seen.contains(p) && #[trigger] hit_step(g, p, q) implies seen.contains(q) by {
                if !seen.contains(q) {
                    assert(listed(stack@, stack@.len() as int, q.0, q.1));
                }
            }
            if !seen.contains(start) {
                assert(listed(stack@, stack@.len() as int, start.0, start.1));
            }
            lemma_region_covered(g, start, seen);
            assert forall|m: int| 0 <= m < ship_parts@.len() implies in_board(#[trigger] ship_parts@[m].0 as int, ship_parts@[m].1 as int)
                || ship_parts@[m] == (start_r, start_c) by {
                assert(seen.contains((ship_parts@[m].0 as int, ship_parts@[m].1 as int)));
            }
            assert forall|i: int, j: int| in_board(i, j) implies (listed(ship_parts@, ship_parts@.len() as int, i, j) <==> #[trigger] in_hit_region(g, start, (i, j))) by {
                if listed(ship_parts@, ship_parts@.len() as int, i, j) {
                    let m = choose|m: int| 0 <= m < ship_parts@.len() && #[trigger] ship_parts@[m].0 as int == i && ship_parts@[m].1 as int == j;
                    assert(seen.contains((ship_parts@[m].0 as int, ship_parts@[m].1 as int)));
                }
                if in_hit_region(g, start, (i, j)) {
                    assert(seen.contains((i, j)));
                }
            }
        }
        Some(ship_parts)
    }

    /// Marks every listed cell `Sunk`.
    fn mark_parts_sunk(&mut self, parts: &Vec<(usize, usize)>)
        requires
            forall|m: int| 0 <= m < parts@.len() ==> in_board(#[trigger] parts@[m].0 as int, parts@[m].1 as int),
        ensures
            forall|i: int, j: int|
                in_board(i, j) ==> #[trigger] final(self).cells()[i][j] == if listed(parts@, parts@.len() as int, i, j) {
                    Field::Sunk
                } else {
                    old(self).cells()[i][j]
                },
            final(self).potential_targets == old(self).potential_targets,
            final(self).hunt_mode_targets == old(self).hunt_mode_targets,
    {
        let ghost g = self.cells();
        proof {
            self.lemma_cells_sized();
        }
        let n = parts.len();
        let mut k: usize = 0;
        while k < n
            invariant
                n == parts@.len(),
                k <= n,
                sized(g),
                sized(self.cells()),
                self.potential_targets == old(self).potential_targets,
                self.hunt_mode_targets == old(self).hunt_mode_targets,
                forall|m: int| 0 <= m < parts@.len() ==> in_board(#[trigger] parts@[m].0 as int, parts@[m].1 as int),
                forall|i: int, j: int|
                    in_board(i, j) ==> #[trigger] self.cells()[i][j] == if listed(parts@, k as int, i, j) {
                        Field::Sunk
                    } else {
                        g[i][j]
                    },
            decreases n - k,
        {
            let (r, c) = parts[k];
            proof {
                assert(in_board(parts@[k as int].0 as int, parts@[k as int].1 as int));
            }
            self.set_field(r, c, Field::Sunk);
            proof {
                self.lemma_cells_sized();
                assert forall|i: int, j: int| in_board(i, j) implies #[trigger] self.cells()[i][j] == if listed(parts@, k + 1, i, j) {
                        Field::Sunk
                    } else {
                        g[i][j]
                    } by {
                    if i == r && j == c {
                        assert(parts@[k as int] == (r, c));
                    } else if listed(parts@, k + 1, i, j) {
                        let m = choose|m: int| 0 <= m < k + 1 && #[trigger] parts@[m].0 as int == i && parts@[m].1 as int == j;
                        assert(m != k);
                    }
                }
            }
            k += 1;
        }
    }

    /// Turns every water cell in the 3x3 square around a listed cell into `Miss`.
    fn mark_water_around_parts(&mut self, parts: &Vec<(usize, usize)>)
        requires
            forall|m: int| 0 <= m < parts@.len() ==> in_board(#[trigger] parts@[m].0 as int, parts@[m].1 as int),
        ensures
            forall|i: int, j: int|
                in_board(i, j) ==> #[trigger] final(self).cells()[i][j] == if old(self).cells()[i][j] == Field::Water
                    && near_listed(parts@, parts@.len() as int, i, j) {
                    Field::Miss
                } else {
                    old(self).cells()[i][j]
                },
            final(self).potential_targets == old(self).potential_targets,
            final(self).hunt_mode_targets == old(self).hunt_mode_targets,
    {
        let ghost g = self.cells();
        proof {
            self.lemma_cells_sized();
        }
        let n = parts.len();
        let mut k: usize = 0;
        while k < n
            invariant
                n == parts@.len(),
                k <= n,
                sized(g),
                sized(self.cells()),
                self.potential_targets == old(self).potential_targets,
                self.hunt_mode_targets == old(self).hunt_mode_targets,
                forall|m: int| 0 <= m < parts@.len() ==> in_board(#[trigger] parts@[m].0 as int, parts@[m].1 as int),
                forall|i: int, j: int|
                    in_board(i, j) ==> #[trigger] self.cells()[i][j] == if g[i][j] == Field::Water && near_listed(parts@, k as int, i, j) {
                        Field::Miss
                    } else {
                        g[i][j]
                    },
            decreases n - k,
        {
            let (r, c) = parts[k];
            proof {
                assert(in_board(parts@[k as int].0 as int, parts@[k as int].1 as int));
            }
            let ghost mid = self.cells();
            self.mark_water_around(r, c);
            proof {
                self.lemma_cells_sized();
                assert forall|i: int, j: int| in_board(i, j) implies #[trigger] self.cells()[i][j] == if g[i][j] == Field::Water && near_listed(parts@, k + 1, i, j) {
                        Field::Miss
                    } else {
                        g[i][j]
                    } by {
                    assert(self.cells()[i][j] == water_marked_around(mid, (r as int, c as int))[i][j]);
                    if near((r as int, c as int), i, j) {
                        assert(parts@[k as int] == (r, c));
                    }
                    if near_listed(parts@, k + 1, i, j) && !near((r as int, c as int), i, j) {
                        let m = choose|m: int| 0 <= m < k + 1 && near((#[trigger] parts@[m].0 as int, parts@[m].1 as int), i, j);
                        assert(m != k);
                    }
                }
            }
            k += 1;
        }
    }

    /// Called after the cell (`start_r`, `start_c`) was hit.  Gathers the hit
    /// region of that cell (the cell and every hit cell joined to it side by
    /// side).  When an unhit ship part lies beside that region the ship still
    /// floats: nothing changes and the answer is `false`.  Otherwise the
    /// region is marked `Sunk`, every water cell around it becomes `Miss`, and
    /// the answer is `true`.  The start cell may lie off the board only
    /// where the ship still floats, since a sunk one is marked there.
    pub fn check_and_mark_sunk(&mut self, start_r: usize, start_c: usize) -> (sunk: bool)
        requires
            start_r < i32::MAX,
            start_c < i32::MAX,
            in_board(start_r as int, start_c as int) || !sinks(old(self).cells(), (start_r as int, start_c as int)),
        ensures
            sunk == sinks(old(self).cells(), (start_r as int, start_c as int)),
            final(self).cells() == if sunk {
                sunk_grid(old(self).cells(), (start_r as int, start_c as int))
            } else {
                old(self).cells()
            },
            final(self).potential_targets == old(self).potential_targets,
            final(self).hunt_mode_targets == old(self).hunt_mode_targets,
    {
        let ghost g = self.cells();
        let ghost start = (start_r as int, start_c as int);
        let ship_parts = match self.collect_hit_region(start_r, start_c) {
            Some(v) => v,
            None => {
                return false;
            },
        };
        proof {
            assert forall|m: int| 0 <= m < ship_parts@.len() implies in_board(#[trigger] ship_parts@[m].0 as int, ship_parts@[m].1 as int) by {
                if ship_parts@[m] == (start_r, start_c) {
                    assert(in_board(start_r as int, start_c as int));
                }
            }
        }
        self.mark_parts_sunk(&ship_parts);
        self.mark_water_around_parts(&ship_parts);
        proof {
            let parts = ship_parts@;
            let n = parts.len() as int;
            let sg = sunk_grid(g, start);
            self.lemma_cells_sized();
            assert forall|i: int, j: int| in_board(i, j) implies near_listed(parts, n, i, j) == borders_region(g, start, i, j) by {
                if near_listed(parts, n, i, j) {
                    let m = choose|m: int| 0 <= m < n && near((#[trigger] parts[m].0 as int, parts[m].1 as int), i, j);
                    let p = (parts[m].0 as int, parts[m].1 as int);
                    assert(in_board(p.0, p.1));
                    assert(listed(parts, n, p.0, p.1));
                    assert(in_hit_region(g, start, p) && near(p, i, j));
                }
                if borders_region(g, start, i, j) {
                    let p = choose|p: (int, int)| #[trigger] in_hit_region(g, start, p) && near(p, i, j);
                    lemma_region_in_board(g, start, p);
                    assert(listed(parts, n, p.0, p.1));
                    let m = choose|m: int| 0 <= m < n && #[trigger] parts[m].0 as int == p.0 && parts[m].1 as int == p.1;
                    assert(near((parts[m].0 as int, parts[m].1 as int), i, j));
                }
            }
            assert forall|i: int, j: int| 0 <= i < BOARD_SIZE && 0 <= j < BOARD_SIZE implies #[trigger] self.cells()[i][j] == sg[i][j] by {
                assert(in_board(i, j));
                assert(in_hit_region(g, start, (i, j)) == listed(parts, n, i, j));
            }
            assert(self.cells() =~~= sg);
        }
        true
    }
}

/// The hit region of a board cell stays on the board.
proof fn lemma_region_in_board(g: Seq<Seq<Field>>, start: (int, int), p: (int, int))
    requires
        in_board(start.0, start.1),
        in_hit_region(g, start, p),
    ensures
        in_board(p.0, p.1),
{
    let path = choose|path: Seq<(int, int)>| #[trigger] is_hit_path(g, start, path) && path.last() == p;
    if path.len() > 1 {
        let k = path.len() - 1;
        assert(hit_step(g, path[k - 1], path[k]));
    }
}

} // verus!