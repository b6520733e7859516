//! One generation of a birth/survival automaton on the unbounded lattice.

use vstd::prelude::*;
use crate::cell::{Cell, interior, representable};
use crate::cell_set::{CellSet, positions, lemma_positions_take, lemma_positions_ends};
use crate::rules::{Rules, RuleSets, conway_sets};
use crate::tally::{Tally, count_at};

verus! {

/// One where the cell at column `x`, row `y` is alive in `s`, zero where it
/// is dead.
pub open spec fn alive_at(s: Set<(int, int)>, x: int, y: int) -> nat {
    if s.contains((x, y)) {
        1
    } else {
        0
    }
}

/// How many of the eight cells around `p` (its Moore neighbourhood) are alive
/// in `s`.
pub open spec fn live_neighbors(s: Set<(int, int)>, p: (int, int)) -> nat {
    alive_at(s, p.0 - 1, p.1 - 1) + alive_at(s, p.0, p.1 - 1) + alive_at(s, p.0 + 1, p.1 - 1)
        + alive_at(s, p.0 - 1, p.1) + alive_at(s, p.0 + 1, p.1) + alive_at(s, p.0 - 1, p.1 + 1)
        + alive_at(s, p.0, p.1 + 1) + alive_at(s, p.0 + 1, p.1 + 1)
}

/// Whether `p` is alive in the generation after `s`.
///
/// A live cell stays alive where the number of its live neighbours is a
/// survival count. A dead cell comes alive where it has a live neighbour and
/// their number is a birth count: a cell with no live neighbour is never
/// looked at, so it stays dead under every rule.
pub open spec fn next_alive(s: Set<(int, int)>, rules: RuleSets, p: (int, int)) -> bool {
    let n = live_neighbors(s, p);
    if s.contains(p) {
        rules.survival.contains(n)
    } else {
        n > 0 && rules.birth.contains(n)
    }
}

/// The generation after `s` under `rules`. Every count is taken in `s`: no
/// cell sees a change made within the same step.
pub open spec fn next_generation(s: Set<(int, int)>, rules: RuleSets) -> Set<(int, int)> {
    Set::new(|p: (int, int)| next_alive(s, rules, p))
}

/// The next generation depends on nothing but which cells are alive and which
/// counts the rule holds: two sets with the same cells, under two rules with
/// the same counts, have the same next generation.
pub proof fn lemma_step_is_function(
    s1: Set<(int, int)>,
    s2: Set<(int, int)>,
    rules1: RuleSets,
    rules2: RuleSets,
)
    requires
        forall|p: (int, int)| s1.contains(p) == s2.contains(p),
        forall|n: nat| rules1.birth.contains(n) == rules2.birth.contains(n),
        forall|n: nat| rules1.survival.contains(n) == rules2.survival.contains(n),
    ensures
        next_generation(s1, rules1) == next_generation(s2, rules2),
{
    assert(s1 =~= s2);
    assert(rules1.birth =~= rules2.birth);
    assert(rules1.survival =~= rules2.survival);
}

/// Under Conway's rule a cell with exactly three live neighbours is alive in
/// the next generation, whether it was alive or dead, and a cell with no
/// live neighbour or one only is dead in it.
pub proof fn lemma_conway(s: Set<(int, int)>, p: (int, int))
    ensures
        live_neighbors(s, p) == 3 ==> next_generation(s, conway_sets()).contains(p),
        live_neighbors(s, p) <= 1 ==> !next_generation(s, conway_sets()).contains(p),
{
}

/// `s` moved by `dx` columns and `dy` rows.
pub open spec fn shifted(s: Set<(int, int)>, dx: int, dy: int) -> Set<(int, int)> {
    Set::new(|p: (int, int)| s.contains((p.0 - dx, p.1 - dy)))
}

/// The rules know no place: the generation after a set that was moved is the
/// generation after the set, moved the same way.
pub proof fn lemma_step_of_shifted(s: Set<(int, int)>, rules: RuleSets, dx: int, dy: int)
    ensures
        next_generation(shifted(s, dx, dy), rules) == shifted(next_generation(s, rules), dx, dy),
{
    let moved = shifted(s, dx, dy);
    assert forall|p: (int, int)|
        next_generation(moved, rules).contains(p) <==> shifted(
            next_generation(s, rules),
            dx,
            dy,
        ).contains(p) by {
        let q = (p.0 - dx, p.1 - dy);
        assert(live_neighbors(moved, p) == live_neighbors(s, q));
        assert(moved.contains(p) == s.contains(q));
        assert(next_alive(moved, rules, p) == next_alive(s, rules, q));
    }
    assert(next_generation(moved, rules) =~= shifted(next_generation(s, rules), dx, dy));
}

/// The `i`-th neighbour of `p`, for `i` from 0 to 7: row by row from the row
/// above, each row from left to right, `p` itself left out.
pub open spec fn neighbor(p: (int, int), i: int) -> (int, int) {
    let k = if i < 4 {
        i
    } else {
        i + 1
    };
    (p.0 + k % 3 - 1, p.1 + k / 3 - 1)
}

/// `q` is one of the eight cells around `p`.
pub open spec fn adjacent(p: (int, int), q: (int, int)) -> bool {
    &&& p != q
    &&& -1 <= q.0 - p.0 <= 1
    &&& -1 <= q.1 - p.1 <= 1
}

/// The place of `q` among the neighbours of `p`, or 8 where it is none of
/// them.
spec fn neighbor_index(p: (int, int), q: (int, int)) -> int {
    if adjacent(p, q) {
        let k = (q.1 - p.1 + 1) * 3 + (q.0 - p.0 + 1);
        if k < 4 {
            k
        } else {
            k - 1
        }
    } else {
        8
    }
}

/// How many of the first `i` neighbours of `p` are alive in `s`.
spec fn live_among(s: Set<(int, int)>, p: (int, int), i: int) -> nat {
    seen(s, p, 0, i) + seen(s, p, 1, i) + seen(s, p, 2, i) + seen(s, p, 3, i) + seen(s, p, 4, i)
        + seen(s, p, 5, i) + seen(s, p, 6, i) + seen(s, p, 7, i)
}

/// One where the `j`-th neighbour of `p` is among the first `i` and alive in
/// `s`.
spec fn seen(s: Set<(int, int)>, p: (int, int), j: int, i: int) -> nat {
    if j < i && s.contains(neighbor(p, j)) {
        1
    } else {
        0
    }
}

/// Counting over all eight neighbours gives the number of live neighbours.
proof fn lemma_live_among_all(s: Set<(int, int)>, p: (int, int))
    ensures
        live_among(s, p, 8) == live_neighbors(s, p),
        live_among(s, p, 0) == 0,
{
    assert(neighbor(p, 0) == (p.0 - 1, p.1 - 1));
    assert(neighbor(p, 1) == (p.0, p.1 - 1));
    assert(neighbor(p, 2) == (p.0 + 1, p.1 - 1));
    assert(neighbor(p, 3) == (p.0 - 1, p.1));
    assert(neighbor(p, 4) == (p.0 + 1, p.1));
    assert(neighbor(p, 5) == (p.0 - 1, p.1 + 1));
    assert(neighbor(p, 6) == (p.0, p.1 + 1));
    assert(neighbor(p, 7) == (p.0 + 1, p.1 + 1));
}

/// Taking one more neighbour into the count adds one where it is alive.
proof fn lemma_live_among_next(s: Set<(int, int)>, p: (int, int), i: int)
    requires
        0 <= i < 8,
    ensures
        live_among(s, p, i + 1) == live_among(s, p, i) + if s.contains(neighbor(p, i)) {
            1nat
        } else {
            0
        },
{
}

/// The neighbours of a cell are adjacent to it, each in its own place.
proof fn lemma_neighbor_index(p: (int, int), i: int)
    requires
        0 <= i < 8,
    ensures
        adjacent(p, neighbor(p, i)),
        neighbor_index(p, neighbor(p, i)) == i,
{
}

/// A cell adjacent to `p` is the neighbour of `p` at its index.
proof fn lemma_adjacent_is_neighbor(p: (int, int), q: (int, int))
    requires
        adjacent(p, q),
    ensures
        0 <= neighbor_index(p, q) < 8,
        neighbor(p, neighbor_index(p, q)) == q,
{
}

/// A cell born alive adds one to the count of each cell around it, and
/// nothing elsewhere.
pub proof fn lemma_live_neighbors_insert(s: Set<(int, int)>, c: (int, int), q: (int, int))
    requires
        !s.contains(c),
    ensures
        live_neighbors(s.insert(c), q) == live_neighbors(s, q) + if adjacent(c, q) {
            1nat
        } else {
            0
        },
{
}

/// A cell has at most eight live neighbours, and has one only where a live
/// cell is adjacent to it.
pub proof fn lemma_live_neighbors_bounds(s: Set<(int, int)>, q: (int, int))
    ensures
        live_neighbors(s, q) <= 8,
        live_neighbors(s, q) > 0 <==> exists|c: (int, int)| s.contains(c) && adjacent(c, q),
{
    if live_neighbors(s, q) > 0 {
        let c = if s.contains((q.0 - 1, q.1 - 1)) {
            (q.0 - 1, q.1 - 1)
        } else if s.contains((q.0, q.1 - 1)) {
            (q.0, q.1 - 1)
        } else if s.contains((q.0 + 1, q.1 - 1)) {
            (q.0 + 1, q.1 - 1)
        } else if s.contains((q.0 - 1, q.1)) {
            (q.0 - 1, q.1)
        } else if s.contains((q.0 + 1, q.1)) {
            (q.0 + 1, q.1)
        } else if s.contains((q.0 - 1, q.1 + 1)) {
            (q.0 - 1, q.1 + 1)
        } else if s.contains((q.0, q.1 + 1)) {
            (q.0, q.1 + 1)
        } else {
            (q.0 + 1, q.1 + 1)
        };
        assert(s.contains(c) && adjacent(c, q));
    }
    if exists|c: (int, int)| s.contains(c) && adjacent(c, q) {
        let c = choose|c: (int, int)| s.contains(c) && adjacent(c, q);
        assert(c.0 == q.0 - 1 || c.0 == q.0 || c.0 == q.0 + 1);
        assert(c.1 == q.1 - 1 || c.1 == q.1 || c.1 == q.1 + 1);
        assert(c == (c.0, c.1));
    }
}

/// The eight cells around `cell`: row by row from the row above, each row
/// from left to right.
pub fn get_neighbors(cell: Cell) -> (neighbors: Vec<Cell>)
    requires
        interior(cell@),
    ensures
        neighbors@.len() == 8,
        forall|i: int| 0 <= i < 8 ==> (#[trigger] neighbors@[i])@ == neighbor(cell@, i),
{
    let mut neighbors: Vec<Cell> = Vec::new();
    let mut dy: i32 = -1;
    while dy <= 1
        invariant
            -1 <= dy <= 2,
            interior(cell@),
            neighbors@.len() == if dy <= 0 {
                (dy + 1) * 3
            } else {
                (dy + 1) * 3 - 1
            },
            forall|i: int|
                0 <= i < neighbors@.len() ==> (#[trigger] neighbors@[i])@ == neighbor(cell@, i),
        decreases 2 - dy,
    {
        let mut dx: i32 = -1;
        while dx <= 1
            invariant
                -1 <= dx <= 2,
                -1 <= dy <= 1,
                interior(cell@),
                neighbors@.len() == (dy + 1) * 3 + (dx + 1) - if dy > 0 || (dy == 0 && dx > 0) {
                    1int
                } else {
                    0
                },
                forall|i: int|
                    0 <= i < neighbors@.len() ==> (#[trigger] neighbors@[i])@ == neighbor(
                        cell@,
                        i,
                    ),
            decreases 2 - dx,
        {
            if dx != 0 || dy != 0 {
                neighbors.push(Cell(cell.0 + dx, cell.1 + dy));
            }
            dx += 1;
        }
        dy += 1;
    }
    neighbors
}

/// The `i`-th neighbour of `cell`, for `i` from 0 to 7, or `None` where a
/// [`Cell`] cannot name it. There is no neighbour for any other `i`.
pub fn neighbor_of(cell: Cell, i: usize) -> (n: Option<Cell>)
    ensures
        match n {
            Some(c) => i < 8 && c@ == neighbor(cell@, i as int),
            None => i >= 8 || !representable(neighbor(cell@, i as int)),
        },
{
    if i >= 8 {
        return None;
    }
    let k: i64 = if i < 4 {
        i as i64
    } else {
        i as i64 + 1
    };
    let x: i64 = cell.0 as i64 + k % 3 - 1;
    let y: i64 = cell.1 as i64 + k / 3 - 1;
    if x < i32::MIN as i64 || x > i32::MAX as i64 || y < i32::MIN as i64 || y > i32::MAX as i64 {
        None
    } else {
        Some(Cell(x as i32, y as i32))
    }
}

/// How many of the eight cells around `cell` are alive in `alive`, found by
/// looking each of them up.
pub fn count_live_neighbors(alive: &CellSet, cell: Cell) -> (n: usize)
    ensures
        n == live_neighbors(alive@, cell@),
{
    let mut n: usize = 0;
    let mut i: usize = 0;
    proof {
        lemma_live_among_all(alive@, cell@);
        alive.lemma_contents();
    }
    while i < 8
        invariant
            i <= 8,
            forall|p: (int, int)| alive@.contains(p) ==> representable(p),
            n == live_among(alive@, cell@, i as int),
            n <= i,
        decreases 8 - i,
    {
        proof {
            lemma_live_among_next(alive@, cell@, i as int);
        }
        match neighbor_of(cell, i) {
            Some(c) => {
                if alive.contains(c) {
                    n += 1;
                }
            },
            None => {},
        }
        i += 1;
    }
    n
}

/// For every cell with a live neighbour in `alive`, the number of its live
/// neighbours, found by letting each live cell count once for each of the
/// eight cells around it.
pub fn tally_neighbors(alive: &CellSet) -> (tally: Tally)
    requires
        alive.steppable(),
    ensures
        forall|q: (int, int)| #[trigger] count_at(tally@, q) == live_neighbors(alive@, q),
        forall|q: (int, int)| #[trigger] tally@.contains_key(q) <==> live_neighbors(alive@, q) > 0,
{
    let cells = alive.cells();
    let mut tally = Tally::new();
    let mut i: usize = 0;
    proof {
        lemma_positions_ends(cells@);
    }
    while i < cells.len()
        invariant
            i <= cells@.len(),
            cells@.no_duplicates(),
            positions(cells@) == alive@,
            alive.steppable(),
            forall|q: (int, int)| #[trigger]
                count_at(tally@, q) == live_neighbors(positions(cells@.take(i as int)), q),
            forall|q: (int, int)| #[trigger] tally@.contains_key(q) ==> tally@[q] > 0,
        decreases cells@.len() - i,
    {
        let cell = cells[i];
        let ghost done = positions(cells@.take(i as int));
        proof {
            lemma_positions_take(cells@, i as int);
            assert(positions(cells@).contains(cell@));
        }
        let neighbors = get_neighbors(cell);
        let mut j: usize = 0;
        while j < 8
            invariant
                j <= 8,
                neighbors@.len() == 8,
                forall|k: int| 0 <= k < 8 ==> (#[trigger] neighbors@[k])@ == neighbor(cell@, k),
                forall|q: (int, int)| #[trigger]
                    count_at(tally@, q) == live_neighbors(done, q) + if neighbor_index(cell@, q)
                        < j {
                        1nat
                    } else {
                        0
                    },
                forall|q: (int, int)| #[trigger] tally@.contains_key(q) ==> tally@[q] > 0,
            decreases 8 - j,
        {
            let target = neighbors[j];
            let ghost before = tally@;
            proof {
                lemma_neighbor_index(cell@, j as int);
                lemma_live_neighbors_bounds(done, target@);
                assert(count_at(before, target@) <= 9);
            }
            tally.count(target);
            proof {
                assert forall|q: (int, int)| #[trigger]
                    count_at(tally@, q) == live_neighbors(done, q) + if neighbor_index(cell@, q)
                        < j + 1 {
                        1nat
                    } else {
                        0
                    } by {
                    assert(count_at(before, q) == live_neighbors(done, q) + if neighbor_index(
                        cell@,
                        q,
                    ) < j {
                        1nat
                    } else {
                        0
                    });
                    if q != target@ && neighbor_index(cell@, q) == j {
                        lemma_adjacent_is_neighbor(cell@, q);
                    }
                }
                assert forall|q: (int, int)| #[trigger] tally@.contains_key(q) implies tally@[q]
                    > 0 by {
                    if q != target@ {
                        assert(before.contains_key(q));
                    }
                }
            }
            j += 1;
        }
        proof {
            assert forall|q: (int, int)| #[trigger]
                count_at(tally@, q) == live_neighbors(positions(cells@.take(i + 1)), q) by {
                lemma_live_neighbors_insert(done, cell@, q);
                if adjacent(cell@, q) {
                    lemma_adjacent_is_neighbor(cell@, q);
                }
            }
        }
        i += 1;
    }
    proof {
        lemma_positions_ends(cells@);
        assert forall|q: (int, int)| #[trigger]
            tally@.contains_key(q) <==> live_neighbors(alive@, q) > 0 by {
            assert(count_at(tally@, q) == live_neighbors(alive@, q));
        }
    }
    tally
}

/// The cells of `among` that are alive in the generation after `s`.
spec fn decided(s: Set<(int, int)>, rules: RuleSets, among: Set<(int, int)>) -> Set<
    (int, int),
> {
    Set::new(|q: (int, int)| among.contains(q) && next_alive(s, rules, q))
}

/// The cells of `among` that have no live neighbour in `s`.
spec fn lonely(s: Set<(int, int)>, among: Set<(int, int)>) -> Set<(int, int)> {
    Set::new(|q: (int, int)| among.contains(q) && live_neighbors(s, q) == 0)
}

/// The generation after `alive` under `rules`, by tallying: the live cells
/// hand out their counts first, and each cell that was counted is then
/// decided by its count. Live cells that no one counted have no live
/// neighbour and are decided last.
pub fn step_tallying(alive: &CellSet, rules: &Rules) -> (next: CellSet)
    requires
        alive.steppable(),
    ensures
        next@ == next_generation(alive@, rules@),
{
    let tally = tally_neighbors(alive);
    let entries = tally.entries();
    let mut next = CellSet::new();
    let ghost sets = rules@;
    let ghost counted = Seq::new(entries@.len(), |k: int| entries@[k].0);
    let mut i: usize = 0;
    proof {
        lemma_positions_ends(counted);
        assert(next@ =~= decided(alive@, sets, positions(counted.take(0))));
    }
    while i < entries.len()
        invariant
            i <= entries@.len(),
            sets == rules@,
            counted == Seq::new(entries@.len(), |k: int| entries@[k].0),
            forall|k: int|
                0 <= k < entries@.len() ==> tally@.contains_key((#[trigger] entries@[k]).0@)
                    && tally@[entries@[k].0@] == entries@[k].1,
            forall|q: (int, int)| #[trigger] count_at(tally@, q) == live_neighbors(alive@, q),
            forall|q: (int, int)| #[trigger]
                tally@.contains_key(q) <==> live_neighbors(alive@, q) > 0,
            next@ == decided(alive@, sets, positions(counted.take(i as int))),
        decreases entries@.len() - i,
    {
        let (cell, n) = entries[i];
        proof {
            assert(tally@.contains_key(entries@[i as int].0@));
            assert(count_at(tally@, cell@) == live_neighbors(alive@, cell@));
            lemma_positions_take(counted, i as int);
        }
        let lives = if alive.contains(cell) {
            rules.survives(n)
        } else {
            rules.births(n)
        };
        if lives {
            next.insert(cell);
        }
        proof {
            assert(n == live_neighbors(alive@, cell@));
            assert(lives == next_alive(alive@, sets, cell@));
            assert(next@ =~= decided(alive@, sets, positions(counted.take(i + 1))));
        }
        i += 1;
    }
    proof {
        lemma_positions_ends(counted);
        assert forall|q: (int, int)| tally@.contains_key(q) implies positions(counted).contains(
            q,
        ) by {
            let k = choose|k: int| 0 <= k < entries@.len() && (#[trigger] entries@[k]).0@ == q;
            assert(counted[k]@ == q);
        }
    }
    if rules.survives(0) {
        let cells = alive.cells();
        let ghost crowded = next@;
        let mut j: usize = 0;
        proof {
            lemma_positions_ends(cells@);
            assert(next@ =~= crowded + lonely(alive@, positions(cells@.take(0))));
        }
        while j < cells.len()
            invariant
                j <= cells@.len(),
                forall|q: (int, int)| #[trigger] count_at(tally@, q) == live_neighbors(alive@, q),
                next@ == crowded + lonely(alive@, positions(cells@.take(j as int))),
            decreases cells@.len() - j,
        {
            let cell = cells[j];
            proof {
                assert(count_at(tally@, cell@) == live_neighbors(alive@, cell@));
                lemma_positions_take(cells@, j as int);
            }
            if tally.get(cell) == 0 {
                next.insert(cell);
            }
            assert(next@ =~= crowded + lonely(alive@, positions(cells@.take(j + 1))));
            j += 1;
        }
        proof {
            lemma_positions_ends(cells@);
        }
    }
    proof {
        assert forall|q: (int, int)|
            next@.contains(q) <==> next_alive(alive@, sets, q) by {
            assert(count_at(tally@, q) == live_neighbors(alive@, q));
            if positions(counted).contains(q) {
                let k = choose|k: int| 0 <= k < counted.len() && #[trigger] counted[k]@ == q;
                assert(tally@.contains_key(entries@[k].0@));
            }
        }
        assert(next@ =~= next_generation(alive@, sets));
    }
    next
}

/// The frontier of `s`: the cells that have a live neighbour in `s`.
spec fn frontier(s: Set<(int, int)>) -> Set<(int, int)> {
    Set::new(|q: (int, int)| live_neighbors(s, q) > 0)
}

/// The eight cells around `p`.
spec fn surroundings(p: (int, int)) -> Set<(int, int)> {
    Set::new(|q: (int, int)| adjacent(p, q))
}

/// A cell born alive adds the cells around it to the frontier.
proof fn lemma_frontier_insert(s: Set<(int, int)>, c: (int, int))
    requires
        !s.contains(c),
    ensures
        frontier(s.insert(c)) == frontier(s) + surroundings(c),
{
    assert forall|q: (int, int)|
        frontier(s.insert(c)).contains(q) <==> (frontier(s) + surroundings(c)).contains(q) by {
        lemma_live_neighbors_insert(s, c, q);
    }
    assert(frontier(s.insert(c)) =~= frontier(s) + surroundings(c));
}

/// The next generation is made of the live cells that survive and the dead
/// cells of the frontier that are born.
proof fn lemma_generation_parts(s: Set<(int, int)>, rules: RuleSets)
    ensures
        next_generation(s, rules) == decided(s, rules, s) + decided(
            s,
            rules,
            frontier(s).difference(s),
        ),
{
    assert(next_generation(s, rules) =~= decided(s, rules, s) + decided(
        s,
        rules,
        frontier(s).difference(s),
    ));
}

/// Puts the eight cells around `cell` into `touched`.
fn touch_neighbors(touched: &mut CellSet, cell: Cell)
    requires
        interior(cell@),
    ensures
        final(touched)@ == old(touched)@ + surroundings(cell@),
{
    let neighbors = get_neighbors(cell);
    let mut j: usize = 0;
    assert(touched@ =~= old(touched)@ + Set::new(|q: (int, int)| neighbor_index(cell@, q) < 0));
    while j < 8
        invariant
            j <= 8,
            neighbors@.len() == 8,
            forall|k: int| 0 <= k < 8 ==> (#[trigger] neighbors@[k])@ == neighbor(cell@, k),
            touched@ == old(touched)@ + Set::new(|q: (int, int)| neighbor_index(cell@, q) < j),
        decreases 8 - j,
    {
        let target = neighbors[j];
        touched.insert(target);
        proof {
            lemma_neighbor_index(cell@, j as int);
            assert forall|q: (int, int)| neighbor_index(cell@, q) == j implies q == target@ by {
                lemma_adjacent_is_neighbor(cell@, q);
            }
            assert(touched@ =~= old(touched)@ + Set::new(
                |q: (int, int)| neighbor_index(cell@, q) < j + 1,
            ));
        }
        j += 1;
    }
    proof {
        assert forall|q: (int, int)| adjacent(cell@, q) implies neighbor_index(cell@, q) < 8 by {
            lemma_adjacent_is_neighbor(cell@, q);
        }
        assert(touched@ =~= old(touched)@ + surroundings(cell@));
    }
}

/// The live cells of `alive` that survive under `rules`, and the frontier of
/// `alive`.
fn scan_live(alive: &CellSet, rules: &Rules) -> (r: (CellSet, CellSet))
    requires
        alive.steppable(),
    ensures
        r.0@ == decided(alive@, rules@, alive@),
        r.1@ == frontier(alive@),
{
    let cells = alive.cells();
    let mut next = CellSet::new();
    let mut touched = CellSet::new();
    let ghost sets = rules@;
    let mut i: usize = 0;
    proof {
        lemma_positions_ends(cells@);
        assert(next@ =~= decided(alive@, sets, positions(cells@.take(0))));
        assert(touched@ =~= frontier(positions(cells@.take(0))));
    }
    while i < cells.len()
        invariant
            i <= cells@.len(),
            cells@.no_duplicates(),
            positions(cells@) == alive@,
            alive.steppable(),
            sets == rules@,
            next@ == decided(alive@, sets, positions(cells@.take(i as int))),
            touched@ == frontier(positions(cells@.take(i as int))),
        decreases cells@.len() - i,
    {
        let cell = cells[i];
        proof {
            lemma_positions_take(cells@, i as int);
            assert(positions(cells@).contains(cell@));
            lemma_frontier_insert(positions(cells@.take(i as int)), cell@);
        }
        let live_count = count_live_neighbors(alive, cell);
        if rules.survives(live_count) {
            next.insert(cell);
        }
        assert(next@ =~= decided(alive@, sets, positions(cells@.take(i + 1))));
        touch_neighbors(&mut touched, cell);
        i += 1;
    }
    proof {
        lemma_positions_ends(cells@);
    }
    (next, touched)
}

/// The generation after `alive` under `rules`, by scanning: each live cell
/// has its neighbours looked up and is kept where their number lets it
/// survive, and puts the cells around it on the frontier; each dead cell of
/// the frontier then has its neighbours looked up in turn.
pub fn step_scanning(alive: &CellSet, rules: &Rules) -> (next: CellSet)
    requires
        alive.steppable(),
    ensures
        next@ == next_generation(alive@, rules@),
{
    let (mut next, touched) = scan_live(alive, rules);
    let around = touched.cells();
    let ghost sets = rules@;
    let ghost kept = next@;
    let mut k: usize = 0;
    proof {
        lemma_positions_ends(around@);
        assert(next@ =~= kept + decided(
            alive@,
            sets,
            positions(around@.take(0)).difference(alive@),
        ));
    }
    while k < around.len()
        invariant
            k <= around@.len(),
            sets == rules@,
            positions(around@) == frontier(alive@),
            next@ == kept + decided(
                alive@,
                sets,
                positions(around@.take(k as int)).difference(alive@),
            ),
        decreases around@.len() - k,
    {
        let cell = around[k];
        let ghost before = positions(around@.take(k as int));
        proof {
            lemma_positions_take(around@, k as int);
            assert(around@[k as int]@ == cell@);
            assert(positions(around@).contains(cell@));
            assert(live_neighbors(alive@, cell@) > 0);
        }
        if !alive.contains(cell) {
            let live_count = count_live_neighbors(alive, cell);
            if rules.births(live_count) {
                next.insert(cell);
            }
        }
        proof {
            assert(before.insert(cell@).difference(alive@) =~= if alive@.contains(cell@) {
                before.difference(alive@)
            } else {
                before.difference(alive@).insert(cell@)
            });
            assert(next@ =~= kept + decided(
                alive@,
                sets,
                positions(around@.take(k + 1)).difference(alive@),
            ));
        }
        k += 1;
    }
    proof {
        lemma_positions_ends(around@);
        lemma_generation_parts(alive@, sets);
    }
    next
}

} // verus!
