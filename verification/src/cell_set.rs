//! The sparse set of live cells.

use std::collections::HashSet;
use vstd::prelude::*;
use vstd::std_specs::hash::*;
use vstd::std_specs::iter::IteratorSpec;
use crate::cell::{Cell, representable, interior, key_of, position_of};
use crate::cell::{lemma_position_of_key, lemma_key_of_position, lemma_key_injective};

verus! {

/// `s` with the membership of `p` flipped.
pub open spec fn toggled(s: Set<(int, int)>, p: (int, int)) -> Set<(int, int)> {
    if s.contains(p) {
        s.remove(p)
    } else {
        s.insert(p)
    }
}

/// Flipping a cell twice gives back the set as it was.
pub proof fn lemma_toggle_twice(s: Set<(int, int)>, p: (int, int))
    ensures
        toggled(toggled(s, p), p) == s,
{
    assert(toggled(toggled(s, p), p) =~= s);
}

/// The positions that `cells` lists.
pub open spec fn positions(cells: Seq<Cell>) -> Set<(int, int)> {
    Set::new(|p: (int, int)| exists|i: int| 0 <= i < cells.len() && #[trigger] cells[i]@ == p)
}

/// Listing one cell more adds its position to those listed.
pub proof fn lemma_positions_take(cells: Seq<Cell>, i: int)
    requires
        0 <= i < cells.len(),
    ensures
        positions(cells.take(i + 1)) == positions(cells.take(i)).insert(cells[i]@),
        cells.no_duplicates() ==> !positions(cells.take(i)).contains(cells[i]@),
{
    let shorter = cells.take(i);
    let longer = cells.take(i + 1);
    assert forall|p: (int, int)| positions(longer).contains(p) implies positions(shorter).insert(
        cells[i]@,
    ).contains(p) by {
        let j = choose|j: int| 0 <= j < longer.len() && #[trigger] longer[j]@ == p;
        if j < i {
            assert(shorter[j]@ == p);
        }
    }
    assert forall|p: (int, int)|
        positions(shorter).insert(cells[i]@).contains(p) implies positions(longer).contains(p) by {
        if p == cells[i]@ {
            assert(longer[i]@ == p);
        } else {
            let j = choose|j: int| 0 <= j < shorter.len() && #[trigger] shorter[j]@ == p;
            assert(longer[j]@ == p);
        }
    }
    assert(positions(longer) =~= positions(shorter).insert(cells[i]@));
    if cells.no_duplicates() && positions(shorter).contains(cells[i]@) {
        let j = choose|j: int| 0 <= j < shorter.len() && #[trigger] shorter[j]@ == cells[i]@;
        assert(cells[j] == cells[i]);
    }
}

/// Listing no cell lists no position; listing all lists them all.
pub proof fn lemma_positions_ends(cells: Seq<Cell>)
    ensures
        positions(cells.take(0)) == Set::<(int, int)>::empty(),
        positions(cells.take(cells.len() as int)) == positions(cells),
{
    assert(positions(cells.take(0)) =~= Set::<(int, int)>::empty());
    assert(cells.take(cells.len() as int) =~= cells);
}

/// A set of cells: a cell is alive where it is in the set and dead where it
/// is not. Only the live cells take up room.
pub struct CellSet {
    keys: HashSet<u64>,
}

impl View for CellSet {
    type V = Set<(int, int)>;

    closed spec fn view(&self) -> Set<(int, int)> {
        Set::new(|p: (int, int)| representable(p) && self.keys@.contains(key_of(p)))
    }
}

impl CellSet {
    /// Every live cell has all eight of its neighbours on the part of the
    /// lattice that a [`Cell`] can name.
    pub open spec fn steppable(&self) -> bool {
        forall|p: (int, int)| self@.contains(p) ==> interior(p)
    }

    /// A set holds finitely many cells, each of them representable.
    pub proof fn lemma_contents(&self)
        ensures
            self@.finite(),
            forall|p: (int, int)| self@.contains(p) ==> representable(p),
    {
        broadcast use group_hash_axioms;
        broadcast use lemma_position_of_key;
        broadcast use lemma_key_of_position;

        let listed = self.keys.iter().remaining().unref();
        assert(listed.to_set() == self.keys@);
        vstd::seq_lib::seq_to_set_is_finite(listed);
        let image = self.keys@.map(|k: u64| position_of(k));
        self.keys@.lemma_map_finite(|k: u64| position_of(k));
        assert forall|p: (int, int)| self@.contains(p) implies image.contains(p) by {
            assert(self.keys@.contains(key_of(p)) && position_of(key_of(p)) == p);
        }
        assert(self@.subset_of(image));
        vstd::set_lib::lemma_len_subset(self@, image);
    }

    /// The empty set.
    pub fn new() -> (cells: CellSet)
        ensures
            cells@ == Set::<(int, int)>::empty(),
    {
        let cells = CellSet { keys: HashSet::new() };
        assert(cells@ =~= Set::<(int, int)>::empty());
        cells
    }

    /// The set of the cells that `cells` lists; a cell listed twice is in it
    /// once.
    pub fn from_cells(cells: &Vec<Cell>) -> (set: CellSet)
        ensures
            set@ == positions(cells@),
    {
        let mut set = CellSet::new();
        let mut i: usize = 0;
        proof {
            lemma_positions_ends(cells@);
        }
        while i < cells.len()
            invariant
                i <= cells@.len(),
                set@ == positions(cells@.take(i as int)),
            decreases cells@.len() - i,
        {
            set.insert(cells[i]);
            proof {
                lemma_positions_take(cells@, i as int);
            }
            i += 1;
        }
        proof {
            lemma_positions_ends(cells@);
        }
        set
    }

    /// Whether `cell` is alive.
    pub fn contains(&self, cell: Cell) -> (alive: bool)
        ensures
            alive == self@.contains(cell@),
    {
        broadcast use group_hash_axioms;

        let key = cell.key();
        self.keys.contains(&key)
    }

    /// Makes `cell` alive. Returns whether it was dead before.
    pub fn insert(&mut self, cell: Cell) -> (added: bool)
        ensures
            final(self)@ == old(self)@.insert(cell@),
            added == !old(self)@.contains(cell@),
    {
        broadcast use group_hash_axioms;
        broadcast use lemma_position_of_key;

        let added = self.keys.insert(cell.key());
        proof {
            assert forall|p: (int, int)| representable(p) && key_of(p) == key_of(cell@) implies p
                == cell@ by {
                lemma_key_injective(p, cell@);
            }
            assert(self@ =~= old(self)@.insert(cell@));
        }
        added
    }

    /// Makes `cell` dead. Returns whether it was alive before.
    pub fn remove(&mut self, cell: Cell) -> (removed: bool)
        ensures
            final(self)@ == old(self)@.remove(cell@),
            removed == old(self)@.contains(cell@),
    {
        broadcast use group_hash_axioms;
        broadcast use lemma_position_of_key;

        let key = cell.key();
        let removed = self.keys.remove(&key);
        proof {
            assert forall|p: (int, int)| representable(p) && key_of(p) == key_of(cell@) implies p
                == cell@ by {
                lemma_key_injective(p, cell@);
            }
            assert(self@ =~= old(self)@.remove(cell@));
        }
        removed
    }

    /// Flips `cell`: a live cell dies, a dead one comes alive.
    pub fn toggle(&mut self, cell: Cell)
        ensures
            final(self)@ == toggled(old(self)@, cell@),
    {
        if self.contains(cell) {
            self.remove(cell);
        } else {
            self.insert(cell);
        }
    }

    /// The live cells, each once, in no particular order.
    pub fn cells(&self) -> (cells: Vec<Cell>)
        ensures
            cells@.no_duplicates(),
            positions(cells@) == self@,
    {
        broadcast use lemma_position_of_key;
        broadcast use lemma_key_of_position;

        let mut cells: Vec<Cell> = Vec::new();
        let ghost keys = self.keys.iter().remaining();
        proof {
            broadcast use group_hash_axioms;

            assert(keys.unref().to_set() == self.keys@);
            assert(keys.no_duplicates());
        }
        for key in it: self.keys.iter()
            invariant
                it.seq() == keys,
                cells@.len() == it.index(),
                forall|j: int| 0 <= j < cells@.len() ==> (#[trigger] cells@[j])@ == position_of(*keys[j]),
        {
            cells.push(Cell::from_key(*key));
        }
        proof {
            assert forall|i: int, j: int| 0 <= i < j < cells@.len() implies cells@[i] != cells@[j] by {
                assert(keys[i] != keys[j]);
                assert(key_of(cells@[i]@) == *keys[i]);
                assert(key_of(cells@[j]@) == *keys[j]);
            }
            assert forall|p: (int, int)| self@.contains(p) implies positions(cells@).contains(p) by {
                assert(keys.unref().to_set().contains(key_of(p)));
                let j = choose|j: int| 0 <= j < keys.unref().len() && keys.unref()[j] == key_of(p);
                assert(cells@[j]@ == p);
            }
            assert forall|p: (int, int)| positions(cells@).contains(p) implies self@.contains(p) by {
                let j = choose|j: int| 0 <= j < cells@.len() && #[trigger] cells@[j]@ == p;
                assert(keys.unref()[j] == *keys[j]);
                assert(keys.unref().to_set().contains(*keys[j]));
                assert(key_of(p) == *keys[j]);
            }
            assert(positions(cells@) =~= self@);
        }
        cells
    }

    /// Whether every live cell has all its neighbours in reach, so that the
    /// set can be stepped.
    pub fn can_step(&self) -> (ok: bool)
        ensures
            ok == self.steppable(),
    {
        let cells = self.cells();
        let mut i: usize = 0;
        while i < cells.len()
            invariant
                i <= cells@.len(),
                positions(cells@) == self@,
                forall|j: int| 0 <= j < i ==> interior(#[trigger] cells@[j]@),
            decreases cells@.len() - i,
        {
            let c = cells[i];
            if c.0 == i32::MIN || c.0 == i32::MAX || c.1 == i32::MIN || c.1 == i32::MAX {
                assert(cells@[i as int]@ == c@);
                assert(positions(cells@).contains(c@));
                assert(self@.contains(c@) && !interior(c@));
                return false;
            }
            i += 1;
        }
        proof {
            assert forall|p: (int, int)| self@.contains(p) implies interior(p) by {
                assert(positions(cells@).contains(p));
                let j = choose|j: int| 0 <= j < cells@.len() && #[trigger] cells@[j]@ == p;
            }
        }
        true
    }
}

} // verus!
