//! Sparse counts by cell: how many times each cell was counted.

use std::collections::HashMap;
use vstd::prelude::*;
use vstd::std_specs::hash::*;
use vstd::std_specs::iter::IteratorSpec;
use crate::cell::{Cell, representable, key_of, position_of};
use crate::cell::{lemma_position_of_key, lemma_key_of_position, lemma_key_injective};

verus! {

/// The count that `counts` holds for `p`: zero where it holds none.
pub open spec fn count_at(counts: Map<(int, int), nat>, p: (int, int)) -> nat {
    if counts.contains_key(p) {
        counts[p]
    } else {
        0
    }
}

/// A count for each cell that was counted at least once. Cells never counted
/// take up no room.
pub struct Tally {
    counts: HashMap<u64, usize>,
}

impl View for Tally {
    type V = Map<(int, int), nat>;

    closed spec fn view(&self) -> Map<(int, int), nat> {
        Map::new(
            |p: (int, int)| representable(p) && self.counts@.contains_key(key_of(p)),
            |p: (int, int)| self.counts@[key_of(p)] as nat,
        )
    }
}

impl Tally {
    /// The tally in which nothing was counted yet.
    pub fn new() -> (tally: Tally)
        ensures
            tally@ == Map::<(int, int), nat>::empty(),
    {
        let tally = Tally { counts: HashMap::new() };
        assert(tally@ =~= Map::<(int, int), nat>::empty());
        tally
    }

    /// Counts `cell` once more.
    pub fn count(&mut self, cell: Cell)
        requires
            count_at(old(self)@, cell@) < usize::MAX,
        ensures
            final(self)@ == old(self)@.insert(cell@, count_at(old(self)@, cell@) + 1),
    {
        broadcast use group_hash_axioms;
        broadcast use lemma_position_of_key;

        let key = cell.key();
        let ghost before = self.counts@;
        let slot = self.counts.entry(key).or_insert(0);
        *slot += 1;
        proof {
            assert forall|p: (int, int)| representable(p) && key_of(p) == key_of(cell@) implies p
                == cell@ by {
                lemma_key_injective(p, cell@);
            }
            assert(self@ =~= old(self)@.insert(cell@, count_at(old(self)@, cell@) + 1));
        }
    }

    /// How many times `cell` was counted.
    pub fn get(&self, cell: Cell) -> (n: usize)
        ensures
            n == count_at(self@, cell@),
    {
        broadcast use group_hash_axioms;

        let key = cell.key();
        match self.counts.get(&key) {
            Some(n) => *n,
            None => 0,
        }
    }

    /// The cells that were counted, each once with its count, in no
    /// particular order.
    pub fn entries(&self) -> (entries: Vec<(Cell, usize)>)
        ensures
            forall|i: int, j: int|
                0 <= i < j < entries@.len() ==> (#[trigger] entries@[i]).0 != (
                #[trigger] entries@[j]).0,
            forall|i: int|
                0 <= i < entries@.len() ==> self@.contains_key((#[trigger] entries@[i]).0@)
                    && self@[entries@[i].0@] == entries@[i].1,
            forall|p: (int, int)|
                self@.contains_key(p) ==> exists|i: int|
                    0 <= i < entries@.len() && (#[trigger] entries@[i]).0@ == p,
    {
        broadcast use lemma_position_of_key;
        broadcast use lemma_key_of_position;

        let mut entries: Vec<(Cell, usize)> = Vec::new();
        let ghost pairs = self.counts.iter().remaining();
        proof {
            broadcast use group_hash_axioms;

            assert(pairs.len() == self.counts@.dom().len());
        }
        for pair in it: self.counts.iter()
            invariant
                it.seq() == pairs,
                entries@.len() == it.index(),
                forall|j: int|
                    0 <= j < entries@.len() ==> (#[trigger] entries@[j]).0@ == position_of(
                        *pairs[j].0,
                    ) && entries@[j].1 == *pairs[j].1,
        {
            let (key, n) = pair;
            entries.push((Cell::from_key(*key), *n));
        }
        proof {
            broadcast use group_hash_axioms;

            assert forall|i: int, j: int| 0 <= i < j < entries@.len() implies (
            #[trigger] entries@[i]).0 != (#[trigger] entries@[j]).0 by {
                assert(self.counts@.contains_key(*pairs[i].0));
                assert(self.counts@.contains_key(*pairs[j].0));
                assert(self.counts@[*pairs[i].0] == *pairs[i].1);
                assert(self.counts@[*pairs[j].0] == *pairs[j].1);
                assert(pairs[i] != pairs[j]);
                assert(key_of(entries@[i].0@) == *pairs[i].0);
                assert(key_of(entries@[j].0@) == *pairs[j].0);
            }
            assert forall|i: int| 0 <= i < entries@.len() implies self@.contains_key(
                (#[trigger] entries@[i]).0@,
            ) && self@[entries@[i].0@] == entries@[i].1 by {
                assert(self.counts@.contains_key(*pairs[i].0));
                assert(self.counts@[*pairs[i].0] == *pairs[i].1);
                assert(key_of(entries@[i].0@) == *pairs[i].0);
            }
            assert forall|p: (int, int)| self@.contains_key(p) implies exists|i: int|
                0 <= i < entries@.len() && (#[trigger] entries@[i]).0@ == p by {
                let k = key_of(p);
                assert(self.counts@.contains_key(k));
                assert(pairs.contains((&k, &self.counts@[k])));
                let i = choose|i: int| 0 <= i < pairs.len() && pairs[i] == (&k, &self.counts@[k]);
                assert(entries@[i].0@ == p);
            }
        }
        entries
    }
}

} // verus!
