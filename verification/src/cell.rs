//! Lattice coordinates and how they are keyed in the sparse collections.

use vstd::prelude::*;

verus! {

/// A position on the integer lattice: column, then row.
#[derive(Clone, Copy, Debug, PartialEq, Eq, Structural, Hash)]
pub struct Cell(pub i32, pub i32);

impl View for Cell {
    type V = (int, int);

    open spec fn view(&self) -> (int, int) {
        (self.0 as int, self.1 as int)
    }
}

/// The positions that a [`Cell`] can hold.
pub open spec fn representable(p: (int, int)) -> bool {
    &&& i32::MIN <= p.0 <= i32::MAX
    &&& i32::MIN <= p.1 <= i32::MAX
}

/// The positions all of whose neighbours a [`Cell`] can hold.
pub open spec fn interior(p: (int, int)) -> bool {
    &&& i32::MIN < p.0 < i32::MAX
    &&& i32::MIN < p.1 < i32::MAX
}

/// The key under which the sparse collections file a position: the two
/// coordinates, each shifted to be non-negative, side by side.
pub closed spec fn key_of(p: (int, int)) -> u64 {
    ((p.0 + 0x8000_0000) * 0x1_0000_0000 + (p.1 + 0x8000_0000)) as u64
}

/// The position filed under `key`.
pub closed spec fn position_of(key: u64) -> (int, int) {
    (key as int / 0x1_0000_0000 - 0x8000_0000, key as int % 0x1_0000_0000 - 0x8000_0000)
}

/// Keys and representable positions correspond one to one.
pub broadcast proof fn lemma_position_of_key(p: (int, int))
    requires
        representable(p),
    ensures
        #[trigger] position_of(key_of(p)) == p,
{
}

/// Every key files a representable position.
pub broadcast proof fn lemma_key_of_position(key: u64)
    ensures
        representable(#[trigger] position_of(key)),
        key_of(position_of(key)) == key,
{
}

/// Two representable positions filed under one key are one position.
pub proof fn lemma_key_injective(p: (int, int), q: (int, int))
    requires
        representable(p),
        representable(q),
        key_of(p) == key_of(q),
    ensures
        p == q,
{
}

impl Cell {
    /// The key of this cell's position.
    pub(crate) fn key(self) -> (key: u64)
        ensures
            key == key_of(self@),
    {
        let column: u64 = (self.0 as i64 + 0x8000_0000) as u64;
        let row: u64 = (self.1 as i64 + 0x8000_0000) as u64;
        column * 0x1_0000_0000 + row
    }

    /// The cell filed under `key`.
    pub(crate) fn from_key(key: u64) -> (cell: Cell)
        ensures
            cell@ == position_of(key),
    {
        let column: i64 = (key / 0x1_0000_0000) as i64 - 0x8000_0000;
        let row: i64 = (key % 0x1_0000_0000) as i64 - 0x8000_0000;
        Cell(column as i32, row as i32)
    }
}

} // verus!
