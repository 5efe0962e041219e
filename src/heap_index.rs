//! A compact position in an array-backed binary heap.
use vstd::prelude::*;

verus! {

/// A position in a binary heap, held in 32 bits.
#[derive(Copy, Clone, Debug, PartialEq, Eq, Structural, PartialOrd, Ord)]
pub struct HeapIndex {
    index: u32,
}

impl View for HeapIndex {
    type V = nat;

    closed spec fn view(&self) -> nat {
        self.index as nat
    }
}

impl HeapIndex {
    /// The root.
    pub fn zero() -> (r: Self)
        ensures
            r@ == 0,
    {
        Self { index: 0 }
    }

    /// The position right after this one.
    pub fn next(&self) -> (r: Self)
        requires
            self@ < u32::MAX,
        ensures
            r@ == self@ + 1,
    {
        Self { index: self.index + 1 }
    }

    /// A position given as a `usize`, kept to its low 32 bits.
    pub fn from_usize(i: usize) -> (r: Self)
        ensures
            r@ == (i as u32) as nat,
            i <= u32::MAX ==> r@ == i,
    {
        Self { index: i as u32 }
    }

    /// This position as a `usize`.
    pub fn as_usize(&self) -> (r: usize)
        ensures
            r == self@,
    {
        self.index as usize
    }

    /// Whether this is the root.
    pub fn is_zero(&self) -> (r: bool)
        ensures
            r == (self@ == 0),
    {
        self.index == 0
    }

    /// The parent.
    pub fn up(&self) -> (r: Self)
        requires
            self@ != 0,
        ensures
            r@ == (self@ - 1) / 2,
    {
        let x: u32 = self.index - 1;
        proof {
            assert(x >> 1u32 == x / 2) by (bit_vector);
        }
        Self { index: x >> 1 }
    }

    /// The left child.
    pub fn down_left(&self) -> (r: Self)
        requires
            2 * self@ + 1 <= u32::MAX,
        ensures
            r@ == 2 * self@ + 1,
    {
        Self { index: (2 * self.index) + 1 }
    }

    /// The right child.
    pub fn down_right(&self) -> (r: Self)
        requires
            2 * (self@ + 1) <= u32::MAX,
        ensures
            r@ == 2 * (self@ + 1),
    {
        Self { index: 2 * (self.index + 1) }
    }
}

} // verus!
