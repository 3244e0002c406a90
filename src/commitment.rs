//! A committed value together with its position and the root after it.
use vstd::prelude::*;
use vstd::slice::slice_to_vec;

verus! {

/// An immutable record binding a value to its index and to the root of the
/// tree right after it was added.
#[derive(Debug, Clone, PartialEq, Eq)]
pub struct Commitment {
    /// Sequence position, assigned from zero without gaps.
    pub index: usize,
    /// The committed bytes.
    pub value: Vec<u8>,
    /// Root digest of the tree right after this commitment was added.
    pub merkle_root: Vec<u8>,
}

impl Commitment {
    /// Same index, value and root.
    pub open spec fn same_as(self, other: Commitment) -> bool {
        &&& self.index == other.index
        &&& self.value@ == other.value@
        &&& self.merkle_root@ == other.merkle_root@
    }

    pub fn new(index: usize, value: Vec<u8>, merkle_root: Vec<u8>) -> (r: Self)
        ensures
            r.index == index,
            r.value@ == value@,
            r.merkle_root@ == merkle_root@,
    {
        Commitment { index, value, merkle_root }
    }

    pub fn index(&self) -> (r: usize)
        ensures
            r == self.index,
    {
        self.index
    }

    pub fn value(&self) -> (r: &[u8])
        ensures
            r@ == self.value@,
    {
        self.value.as_slice()
    }

    pub fn merkle_root(&self) -> (r: &[u8])
        ensures
            r@ == self.merkle_root@,
    {
        self.merkle_root.as_slice()
    }

    /// A copy with the same index, value and root.
    pub fn copy(&self) -> (r: Self)
        ensures
            r.same_as(*self),
    {
        Commitment {
            index: self.index,
            value: slice_to_vec(self.value.as_slice()),
            merkle_root: slice_to_vec(self.merkle_root.as_slice()),
        }
    }
}

} // verus!
