//! Keys of the counter tables.

use vstd::prelude::*;

verus! {

/// A key that can be compared in executable code.
pub trait TableKey: Copy + Sized {
    /// Whether the two keys are equal.
    fn same(&self, other: &Self) -> (r: bool)
        ensures
            r == (*self == *other),
    ;
}

/// Interfaces are keyed by their index.
impl TableKey for u32 {
    fn same(&self, other: &Self) -> (r: bool) {
        *self == *other
    }
}

/// Sources are keyed by the six bytes of their hardware address.
impl TableKey for [u8; 6] {
    fn same(&self, other: &Self) -> (r: bool) {
        let r = self[0] == other[0] && self[1] == other[1] && self[2] == other[2] && self[3]
            == other[3] && self[4] == other[4] && self[5] == other[5];
        proof {
            if r {
                assert(*self =~= *other);
            }
        }
        r
    }
}

} // verus!
