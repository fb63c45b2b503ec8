//! The duplication capability for stored values.
//!
//! Several store operations hand back owned copies of stored values
//! (displaced bindings, removed bindings), and a checkpoint logically
//! retains an independent copy of the state.  A value type therefore
//! has to support producing an independent copy that is equal to the
//! original; this trait states that obligation so that contracts can
//! rely on the copy being the same value.

use vstd::prelude::*;

verus! {

/// A value that can be duplicated into an independent, equal copy.
pub trait DupValue: Sized {
    /// Produce an independent copy of `self`, equal to `self`.
    fn dup(&self) -> (r: Self)
        ensures
            r == *self,
    ;
}

impl DupValue for u32 {
    fn dup(&self) -> (r: u32)
        ensures
            r == *self,
    {
        *self
    }
}

impl DupValue for u64 {
    fn dup(&self) -> (r: u64)
        ensures
            r == *self,
    {
        *self
    }
}

impl DupValue for bool {
    fn dup(&self) -> (r: bool)
        ensures
            r == *self,
    {
        *self
    }
}

impl DupValue for String {
    fn dup(&self) -> (r: String)
        ensures
            r == *self,
    {
        self.clone()
    }
}

} // verus!
