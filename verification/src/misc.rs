use vstd::prelude::*;

verus! {

/// Cloning that may fail, for types whose copies need resources.
pub trait TryClone: Sized {
    type Error;

    fn try_clone(&self) -> Result<Self, Self::Error>;
}

} // verus!
