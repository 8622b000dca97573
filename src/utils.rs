//! Small shared traits.
use vstd::prelude::*;

verus! {

/// Duplication for objects that are handed to render workers.
pub trait MyClone: Sized {
    fn clone(&self) -> Self;
}

} // verus!
