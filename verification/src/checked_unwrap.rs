//! Unwrapping of values that are known to be there.

use vstd::prelude::*;

verus! {

/// Unwrapping for callers that have established that there is a value.
pub trait DebugCheckedUnwrap {
    type Item;

    /// Whether there is a value to unwrap.
    spec fn is_present(&self) -> bool;

    /// The value, as a specification.
    spec fn item(&self) -> Self::Item;

    /// Takes the value out. There must be one.
    fn debug_checked_unwrap(self) -> (item: Self::Item)
        requires
            self.is_present(),
        ensures
            item == self.item(),
    ;
}

impl<T> DebugCheckedUnwrap for Option<T> {
    type Item = T;

    open spec fn is_present(&self) -> bool {
        self is Some
    }

    open spec fn item(&self) -> T {
        self->0
    }

    fn debug_checked_unwrap(self) -> (item: T) {
        if let Some(inner) = self {
            inner
        } else {
            vstd::pervasive::unreached()
        }
    }
}

} // verus!
