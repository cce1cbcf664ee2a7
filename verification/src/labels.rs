//! Vector ids, and the labels that decide which vectors a query may return.

use vstd::prelude::*;

verus! {

/// An id by which a vector is stored.
pub trait VectorId: Copy {
    /// The id as an index.
    spec fn index(self) -> usize;

    /// Converts the id to an index.
    fn into_usize(self) -> (index: usize)
        ensures
            index == self.index(),
    ;
}

impl VectorId for u32 {
    open spec fn index(self) -> usize {
        self as usize
    }

    fn into_usize(self) -> (index: usize) {
        self as usize
    }
}

/// A filter that says of each vector whether its labels match a query.
pub trait QueryLabelProvider<T> {
    /// Whether the labels of the vector `vec_id` match.
    spec fn matches(&self, vec_id: T) -> bool;

    /// Returns whether the labels of the vector `vec_id` match.
    fn is_match(&self, vec_id: T) -> (matched: bool)
        ensures
            matched == self.matches(vec_id),
    ;
}

} // verus!
