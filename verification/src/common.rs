//! Small helpers shared by the game modules and the layers embedding them.

use vstd::prelude::*;

verus! {

/// Marks a payload as binary data, so that an embedding layer handing blobs
/// to a host runtime can tell a binary encoding apart from a text one.
pub struct Bin<T>(pub T);

impl<T> Bin<T> {
    /// Wraps a payload.
    pub fn new(payload: T) -> (r: Bin<T>)
        ensures
            r.0 == payload,
    {
        Bin(payload)
    }

    /// Returns the wrapped payload.
    pub fn into_inner(self) -> (r: T)
        ensures
            r == self.0,
    {
        self.0
    }
}

} // verus!
