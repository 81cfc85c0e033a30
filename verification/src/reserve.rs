//! The rule by which a map gives back memory it holds in reserve.

use vstd::prelude::*;

verus! {

/// Whether a map that holds `len` entries in `capacity` slots reserves more
/// than `threshold` slots for entries yet to come.
pub fn reserves_more_than(capacity: usize, len: usize, threshold: usize) -> (excess: bool)
    ensures
        excess == (capacity > len + threshold),
{
    capacity > len && capacity - len > threshold
}

} // verus!
