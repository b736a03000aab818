use vstd::prelude::*;

verus! {

/// Why a pool operation was refused.
#[derive(Clone, Copy, Debug, PartialEq, Eq, Structural)]
pub enum PoolError {
    /// The requested capacity is zero or does not leave room for the
    /// end-of-list marker among the indices.
    InvalidCapacity,
    /// Every slot is taken at the moment of the call.
    ResourceExhausted,
}

/// Accepts a capacity of at least one slot that leaves the end-of-list
/// marker distinct from every index, and rejects every other.
pub fn check_capacity(capacity: usize) -> (checked: Result<(), PoolError>)
    ensures
        checked is Ok <==> 1 <= capacity <= isize::MAX,
        checked is Err ==> checked == Err::<(), PoolError>(PoolError::InvalidCapacity),
{
    if capacity < 1 || capacity > isize::MAX as usize {
        Err(PoolError::InvalidCapacity)
    } else {
        Ok(())
    }
}

} // verus!
