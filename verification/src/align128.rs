use vstd::prelude::*;

verus! {

/// A transparent wrapper that marks a value as being contended on its own,
/// such as the free-list link of one slot.  All access is forwarded to the
/// wrapped value.
///
/// The wrapper makes no demand on the layout.  Whoever wants each such value
/// alone on its cache lines gives a copy of the wrapper that alignment.
#[derive(Default)]
pub struct Align128<T>(pub T);

impl<T> std::ops::Deref for Align128<T> {
    type Target = T;

    fn deref(&self) -> (target: &T)
        ensures
            *target == self.0,
    {
        &self.0
    }
}

impl<T> std::ops::DerefMut for Align128<T> {
    fn deref_mut(&mut self) -> (target: &mut T)
        ensures
            *target == old(self).0,
            final(self).0 == *final(target),
    {
        &mut self.0
    }
}

} // verus!
