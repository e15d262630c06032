use vstd::prelude::*;

verus! {

/// Something told of each event of type `T`; by default it ignores them.
pub trait Listener<T: Send + Sync> {
    fn dispatch(&self, _event: &T) {
    }
}

} // verus!
