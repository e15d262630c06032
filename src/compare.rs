use vstd::prelude::*;

verus! {

/// A value that carries an identifier.
pub trait CompareId {
    type ID: core::hash::Hash + PartialEq + Eq;

    fn id(&self) -> &Self::ID;
}

/// A wrapper that stands for the value it holds.
#[derive(Hash, PartialEq, Eq, Debug, Clone, PartialOrd, Ord, Default)]
pub struct IdCompare<T: CompareId>(pub T);

impl<T: CompareId> IdCompare<T> {
    pub fn new(id: T) -> (r: Self)
        ensures
            r.0 == id,
    {
        IdCompare(id)
    }
}

impl<T: CompareId> CompareId for IdCompare<T> {
    type ID = T::ID;

    fn id(&self) -> &Self::ID {
        self.0.id()
    }
}

} // verus!
