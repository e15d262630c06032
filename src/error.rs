use vstd::prelude::*;

use crate::provider::ProviderError;

verus! {

/// Why a vault operation failed.
#[derive(Debug, Clone, PartialEq, Eq)]
pub enum VaultError {
    /// Checkout of a key that no vault was added under: a broken calling discipline.
    UnknownVault,
    /// Checkout of a vault whose view is already out: a broken calling discipline.
    AlreadyCheckedOut,
    /// The provider named a cache row that the cache does not hold.
    MissingEntry,
    /// The chain provider refused the operation.
    Provider(ProviderError),
    /// Snapshot bytes that do not decode, or a state that does not encode.
    MalformedSnapshot,
}

impl VaultError {
    /// Whether the error reports a breach of the checkout discipline or of the
    /// cache's contents, which no retry can mend.
    pub fn is_invariant_violation(&self) -> (r: bool)
        ensures
            r == (self is UnknownVault || self is AlreadyCheckedOut || self is MissingEntry),
    {
        match self {
            VaultError::UnknownVault => true,
            VaultError::AlreadyCheckedOut => true,
            VaultError::MissingEntry => true,
            _ => false,
        }
    }
}

} // verus!
