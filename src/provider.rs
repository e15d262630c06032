use vstd::prelude::*;

use crate::ids::{OwnerId, RecordId, VaultKey};

verus! {

/// One row of the cache, as produced by a chain provider.
pub struct CacheEntry {
    pub key: Vec<u8>,
    pub value: Vec<u8>,
}

/// A chain provider's refusal: a stale or corrupt view, an unknown record.
#[derive(Debug, Clone, PartialEq, Eq)]
pub struct ProviderError {
    pub reason: String,
}

/// The record-chain format that the vault manager drives. It encodes,
/// links and validates records; the manager only moves the cache rows it
/// produces and never reads their meaning.
pub trait ChainProvider {
    /// A validated projection of one vault's chain.
    type VaultView;

    /// The genesis row of a new vault owned by `owner`.
    fn create_chain(&self, key: &VaultKey, owner: &OwnerId) -> CacheEntry;

    /// Rebuilds the view of vault `key` from every key currently in the cache.
    fn load_view(&self, key: &VaultKey, listing: &Vec<Vec<u8>>) -> Result<Self::VaultView, ProviderError>;

    /// Appends a record: its new id and the rows to write, in order.
    fn write(
        &self,
        view: &Self::VaultView,
        owner: &OwnerId,
        payload: &Vec<u8>,
        hint: &Vec<u8>,
    ) -> Result<(RecordId, Vec<CacheEntry>), ProviderError>;

    /// Revokes a record: a tombstone row to write and the key of a row to delete.
    fn revoke(&self, view: &Self::VaultView, owner: &OwnerId, id: &RecordId) -> Result<
        (CacheEntry, Vec<u8>),
        ProviderError,
    >;

    /// Compacts the chain: rows to write, then keys of rows to delete.
    fn gc(&self, view: &Self::VaultView, owner: &OwnerId) -> Result<
        (Vec<CacheEntry>, Vec<Vec<u8>>),
        ProviderError,
    >;

    /// The cache key under which the data of record `id` is stored.
    fn prepare_read(&self, view: &Self::VaultView, id: &RecordId) -> Result<Vec<u8>, ProviderError>;

    /// The plaintext of record `id`, given the row read from the cache.
    fn read(&self, view: &Self::VaultView, id: &RecordId, stored: &Vec<u8>) -> Result<Vec<u8>, ProviderError>;

    /// The valid records of the view, each with its hint.
    fn records(&self, view: &Self::VaultView) -> Vec<(RecordId, Vec<u8>)>;
}

} // verus!
