use vstd::prelude::*;

use crate::blob::{
    added, collected, created, fresh, key_set, keys_sorted, listed, read_back, revoked, Blob,
};
use crate::cache::{distinct_keys, entries_map, rows_sorted};
use crate::error::VaultError;
use crate::ids::{OwnerId, RecordId, VaultKey};
use crate::provider::ChainProvider;

verus! {

/// The facade bound to one owner: every vault operation is made on its behalf.
pub struct Client<P: ChainProvider> {
    id: OwnerId,
    blobs: Blob<P>,
}

/// A client's whole state: its owner, the keys of its vaults and every cache row.
pub struct Snapshot {
    pub id: OwnerId,
    pub keys: Vec<VaultKey>,
    pub state: Vec<(Vec<u8>, Vec<u8>)>,
}

/// `s` holds the owner, the vault keys and the cache rows of `c`, keys and rows
/// each in increasing order.
pub open spec fn captures<P: ChainProvider>(s: Snapshot, c: Client<P>) -> bool {
    &&& s.id@ == c.owner()
    &&& key_set(s.keys@) == c.manager().slots().dom()
    &&& entries_map(s.state@) == c.manager().store()
    &&& distinct_keys(s.state@)
    &&& keys_sorted(s.keys@)
    &&& rows_sorted(s.state@)
}

/// `c` was rebuilt from `s`: its owner, its cache holding the rows of `s`, and
/// each vault of `s` checked in with a view of that cache.
pub open spec fn restores<P: ChainProvider>(c: Client<P>, s: Snapshot) -> bool {
    &&& c.owner() == s.id@
    &&& c.manager().wf()
    &&& c.manager().store() == entries_map(s.state@)
    &&& c.manager().slots().dom() == key_set(s.keys@)
    &&& forall|k: Seq<u8>| #[trigger]
        c.manager().slots().contains_key(k) ==> fresh(c.manager().slots(), c.manager().store().dom(), k)
}

/// Restoring a client from a snapshot of `c` gives a client with the owner,
/// the vaults and the cache contents of `c`, every vault checked in with a view
/// of that same cache.
pub proof fn lemma_snapshot_round_trip<P: ChainProvider>(c: Client<P>, s: Snapshot, d: Client<P>)
    requires
        captures(s, c),
        restores(d, s),
    ensures
        d.owner() == c.owner(),
        d.manager().slots().dom() == c.manager().slots().dom(),
        d.manager().store() == c.manager().store(),
        forall|k: Seq<u8>| #[trigger]
            d.manager().slots().contains_key(k) ==> fresh(d.manager().slots(), d.manager().store().dom(), k),
{
}

impl<P: ChainProvider> Client<P> {
    /// The owner on whose behalf the client acts.
    pub closed spec fn owner(&self) -> Seq<u8> {
        self.id@
    }

    /// The vault manager behind the client.
    pub closed spec fn manager(&self) -> Blob<P> {
        self.blobs
    }

    pub open spec fn wf(&self) -> bool {
        self.manager().wf()
    }

    pub fn new(id: OwnerId, blobs: Blob<P>) -> (r: Self)
        ensures
            r.owner() == id@,
            r.manager() == blobs,
    {
        Client { id, blobs }
    }

    /// Rebuilds a client from a snapshot, the provider reading its chains.
    pub fn new_from_snapshot(snapshot: Snapshot, provider: P) -> (r: Self)
        ensures
            restores(r, snapshot),
    {
        let ghost s = snapshot;
        let Snapshot { id, keys, state } = snapshot;
        let blobs = Blob::new_from_snapshot(provider, &keys, state);
        Client { id, blobs }
    }

    /// Starts vault `key`, owned by this client's owner.
    pub fn add_vault(&mut self, key: &VaultKey) -> (r: Result<(), VaultError>)
        requires
            old(self).wf(),
        ensures
            final(self).wf(),
            final(self).owner() == old(self).owner(),
            added(
                old(self).manager().slots(),
                old(self).manager().store(),
                final(self).manager().slots(),
                final(self).manager().store(),
                key@,
                r,
            ),
    {
        self.blobs.add_vault(key, &self.id)
    }

    /// Appends a record holding `payload` to vault `key`.
    pub fn create_record(&mut self, key: VaultKey, payload: Vec<u8>) -> (r: Result<Option<RecordId>, VaultError>)
        requires
            old(self).wf(),
        ensures
            final(self).wf(),
            final(self).owner() == old(self).owner(),
            created(
                old(self).manager().slots(),
                old(self).manager().store(),
                final(self).manager().slots(),
                final(self).manager().store(),
                key@,
                r,
            ),
    {
        self.blobs.create_record(&self.id, &key, payload)
    }

    /// The plaintext of record `id` of vault `key`.
    pub fn read_record(&mut self, key: VaultKey, id: RecordId) -> (r: Result<Option<Vec<u8>>, VaultError>)
        requires
            old(self).wf(),
        ensures
            final(self).wf(),
            final(self).owner() == old(self).owner(),
            read_back(
                old(self).manager().slots(),
                old(self).manager().store(),
                final(self).manager().slots(),
                final(self).manager().store(),
                key@,
                r,
            ),
    {
        self.blobs.read_record(&id, &key)
    }

    /// Compacts the chain of vault `key`.
    pub fn preform_gc(&mut self, key: VaultKey) -> (r: Result<(), VaultError>)
        requires
            old(self).wf(),
        ensures
            final(self).wf(),
            final(self).owner() == old(self).owner(),
            collected(
                old(self).manager().slots(),
                old(self).manager().store(),
                final(self).manager().slots(),
                final(self).manager().store(),
                key@,
                r,
            ),
    {
        self.blobs.garbage_collect(&self.id, &key)
    }

    /// Revokes record `id` of vault `key`.
    pub fn revoke_record_by_id(&mut self, id: RecordId, key: VaultKey) -> (r: Result<(), VaultError>)
        requires
            old(self).wf(),
        ensures
            final(self).wf(),
            final(self).owner() == old(self).owner(),
            revoked(
                old(self).manager().slots(),
                old(self).manager().store(),
                final(self).manager().slots(),
                final(self).manager().store(),
                key@,
                r,
            ),
    {
        self.blobs.revoke_record(&self.id, &id, &key)
    }

    /// The valid records of vault `key`, each with its hint.
    pub fn list_valid_ids_for_vault(&mut self, key: VaultKey) -> (r: Result<Vec<(RecordId, Vec<u8>)>, VaultError>)
        requires
            old(self).wf(),
        ensures
            final(self).wf(),
            final(self).owner() == old(self).owner(),
            listed(
                old(self).manager().slots(),
                old(self).manager().store(),
                final(self).manager().slots(),
                final(self).manager().store(),
                key@,
                r,
            ),
    {
        self.blobs.list_all_valid_by_key(&key)
    }
}

impl Snapshot {
    /// Captures the owner, the vault keys and every cache row of `client`.
    pub fn new<P: ChainProvider>(client: &mut Client<P>) -> (r: Self)
        requires
            old(client).wf(),
        ensures
            *final(client) == *old(client),
            captures(r, *old(client)),
    {
        let id = client.id.clone();
        let (keys, state) = client.blobs.offload_data();
        Snapshot { id, keys, state }
    }

    /// The snapshot's parts: owner, vault keys, cache rows.
    pub fn offload(self) -> (r: (OwnerId, Vec<VaultKey>, Vec<(Vec<u8>, Vec<u8>)>))
        ensures
            r.0 == self.id,
            r.1 == self.keys,
            r.2 == self.state,
    {
        (self.id, self.keys, self.state)
    }
}

} // verus!
