use vstd::prelude::*;

use crate::blob::{SlotState, added, collected, created, listed, read_back, revoked, Blob};
use crate::error::VaultError;
use crate::ids::{OwnerId, RecordId, VaultKey};
use crate::provider::ChainProvider;

verus! {

/// A message to the vault service.
pub enum BlobEvent {
    AddVault(VaultKey),
    ListRecords(VaultKey),
    Create(VaultKey, Vec<u8>),
    Revoke(RecordId, VaultKey),
    Read(VaultKey, RecordId),
    GC(VaultKey),
    ReturnTxid(Option<RecordId>),
    Init(OwnerId),
    DropOut,
}

/// The vault service's answer to one message.
pub enum BlobReply {
    /// The outcome of a `Create`.
    Txid(Result<Option<RecordId>, VaultError>),
    /// The outcome of a `Read`.
    Plain(Result<Option<Vec<u8>>, VaultError>),
    /// The outcome of a `ListRecords`.
    Records(Result<Vec<(RecordId, Vec<u8>)>, VaultError>),
    /// The outcome of an `AddVault`, a `Revoke` or a `GC`.
    Done(Result<(), VaultError>),
    /// The message asks for nothing of the service.
    Ignored,
    /// The service is closed: the message was not handled.
    Closed,
}

/// A vault manager hosted as a service: it takes one message at a time, on
/// behalf of one owner, until it is told to drop out.
pub struct BlobService<P: ChainProvider> {
    id: OwnerId,
    blob: Blob<P>,
    open: bool,
}

impl<P: ChainProvider> BlobService<P> {
    pub closed spec fn owner(&self) -> Seq<u8> {
        self.id@
    }

    pub closed spec fn manager(&self) -> Blob<P> {
        self.blob
    }

    pub closed spec fn is_open(&self) -> bool {
        self.open
    }

    pub open spec fn wf(&self) -> bool {
        self.manager().wf()
    }

    /// An open service over a fresh manager.
    pub fn new(id: OwnerId, provider: P) -> (r: Self)
        ensures
            r.wf(),
            r.is_open(),
            r.owner() == id@,
            r.manager().slots() == Map::<Seq<u8>, SlotState>::empty(),
            r.manager().store() == Map::<Seq<u8>, Seq<u8>>::empty(),
    {
        let blob = Blob::new(provider);
        BlobService { id, blob, open: true }
    }

    /// Handles one message. A closed service handles none; `DropOut` closes it;
    /// `Init` sets the owner; each vault message runs the matching operation
    /// for the owner and answers with its outcome.
    pub fn handle(&mut self, event: BlobEvent) -> (r: BlobReply)
        requires
            old(self).wf(),
        ensures
            final(self).wf(),
            !old(self).is_open() ==> r is Closed && *final(self) == *old(self),
            old(self).is_open() ==> match event {
                BlobEvent::AddVault(k) => r is Done && final(self).is_open() && final(self).owner()
                    == old(self).owner() && added(
                    old(self).manager().slots(),
                    old(self).manager().store(),
                    final(self).manager().slots(),
                    final(self).manager().store(),
                    k@,
                    r->Done_0,
                ),
                BlobEvent::ListRecords(k) => r is Records && final(self).is_open() && final(self).owner()
                    == old(self).owner() && listed(
                    old(self).manager().slots(),
                    old(self).manager().store(),
                    final(self).manager().slots(),
                    final(self).manager().store(),
                    k@,
                    r->Records_0,
                ),
                BlobEvent::Create(k, _) => r is Txid && final(self).is_open() && final(self).owner()
                    == old(self).owner() && created(
                    old(self).manager().slots(),
                    old(self).manager().store(),
                    final(self).manager().slots(),
                    final(self).manager().store(),
                    k@,
                    r->Txid_0,
                ),
                BlobEvent::Revoke(_, k) => r is Done && final(self).is_open() && final(self).owner()
                    == old(self).owner() && revoked(
                    old(self).manager().slots(),
                    old(self).manager().store(),
                    final(self).manager().slots(),
                    final(self).manager().store(),
                    k@,
                    r->Done_0,
                ),
                BlobEvent::Read(k, _) => r is Plain && final(self).is_open() && final(self).owner()
                    == old(self).owner() && read_back(
                    old(self).manager().slots(),
                    old(self).manager().store(),
                    final(self).manager().slots(),
                    final(self).manager().store(),
                    k@,
                    r->Plain_0,
                ),
                BlobEvent::GC(k) => r is Done && final(self).is_open() && final(self).owner()
                    == old(self).owner() && collected(
                    old(self).manager().slots(),
                    old(self).manager().store(),
                    final(self).manager().slots(),
                    final(self).manager().store(),
                    k@,
                    r->Done_0,
                ),
                BlobEvent::ReturnTxid(_) => r is Ignored && *final(self) == *old(self),
                BlobEvent::Init(uid) => r is Ignored && final(self).is_open() && final(self).owner()
                    == uid@ && final(self).manager() == old(self).manager(),
                BlobEvent::DropOut => r is Closed && !final(self).is_open() && final(self).owner()
                    == old(self).owner() && final(self).manager() == old(self).manager(),
            },
    {
        if !self.open {
            return BlobReply::Closed;
        }
        match event {
            BlobEvent::AddVault(k) => BlobReply::Done(self.blob.add_vault(&k, &self.id)),
            BlobEvent::ListRecords(k) => BlobReply::Records(self.blob.list_all_valid_by_key(&k)),
            BlobEvent::Create(k, payload) => BlobReply::Txid(self.blob.create_record(&self.id, &k, payload)),
            BlobEvent::Revoke(id, k) => BlobReply::Done(self.blob.revoke_record(&self.id, &id, &k)),
            BlobEvent::Read(k, id) => BlobReply::Plain(self.blob.read_record(&id, &k)),
            BlobEvent::GC(k) => BlobReply::Done(self.blob.garbage_collect(&self.id, &k)),
            BlobEvent::ReturnTxid(_) => BlobReply::Ignored,
            BlobEvent::Init(uid) => {
                self.id = uid;
                BlobReply::Ignored
            },
            BlobEvent::DropOut => {
                self.open = false;
                BlobReply::Closed
            },
        }
    }
}

} // verus!
