use vstd::prelude::*;

use crate::cache::{distinct_keys, entries_map, rows_sorted, CRequest, Cache};
use crate::order::{bytes_lt, lemma_lex_irreflexive, lemma_lex_total, lemma_lex_trans, lex_lt};
use crate::error::VaultError;
use crate::ids::{copy_bytes, OwnerId, RecordId, VaultKey};
use crate::provider::{CacheEntry, ChainProvider, ProviderError};

verus! {

/// Where a vault's view stands.
pub ghost enum SlotState {
    /// Checked in: a view loaded from a cache holding exactly these keys.
    Ready(Set<Seq<u8>>),
    /// Checked in without a view: the last load failed, the next checkout loads again.
    Unloaded,
    /// Checked out: in use by an operation.
    CheckedOut,
}

/// The cache after writing each entry in order.
pub open spec fn apply_writes(m: Map<Seq<u8>, Seq<u8>>, w: Seq<CacheEntry>) -> Map<Seq<u8>, Seq<u8>>
    decreases w.len(),
{
    if w.len() == 0 {
        m
    } else {
        apply_writes(m, w.drop_last()).insert(w.last().key@, w.last().value@)
    }
}

/// The cache after deleting each key in order.
pub open spec fn apply_deletes(m: Map<Seq<u8>, Seq<u8>>, d: Seq<Vec<u8>>) -> Map<Seq<u8>, Seq<u8>>
    decreases d.len(),
{
    if d.len() == 0 {
        m
    } else {
        apply_deletes(m, d.drop_last()).remove(d.last()@)
    }
}

/// The slots after a successful checkout of `k`, or `None` where checkout must fail.
pub open spec fn checkout_next(s: Map<Seq<u8>, SlotState>, k: Seq<u8>) -> Option<Map<Seq<u8>, SlotState>> {
    if s.contains_key(k) && !(s[k] is CheckedOut) {
        Some(s.insert(k, SlotState::CheckedOut))
    } else {
        None
    }
}

/// Vault `k` is checked in: either its view was loaded from a cache with keys
/// `dom`, or it holds no view, which the next checkout loads from the cache
/// as it then stands.
pub open spec fn fresh(s: Map<Seq<u8>, SlotState>, dom: Set<Seq<u8>>, k: Seq<u8>) -> bool {
    &&& s.contains_key(k)
    &&& match s[k] {
        SlotState::Ready(basis) => basis == dom,
        SlotState::Unloaded => true,
        SlotState::CheckedOut => false,
    }
}

/// The slots of vaults other than `k` are the same in `a` and `b`.
pub open spec fn others_kept(a: Map<Seq<u8>, SlotState>, b: Map<Seq<u8>, SlotState>, k: Seq<u8>) -> bool {
    a.remove(k) == b.remove(k)
}

/// Where an operation on vault `k` leaves the slots `b`, having begun at `a`:
/// on an unknown or checked-out vault nothing moved; otherwise `k` is checked
/// in again over a cache with keys `dom`, and no other vault's slot moved.
pub open spec fn checked_in_after(
    a: Map<Seq<u8>, SlotState>,
    b: Map<Seq<u8>, SlotState>,
    dom: Set<Seq<u8>>,
    k: Seq<u8>,
) -> bool {
    if !a.contains_key(k) || a[k] is CheckedOut {
        b == a
    } else {
        fresh(b, dom, k) && others_kept(a, b, k)
    }
}

/// The keys of a sequence of vault keys, as a set.
pub open spec fn key_set(s: Seq<VaultKey>) -> Set<Seq<u8>> {
    Set::new(|k: Seq<u8>| exists|i: int| 0 <= i < s.len() && #[trigger] s[i]@ == k)
}

/// The vault keys come in strictly increasing order.
pub open spec fn keys_sorted(s: Seq<VaultKey>) -> bool {
    forall|i: int, j: int| 0 <= i < j < s.len() ==> lex_lt(#[trigger] s[i]@, #[trigger] s[j]@)
}

/// After `add_vault` of `k`: the genesis row is in the cache, and `k` is checked
/// in over it, without a view where the provider could not load one.
pub open spec fn added(
    a: Map<Seq<u8>, SlotState>,
    m: Map<Seq<u8>, Seq<u8>>,
    b: Map<Seq<u8>, SlotState>,
    n: Map<Seq<u8>, Seq<u8>>,
    k: Seq<u8>,
    r: Result<(), VaultError>,
) -> bool {
    &&& exists|e: CacheEntry| n == m.insert(e.key@, e.value@)
    &&& b == a.insert(k, if r is Ok { SlotState::Ready(n.dom()) } else { SlotState::Unloaded })
    &&& (r is Err ==> r->Err_0 is Provider)
}

/// After `create_record` on vault `k`, the slots and the cache going from `a`, `m`
/// to `b`, `n`: an unknown vault gives no id and no change; a checked-out one is
/// refused; otherwise an id comes, unless the provider refuses, with the
/// provider's rows written.
pub open spec fn created(
    a: Map<Seq<u8>, SlotState>,
    m: Map<Seq<u8>, Seq<u8>>,
    b: Map<Seq<u8>, SlotState>,
    n: Map<Seq<u8>, Seq<u8>>,
    k: Seq<u8>,
    r: Result<Option<RecordId>, VaultError>,
) -> bool {
    &&& checked_in_after(a, b, n.dom(), k)
    &&& (!a.contains_key(k) ==> r == Ok::<Option<RecordId>, VaultError>(None))
    &&& (a.contains_key(k) && a[k] is CheckedOut ==> r == Err::<Option<RecordId>, VaultError>(
        VaultError::AlreadyCheckedOut,
    ))
    &&& (a.contains_key(k) && !(a[k] is CheckedOut) ==> (r matches Ok(Some(_)) || r matches Err(
        VaultError::Provider(_),
    )))
    &&& match r {
        Ok(Some(_)) => exists|w: Seq<CacheEntry>| n == apply_writes(m, w),
        _ => n == m,
    }
}

/// After `read_record` on vault `k`: the cache is unchanged; an unknown vault
/// gives nothing; a missing row leaves the vault checked out.
pub open spec fn read_back(
    a: Map<Seq<u8>, SlotState>,
    m: Map<Seq<u8>, Seq<u8>>,
    b: Map<Seq<u8>, SlotState>,
    n: Map<Seq<u8>, Seq<u8>>,
    k: Seq<u8>,
    r: Result<Option<Vec<u8>>, VaultError>,
) -> bool {
    &&& n == m
    &&& (r == Err::<Option<Vec<u8>>, VaultError>(VaultError::MissingEntry) ==> b == a.insert(
        k,
        SlotState::CheckedOut,
    ))
    &&& (r != Err::<Option<Vec<u8>>, VaultError>(VaultError::MissingEntry) ==> checked_in_after(
        a,
        b,
        n.dom(),
        k,
    ))
    &&& (!a.contains_key(k) ==> r == Ok::<Option<Vec<u8>>, VaultError>(None))
    &&& (a.contains_key(k) && a[k] is CheckedOut ==> r == Err::<Option<Vec<u8>>, VaultError>(
        VaultError::AlreadyCheckedOut,
    ))
    &&& (a.contains_key(k) && !(a[k] is CheckedOut) ==> (r matches Ok(Some(_)) || r matches Err(
        VaultError::Provider(_),
    ) || r matches Err(VaultError::MissingEntry)))
}

/// After `garbage_collect` on vault `k`: the provider's rows written, then
/// the rows it names deleted; nothing changed on an unknown vault or an error.
pub open spec fn collected(
    a: Map<Seq<u8>, SlotState>,
    m: Map<Seq<u8>, Seq<u8>>,
    b: Map<Seq<u8>, SlotState>,
    n: Map<Seq<u8>, Seq<u8>>,
    k: Seq<u8>,
    r: Result<(), VaultError>,
) -> bool {
    &&& checked_in_after(a, b, n.dom(), k)
    &&& (!a.contains_key(k) ==> r is Ok && n == m)
    &&& (a.contains_key(k) && a[k] is CheckedOut ==> r == Err::<(), VaultError>(
        VaultError::AlreadyCheckedOut,
    ))
    &&& (a.contains_key(k) && !(a[k] is CheckedOut) ==> (r is Ok || r matches Err(VaultError::Provider(_))))
    &&& match r {
        Ok(_) => exists|w: Seq<CacheEntry>, d: Seq<Vec<u8>>| n == apply_deletes(apply_writes(m, w), d),
        Err(_) => n == m,
    }
}

/// After `revoke_record` on vault `k`: one tombstone row written, then one row
/// deleted; nothing changed on an unknown vault or an error.
pub open spec fn revoked(
    a: Map<Seq<u8>, SlotState>,
    m: Map<Seq<u8>, Seq<u8>>,
    b: Map<Seq<u8>, SlotState>,
    n: Map<Seq<u8>, Seq<u8>>,
    k: Seq<u8>,
    r: Result<(), VaultError>,
) -> bool {
    &&& checked_in_after(a, b, n.dom(), k)
    &&& (!a.contains_key(k) ==> r is Ok && n == m)
    &&& (a.contains_key(k) && a[k] is CheckedOut ==> r == Err::<(), VaultError>(
        VaultError::AlreadyCheckedOut,
    ))
    &&& (a.contains_key(k) && !(a[k] is CheckedOut) ==> (r is Ok || r matches Err(VaultError::Provider(_))))
    &&& match r {
        Ok(_) => a.contains_key(k) ==> exists|e: CacheEntry, d: Vec<u8>|
            n == m.insert(e.key@, e.value@).remove(d@),
        Err(_) => n == m,
    }
}

/// After `list_all_valid_by_key` on vault `k`: the cache is unchanged; an
/// unknown vault lists nothing.
pub open spec fn listed(
    a: Map<Seq<u8>, SlotState>,
    m: Map<Seq<u8>, Seq<u8>>,
    b: Map<Seq<u8>, SlotState>,
    n: Map<Seq<u8>, Seq<u8>>,
    k: Seq<u8>,
    r: Result<Vec<(RecordId, Vec<u8>)>, VaultError>,
) -> bool {
    &&& n == m
    &&& checked_in_after(a, b, n.dom(), k)
    &&& (!a.contains_key(k) ==> (r matches Ok(v) && v@.len() == 0))
    &&& (a.contains_key(k) && a[k] is CheckedOut ==> r == Err::<Vec<(RecordId, Vec<u8>)>, VaultError>(
        VaultError::AlreadyCheckedOut,
    ))
    &&& (a.contains_key(k) && !(a[k] is CheckedOut) ==> (r is Ok || r matches Err(VaultError::Provider(_))))
    &&& (a.contains_key(k) && a[k] is Ready ==> r is Ok)
}

/// A vault once checked out cannot be checked out again before it is checked
/// in; once checked in, with or without a view, it can be checked out again.
pub proof fn lemma_checkout_exclusive(s: Map<Seq<u8>, SlotState>, k: Seq<u8>, basis: Set<Seq<u8>>)
    requires
        checkout_next(s, k) is Some,
    ensures
        checkout_next(checkout_next(s, k)->Some_0, k) is None,
        checkout_next(checkout_next(s, k)->Some_0.insert(k, SlotState::Ready(basis)), k) is Some,
        checkout_next(checkout_next(s, k)->Some_0.insert(k, SlotState::Unloaded), k) is Some,
{
}

/// One vault known to the manager, with its view unless checked out.
pub struct VaultSlot<V> {
    key: VaultKey,
    view: Option<V>,
    out: bool,
    basis: Ghost<Set<Seq<u8>>>,
}

impl<V> VaultSlot<V> {
    pub closed spec fn state(&self) -> SlotState {
        if self.out {
            SlotState::CheckedOut
        } else if self.view is Some {
            SlotState::Ready(self.basis@)
        } else {
            SlotState::Unloaded
        }
    }
}

/// The vault manager: the cache, and the views of the vaults built over it,
/// handed out one at a time per vault.
pub struct Blob<P: ChainProvider> {
    vaults: Vec<VaultSlot<P::VaultView>>,
    slots: Ghost<Map<Seq<u8>, SlotState>>,
    cache: Cache,
    provider: P,
}

/// The vault manager, under the name it also goes by.
pub type Vaults<P> = Blob<P>;

impl<P: ChainProvider> Blob<P> {
    /// The state of each known vault, by key.
    pub closed spec fn slots(&self) -> Map<Seq<u8>, SlotState> {
        self.slots@
    }

    /// The view held for vault `k`, where one is checked in.
    pub closed spec fn held_view(&self, k: Seq<u8>) -> P::VaultView {
        let i = choose|i: int| 0 <= i < self.vaults@.len() && self.vaults@[i].key@ == k;
        self.vaults@[i].view->Some_0
    }

    /// The cache's contents.
    pub closed spec fn store(&self) -> Map<Seq<u8>, Seq<u8>> {
        self.cache@
    }

    pub closed spec fn wf(&self) -> bool {
        &&& self.cache.wf()
        &&& forall|i: int, j: int|
            0 <= i < self.vaults@.len() && 0 <= j < self.vaults@.len() && i != j
                ==> self.vaults@[i].key@ != self.vaults@[j].key@
        &&& forall|i: int|
            0 <= i < self.vaults@.len() ==> {
                &&& self.slots@.contains_key(#[trigger] self.vaults@[i].key@)
                &&& self.slots@[self.vaults@[i].key@] == self.vaults@[i].state()
            }
        &&& forall|k: Seq<u8>|
            #[trigger] self.slots@.contains_key(k) ==> exists|i: int|
                0 <= i < self.vaults@.len() && self.vaults@[i].key@ == k
        &&& forall|i: int, j: int|
            0 <= i < j < self.vaults@.len() ==> lex_lt(#[trigger] self.vaults@[i].key@, #[trigger] self.vaults@[j].key@)
    }

    /// A manager with no vaults over an empty cache.
    pub fn new(provider: P) -> (r: Self)
        ensures
            r.wf(),
            r.slots() == Map::<Seq<u8>, SlotState>::empty(),
            r.store() == Map::<Seq<u8>, Seq<u8>>::empty(),
    {
        Blob { vaults: Vec::new(), slots: Ghost(Map::empty()), cache: Cache::new(), provider }
    }

    fn find(&self, key: &VaultKey) -> (r: Option<usize>)
        requires
            self.wf(),
        ensures
            match r {
                Some(i) => i < self.vaults@.len() && self.vaults@[i as int].key@ == key@,
                None => !self.slots().contains_key(key@),
            },
    {
        let mut i: usize = 0;
        while i < self.vaults.len()
            invariant
                0 <= i <= self.vaults@.len(),
                forall|j: int| 0 <= j < i ==> self.vaults@[j].key@ != key@,
            decreases self.vaults@.len() - i,
        {
            if self.vaults[i].key.same(key) {
                return Some(i);
            }
            i = i + 1;
        }
        None
    }

    /// Whether a vault was added under `key`.
    pub fn contains(&self, key: &VaultKey) -> (r: bool)
        requires
            self.wf(),
        ensures
            r == self.slots().contains_key(key@),
    {
        self.find(key).is_some()
    }

    /// Puts `slot` in place of the slot at `i` and hands the old one back,
    /// keeping the map of slots in step.
    fn swap_slot(&mut self, i: usize, slot: VaultSlot<P::VaultView>) -> (prev: VaultSlot<P::VaultView>)
        requires
            old(self).wf(),
            i < old(self).vaults@.len(),
            slot.key@ == old(self).vaults@[i as int].key@,
        ensures
            final(self).wf(),
            final(self).slots() == old(self).slots().insert(slot.key@, slot.state()),
            final(self).cache == old(self).cache,
            final(self).vaults@.len() == old(self).vaults@.len(),
            final(self).vaults@[i as int] == slot,
            prev == old(self).vaults@[i as int],
    {
        let ghost k = slot.key@;
        let ghost st = slot.state();
        let mut slot = slot;
        core::mem::swap(&mut self.vaults[i], &mut slot);
        self.slots = Ghost(self.slots@.insert(k, st));
        assert forall|kk: Seq<u8>| #[trigger] self.slots@.contains_key(kk) implies exists|j: int|
            0 <= j < self.vaults@.len() && self.vaults@[j].key@ == kk by {
            if kk != k {
                let j = choose|j: int| 0 <= j < old(self).vaults@.len() && old(self).vaults@[j].key@ == kk;
                assert(self.vaults@[j].key@ == kk);
            } else {
                assert(self.vaults@[i as int].key@ == kk);
            }
        }
        slot
    }

    /// Adds a slot for a key that has none, in its place in key order.
    fn push_slot(&mut self, slot: VaultSlot<P::VaultView>)
        requires
            old(self).wf(),
            !old(self).slots().contains_key(slot.key@),
        ensures
            final(self).wf(),
            final(self).slots() == old(self).slots().insert(slot.key@, slot.state()),
            final(self).cache == old(self).cache,
    {
        let ghost k = slot.key@;
        let ghost st = slot.state();
        let mut p: usize = 0;
        while p < self.vaults.len() && !bytes_lt(slot.key.as_bytes(), self.vaults[p].key.as_bytes())
            invariant
                self.wf(),
                !self.slots().contains_key(k),
                slot.key@ == k,
                0 <= p <= self.vaults@.len(),
                forall|j: int| 0 <= j < p ==> lex_lt(#[trigger] self.vaults@[j].key@, k),
            decreases self.vaults@.len() - p,
        {
            proof {
                lemma_lex_total(k, self.vaults@[p as int].key@);
            }
            p = p + 1;
        }
        let ghost t = self.vaults@;
        proof {
            assert forall|j: int| p <= j < t.len() implies lex_lt(k, #[trigger] t[j].key@) by {
                if j > p {
                    lemma_lex_trans(k, t[p as int].key@, t[j].key@);
                }
            }
        }
        self.vaults.insert(p, slot);
        self.slots = Ghost(self.slots@.insert(k, st));
        let ghost u = self.vaults@;
        assert forall|j: int| 0 <= j < u.len() implies #[trigger] u[j] == (if j < p {
            t[j]
        } else if j == p {
            u[p as int]
        } else {
            t[j - 1]
        }) by {}
        assert forall|i: int, j: int| 0 <= i < j < u.len() implies lex_lt(
            #[trigger] u[i].key@,
            #[trigger] u[j].key@,
        ) by {
            if i < p && j == p {
            } else if i < p && j > p {
                assert(lex_lt(t[i].key@, k));
                assert(lex_lt(k, t[j - 1].key@));
                lemma_lex_trans(t[i].key@, k, t[j - 1].key@);
            } else if i == p {
                assert(lex_lt(k, t[j - 1].key@));
            } else if i > p {
                assert(lex_lt(t[i - 1].key@, t[j - 1].key@));
            }
        }
        assert forall|i: int, j: int|
            0 <= i < u.len() && 0 <= j < u.len() && i != j implies u[i].key@ != u[j].key@ by {
            if i < j {
                lemma_lex_irreflexive(u[j].key@);
            } else {
                lemma_lex_irreflexive(u[i].key@);
            }
        }
        assert forall|kk: Seq<u8>| #[trigger] self.slots@.contains_key(kk) implies exists|j: int|
            0 <= j < self.vaults@.len() && self.vaults@[j].key@ == kk by {
            if kk != k {
                let j = choose|j: int| 0 <= j < t.len() && t[j].key@ == kk;
                if j < p {
                    assert(u[j].key@ == kk);
                } else {
                    assert(u[j + 1].key@ == kk);
                }
            } else {
                assert(u[p as int].key@ == kk);
            }
        }
        assert forall|j: int| 0 <= j < u.len() implies {
            &&& self.slots@.contains_key(#[trigger] u[j].key@)
            &&& self.slots@[u[j].key@] == u[j].state()
        } by {
            if j < p {
                assert(u[j] == t[j]);
            } else if j > p {
                assert(u[j] == t[j - 1]);
            }
        }
    }

    /// Whether vault `key` is known and its view is checked out.
    pub fn is_checked_out(&self, key: &VaultKey) -> (r: bool)
        requires
            self.wf(),
        ensures
            r == (self.slots().contains_key(key@) && self.slots()[key@] is CheckedOut),
    {
        match self.find(key) {
            Some(i) => self.vaults[i].out,
            None => false,
        }
    }

    /// Checks out the view of vault `key`: it leaves the manager until checkin.
    /// A vault checked in without a view has one loaded from the cache first.
    /// Checking out an unknown vault, or one already out, breaks the discipline
    /// that keeps views exclusive: callers test first.
    pub fn get_view(&mut self, key: &VaultKey) -> (r: Result<P::VaultView, VaultError>)
        requires
            old(self).wf(),
            old(self).slots().contains_key(key@),
            !(old(self).slots()[key@] is CheckedOut),
        ensures
            final(self).wf(),
            final(self).store() == old(self).store(),
            match r {
                Ok(_) => checkout_next(old(self).slots(), key@) == Some(final(self).slots()),
                Err(e) => final(self).slots() == old(self).slots() && e is Provider
                    && old(self).slots()[key@] is Unloaded,
            },
            old(self).slots()[key@] is Ready ==> r == Ok::<P::VaultView, VaultError>(old(self).held_view(key@)),
    {
        let i = match self.find(key) {
            Some(i) => i,
            None => return Err(VaultError::UnknownVault),
        };
        let taken = VaultSlot { key: key.clone(), view: None, out: true, basis: Ghost(Set::empty()) };
        let prev = self.swap_slot(i, taken);
        match prev.view {
            Some(v) => {
                proof {
                    assert(old(self).vaults@[i as int].key@ == key@);
                    let j = choose|j: int| 0 <= j < old(self).vaults@.len() && old(self).vaults@[j].key@ == key@;
                    assert(j == i);
                }
                Ok(v)
            },
            None => {
                let listing = self.cache.send(CRequest::List).list();
                match self.provider.load_view(key, &listing) {
                    Ok(v) => Ok(v),
                    Err(e) => {
                        let back = VaultSlot { key: prev.key, view: None, out: false, basis: prev.basis };
                        self.swap_slot(i, back);
                        assert(self.slots() =~= old(self).slots());
                        Err(VaultError::Provider(e))
                    },
                }
            },
        }
    }

    /// Checks the view of vault `key` back in, rebuilt from the cache's current
    /// keys. A vault not yet known is added. Where the provider cannot load a
    /// view, the vault is checked in without one and the error is returned.
    pub fn reset_view(&mut self, key: &VaultKey) -> (r: Result<(), VaultError>)
        requires
            old(self).wf(),
        ensures
            final(self).wf(),
            final(self).store() == old(self).store(),
            final(self).slots() == old(self).slots().insert(
                key@,
                if r is Ok {
                    SlotState::Ready(old(self).store().dom())
                } else {
                    SlotState::Unloaded
                },
            ),
            r is Err ==> r->Err_0 is Provider,
    {
        let listing = self.cache.send(CRequest::List).list();
        let (view, res) = match self.provider.load_view(key, &listing) {
            Ok(v) => (Some(v), Ok(())),
            Err(e) => (None, Err(VaultError::Provider(e))),
        };
        let slot = VaultSlot { key: key.clone(), view, out: false, basis: Ghost(self.cache@.dom()) };
        match self.find(key) {
            Some(i) => {
                self.swap_slot(i, slot);
            },
            None => {
                self.push_slot(slot);
            },
        }
        res
    }

    /// Writes each entry of `writes` in order, then deletes each key of
    /// `deletes` in order.
    pub fn commit(&mut self, writes: &Vec<CacheEntry>, deletes: &Vec<Vec<u8>>)
        requires
            old(self).wf(),
        ensures
            final(self).wf(),
            final(self).slots() == old(self).slots(),
            final(self).store() == apply_deletes(apply_writes(old(self).store(), writes@), deletes@),
    {
        let mut i: usize = 0;
        while i < writes.len()
            invariant
                self.wf(),
                self.slots() == old(self).slots(),
                0 <= i <= writes@.len(),
                self.store() == apply_writes(old(self).store(), writes@.take(i as int)),
            decreases writes@.len() - i,
        {
            let k = copy_bytes(&writes[i].key);
            let v = copy_bytes(&writes[i].value);
            assert(writes@.take(i as int + 1).drop_last() =~= writes@.take(i as int));
            self.cache.send(CRequest::Write(k, v));
            i = i + 1;
        }
        assert(writes@.take(writes@.len() as int) =~= writes@);
        let ghost written = self.store();
        let mut j: usize = 0;
        while j < deletes.len()
            invariant
                self.wf(),
                self.slots() == old(self).slots(),
                0 <= j <= deletes@.len(),
                self.store() == apply_deletes(written, deletes@.take(j as int)),
            decreases deletes@.len() - j,
        {
            let k = copy_bytes(&deletes[j]);
            assert(deletes@.take(j as int + 1).drop_last() =~= deletes@.take(j as int));
            self.cache.send(CRequest::Delete(k));
            j = j + 1;
        }
        assert(deletes@.take(deletes@.len() as int) =~= deletes@);
    }

    /// Starts a vault: writes the genesis entry of its chain, then checks its
    /// first view in. A key used before is started again.
    pub fn add_vault(&mut self, key: &VaultKey, uid: &OwnerId) -> (r: Result<(), VaultError>)
        requires
            old(self).wf(),
        ensures
            final(self).wf(),
            added(old(self).slots(), old(self).store(), final(self).slots(), final(self).store(), key@, r),
    {
        let genesis = self.provider.create_chain(key, uid);
        self.finish_add(key, genesis)
    }

    /// Starts vault `key` from its genesis row: the row goes to the cache,
    /// then the vault's first view is checked in over it.
    pub fn finish_add(&mut self, key: &VaultKey, genesis: CacheEntry) -> (r: Result<(), VaultError>)
        requires
            old(self).wf(),
        ensures
            final(self).wf(),
            final(self).store() == old(self).store().insert(genesis.key@, genesis.value@),
            final(self).slots() == old(self).slots().insert(
                key@,
                if r is Ok {
                    SlotState::Ready(final(self).store().dom())
                } else {
                    SlotState::Unloaded
                },
            ),
            r is Err ==> r->Err_0 is Provider,
    {
        let ghost e = genesis;
        self.cache.send(CRequest::Write(genesis.key, genesis.value));
        self.reset_view(key)
    }

    /// Checks vault `key` in after a record write: the rows of a written record
    /// go to the cache in order, and its id is the result.
    pub fn finish_write(&mut self, key: &VaultKey, outcome: Result<(RecordId, Vec<CacheEntry>), ProviderError>) -> (r: Result<
        Option<RecordId>,
        VaultError,
    >)
        requires
            old(self).wf(),
            old(self).slots().contains_key(key@),
        ensures
            final(self).wf(),
            fresh(final(self).slots(), final(self).store().dom(), key@),
            others_kept(old(self).slots(), final(self).slots(), key@),
            match outcome {
                Ok((id, w)) => r == Ok::<Option<RecordId>, VaultError>(Some(id)) && final(self).store()
                    == apply_writes(old(self).store(), w@),
                Err(e) => r == Err::<Option<RecordId>, VaultError>(VaultError::Provider(e))
                    && final(self).store() == old(self).store(),
            },
    {
        let r = match outcome {
            Ok((id, entries)) => {
                let deletes: Vec<Vec<u8>> = Vec::new();
                self.commit(&entries, &deletes);
                assert(apply_deletes(apply_writes(old(self).store(), entries@), deletes@) == apply_writes(
                    old(self).store(),
                    entries@,
                ));
                Ok(Some(id))
            },
            Err(e) => Err(VaultError::Provider(e)),
        };
        let _ = self.reset_view(key);
        assert(self.slots().remove(key@) =~= old(self).slots().remove(key@));
        r
    }

    /// Checks vault `key` in after a compaction: the rows to write go to the
    /// cache in order, then the rows to delete leave it in order.
    pub fn finish_gc(&mut self, key: &VaultKey, outcome: Result<(Vec<CacheEntry>, Vec<Vec<u8>>), ProviderError>) -> (r: Result<
        (),
        VaultError,
    >)
        requires
            old(self).wf(),
            old(self).slots().contains_key(key@),
        ensures
            final(self).wf(),
            fresh(final(self).slots(), final(self).store().dom(), key@),
            others_kept(old(self).slots(), final(self).slots(), key@),
            match outcome {
                Ok((w, d)) => r is Ok && final(self).store() == apply_deletes(
                    apply_writes(old(self).store(), w@),
                    d@,
                ),
                Err(e) => r == Err::<(), VaultError>(VaultError::Provider(e)) && final(self).store()
                    == old(self).store(),
            },
    {
        let r = match outcome {
            Ok((writes, deletes)) => {
                self.commit(&writes, &deletes);
                Ok(())
            },
            Err(e) => Err(VaultError::Provider(e)),
        };
        let _ = self.reset_view(key);
        assert(self.slots().remove(key@) =~= old(self).slots().remove(key@));
        r
    }

    /// Checks vault `key` in after a revocation: the tombstone goes to the
    /// cache, then the row it replaces leaves it.
    pub fn finish_revoke(&mut self, key: &VaultKey, outcome: Result<(CacheEntry, Vec<u8>), ProviderError>) -> (r: Result<
        (),
        VaultError,
    >)
        requires
            old(self).wf(),
            old(self).slots().contains_key(key@),
        ensures
            final(self).wf(),
            fresh(final(self).slots(), final(self).store().dom(), key@),
            others_kept(old(self).slots(), final(self).slots(), key@),
            match outcome {
                Ok((e, d)) => r is Ok && final(self).store() == old(self).store().insert(e.key@, e.value@).remove(
                    d@,
                ),
                Err(e) => r == Err::<(), VaultError>(VaultError::Provider(e)) && final(self).store()
                    == old(self).store(),
            },
    {
        let r = match outcome {
            Ok((tombstone, gone)) => {
                self.cache.send(CRequest::Write(tombstone.key, tombstone.value));
                self.cache.send(CRequest::Delete(gone));
                Ok(())
            },
            Err(e) => Err(VaultError::Provider(e)),
        };
        let _ = self.reset_view(key);
        assert(self.slots().remove(key@) =~= old(self).slots().remove(key@));
        r
    }

    /// The cache row that a read names: its stored bytes, the provider's
    /// refusal passed on, or `MissingEntry` where the cache lacks the row.
    pub fn fetch_row(&self, row: Result<Vec<u8>, ProviderError>) -> (r: Result<Vec<u8>, VaultError>)
        requires
            self.wf(),
        ensures
            match row {
                Ok(k) => if self.store().contains_key(k@) {
                    r matches Ok(v) && v@ == self.store()[k@]
                } else {
                    r == Err::<Vec<u8>, VaultError>(VaultError::MissingEntry)
                },
                Err(e) => r == Err::<Vec<u8>, VaultError>(VaultError::Provider(e)),
            },
    {
        match row {
            Ok(k) => match self.cache.read_data(&k) {
                Some(v) => Ok(v),
                None => Err(VaultError::MissingEntry),
            },
            Err(e) => Err(VaultError::Provider(e)),
        }
    }

    /// Appends a record holding `payload` to vault `key`. An unknown vault is
    /// no error: nothing happens and there is no id.
    pub fn create_record(&mut self, uid: &OwnerId, key: &VaultKey, payload: Vec<u8>) -> (r: Result<
        Option<RecordId>,
        VaultError,
    >)
        requires
            old(self).wf(),
        ensures
            final(self).wf(),
            created(old(self).slots(), old(self).store(), final(self).slots(), final(self).store(), key@, r),
    {
        if !self.contains(key) {
            return Ok(None);
        }
        if self.is_checked_out(key) {
            return Err(VaultError::AlreadyCheckedOut);
        }
        let view = match self.get_view(key) {
            Ok(v) => v,
            Err(e) => return Err(e),
        };
        let hint: Vec<u8> = Vec::new();
        let outcome = self.provider.write(&view, uid, &payload, &hint);
        let ghost o = outcome;
        let r = self.finish_write(key, outcome);
        proof {
            if o is Ok {
                assert(self.store() == apply_writes(old(self).store(), o->Ok_0.1@));
            }
            assert(old(self).slots().insert(key@, SlotState::CheckedOut).remove(key@) =~= old(self).slots().remove(
                key@,
            ));
        }
        r
    }

    /// Reads the plaintext of record `uid` of vault `key`: the provider names
    /// the row, the row's bytes go to the provider to open. An unknown vault is
    /// no error: there is no plaintext. Where the cache lacks the row that the
    /// provider names, the vault is left checked out: resuming would be unsafe.
    pub fn read_record(&mut self, uid: &RecordId, key: &VaultKey) -> (r: Result<Option<Vec<u8>>, VaultError>)
        requires
            old(self).wf(),
        ensures
            final(self).wf(),
            read_back(old(self).slots(), old(self).store(), final(self).slots(), final(self).store(), key@, r),
    {
        if !self.contains(key) {
            return Ok(None);
        }
        if self.is_checked_out(key) {
            return Err(VaultError::AlreadyCheckedOut);
        }
        let view = match self.get_view(key) {
            Ok(v) => v,
            Err(e) => return Err(e),
        };
        let row = self.provider.prepare_read(&view, uid);
        let outcome = match self.fetch_row(row) {
            Ok(stored) => self.provider.read(&view, uid, &stored),
            Err(VaultError::Provider(e)) => Err(e),
            Err(_) => return Err(VaultError::MissingEntry),
        };
        let r = self.finish_read(key, outcome);
        assert(old(self).slots().insert(key@, SlotState::CheckedOut).remove(key@) =~= old(self).slots().remove(
            key@,
        ));
        r
    }

    /// Checks vault `key` in after a read: the provider's plaintext is the
    /// result, or its refusal is passed on. The cache is untouched.
    pub fn finish_read(&mut self, key: &VaultKey, outcome: Result<Vec<u8>, ProviderError>) -> (r: Result<
        Option<Vec<u8>>,
        VaultError,
    >)
        requires
            old(self).wf(),
            old(self).slots().contains_key(key@),
        ensures
            final(self).wf(),
            final(self).store() == old(self).store(),
            fresh(final(self).slots(), final(self).store().dom(), key@),
            others_kept(old(self).slots(), final(self).slots(), key@),
            match outcome {
                Ok(p) => r == Ok::<Option<Vec<u8>>, VaultError>(Some(p)),
                Err(e) => r == Err::<Option<Vec<u8>>, VaultError>(VaultError::Provider(e)),
            },
    {
        let r = match outcome {
            Ok(plain) => Ok(Some(plain)),
            Err(e) => Err(VaultError::Provider(e)),
        };
        let _ = self.reset_view(key);
        assert(self.slots().remove(key@) =~= old(self).slots().remove(key@));
        r
    }

    /// Compacts the chain of vault `key`: the provider's rows are written,
    /// then the rows it names are deleted. An unknown vault is left alone.
    pub fn garbage_collect(&mut self, uid: &OwnerId, key: &VaultKey) -> (r: Result<(), VaultError>)
        requires
            old(self).wf(),
        ensures
            final(self).wf(),
            collected(old(self).slots(), old(self).store(), final(self).slots(), final(self).store(), key@, r),
    {
        if !self.contains(key) {
            assert(self.store() == apply_deletes(
                apply_writes(self.store(), Seq::<CacheEntry>::empty()),
                Seq::<Vec<u8>>::empty(),
            ));
            return Ok(());
        }
        if self.is_checked_out(key) {
            return Err(VaultError::AlreadyCheckedOut);
        }
        let view = match self.get_view(key) {
            Ok(v) => v,
            Err(e) => return Err(e),
        };
        let outcome = self.provider.gc(&view, uid);
        let ghost o = outcome;
        let r = self.finish_gc(key, outcome);
        proof {
            if o is Ok {
                assert(self.store() == apply_deletes(apply_writes(old(self).store(), o->Ok_0.0@), o->Ok_0.1@));
            }
            assert(old(self).slots().insert(key@, SlotState::CheckedOut).remove(key@) =~= old(self).slots().remove(
                key@,
            ));
        }
        r
    }

    /// Revokes record `tx_id` of vault `key`: the provider's tombstone is
    /// written, then the row it names is deleted. An unknown vault is left alone.
    pub fn revoke_record(&mut self, uid: &OwnerId, tx_id: &RecordId, key: &VaultKey) -> (r: Result<(), VaultError>)
        requires
            old(self).wf(),
        ensures
            final(self).wf(),
            revoked(old(self).slots(), old(self).store(), final(self).slots(), final(self).store(), key@, r),
    {
        if !self.contains(key) {
            return Ok(());
        }
        if self.is_checked_out(key) {
            return Err(VaultError::AlreadyCheckedOut);
        }
        let view = match self.get_view(key) {
            Ok(v) => v,
            Err(e) => return Err(e),
        };
        let outcome = self.provider.revoke(&view, uid, tx_id);
        let ghost o = outcome;
        let r = self.finish_revoke(key, outcome);
        proof {
            if o is Ok {
                assert(self.store() == old(self).store().insert(o->Ok_0.0.key@, o->Ok_0.0.value@).remove(
                    o->Ok_0.1@,
                ));
            }
            assert(old(self).slots().insert(key@, SlotState::CheckedOut).remove(key@) =~= old(self).slots().remove(
                key@,
            ));
        }
        r
    }

    /// The valid records of vault `key`, each with its hint. An unknown vault
    /// has none.
    pub fn list_all_valid_by_key(&mut self, key: &VaultKey) -> (r: Result<Vec<(RecordId, Vec<u8>)>, VaultError>)
        requires
            old(self).wf(),
        ensures
            final(self).wf(),
            listed(old(self).slots(), old(self).store(), final(self).slots(), final(self).store(), key@, r),
    {
        if !self.contains(key) {
            return Ok(Vec::new());
        }
        if self.is_checked_out(key) {
            return Err(VaultError::AlreadyCheckedOut);
        }
        let view = match self.get_view(key) {
            Ok(v) => v,
            Err(e) => return Err(e),
        };
        let records = self.provider.records(&view);
        let r = self.finish_list(key, records);
        assert(old(self).slots().insert(key@, SlotState::CheckedOut).remove(key@) =~= old(self).slots().remove(
            key@,
        ));
        Ok(r)
    }

    /// Checks vault `key` in after a listing: the provider's records are the
    /// result, as they came. The cache is untouched.
    pub fn finish_list(&mut self, key: &VaultKey, records: Vec<(RecordId, Vec<u8>)>) -> (r: Vec<(RecordId, Vec<u8>)>)
        requires
            old(self).wf(),
            old(self).slots().contains_key(key@),
        ensures
            final(self).wf(),
            final(self).store() == old(self).store(),
            fresh(final(self).slots(), final(self).store().dom(), key@),
            others_kept(old(self).slots(), final(self).slots(), key@),
            r == records,
    {
        let _ = self.reset_view(key);
        assert(self.slots().remove(key@) =~= old(self).slots().remove(key@));
        records
    }

    /// The key of every known vault, each once.
    pub fn vault_keys(&self) -> (r: Vec<VaultKey>)
        requires
            self.wf(),
        ensures
            key_set(r@) == self.slots().dom(),
            keys_sorted(r@),
    {
        let mut out: Vec<VaultKey> = Vec::new();
        let mut i: usize = 0;
        while i < self.vaults.len()
            invariant
                self.wf(),
                0 <= i <= self.vaults@.len(),
                out@.len() == i,
                forall|j: int| 0 <= j < i ==> #[trigger] out@[j]@ == self.vaults@[j].key@,
            decreases self.vaults@.len() - i,
        {
            out.push(self.vaults[i].key.clone());
            i = i + 1;
        }
        assert forall|k: Seq<u8>| #[trigger] key_set(out@).contains(k) == self.slots().dom().contains(k) by {
            if self.slots().contains_key(k) {
                let j = choose|j: int| 0 <= j < self.vaults@.len() && self.vaults@[j].key@ == k;
                assert(out@[j]@ == k);
            }
            if key_set(out@).contains(k) {
                let j = choose|j: int| 0 <= j < out@.len() && #[trigger] out@[j]@ == k;
                assert(self.slots@.contains_key(self.vaults@[j].key@));
            }
        }
        assert(key_set(out@) =~= self.slots().dom());
        out
    }

    /// The keys of the known vaults and every row of the cache.
    pub fn offload_data(&self) -> (r: (Vec<VaultKey>, Vec<(Vec<u8>, Vec<u8>)>))
        requires
            self.wf(),
        ensures
            key_set(r.0@) == self.slots().dom(),
            keys_sorted(r.0@),
            rows_sorted(r.1@),
            entries_map(r.1@) == self.store(),
            distinct_keys(r.1@),
    {
        (self.vault_keys(), self.cache.dump())
    }

    /// A manager over a cache holding `state`, with a view of each vault of
    /// `keys` checked in from it.
    pub fn new_from_snapshot(provider: P, keys: &Vec<VaultKey>, state: Vec<(Vec<u8>, Vec<u8>)>) -> (r: Self)
        ensures
            r.wf(),
            r.store() == entries_map(state@),
            r.slots().dom() == key_set(keys@),
            forall|k: Seq<u8>| #[trigger] r.slots().contains_key(k) ==> fresh(r.slots(), r.store().dom(), k),
    {
        let mut blob = Blob::new(provider);
        blob.cache.upload_data(state);
        assert(Map::<Seq<u8>, Seq<u8>>::empty().union_prefer_right(entries_map(state@)) =~= entries_map(state@));
        let mut i: usize = 0;
        while i < keys.len()
            invariant
                blob.wf(),
                blob.store() == entries_map(state@),
                0 <= i <= keys@.len(),
                blob.slots().dom() == key_set(keys@.take(i as int)),
                forall|k: Seq<u8>| #[trigger] blob.slots().contains_key(k) ==> fresh(blob.slots(), blob.store().dom(), k),
            decreases keys@.len() - i,
        {
            let _ = blob.reset_view(&keys[i]);
            assert forall|k: Seq<u8>| #[trigger] key_set(keys@.take(i as int + 1)).contains(k) == key_set(keys@.take(i as int)).insert(keys@[i as int]@).contains(k) by {
                if key_set(keys@.take(i as int + 1)).contains(k) {
                    let j = choose|j: int| 0 <= j < i + 1 && #[trigger] keys@.take(i as int + 1)[j]@ == k;
                    if j < i {
                        assert(keys@.take(i as int)[j]@ == k);
                    }
                }
                if key_set(keys@.take(i as int)).contains(k) {
                    let j = choose|j: int| 0 <= j < i && #[trigger] keys@.take(i as int)[j]@ == k;
                    assert(keys@.take(i as int + 1)[j]@ == k);
                }
                if k == keys@[i as int]@ {
                    assert(keys@.take(i as int + 1)[i as int]@ == k);
                }
            }
            assert(key_set(keys@.take(i as int + 1)) =~= key_set(keys@.take(i as int)).insert(keys@[i as int]@));
            i = i + 1;
        }
        assert(keys@.take(keys@.len() as int) =~= keys@);
        blob
    }
}

} // verus!
