use vault_client::blob::Blob;
use vault_client::client::{Client, Snapshot};
use vault_client::error::VaultError;
use vault_client::ids::{OwnerId, RecordId, VaultKey};
use vault_client::provider::{CacheEntry, ChainProvider, ProviderError};
use vault_client::service::{BlobEvent, BlobReply, BlobService};
use vault_client::snap::{decode_client, deserialize_snapshot, encode_client, serialize_snapshot};

// An in-memory chain: every row key is [len(vault key)] ++ vault key ++ [tag] ++ rest.
// Tags: 0 genesis, 1 record data, 2 tombstone, 3 hint row (rest = id ++ hint).
const GENESIS: u8 = 0;
const DATA: u8 = 1;
const TOMBSTONE: u8 = 2;
const HINT: u8 = 3;

struct MemChain;

#[derive(Debug, Clone)]
struct MemView {
    vault: Vec<u8>,
    listing: Vec<Vec<u8>>,
    data: Vec<u64>,
    hints: Vec<(u64, Vec<u8>)>,
    revoked: Vec<u64>,
    next: u64,
}

fn row(vault: &[u8], tag: u8, rest: &[u8]) -> Vec<u8> {
    let mut k = vec![vault.len() as u8];
    k.extend_from_slice(vault);
    k.push(tag);
    k.extend_from_slice(rest);
    k
}

fn parse<'a>(vault: &[u8], key: &'a [u8]) -> Option<(u8, &'a [u8])> {
    let n = vault.len();
    if key.len() < n + 2 || key[0] as usize != n || &key[1..n + 1] != vault {
        return None;
    }
    Some((key[n + 1], &key[n + 2..]))
}

fn id_of(n: u64) -> RecordId {
    RecordId::new(n.to_be_bytes().to_vec())
}

fn num_of(id: &RecordId) -> Option<u64> {
    let b = id.as_bytes();
    if b.len() != 8 {
        return None;
    }
    let mut a = [0u8; 8];
    a.copy_from_slice(b);
    Some(u64::from_be_bytes(a))
}

fn err(reason: &str) -> ProviderError {
    ProviderError { reason: reason.to_string() }
}

impl MemView {
    fn valid(&self, n: u64) -> bool {
        self.data.contains(&n) && !self.revoked.contains(&n)
    }
}

impl ChainProvider for MemChain {
    type VaultView = MemView;

    fn create_chain(&self, key: &VaultKey, owner: &OwnerId) -> CacheEntry {
        CacheEntry { key: row(key.as_bytes(), GENESIS, &[]), value: owner.as_bytes().clone() }
    }

    fn load_view(&self, key: &VaultKey, listing: &Vec<Vec<u8>>) -> Result<MemView, ProviderError> {
        let vault = key.as_bytes().clone();
        let mut view = MemView {
            vault: vault.clone(),
            listing: listing.clone(),
            data: vec![],
            hints: vec![],
            revoked: vec![],
            next: 0,
        };
        let mut genesis = false;
        for k in listing {
            if let Some((tag, rest)) = parse(&vault, k) {
                let num = if rest.len() >= 8 {
                    let mut a = [0u8; 8];
                    a.copy_from_slice(&rest[..8]);
                    Some(u64::from_be_bytes(a))
                } else {
                    None
                };
                match (tag, num) {
                    (GENESIS, _) => genesis = true,
                    (DATA, Some(n)) => view.data.push(n),
                    (TOMBSTONE, Some(n)) => view.revoked.push(n),
                    (HINT, Some(n)) => view.hints.push((n, rest[8..].to_vec())),
                    _ => return Err(err("corrupt row")),
                }
                if let Some(n) = num {
                    view.next = view.next.max(n + 1);
                }
            }
        }
        if genesis {
            Ok(view)
        } else {
            Err(err("no chain"))
        }
    }

    fn write(
        &self,
        view: &MemView,
        _owner: &OwnerId,
        payload: &Vec<u8>,
        hint: &Vec<u8>,
    ) -> Result<(RecordId, Vec<CacheEntry>), ProviderError> {
        let n = view.next;
        let mut hint_rest = n.to_be_bytes().to_vec();
        hint_rest.extend_from_slice(hint);
        let rows = vec![
            CacheEntry { key: row(&view.vault, DATA, &n.to_be_bytes()), value: payload.clone() },
            CacheEntry { key: row(&view.vault, HINT, &hint_rest), value: vec![] },
        ];
        Ok((id_of(n), rows))
    }

    fn revoke(&self, view: &MemView, _owner: &OwnerId, id: &RecordId) -> Result<(CacheEntry, Vec<u8>), ProviderError> {
        let n = num_of(id).ok_or_else(|| err("bad id"))?;
        if !view.valid(n) {
            return Err(err("unknown record"));
        }
        let hint = view.hints.iter().find(|(m, _)| *m == n).map(|(_, h)| h.clone()).unwrap_or_default();
        let mut hint_rest = n.to_be_bytes().to_vec();
        hint_rest.extend_from_slice(&hint);
        let tomb = CacheEntry { key: row(&view.vault, TOMBSTONE, &n.to_be_bytes()), value: vec![] };
        Ok((tomb, row(&view.vault, HINT, &hint_rest)))
    }

    fn gc(&self, view: &MemView, _owner: &OwnerId) -> Result<(Vec<CacheEntry>, Vec<Vec<u8>>), ProviderError> {
        let mut deletes = vec![];
        for n in &view.revoked {
            if view.data.contains(n) {
                deletes.push(row(&view.vault, DATA, &n.to_be_bytes()));
            }
        }
        Ok((vec![], deletes))
    }

    fn prepare_read(&self, view: &MemView, id: &RecordId) -> Result<Vec<u8>, ProviderError> {
        if id.as_bytes() == b"ghost" {
            return Ok(row(&view.vault, DATA, b"ghost"));
        }
        let n = num_of(id).ok_or_else(|| err("bad id"))?;
        if view.valid(n) {
            Ok(row(&view.vault, DATA, &n.to_be_bytes()))
        } else {
            Err(err("unknown or revoked record"))
        }
    }

    fn read(&self, _view: &MemView, _id: &RecordId, stored: &Vec<u8>) -> Result<Vec<u8>, ProviderError> {
        Ok(stored.clone())
    }

    fn records(&self, view: &MemView) -> Vec<(RecordId, Vec<u8>)> {
        let mut out = vec![];
        for (n, h) in &view.hints {
            if view.valid(*n) {
                out.push((id_of(*n), h.clone()));
            }
        }
        out
    }
}

fn key(b: &[u8]) -> VaultKey {
    VaultKey::new(b.to_vec())
}

fn owner() -> OwnerId {
    OwnerId::new(b"owner-0001".to_vec())
}

fn new_client() -> Client<MemChain> {
    Client::new(owner(), Blob::new(MemChain))
}

fn ids(list: &[(RecordId, Vec<u8>)]) -> Vec<RecordId> {
    list.iter().map(|(id, _)| id.clone()).collect()
}

fn rows_of(client: &mut Client<MemChain>) -> Vec<(Vec<u8>, Vec<u8>)> {
    let mut rows = Snapshot::new(client).state;
    rows.sort();
    rows
}

#[test]
fn test_vaults() {
    let key1 = key(b"vault-key-1");
    let mut client = new_client();
    client.add_vault(&key1).unwrap();

    let tx_id = client.create_record(key1.clone(), b"data".to_vec()).unwrap();

    let key_2 = key(b"vault-key-2");
    client.add_vault(&key_2).unwrap();

    let tx_id_2 = client.create_record(key_2.clone(), b"more_data".to_vec()).unwrap();
    assert_eq!(ids(&client.list_valid_ids_for_vault(key1.clone()).unwrap()), vec![tx_id.clone().unwrap()]);
    assert_eq!(ids(&client.list_valid_ids_for_vault(key_2.clone()).unwrap()), vec![tx_id_2.clone().unwrap()]);
    assert_eq!(client.read_record(key_2.clone(), tx_id_2.clone().unwrap()).unwrap(), Some(b"more_data".to_vec()));
    assert_eq!(client.read_record(key1, tx_id.unwrap()).unwrap(), Some(b"data".to_vec()));

    client.revoke_record_by_id(tx_id_2.unwrap(), key_2.clone()).unwrap();

    client.preform_gc(key_2.clone()).unwrap();
    assert!(client.list_valid_ids_for_vault(key_2).unwrap().is_empty());
}

#[test]
fn test_snapshots() {
    let key1 = key(b"vault-key-1");
    let mut client = new_client();
    client.add_vault(&key1).unwrap();

    let tx_id = client.create_record(key1.clone(), b"data".to_vec()).unwrap();

    let key_2 = key(b"vault-key-2");
    let key_3 = key(b"vault-key-3");

    client.add_vault(&key_2).unwrap();

    let tx_id_2 = client.create_record(key_2.clone(), b"more_data".to_vec()).unwrap();
    client.list_valid_ids_for_vault(key1.clone()).unwrap();
    client.list_valid_ids_for_vault(key_2.clone()).unwrap();
    assert_eq!(client.read_record(key_2.clone(), tx_id_2.clone().unwrap()).unwrap(), Some(b"more_data".to_vec()));
    assert_eq!(client.read_record(key1.clone(), tx_id.clone().unwrap()).unwrap(), Some(b"data".to_vec()));

    client.add_vault(&key_3.clone()).unwrap();
    let tx_id_3 = client.create_record(key_3.clone(), b"3rd vault data".to_vec()).unwrap();
    assert_eq!(client.read_record(key_3.clone(), tx_id_3.clone().unwrap()).unwrap(), Some(b"3rd vault data".to_vec()));
    client.list_valid_ids_for_vault(key_3.clone()).unwrap();

    let bytes = encode_client(&mut client).unwrap();

    let mut client = decode_client(&bytes, MemChain).unwrap();

    client.preform_gc(key1.clone()).unwrap();
    client.preform_gc(key_2.clone()).unwrap();
    client.preform_gc(key_3.clone()).unwrap();

    let tx_id_4 = client
        .create_record(key_3.clone(), b"Another Piece of data in the 3rd vault".to_vec())
        .unwrap();

    client.list_valid_ids_for_vault(key_2.clone()).unwrap();
    client.list_valid_ids_for_vault(key1.clone()).unwrap();
    assert_eq!(client.list_valid_ids_for_vault(key_3.clone()).unwrap().len(), 2);

    assert_eq!(client.read_record(key1.clone(), tx_id.unwrap()).unwrap(), Some(b"data".to_vec()));
    assert_eq!(client.read_record(key_3.clone(), tx_id_3.unwrap()).unwrap(), Some(b"3rd vault data".to_vec()));
    assert_eq!(client.read_record(key_2.clone(), tx_id_2.unwrap()).unwrap(), Some(b"more_data".to_vec()));
    assert_eq!(
        client.read_record(key_3, tx_id_4.unwrap()).unwrap(),
        Some(b"Another Piece of data in the 3rd vault".to_vec())
    );
}

#[test]
fn create_then_read_gives_payload() {
    let k = key(b"K");
    let mut client = new_client();
    client.add_vault(&k).unwrap();
    let id = client.create_record(k.clone(), b"P".to_vec()).unwrap();
    assert!(id.is_some());
    assert_eq!(client.read_record(k, id.unwrap()).unwrap(), Some(b"P".to_vec()));
}

#[test]
fn create_record_ids_are_distinct() {
    let k = key(b"K");
    let mut client = new_client();
    client.add_vault(&k).unwrap();
    let a = client.create_record(k.clone(), b"a".to_vec()).unwrap().unwrap();
    let b = client.create_record(k.clone(), b"b".to_vec()).unwrap().unwrap();
    assert_ne!(a, b);
    client.revoke_record_by_id(a.clone(), k.clone()).unwrap();
    client.preform_gc(k.clone()).unwrap();
    let c = client.create_record(k.clone(), b"c".to_vec()).unwrap().unwrap();
    assert_ne!(c, a);
    assert_ne!(c, b);
}

#[test]
fn revoke_then_read_fails() {
    let k = key(b"K");
    let mut client = new_client();
    client.add_vault(&k).unwrap();
    let id = client.create_record(k.clone(), b"secret".to_vec()).unwrap().unwrap();
    let keep = client.create_record(k.clone(), b"kept".to_vec()).unwrap().unwrap();
    client.revoke_record_by_id(id.clone(), k.clone()).unwrap();
    assert!(matches!(client.read_record(k.clone(), id.clone()), Err(VaultError::Provider(_))));
    let listed = ids(&client.list_valid_ids_for_vault(k.clone()).unwrap());
    assert_eq!(listed, vec![keep.clone()]);
    assert_eq!(client.read_record(k, keep).unwrap(), Some(b"kept".to_vec()));
}

#[test]
fn revoke_of_unknown_record_is_provider_error_and_keeps_cache() {
    let k = key(b"K");
    let mut client = new_client();
    client.add_vault(&k).unwrap();
    let before = rows_of(&mut client);
    let r = client.revoke_record_by_id(id_of(99), k.clone());
    assert!(matches!(r, Err(VaultError::Provider(_))));
    assert_eq!(rows_of(&mut client), before);
    // the vault was checked in again and stays usable
    assert!(client.create_record(k, b"x".to_vec()).unwrap().is_some());
}

#[test]
fn gc_twice_deletes_nothing_more() {
    let k = key(b"K");
    let mut client = new_client();
    client.add_vault(&k).unwrap();
    let id = client.create_record(k.clone(), b"gone".to_vec()).unwrap().unwrap();
    client.create_record(k.clone(), b"stays".to_vec()).unwrap().unwrap();
    client.revoke_record_by_id(id, k.clone()).unwrap();
    let before_first = rows_of(&mut client);
    client.preform_gc(k.clone()).unwrap();
    let after_first = rows_of(&mut client);
    assert!(after_first.len() < before_first.len());
    client.preform_gc(k.clone()).unwrap();
    let after_second = rows_of(&mut client);
    assert_eq!(after_first, after_second);
}

#[test]
fn unknown_vault_is_a_no_op() {
    let k = key(b"K");
    let mut client = new_client();
    client.add_vault(&k).unwrap();
    let before = rows_of(&mut client);
    let other = key(b"never added");
    assert_eq!(client.create_record(other.clone(), b"p".to_vec()).unwrap(), None);
    assert_eq!(client.read_record(other.clone(), id_of(0)).unwrap(), None);
    assert!(client.list_valid_ids_for_vault(other.clone()).unwrap().is_empty());
    client.revoke_record_by_id(id_of(0), other.clone()).unwrap();
    client.preform_gc(other).unwrap();
    assert_eq!(rows_of(&mut client), before);
}

#[test]
fn two_vaults_scenario() {
    let k1 = key(b"K1");
    let k2 = key(b"K2");
    let mut client = new_client();
    client.add_vault(&k1).unwrap();
    let id1 = client.create_record(k1.clone(), b"data".to_vec()).unwrap().unwrap();
    client.add_vault(&k2).unwrap();
    let id2 = client.create_record(k2.clone(), b"more_data".to_vec()).unwrap().unwrap();
    assert_eq!(client.read_record(k1.clone(), id1).unwrap(), Some(b"data".to_vec()));
    assert_eq!(client.read_record(k2.clone(), id2.clone()).unwrap(), Some(b"more_data".to_vec()));
    client.revoke_record_by_id(id2, k2.clone()).unwrap();
    client.preform_gc(k2.clone()).unwrap();
    assert!(client.list_valid_ids_for_vault(k2).unwrap().is_empty());
}

#[test]
fn checkout_is_exclusive_until_checkin() {
    let k = key(b"K");
    let mut blob = Blob::new(MemChain);
    blob.add_vault(&k, &owner()).unwrap();
    assert!(!blob.is_checked_out(&k));
    let view = blob.get_view(&k);
    assert!(view.is_ok());
    assert!(blob.is_checked_out(&k));
    // operations on a checked-out vault are refused, not interleaved
    assert!(matches!(blob.create_record(&owner(), &k, b"p".to_vec()), Err(VaultError::AlreadyCheckedOut)));
    assert!(matches!(blob.read_record(&id_of(0), &k), Err(VaultError::AlreadyCheckedOut)));
    assert!(matches!(blob.garbage_collect(&owner(), &k), Err(VaultError::AlreadyCheckedOut)));
    assert!(matches!(blob.list_all_valid_by_key(&k), Err(VaultError::AlreadyCheckedOut)));
    blob.reset_view(&k).unwrap();
    assert!(!blob.is_checked_out(&k));
    assert!(blob.get_view(&k).is_ok());
}

#[test]
fn unknown_vault_is_not_checked_out() {
    let blob = Blob::new(MemChain);
    assert!(!blob.contains(&key(b"nope")));
    assert!(!blob.is_checked_out(&key(b"nope")));
}

#[test]
fn checkin_rebuilds_view_from_current_cache() {
    let k = key(b"K");
    let mut blob = Blob::new(MemChain);
    blob.add_vault(&k, &owner()).unwrap();
    blob.create_record(&owner(), &k, b"one".to_vec()).unwrap();
    let id = blob.create_record(&owner(), &k, b"two".to_vec()).unwrap().unwrap();
    blob.revoke_record(&owner(), &id, &k).unwrap();
    let (_, rows) = blob.offload_data();
    let mut cache_keys: Vec<Vec<u8>> = rows.into_iter().map(|(k, _)| k).collect();
    cache_keys.sort();
    let view = blob.get_view(&k).unwrap();
    let mut seen = view.listing.clone();
    seen.sort();
    assert_eq!(seen, cache_keys);
}

#[test]
fn missing_row_leaves_vault_checked_out() {
    let k = key(b"K");
    let mut blob = Blob::new(MemChain);
    blob.add_vault(&k, &owner()).unwrap();
    let r = blob.read_record(&RecordId::new(b"ghost".to_vec()), &k);
    assert_eq!(r, Err(VaultError::MissingEntry));
    assert!(r.unwrap_err().is_invariant_violation());
    assert!(blob.is_checked_out(&k));
    assert!(matches!(blob.list_all_valid_by_key(&k), Err(VaultError::AlreadyCheckedOut)));
}

#[test]
fn unloadable_vault_reports_provider_error() {
    // a key that was never started has no genesis row: its view cannot load
    let k = key(b"K");
    let mut blob = Blob::new(MemChain);
    assert!(matches!(blob.reset_view(&k), Err(VaultError::Provider(_))));
    assert!(blob.contains(&k));
    assert!(matches!(blob.get_view(&k), Err(VaultError::Provider(_))));
    // once the chain exists, the next checkout loads it
    blob.add_vault(&k, &owner()).unwrap();
    assert!(blob.get_view(&k).is_ok());
}

#[test]
fn snapshot_round_trip_keeps_owner_vaults_and_records() {
    let k1 = key(b"K1");
    let k2 = key(b"K2");
    let mut client = new_client();
    client.add_vault(&k1).unwrap();
    client.add_vault(&k2).unwrap();
    let id1 = client.create_record(k1.clone(), b"alpha".to_vec()).unwrap().unwrap();
    let id2 = client.create_record(k2.clone(), b"beta".to_vec()).unwrap().unwrap();
    let snap = Snapshot::new(&mut client);
    let rows = rows_of(&mut client);

    let mut restored = Client::new_from_snapshot(snap, MemChain);
    let again = Snapshot::new(&mut restored);
    assert_eq!(again.id, owner());
    let mut keys = again.keys.clone();
    keys.sort_by(|a, b| a.as_bytes().cmp(b.as_bytes()));
    assert_eq!(keys, vec![k1.clone(), k2.clone()]);
    assert_eq!(rows_of(&mut restored), rows);
    assert_eq!(restored.read_record(k1, id1).unwrap(), Some(b"alpha".to_vec()));
    assert_eq!(restored.read_record(k2, id2).unwrap(), Some(b"beta".to_vec()));
}

#[test]
fn snapshot_offload_gives_parts() {
    let snap = Snapshot { id: owner(), keys: vec![key(b"K")], state: vec![(vec![1], vec![2])] };
    let (id, keys, state) = snap.offload();
    assert_eq!(id, owner());
    assert_eq!(keys, vec![key(b"K")]);
    assert_eq!(state, vec![(vec![1], vec![2])]);
}

#[test]
fn snapshot_bytes_are_length_prefixed() {
    let snap = Snapshot {
        id: OwnerId::new(vec![1]),
        keys: vec![key(&[2])],
        state: vec![(vec![3], vec![4])],
    };
    let bytes = serialize_snapshot(&snap).unwrap();
    let expected: Vec<u8> = [
        &1u64.to_le_bytes()[..],
        &[1],
        &1u64.to_le_bytes(),
        &1u64.to_le_bytes(),
        &[2],
        &1u64.to_le_bytes(),
        &1u64.to_le_bytes(),
        &[3],
        &1u64.to_le_bytes(),
        &[4],
    ]
    .concat();
    assert_eq!(bytes, expected);
}

#[test]
fn snapshot_bytes_decode_with_trailing_bytes() {
    let snap = Snapshot {
        id: OwnerId::new(vec![9, 9]),
        keys: vec![key(b"a"), key(b"bc")],
        state: vec![(vec![1, 2], vec![3]), (vec![4], vec![])],
    };
    let mut bytes = serialize_snapshot(&snap).unwrap();
    bytes.extend_from_slice(&[7, 7, 7]);
    let back = deserialize_snapshot(&bytes).unwrap();
    assert_eq!(back.id, snap.id);
    assert_eq!(back.keys, snap.keys);
    assert_eq!(back.state, snap.state);
}

#[test]
fn malformed_snapshot_bytes_are_rejected() {
    assert!(matches!(deserialize_snapshot(&[1, 2, 3]), Err(VaultError::MalformedSnapshot)));
    assert!(matches!(decode_client(&[], MemChain), Err(VaultError::MalformedSnapshot)));
}

#[test]
fn test_actor_system() {
    let k = key(b"K");
    let mut service = BlobService::new(owner(), MemChain);
    assert!(matches!(service.handle(BlobEvent::Create(k.clone(), b"early".to_vec())), BlobReply::Txid(Ok(None))));
    assert!(matches!(service.handle(BlobEvent::AddVault(k.clone())), BlobReply::Done(Ok(()))));
    let id = match service.handle(BlobEvent::Create(k.clone(), b"Some data".to_vec())) {
        BlobReply::Txid(Ok(Some(id))) => id,
        _ => panic!("no id"),
    };
    match service.handle(BlobEvent::Read(k.clone(), id.clone())) {
        BlobReply::Plain(Ok(Some(p))) => assert_eq!(p, b"Some data".to_vec()),
        _ => panic!("no plaintext"),
    }
    match service.handle(BlobEvent::ListRecords(k.clone())) {
        BlobReply::Records(Ok(list)) => assert_eq!(ids(&list), vec![id.clone()]),
        _ => panic!("no listing"),
    }
    assert!(matches!(service.handle(BlobEvent::ReturnTxid(None)), BlobReply::Ignored));
    assert!(matches!(service.handle(BlobEvent::Init(OwnerId::new(b"other".to_vec()))), BlobReply::Ignored));
    assert!(matches!(service.handle(BlobEvent::Revoke(id.clone(), k.clone())), BlobReply::Done(Ok(()))));
    assert!(matches!(service.handle(BlobEvent::GC(k.clone())), BlobReply::Done(Ok(()))));
    match service.handle(BlobEvent::ListRecords(k.clone())) {
        BlobReply::Records(Ok(list)) => assert!(list.is_empty()),
        _ => panic!("no listing"),
    }
    assert!(matches!(service.handle(BlobEvent::DropOut), BlobReply::Closed));
    assert!(matches!(service.handle(BlobEvent::Create(k, b"late".to_vec())), BlobReply::Closed));
}

fn store_of(blob: &Blob<MemChain>) -> Vec<(Vec<u8>, Vec<u8>)> {
    let (_, mut rows) = blob.offload_data();
    rows.sort();
    rows
}

#[test]
fn finish_write_stores_rows_and_returns_id() {
    let k = key(b"K");
    let mut blob = Blob::new(MemChain);
    blob.add_vault(&k, &owner()).unwrap();
    let before = store_of(&blob);
    blob.get_view(&k).unwrap();
    let rows = vec![
        CacheEntry { key: vec![7], value: vec![1] },
        CacheEntry { key: vec![7], value: vec![2] },
        CacheEntry { key: vec![8], value: vec![3] },
    ];
    let r = blob.finish_write(&k, Ok((id_of(5), rows)));
    assert_eq!(r, Ok(Some(id_of(5))));
    let mut expected = before.clone();
    expected.push((vec![7], vec![2]));
    expected.push((vec![8], vec![3]));
    expected.sort();
    assert_eq!(store_of(&blob), expected);
    assert!(!blob.is_checked_out(&k));

    blob.get_view(&k).unwrap();
    let refused = blob.finish_write(&k, Err(err("stale")));
    assert_eq!(refused, Err(VaultError::Provider(err("stale"))));
    assert_eq!(store_of(&blob), expected);
    assert!(!blob.is_checked_out(&k));
}

#[test]
fn finish_gc_writes_then_deletes() {
    let k = key(b"K");
    let mut blob = Blob::new(MemChain);
    blob.add_vault(&k, &owner()).unwrap();
    let before = store_of(&blob);
    blob.get_view(&k).unwrap();
    let writes = vec![CacheEntry { key: vec![1], value: vec![1] }, CacheEntry { key: vec![2], value: vec![2] }];
    // a delete of a row written in the same step removes it: writes come first
    let r = blob.finish_gc(&k, Ok((writes, vec![vec![1], vec![9]])));
    assert_eq!(r, Ok(()));
    let mut expected = before.clone();
    expected.push((vec![2], vec![2]));
    expected.sort();
    assert_eq!(store_of(&blob), expected);
    assert!(!blob.is_checked_out(&k));
}

#[test]
fn finish_revoke_writes_tombstone_then_deletes() {
    let k = key(b"K");
    let mut blob = Blob::new(MemChain);
    blob.add_vault(&k, &owner()).unwrap();
    blob.commit(&vec![CacheEntry { key: vec![4], value: vec![4] }], &vec![]);
    let before = store_of(&blob);
    blob.get_view(&k).unwrap();
    let r = blob.finish_revoke(&k, Ok((CacheEntry { key: vec![5], value: vec![0] }, vec![4])));
    assert_eq!(r, Ok(()));
    let mut expected: Vec<(Vec<u8>, Vec<u8>)> = before.into_iter().filter(|(k, _)| k != &vec![4u8]).collect();
    expected.push((vec![5], vec![0]));
    expected.sort();
    assert_eq!(store_of(&blob), expected);
}

#[test]
fn fetch_row_reads_the_named_row() {
    let mut blob = Blob::new(MemChain);
    blob.commit(&vec![CacheEntry { key: vec![3], value: vec![30, 31] }], &vec![]);
    assert_eq!(blob.fetch_row(Ok(vec![3])), Ok(vec![30, 31]));
    assert_eq!(blob.fetch_row(Ok(vec![4])), Err(VaultError::MissingEntry));
    assert_eq!(blob.fetch_row(Err(err("revoked"))), Err(VaultError::Provider(err("revoked"))));
}

#[test]
fn finish_read_returns_provider_plaintext() {
    let k = key(b"K");
    let mut blob = Blob::new(MemChain);
    blob.add_vault(&k, &owner()).unwrap();
    let before = store_of(&blob);
    blob.get_view(&k).unwrap();
    assert_eq!(blob.finish_read(&k, Ok(b"plain".to_vec())), Ok(Some(b"plain".to_vec())));
    assert!(!blob.is_checked_out(&k));
    blob.get_view(&k).unwrap();
    assert_eq!(blob.finish_read(&k, Err(err("revoked"))), Err(VaultError::Provider(err("revoked"))));
    assert_eq!(store_of(&blob), before);
    assert!(!blob.is_checked_out(&k));
}

#[test]
fn finish_list_returns_provider_records() {
    let k = key(b"K");
    let mut blob = Blob::new(MemChain);
    blob.add_vault(&k, &owner()).unwrap();
    blob.get_view(&k).unwrap();
    let records = vec![(id_of(3), b"h".to_vec()), (id_of(1), vec![])];
    assert_eq!(blob.finish_list(&k, records.clone()), records);
    assert!(!blob.is_checked_out(&k));
}

#[test]
fn finish_add_writes_genesis_and_checks_in() {
    let k = key(b"K");
    let mut blob = Blob::new(MemChain);
    let genesis = MemChain.create_chain(&k, &owner());
    let row = genesis.key.clone();
    assert_eq!(blob.finish_add(&k, genesis), Ok(()));
    assert_eq!(store_of(&blob), vec![(row, owner().as_bytes().clone())]);
    assert!(blob.contains(&k));
    assert!(!blob.is_checked_out(&k));
    // a genesis row that is not the vault's own leaves it without a view
    let other = key(b"other");
    assert!(matches!(blob.finish_add(&other, CacheEntry { key: vec![9], value: vec![] }), Err(VaultError::Provider(_))));
    assert!(blob.contains(&other));
}

#[test]
fn snapshot_bytes_do_not_depend_on_insertion_order() {
    let k1 = key(b"K1");
    let k2 = key(b"K2");
    let mut first = new_client();
    first.add_vault(&k1).unwrap();
    first.add_vault(&k2).unwrap();
    first.create_record(k1.clone(), b"one".to_vec()).unwrap();
    first.create_record(k2.clone(), b"two".to_vec()).unwrap();
    let mut second = new_client();
    second.add_vault(&k2).unwrap();
    second.create_record(k2.clone(), b"two".to_vec()).unwrap();
    second.add_vault(&k1).unwrap();
    second.create_record(k1.clone(), b"one".to_vec()).unwrap();
    assert_eq!(encode_client(&mut first).unwrap(), encode_client(&mut second).unwrap());
    let snap = Snapshot::new(&mut second);
    assert_eq!(snap.keys, vec![k1, k2]);
    let mut rows = snap.state.clone();
    rows.sort();
    assert_eq!(snap.state, rows);
}
