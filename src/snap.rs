use vstd::prelude::*;

use crate::blob::key_set;
use crate::cache::{entries_map, lemma_entries_map_distinct, lemma_entries_map_same_views};
use crate::order::{lemma_sorted_unique, lex_lt};
use crate::client::{captures, restores, Client, Snapshot};
use crate::error::VaultError;
use crate::ids::{copy_bytes, OwnerId, VaultKey};
use crate::provider::ChainProvider;

verus! {

/// A snapshot laid out as plain byte strings: owner, vault keys, cache rows.
pub type SnapshotParts = (Vec<u8>, Vec<Vec<u8>>, Vec<(Vec<u8>, Vec<u8>)>);

/// The view of a snapshot's parts.
pub type PartsView = (Seq<u8>, Seq<Seq<u8>>, Seq<(Seq<u8>, Seq<u8>)>);

/// The bytes that bincode writes for the given parts.
pub uninterp spec fn bincode_of(v: (Seq<u8>, Seq<Seq<u8>>, Seq<(Seq<u8>, Seq<u8>)>)) -> Seq<u8>;

pub open spec fn parts_view(p: SnapshotParts) -> PartsView {
    (
        p.0@,
        p.1@.map_values(|b: Vec<u8>| b@),
        p.2@.map_values(|e: (Vec<u8>, Vec<u8>)| (e.0@, e.1@)),
    )
}

/// The parts that a snapshot is written as.
pub open spec fn snapshot_parts(s: Snapshot) -> PartsView {
    (
        s.id@,
        s.keys@.map_values(|k: VaultKey| k@),
        s.state@.map_values(|e: (Vec<u8>, Vec<u8>)| (e.0@, e.1@)),
    )
}

/// The bytes that a snapshot is written as.
pub open spec fn snapshot_bytes(s: Snapshot) -> Seq<u8> {
    bincode_of(snapshot_parts(s))
}

/// bincode's error, carried opaque out of the two wrappers below.
#[verifier::external_type_specification]
#[verifier::external_body]
pub struct ExErrorKind(bincode::ErrorKind);

/// Relies on bincode::serialize: the bytes it writes depend on the value alone,
/// and with no size limit and sequences of known length it cannot fail.
#[verifier::external_body]
fn bincode_encode(parts: &SnapshotParts) -> (r: Result<Vec<u8>, Box<bincode::ErrorKind>>)
    ensures
        r is Ok,
        r is Ok ==> r->Ok_0@ == bincode_of(parts_view(*parts)),
{
    bincode::serialize(parts)
}

/// Relies on bincode::deserialize: bytes that begin with what serialize wrote
/// for a value give that value back, trailing bytes ignored, and any value it
/// gives back was written that way at the head of the bytes.
#[verifier::external_body]
fn bincode_decode(bytes: &[u8]) -> (r: Result<SnapshotParts, Box<bincode::ErrorKind>>)
    ensures
        forall|v: PartsView| #![trigger bincode_of(v)]
            bincode_of(v).is_prefix_of(bytes@) ==> r is Ok && parts_view(r->Ok_0) == v,
        r is Ok ==> bincode_of(parts_view(r->Ok_0)).is_prefix_of(bytes@),
{
    bincode::deserialize(bytes)
}

fn keys_to_bytes(keys: &Vec<VaultKey>) -> (r: Vec<Vec<u8>>)
    ensures
        r@.map_values(|b: Vec<u8>| b@) == keys@.map_values(|k: VaultKey| k@),
{
    let mut out: Vec<Vec<u8>> = Vec::new();
    let mut i: usize = 0;
    while i < keys.len()
        invariant
            0 <= i <= keys@.len(),
            out@.len() == i,
            forall|j: int| 0 <= j < i ==> #[trigger] out@[j]@ == keys@[j]@,
        decreases keys@.len() - i,
    {
        out.push(copy_bytes(keys[i].as_bytes()));
        i = i + 1;
    }
    assert(out@.map_values(|b: Vec<u8>| b@) =~= keys@.map_values(|k: VaultKey| k@));
    out
}

fn bytes_to_keys(raw: Vec<Vec<u8>>) -> (r: Vec<VaultKey>)
    ensures
        r@.map_values(|k: VaultKey| k@) == raw@.map_values(|b: Vec<u8>| b@),
{
    let mut out: Vec<VaultKey> = Vec::new();
    let mut i: usize = 0;
    while i < raw.len()
        invariant
            0 <= i <= raw@.len(),
            out@.len() == i,
            forall|j: int| 0 <= j < i ==> #[trigger] out@[j]@ == raw@[j]@,
        decreases raw@.len() - i,
    {
        out.push(VaultKey::new(copy_bytes(&raw[i])));
        i = i + 1;
    }
    assert(out@.map_values(|k: VaultKey| k@) =~= raw@.map_values(|b: Vec<u8>| b@));
    out
}

fn copy_rows(rows: &Vec<(Vec<u8>, Vec<u8>)>) -> (r: Vec<(Vec<u8>, Vec<u8>)>)
    ensures
        r@.map_values(|e: (Vec<u8>, Vec<u8>)| (e.0@, e.1@)) == rows@.map_values(
            |e: (Vec<u8>, Vec<u8>)| (e.0@, e.1@),
        ),
{
    let mut out: Vec<(Vec<u8>, Vec<u8>)> = Vec::new();
    let mut i: usize = 0;
    while i < rows.len()
        invariant
            0 <= i <= rows@.len(),
            out@.len() == i,
            forall|j: int| 0 <= j < i ==> #[trigger] out@[j].0@ == rows@[j].0@ && out@[j].1@ == rows@[j].1@,
        decreases rows@.len() - i,
    {
        out.push((copy_bytes(&rows[i].0), copy_bytes(&rows[i].1)));
        i = i + 1;
    }
    assert(out@.map_values(|e: (Vec<u8>, Vec<u8>)| (e.0@, e.1@)) =~= rows@.map_values(
        |e: (Vec<u8>, Vec<u8>)| (e.0@, e.1@),
    ));
    out
}

/// Writes a snapshot as bytes.
pub fn serialize_snapshot(snap: &Snapshot) -> (r: Result<Vec<u8>, VaultError>)
    ensures
        r is Ok,
        r is Ok ==> r->Ok_0@ == snapshot_bytes(*snap),
{
    let id = copy_bytes(snap.id.as_bytes());
    let keys = keys_to_bytes(&snap.keys);
    let state = copy_rows(&snap.state);
    let parts: SnapshotParts = (id, keys, state);
    assert(parts_view(parts) == snapshot_parts(*snap));
    match bincode_encode(&parts) {
        Ok(b) => Ok(b),
        Err(_) => Err(VaultError::MalformedSnapshot),
    }
}

/// Reads a snapshot back from bytes. Bytes that begin with what a snapshot is
/// written as give that snapshot; any snapshot given was written at their head.
pub fn deserialize_snapshot(bytes: &[u8]) -> (r: Result<Snapshot, VaultError>)
    ensures
        forall|s: Snapshot| #[trigger]
            snapshot_bytes(s).is_prefix_of(bytes@) ==> (r matches Ok(t) && snapshot_parts(t) == snapshot_parts(s)),
        match r {
            Ok(t) => snapshot_bytes(t).is_prefix_of(bytes@),
            Err(e) => e == VaultError::MalformedSnapshot,
        },
{
    match bincode_decode(bytes) {
        Ok(parts) => {
            let (id, raw_keys, state) = parts;
            let keys = bytes_to_keys(raw_keys);
            let snap = Snapshot { id: OwnerId::new(id), keys, state };
            assert(snapshot_parts(snap) == parts_view(parts));
            Ok(snap)
        },
        Err(_) => Err(VaultError::MalformedSnapshot),
    }
}

/// Snapshots that are written alike rebuild alike.
pub proof fn lemma_same_parts_restore<P: ChainProvider>(c: Client<P>, t: Snapshot, s: Snapshot)
    requires
        restores(c, t),
        snapshot_parts(t) == snapshot_parts(s),
    ensures
        restores(c, s),
{
    let f = |k: VaultKey| k@;
    assert(t.keys@.len() == t.keys@.map_values(f).len());
    assert(s.keys@.len() == s.keys@.map_values(f).len());
    assert forall|k: Seq<u8>| #[trigger] key_set(t.keys@).contains(k) == key_set(s.keys@).contains(k) by {
        if key_set(t.keys@).contains(k) {
            let i = choose|i: int| 0 <= i < t.keys@.len() && #[trigger] t.keys@[i]@ == k;
            assert(t.keys@.map_values(f)[i] == s.keys@.map_values(f)[i]);
            assert(s.keys@[i]@ == k);
        }
        if key_set(s.keys@).contains(k) {
            let i = choose|i: int| 0 <= i < s.keys@.len() && #[trigger] s.keys@[i]@ == k;
            assert(t.keys@.map_values(f)[i] == s.keys@.map_values(f)[i]);
            assert(t.keys@[i]@ == k);
        }
    }
    assert(key_set(t.keys@) =~= key_set(s.keys@));
    lemma_entries_map_same_views(t.state@, s.state@);
}

/// Clients with the same owner, the same vaults and the same cache contents
/// are captured alike, whatever order their vaults and rows came in, and so
/// are written as the same bytes.
pub proof fn lemma_capture_canonical<P: ChainProvider, Q: ChainProvider>(
    c: Client<P>,
    d: Client<Q>,
    s: Snapshot,
    t: Snapshot,
)
    requires
        captures(s, c),
        captures(t, d),
        c.owner() == d.owner(),
        c.manager().slots().dom() == d.manager().slots().dom(),
        c.manager().store() == d.manager().store(),
    ensures
        snapshot_parts(s) == snapshot_parts(t),
        snapshot_bytes(s) == snapshot_bytes(t),
{
    let fk = |k: VaultKey| k@;
    let a = s.keys@.map_values(fk);
    let b = t.keys@.map_values(fk);
    assert forall|i: int, j: int| 0 <= i < j < a.len() implies lex_lt(#[trigger] a[i], #[trigger] a[j]) by {
        assert(lex_lt(s.keys@[i]@, s.keys@[j]@));
    }
    assert forall|i: int, j: int| 0 <= i < j < b.len() implies lex_lt(#[trigger] b[i], #[trigger] b[j]) by {
        assert(lex_lt(t.keys@[i]@, t.keys@[j]@));
    }
    assert forall|x: Seq<u8>| #![trigger a.contains(x)] #![trigger b.contains(x)] a.contains(x) <==> b.contains(x) by {
        if a.contains(x) {
            let i = choose|i: int| 0 <= i < a.len() && a[i] == x;
            assert(s.keys@[i]@ == x);
            assert(key_set(s.keys@).contains(x));
            assert(key_set(t.keys@).contains(x));
            let j = choose|j: int| 0 <= j < t.keys@.len() && #[trigger] t.keys@[j]@ == x;
            assert(b[j] == x);
        }
        if b.contains(x) {
            let j = choose|j: int| 0 <= j < b.len() && b[j] == x;
            assert(t.keys@[j]@ == x);
            assert(key_set(t.keys@).contains(x));
            assert(key_set(s.keys@).contains(x));
            let i = choose|i: int| 0 <= i < s.keys@.len() && #[trigger] s.keys@[i]@ == x;
            assert(a[i] == x);
        }
    }
    lemma_sorted_unique(a, b);

    let fr = |e: (Vec<u8>, Vec<u8>)| e.0@;
    let ka = s.state@.map_values(fr);
    let kb = t.state@.map_values(fr);
    lemma_entries_map_distinct(s.state@);
    lemma_entries_map_distinct(t.state@);
    assert forall|i: int, j: int| 0 <= i < j < ka.len() implies lex_lt(#[trigger] ka[i], #[trigger] ka[j]) by {
        assert(lex_lt(s.state@[i].0@, s.state@[j].0@));
    }
    assert forall|i: int, j: int| 0 <= i < j < kb.len() implies lex_lt(#[trigger] kb[i], #[trigger] kb[j]) by {
        assert(lex_lt(t.state@[i].0@, t.state@[j].0@));
    }
    assert forall|x: Seq<u8>| #![trigger ka.contains(x)] #![trigger kb.contains(x)] ka.contains(x) <==> kb.contains(x) by {
        if ka.contains(x) {
            let i = choose|i: int| 0 <= i < ka.len() && ka[i] == x;
            assert(s.state@[i].0@ == x);
            assert(entries_map(t.state@).contains_key(x));
            let j = choose|j: int| 0 <= j < t.state@.len() && t.state@[j].0@ == x;
            assert(kb[j] == x);
        }
        if kb.contains(x) {
            let j = choose|j: int| 0 <= j < kb.len() && kb[j] == x;
            assert(t.state@[j].0@ == x);
            assert(entries_map(s.state@).contains_key(x));
            let i = choose|i: int| 0 <= i < s.state@.len() && s.state@[i].0@ == x;
            assert(ka[i] == x);
        }
    }
    lemma_sorted_unique(ka, kb);
    let fv = |e: (Vec<u8>, Vec<u8>)| (e.0@, e.1@);
    assert(ka.len() == kb.len());
    assert forall|i: int| 0 <= i < s.state@.len() implies #[trigger] s.state@.map_values(fv)[i] == t.state@.map_values(fv)[i] by {
        assert(ka[i] == kb[i]);
        assert(s.state@[i].0@ == t.state@[i].0@);
    }
    assert(s.state@.map_values(fv) =~= t.state@.map_values(fv));
    assert(s.keys@.map_values(fk) =~= t.keys@.map_values(fk));
}

/// Captures `client` and writes the snapshot as bytes.
pub fn encode_client<P: ChainProvider>(client: &mut Client<P>) -> (r: Result<Vec<u8>, VaultError>)
    requires
        old(client).wf(),
    ensures
        *final(client) == *old(client),
        r is Ok,
        r is Ok ==> exists|s: Snapshot| #![trigger captures(s, *old(client))]
            captures(s, *old(client)) && r->Ok_0@ == snapshot_bytes(s),
{
    let snap = Snapshot::new(client);
    let ghost s = snap;
    let r = serialize_snapshot(&snap);
    assert(captures(s, *old(client)));
    r
}

/// Reads a snapshot back from bytes and rebuilds the client it holds.
pub fn decode_client<P: ChainProvider>(bytes: &[u8], provider: P) -> (r: Result<Client<P>, VaultError>)
    ensures
        match r {
            Ok(c) => exists|s: Snapshot| #![trigger restores(c, s)] snapshot_bytes(s).is_prefix_of(bytes@) && restores(c, s),
            Err(e) => e == VaultError::MalformedSnapshot,
        },
        forall|s: Snapshot| #[trigger]
            snapshot_bytes(s).is_prefix_of(bytes@) ==> (r matches Ok(c) && restores(c, s)),
{
    match deserialize_snapshot(bytes) {
        Ok(snap) => {
            let ghost t = snap;
            let r = Ok(Client::new_from_snapshot(snap, provider));
            assert(r matches Ok(c) && restores(c, t));
            assert forall|s: Snapshot| #[trigger]
                snapshot_bytes(s).is_prefix_of(bytes@) implies (r matches Ok(c) && restores(c, s)) by {
                lemma_same_parts_restore(r->Ok_0, t, s);
            }
            r
        },
        Err(e) => Err(e),
    }
}

} // verus!
