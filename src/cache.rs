use vstd::prelude::*;

use crate::ids::{bytes_eq, copy_bytes};
use crate::order::{bytes_lt, lemma_lex_irreflexive, lemma_lex_total, lemma_lex_trans, lex_lt};

verus! {

/// The map that a sequence of (key, value) pairs describes when the pairs are
/// stored one after another, a later pair replacing an earlier one of equal key.
pub open spec fn entries_map(s: Seq<(Vec<u8>, Vec<u8>)>) -> Map<Seq<u8>, Seq<u8>>
    decreases s.len(),
{
    if s.len() == 0 {
        Map::empty()
    } else {
        entries_map(s.drop_last()).insert(s.last().0@, s.last().1@)
    }
}

/// No two pairs of the sequence share a key.
pub open spec fn distinct_keys(s: Seq<(Vec<u8>, Vec<u8>)>) -> bool {
    forall|i: int, j: int| 0 <= i < s.len() && 0 <= j < s.len() && i != j ==> s[i].0@ != s[j].0@
}

/// The pairs come in strictly increasing order of key.
pub open spec fn rows_sorted(s: Seq<(Vec<u8>, Vec<u8>)>) -> bool {
    forall|i: int, j: int| 0 <= i < j < s.len() ==> lex_lt(#[trigger] s[i].0@, #[trigger] s[j].0@)
}

/// The byte strings come in strictly increasing order.
pub open spec fn listing_sorted(s: Seq<Vec<u8>>) -> bool {
    forall|i: int, j: int| 0 <= i < j < s.len() ==> lex_lt(#[trigger] s[i]@, #[trigger] s[j]@)
}

/// The byte strings of a listing, as a set.
pub open spec fn listing_set(s: Seq<Vec<u8>>) -> Set<Seq<u8>> {
    Set::new(|k: Seq<u8>| exists|i: int| 0 <= i < s.len() && #[trigger] s[i]@ == k)
}

/// No byte string occurs twice in the listing.
pub open spec fn listing_distinct(s: Seq<Vec<u8>>) -> bool {
    forall|i: int, j: int| 0 <= i < s.len() && 0 <= j < s.len() && i != j ==> s[i]@ != s[j]@
}

pub proof fn lemma_entries_map_push(s: Seq<(Vec<u8>, Vec<u8>)>, p: (Vec<u8>, Vec<u8>))
    ensures
        entries_map(s.push(p)) == entries_map(s).insert(p.0@, p.1@),
{
    assert(s.push(p).drop_last() =~= s);
}

/// Pair sequences that look the same describe the same map.
pub proof fn lemma_entries_map_same_views(a: Seq<(Vec<u8>, Vec<u8>)>, b: Seq<(Vec<u8>, Vec<u8>)>)
    requires
        a.map_values(|e: (Vec<u8>, Vec<u8>)| (e.0@, e.1@)) == b.map_values(|e: (Vec<u8>, Vec<u8>)| (e.0@, e.1@)),
    ensures
        entries_map(a) == entries_map(b),
    decreases a.len(),
{
    let f = |e: (Vec<u8>, Vec<u8>)| (e.0@, e.1@);
    assert(a.len() == a.map_values(f).len());
    assert(b.len() == b.map_values(f).len());
    if a.len() > 0 {
        let n = a.len() - 1;
        assert(a.drop_last().map_values(f) =~= a.map_values(f).drop_last());
        assert(b.drop_last().map_values(f) =~= b.map_values(f).drop_last());
        assert(a.map_values(f)[n] == f(a[n]));
        assert(b.map_values(f)[n] == f(b[n]));
        lemma_entries_map_same_views(a.drop_last(), b.drop_last());
    }
}

/// With keys distinct, each pair stands in the map the sequence describes,
/// and the map holds no other key.
pub proof fn lemma_entries_map_distinct(s: Seq<(Vec<u8>, Vec<u8>)>)
    requires
        distinct_keys(s),
    ensures
        forall|i: int|
            0 <= i < s.len() ==> entries_map(s).contains_key(#[trigger] s[i].0@) && entries_map(s)[s[i].0@]
                == s[i].1@,
        forall|k: Seq<u8>| #[trigger]
            entries_map(s).contains_key(k) ==> exists|i: int| 0 <= i < s.len() && s[i].0@ == k,
    decreases s.len(),
{
    if s.len() > 0 {
        let t = s.drop_last();
        let n = s.len() - 1;
        assert forall|i: int, j: int| 0 <= i < t.len() && 0 <= j < t.len() && i != j implies t[i].0@ != t[j].0@ by {
            assert(t[i] == s[i] && t[j] == s[j]);
        }
        lemma_entries_map_distinct(t);
        assert(s.last() == s[n]);
        assert(entries_map(s) == entries_map(t).insert(s[n].0@, s[n].1@));
        assert forall|i: int| 0 <= i < s.len() implies entries_map(s).contains_key(#[trigger] s[i].0@)
            && entries_map(s)[s[i].0@] == s[i].1@ by {
            if i < n {
                assert(s[i] == t[i]);
                assert(s[i].0@ != s[n].0@);
            }
        }
        assert forall|k: Seq<u8>| #[trigger] entries_map(s).contains_key(k) implies exists|i: int|
            0 <= i < s.len() && s[i].0@ == k by {
            if k != s[n].0@ {
                assert(entries_map(t).contains_key(k));
                let i = choose|i: int| 0 <= i < t.len() && t[i].0@ == k;
                assert(s[i] == t[i]);
            } else {
                assert(s[n].0@ == k);
            }
        }
    }
}

/// A stored payload.
#[derive(Clone, Debug)]
pub struct Value<T>(T);

impl<T> Value<T> {
    pub fn new(val: T) -> (r: Self)
        ensures
            r.get() == val,
    {
        Value(val)
    }

    pub closed spec fn get(&self) -> T {
        self.0
    }

    pub fn into_inner(self) -> (r: T)
        ensures
            r == self.get(),
    {
        self.0
    }

    pub fn inner(&self) -> (r: &T)
        ensures
            *r == self.get(),
    {
        &self.0
    }
}

/// The single store of every chain's entries: opaque binary keys mapped to
/// opaque binary payloads. It knows nothing of chains.
pub struct Cache {
    table: Vec<(Vec<u8>, Value<Vec<u8>>)>,
    contents: Ghost<Map<Seq<u8>, Seq<u8>>>,
}

/// A request to the cache.
pub enum CRequest {
    List,
    Write(Vec<u8>, Vec<u8>),
    Delete(Vec<u8>),
    Read(Vec<u8>),
}

/// The cache's answer to a request.
pub enum CResult {
    List(Vec<Vec<u8>>),
    Write,
    Delete,
    Read(Vec<u8>),
    /// A read of a key that is absent, which callers rule out beforehand.
    NotFound,
}

impl View for Cache {
    type V = Map<Seq<u8>, Seq<u8>>;

    closed spec fn view(&self) -> Map<Seq<u8>, Seq<u8>> {
        self.contents@
    }
}

impl Cache {
    /// The table holds each key once, and the same pairs as the map it stands for.
    pub closed spec fn wf(&self) -> bool {
        &&& forall|i: int, j: int|
            0 <= i < self.table@.len() && 0 <= j < self.table@.len() && i != j
                ==> self.table@[i].0@ != self.table@[j].0@
        &&& forall|i: int|
            0 <= i < self.table@.len() ==> {
                &&& self.contents@.contains_key(#[trigger] self.table@[i].0@)
                &&& self.contents@[self.table@[i].0@] == self.table@[i].1.get()@
            }
        &&& forall|k: Seq<u8>|
            #[trigger] self.contents@.contains_key(k) ==> exists|i: int|
                0 <= i < self.table@.len() && self.table@[i].0@ == k
        &&& forall|i: int, j: int|
            0 <= i < j < self.table@.len() ==> lex_lt(#[trigger] self.table@[i].0@, #[trigger] self.table@[j].0@)
    }

    pub fn new() -> (r: Self)
        ensures
            r.wf(),
            r@ == Map::<Seq<u8>, Seq<u8>>::empty(),
    {
        Cache { table: Vec::new(), contents: Ghost(Map::empty()) }
    }

    fn find(&self, key: &Vec<u8>) -> (r: Option<usize>)
        requires
            self.wf(),
        ensures
            match r {
                Some(i) => i < self.table@.len() && self.table@[i as int].0@ == key@,
                None => !self@.contains_key(key@),
            },
    {
        let mut i: usize = 0;
        while i < self.table.len()
            invariant
                0 <= i <= self.table@.len(),
                forall|j: int| 0 <= j < i ==> self.table@[j].0@ != key@,
            decreases self.table@.len() - i,
        {
            if bytes_eq(&self.table[i].0, key) {
                return Some(i);
            }
            i = i + 1;
        }
        None
    }

    /// Whether the cache holds a row under `key`.
    pub fn contains_key(&self, key: &Vec<u8>) -> (r: bool)
        requires
            self.wf(),
        ensures
            r == self@.contains_key(key@),
    {
        self.find(key).is_some()
    }

    /// Stores `value` under `key`, replacing what was there.
    pub fn add_data(&mut self, key: Vec<u8>, value: Vec<u8>)
        requires
            old(self).wf(),
        ensures
            final(self).wf(),
            final(self)@ == old(self)@.insert(key@, value@),
    {
        let ghost new_map = self.contents@.insert(key@, value@);
        match self.find(&key) {
            Some(i) => {
                self.table.set(i, (key, Value::new(value)));
                self.contents = Ghost(new_map);
                assert forall|k: Seq<u8>| #[trigger] self.contents@.contains_key(k) implies exists|j: int|
                    0 <= j < self.table@.len() && self.table@[j].0@ == k by {
                    if k != self.table@[i as int].0@ {
                        let j = choose|j: int| 0 <= j < old(self).table@.len() && old(self).table@[j].0@ == k;
                        assert(self.table@[j].0@ == k);
                    }
                }
            },
            None => {
                let mut p: usize = 0;
                while p < self.table.len() && !bytes_lt(&key, &self.table[p].0)
                    invariant
                        self.wf(),
                        !self@.contains_key(key@),
                        0 <= p <= self.table@.len(),
                        forall|j: int| 0 <= j < p ==> lex_lt(#[trigger] self.table@[j].0@, key@),
                    decreases self.table@.len() - p,
                {
                    proof {
                        lemma_lex_total(key@, self.table@[p as int].0@);
                    }
                    p = p + 1;
                }
                let ghost t = self.table@;
                proof {
                    assert forall|j: int| p <= j < t.len() implies lex_lt(key@, #[trigger] t[j].0@) by {
                        if j > p {
                            lemma_lex_trans(key@, t[p as int].0@, t[j].0@);
                        }
                    }
                }
                self.table.insert(p, (key, Value::new(value)));
                self.contents = Ghost(new_map);
                let ghost u = self.table@;
                assert forall|j: int| 0 <= j < u.len() implies #[trigger] u[j] == (if j < p {
                    t[j]
                } else if j == p {
                    u[p as int]
                } else {
                    t[j - 1]
                }) by {}
                assert forall|i: int, j: int| 0 <= i < j < u.len() implies lex_lt(
                    #[trigger] u[i].0@,
                    #[trigger] u[j].0@,
                ) by {
                    if i < p && j == p {
                    } else if i < p && j > p {
                        assert(lex_lt(t[i].0@, key@));
                        assert(lex_lt(key@, t[j - 1].0@));
                        lemma_lex_trans(t[i].0@, key@, t[j - 1].0@);
                    } else if i == p {
                        assert(lex_lt(key@, t[j - 1].0@));
                    } else if i > p {
                        assert(lex_lt(t[i - 1].0@, t[j - 1].0@));
                    }
                }
                assert forall|i: int, j: int|
                    0 <= i < u.len() && 0 <= j < u.len() && i != j implies u[i].0@ != u[j].0@ by {
                    if i < j {
                        lemma_lex_irreflexive(u[j].0@);
                    } else {
                        lemma_lex_irreflexive(u[i].0@);
                    }
                }
                assert forall|k: Seq<u8>| #[trigger] self.contents@.contains_key(k) implies exists|j: int|
                    0 <= j < self.table@.len() && self.table@[j].0@ == k by {
                    if k != key@ {
                        let j = choose|j: int| 0 <= j < t.len() && t[j].0@ == k;
                        if j < p {
                            assert(u[j].0@ == k);
                        } else {
                            assert(u[j + 1].0@ == k);
                        }
                    } else {
                        assert(u[p as int].0@ == k);
                    }
                }
                assert forall|j: int| 0 <= j < u.len() implies {
                    &&& self.contents@.contains_key(#[trigger] u[j].0@)
                    &&& self.contents@[u[j].0@] == u[j].1.get()@
                } by {
                    if j < p {
                        assert(u[j] == t[j]);
                    } else if j > p {
                        assert(u[j] == t[j - 1]);
                    }
                }
            },
        }
    }

    /// The payload stored under `key`, if any.
    pub fn read_data(&self, key: &Vec<u8>) -> (r: Option<Vec<u8>>)
        requires
            self.wf(),
        ensures
            match r {
                Some(v) => self@.contains_key(key@) && v@ == self@[key@],
                None => !self@.contains_key(key@),
            },
    {
        match self.find(key) {
            Some(i) => Some(copy_bytes(self.table[i].1.inner())),
            None => None,
        }
    }

    /// Removes the entry stored under `key`, if any.
    pub fn remove_data(&mut self, key: &Vec<u8>)
        requires
            old(self).wf(),
        ensures
            final(self).wf(),
            final(self)@ == old(self)@.remove(key@),
    {
        match self.find(key) {
            Some(i) => {
                let ghost old_table = self.table@;
                self.table.remove(i);
                self.contents = Ghost(self.contents@.remove(key@));
                assert forall|j: int| 0 <= j < self.table@.len() implies
                    #[trigger] self.table@[j] == old_table[if j < i { j } else { j + 1 }] by {}
                assert forall|k: Seq<u8>| #[trigger] self.contents@.contains_key(k) implies exists|j: int|
                    0 <= j < self.table@.len() && self.table@[j].0@ == k by {
                    let j = choose|j: int| 0 <= j < old_table.len() && old_table[j].0@ == k;
                    if j < i {
                        assert(self.table@[j].0@ == k);
                    } else {
                        assert(j != i);
                        assert(self.table@[j - 1].0@ == k);
                    }
                }
            },
            None => {
                assert(self.contents@.remove(key@) =~= self.contents@);
            },
        }
    }

    /// Every key stored, each once.
    pub fn list_keys(&self) -> (r: Vec<Vec<u8>>)
        requires
            self.wf(),
        ensures
            listing_set(r@) == self@.dom(),
            listing_distinct(r@),
            listing_sorted(r@),
    {
        let mut out: Vec<Vec<u8>> = Vec::new();
        let mut i: usize = 0;
        while i < self.table.len()
            invariant
                self.wf(),
                0 <= i <= self.table@.len(),
                out@.len() == i,
                forall|j: int| 0 <= j < i ==> #[trigger] out@[j]@ == self.table@[j].0@,
            decreases self.table@.len() - i,
        {
            out.push(copy_bytes(&self.table[i].0));
            i = i + 1;
        }
        assert forall|k: Seq<u8>| #[trigger] listing_set(out@).contains(k) == self@.dom().contains(k) by {
            if self@.contains_key(k) {
                let j = choose|j: int| 0 <= j < self.table@.len() && self.table@[j].0@ == k;
                assert(out@[j]@ == k);
            }
            if listing_set(out@).contains(k) {
                let j = choose|j: int| 0 <= j < out@.len() && #[trigger] out@[j]@ == k;
                assert(self.contents@.contains_key(self.table@[j].0@));
            }
        }
        assert(listing_set(out@) =~= self@.dom());
        out
    }

    /// Every stored pair, each key once.
    pub fn dump(&self) -> (r: Vec<(Vec<u8>, Vec<u8>)>)
        requires
            self.wf(),
        ensures
            entries_map(r@) == self@,
            distinct_keys(r@),
            rows_sorted(r@),
    {
        let mut out: Vec<(Vec<u8>, Vec<u8>)> = Vec::new();
        let mut i: usize = 0;
        while i < self.table.len()
            invariant
                self.wf(),
                0 <= i <= self.table@.len(),
                out@.len() == i,
                forall|j: int|
                    0 <= j < i ==> #[trigger] out@[j].0@ == self.table@[j].0@ && out@[j].1@
                        == self.table@[j].1.get()@,
                forall|k: Seq<u8>|
                    #[trigger] entries_map(out@).contains_key(k) <==> exists|j: int|
                        0 <= j < i && self.table@[j].0@ == k,
                forall|j: int|
                    0 <= j < i ==> entries_map(out@).contains_key(#[trigger] self.table@[j].0@)
                        && entries_map(out@)[self.table@[j].0@] == self.table@[j].1.get()@,
            decreases self.table@.len() - i,
        {
            let k = copy_bytes(&self.table[i].0);
            let v = copy_bytes(self.table[i].1.inner());
            proof {
                lemma_entries_map_push(out@, (k, v));
            }
            out.push((k, v));
            assert forall|kk: Seq<u8>| #[trigger] entries_map(out@).contains_key(kk) <==> exists|j: int|
                0 <= j < i + 1 && self.table@[j].0@ == kk by {
                if kk == self.table@[i as int].0@ {
                    assert(self.table@[i as int].0@ == kk);
                }
            }
            i = i + 1;
        }
        assert forall|k: Seq<u8>| #[trigger] entries_map(out@).contains_key(k) == self@.contains_key(k) by {
            if self@.contains_key(k) {
                let j = choose|j: int| 0 <= j < self.table@.len() && self.table@[j].0@ == k;
                assert(entries_map(out@).contains_key(self.table@[j].0@));
            }
        }
        assert(entries_map(out@) =~= self@);
        out
    }

    /// Hands out every stored pair, each key once.
    pub fn offload_data(self) -> (r: Vec<(Vec<u8>, Vec<u8>)>)
        requires
            self.wf(),
        ensures
            entries_map(r@) == self@,
            distinct_keys(r@),
            rows_sorted(r@),
    {
        self.dump()
    }

    /// Stores the given pairs one after another.
    pub fn upload_data(&mut self, map: Vec<(Vec<u8>, Vec<u8>)>)
        requires
            old(self).wf(),
        ensures
            final(self).wf(),
            final(self)@ == old(self)@.union_prefer_right(entries_map(map@)),
    {
        let mut i: usize = 0;
        while i < map.len()
            invariant
                self.wf(),
                0 <= i <= map@.len(),
                self@ == old(self)@.union_prefer_right(entries_map(map@.take(i as int))),
            decreases map@.len() - i,
        {
            let k = copy_bytes(&map[i].0);
            let v = copy_bytes(&map[i].1);
            proof {
                assert(map@.take(i as int + 1).drop_last() =~= map@.take(i as int));
                assert(map@.take(i as int + 1).last() == map@[i as int]);
            }
            self.add_data(k, v);
            assert(self@ =~= old(self)@.union_prefer_right(entries_map(map@.take(i as int + 1))));
            i = i + 1;
        }
        assert(map@.take(map@.len() as int) =~= map@);
    }

    /// Answers one request: listing, writing, deleting or reading. A read of a
    /// key that the cache does not hold is a broken calling discipline: every
    /// read follows a listing that showed the key.
    pub fn send(&mut self, req: CRequest) -> (r: CResult)
        requires
            old(self).wf(),
            req matches CRequest::Read(k) ==> old(self)@.contains_key(k@),
        ensures
            final(self).wf(),
            match req {
                CRequest::List => final(self)@ == old(self)@ && match r {
                    CResult::List(keys) => listing_set(keys@) == old(self)@.dom() && listing_distinct(keys@),
                    _ => false,
                },
                CRequest::Write(k, v) => final(self)@ == old(self)@.insert(k@, v@) && r is Write,
                CRequest::Delete(k) => final(self)@ == old(self)@.remove(k@) && r is Delete,
                CRequest::Read(k) => final(self)@ == old(self)@ && match r {
                    CResult::Read(v) => v@ == old(self)@[k@],
                    _ => false,
                },
            },
    {
        match req {
            CRequest::List => CResult::List(self.list_keys()),
            CRequest::Write(k, v) => {
                self.add_data(k, v);
                CResult::Write
            },
            CRequest::Delete(k) => {
                self.remove_data(&k);
                CResult::Delete
            },
            CRequest::Read(k) => match self.read_data(&k) {
                Some(v) => CResult::Read(v),
                None => CResult::NotFound,
            },
        }
    }
}

impl CResult {
    /// The keys of a listing answer.
    pub fn list(self) -> (r: Vec<Vec<u8>>)
        requires
            self is List,
        ensures
            match self {
                CResult::List(keys) => r == keys,
                _ => false,
            },
    {
        match self {
            CResult::List(keys) => keys,
            _ => Vec::new(),
        }
    }
}

} // verus!
