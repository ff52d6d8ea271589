//! Content-addressed blob storage with deduplication and reference counts.
use vstd::prelude::*;
use vstd::slice::slice_to_vec;
use vstd::utf8::{decode_utf8, encode_utf8};
use crate::bytes::compare_bytes;
use crate::error::RiftError;
use crate::hasher::{hash, hash_spec};

verus! {

broadcast use vstd::utf8::encode_utf8_decode_utf8;

/// One stored blob, under the digest of its bytes.
pub struct Blob {
    key: String,
    bytes: Vec<u8>,
    refs: u64,
}

/// A store of immutable blobs keyed by the hash of their bytes.
pub struct ObjectStore {
    blobs: Vec<Blob>,
}

/// A count that stops at the largest `u64`.
pub open spec fn count_up(n: nat) -> nat {
    if n < u64::MAX { n + 1 } else { n }
}

spec fn blob_index(s: Seq<Blob>, k: Seq<char>) -> int {
    choose|i: int| 0 <= i < s.len() && (#[trigger] s[i]).key@ == k
}

impl ObjectStore {
    /// Every blob sits under the digest of its bytes, once, with at least one
    /// reference.
    pub closed spec fn wf(&self) -> bool {
        &&& forall|i: int| 0 <= i < self.blobs@.len() ==> (#[trigger] self.blobs@[i]).key@ == hash_spec(self.blobs@[i].bytes@)
        &&& forall|i: int| 0 <= i < self.blobs@.len() ==> (#[trigger] self.blobs@[i]).refs >= 1
        &&& forall|i: int, j: int| 0 <= i < j < self.blobs@.len() ==> (#[trigger] self.blobs@[i]).key@ != (#[trigger] self.blobs@[j]).key@
    }

    /// The stored bytes by hash.
    pub closed spec fn contents(&self) -> Map<Seq<char>, Seq<u8>> {
        Map::new(
            |k: Seq<char>| exists|i: int| 0 <= i < self.blobs@.len() && (#[trigger] self.blobs@[i]).key@ == k,
            |k: Seq<char>| self.blobs@[blob_index(self.blobs@, k)].bytes@,
        )
    }

    /// The reference count of each hash; zero for an absent one.
    pub closed spec fn refs(&self, k: Seq<char>) -> nat {
        if self.contents().contains_key(k) {
            self.blobs@[blob_index(self.blobs@, k)].refs as nat
        } else {
            0
        }
    }

    /// The number of distinct blobs held.
    pub closed spec fn count(&self) -> nat {
        self.blobs@.len()
    }

    /// What a successful or failed `put` of `b` does to the store.
    pub open spec fn put_post(old: ObjectStore, new: ObjectStore, b: Seq<u8>, r: Result<String, RiftError>) -> bool {
        let h = hash_spec(b);
        let clash = old.contents().contains_key(h) && old.contents()[h] != b;
        &&& new.wf()
        &&& r.is_ok() == !clash
        &&& r.is_ok() ==> {
            &&& r.unwrap()@ == h
            &&& new.contents() == old.contents().insert(h, b)
            &&& new.refs(h) == count_up(old.refs(h))
            &&& forall|k: Seq<char>| k != h ==> #[trigger] new.refs(k) == old.refs(k)
            &&& new.count() == if old.contents().contains_key(h) { old.count() } else { old.count() + 1 }
        }
        &&& r.is_err() ==> r == Err::<String, RiftError>(RiftError::Corruption) && new == old
    }

    proof fn lemma_index(&self, i: int)
        requires
            self.wf(),
            0 <= i < self.blobs@.len(),
        ensures
            self.contents().contains_key(self.blobs@[i].key@),
            self.contents()[self.blobs@[i].key@] == self.blobs@[i].bytes@,
            self.refs(self.blobs@[i].key@) == self.blobs@[i].refs,
            blob_index(self.blobs@, self.blobs@[i].key@) == i,
    {
        let k = self.blobs@[i].key@;
        assert(exists|j: int| 0 <= j < self.blobs@.len() && (#[trigger] self.blobs@[j]).key@ == k);
        let j = blob_index(self.blobs@, k);
        if j != i {
            if i < j {
                assert(self.blobs@[i].key@ != self.blobs@[j].key@);
            } else {
                assert(self.blobs@[j].key@ != self.blobs@[i].key@);
            }
        }
        assert(self.contents().contains_key(k));
    }

    /// The empty store.
    pub fn new() -> (s: ObjectStore)
        ensures
            s.wf(),
            s.contents() == Map::<Seq<char>, Seq<u8>>::empty(),
            s.count() == 0,
    {
        let s = ObjectStore { blobs: Vec::new() };
        assert(s.contents() =~= Map::<Seq<char>, Seq<u8>>::empty());
        s
    }

    fn find(&self, key: &str) -> (r: Option<usize>)
        requires
            self.wf(),
        ensures
            r.is_some() == self.contents().contains_key(key@),
            r.is_some() ==> r.unwrap() < self.blobs@.len() && self.blobs@[r.unwrap() as int].key@ == key@,
    {
        let mut i: usize = 0;
        while i < self.blobs.len()
            invariant
                i <= self.blobs@.len(),
                forall|j: int| 0 <= j < i ==> (#[trigger] self.blobs@[j]).key@ != key@,
            decreases self.blobs@.len() - i,
        {
            if compare_bytes(self.blobs[i].key.as_str().as_bytes(), key.as_bytes()) == 0 {
                assert(decode_utf8(encode_utf8(self.blobs@[i as int].key@)) == self.blobs@[i as int].key@);
                assert(decode_utf8(encode_utf8(key@)) == key@);
                return Some(i);
            }
            i = i + 1;
        }
        None
    }

    /// Stores `b` under its hash and returns the hash. Storing bytes that are
    /// already held only counts one more reference. A different content
    /// under the same digest is corruption and changes nothing.
    pub fn put(&mut self, b: &[u8]) -> (r: Result<String, RiftError>)
        requires
            old(self).wf(),
        ensures
            ObjectStore::put_post(*old(self), *final(self), b@, r),
    {
        let ghost s0 = *self;
        let h = hash(b);
        match self.find(h.as_str()) {
            Some(i) => {
                proof { self.lemma_index(i as int); }
                let same = compare_bytes(self.blobs[i].bytes.as_slice(), b) == 0;
                if !same {
                    return Err(RiftError::Corruption);
                }
                let n = self.blobs[i].refs;
                let n2 = if n < u64::MAX { n + 1 } else { n };
                let blob = Blob { key: h.clone(), bytes: self.blobs[i].bytes.clone(), refs: n2 };
                assert(blob.bytes@ =~= self.blobs@[i as int].bytes@);
                self.blobs.set(i, blob);
                proof {
                    assert forall|k: Seq<char>| #[trigger] self.contents().contains_key(k) == s0.contents().contains_key(k) by {
                        if s0.contents().contains_key(k) {
                            let j = blob_index(s0.blobs@, k);
                            assert(self.blobs@[j].key@ == k);
                        }
                        if self.contents().contains_key(k) {
                            let j = blob_index(self.blobs@, k);
                            assert(s0.blobs@[j].key@ == k);
                        }
                    }
                    assert forall|k: Seq<char>| #[trigger] self.contents().contains_key(k) implies self.contents()[k] == s0.contents()[k] && (k != h@ ==> self.refs(k) == s0.refs(k)) by {
                        let j = blob_index(self.blobs@, k);
                        self.lemma_index(j);
                        s0.lemma_index(j);
                    }
                    assert forall|k: Seq<char>| k != h@ implies #[trigger] self.refs(k) == s0.refs(k) by {
                        if self.contents().contains_key(k) {
                            let j = blob_index(self.blobs@, k);
                            self.lemma_index(j);
                            s0.lemma_index(j);
                        }
                    }
                    self.lemma_index(i as int);
                    assert(self.contents() =~= s0.contents().insert(h@, b@));
                }
                Ok(h)
            },
            None => {
                let blob = Blob { key: h.clone(), bytes: slice_to_vec(b), refs: 1 };
                self.blobs.push(blob);
                proof {
                    let n = s0.blobs@.len() as int;
                    assert forall|k: Seq<char>| #[trigger] self.contents().contains_key(k) == s0.contents().insert(h@, b@).contains_key(k) by {
                        if s0.contents().contains_key(k) {
                            let j = blob_index(s0.blobs@, k);
                            assert(self.blobs@[j].key@ == k);
                        }
                        if k == h@ {
                            assert(self.blobs@[n].key@ == k);
                        }
                        if self.contents().contains_key(k) && k != h@ {
                            let j = blob_index(self.blobs@, k);
                            assert(s0.blobs@[j].key@ == k);
                        }
                    }
                    assert forall|k: Seq<char>| #[trigger] self.contents().contains_key(k) implies self.contents()[k] == s0.contents().insert(h@, b@)[k] && (k != h@ ==> self.refs(k) == s0.refs(k)) by {
                        let j = blob_index(self.blobs@, k);
                        self.lemma_index(j);
                        if j < n {
                            s0.lemma_index(j);
                        }
                    }
                    assert forall|k: Seq<char>| k != h@ implies #[trigger] self.refs(k) == s0.refs(k) by {
                        if self.contents().contains_key(k) {
                            let j = blob_index(self.blobs@, k);
                            self.lemma_index(j);
                            s0.lemma_index(j);
                        } else if s0.contents().contains_key(k) {
                            let j = blob_index(s0.blobs@, k);
                            assert(self.blobs@[j].key@ == k);
                        }
                    }
                    self.lemma_index(n);
                    assert(self.contents() =~= s0.contents().insert(h@, b@));
                }
                Ok(h)
            },
        }
    }

    /// The bytes stored under `key`, or `NotFound`. The store's invariant
    /// keeps every blob under the digest of its own bytes, so a read never
    /// meets corrupt data.
    pub fn get(&self, key: &str) -> (r: Result<Vec<u8>, RiftError>)
        requires
            self.wf(),
        ensures
            r.is_ok() == self.contents().contains_key(key@),
            r.is_ok() ==> r.unwrap()@ == self.contents()[key@] && hash_spec(r.unwrap()@) == key@,
            r.is_err() ==> r == Err::<Vec<u8>, RiftError>(RiftError::NotFound),
    {
        match self.find(key) {
            Some(i) => {
                proof { self.lemma_index(i as int); }
                Ok(self.blobs[i].bytes.clone())
            },
            None => Err(RiftError::NotFound),
        }
    }

    /// Whether a blob is stored under `key`.
    pub fn contains(&self, key: &str) -> (r: bool)
        requires
            self.wf(),
        ensures
            r == self.contents().contains_key(key@),
    {
        self.find(key).is_some()
    }

    /// How many times the blob under `key` was stored; zero if absent.
    pub fn references(&self, key: &str) -> (r: u64)
        requires
            self.wf(),
        ensures
            r == self.refs(key@),
            (r == 0) == !self.contents().contains_key(key@),
    {
        match self.find(key) {
            Some(i) => {
                proof { self.lemma_index(i as int); }
                self.blobs[i].refs
            },
            None => 0,
        }
    }

    /// The number of distinct blobs held.
    pub fn len(&self) -> (r: usize)
        ensures
            r == self.count(),
    {
        self.blobs.len()
    }
}

/// Content addressing: once `put` of `b` has succeeded, the store holds
/// exactly `b` under the returned hash, so `get` of that hash returns `b`.
pub proof fn lemma_put_then_get(s0: ObjectStore, s1: ObjectStore, b: Seq<u8>, r: Result<String, RiftError>)
    requires
        s0.wf(),
        ObjectStore::put_post(s0, s1, b, r),
    ensures
        r.is_ok() ==> s1.contents().contains_key(r.unwrap()@) && s1.contents()[r.unwrap()@] == b,
        s0.contents() == Map::<Seq<char>, Seq<u8>>::empty() ==> r.is_ok(),
{
}

/// A hash has references exactly when the store holds a blob under it.
pub proof fn lemma_refs_zero(s: ObjectStore, k: Seq<char>)
    requires
        s.wf(),
    ensures
        (s.refs(k) == 0) == !s.contents().contains_key(k),
{
    if s.contents().contains_key(k) {
        s.lemma_index(blob_index(s.blobs@, k));
    }
}

/// Deduplication: storing the same bytes twice, when nothing was stored
/// under their hash before, adds one blob, returns the same hash both times,
/// and counts two references.
pub proof fn lemma_put_twice(
    s0: ObjectStore,
    s1: ObjectStore,
    s2: ObjectStore,
    b: Seq<u8>,
    r1: Result<String, RiftError>,
    r2: Result<String, RiftError>,
)
    requires
        s0.wf(),
        s0.refs(hash_spec(b)) == 0,
        ObjectStore::put_post(s0, s1, b, r1),
        ObjectStore::put_post(s1, s2, b, r2),
    ensures
        r1.is_ok() && r2.is_ok(),
        r1.unwrap()@ == hash_spec(b),
        r1.unwrap()@ == r2.unwrap()@,
        s2.count() == s0.count() + 1,
        s2.refs(hash_spec(b)) == 2,
        s2.contents() == s0.contents().insert(hash_spec(b), b),
{
    let h = hash_spec(b);
    lemma_refs_zero(s0, h);
    assert(s1.contents()[h] == b);
    assert(s1.contents().insert(h, b) =~= s1.contents());
}

} // verus!
