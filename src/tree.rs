//! Tree snapshots: a map from paths to contents, kept sorted by the UTF-8
//! bytes of the path so that equal content always serializes identically.
use vstd::prelude::*;
use vstd::utf8::{decode_utf8, encode_utf8};
use crate::bytes::{bytes_lt, compare_bytes, framed, lemma_lt_irrefl, lemma_lt_trans, push_framed};
use crate::hasher::{hash, hash_spec};

verus! {

broadcast use vstd::utf8::encode_utf8_decode_utf8;

/// One file of a tree: its path and its content.
#[derive(Debug)]
pub struct TreeEntry {
    pub path: String,
    pub content: String,
}

/// A full content snapshot.
#[derive(Debug)]
pub struct Tree {
    entries: Vec<TreeEntry>,
}

/// The UTF-8 bytes of an entry's path, the key that orders a tree.
pub open spec fn key_of(e: TreeEntry) -> Seq<u8> {
    encode_utf8(e.path@)
}

/// Entries strictly ascending by path bytes (so no path occurs twice).
pub open spec fn sorted(s: Seq<TreeEntry>) -> bool {
    forall|i: int, j: int| 0 <= i < j < s.len() ==> bytes_lt(#[trigger] key_of(s[i]), #[trigger] key_of(s[j]))
}

/// The path-to-content map that a sequence of entries describes.
pub open spec fn to_map(s: Seq<TreeEntry>) -> Map<Seq<char>, Seq<char>> {
    Map::new(
        |p: Seq<char>| exists|i: int| 0 <= i < s.len() && (#[trigger] s[i]).path@ == p,
        |p: Seq<char>| s[index_of(s, p)].content@,
    )
}

/// The position of a path among the entries, where it occurs.
pub open spec fn index_of(s: Seq<TreeEntry>, p: Seq<char>) -> int {
    choose|i: int| 0 <= i < s.len() && (#[trigger] s[i]).path@ == p
}

/// The canonical serialization of a sequence of entries: each path and
/// content framed by its length, in order.
pub open spec fn entries_bytes(s: Seq<TreeEntry>) -> Seq<u8>
    decreases s.len(),
{
    if s.len() == 0 {
        Seq::empty()
    } else {
        entries_bytes(s.drop_last()) + framed(encode_utf8(s.last().path@)) + framed(
            encode_utf8(s.last().content@),
        )
    }
}

pub proof fn lemma_to_map_index(s: Seq<TreeEntry>, i: int)
    requires
        sorted(s),
        0 <= i < s.len(),
    ensures
        to_map(s).contains_key(s[i].path@),
        to_map(s)[s[i].path@] == s[i].content@,
{
    let p = s[i].path@;
    assert(exists|k: int| 0 <= k < s.len() && (#[trigger] s[k]).path@ == p);
    let j = index_of(s, p);
    if j != i {
        lemma_lt_irrefl(key_of(s[i]));
        if i < j {
            assert(bytes_lt(key_of(s[i]), key_of(s[j])));
        } else {
            assert(bytes_lt(key_of(s[j]), key_of(s[i])));
        }
    }
    assert(j == i);
    assert(to_map(s).contains_key(p));
    assert(to_map(s)[p] == s[j].content@);
}

/// A map equals the map of sorted entries when it holds every entry and
/// nothing else.
pub proof fn lemma_to_map_char(s: Seq<TreeEntry>, m: Map<Seq<char>, Seq<char>>)
    requires
        sorted(s),
        forall|i: int| 0 <= i < s.len() ==> m.contains_key(#[trigger] s[i].path@) && m[s[i].path@] == s[i].content@,
        forall|q: Seq<char>| #[trigger] m.contains_key(q) ==> exists|i: int| 0 <= i < s.len() && (#[trigger] s[i]).path@ == q,
    ensures
        to_map(s) == m,
{
    assert forall|q: Seq<char>| #[trigger] to_map(s).contains_key(q) implies m.contains_key(q) && to_map(s)[q] == m[q] by {
        lemma_to_map_index(s, index_of(s, q));
    }
    assert(to_map(s) =~= m);
}

proof fn lemma_sorted_prefix(s: Seq<TreeEntry>)
    requires
        sorted(s),
        s.len() > 0,
    ensures
        sorted(s.drop_last()),
        to_map(s.drop_last()) == to_map(s).remove(s.last().path@),
{
    let s0 = s.drop_last();
    let n = s.len() - 1;
    assert(sorted(s0)) by {
        assert forall|a: int, b: int| 0 <= a < b < s0.len() implies bytes_lt(#[trigger] key_of(s0[a]), #[trigger] key_of(s0[b])) by {
            assert(bytes_lt(key_of(s[a]), key_of(s[b])));
        }
    }
    let m = to_map(s).remove(s.last().path@);
    assert forall|i: int| 0 <= i < s0.len() implies m.contains_key(#[trigger] s0[i].path@) && m[s0[i].path@] == s0[i].content@ by {
        lemma_to_map_index(s, i);
        assert(bytes_lt(key_of(s[i]), key_of(s[n])));
        lemma_lt_irrefl(key_of(s[i]));
    }
    assert forall|q: Seq<char>| #[trigger] m.contains_key(q) implies exists|i: int| 0 <= i < s0.len() && (#[trigger] s0[i]).path@ == q by {
        let j = index_of(s, q);
        assert(j != n);
        assert(s0[j].path@ == q);
    }
    lemma_to_map_char(s0, m);
}

proof fn lemma_sorted_same_map(s1: Seq<TreeEntry>, s2: Seq<TreeEntry>)
    requires
        sorted(s1),
        sorted(s2),
        to_map(s1) == to_map(s2),
    ensures
        entries_bytes(s1) == entries_bytes(s2),
    decreases s1.len() + s2.len(),
{
    if s1.len() == 0 && s2.len() == 0 {
    } else if s1.len() == 0 {
        lemma_to_map_index(s2, 0);
    } else if s2.len() == 0 {
        lemma_to_map_index(s1, 0);
    } else {
        let n1 = s1.len() - 1;
        let n2 = s2.len() - 1;
        let l1 = s1[n1];
        let l2 = s2[n2];
        lemma_to_map_index(s1, n1);
        lemma_to_map_index(s2, n2);
        if l1.path@ != l2.path@ {
            let j2 = index_of(s2, l1.path@);
            let j1 = index_of(s1, l2.path@);
            assert(j2 != n2);
            assert(j1 != n1);
            assert(bytes_lt(key_of(s2[j2]), key_of(s2[n2])));
            assert(bytes_lt(key_of(s1[j1]), key_of(s1[n1])));
            lemma_lt_trans(key_of(l1), key_of(l2), key_of(l1));
            lemma_lt_irrefl(key_of(l1));
        }
        lemma_sorted_prefix(s1);
        lemma_sorted_prefix(s2);
        lemma_sorted_same_map(s1.drop_last(), s2.drop_last());
    }
}

impl Tree {
    /// The entries in canonical order.
    pub closed spec fn entries(&self) -> Seq<TreeEntry> {
        self.entries@
    }

    /// The tree's paths are unique and held in canonical order.
    pub closed spec fn wf(&self) -> bool {
        sorted(self.entries@)
    }

    /// The tree's content: each path with its content.
    pub closed spec fn view(&self) -> Map<Seq<char>, Seq<char>> {
        to_map(self.entries@)
    }

    /// The canonical bytes of this tree.
    pub closed spec fn spec_bytes(&self) -> Seq<u8> {
        entries_bytes(self.entries@)
    }

    /// The empty tree.
    pub fn new() -> (t: Tree)
        ensures
            t.wf(),
            t@ == Map::<Seq<char>, Seq<char>>::empty(),
            t.entries() == Seq::<TreeEntry>::empty(),
    {
        let t = Tree { entries: Vec::new() };
        assert(t@ =~= Map::<Seq<char>, Seq<char>>::empty());
        assert(t.entries() =~= Seq::<TreeEntry>::empty());
        t
    }

    /// Where `pb` stands among the paths: the index of the first path not
    /// below it, and whether that path equals it.
    fn find_slot(&self, pb: &[u8]) -> (r: (usize, bool))
        requires
            self.wf(),
        ensures
            r.0 <= self.entries@.len(),
            forall|j: int| 0 <= j < r.0 ==> bytes_lt(#[trigger] key_of(self.entries@[j]), pb@),
            r.1 ==> r.0 < self.entries@.len() && key_of(self.entries@[r.0 as int]) == pb@,
            !r.1 ==> forall|j: int| r.0 <= j < self.entries@.len() ==> bytes_lt(pb@, #[trigger] key_of(self.entries@[j])),
    {
        let mut i: usize = 0;
        while i < self.entries.len()
            invariant
                self.wf(),
                i <= self.entries@.len(),
                forall|j: int| 0 <= j < i ==> bytes_lt(#[trigger] key_of(self.entries@[j]), pb@),
            decreases self.entries@.len() - i,
        {
            let c = compare_bytes(self.entries[i].path.as_str().as_bytes(), pb);
            if c == 0 {
                return (i, true);
            }
            if c > 0 {
                proof {
                    assert forall|j: int| i <= j < self.entries@.len() implies bytes_lt(pb@, #[trigger] key_of(self.entries@[j])) by {
                        if j > i {
                            assert(bytes_lt(key_of(self.entries@[i as int]), key_of(self.entries@[j])));
                            lemma_lt_trans(pb@, key_of(self.entries@[i as int]), key_of(self.entries@[j]));
                        }
                    }
                }
                return (i, false);
            }
            i = i + 1;
        }
        (i, false)
    }

    /// Sets the content at `path`, adding the path if it is new.
    pub fn insert(&mut self, path: String, content: String)
        requires
            old(self).wf(),
        ensures
            final(self).wf(),
            final(self)@ == old(self)@.insert(path@, content@),
    {
        let ghost s0 = self.entries@;
        let ghost p = path@;
        let ghost c = content@;
        let (i, found) = self.find_slot(path.as_str().as_bytes());
        let e = TreeEntry { path, content };
        if found {
            self.entries.set(i, e);
        } else {
            self.entries.insert(i, e);
        }
        proof {
            let s1 = self.entries@;
            let m = to_map(s0).insert(p, c);
            assert(sorted(s1)) by {
                assert forall|a: int, b: int| 0 <= a < b < s1.len() implies bytes_lt(#[trigger] key_of(s1[a]), #[trigger] key_of(s1[b])) by {
                    if found {
                        if a != i && b != i {
                            assert(bytes_lt(key_of(s0[a]), key_of(s0[b])));
                        } else if a == i {
                            assert(bytes_lt(key_of(s0[a]), key_of(s0[b])));
                        } else {
                            assert(bytes_lt(key_of(s0[a]), key_of(s0[b])));
                        }
                    } else {
                        if b < i {
                            assert(bytes_lt(key_of(s0[a]), key_of(s0[b])));
                        } else if a > i {
                            assert(bytes_lt(key_of(s0[a - 1]), key_of(s0[b - 1])));
                        } else if a == i {
                            assert(bytes_lt(key_of(e), key_of(s0[b - 1])));
                        } else if b == i {
                            assert(bytes_lt(key_of(s0[a]), key_of(e)));
                        } else {
                            assert(bytes_lt(key_of(s0[a]), key_of(s0[b - 1])));
                        }
                    }
                }
            }
            assert forall|k: int| 0 <= k < s1.len() implies m.contains_key(#[trigger] s1[k].path@) && m[s1[k].path@] == s1[k].content@ by {
                if k != i {
                    let k0 = if found || k < i { k } else { k - 1 };
                    assert(s1[k] == s0[k0]);
                    lemma_to_map_index(s0, k0);
                    if k0 < i {
                        assert(bytes_lt(key_of(s0[k0]), encode_utf8(p)));
                    } else {
                        assert(bytes_lt(encode_utf8(p), key_of(s0[k0])));
                    }
                    lemma_lt_irrefl(encode_utf8(p));
                }
            }
            assert forall|q: Seq<char>| #[trigger] m.contains_key(q) implies exists|k: int| 0 <= k < s1.len() && (#[trigger] s1[k]).path@ == q by {
                if q == p {
                    assert(s1[i as int].path@ == q);
                } else {
                    let k0 = choose|k: int| 0 <= k < s0.len() && (#[trigger] s0[k]).path@ == q;
                    if found {
                        if k0 == i {
                            assert(key_of(s0[k0]) == encode_utf8(p));
                            assert(decode_utf8(encode_utf8(q)) == q);
                            assert(decode_utf8(encode_utf8(p)) == p);
                        }
                        assert(s1[k0].path@ == q);
                    } else if k0 < i {
                        assert(s1[k0].path@ == q);
                    } else {
                        assert(s1[k0 + 1].path@ == q);
                    }
                }
            }
            lemma_to_map_char(s1, m);
        }
    }

    /// Drops `path` from the tree, if present.
    pub fn remove(&mut self, path: &str)
        requires
            old(self).wf(),
        ensures
            final(self).wf(),
            final(self)@ == old(self)@.remove(path@),
    {
        let ghost s0 = self.entries@;
        let ghost p = path@;
        let (i, found) = self.find_slot(path.as_bytes());
        if found {
            self.entries.remove(i);
        }
        proof {
            let s1 = self.entries@;
            let m = to_map(s0).remove(p);
            assert(sorted(s1)) by {
                assert forall|a: int, b: int| 0 <= a < b < s1.len() implies bytes_lt(#[trigger] key_of(s1[a]), #[trigger] key_of(s1[b])) by {
                    if found && b >= i {
                        if a >= i {
                            assert(bytes_lt(key_of(s0[a + 1]), key_of(s0[b + 1])));
                        } else {
                            assert(bytes_lt(key_of(s0[a]), key_of(s0[b + 1])));
                        }
                    } else {
                        assert(bytes_lt(key_of(s0[a]), key_of(s0[b])));
                    }
                }
            }
            assert forall|k: int| 0 <= k < s1.len() implies m.contains_key(#[trigger] s1[k].path@) && m[s1[k].path@] == s1[k].content@ by {
                let k0 = if found && k >= i { k + 1 } else { k };
                assert(s1[k] == s0[k0]);
                lemma_to_map_index(s0, k0);
                if k0 < i {
                    assert(bytes_lt(key_of(s0[k0]), encode_utf8(p)));
                } else if !found {
                    assert(bytes_lt(encode_utf8(p), key_of(s0[k0])));
                } else {
                    assert(bytes_lt(key_of(s0[i as int]), key_of(s0[k0])));
                }
                lemma_lt_irrefl(encode_utf8(p));
            }
            assert forall|q: Seq<char>| #[trigger] m.contains_key(q) implies exists|k: int| 0 <= k < s1.len() && (#[trigger] s1[k]).path@ == q by {
                let k0 = index_of(s0, q);
                if found && k0 == i {
                    assert(decode_utf8(encode_utf8(q)) == q);
                    assert(decode_utf8(encode_utf8(p)) == p);
                } else if found && k0 > i {
                    assert(s1[k0 - 1].path@ == q);
                } else {
                    assert(s1[k0].path@ == q);
                }
            }
            lemma_to_map_char(s1, m);
        }
    }

    /// The content at `path`, if the tree holds it.
    pub fn get(&self, path: &str) -> (r: Option<String>)
        requires
            self.wf(),
        ensures
            r.is_some() == self@.contains_key(path@),
            r.is_some() ==> r.unwrap()@ == self@[path@],
    {
        let (i, found) = self.find_slot(path.as_bytes());
        proof {
            if found {
                lemma_to_map_index(self.entries@, i as int);
                assert(decode_utf8(encode_utf8(self.entries@[i as int].path@)) == self.entries@[i as int].path@);
                assert(decode_utf8(encode_utf8(path@)) == path@);
            } else {
                assert forall|k: int| 0 <= k < self.entries@.len() implies (#[trigger] self.entries@[k]).path@ != path@ by {
                    if k < i {
                        assert(bytes_lt(key_of(self.entries@[k]), encode_utf8(path@)));
                    } else {
                        assert(bytes_lt(encode_utf8(path@), key_of(self.entries@[k])));
                    }
                    lemma_lt_irrefl(encode_utf8(path@));
                }
            }
        }
        if found {
            Some(self.entries[i].content.clone())
        } else {
            None
        }
    }

    /// A copy of the tree, entry for entry.
    pub fn duplicate(&self) -> (r: Tree)
        ensures
            r.entries() == self.entries(),
            r@ == self@,
            r.wf() == self.wf(),
    {
        let mut v: Vec<TreeEntry> = Vec::new();
        let mut i: usize = 0;
        while i < self.entries.len()
            invariant
                i <= self.entries@.len(),
                v@ == self.entries@.subrange(0, i as int),
            decreases self.entries@.len() - i,
        {
            let e = &self.entries[i];
            v.push(TreeEntry { path: e.path.clone(), content: e.content.clone() });
            proof {
                assert(v@ =~= self.entries@.subrange(0, i + 1));
            }
            i = i + 1;
        }
        assert(v@ =~= self.entries@);
        Tree { entries: v }
    }

    /// The number of paths in the tree.
    pub fn len(&self) -> (r: usize)
        ensures
            r == self.entries().len(),
    {
        self.entries.len()
    }

    /// The path of the `i`-th entry in canonical order.
    pub fn path_at(&self, i: usize) -> (r: &String)
        requires
            i < self.entries().len(),
        ensures
            *r == self.entries()[i as int].path,
    {
        &self.entries[i].path
    }

    /// The content of the `i`-th entry in canonical order.
    pub fn content_at(&self, i: usize) -> (r: &String)
        requires
            i < self.entries().len(),
        ensures
            *r == self.entries()[i as int].content,
    {
        &self.entries[i].content
    }

    /// The canonical serialization: every path and content framed by its
    /// length, in ascending path order.
    pub fn canonical_bytes(&self) -> (r: Vec<u8>)
        ensures
            r@ == self.spec_bytes(),
    {
        let mut out: Vec<u8> = Vec::new();
        let mut i: usize = 0;
        while i < self.entries.len()
            invariant
                i <= self.entries@.len(),
                out@ == entries_bytes(self.entries@.subrange(0, i as int)),
            decreases self.entries@.len() - i,
        {
            let e = &self.entries[i];
            push_framed(&mut out, e.path.as_str().as_bytes());
            push_framed(&mut out, e.content.as_str().as_bytes());
            proof {
                let t = self.entries@.subrange(0, i + 1);
                assert(t.drop_last() =~= self.entries@.subrange(0, i as int));
                assert(t.last() == self.entries@[i as int]);
            }
            i = i + 1;
        }
        assert(self.entries@.subrange(0, i as int) =~= self.entries@);
        out
    }

    /// The tree's hash: the digest of its canonical bytes.
    pub fn tree_hash(&self) -> (r: String)
        ensures
            r@ == hash_spec(self.spec_bytes()),
    {
        let b = self.canonical_bytes();
        hash(b.as_slice())
    }
}

/// What the tree's abstract functions stand for, for reasoning in other
/// modules.
pub proof fn lemma_tree_view(t: &Tree)
    ensures
        t@ == to_map(t.entries()),
        t.wf() == sorted(t.entries()),
        t.spec_bytes() == entries_bytes(t.entries()),
{
}


/// Canonical serialization: trees with the same content serialize to the
/// same bytes, and so hash alike, whatever order their paths were inserted in.
pub proof fn lemma_canonical(t1: &Tree, t2: &Tree)
    requires
        t1.wf(),
        t2.wf(),
        t1@ == t2@,
    ensures
        t1.spec_bytes() == t2.spec_bytes(),
        hash_spec(t1.spec_bytes()) == hash_spec(t2.spec_bytes()),
{
    lemma_sorted_same_map(t1.entries@, t2.entries@);
}

} // verus!
