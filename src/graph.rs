//! The revision graph: revisions keyed by their content-derived id, parent
//! edges that only point to earlier revisions, and the index from each
//! change to its current revision.
use vstd::prelude::*;
use crate::delta::{compute_delta, delta_between, ops_bytes};
use crate::error::RiftError;
use crate::hasher::{hash, hash_spec};
use crate::identity::{change_name, lemma_change_name_injective, ChangeIdAllocator};
use crate::revision::{ids_view, revision_bytes, revision_id_of, ChangeId, Revision, RevisionId, RevisionView};
use crate::store::ObjectStore;
use crate::tree::{entries_bytes, lemma_tree_view, Tree, TreeEntry};

verus! {

struct Node {
    revision: Revision,
    tree: Tree,
    parent_slots: Vec<usize>,
}

struct ChangeSlot {
    id: ChangeId,
    current: Option<usize>,
}

/// The revision graph with the object store that holds its trees and deltas.
pub struct RevisionGraph {
    store: ObjectStore,
    nodes: Vec<Node>,
    changes: Vec<ChangeSlot>,
    ids: ChangeIdAllocator,
}

spec fn node_index(nodes: Seq<Node>, id: Seq<char>) -> int {
    choose|i: int| 0 <= i < nodes.len() && (#[trigger] nodes[i]).revision.revision_id@ == id
}

spec fn slot_index(cs: Seq<ChangeSlot>, c: Seq<char>) -> int {
    choose|i: int| 0 <= i < cs.len() && (#[trigger] cs[i]).id@ == c
}

spec fn has_parent(nodes: Seq<Node>, i: int, a: int) -> bool {
    exists|k: int| 0 <= k < nodes[i].parent_slots@.len() && (#[trigger] nodes[i].parent_slots@[k]) as int == a
}

/// Revision `a` is a strict ancestor of revision `t` (both by recording
/// order): some revision that is `t` or one of its ancestors lists `a` as a
/// parent.
spec fn anc(nodes: Seq<Node>, t: int, a: int) -> bool
    decreases t - a,
{
    if a < 0 || a >= t {
        false
    } else {
        exists|i: int| a < i <= t && (i == t || anc(nodes, t, i)) && #[trigger] has_parent(nodes, i, a)
    }
}

spec fn in_history(nodes: Seq<Node>, t: int, x: int) -> bool {
    x == t || anc(nodes, t, x)
}

/// The store holds other bytes under the digest of `b`.
pub open spec fn clash(blobs: Map<Seq<char>, Seq<u8>>, b: Seq<u8>) -> bool {
    blobs.contains_key(hash_spec(b)) && blobs[hash_spec(b)] != b
}

/// The tree a new revision is diffed against: its first parent's, or the
/// empty tree for a root.
pub open spec fn parent_tree(g: RevisionGraph, parents: Seq<Seq<char>>) -> Seq<TreeEntry> {
    if parents.len() == 0 {
        Seq::empty()
    } else {
        g.trees()[parents[0]]
    }
}

/// The record that `create_revision` makes for change `c`.
pub open spec fn planned(
    g: RevisionGraph,
    c: Seq<char>,
    tree: Seq<TreeEntry>,
    author: Seq<char>,
    description: Seq<char>,
    timestamp: Seq<char>,
    parents: Seq<Seq<char>>,
) -> RevisionView {
    let th = hash_spec(entries_bytes(tree));
    let dh = hash_spec(ops_bytes(delta_between(parent_tree(g, parents), tree)));
    RevisionView {
        revision_id: hash_spec(revision_bytes(th, dh, author, description, timestamp, parents)),
        change_id: c,
        tree_hash: th,
        delta_hash: dh,
        author,
        description,
        timestamp,
        parents,
    }
}

/// The change a new revision belongs to: the given one, or the next fresh one.
pub open spec fn target_change(g: RevisionGraph, change_id: Option<Seq<char>>) -> Seq<char> {
    if change_id.is_some() {
        change_id.unwrap()
    } else {
        change_name(g.change_count() as u64)
    }
}

/// Some parent is not a recorded revision, or is the new revision itself.
pub open spec fn cycle_in(g: RevisionGraph, parents: Seq<Seq<char>>, id: Seq<char>) -> bool {
    exists|k: int| 0 <= k < parents.len() && (!g.revisions().contains_key(#[trigger] parents[k]) || parents[k] == id)
}

/// What `create_revision` returns and does, for every outcome.
pub open spec fn create_post(
    old: RevisionGraph,
    new: RevisionGraph,
    change_id: Option<Seq<char>>,
    tree: Seq<TreeEntry>,
    author: Seq<char>,
    description: Seq<char>,
    timestamp: Seq<char>,
    parents: Seq<Seq<char>>,
    r: Result<Revision, RiftError>,
) -> bool {
    let c = target_change(old, change_id);
    let plan = planned(old, c, tree, author, description, timestamp, parents);
    let tb = entries_bytes(tree);
    let db = ops_bytes(delta_between(parent_tree(old, parents), tree));
    let unknown = change_id.is_some() && !old.changes().contains_key(c);
    let abandoned = change_id.is_some() && old.changes().contains_key(c) && old.changes()[c].is_none();
    let cycle = cycle_in(old, parents, plan.revision_id);
    let corrupt = clash(old.blobs(), tb) || clash(old.blobs().insert(hash_spec(tb), tb), db);
    &&& new.wf()
    &&& unknown ==> r == Err::<Revision, RiftError>(RiftError::UnknownChange)
    &&& (unknown || abandoned || cycle) ==> new.blobs() == old.blobs()
    &&& !unknown && abandoned ==> r == Err::<Revision, RiftError>(RiftError::Abandoned)
    &&& !unknown && !abandoned && cycle ==> r == Err::<Revision, RiftError>(RiftError::CycleDetected)
    &&& !unknown && !abandoned && !cycle && corrupt ==> r == Err::<Revision, RiftError>(RiftError::Corruption)
    &&& !unknown && !abandoned && !cycle && !corrupt ==> {
        &&& r.is_ok()
        &&& r.unwrap()@ == plan
        &&& new.blobs() == old.blobs().insert(hash_spec(tb), tb).insert(hash_spec(db), db)
        &&& new.changes() == old.changes().insert(c, Some(plan.revision_id))
        &&& new.change_count() == if change_id.is_some() { old.change_count() } else { old.change_count() + 1 }
        &&& old.revisions().contains_key(plan.revision_id) ==> new.revisions() == old.revisions() && new.trees() == old.trees()
        &&& !old.revisions().contains_key(plan.revision_id) ==> new.revisions() == old.revisions().insert(plan.revision_id, plan)
            && new.trees() == old.trees().insert(plan.revision_id, tree)
            && forall|x: Seq<char>| #[trigger] old.revisions().contains_key(x) ==> new.position(x) < new.position(plan.revision_id)
    }
    &&& r.is_err() ==> new.revisions() == old.revisions() && new.trees() == old.trees() && new.changes() == old.changes()
        && new.change_count() == old.change_count()
}

pub open spec fn opt_id(c: Option<ChangeId>) -> Option<Seq<char>> {
    if c.is_some() {
        Some(c.unwrap()@)
    } else {
        None
    }
}

impl RevisionGraph {
    /// Revision ids are unique, every parent edge points to a revision
    /// recorded earlier, the `i`-th change is named `change_name(i)`, and
    /// every current pointer names a recorded revision.
    pub closed spec fn wf(&self) -> bool {
        let n = self.nodes@.len();
        let m = self.changes@.len();
        &&& self.store.wf()
        &&& forall|i: int| 0 <= i < n ==> (#[trigger] self.nodes@[i]).tree.wf()
        &&& forall|i: int, j: int| 0 <= i < j < n ==> (#[trigger] self.nodes@[i]).revision.revision_id@ != (#[trigger] self.nodes@[j]).revision.revision_id@
        &&& forall|i: int| 0 <= i < n ==> (#[trigger] self.nodes@[i]).parent_slots@.len() == self.nodes@[i].revision.parents@.len()
        &&& forall|i: int, k: int| 0 <= i < n && 0 <= k < self.nodes@[i].parent_slots@.len() ==> {
            let p = (#[trigger] self.nodes@[i].parent_slots@[k]) as int;
            &&& p < i
            &&& self.nodes@[p].revision.revision_id@ == self.nodes@[i].revision.parents@[k]@
        }
        &&& m <= u64::MAX
        &&& self.ids.issued() == m
        &&& forall|i: int| 0 <= i < m ==> (#[trigger] self.changes@[i]).id@ == change_name(i as u64)
        &&& forall|i: int| 0 <= i < m ==> ((#[trigger] self.changes@[i]).current.is_some() ==> self.changes@[i].current.unwrap() < n)
    }

    /// Every revision recorded, by id.
    pub closed spec fn revisions(&self) -> Map<Seq<char>, RevisionView> {
        Map::new(
            |id: Seq<char>| exists|i: int| 0 <= i < self.nodes@.len() && (#[trigger] self.nodes@[i]).revision.revision_id@ == id,
            |id: Seq<char>| self.nodes@[node_index(self.nodes@, id)].revision@,
        )
    }

    /// The tree of every revision recorded, by id.
    pub closed spec fn trees(&self) -> Map<Seq<char>, Seq<TreeEntry>> {
        Map::new(
            |id: Seq<char>| exists|i: int| 0 <= i < self.nodes@.len() && (#[trigger] self.nodes@[i]).revision.revision_id@ == id,
            |id: Seq<char>| self.nodes@[node_index(self.nodes@, id)].tree.entries(),
        )
    }

    /// Every allocated change, with its current revision, or `None` once it
    /// was abandoned.
    pub closed spec fn changes(&self) -> Map<Seq<char>, Option<Seq<char>>> {
        Map::new(
            |c: Seq<char>| exists|i: int| 0 <= i < self.changes@.len() && (#[trigger] self.changes@[i]).id@ == c,
            |c: Seq<char>| {
                let cur = self.changes@[slot_index(self.changes@, c)].current;
                if cur.is_some() {
                    Some(self.nodes@[cur.unwrap() as int].revision.revision_id@)
                } else {
                    None
                }
            },
        )
    }

    /// The number of changes allocated so far.
    pub closed spec fn change_count(&self) -> nat {
        self.changes@.len()
    }

    /// The blobs of the graph's object store.
    pub closed spec fn blobs(&self) -> Map<Seq<char>, Seq<u8>> {
        self.store.contents()
    }

    /// The order in which a revision was recorded.
    pub closed spec fn position(&self, id: Seq<char>) -> int {
        node_index(self.nodes@, id)
    }

    proof fn lemma_node(&self, i: int)
        requires
            self.wf(),
            0 <= i < self.nodes@.len(),
        ensures
            node_index(self.nodes@, self.nodes@[i].revision.revision_id@) == i,
            self.revisions().contains_key(self.nodes@[i].revision.revision_id@),
            self.revisions()[self.nodes@[i].revision.revision_id@] == self.nodes@[i].revision@,
            self.trees().contains_key(self.nodes@[i].revision.revision_id@),
            self.trees()[self.nodes@[i].revision.revision_id@] == self.nodes@[i].tree.entries(),
    {
        let id = self.nodes@[i].revision.revision_id@;
        assert(exists|j: int| 0 <= j < self.nodes@.len() && (#[trigger] self.nodes@[j]).revision.revision_id@ == id);
        let j = node_index(self.nodes@, id);
        if j != i {
            if i < j {
                assert(self.nodes@[i].revision.revision_id@ != self.nodes@[j].revision.revision_id@);
            } else {
                assert(self.nodes@[j].revision.revision_id@ != self.nodes@[i].revision.revision_id@);
            }
        }
        assert(self.revisions().contains_key(id));
        assert(self.trees().contains_key(id));
    }

    proof fn lemma_slot(&self, i: int)
        requires
            self.wf(),
            0 <= i < self.changes@.len(),
        ensures
            slot_index(self.changes@, self.changes@[i].id@) == i,
            self.changes().contains_key(self.changes@[i].id@),
            self.changes()[self.changes@[i].id@] == (if self.changes@[i].current.is_some() {
                Some(self.nodes@[self.changes@[i].current.unwrap() as int].revision.revision_id@)
            } else {
                None
            }),
    {
        let c = self.changes@[i].id@;
        assert(exists|j: int| 0 <= j < self.changes@.len() && (#[trigger] self.changes@[j]).id@ == c);
        let j = slot_index(self.changes@, c);
        if j != i {
            assert(change_name(i as u64) == change_name(j as u64));
            lemma_change_name_injective(i as u64, j as u64);
        }
        assert(self.changes().contains_key(c));
    }

    /// The empty graph over an empty store.
    pub fn new() -> (g: RevisionGraph)
        ensures
            g.wf(),
            g.revisions() == Map::<Seq<char>, RevisionView>::empty(),
            g.changes() == Map::<Seq<char>, Option<Seq<char>>>::empty(),
            g.change_count() == 0,
            g.blobs() == Map::<Seq<char>, Seq<u8>>::empty(),
            g.trees() == Map::<Seq<char>, Seq<TreeEntry>>::empty(),
    {
        let g = RevisionGraph { store: ObjectStore::new(), nodes: Vec::new(), changes: Vec::new(), ids: ChangeIdAllocator::new() };
        assert(g.revisions() =~= Map::<Seq<char>, RevisionView>::empty());
        assert(g.trees() =~= Map::<Seq<char>, Seq<TreeEntry>>::empty());
        assert(g.changes() =~= Map::<Seq<char>, Option<Seq<char>>>::empty());
        g
    }

    fn find_node(&self, id: &String) -> (r: Option<usize>)
        requires
            self.wf(),
        ensures
            r.is_some() == self.revisions().contains_key(id@),
            r.is_some() ==> r.unwrap() < self.nodes@.len() && self.nodes@[r.unwrap() as int].revision.revision_id@ == id@,
    {
        let mut i: usize = 0;
        while i < self.nodes.len()
            invariant
                i <= self.nodes@.len(),
                forall|j: int| 0 <= j < i ==> (#[trigger] self.nodes@[j]).revision.revision_id@ != id@,
            decreases self.nodes@.len() - i,
        {
            if self.nodes[i].revision.revision_id.0 == *id {
                return Some(i);
            }
            i = i + 1;
        }
        None
    }

    fn find_change(&self, c: &String) -> (r: Option<usize>)
        requires
            self.wf(),
        ensures
            r.is_some() == self.changes().contains_key(c@),
            r.is_some() ==> r.unwrap() < self.changes@.len() && self.changes@[r.unwrap() as int].id@ == c@,
    {
        let mut i: usize = 0;
        while i < self.changes.len()
            invariant
                i <= self.changes@.len(),
                forall|j: int| 0 <= j < i ==> (#[trigger] self.changes@[j]).id@ != c@,
            decreases self.changes@.len() - i,
        {
            if self.changes[i].id.0 == *c {
                return Some(i);
            }
            i = i + 1;
        }
        None
    }

    fn add_node(&mut self, node: Node)
        requires
            old(self).wf(),
            !old(self).revisions().contains_key(node.revision.revision_id@),
            node.tree.wf(),
            node.parent_slots@.len() == node.revision.parents@.len(),
            forall|k: int| 0 <= k < node.parent_slots@.len() ==> {
                let p = (#[trigger] node.parent_slots@[k]) as int;
                &&& p < old(self).nodes@.len()
                &&& old(self).nodes@[p].revision.revision_id@ == node.revision.parents@[k]@
            },
        ensures
            final(self).wf(),
            final(self).revisions() == old(self).revisions().insert(node.revision.revision_id@, node.revision@),
            final(self).trees() == old(self).trees().insert(node.revision.revision_id@, node.tree.entries()),
            final(self).changes() == old(self).changes(),
            final(self).changes@ == old(self).changes@,
            final(self).store == old(self).store,
            final(self).nodes@ == old(self).nodes@.push(node),
    {
        let ghost g0 = *self;
        let ghost id = node.revision.revision_id@;
        let ghost nv = node.revision@;
        let ghost te = node.tree.entries();
        self.nodes.push(node);
        proof {
            let n0 = g0.nodes@.len() as int;
            assert forall|i: int| 0 <= i < n0 implies (#[trigger] g0.nodes@[i]).revision.revision_id@ != id by {
                if g0.nodes@[i].revision.revision_id@ == id {
                    assert(g0.revisions().contains_key(id));
                }
            }
            assert(self.wf()) by {
                assert forall|i: int, k: int| 0 <= i < self.nodes@.len() && 0 <= k < self.nodes@[i].parent_slots@.len() implies {
                    let p = (#[trigger] self.nodes@[i].parent_slots@[k]) as int;
                    &&& p < i
                    &&& self.nodes@[p].revision.revision_id@ == self.nodes@[i].revision.parents@[k]@
                } by {
                    if i < n0 {
                        assert(self.nodes@[i] == g0.nodes@[i]);
                        let p = g0.nodes@[i].parent_slots@[k] as int;
                        assert(p < i);
                    }
                }
            }
            self.lemma_node(n0);
            assert forall|x: Seq<char>| #[trigger] self.revisions().contains_key(x) == g0.revisions().insert(id, nv).contains_key(x) by {
                if g0.revisions().contains_key(x) {
                    let j = node_index(g0.nodes@, x);
                    assert(self.nodes@[j] == g0.nodes@[j]);
                }
                if self.revisions().contains_key(x) && x != id {
                    let j = node_index(self.nodes@, x);
                    assert(g0.nodes@[j] == self.nodes@[j]);
                }
            }
            assert forall|x: Seq<char>| #[trigger] self.revisions().contains_key(x) && x != id implies
                self.revisions()[x] == g0.revisions()[x] && self.trees()[x] == g0.trees()[x] by {
                let j = node_index(self.nodes@, x);
                self.lemma_node(j);
                assert(self.nodes@[j] == g0.nodes@[j]);
                g0.lemma_node(j);
            }
            assert(self.revisions() =~= g0.revisions().insert(id, nv));
            assert(self.trees() =~= g0.trees().insert(id, te));
            assert forall|c: Seq<char>| #[trigger] self.changes().contains_key(c) implies self.changes()[c] == g0.changes()[c] by {
                let j = slot_index(self.changes@, c);
                let cur = self.changes@[j].current;
                if cur.is_some() {
                    assert(self.nodes@[cur.unwrap() as int] == g0.nodes@[cur.unwrap() as int]);
                }
            }
            assert(self.changes() =~= g0.changes());
        }
    }

    fn set_current(&mut self, k: usize, cur: Option<usize>)
        requires
            old(self).wf(),
            k < old(self).changes@.len(),
            cur.is_some() ==> cur.unwrap() < old(self).nodes@.len(),
        ensures
            final(self).wf(),
            final(self).changes() == old(self).changes().insert(
                old(self).changes@[k as int].id@,
                if cur.is_some() {
                    Some(old(self).nodes@[cur.unwrap() as int].revision.revision_id@)
                } else {
                    None
                },
            ),
            final(self).changes@.len() == old(self).changes@.len(),
            final(self).nodes@ == old(self).nodes@,
            final(self).store == old(self).store,
            final(self).revisions() == old(self).revisions(),
            final(self).trees() == old(self).trees(),
    {
        let ghost g0 = *self;
        let slot = ChangeSlot { id: ChangeId(self.changes[k].id.0.clone()), current: cur };
        self.changes.set(k, slot);
        proof {
            let c = g0.changes@[k as int].id@;
            g0.lemma_slot(k as int);
            self.lemma_slot(k as int);
            assert forall|x: Seq<char>| #[trigger] self.changes().contains_key(x) == g0.changes().contains_key(x) by {
                if g0.changes().contains_key(x) {
                    let j = slot_index(g0.changes@, x);
                    assert(self.changes@[j].id@ == x);
                }
                if self.changes().contains_key(x) {
                    let j = slot_index(self.changes@, x);
                    assert(g0.changes@[j].id@ == x);
                }
            }
            assert forall|x: Seq<char>| #[trigger] self.changes().contains_key(x) && x != c implies self.changes()[x] == g0.changes()[x] by {
                let j = slot_index(self.changes@, x);
                self.lemma_slot(j);
                g0.lemma_slot(j);
            }
            assert(self.changes() =~= g0.changes().insert(c, if cur.is_some() {
                Some(g0.nodes@[cur.unwrap() as int].revision.revision_id@)
            } else {
                None
            }));
            assert(self.revisions() =~= g0.revisions());
            assert(self.trees() =~= g0.trees());
        }
    }

    fn push_change(&mut self, idx: usize) -> (c: ChangeId)
        requires
            old(self).wf(),
            old(self).changes@.len() < u64::MAX,
            idx < old(self).nodes@.len(),
        ensures
            final(self).wf(),
            c@ == change_name(old(self).changes@.len() as u64),
            !old(self).changes().contains_key(c@),
            final(self).changes() == old(self).changes().insert(c@, Some(old(self).nodes@[idx as int].revision.revision_id@)),
            final(self).changes@.len() == old(self).changes@.len() + 1,
            final(self).nodes@ == old(self).nodes@,
            final(self).store == old(self).store,
            final(self).revisions() == old(self).revisions(),
            final(self).trees() == old(self).trees(),
    {
        let ghost g0 = *self;
        let ghost m = g0.changes@.len() as int;
        let c = self.ids.allocate();
        let ret = ChangeId(c.0.clone());
        let ghost cv = c@;
        self.changes.push(ChangeSlot { id: c, current: Some(idx) });
        proof {
            assert forall|i: int| 0 <= i < m implies (#[trigger] g0.changes@[i]).id@ != cv by {
                if g0.changes@[i].id@ == cv {
                    lemma_change_name_injective(i as u64, m as u64);
                }
            }
            assert(!g0.changes().contains_key(cv));
            self.lemma_slot(m);
            assert forall|x: Seq<char>| #[trigger] self.changes().contains_key(x) == g0.changes().insert(cv, Some(g0.nodes@[idx as int].revision.revision_id@)).contains_key(x) by {
                if g0.changes().contains_key(x) {
                    let j = slot_index(g0.changes@, x);
                    assert(self.changes@[j] == g0.changes@[j]);
                }
                if self.changes().contains_key(x) && x != cv {
                    let j = slot_index(self.changes@, x);
                    assert(g0.changes@[j] == self.changes@[j]);
                }
            }
            assert forall|x: Seq<char>| #[trigger] self.changes().contains_key(x) && x != cv implies self.changes()[x] == g0.changes()[x] by {
                let j = slot_index(self.changes@, x);
                self.lemma_slot(j);
                assert(g0.changes@[j] == self.changes@[j]);
                g0.lemma_slot(j);
            }
            assert(self.changes() =~= g0.changes().insert(cv, Some(g0.nodes@[idx as int].revision.revision_id@)));
            assert(self.revisions() =~= g0.revisions());
            assert(self.trees() =~= g0.trees());
        }
        ret
    }

    /// Records a new revision of `tree` with the given metadata and parents.
    /// With no change id a fresh change is allocated; with one, that
    /// change's current revision moves to the new one. The tree and its
    /// delta from the first parent's tree (the whole tree for a root) go to
    /// the object store; the revision id is the digest of the canonical
    /// serialization of tree hash, delta hash, author, description,
    /// timestamp and parent ids. A revision with an id already recorded is
    /// not recorded twice.
    pub fn create_revision(
        &mut self,
        change_id: Option<ChangeId>,
        tree: &Tree,
        author: String,
        description: String,
        timestamp: String,
        parents: Vec<RevisionId>,
    ) -> (r: Result<Revision, RiftError>)
        requires
            old(self).wf(),
            tree.wf(),
            change_id.is_none() ==> old(self).change_count() < u64::MAX,
        ensures
            create_post(
                *old(self),
                *final(self),
                opt_id(change_id),
                tree.entries(),
                author@,
                description@,
                timestamp@,
                ids_view(parents@),
                r,
            ),
    {
        let ghost g0 = *self;
        let ghost pv = ids_view(parents@);
        let ghost c = target_change(g0, opt_id(change_id));
        let mut slot: Option<usize> = None;
        match &change_id {
            Some(cid) => {
                match self.find_change(&cid.0) {
                    None => {
                        return Err(RiftError::UnknownChange);
                    },
                    Some(k) => {
                        proof { self.lemma_slot(k as int); }
                        if self.changes[k].current.is_none() {
                            return Err(RiftError::Abandoned);
                        }
                        slot = Some(k);
                    },
                }
            },
            None => {},
        }
        let mut pslots: Vec<usize> = Vec::new();
        let mut k: usize = 0;
        while k < parents.len()
            invariant
                self.wf(),
                *self == g0,
                pv == ids_view(parents@),
                k <= parents@.len(),
                pslots@.len() == k,
                forall|j: int| 0 <= j < k ==> {
                    let p = (#[trigger] pslots@[j]) as int;
                    &&& p < self.nodes@.len()
                    &&& self.nodes@[p].revision.revision_id@ == parents@[j]@
                },
                forall|j: int| 0 <= j < k ==> g0.revisions().contains_key(#[trigger] pv[j]),
                c == target_change(g0, opt_id(change_id)),
                opt_id(change_id).is_some() ==> g0.changes().contains_key(c) && g0.changes()[c].is_some(),
            decreases parents@.len() - k,
        {
            match self.find_node(&parents[k].0) {
                None => {
                    proof {
                        assert(pv[k as int] == parents@[k as int]@);
                        assert(!g0.revisions().contains_key(pv[k as int]));
                        assert(cycle_in(g0, pv, planned(g0, c, tree.entries(), author@, description@, timestamp@, pv).revision_id));
                    }
                    return Err(RiftError::CycleDetected);
                },
                Some(i) => {
                    proof { assert(pv[k as int] == parents@[k as int]@); }
                    pslots.push(i);
                },
            }
            k = k + 1;
        }
        let empty = Tree::new();
        let ptree: &Tree = if parents.len() == 0 {
            &empty
        } else {
            &self.nodes[pslots[0]].tree
        };
        proof {
            if parents@.len() > 0 {
                self.lemma_node(pslots@[0] as int);
                assert(pv[0] == parents@[0]@);
            }
            assert(ptree.entries() == parent_tree(g0, pv));
            lemma_tree_view(tree);
        }
        let delta = compute_delta(ptree, tree);
        let tb = tree.canonical_bytes();
        let db = delta.canonical_bytes();
        let th = hash(tb.as_slice());
        let dh = hash(db.as_slice());
        let rid = revision_id_of(&th, &dh, &author, &description, &timestamp, &parents);
        let ghost plan = planned(g0, c, tree.entries(), author@, description@, timestamp@, pv);
        assert(rid@ == plan.revision_id);
        let mut k2: usize = 0;
        while k2 < parents.len()
            invariant
                k2 <= parents@.len(),
                pv == ids_view(parents@),
                forall|j: int| 0 <= j < k2 ==> #[trigger] pv[j] != rid@,
                rid@ == plan.revision_id,
                plan == planned(g0, c, tree.entries(), author@, description@, timestamp@, pv),
                self.wf(),
                *self == g0,
                c == target_change(g0, opt_id(change_id)),
                opt_id(change_id).is_some() ==> g0.changes().contains_key(c) && g0.changes()[c].is_some(),
            decreases parents@.len() - k2,
        {
            proof { assert(pv[k2 as int] == parents@[k2 as int]@); }
            if parents[k2].0 == rid.0 {
                proof {
                    assert(pv[k2 as int] == plan.revision_id);
                    assert(cycle_in(g0, pv, plan.revision_id));
                    assert(!(opt_id(change_id).is_some() && !g0.changes().contains_key(c)));
                    assert(!(opt_id(change_id).is_some() && g0.changes().contains_key(c) && g0.changes()[c].is_none()));
                }
                return Err(RiftError::CycleDetected);
            }
            k2 = k2 + 1;
        }
        proof {
            assert(!cycle_in(g0, pv, plan.revision_id));
        }
        match self.store.put(tb.as_slice()) {
            Err(_) => {
                return Err(RiftError::Corruption);
            },
            Ok(_) => {},
        }
        match self.store.put(db.as_slice()) {
            Err(_) => {
                proof {
                    assert(self.revisions() =~= g0.revisions());
                    assert(self.trees() =~= g0.trees());
                    assert(self.changes() =~= g0.changes());
                }
                return Err(RiftError::Corruption);
            },
            Ok(_) => {},
        }
        proof {
            assert(self.revisions() =~= g0.revisions());
            assert(self.trees() =~= g0.trees());
            assert(self.changes() =~= g0.changes());
        }
        let cid = match &change_id {
            Some(x) => ChangeId(x.0.clone()),
            None => self.ids.peek(),
        };
        assert(cid@ == c);
        let revision = Revision {
            revision_id: rid,
            change_id: cid,
            tree_hash: th,
            delta_hash: dh,
            author,
            description,
            timestamp,
            parents,
        };
        assert(revision@ == plan);
        let idx: usize = match self.find_node(&revision.revision_id.0) {
            Some(i) => i,
            None => {
                let stored = revision.duplicate();
                let node = Node { revision: stored, tree: tree.duplicate(), parent_slots: pslots };
                proof {
                    assert forall|j: int| 0 <= j < node.parent_slots@.len() implies {
                        let p = (#[trigger] node.parent_slots@[j]) as int;
                        &&& p < self.nodes@.len()
                        &&& self.nodes@[p].revision.revision_id@ == node.revision.parents@[j]@
                    } by {
                        assert(node.revision.parents@[j] == parents@[j]);
                    }
                }
                let ghost before = *self;
                self.add_node(node);
                proof {
                    let n0 = before.nodes@.len() as int;
                    self.lemma_node(n0);
                    assert forall|x: Seq<char>| #[trigger] g0.revisions().contains_key(x) implies self.position(x) < self.position(plan.revision_id) by {
                        assert(before.revisions().contains_key(x));
                        let j = node_index(before.nodes@, x);
                        before.lemma_node(j);
                        assert(self.nodes@[j] == before.nodes@[j]);
                        self.lemma_node(j);
                    }
                }
                self.nodes.len() - 1
            },
        };
        let ghost mid = *self;
        proof { self.lemma_node(idx as int); }
        match slot {
            Some(k) => {
                self.set_current(k, Some(idx));
            },
            None => {
                self.push_change(idx);
            },
        }
        proof {
            assert(self.nodes@ == mid.nodes@);
            assert forall|x: Seq<char>| #[trigger] g0.revisions().contains_key(x) implies self.position(x) == mid.position(x) by {}
            assert(self.position(plan.revision_id) == mid.position(plan.revision_id));
            assert(self.blobs() == mid.blobs());
        }
        Ok(revision)
    }

    /// Both revisions are recorded and `a` is a strict ancestor of `t`.
    pub closed spec fn is_ancestor(&self, a: Seq<char>, t: Seq<char>) -> bool {
        &&& self.revisions().contains_key(a)
        &&& self.revisions().contains_key(t)
        &&& anc(self.nodes@, node_index(self.nodes@, t), node_index(self.nodes@, a))
    }

    /// `h` lists revision `t` and each of its ancestors exactly once, as
    /// recorded, latest recorded first.
    pub open spec fn is_history(&self, t: Seq<char>, h: Seq<Revision>) -> bool {
        &&& forall|k: int| 0 <= k < h.len() ==> self.revisions().contains_key((#[trigger] h[k]).revision_id@)
            && h[k]@ == self.revisions()[h[k].revision_id@]
            && (h[k].revision_id@ == t || self.is_ancestor(h[k].revision_id@, t))
        &&& exists|k: int| 0 <= k < h.len() && (#[trigger] h[k]).revision_id@ == t
        &&& forall|id: Seq<char>| #[trigger] self.is_ancestor(id, t) ==> exists|k: int| 0 <= k < h.len() && (#[trigger] h[k]).revision_id@ == id
        &&& forall|k1: int, k2: int| 0 <= k1 < k2 < h.len() ==> #[trigger] self.position(h[k1].revision_id@) > #[trigger] self.position(h[k2].revision_id@)
    }

    /// Marks every strict ancestor of revision `t`, each visited once, in
    /// descending recording order.
    fn ancestor_marks(&self, t: usize) -> (marks: Vec<bool>)
        requires
            self.wf(),
            t < self.nodes@.len(),
        ensures
            marks@.len() == self.nodes@.len(),
            forall|j: int| 0 <= j < self.nodes@.len() ==> marks@[j] == anc(self.nodes@, t as int, j),
    {
        let n = self.nodes.len();
        let mut marks: Vec<bool> = Vec::new();
        let mut z: usize = 0;
        while z < n
            invariant
                z <= n,
                n == self.nodes@.len(),
                marks@.len() == z,
                forall|j: int| 0 <= j < z ==> !marks@[j],
            decreases n - z,
        {
            marks.push(false);
            z = z + 1;
        }
        let ghost nodes = self.nodes@;
        let mut i: usize = t + 1;
        while i > 0
            invariant
                self.wf(),
                nodes == self.nodes@,
                n == nodes.len(),
                t < n,
                i <= t + 1,
                marks@.len() == n,
                forall|j: int| 0 <= j < n ==> #[trigger] marks@[j] == (exists|x: int| i <= x <= t && (x == t || anc(nodes, t as int, x)) && #[trigger] has_parent(nodes, x, j)),
            decreases i,
        {
            i = i - 1;
            proof {
                if i < t {
                    assert(marks@[i as int] == anc(nodes, t as int, i as int));
                }
            }
            if i == t || marks[i] {
                let ghost before = marks@;
                let mut k: usize = 0;
                let np = self.nodes[i].parent_slots.len();
                while k < np
                    invariant
                        self.wf(),
                        nodes == self.nodes@,
                        n == nodes.len(),
                        i < n,
                        i <= t,
                        np == nodes[i as int].parent_slots@.len(),
                        k <= np,
                        marks@.len() == n,
                        forall|j: int| 0 <= j < n ==> #[trigger] marks@[j] == (before[j] || exists|q: int| 0 <= q < k && (#[trigger] nodes[i as int].parent_slots@[q]) as int == j),
                    decreases np - k,
                {
                    let p = self.nodes[i].parent_slots[k];
                    proof { assert(p < i); }
                    marks.set(p, true);
                    proof {
                        assert forall|j: int| 0 <= j < n implies #[trigger] marks@[j] == (before[j] || exists|q: int| 0 <= q < k + 1 && (#[trigger] nodes[i as int].parent_slots@[q]) as int == j) by {
                            if j == p as int {
                                assert(nodes[i as int].parent_slots@[k as int] as int == j);
                            }
                        }
                    }
                    k = k + 1;
                }
                proof {
                    assert forall|j: int| 0 <= j < n implies #[trigger] marks@[j] == (exists|x: int| i <= x <= t && (x == t || anc(nodes, t as int, x)) && #[trigger] has_parent(nodes, x, j)) by {
                        if marks@[j] && !before[j] {
                            assert(has_parent(nodes, i as int, j));
                        }
                        if exists|x: int| i <= x <= t && (x == t || anc(nodes, t as int, x)) && #[trigger] has_parent(nodes, x, j) {
                            let x = choose|x: int| i <= x <= t && (x == t || anc(nodes, t as int, x)) && #[trigger] has_parent(nodes, x, j);
                            if x == i {
                                let q = choose|q: int| 0 <= q < nodes[x].parent_slots@.len() && (#[trigger] nodes[x].parent_slots@[q]) as int == j;
                            }
                        }
                    }
                }
            } else {
                proof {
                    assert forall|j: int| 0 <= j < n implies #[trigger] marks@[j] == (exists|x: int| i <= x <= t && (x == t || anc(nodes, t as int, x)) && #[trigger] has_parent(nodes, x, j)) by {
                        if exists|x: int| i <= x <= t && (x == t || anc(nodes, t as int, x)) && #[trigger] has_parent(nodes, x, j) {
                            let x = choose|x: int| i <= x <= t && (x == t || anc(nodes, t as int, x)) && #[trigger] has_parent(nodes, x, j);
                            assert(x != i);
                        }
                    }
                }
            }
        }
        proof {
            assert forall|j: int| 0 <= j < n implies marks@[j] == anc(nodes, t as int, j) by {
                if marks@[j] {
                    let x = choose|x: int| 0 <= x <= t && (x == t || anc(nodes, t as int, x)) && #[trigger] has_parent(nodes, x, j);
                    let q = choose|q: int| 0 <= q < nodes[x].parent_slots@.len() && (#[trigger] nodes[x].parent_slots@[q]) as int == j;
                    assert(j < x);
                    assert(anc(nodes, t as int, j));
                }
                if anc(nodes, t as int, j) {
                    let x = choose|x: int| j < x <= t && (x == t || anc(nodes, t as int, x)) && #[trigger] has_parent(nodes, x, j);
                    assert(0 <= x <= t);
                }
            }
        }
        marks
    }

    /// Whether `candidate` is a strict ancestor of `target`; false when
    /// either is not recorded. Each revision is visited at most once.
    pub fn ancestors_contains(&self, candidate: &RevisionId, target: &RevisionId) -> (r: bool)
        requires
            self.wf(),
        ensures
            r == self.is_ancestor(candidate@, target@),
    {
        let t = match self.find_node(&target.0) {
            Some(t) => t,
            None => {
                return false;
            },
        };
        let a = match self.find_node(&candidate.0) {
            Some(a) => a,
            None => {
                return false;
            },
        };
        proof {
            self.lemma_node(t as int);
            self.lemma_node(a as int);
        }
        let marks = self.ancestor_marks(t);
        marks[a]
    }

    /// The history of `revision_id`: the revision itself and all its
    /// ancestors, each once, latest recorded first. Each call walks afresh.
    pub fn history(&self, revision_id: &RevisionId) -> (r: Result<Vec<Revision>, RiftError>)
        requires
            self.wf(),
        ensures
            r.is_ok() == self.revisions().contains_key(revision_id@),
            r.is_err() ==> r == Err::<Vec<Revision>, RiftError>(RiftError::NotFound),
            r.is_ok() ==> self.is_history(revision_id@, r.unwrap()@),
    {
        let t = match self.find_node(&revision_id.0) {
            Some(t) => t,
            None => {
                return Err(RiftError::NotFound);
            },
        };
        proof { self.lemma_node(t as int); }
        let n = self.nodes.len();
        let marks = self.ancestor_marks(t);
        let ghost nodes = self.nodes@;
        let mut out: Vec<Revision> = Vec::new();
        let mut slots: Vec<usize> = Vec::new();
        let mut i: usize = t + 1;
        while i > 0
            invariant
                self.wf(),
                nodes == self.nodes@,
                t < nodes.len(),
                nodes[t as int].revision.revision_id@ == revision_id@,
                i <= t + 1,
                marks@.len() == nodes.len(),
                forall|j: int| 0 <= j < nodes.len() ==> marks@[j] == anc(nodes, t as int, j),
                out@.len() == slots@.len(),
                forall|k: int| 0 <= k < out@.len() ==> {
                    let x = (#[trigger] slots@[k]) as int;
                    &&& i <= x <= t
                    &&& (x == t || anc(nodes, t as int, x))
                    &&& out@[k]@ == nodes[x].revision@
                },
                forall|k1: int, k2: int| 0 <= k1 < k2 < slots@.len() ==> #[trigger] slots@[k1] > #[trigger] slots@[k2],
                forall|x: int| i <= x <= t && #[trigger] in_history(nodes, t as int, x) ==> exists|k: int| 0 <= k < slots@.len() && #[trigger] slots@[k] == x,
            decreases i,
        {
            let ghost i_old = i;
            i = i - 1;
            let ghost old_slots = slots@;
            if i == t || marks[i] {
                out.push(self.nodes[i].revision.duplicate());
                slots.push(i);
                proof {
                    assert(slots@[slots@.len() - 1] == i);
                    assert forall|x: int| i <= x <= t && #[trigger] in_history(nodes, t as int, x) implies exists|k: int| 0 <= k < slots@.len() && #[trigger] slots@[k] == x by {
                        if x == i {
                            assert(slots@[slots@.len() - 1] == x);
                        } else {
                            assert(i_old <= x <= t && in_history(nodes, t as int, x));
                            let k = choose|k: int| 0 <= k < old_slots.len() && #[trigger] old_slots[k] == x;
                            assert(slots@[k] == x);
                        }
                    }
                }
            } else {
                proof {
                    assert forall|x: int| i <= x <= t && #[trigger] in_history(nodes, t as int, x) implies exists|k: int| 0 <= k < slots@.len() && #[trigger] slots@[k] == x by {
                        assert(x != i);
                        assert(i_old <= x <= t && in_history(nodes, t as int, x));
                    }
                }
            }
        }
        proof {
            let h = out@;
            assert forall|k: int| 0 <= k < h.len() implies self.revisions().contains_key((#[trigger] h[k]).revision_id@)
                && h[k]@ == self.revisions()[h[k].revision_id@]
                && (h[k].revision_id@ == revision_id@ || self.is_ancestor(h[k].revision_id@, revision_id@)) by {
                let x = slots@[k] as int;
                self.lemma_node(x);
            }
            assert forall|id: Seq<char>| id == revision_id@ || #[trigger] self.is_ancestor(id, revision_id@) implies exists|k: int| 0 <= k < h.len() && (#[trigger] h[k]).revision_id@ == id by {
                let x = node_index(nodes, id);
                if id == revision_id@ {
                    assert(x == t);
                } else {
                    assert(anc(nodes, t as int, x));
                    assert(x <= t);
                }
                assert(0 <= x <= t && in_history(nodes, t as int, x));
                let k = choose|k: int| 0 <= k < slots@.len() && #[trigger] slots@[k] == x;
                self.lemma_node(x);
                assert(h[k].revision_id@ == id);
            }
            assert(0 <= t <= t && in_history(nodes, t as int, t as int));
            let kt = choose|k: int| 0 <= k < slots@.len() && #[trigger] slots@[k] == t as int;
            assert(h[kt]@ == nodes[t as int].revision@);
            assert(h[kt].revision_id@ == revision_id@);
            assert forall|k1: int, k2: int| 0 <= k1 < k2 < h.len() implies #[trigger] self.position(h[k1].revision_id@) > #[trigger] self.position(h[k2].revision_id@) by {
                let x1 = slots@[k1] as int;
                let x2 = slots@[k2] as int;
                assert(h[k1]@ == nodes[x1].revision@);
                assert(h[k2]@ == nodes[x2].revision@);
                self.lemma_node(x1);
                self.lemma_node(x2);
                assert(self.position(h[k1].revision_id@) == x1);
                assert(self.position(h[k2].revision_id@) == x2);
                assert(slots@[k1] > slots@[k2]);
            }
            assert(self.is_history(revision_id@, h));
        }
        Ok(out)
    }

    /// The current revision of a change.
    pub fn current(&self, change_id: &ChangeId) -> (r: Result<RevisionId, RiftError>)
        requires
            self.wf(),
        ensures
            !self.changes().contains_key(change_id@) ==> r == Err::<RevisionId, RiftError>(RiftError::UnknownChange),
            self.changes().contains_key(change_id@) && self.changes()[change_id@].is_none() ==> r == Err::<RevisionId, RiftError>(RiftError::Abandoned),
            self.changes().contains_key(change_id@) && self.changes()[change_id@].is_some() ==> r.is_ok()
                && r.unwrap()@ == self.changes()[change_id@].unwrap(),
    {
        match self.find_change(&change_id.0) {
            None => Err(RiftError::UnknownChange),
            Some(k) => {
                proof { self.lemma_slot(k as int); }
                match self.changes[k].current {
                    None => Err(RiftError::Abandoned),
                    Some(i) => Ok(self.nodes[i].revision.revision_id.duplicate()),
                }
            },
        }
    }

    /// Clears a change's current revision for good. Its revisions stay.
    pub fn abandon(&mut self, change_id: &ChangeId) -> (r: Result<(), RiftError>)
        requires
            old(self).wf(),
        ensures
            final(self).wf(),
            !old(self).changes().contains_key(change_id@) ==> r == Err::<(), RiftError>(RiftError::UnknownChange),
            old(self).changes().contains_key(change_id@) && old(self).changes()[change_id@].is_none() ==> r == Err::<(), RiftError>(RiftError::Abandoned),
            old(self).changes().contains_key(change_id@) && old(self).changes()[change_id@].is_some() ==> r.is_ok()
                && final(self).changes() == old(self).changes().insert(change_id@, None),
            r.is_err() ==> final(self).changes() == old(self).changes(),
            final(self).revisions() == old(self).revisions(),
            final(self).trees() == old(self).trees(),
            final(self).change_count() == old(self).change_count(),
    {
        match self.find_change(&change_id.0) {
            None => Err(RiftError::UnknownChange),
            Some(k) => {
                proof { self.lemma_slot(k as int); }
                if self.changes[k].current.is_none() {
                    return Err(RiftError::Abandoned);
                }
                self.set_current(k, None);
                Ok(())
            },
        }
    }

    /// Moves a change to a new revision only if its current revision is
    /// still `expected`; otherwise another writer got there first.
    pub fn amend(
        &mut self,
        change_id: ChangeId,
        expected: &RevisionId,
        tree: &Tree,
        author: String,
        description: String,
        timestamp: String,
        parents: Vec<RevisionId>,
    ) -> (r: Result<Revision, RiftError>)
        requires
            old(self).wf(),
            tree.wf(),
        ensures
            final(self).wf(),
            old(self).changes().contains_key(change_id@) && old(self).changes()[change_id@] is Some
                && old(self).changes()[change_id@] != Some(expected@) ==> r == Err::<Revision, RiftError>(RiftError::ConcurrentModification)
                && *final(self) == *old(self),
            !(old(self).changes().contains_key(change_id@) && old(self).changes()[change_id@] is Some
                && old(self).changes()[change_id@] != Some(expected@)) ==> create_post(
                *old(self),
                *final(self),
                Some(change_id@),
                tree.entries(),
                author@,
                description@,
                timestamp@,
                ids_view(parents@),
                r,
            ),
    {
        match self.current(&change_id) {
            Ok(cur) => {
                if cur.0 != expected.0 {
                    return Err(RiftError::ConcurrentModification);
                }
            },
            Err(_) => {},
        }
        self.create_revision(Some(change_id), tree, author, description, timestamp, parents)
    }

    /// The revision recorded under `id`.
    pub fn get_revision(&self, id: &RevisionId) -> (r: Result<Revision, RiftError>)
        requires
            self.wf(),
        ensures
            r.is_ok() == self.revisions().contains_key(id@),
            r.is_ok() ==> r.unwrap()@ == self.revisions()[id@],
            r.is_err() ==> r == Err::<Revision, RiftError>(RiftError::NotFound),
    {
        match self.find_node(&id.0) {
            None => Err(RiftError::NotFound),
            Some(i) => {
                proof { self.lemma_node(i as int); }
                Ok(self.nodes[i].revision.duplicate())
            },
        }
    }

    /// The object store that holds the graph's trees and deltas.
    pub fn store(&self) -> (r: &ObjectStore)
        requires
            self.wf(),
        ensures
            r.wf(),
            r.contents() == self.blobs(),
    {
        &self.store
    }
}

/// A root revision on a graph whose store is empty succeeds, unless the
/// tree's and the delta's digests coincide on different bytes. It has no
/// parents, the tree's hash, the hash of the whole tree as a delta, and is
/// the current revision of a freshly allocated change.
pub proof fn lemma_root_revision(
    g0: RevisionGraph,
    g1: RevisionGraph,
    tree: Seq<TreeEntry>,
    author: Seq<char>,
    description: Seq<char>,
    timestamp: Seq<char>,
    r: Result<Revision, RiftError>,
)
    requires
        g0.blobs() == Map::<Seq<char>, Seq<u8>>::empty(),
        create_post(g0, g1, None, tree, author, description, timestamp, Seq::empty(), r),
        hash_spec(entries_bytes(tree)) != hash_spec(ops_bytes(delta_between(Seq::empty(), tree)))
            || entries_bytes(tree) == ops_bytes(delta_between(Seq::empty(), tree)),
    ensures
        r.is_ok(),
        r.unwrap()@ == planned(g0, change_name(g0.change_count() as u64), tree, author, description, timestamp, Seq::empty()),
        r.unwrap()@.parents == Seq::<Seq<char>>::empty(),
        r.unwrap()@.change_id == change_name(g0.change_count() as u64),
        r.unwrap()@.tree_hash == hash_spec(entries_bytes(tree)),
        r.unwrap()@.delta_hash == hash_spec(ops_bytes(delta_between(Seq::empty(), tree))),
        g1.changes().contains_key(r.unwrap()@.change_id),
        g1.changes()[r.unwrap()@.change_id] == Some(r.unwrap()@.revision_id),
        g1.revisions().contains_key(r.unwrap()@.revision_id),
        g1.blobs() == Map::<Seq<char>, Seq<u8>>::empty().insert(hash_spec(entries_bytes(tree)), entries_bytes(tree)).insert(
            hash_spec(ops_bytes(delta_between(Seq::empty(), tree))),
            ops_bytes(delta_between(Seq::empty(), tree)),
        ),
{
    let parents = Seq::<Seq<char>>::empty();
    let plan = planned(g0, change_name(g0.change_count() as u64), tree, author, description, timestamp, parents);
    assert(parent_tree(g0, parents) == Seq::<TreeEntry>::empty());
    assert(!cycle_in(g0, parents, plan.revision_id));
    let tb = entries_bytes(tree);
    assert(!clash(g0.blobs(), tb));
}

/// An amendment succeeds when the change is live, every parent is recorded
/// and differs from the new id, and the store holds no other bytes under
/// the new tree's or delta's digest. The change keeps its id and its current
/// revision becomes the new one.
pub proof fn lemma_amend_succeeds(
    g0: RevisionGraph,
    g1: RevisionGraph,
    c: Seq<char>,
    tree: Seq<TreeEntry>,
    author: Seq<char>,
    description: Seq<char>,
    timestamp: Seq<char>,
    parents: Seq<Seq<char>>,
    r: Result<Revision, RiftError>,
)
    requires
        create_post(g0, g1, Some(c), tree, author, description, timestamp, parents, r),
        g0.changes().contains_key(c),
        g0.changes()[c].is_some(),
        forall|k: int| 0 <= k < parents.len() ==> g0.revisions().contains_key(#[trigger] parents[k])
            && parents[k] != planned(g0, c, tree, author, description, timestamp, parents).revision_id,
        !clash(g0.blobs(), entries_bytes(tree)),
        !clash(
            g0.blobs().insert(hash_spec(entries_bytes(tree)), entries_bytes(tree)),
            ops_bytes(delta_between(parent_tree(g0, parents), tree)),
        ),
    ensures
        r.is_ok(),
        r.unwrap()@ == planned(g0, c, tree, author, description, timestamp, parents),
        r.unwrap().change_id@ == c,
        r.unwrap()@.delta_hash == hash_spec(ops_bytes(delta_between(parent_tree(g0, parents), tree))),
        g1.changes()[c] == Some(r.unwrap().revision_id@),
        g1.change_count() == g0.change_count(),
{
    assert(!cycle_in(g0, parents, planned(g0, c, tree, author, description, timestamp, parents).revision_id));
}

/// Change identity stability: amending a live change keeps its id, and the
/// change's current revision becomes the new revision.
pub proof fn lemma_amend_keeps_change(
    g0: RevisionGraph,
    g1: RevisionGraph,
    c: Seq<char>,
    tree: Seq<TreeEntry>,
    author: Seq<char>,
    description: Seq<char>,
    timestamp: Seq<char>,
    parents: Seq<Seq<char>>,
    r: Result<Revision, RiftError>,
)
    requires
        create_post(g0, g1, Some(c), tree, author, description, timestamp, parents, r),
        r.is_ok(),
    ensures
        r.unwrap().change_id@ == c,
        g1.changes().contains_key(c),
        g1.changes()[c] == Some(r.unwrap().revision_id@),
        g1.change_count() == g0.change_count(),
{
    let plan = planned(g0, c, tree, author, description, timestamp, parents);
    let tb = entries_bytes(tree);
    let db = ops_bytes(delta_between(parent_tree(g0, parents), tree));
    if !g0.changes().contains_key(c) || g0.changes()[c].is_none() || cycle_in(g0, parents, plan.revision_id)
        || clash(g0.blobs(), tb) || clash(g0.blobs().insert(hash_spec(tb), tb), db) {
        assert(r.is_err());
    }
}

/// Acyclicity: a parent list that names a revision the graph does not hold
/// (such as the new revision's own, not yet recorded id) is refused with
/// `CycleDetected`, for a change that can take a new revision.
pub proof fn lemma_unknown_parent_refused(
    g0: RevisionGraph,
    g1: RevisionGraph,
    change_id: Option<Seq<char>>,
    tree: Seq<TreeEntry>,
    author: Seq<char>,
    description: Seq<char>,
    timestamp: Seq<char>,
    parents: Seq<Seq<char>>,
    r: Result<Revision, RiftError>,
    k: int,
)
    requires
        create_post(g0, g1, change_id, tree, author, description, timestamp, parents, r),
        change_id.is_some() ==> g0.changes().contains_key(change_id.unwrap()) && g0.changes()[change_id.unwrap()].is_some(),
        0 <= k < parents.len(),
        !g0.revisions().contains_key(parents[k]),
    ensures
        r == Err::<Revision, RiftError>(RiftError::CycleDetected),
        g1.revisions() == g0.revisions(),
{
    let plan = planned(g0, target_change(g0, change_id), tree, author, description, timestamp, parents);
    assert(cycle_in(g0, parents, plan.revision_id));
}

/// The parent relation has no cycle: an ancestor was always recorded
/// before its descendant, so no revision is its own ancestor.
pub proof fn lemma_ancestor_precedes(g: RevisionGraph, a: Seq<char>, t: Seq<char>)
    requires
        g.wf(),
        g.is_ancestor(a, t),
    ensures
        g.position(a) < g.position(t),
        a != t,
{
}

/// Acyclicity of a new revision: once recorded, a revision that was not in
/// the graph before is no ancestor of any of its parents, nor one of them.
pub proof fn lemma_new_revision_not_ancestor(
    g0: RevisionGraph,
    g1: RevisionGraph,
    change_id: Option<Seq<char>>,
    tree: Seq<TreeEntry>,
    author: Seq<char>,
    description: Seq<char>,
    timestamp: Seq<char>,
    parents: Seq<Seq<char>>,
    r: Result<Revision, RiftError>,
)
    requires
        create_post(g0, g1, change_id, tree, author, description, timestamp, parents, r),
        r.is_ok(),
        !g0.revisions().contains_key(r.unwrap()@.revision_id),
    ensures
        forall|k: int| 0 <= k < parents.len() ==> #[trigger] parents[k] != r.unwrap()@.revision_id
            && !g1.is_ancestor(r.unwrap()@.revision_id, parents[k]),
{
    let c = target_change(g0, change_id);
    let plan = planned(g0, c, tree, author, description, timestamp, parents);
    let tb = entries_bytes(tree);
    let db = ops_bytes(delta_between(parent_tree(g0, parents), tree));
    if (change_id.is_some() && !g0.changes().contains_key(c)) || (change_id.is_some() && g0.changes().contains_key(c)
        && g0.changes()[c].is_none()) || cycle_in(g0, parents, plan.revision_id) || clash(g0.blobs(), tb) || clash(
        g0.blobs().insert(hash_spec(tb), tb),
        db,
    ) {
        assert(r.is_err());
    }
    assert forall|k: int| 0 <= k < parents.len() implies #[trigger] parents[k] != r.unwrap()@.revision_id
        && !g1.is_ancestor(r.unwrap()@.revision_id, parents[k]) by {
        assert(g0.revisions().contains_key(parents[k]));
        assert(g1.position(parents[k]) < g1.position(plan.revision_id));
        if g1.is_ancestor(plan.revision_id, parents[k]) {
            lemma_ancestor_precedes(g1, plan.revision_id, parents[k]);
        }
    }
}

} // verus!
