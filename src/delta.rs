//! Structural deltas between trees: which paths to remove and which to add.
use vstd::prelude::*;
use vstd::utf8::encode_utf8;
use crate::bytes::{bytes_lt, framed, lemma_lt_irrefl, push_framed};
use crate::hasher::{hash, hash_spec};
use crate::tree::{index_of, key_of, lemma_to_map_index, lemma_tree_view, sorted, to_map, Tree, TreeEntry};

verus! {

/// One step of an edit script.
#[derive(Debug, Clone, PartialEq, Eq)]
pub enum DeltaOp {
    /// Drop the path.
    Remove { path: String },
    /// Set the path to the content.
    Add { path: String, content: String },
}

/// An edit script: removals first, then additions, each in path order.
#[derive(Debug, Clone, PartialEq, Eq)]
pub struct Delta {
    pub ops: Vec<DeltaOp>,
}

/// The map already holds the entry's path with the entry's content.
pub open spec fn agrees(m: Map<Seq<char>, Seq<char>>, e: TreeEntry) -> bool {
    m.contains_key(e.path@) && m[e.path@] == e.content@
}

pub open spec fn apply_op(m: Map<Seq<char>, Seq<char>>, op: DeltaOp) -> Map<Seq<char>, Seq<char>> {
    match op {
        DeltaOp::Remove { path } => m.remove(path@),
        DeltaOp::Add { path, content } => m.insert(path@, content@),
    }
}

/// The tree content after applying the steps in order.
pub open spec fn apply_ops(m: Map<Seq<char>, Seq<char>>, ops: Seq<DeltaOp>) -> Map<Seq<char>, Seq<char>>
    decreases ops.len(),
{
    if ops.len() == 0 {
        m
    } else {
        apply_op(apply_ops(m, ops.drop_last()), ops.last())
    }
}

/// A removal for each entry that the target does not hold as it is.
pub open spec fn removals(s: Seq<TreeEntry>, target: Map<Seq<char>, Seq<char>>) -> Seq<DeltaOp>
    decreases s.len(),
{
    if s.len() == 0 {
        Seq::empty()
    } else {
        let r = removals(s.drop_last(), target);
        if agrees(target, s.last()) {
            r
        } else {
            r.push(DeltaOp::Remove { path: s.last().path })
        }
    }
}

/// An addition for each entry that the base does not hold as it is.
pub open spec fn additions(s: Seq<TreeEntry>, base: Map<Seq<char>, Seq<char>>) -> Seq<DeltaOp>
    decreases s.len(),
{
    if s.len() == 0 {
        Seq::empty()
    } else {
        let r = additions(s.drop_last(), base);
        if agrees(base, s.last()) {
            r
        } else {
            r.push(DeltaOp::Add { path: s.last().path, content: s.last().content })
        }
    }
}

/// The delta from one tree to another.
pub open spec fn delta_between(parent: Seq<TreeEntry>, new: Seq<TreeEntry>) -> Seq<DeltaOp> {
    removals(parent, to_map(new)) + additions(new, to_map(parent))
}

pub open spec fn op_bytes(op: DeltaOp) -> Seq<u8> {
    match op {
        DeltaOp::Remove { path } => seq![0u8] + framed(encode_utf8(path@)),
        DeltaOp::Add { path, content } => seq![1u8] + framed(encode_utf8(path@)) + framed(
            encode_utf8(content@),
        ),
    }
}

/// The canonical serialization of an edit script.
pub open spec fn ops_bytes(ops: Seq<DeltaOp>) -> Seq<u8>
    decreases ops.len(),
{
    if ops.len() == 0 {
        Seq::empty()
    } else {
        ops_bytes(ops.drop_last()) + op_bytes(ops.last())
    }
}

fn agrees_at(m: &Tree, t: &Tree, i: usize) -> (r: bool)
    requires
        m.wf(),
        i < t.entries().len(),
    ensures
        r == agrees(m@, t.entries()[i as int]),
{
    match m.get(t.path_at(i).as_str()) {
        Some(c) => c == *t.content_at(i),
        None => false,
    }
}

/// The minimal structural edit script from `parent` to `new`: a removal
/// for every parent entry that `new` does not hold as it is, then an
/// addition for every entry of `new` that `parent` does not hold as it is.
/// A changed content is a removal plus an addition.
pub fn compute_delta(parent: &Tree, new: &Tree) -> (d: Delta)
    requires
        parent.wf(),
        new.wf(),
    ensures
        d.ops@ == delta_between(parent.entries(), new.entries()),
{
    proof {
        lemma_tree_view(parent);
        lemma_tree_view(new);
    }
    let mut ops: Vec<DeltaOp> = Vec::new();
    let mut i: usize = 0;
    while i < parent.len()
        invariant
            new.wf(),
            i <= parent.entries().len(),
            ops@ == removals(parent.entries().subrange(0, i as int), new@),
        decreases parent.entries().len() - i,
    {
        let keep = agrees_at(new, parent, i);
        if !keep {
            ops.push(DeltaOp::Remove { path: parent.path_at(i).clone() });
        }
        proof {
            let t = parent.entries().subrange(0, i + 1);
            assert(t.drop_last() =~= parent.entries().subrange(0, i as int));
        }
        i = i + 1;
    }
    assert(parent.entries().subrange(0, i as int) =~= parent.entries());
    let ghost rem = ops@;
    let mut j: usize = 0;
    while j < new.len()
        invariant
            parent.wf(),
            j <= new.entries().len(),
            ops@ == rem + additions(new.entries().subrange(0, j as int), parent@),
        decreases new.entries().len() - j,
    {
        let keep = agrees_at(parent, new, j);
        if !keep {
            ops.push(DeltaOp::Add { path: new.path_at(j).clone(), content: new.content_at(j).clone() });
        }
        proof {
            let t = new.entries().subrange(0, j + 1);
            assert(t.drop_last() =~= new.entries().subrange(0, j as int));
        }
        j = j + 1;
    }
    assert(new.entries().subrange(0, j as int) =~= new.entries());
    Delta { ops }
}

/// Applies an edit script to a tree.
pub fn apply_delta(tree: &Tree, delta: &Delta) -> (r: Tree)
    requires
        tree.wf(),
    ensures
        r.wf(),
        r@ == apply_ops(tree@, delta.ops@),
{
    let mut t = tree.duplicate();
    let mut i: usize = 0;
    while i < delta.ops.len()
        invariant
            t.wf(),
            i <= delta.ops@.len(),
            t@ == apply_ops(tree@, delta.ops@.subrange(0, i as int)),
        decreases delta.ops@.len() - i,
    {
        match &delta.ops[i] {
            DeltaOp::Remove { path } => t.remove(path.as_str()),
            DeltaOp::Add { path, content } => t.insert(path.clone(), content.clone()),
        }
        proof {
            let s = delta.ops@.subrange(0, i + 1);
            assert(s.drop_last() =~= delta.ops@.subrange(0, i as int));
        }
        i = i + 1;
    }
    assert(delta.ops@.subrange(0, i as int) =~= delta.ops@);
    t
}

impl Delta {
    /// The canonical serialization: each step as a tag byte (0 remove,
    /// 1 add) followed by its length-framed path and content.
    pub fn canonical_bytes(&self) -> (r: Vec<u8>)
        ensures
            r@ == ops_bytes(self.ops@),
    {
        let mut out: Vec<u8> = Vec::new();
        let mut i: usize = 0;
        while i < self.ops.len()
            invariant
                i <= self.ops@.len(),
                out@ == ops_bytes(self.ops@.subrange(0, i as int)),
            decreases self.ops@.len() - i,
        {
            match &self.ops[i] {
                DeltaOp::Remove { path } => {
                    out.push(0u8);
                    push_framed(&mut out, path.as_str().as_bytes());
                },
                DeltaOp::Add { path, content } => {
                    out.push(1u8);
                    push_framed(&mut out, path.as_str().as_bytes());
                    push_framed(&mut out, content.as_str().as_bytes());
                },
            }
            proof {
                let s = self.ops@.subrange(0, i + 1);
                assert(s.drop_last() =~= self.ops@.subrange(0, i as int));
                let ghost prev = ops_bytes(self.ops@.subrange(0, i as int));
                assert(out@ =~= prev + op_bytes(self.ops@[i as int]));
            }
            i = i + 1;
        }
        assert(self.ops@.subrange(0, i as int) =~= self.ops@);
        out
    }

    /// The delta's hash: the digest of its canonical bytes.
    pub fn delta_hash(&self) -> (r: String)
        ensures
            r@ == hash_spec(ops_bytes(self.ops@)),
    {
        let b = self.canonical_bytes();
        hash(b.as_slice())
    }

    /// The number of steps.
    pub fn len(&self) -> (r: usize)
        ensures
            r == self.ops@.len(),
    {
        self.ops.len()
    }
}

/// Some entry at `q` is missing from the target or differs there.
pub open spec fn removed_at(s: Seq<TreeEntry>, target: Map<Seq<char>, Seq<char>>, q: Seq<char>) -> bool {
    exists|i: int| 0 <= i < s.len() && (#[trigger] s[i]).path@ == q && !agrees(target, s[i])
}

pub proof fn lemma_apply_concat(m: Map<Seq<char>, Seq<char>>, a: Seq<DeltaOp>, b: Seq<DeltaOp>)
    ensures
        apply_ops(m, a + b) == apply_ops(apply_ops(m, a), b),
    decreases b.len(),
{
    if b.len() == 0 {
        assert(a + b =~= a);
    } else {
        lemma_apply_concat(m, a, b.drop_last());
        assert((a + b).drop_last() =~= a + b.drop_last());
        assert((a + b).last() == b.last());
    }
}

/// Applying the removals drops exactly the paths whose entries the target
/// does not hold as they are.
pub proof fn lemma_apply_removals(m: Map<Seq<char>, Seq<char>>, s: Seq<TreeEntry>, target: Map<Seq<char>, Seq<char>>)
    ensures
        forall|q: Seq<char>| #[trigger] apply_ops(m, removals(s, target)).contains_key(q) == (m.contains_key(q) && !removed_at(s, target, q)),
        forall|q: Seq<char>| #[trigger] apply_ops(m, removals(s, target)).contains_key(q) ==> apply_ops(m, removals(s, target))[q] == m[q],
    decreases s.len(),
{
    if s.len() > 0 {
        let s0 = s.drop_last();
        lemma_apply_removals(m, s0, target);
        let r0 = removals(s0, target);
        let l = s.last();
        assert forall|q: Seq<char>| removed_at(s, target, q) == (removed_at(s0, target, q) || (l.path@ == q && !agrees(target, l))) by {
            if removed_at(s, target, q) {
                let i = choose|i: int| 0 <= i < s.len() && (#[trigger] s[i]).path@ == q && !agrees(target, s[i]);
                if i < s0.len() {
                    assert(s0[i] == s[i]);
                }
            }
            if removed_at(s0, target, q) {
                let i = choose|i: int| 0 <= i < s0.len() && (#[trigger] s0[i]).path@ == q && !agrees(target, s0[i]);
                assert(s[i] == s0[i]);
            }
            if l.path@ == q && !agrees(target, l) {
                assert(s[s.len() - 1] == l);
            }
        }
        let a0 = apply_ops(m, r0);
        let a = apply_ops(m, removals(s, target));
        if !agrees(target, l) {
            let op = DeltaOp::Remove { path: l.path };
            assert(r0.push(op).drop_last() =~= r0);
            assert(removals(s, target) == r0.push(op));
            assert(a == a0.remove(l.path@));
        } else {
            assert(removals(s, target) == r0);
        }
        assert forall|q: Seq<char>| #[trigger] a.contains_key(q) == (m.contains_key(q) && !removed_at(s, target, q)) && (a.contains_key(q) ==> a[q] == m[q]) by {
            assert(a0.contains_key(q) == (m.contains_key(q) && !removed_at(s0, target, q)));
            if a0.contains_key(q) {
                assert(a0[q] == m[q]);
            }
        }
    }
}

/// Applying the additions sets every entry that the base does not hold as
/// it is, and leaves every other path alone.
pub proof fn lemma_apply_additions(m: Map<Seq<char>, Seq<char>>, s: Seq<TreeEntry>, base: Map<Seq<char>, Seq<char>>)
    requires
        sorted(s),
    ensures
        forall|i: int| 0 <= i < s.len() && !agrees(base, #[trigger] s[i]) ==> apply_ops(m, additions(s, base)).contains_key(s[i].path@)
            && apply_ops(m, additions(s, base))[s[i].path@] == s[i].content@,
        forall|q: Seq<char>| !removed_at(s, base, q) ==> (#[trigger] apply_ops(m, additions(s, base)).contains_key(q) == m.contains_key(q)
            && (m.contains_key(q) ==> apply_ops(m, additions(s, base))[q] == m[q])),
    decreases s.len(),
{
    if s.len() > 0 {
        let s0 = s.drop_last();
        assert(sorted(s0)) by {
            assert forall|a: int, b: int| 0 <= a < b < s0.len() implies bytes_lt(#[trigger] key_of(s0[a]), #[trigger] key_of(s0[b])) by {
                assert(bytes_lt(key_of(s[a]), key_of(s[b])));
            }
        }
        lemma_apply_additions(m, s0, base);
        let r0 = additions(s0, base);
        let l = s.last();
        let n = s.len() - 1;
        if !agrees(base, l) {
            let op = DeltaOp::Add { path: l.path, content: l.content };
            assert(r0.push(op).drop_last() =~= r0);
        }
        assert forall|i: int| 0 <= i < s.len() && !agrees(base, #[trigger] s[i]) implies apply_ops(m, additions(s, base)).contains_key(s[i].path@)
            && apply_ops(m, additions(s, base))[s[i].path@] == s[i].content@ by {
            if i < n {
                assert(s0[i] == s[i]);
                assert(bytes_lt(key_of(s[i]), key_of(s[n])));
                lemma_lt_irrefl(key_of(s[i]));
            }
        }
        assert forall|q: Seq<char>| !removed_at(s, base, q) implies (#[trigger] apply_ops(m, additions(s, base)).contains_key(q) == m.contains_key(q)
            && (m.contains_key(q) ==> apply_ops(m, additions(s, base))[q] == m[q])) by {
            if removed_at(s0, base, q) {
                let i = choose|i: int| 0 <= i < s0.len() && (#[trigger] s0[i]).path@ == q && !agrees(base, s0[i]);
                assert(s[i] == s0[i]);
            }
            if !agrees(base, l) {
                assert(s[n] == l);
            }
        }
    }
}

/// Round trip: applying the delta from `t1` to `t2` onto `t1` gives `t2`.
pub proof fn lemma_delta_round_trip(t1: &Tree, t2: &Tree)
    requires
        t1.wf(),
        t2.wf(),
    ensures
        apply_ops(t1@, delta_between(t1.entries(), t2.entries())) == t2@,
{
    lemma_tree_view(t1);
    lemma_tree_view(t2);
    let e1 = t1.entries();
    let e2 = t2.entries();
    let rem = removals(e1, t2@);
    let add = additions(e2, t1@);
    lemma_apply_concat(t1@, rem, add);
    let r = apply_ops(t1@, rem);
    let f = apply_ops(r, add);
    lemma_apply_removals(t1@, e1, t2@);
    lemma_apply_additions(r, e2, t1@);
    assert forall|q: Seq<char>| #[trigger] f.contains_key(q) == t2@.contains_key(q) && (t2@.contains_key(q) ==> f[q] == t2@[q]) by {
        if removed_at(e2, t1@, q) {
            let i = choose|i: int| 0 <= i < e2.len() && (#[trigger] e2[i]).path@ == q && !agrees(t1@, e2[i]);
            lemma_to_map_index(e2, i);
        } else if t2@.contains_key(q) {
            let i = index_of(e2, q);
            lemma_to_map_index(e2, i);
            assert(agrees(t1@, e2[i]));
            if removed_at(e1, t2@, q) {
                let j = choose|j: int| 0 <= j < e1.len() && (#[trigger] e1[j]).path@ == q && !agrees(t2@, e1[j]);
                lemma_to_map_index(e1, j);
            }
        } else if t1@.contains_key(q) {
            let j = index_of(e1, q);
            assert(e1[j].path@ == q);
            assert(removed_at(e1, t2@, q));
        }
    }
    assert(f =~= t2@);
}

} // verus!
