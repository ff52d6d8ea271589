//! Revision records and their content-derived identity.
use vstd::prelude::*;
use vstd::utf8::encode_utf8;
use crate::bytes::{be64, framed, lemma_be64_injective, lemma_framed_prefix, push_be64, push_framed};
use vstd::utf8::decode_utf8;
use crate::hasher::{hash, hash_spec};

verus! {

broadcast use vstd::utf8::encode_utf8_decode_utf8;

/// The content-derived identity of one immutable revision.
#[derive(Debug, Clone, PartialEq, Eq)]
pub struct RevisionId(pub String);

/// The stable identity of a logical change, kept across amendments.
#[derive(Debug, Clone, PartialEq, Eq)]
pub struct ChangeId(pub String);

/// An immutable revision record.
#[derive(Debug, Clone, PartialEq, Eq)]
pub struct Revision {
    pub revision_id: RevisionId,
    pub change_id: ChangeId,
    pub tree_hash: String,
    pub delta_hash: String,
    pub author: String,
    pub description: String,
    pub timestamp: String,
    pub parents: Vec<RevisionId>,
}

/// A revision record as plain sequences.
pub struct RevisionView {
    pub revision_id: Seq<char>,
    pub change_id: Seq<char>,
    pub tree_hash: Seq<char>,
    pub delta_hash: Seq<char>,
    pub author: Seq<char>,
    pub description: Seq<char>,
    pub timestamp: Seq<char>,
    pub parents: Seq<Seq<char>>,
}

impl View for RevisionId {
    type V = Seq<char>;

    open spec fn view(&self) -> Seq<char> {
        self.0@
    }
}

impl View for ChangeId {
    type V = Seq<char>;

    open spec fn view(&self) -> Seq<char> {
        self.0@
    }
}

/// The ids of a parent list.
pub open spec fn ids_view(ps: Seq<RevisionId>) -> Seq<Seq<char>> {
    ps.map_values(|p: RevisionId| p@)
}

impl View for Revision {
    type V = RevisionView;

    open spec fn view(&self) -> RevisionView {
        RevisionView {
            revision_id: self.revision_id@,
            change_id: self.change_id@,
            tree_hash: self.tree_hash@,
            delta_hash: self.delta_hash@,
            author: self.author@,
            description: self.description@,
            timestamp: self.timestamp@,
            parents: ids_view(self.parents@),
        }
    }
}

pub open spec fn ids_bytes(ps: Seq<Seq<char>>) -> Seq<u8>
    decreases ps.len(),
{
    if ps.len() == 0 {
        Seq::empty()
    } else {
        ids_bytes(ps.drop_last()) + framed(encode_utf8(ps.last()))
    }
}

/// The canonical serialization of the fields that identify a revision:
/// each text field framed by its length, then the number of parents and
/// each parent id framed, in order.
pub open spec fn revision_bytes(
    tree_hash: Seq<char>,
    delta_hash: Seq<char>,
    author: Seq<char>,
    description: Seq<char>,
    timestamp: Seq<char>,
    parents: Seq<Seq<char>>,
) -> Seq<u8> {
    framed(encode_utf8(tree_hash)) + (framed(encode_utf8(delta_hash)) + (framed(encode_utf8(author)) + (
    framed(encode_utf8(description)) + (framed(encode_utf8(timestamp)) + (be64(parents.len() as u64)
        + ids_bytes(parents))))))
}

/// The id of a revision with these fields: the digest of their canonical
/// serialization.
pub fn revision_id_of(
    tree_hash: &String,
    delta_hash: &String,
    author: &String,
    description: &String,
    timestamp: &String,
    parents: &Vec<RevisionId>,
) -> (r: RevisionId)
    ensures
        r@ == hash_spec(
            revision_bytes(tree_hash@, delta_hash@, author@, description@, timestamp@, ids_view(parents@)),
        ),
{
    let mut out: Vec<u8> = Vec::new();
    push_framed(&mut out, tree_hash.as_str().as_bytes());
    push_framed(&mut out, delta_hash.as_str().as_bytes());
    push_framed(&mut out, author.as_str().as_bytes());
    push_framed(&mut out, description.as_str().as_bytes());
    push_framed(&mut out, timestamp.as_str().as_bytes());
    push_be64(&mut out, parents.len() as u64);
    let ghost head = out@;
    let mut i: usize = 0;
    while i < parents.len()
        invariant
            i <= parents@.len(),
            out@ == head + ids_bytes(ids_view(parents@).subrange(0, i as int)),
        decreases parents@.len() - i,
    {
        push_framed(&mut out, parents[i].0.as_str().as_bytes());
        proof {
            let t = ids_view(parents@).subrange(0, i + 1);
            assert(t.drop_last() =~= ids_view(parents@).subrange(0, i as int));
        }
        i = i + 1;
    }
    assert(ids_view(parents@).subrange(0, i as int) =~= ids_view(parents@));
    assert(out@ =~= revision_bytes(tree_hash@, delta_hash@, author@, description@, timestamp@, ids_view(parents@)));
    RevisionId(hash(out.as_slice()))
}

impl RevisionId {
    /// A copy of the id.
    pub fn duplicate(&self) -> (r: RevisionId)
        ensures
            r == *self,
    {
        RevisionId(self.0.clone())
    }
}

/// A copy of a parent list.
pub fn copy_ids(ps: &Vec<RevisionId>) -> (r: Vec<RevisionId>)
    ensures
        r@ == ps@,
{
    let mut r: Vec<RevisionId> = Vec::new();
    let mut i: usize = 0;
    while i < ps.len()
        invariant
            i <= ps@.len(),
            r@ == ps@.subrange(0, i as int),
        decreases ps@.len() - i,
    {
        r.push(ps[i].duplicate());
        proof {
            assert(r@ =~= ps@.subrange(0, i + 1));
        }
        i = i + 1;
    }
    assert(r@ =~= ps@);
    r
}

impl Revision {
    /// A copy of the record.
    pub fn duplicate(&self) -> (r: Revision)
        ensures
            r@ == self@,
            r.parents@ == self.parents@,
    {
        let parents = copy_ids(&self.parents);
        Revision {
            revision_id: self.revision_id.duplicate(),
            change_id: ChangeId(self.change_id.0.clone()),
            tree_hash: self.tree_hash.clone(),
            delta_hash: self.delta_hash.clone(),
            author: self.author.clone(),
            description: self.description.clone(),
            timestamp: self.timestamp.clone(),
            parents,
        }
    }
}

/// The human-readable description of a revision, one labelled line per field.
pub open spec fn describe_spec(r: RevisionView) -> Seq<char> {
    "Revision ID : "@ + r.revision_id + "\n"@ + "Change ID : "@ + r.change_id + "\n"@ + "Tree Hash : "@
        + r.tree_hash + "\n"@ + "Delta Hash : "@ + r.delta_hash + "\n"@ + "Author : "@ + r.author
        + "\n"@ + "Description : "@ + r.description + "\n"@ + "TimeStamp : "@ + r.timestamp + "\n"@
}

/// Renders a revision as labelled lines: revision id, change id, tree hash,
/// delta hash, author, description and timestamp.
pub fn describe(revision: &Revision) -> (r: String)
    ensures
        r@ == describe_spec(revision@),
{
    let mut s = String::new();
    s.append("Revision ID : ");
    s.append(revision.revision_id.0.as_str());
    s.append("\n");
    s.append("Change ID : ");
    s.append(revision.change_id.0.as_str());
    s.append("\n");
    s.append("Tree Hash : ");
    s.append(revision.tree_hash.as_str());
    s.append("\n");
    s.append("Delta Hash : ");
    s.append(revision.delta_hash.as_str());
    s.append("\n");
    s.append("Author : ");
    s.append(revision.author.as_str());
    s.append("\n");
    s.append("Description : ");
    s.append(revision.description.as_str());
    s.append("\n");
    s.append("TimeStamp : ");
    s.append(revision.timestamp.as_str());
    s.append("\n");
    s
}

/// The text's UTF-8 bytes can be framed by a 64-bit length.
pub open spec fn fits(t: Seq<char>) -> bool {
    encode_utf8(t).len() <= u64::MAX
}

proof fn lemma_text_frame(a: Seq<char>, b: Seq<char>, r1: Seq<u8>, r2: Seq<u8>)
    requires
        fits(a),
        fits(b),
        framed(encode_utf8(a)) + r1 == framed(encode_utf8(b)) + r2,
    ensures
        a == b,
        r1 == r2,
{
    lemma_framed_prefix(encode_utf8(a), encode_utf8(b), r1, r2);
    assert(decode_utf8(encode_utf8(a)) == a);
    assert(decode_utf8(encode_utf8(b)) == b);
}

proof fn lemma_ids_front(ps: Seq<Seq<char>>)
    requires
        ps.len() > 0,
    ensures
        ids_bytes(ps) == framed(encode_utf8(ps[0])) + ids_bytes(ps.drop_first()),
    decreases ps.len(),
{
    if ps.len() == 1 {
        assert(ps.drop_last() =~= Seq::<Seq<char>>::empty());
        assert(ps.drop_first() =~= Seq::<Seq<char>>::empty());
        assert(ids_bytes(ps) =~= framed(encode_utf8(ps[0])) + ids_bytes(ps.drop_first()));
    } else {
        lemma_ids_front(ps.drop_last());
        assert(ps.drop_last().drop_first() =~= ps.drop_first().drop_last());
        assert(ps.drop_first().last() == ps.last());
        assert(ids_bytes(ps) =~= framed(encode_utf8(ps[0])) + ids_bytes(ps.drop_first()));
    }
}

proof fn lemma_ids_injective(p1: Seq<Seq<char>>, p2: Seq<Seq<char>>)
    requires
        p1.len() == p2.len(),
        forall|i: int| 0 <= i < p1.len() ==> fits(#[trigger] p1[i]),
        forall|i: int| 0 <= i < p2.len() ==> fits(#[trigger] p2[i]),
        ids_bytes(p1) == ids_bytes(p2),
    ensures
        p1 == p2,
    decreases p1.len(),
{
    if p1.len() == 0 {
        assert(p1 =~= p2);
    } else {
        lemma_ids_front(p1);
        lemma_ids_front(p2);
        assert(fits(p1[0]) && fits(p2[0]));
        lemma_text_frame(p1[0], p2[0], ids_bytes(p1.drop_first()), ids_bytes(p2.drop_first()));
        assert forall|i: int| 0 <= i < p1.drop_first().len() implies fits(#[trigger] p1.drop_first()[i]) by {
            assert(fits(p1[i + 1]));
        }
        assert forall|i: int| 0 <= i < p2.drop_first().len() implies fits(#[trigger] p2.drop_first()[i]) by {
            assert(fits(p2[i + 1]));
        }
        lemma_ids_injective(p1.drop_first(), p2.drop_first());
        assert(p1 =~= seq![p1[0]] + p1.drop_first());
        assert(p2 =~= seq![p2[0]] + p2.drop_first());
    }
}

/// The canonical revision serialization is injective: equal bytes mean
/// equal identifying fields, so revisions that differ in any of them
/// differ in what is hashed.
pub proof fn lemma_revision_bytes_injective(
    th1: Seq<char>, dh1: Seq<char>, a1: Seq<char>, d1: Seq<char>, t1: Seq<char>, p1: Seq<Seq<char>>,
    th2: Seq<char>, dh2: Seq<char>, a2: Seq<char>, d2: Seq<char>, t2: Seq<char>, p2: Seq<Seq<char>>,
)
    requires
        fits(th1) && fits(dh1) && fits(a1) && fits(d1) && fits(t1),
        fits(th2) && fits(dh2) && fits(a2) && fits(d2) && fits(t2),
        p1.len() <= u64::MAX,
        p2.len() <= u64::MAX,
        forall|i: int| 0 <= i < p1.len() ==> fits(#[trigger] p1[i]),
        forall|i: int| 0 <= i < p2.len() ==> fits(#[trigger] p2[i]),
        revision_bytes(th1, dh1, a1, d1, t1, p1) == revision_bytes(th2, dh2, a2, d2, t2, p2),
    ensures
        th1 == th2 && dh1 == dh2 && a1 == a2 && d1 == d2 && t1 == t2 && p1 == p2,
{
    let tail1 = be64(p1.len() as u64) + ids_bytes(p1);
    let tail2 = be64(p2.len() as u64) + ids_bytes(p2);
    let r1_5 = framed(encode_utf8(t1)) + tail1;
    let r2_5 = framed(encode_utf8(t2)) + tail2;
    let r1_4 = framed(encode_utf8(d1)) + r1_5;
    let r2_4 = framed(encode_utf8(d2)) + r2_5;
    let r1_3 = framed(encode_utf8(a1)) + r1_4;
    let r2_3 = framed(encode_utf8(a2)) + r2_4;
    let r1_2 = framed(encode_utf8(dh1)) + r1_3;
    let r2_2 = framed(encode_utf8(dh2)) + r2_3;
    lemma_text_frame(th1, th2, r1_2, r2_2);
    lemma_text_frame(dh1, dh2, r1_3, r2_3);
    lemma_text_frame(a1, a2, r1_4, r2_4);
    lemma_text_frame(d1, d2, r1_5, r2_5);
    lemma_text_frame(t1, t2, tail1, tail2);
    assert(tail1.subrange(0, 8) =~= be64(p1.len() as u64));
    assert(tail2.subrange(0, 8) =~= be64(p2.len() as u64));
    lemma_be64_injective(p1.len() as u64, p2.len() as u64);
    assert(ids_bytes(p1) =~= tail1.subrange(8, tail1.len() as int));
    assert(ids_bytes(p2) =~= tail2.subrange(8, tail2.len() as int));
    lemma_ids_injective(p1, p2);
}

} // verus!
