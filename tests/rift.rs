use rift_core::bytes::compare_bytes;
use rift_core::delta::{apply_delta, compute_delta, Delta, DeltaOp};
use rift_core::error::RiftError;
use rift_core::graph::RevisionGraph;
use rift_core::hasher::{hash, to_hex};
use rift_core::store::ObjectStore;
use rift_core::tree::Tree;
use rift_core::{describe, ChangeId, Revision, RevisionId};

fn tree_of(pairs: &[(&str, &str)]) -> Tree {
    let mut t = Tree::new();
    for (p, c) in pairs {
        t.insert(p.to_string(), c.to_string());
    }
    t
}

fn pairs_of(t: &Tree) -> Vec<(String, String)> {
    (0..t.len()).map(|i| (t.path_at(i).clone(), t.content_at(i).clone())).collect()
}

#[test]
fn hash_matches_known_sha256_digests() {
    assert_eq!(hash(b"abc"), "ba7816bf8f01cfea414140de5dae2223b00361a396177a9cb410ff61f20015ad");
    assert_eq!(hash(b""), "e3b0c44298fc1c149afbf4c8996fb92427ae41e4649b934ca495991b7852b855");
}

#[test]
fn hash_is_deterministic_and_separates_contents() {
    let a = hash(b"hello world");
    let b = hash(b"hello world");
    assert_eq!(a, b);
    assert_eq!(a.len(), 64);
    assert_ne!(hash(b"hello world"), hash(b"hello worle"));
    assert!(a.chars().all(|c| c.is_ascii_hexdigit() && !c.is_ascii_uppercase()));
}

#[test]
fn hex_renders_two_lowercase_digits_per_byte() {
    assert_eq!(to_hex(&[0x00, 0xff, 0x1a, 0x09]), "00ff1a09");
    assert_eq!(to_hex(&[]), "");
}

#[test]
fn byte_order_is_lexicographic() {
    assert!(compare_bytes(b"a", b"b") < 0);
    assert!(compare_bytes(b"ab", b"a") > 0);
    assert!(compare_bytes(b"", b"a") < 0);
    assert_eq!(compare_bytes(b"xyz", b"xyz"), 0);
}

#[test]
fn put_then_get_returns_the_bytes() {
    let mut s = ObjectStore::new();
    let data = vec![1u8, 2, 3, 250];
    let h = s.put(&data).unwrap();
    assert_eq!(h, hash(&data));
    assert_eq!(s.get(&h), Ok(data.clone()));
    assert!(s.contains(&h));
    let empty: Vec<u8> = Vec::new();
    let he = s.put(&empty).unwrap();
    assert_eq!(s.get(&he), Ok(empty));
}

#[test]
fn put_twice_keeps_one_blob_with_two_references() {
    let mut s = ObjectStore::new();
    let h1 = s.put(b"same bytes").unwrap();
    let h2 = s.put(b"same bytes").unwrap();
    assert_eq!(h1, h2);
    assert_eq!(s.len(), 1);
    assert_eq!(s.references(&h1), 2);
}

#[test]
fn unknown_hash_is_not_found() {
    let s = ObjectStore::new();
    let h = hash(b"absent");
    assert_eq!(s.get(&h), Err(RiftError::NotFound));
    assert!(!s.contains(&h));
    assert_eq!(s.references(&h), 0);
}

#[test]
fn tree_serializes_independently_of_insertion_order() {
    let t1 = tree_of(&[("b", "2"), ("a", "1"), ("c", "3")]);
    let t2 = tree_of(&[("c", "3"), ("a", "1"), ("b", "2")]);
    assert_eq!(t1.canonical_bytes(), t2.canonical_bytes());
    assert_eq!(t1.tree_hash(), t2.tree_hash());
    assert_eq!(pairs_of(&t1), vec![
        ("a".to_string(), "1".to_string()),
        ("b".to_string(), "2".to_string()),
        ("c".to_string(), "3".to_string()),
    ]);
}

#[test]
fn tree_canonical_bytes_frame_each_field() {
    let t = tree_of(&[("a", "1")]);
    assert_eq!(t.canonical_bytes(), vec![0, 0, 0, 0, 0, 0, 0, 1, b'a', 0, 0, 0, 0, 0, 0, 0, 1, b'1']);
    assert_eq!(Tree::new().canonical_bytes(), Vec::<u8>::new());
}

#[test]
fn tree_insert_replaces_and_remove_drops() {
    let mut t = tree_of(&[("a", "1"), ("b", "2")]);
    t.insert("a".to_string(), "9".to_string());
    assert_eq!(t.get("a"), Some("9".to_string()));
    assert_eq!(t.len(), 2);
    t.remove("b");
    assert_eq!(t.get("b"), None);
    assert_eq!(t.len(), 1);
    t.remove("zzz");
    assert_eq!(t.len(), 1);
}

#[test]
fn delta_round_trip() {
    let t1 = tree_of(&[("a", "1"), ("b", "2"), ("d", "4")]);
    let t2 = tree_of(&[("a", "1"), ("b", "20"), ("c", "3")]);
    let d = compute_delta(&t1, &t2);
    let r = apply_delta(&t1, &d);
    assert_eq!(pairs_of(&r), pairs_of(&t2));
    let back = apply_delta(&t2, &compute_delta(&t2, &t1));
    assert_eq!(pairs_of(&back), pairs_of(&t1));
}

#[test]
fn changed_content_is_remove_then_add() {
    let t1 = tree_of(&[("a", "1"), ("b", "2")]);
    let t2 = tree_of(&[("a", "1"), ("b", "3")]);
    let d = compute_delta(&t1, &t2);
    assert_eq!(d.ops, vec![
        DeltaOp::Remove { path: "b".to_string() },
        DeltaOp::Add { path: "b".to_string(), content: "3".to_string() },
    ]);
}

#[test]
fn root_delta_is_the_whole_tree() {
    let t = tree_of(&[("x", "1"), ("y", "2")]);
    let d = compute_delta(&Tree::new(), &t);
    assert_eq!(d.ops, vec![
        DeltaOp::Add { path: "x".to_string(), content: "1".to_string() },
        DeltaOp::Add { path: "y".to_string(), content: "2".to_string() },
    ]);
    assert_eq!(compute_delta(&t, &t).len(), 0);
}

#[test]
fn delta_bytes_tag_each_step() {
    let d = Delta { ops: vec![DeltaOp::Remove { path: "p".to_string() }] };
    assert_eq!(d.canonical_bytes(), vec![0, 0, 0, 0, 0, 0, 0, 0, 1, b'p']);
    assert_eq!(d.delta_hash(), hash(&d.canonical_bytes()));
}

#[test]
fn create_and_amend_scenario() {
    let mut g = RevisionGraph::new();
    let t1 = tree_of(&[("a", "1")]);
    let r1 = g
        .create_revision(None, &t1, "alice".to_string(), "init".to_string(), "1".to_string(), Vec::new())
        .unwrap();
    assert!(r1.parents.is_empty());
    assert_eq!(r1.tree_hash, t1.tree_hash());
    assert_eq!(r1.delta_hash, compute_delta(&Tree::new(), &t1).delta_hash());
    assert_eq!(r1.change_id, ChangeId("0000000000000000".to_string()));
    assert_eq!(g.current(&r1.change_id), Ok(r1.revision_id.clone()));

    let t2 = tree_of(&[("a", "1"), ("b", "2")]);
    let r2 = g
        .create_revision(
            Some(r1.change_id.clone()),
            &t2,
            "alice".to_string(),
            "init".to_string(),
            "2".to_string(),
            vec![r1.revision_id.clone()],
        )
        .unwrap();
    assert_eq!(r2.change_id, r1.change_id);
    assert_ne!(r2.revision_id, r1.revision_id);
    let only_b = Delta { ops: vec![DeltaOp::Add { path: "b".to_string(), content: "2".to_string() }] };
    assert_eq!(r2.delta_hash, only_b.delta_hash());
    assert_eq!(g.current(&r1.change_id), Ok(r2.revision_id.clone()));
    assert_eq!(g.get_revision(&r1.revision_id).unwrap(), r1);
}

#[test]
fn unknown_parent_is_a_cycle() {
    let mut g = RevisionGraph::new();
    let t = tree_of(&[("a", "1")]);
    let forged = RevisionId(hash(b"not yet recorded"));
    let r = g.create_revision(None, &t, "bob".to_string(), "x".to_string(), "0".to_string(), vec![forged]);
    assert_eq!(r, Err(RiftError::CycleDetected));
    assert_eq!(g.current(&ChangeId("0000000000000000".to_string())), Err(RiftError::UnknownChange));
}

#[test]
fn unknown_and_abandoned_changes_are_refused() {
    let mut g = RevisionGraph::new();
    let t = tree_of(&[("a", "1")]);
    let stranger = ChangeId("ffffffffffffffff".to_string());
    let r = g.create_revision(Some(stranger.clone()), &t, "a".to_string(), "d".to_string(), "0".to_string(), Vec::new());
    assert_eq!(r, Err(RiftError::UnknownChange));
    assert_eq!(g.abandon(&stranger), Err(RiftError::UnknownChange));
    let r1 = g.create_revision(None, &t, "a".to_string(), "d".to_string(), "0".to_string(), Vec::new()).unwrap();
    assert_eq!(g.abandon(&r1.change_id), Ok(()));
    assert_eq!(g.current(&r1.change_id), Err(RiftError::Abandoned));
    assert_eq!(g.abandon(&r1.change_id), Err(RiftError::Abandoned));
    let again = g.create_revision(Some(r1.change_id.clone()), &t, "a".to_string(), "e".to_string(), "1".to_string(), Vec::new());
    assert_eq!(again, Err(RiftError::Abandoned));
}

#[test]
fn stale_expected_revision_is_a_concurrent_modification() {
    let mut g = RevisionGraph::new();
    let t = tree_of(&[("a", "1")]);
    let r1 = g.create_revision(None, &t, "a".to_string(), "d".to_string(), "0".to_string(), Vec::new()).unwrap();
    let t2 = tree_of(&[("a", "2")]);
    let r2 = g
        .amend(r1.change_id.clone(), &r1.revision_id, &t2, "a".to_string(), "d".to_string(), "1".to_string(), vec![r1.revision_id.clone()])
        .unwrap();
    let t3 = tree_of(&[("a", "3")]);
    let lost = g.amend(r1.change_id.clone(), &r1.revision_id, &t3, "a".to_string(), "d".to_string(), "2".to_string(), vec![r1.revision_id.clone()]);
    assert_eq!(lost, Err(RiftError::ConcurrentModification));
    assert_eq!(g.current(&r1.change_id), Ok(r2.revision_id.clone()));
}

#[test]
fn identical_content_gets_identical_revision_id() {
    let mut g = RevisionGraph::new();
    let t = tree_of(&[("a", "1")]);
    let r1 = g.create_revision(None, &t, "a".to_string(), "d".to_string(), "0".to_string(), Vec::new()).unwrap();
    let r2 = g.create_revision(None, &t, "a".to_string(), "d".to_string(), "0".to_string(), Vec::new()).unwrap();
    assert_eq!(r1.revision_id, r2.revision_id);
    assert_ne!(r1.change_id, r2.change_id);
    assert_eq!(g.current(&r2.change_id), Ok(r1.revision_id.clone()));
    assert_eq!(g.store().references(&r1.tree_hash), 2);
}

#[test]
fn ancestry_and_history() {
    let mut g = RevisionGraph::new();
    let a = g.create_revision(None, &tree_of(&[("f", "1")]), "u".to_string(), "a".to_string(), "0".to_string(), Vec::new()).unwrap();
    let b = g.create_revision(None, &tree_of(&[("f", "2")]), "u".to_string(), "b".to_string(), "1".to_string(), vec![a.revision_id.clone()]).unwrap();
    let c = g.create_revision(None, &tree_of(&[("g", "1")]), "u".to_string(), "c".to_string(), "2".to_string(), Vec::new()).unwrap();
    let d = g
        .create_revision(None, &tree_of(&[("f", "3")]), "u".to_string(), "d".to_string(), "3".to_string(), vec![b.revision_id.clone(), c.revision_id.clone()])
        .unwrap();
    assert!(g.ancestors_contains(&a.revision_id, &d.revision_id));
    assert!(g.ancestors_contains(&c.revision_id, &d.revision_id));
    assert!(!g.ancestors_contains(&d.revision_id, &a.revision_id));
    assert!(!g.ancestors_contains(&d.revision_id, &d.revision_id));
    assert!(!g.ancestors_contains(&a.revision_id, &c.revision_id));
    let h: Vec<RevisionId> = g.history(&d.revision_id).unwrap().into_iter().map(|r| r.revision_id).collect();
    assert_eq!(h, vec![d.revision_id.clone(), c.revision_id.clone(), b.revision_id.clone(), a.revision_id.clone()]);
    let again: Vec<RevisionId> = g.history(&d.revision_id).unwrap().into_iter().map(|r| r.revision_id).collect();
    assert_eq!(h, again);
    let hb: Vec<RevisionId> = g.history(&b.revision_id).unwrap().into_iter().map(|r| r.revision_id).collect();
    assert_eq!(hb, vec![b.revision_id.clone(), a.revision_id.clone()]);
    assert_eq!(g.history(&RevisionId(hash(b"nothing"))), Err(RiftError::NotFound));
    assert_eq!(g.get_revision(&RevisionId(hash(b"nothing"))), Err(RiftError::NotFound));
}

#[test]
fn describe_renders_labelled_lines() {
    let r = Revision {
        revision_id: RevisionId("123".to_string()),
        change_id: ChangeId("234".to_string()),
        tree_hash: "abc".to_string(),
        delta_hash: "bcd".to_string(),
        author: "Vednag".to_string(),
        description: "Init commit".to_string(),
        timestamp: "345".to_string(),
        parents: Vec::new(),
    };
    assert_eq!(
        describe(&r),
        "Revision ID : 123\nChange ID : 234\nTree Hash : abc\nDelta Hash : bcd\nAuthor : Vednag\nDescription : Init commit\nTimeStamp : 345\n"
    );
}

#[test]
fn allocator_hands_out_distinct_ids_in_order() {
    let mut a = rift_core::identity::ChangeIdAllocator::new();
    assert_eq!(a.peek(), ChangeId("0000000000000000".to_string()));
    let c0 = a.allocate();
    let c1 = a.allocate();
    assert_eq!(c0, ChangeId("0000000000000000".to_string()));
    assert_eq!(c1, ChangeId("0000000000000001".to_string()));
    assert_ne!(c0, c1);
}

#[test]
fn new_graph_store_starts_empty_and_fills_on_create() {
    let mut g = RevisionGraph::new();
    assert_eq!(g.store().len(), 0);
    let t = tree_of(&[("a", "1")]);
    let r = g.create_revision(None, &t, "alice".to_string(), "init".to_string(), "1".to_string(), Vec::new()).unwrap();
    assert_eq!(g.store().len(), 2);
    assert_eq!(g.store().get(&r.tree_hash), Ok(t.canonical_bytes()));
    assert_eq!(g.store().get(&r.delta_hash), Ok(compute_delta(&Tree::new(), &t).canonical_bytes()));
}
