use notegraph::domain::{AssociationKind, EngineError};
use notegraph::ids::NoteId;
use notegraph::related::{fetch_chain, fetch_related};
use notegraph::store::GraphStore;
use notegraph::walker::walk;
use notegraph::Direction;

fn nid(tag: u8) -> NoteId {
    NoteId::from_bytes([tag; 32])
}

fn seeded_store(author: u128) -> (GraphStore, NoteId) {
    let mut store = GraphStore::new();
    let acct = nid(200);
    store
        .create_note(acct, b"account".to_vec(), author)
        .expect("account note");
    (store, acct)
}

#[test]
fn list_touching_is_exact_and_newest_first() {
    let mut store = GraphStore::new();
    let (a, b, c) = (nid(1), nid(2), nid(3));
    store.create_note(a, b"a".to_vec(), 1).unwrap();
    store.create_note(b, b"b".to_vec(), 1).unwrap();
    store.create_note(c, b"c".to_vec(), 1).unwrap();
    let e1 = store
        .create_association(AssociationKind::Reply, a, b)
        .unwrap();
    let e2 = store
        .create_association(AssociationKind::Quote, b, c)
        .unwrap();
    let e3 = store
        .create_association(AssociationKind::Link, c, a)
        .unwrap();

    let touching_a = store.list_associations(&a);
    assert_eq!(touching_a.len(), 2);
    // newest first: the link edge was created after the reply edge
    assert_eq!(touching_a[0], e3);
    assert_eq!(touching_a[1], e1);
    // the quote edge touches only b and c
    let touching_b = store.list_associations(&b);
    assert_eq!(touching_b.len(), 2);
    assert_eq!(touching_b[0], e2);
    assert_eq!(touching_b[1], e1);
}

#[test]
fn second_version_edge_is_refused_and_writes_nothing() {
    let mut store = GraphStore::new();
    let (a, b, c) = (nid(1), nid(2), nid(3));
    store.create_note(a, b"a".to_vec(), 1).unwrap();
    store.create_note(b, b"b".to_vec(), 1).unwrap();
    store.create_note(c, b"c".to_vec(), 1).unwrap();
    store
        .create_association(AssociationKind::Version, a, b)
        .unwrap();
    let before = store.association_count();
    let second = store.create_association(AssociationKind::Version, a, c);
    assert_eq!(second, Err(EngineError::VersionConflict));
    assert_eq!(store.association_count(), before);
    // no version edge from a to c exists afterward
    for assoc in store.list_associations(&a) {
        let is_a_to_c = assoc.kind == AssociationKind::Version
            && assoc.from_id.to_bytes() == a.to_bytes()
            && assoc.to_id.to_bytes() == c.to_bytes();
        assert!(!is_a_to_c);
    }
}

#[test]
fn association_to_missing_note_is_a_storage_error() {
    let mut store = GraphStore::new();
    let a = nid(1);
    store.create_note(a, b"a".to_vec(), 1).unwrap();
    let r = store.create_association(AssociationKind::Link, a, nid(9));
    assert_eq!(r, Err(EngineError::StorageError));
    assert_eq!(store.association_count(), 0);
}

#[test]
fn duplicate_note_id_is_a_storage_error() {
    let mut store = GraphStore::new();
    let a = nid(1);
    store.create_note(a, b"first".to_vec(), 1).unwrap();
    let r = store.create_note(a, b"second".to_vec(), 1);
    assert_eq!(r, Err(EngineError::StorageError));
    assert_eq!(store.note_count(), 1);
}

#[test]
fn chain_of_unlinked_note_is_empty() {
    let mut store = GraphStore::new();
    let a = nid(1);
    store.create_note(a, b"alone".to_vec(), 1).unwrap();
    let chain = fetch_chain(&store, &a).unwrap();
    assert!(chain.prev.is_empty());
    assert!(chain.next.is_empty());
    assert_eq!(chain.center.id.to_bytes(), a.to_bytes());
}

#[test]
fn fetch_chain_of_missing_note_is_not_found() {
    let store = GraphStore::new();
    assert!(matches!(fetch_chain(&store, &nid(1)), Err(EngineError::NotFound)));
    assert!(matches!(fetch_related(&store, &nid(1)), Err(EngineError::NotFound)));
}

#[test]
fn create_chain_writes_two_notes_and_two_edges() {
    let (mut store, acct) = seeded_store(7);
    let ids = vec![nid(1), nid(2)];
    let segments = vec![b"seg1".to_vec(), b"seg2".to_vec()];
    let (root, out_ids) = store
        .create_note_chain_with_ids(&ids, &segments, 7, acct)
        .unwrap();
    assert_eq!(out_ids.len(), 2);
    assert_eq!(root.value, b"seg1".to_vec());
    assert_eq!(root.id.to_bytes(), nid(1).to_bytes());
    // exactly two notes beyond the account note, and exactly two edges
    assert_eq!(store.note_count(), 3);
    assert_eq!(store.association_count(), 2);
    // one author edge acct -> seg1
    let acct_edges = store.list_associations(&acct);
    assert_eq!(acct_edges.len(), 1);
    assert_eq!(acct_edges[0].kind, AssociationKind::Author);
    assert_eq!(acct_edges[0].from_id.to_bytes(), acct.to_bytes());
    assert_eq!(acct_edges[0].to_id.to_bytes(), nid(1).to_bytes());
    // one next edge seg1 -> seg2
    let seg2_edges = store.list_associations(&nid(2));
    assert_eq!(seg2_edges.len(), 1);
    assert_eq!(seg2_edges[0].kind, AssociationKind::Next);
    assert_eq!(seg2_edges[0].from_id.to_bytes(), nid(1).to_bytes());
    assert_eq!(seg2_edges[0].to_id.to_bytes(), nid(2).to_bytes());
    // the chain view of the second segment has exactly the first before it
    let chain = fetch_chain(&store, &nid(2)).unwrap();
    assert_eq!(chain.prev.len(), 1);
    assert_eq!(chain.prev[0].id.to_bytes(), nid(1).to_bytes());
    assert!(chain.next.is_empty());
}

#[test]
fn create_chain_with_random_ids_builds_a_chain() {
    let (mut store, acct) = seeded_store(7);
    let segments = vec![b"one".to_vec(), b"two".to_vec(), b"three".to_vec()];
    let (root, ids) = store.create_note_chain(&segments, 7, acct).unwrap();
    assert_eq!(ids.len(), 3);
    assert_eq!(root.id.to_bytes(), ids[0].to_bytes());
    assert_eq!(store.note_count(), 4);
    assert_eq!(store.association_count(), 3);
    let chain = fetch_chain(&store, &ids[0]).unwrap();
    assert!(chain.prev.is_empty());
    assert_eq!(chain.next.len(), 2);
    assert_eq!(chain.next[0].value, b"two".to_vec());
    assert_eq!(chain.next[1].value, b"three".to_vec());
}

#[test]
fn empty_segment_list_is_invalid_and_writes_nothing() {
    let (mut store, acct) = seeded_store(7);
    let r = store.create_note_chain(&Vec::new(), 7, acct);
    assert_eq!(r.unwrap_err(), EngineError::InvalidInput);
    assert_eq!(store.note_count(), 1);
    assert_eq!(store.association_count(), 0);
}

#[test]
fn version_chain_supersedes_the_head() {
    let (mut store, acct) = seeded_store(7);
    let ids = vec![nid(1), nid(2)];
    let segments = vec![b"old a".to_vec(), b"old b".to_vec()];
    store
        .create_note_chain_with_ids(&ids, &segments, 7, acct)
        .unwrap();
    // version the chain through its tail: the head must be resolved first
    let new_ids = vec![nid(3)];
    let new_segments = vec![b"new".to_vec()];
    let (root, _) = store
        .create_note_version_chain_with_ids(nid(2), &new_ids, &new_segments, 7, acct)
        .unwrap();
    assert_eq!(root.id.to_bytes(), nid(3).to_bytes());
    // the version edge leaves the chain head, not the tail
    let head_edges = store.list_associations(&nid(1));
    let version_edge = head_edges
        .iter()
        .find(|a| a.kind == AssociationKind::Version)
        .expect("version edge");
    assert_eq!(version_edge.from_id.to_bytes(), nid(1).to_bytes());
    assert_eq!(version_edge.to_id.to_bytes(), nid(3).to_bytes());
    assert!(store
        .list_associations(&nid(2))
        .iter()
        .all(|a| a.kind != AssociationKind::Version));
}

#[test]
fn version_conflict_leaves_no_orphaned_segments() {
    let (mut store, acct) = seeded_store(7);
    store
        .create_note_chain_with_ids(&vec![nid(1)], &vec![b"head".to_vec()], 7, acct)
        .unwrap();
    store
        .create_note_version_chain_with_ids(nid(1), &vec![nid(2)], &vec![b"v2".to_vec()], 7, acct)
        .unwrap();
    let notes_before = store.note_count();
    let assocs_before = store.association_count();
    let r = store.create_note_version_chain_with_ids(
        nid(1),
        &vec![nid(3)],
        &vec![b"v3".to_vec()],
        7,
        acct,
    );
    assert_eq!(r.unwrap_err(), EngineError::VersionConflict);
    // the total note count in storage is unchanged: no orphaned segments
    assert_eq!(store.note_count(), notes_before);
    assert_eq!(store.association_count(), assocs_before);
}

#[test]
fn account_bootstrap_note_cannot_be_versioned() {
    let (mut store, acct) = seeded_store(7);
    let r = store.create_note_version_chain_with_ids(
        acct,
        &vec![nid(1)],
        &vec![b"v2".to_vec()],
        7,
        acct,
    );
    assert_eq!(r.unwrap_err(), EngineError::InvalidInput);
    assert_eq!(store.note_count(), 1);
    assert_eq!(store.association_count(), 0);
}

#[test]
fn two_edges_between_the_same_pair_are_two_entries() {
    let mut store = GraphStore::new();
    let (a, b) = (nid(1), nid(2));
    store.create_note(a, b"a".to_vec(), 1).unwrap();
    store.create_note(b, b"b".to_vec(), 1).unwrap();
    store
        .create_association(AssociationKind::Reply, a, b)
        .unwrap();
    store
        .create_association(AssociationKind::Reply, a, b)
        .unwrap();
    let related = fetch_related(&store, &a).unwrap();
    assert_eq!(related.related.len(), 2);
    for entry in &related.related {
        assert_eq!(entry.note.id.to_bytes(), b.to_bytes());
        assert_eq!(entry.association.kind, AssociationKind::Reply);
    }
}

#[test]
fn cross_author_visibility_rules() {
    let mut store = GraphStore::new();
    let (a, b, c) = (nid(1), nid(2), nid(3));
    store.create_note(a, b"mine".to_vec(), 1).unwrap();
    store.create_note(b, b"theirs".to_vec(), 2).unwrap();
    store.create_note(c, b"also mine".to_vec(), 1).unwrap();
    // a parent edge across authors is excluded
    store
        .create_association(AssociationKind::Parent, a, b)
        .unwrap();
    let related = fetch_related(&store, &a).unwrap();
    assert!(related.related.is_empty());
    // a reply edge across authors is included
    store
        .create_association(AssociationKind::Reply, a, b)
        .unwrap();
    let related = fetch_related(&store, &a).unwrap();
    assert_eq!(related.related.len(), 1);
    assert_eq!(related.related[0].association.kind, AssociationKind::Reply);
    // a parent edge within one author is included
    store
        .create_association(AssociationKind::Parent, a, c)
        .unwrap();
    let related = fetch_related(&store, &a).unwrap();
    assert_eq!(related.related.len(), 2);
}

#[test]
fn chain_is_truncated_at_an_author_change() {
    let mut store = GraphStore::new();
    let (a, b, c) = (nid(1), nid(2), nid(3));
    store.create_note(a, b"a".to_vec(), 1).unwrap();
    store.create_note(b, b"b".to_vec(), 1).unwrap();
    store.create_note(c, b"c".to_vec(), 2).unwrap();
    store
        .create_association(AssociationKind::Next, a, b)
        .unwrap();
    store
        .create_association(AssociationKind::Next, b, c)
        .unwrap();
    let chain = fetch_chain(&store, &a).unwrap();
    // the walk reaches b and c, but c's author differs, so next stops at b
    assert_eq!(chain.next.len(), 1);
    assert_eq!(chain.next[0].id.to_bytes(), b.to_bytes());
}

#[test]
fn walk_terminates_on_a_cycle() {
    let mut store = GraphStore::new();
    let (a, b) = (nid(1), nid(2));
    store.create_note(a, b"a".to_vec(), 1).unwrap();
    store.create_note(b, b"b".to_vec(), 1).unwrap();
    store
        .create_association(AssociationKind::Next, a, b)
        .unwrap();
    store
        .create_association(AssociationKind::Next, b, a)
        .unwrap();
    let forward = walk(&store, &a, Direction::Next);
    assert_eq!(forward.len(), 1);
    assert_eq!(forward[0].to_bytes(), b.to_bytes());
    let backward = walk(&store, &a, Direction::Prev);
    assert_eq!(backward.len(), 1);
    assert_eq!(backward[0].to_bytes(), b.to_bytes());
}

#[test]
fn walk_follows_prev_edges_backwards() {
    let mut store = GraphStore::new();
    let (a, b, c) = (nid(1), nid(2), nid(3));
    store.create_note(a, b"a".to_vec(), 1).unwrap();
    store.create_note(b, b"b".to_vec(), 1).unwrap();
    store.create_note(c, b"c".to_vec(), 1).unwrap();
    store
        .create_association(AssociationKind::Next, a, b)
        .unwrap();
    store
        .create_association(AssociationKind::Prev, c, b)
        .unwrap();
    // from c, prev goes to b (its own prev edge), then to a (b's next edge)
    let backward = walk(&store, &c, Direction::Prev);
    assert_eq!(backward.len(), 2);
    assert_eq!(backward[0].to_bytes(), b.to_bytes());
    assert_eq!(backward[1].to_bytes(), a.to_bytes());
}

#[test]
fn walker_choice_ignores_unrelated_edges() {
    // two stores, same fork, unrelated edges inserted in different orders
    let build = |unrelated_first: bool| {
        let mut store = GraphStore::new();
        for tag in 1..=5 {
            store.create_note(nid(tag), vec![tag], 1).unwrap();
        }
        if unrelated_first {
            store
                .create_association(AssociationKind::Link, nid(4), nid(5))
                .unwrap();
        }
        store
            .create_association(AssociationKind::Next, nid(1), nid(2))
            .unwrap();
        if !unrelated_first {
            store
                .create_association(AssociationKind::Link, nid(4), nid(5))
                .unwrap();
        }
        // a second, younger next edge from the same tail: a fork
        store
            .create_association(AssociationKind::Next, nid(1), nid(3))
            .unwrap();
        store
    };
    for unrelated_first in [false, true] {
        let store = build(unrelated_first);
        let forward = walk(&store, &nid(1), Direction::Next);
        // the oldest matching edge wins, whatever else is in the store
        assert_eq!(forward[0].to_bytes(), nid(2).to_bytes());
    }
}

#[test]
fn related_list_is_newest_first() {
    let mut store = GraphStore::new();
    let (a, b, c) = (nid(1), nid(2), nid(3));
    store.create_note(a, b"a".to_vec(), 1).unwrap();
    store.create_note(b, b"b".to_vec(), 1).unwrap();
    store.create_note(c, b"c".to_vec(), 1).unwrap();
    store
        .create_association(AssociationKind::Reply, a, b)
        .unwrap();
    store
        .create_association(AssociationKind::Quote, a, c)
        .unwrap();
    let related = fetch_related(&store, &a).unwrap();
    assert_eq!(related.related.len(), 2);
    assert_eq!(related.related[0].association.kind, AssociationKind::Quote);
    assert_eq!(related.related[1].association.kind, AssociationKind::Reply);
}

#[test]
fn split_text_publishes_as_a_readable_chain() {
    let (mut store, acct) = seeded_store(7);
    let text = format!("{}{}", "a".repeat(1024), "tail");
    let segments = notegraph::segment::split_note_value(&text, 1024);
    assert_eq!(segments.len(), 2);
    let bytes: Vec<Vec<u8>> = segments.iter().map(|s| s.as_bytes().to_vec()).collect();
    let (root, ids) = store.create_note_chain(&bytes, 7, acct).unwrap();
    let chain = fetch_chain(&store, &ids[1]).unwrap();
    assert_eq!(chain.prev.len(), 1);
    assert_eq!(chain.prev[0].id.to_bytes(), root.id.to_bytes());
    // the chain re-joins to the original text
    let mut joined = String::new();
    joined.push_str(&String::from_utf8(chain.prev[0].value.clone()).unwrap());
    joined.push_str(&String::from_utf8(chain.center.value.clone()).unwrap());
    assert_eq!(joined, text);
}

#[test]
fn find_notes_by_ids_keeps_order_and_skips_missing() {
    let mut store = GraphStore::new();
    let (a, b) = (nid(1), nid(2));
    store.create_note(a, b"a".to_vec(), 1).unwrap();
    store.create_note(b, b"b".to_vec(), 1).unwrap();
    let found = store.find_notes_by_ids(&vec![b, nid(9), a]);
    assert_eq!(found.len(), 2);
    assert_eq!(found[0].id.to_bytes(), b.to_bytes());
    assert_eq!(found[1].id.to_bytes(), a.to_bytes());
}

#[test]
fn find_notes_by_ids_returns_each_note_once() {
    let mut store = GraphStore::new();
    let (a, b) = (nid(1), nid(2));
    store.create_note(a, b"a".to_vec(), 1).unwrap();
    store.create_note(b, b"b".to_vec(), 1).unwrap();
    // a repeated identifier adds nothing: each stored note appears once
    let found = store.find_notes_by_ids(&vec![a, a, b, a]);
    assert_eq!(found.len(), 2);
    assert_eq!(found[0].id.to_bytes(), a.to_bytes());
    assert_eq!(found[1].id.to_bytes(), b.to_bytes());
}

#[test]
fn version_conflict_is_judged_before_a_missing_endpoint() {
    let mut store = GraphStore::new();
    let (a, b) = (nid(1), nid(2));
    store.create_note(a, b"a".to_vec(), 1).unwrap();
    store.create_note(b, b"b".to_vec(), 1).unwrap();
    store
        .create_association(AssociationKind::Version, a, b)
        .unwrap();
    // the conditional insert reports the conflict even though the target
    // note does not exist
    let r = store.create_association(AssociationKind::Version, a, nid(9));
    assert_eq!(r, Err(EngineError::VersionConflict));
    // without a conflict, the missing endpoint is the store's refusal
    let r = store.create_association(AssociationKind::Version, b, nid(9));
    assert_eq!(r, Err(EngineError::StorageError));
}
