//! The DAG store on its own: approval, tips, and replication deltas.

use hex_gossip::store::Store;
use hex_gossip::transition::Transition;

#[test]
fn approve_checks_key_and_parents() {
    let s = Store::new();
    let good = Transition::new(vec![1u8; 32], Vec::new(), vec![1]);
    assert!(s.approve(&good));

    let bad_key = Transition {
        author: vec![1u8; 32],
        parents: Vec::new(),
        body: vec![1],
        key: vec![0u8; 32],
    };
    assert!(!s.approve(&bad_key));

    let orphan = Transition::new(vec![1u8; 32], vec![vec![9u8; 32]], vec![1]);
    assert!(!s.approve(&orphan));

    let short_author = Transition::new(vec![1u8; 32], Vec::new(), vec![2]);
    let mut mangled = short_author.duplicate();
    mangled.author = vec![1u8; 31];
    assert!(!s.approve(&mangled));
}

#[test]
fn tips_track_the_frontier() {
    let mut s = Store::new();
    assert!(s.tips().is_empty());

    let t1 = Transition::new(vec![1u8; 32], Vec::new(), vec![1]);
    assert!(s.approve(&t1) && !s.has(&t1.key));
    s.store(t1.duplicate());
    assert_eq!(s.tips(), vec![t1.key.clone()]);

    let t2 = Transition::new(vec![1u8; 32], vec![t1.key.clone()], vec![2]);
    s.store(t2.duplicate());
    assert_eq!(s.tips(), vec![t2.key.clone()]);

    // a second root makes the frontier hold two keys
    let t3 = Transition::new(vec![2u8; 32], Vec::new(), vec![3]);
    s.store(t3.duplicate());
    assert_eq!(s.tips(), vec![t2.key.clone(), t3.key.clone()]);
}

#[test]
fn subgraph_is_the_exact_delta() {
    let mut s = Store::new();
    let t1 = Transition::new(vec![1u8; 32], Vec::new(), vec![1]);
    s.store(t1.duplicate());
    let t2 = Transition::new(vec![1u8; 32], vec![t1.key.clone()], vec![2]);
    s.store(t2.duplicate());
    let t3 = Transition::new(vec![2u8; 32], Vec::new(), vec![3]);
    s.store(t3.duplicate());

    // an empty frontier misses everything, in causal order
    let all = s.subgraph(&Vec::new());
    let keys: Vec<_> = all.iter().map(|t| t.key.clone()).collect();
    assert_eq!(keys, vec![t1.key.clone(), t2.key.clone(), t3.key.clone()]);

    // a frontier at t2 still misses the unrelated root t3
    let d = s.subgraph(&vec![t2.key.clone()]);
    let keys: Vec<_> = d.iter().map(|t| t.key.clone()).collect();
    assert_eq!(keys, vec![t3.key.clone()]);

    // a frontier at t1 misses t2 and t3, not t1
    let d = s.subgraph(&vec![t1.key.clone()]);
    let keys: Vec<_> = d.iter().map(|t| t.key.clone()).collect();
    assert_eq!(keys, vec![t2.key.clone(), t3.key.clone()]);

    // the full frontier misses nothing
    let d = s.subgraph(&s.tips());
    assert!(d.is_empty());
}

#[test]
fn has_deduplicates_by_key() {
    let mut s = Store::new();
    let t1 = Transition::new(vec![1u8; 32], Vec::new(), vec![1]);
    assert!(!s.has(&t1.key));
    s.store(t1.duplicate());
    assert!(s.has(&t1.key));
    // an equal construction derives the same key
    let again = Transition::new(vec![1u8; 32], Vec::new(), vec![1]);
    assert!(s.has(&again.key));
}

#[test]
fn files_are_stored_and_found() {
    let mut s = Store::new();
    assert!(s.get_file(&vec![1]).is_none());
    s.add_file(vec![1], vec![0xAB]);
    s.add_file(vec![2], vec![0xCD]);
    assert_eq!(s.get_file(&vec![1]), Some(vec![0xAB]));
    assert_eq!(s.get_file(&vec![2]), Some(vec![0xCD]));
    assert!(s.get_file(&vec![3]).is_none());
}
