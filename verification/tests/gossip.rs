//! Engine scenarios: dissemination, deduplication, catch-up
//! replication, peer-sampling convergence, pruning, and the file
//! exchange.

use hex_gossip::engine::{Gossip, GossipConf, PacketOutcome};
use hex_gossip::store::Store;
use hex_gossip::transition::Transition;
use hex_gossip::types::{Addr, PeerPresence, SpreadTo};
use hex_gossip::wire::{decode_handshake, decode_packet, try_frame, Packet};

fn node(n: u8, port: u16) -> Gossip {
    let conf = GossipConf::new()
        .addr(Addr { ip: 0x7f000001, port })
        .network_key(vec![42u8; 16])
        .id(vec![n; 32]);
    Gossip::new(conf, Store::new())
}

/// Complete the handshake in both directions, as the resolver would.
fn link(a: &mut Gossip, b: &mut Gossip) {
    let pa = PeerPresence { id: a.id(), addr: a.addr(), writer: None };
    let pb = PeerPresence { id: b.id(), addr: b.addr(), writer: None };
    let ta = a.store.tips();
    let tb = b.store.tips();
    assert!(a.on_resolved(pb, &tb).accepted);
    assert!(b.on_resolved(pa, &ta).accepted);
}

/// Deliver every packet queued at `from` for `to`, returning the
/// outcomes.
fn pump(from: &mut Gossip, to: &mut Gossip) -> Vec<PacketOutcome> {
    let origin = from.id();
    let target = to.id();
    let mut slot = None;
    for i in 0..from.writer.slots.len() {
        if from.writer.slots[i].id == target {
            slot = Some(i);
        }
    }
    let mut outcomes = Vec::new();
    if let Some(i) = slot {
        let frames = from.writer.flush_frames(i);
        for f in frames {
            let (payload, used) = try_frame(&f).expect("whole frame");
            assert_eq!(used, f.len());
            let pkt = decode_packet(&payload).expect("well-formed packet");
            outcomes.push(to.handle_packet(&origin, pkt));
        }
    }
    outcomes
}

/// Drain the initial peer-list exchange that follows a link.
fn settle(x: &mut Gossip, y: &mut Gossip) {
    for _ in 0..3 {
        pump(x, y);
        pump(y, x);
    }
}

#[test]
fn push_disseminates_and_deduplicates() {
    let mut a = node(1, 8001);
    let mut b = node(2, 8002);
    link(&mut a, &mut b);
    settle(&mut a, &mut b);

    let t = Transition::new(vec![9u8; 32], Vec::new(), vec![1, 2, 3]);
    let first = a.handle_packet(&vec![9u8; 32], Packet::Push(t.duplicate()));
    match first.event {
        Some(Packet::Push(got)) => assert_eq!(got.key, t.key),
        other => panic!("expected an accepted push, got {:?}", other),
    }
    assert_eq!(a.store.log.len(), 1);
    assert_eq!(a.errors, 0);

    // the rebroadcast reaches the peer and is accepted there
    let outcomes = pump(&mut a, &mut b);
    assert_eq!(outcomes.len(), 1);
    assert!(outcomes[0].event.is_some());
    assert_eq!(b.store.log.len(), 1);

    // pushing the same key again stores nothing and surfaces nothing
    let second = a.handle_packet(&b.id(), Packet::Push(t.duplicate()));
    assert!(second.event.is_none());
    assert_eq!(a.store.log.len(), 1);
    assert_eq!(a.errors, 0);
}

#[test]
fn rejected_transition_is_counted_and_dropped() {
    let mut a = node(1, 8001);
    // a transition whose key does not match its content
    let bogus = Transition {
        author: vec![9u8; 32],
        parents: Vec::new(),
        body: vec![1],
        key: vec![0u8; 32],
    };
    let r = a.handle_packet(&vec![9u8; 32], Packet::Push(bogus));
    assert!(r.event.is_none());
    assert_eq!(a.store.log.len(), 0);
    assert_eq!(a.errors, 1);

    // a transition with an unknown parent is rejected too
    let orphan = Transition::new(vec![9u8; 32], vec![vec![7u8; 32]], vec![2]);
    let r2 = a.handle_packet(&vec![9u8; 32], Packet::Push(orphan));
    assert!(r2.event.is_none());
    assert_eq!(a.store.log.len(), 0);
    assert_eq!(a.errors, 2);
}

#[test]
fn catch_up_sends_exactly_the_missing_transitions() {
    let mut a = node(1, 8001);
    let mut b = node(2, 8002);

    // a knows a chain of two transitions
    let t1 = Transition::new(vec![9u8; 32], Vec::new(), vec![1]);
    a.handle_packet(&vec![9u8; 32], Packet::Push(t1.duplicate()));
    let t2 = Transition::new(vec![9u8; 32], vec![t1.key.clone()], vec![2]);
    a.handle_packet(&vec![9u8; 32], Packet::Push(t2.duplicate()));
    assert_eq!(a.store.log.len(), 2);

    // b joins with an empty frontier: both transitions are sent, parents first
    let pb = PeerPresence { id: b.id(), addr: b.addr(), writer: None };
    assert!(a.on_resolved(pb, &Vec::new()).accepted);
    let pa = PeerPresence { id: a.id(), addr: a.addr(), writer: None };
    assert!(b.on_resolved(pa, &a.store.tips()).accepted);
    let outcomes = pump(&mut a, &mut b);
    let pushed: Vec<_> = outcomes.iter().filter(|o| o.event.is_some()).collect();
    assert_eq!(pushed.len(), 2);
    assert_eq!(b.store.log.len(), 2);
    assert_eq!(b.store.log[0].key, t1.key);
    assert_eq!(b.store.log[1].key, t2.key);

    // a third node joining with t1 already known receives only t2
    let mut c = node(3, 8003);
    c.handle_packet(&vec![9u8; 32], Packet::Push(t1.duplicate()));
    let pc = PeerPresence { id: c.id(), addr: c.addr(), writer: None };
    assert!(a.on_resolved(pc, &c.store.tips()).accepted);
    let p_a = PeerPresence { id: a.id(), addr: a.addr(), writer: None };
    assert!(c.on_resolved(p_a, &a.store.tips()).accepted);
    let outcomes = pump(&mut a, &mut c);
    let keys: Vec<_> = outcomes
        .iter()
        .filter_map(|o| match &o.event {
            Some(Packet::Push(t)) => Some(t.key.clone()),
            _ => None,
        })
        .collect();
    assert_eq!(keys, vec![t2.key.clone()]);
    assert_eq!(c.store.log.len(), 2);
}

#[test]
fn duplicate_and_self_identities_are_rejected() {
    let mut a = node(1, 8001);
    let mut b = node(2, 8002);
    link(&mut a, &mut b);
    // the same identity resolving again is rejected
    let pb = PeerPresence { id: b.id(), addr: b.addr(), writer: None };
    assert!(!a.on_resolved(pb, &Vec::new()).accepted);
    // the node's own identity is rejected
    let pa = PeerPresence { id: a.id(), addr: a.addr(), writer: None };
    assert!(!a.on_resolved(pa, &Vec::new()).accepted);
    assert_eq!(a.books.len(), 1);
}

#[test]
fn sequential_bootstrap_converges_to_full_mesh() {
    // four nodes join one after the other through the same contact;
    // afterwards every peer book holds exactly three entries
    let mut n0 = node(0, 8000);
    let mut n1 = node(1, 8001);
    let mut n2 = node(2, 8002);
    let mut n3 = node(3, 8003);

    // n1 joins through n0 and asks it for the peer list
    link(&mut n1, &mut n0);
    pump(&mut n1, &mut n0);
    pump(&mut n0, &mut n1);

    // n2 joins through n0; the reply names n1, so n2 dials it
    link(&mut n2, &mut n0);
    pump(&mut n2, &mut n0);
    let outcomes = pump(&mut n0, &mut n2);
    let connects: usize = outcomes.iter().map(|o| o.connect.len()).sum();
    assert_eq!(connects, 1);
    link(&mut n2, &mut n1);

    // n3 joins through n0; the reply names n1 and n2
    link(&mut n3, &mut n0);
    pump(&mut n3, &mut n0);
    let outcomes = pump(&mut n0, &mut n3);
    let connects: usize = outcomes.iter().map(|o| o.connect.len()).sum();
    assert_eq!(connects, 2);
    link(&mut n3, &mut n1);
    link(&mut n3, &mut n2);

    for n in [&n0, &n1, &n2, &n3] {
        assert_eq!(n.books.len(), 3);
    }
}

#[test]
fn dead_peer_is_pruned_everywhere() {
    let mut a = node(1, 8001);
    let mut b = node(2, 8002);
    let mut c = node(3, 8003);
    link(&mut a, &mut b);
    link(&mut a, &mut c);
    assert_eq!(a.books.len(), 2);
    assert_eq!(a.writer.slots.len(), 2);

    // b's flush failed: it leaves the book and the registry at once
    a.on_dead_peers(&vec![b.id()]);
    assert_eq!(a.books.len(), 1);
    assert_eq!(a.books[0].id, c.id());
    assert_eq!(a.writer.slots.len(), 1);
    assert_eq!(a.writer.slots[0].id, c.id());

    // and nothing further is queued for it
    a.writer.spread(Packet::Close, SpreadTo::Peer(b.id()));
    assert_eq!(a.writer.slots.len(), 1);
    assert_eq!(a.writer.slots[0].queue.len(), 0);
}

#[test]
fn close_removes_peer_from_book() {
    let mut a = node(1, 8001);
    let mut b = node(2, 8002);
    link(&mut a, &mut b);
    assert_eq!(a.books.len(), 1);
    let r = a.handle_packet(&b.id(), Packet::Close);
    assert!(r.event.is_none());
    assert_eq!(a.books.len(), 0);
}

#[test]
fn file_request_and_delivery() {
    let mut a = node(1, 8001);
    let mut b = node(2, 8002);
    link(&mut a, &mut b);
    settle(&mut a, &mut b);

    a.store.add_file(vec![1, 2, 3], vec![0xAA, 0xBB]);

    // a request for a known blob is answered towards the requester
    let r = a.handle_packet(&b.id(), Packet::File(vec![1, 2, 3], None));
    assert!(r.event.is_none());
    let outcomes = pump(&mut a, &mut b);
    assert_eq!(outcomes.len(), 1);

    // an unknown blob produces no reply
    let r2 = a.handle_packet(&b.id(), Packet::File(vec![9], None));
    assert!(r2.event.is_none());
    assert!(pump(&mut a, &mut b).is_empty());

    // a delivery surfaces directly
    let r3 = b.handle_packet(&a.id(), Packet::File(vec![1, 2, 3], Some(vec![0xAA, 0xBB])));
    match r3.event {
        Some(Packet::File(id, Some(d))) => {
            assert_eq!(id, vec![1, 2, 3]);
            assert_eq!(d, vec![0xAA, 0xBB]);
        }
        other => panic!("expected the delivery back, got {:?}", other),
    }
}

#[test]
fn local_push_enters_dag_and_queues_for_everyone() {
    let mut a = node(1, 8001);
    let mut b = node(2, 8002);
    link(&mut a, &mut b);
    settle(&mut a, &mut b);

    let t = a.writer.push(&mut a.store, vec![5, 6, 7]);
    assert_eq!(a.store.log.len(), 1);
    assert_eq!(a.store.log[0].key, t.key);
    assert_eq!(t.author, vec![1u8; 32]);
    assert!(t.parents.is_empty());

    // the peer receives it
    let outcomes = pump(&mut a, &mut b);
    assert_eq!(outcomes.len(), 1);
    assert_eq!(b.store.log.len(), 1);

    // a second push builds on the first: the new tip is its parent
    let t2 = a.writer.push(&mut a.store, vec![8]);
    assert_eq!(t2.parents, vec![t.key.clone()]);
    assert_eq!(a.store.tips(), vec![t2.key.clone()]);
}

#[test]
fn peer_list_reply_excludes_requester_and_clears_slots() {
    let mut a = node(1, 8001);
    let mut b = node(2, 8002);
    let mut c = node(3, 8003);
    link(&mut a, &mut b);
    link(&mut a, &mut c);
    settle(&mut a, &mut b);
    settle(&mut a, &mut c);

    let r = a.handle_packet(&b.id(), Packet::GetPeers(None));
    assert!(r.event.is_none());
    // decode what was queued for b
    let origin = a.id();
    let mut listed = None;
    for i in 0..a.writer.slots.len() {
        if a.writer.slots[i].id == b.id() {
            let frames = a.writer.flush_frames(i);
            assert_eq!(frames.len(), 1);
            let (payload, _) = try_frame(&frames[0]).unwrap();
            listed = decode_packet(&payload);
        }
    }
    let _ = origin;
    match listed {
        Some(Packet::GetPeers(Some(list))) => {
            assert_eq!(list.len(), 1);
            assert_eq!(list[0].id, c.id());
            assert!(list[0].writer.is_none());
        }
        other => panic!("expected a peer list, got {:?}", other),
    }
}

#[test]
fn contact_configuration_prepares_one_handshake() {
    let conf = GossipConf::new()
        .addr(Addr { ip: 0x7f000001, port: 8001 })
        .network_key(vec![42u8; 16])
        .id(vec![1u8; 32])
        .contact(Addr { ip: 0x7f000001, port: 8000 });
    let g = Gossip::new(conf, Store::new());

    // fresh engine: empty book, empty registry, one prepared machine
    assert!(g.books.is_empty());
    assert!(g.writer.slots.is_empty());
    assert_eq!(g.resolve.len(), 1);
    assert!(!g.resolve.pending[0].failed);
    assert!(g.resolve.pending[0].expect.is_none());
    assert!(g.resolve.pending[0].buf.is_empty());
    assert_eq!(g.resolve.pending[0].version, 1);

    // its hello frame is one complete, decodable handshake carrying
    // this node's presence and (empty) frontier
    let hello = &g.resolve.pending[0].hello;
    let (payload, used) = try_frame(hello).expect("a complete frame");
    assert_eq!(used, hello.len());
    let h = decode_handshake(&payload).expect("a valid handshake");
    assert_eq!(h.version, 1);
    assert_eq!(h.key_proof, g.resolve.pending[0].my_proof);
    assert_eq!(h.presence.id, vec![1u8; 32]);
    assert!(h.presence.writer.is_none());
    assert!(h.tips.is_empty());

    // without a contact, no machine is prepared
    let conf2 = GossipConf::new()
        .addr(Addr { ip: 0x7f000001, port: 8001 })
        .network_key(vec![42u8; 16])
        .id(vec![1u8; 32]);
    let g2 = Gossip::new(conf2, Store::new());
    assert_eq!(g2.resolve.len(), 0);
    assert!(g2.writer.slots.is_empty());
}
