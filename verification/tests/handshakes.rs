//! The handshake resolver: acceptance, rejection, and partial frames.

use hex_gossip::resolver::{PendingPeer, ResolvePeers};
use hex_gossip::types::{Addr, PeerPresence};

fn presence(n: u8, port: u16) -> PeerPresence {
    PeerPresence { id: vec![n; 32], addr: Addr { ip: 0x7f000001, port }, writer: None }
}

fn machine(n: u8, key: &[u8], expect: Option<Vec<u8>>) -> PendingPeer {
    PendingPeer::new(1, &key.to_vec(), &presence(n, 8000 + n as u16), Vec::new(), expect)
}

#[test]
fn matching_handshakes_resolve() {
    let key = b"shared key".to_vec();
    let mut a = machine(1, &key, None);
    let b = machine(2, &key, None);

    // feeding b's hello frame into a resolves with b's presence
    let (got, tips) = a.on_data(&b.hello).expect("accepted");
    assert_eq!(got.id, vec![2u8; 32]);
    assert!(got.writer.is_none());
    assert!(tips.is_empty());
    assert!(!a.failed);
    assert!(a.buf.is_empty());
}

#[test]
fn partial_frame_stays_pending() {
    let key = b"shared key".to_vec();
    let mut a = machine(1, &key, None);
    let b = machine(2, &key, None);

    let cut = b.hello.len() / 2;
    let first = b.hello[..cut].to_vec();
    let rest = b.hello[cut..].to_vec();
    assert!(a.on_data(&first).is_none());
    assert!(!a.failed);
    let (got, _tips) = a.on_data(&rest).expect("accepted after the rest arrives");
    assert_eq!(got.id, vec![2u8; 32]);
}

#[test]
fn wrong_network_key_is_rejected() {
    let mut a = machine(1, b"one network", None);
    let b = machine(2, b"another network", None);
    assert!(a.on_data(&b.hello).is_none());
    assert!(a.failed);
}

#[test]
fn wrong_version_is_rejected() {
    let key = b"shared key".to_vec();
    let mut a = machine(1, &key, None);
    let b = PendingPeer::new(2, &key, &presence(2, 8002), Vec::new(), None);
    assert!(a.on_data(&b.hello).is_none());
    assert!(a.failed);
}

#[test]
fn malformed_frame_is_rejected() {
    let key = b"shared key".to_vec();
    let mut a = machine(1, &key, None);
    // a complete frame that is not a handshake
    let junk = vec![4u8, 0, 0, 0, 9, 9, 9, 9];
    assert!(a.on_data(&junk).is_none());
    assert!(a.failed);
}

#[test]
fn in_flight_identities_are_tracked() {
    let key = b"shared key".to_vec();
    let mut r = ResolvePeers::new(Vec::new());
    assert_eq!(r.len(), 0);
    assert!(!r.has_peer(&vec![7u8; 32]));
    let idx = r.add_peer(machine(1, &key, Some(vec![7u8; 32])));
    assert_eq!(idx, 0);
    assert!(r.has_peer(&vec![7u8; 32]));
    assert!(!r.has_peer(&vec![8u8; 32]));
    r.remove(idx);
    assert!(!r.has_peer(&vec![7u8; 32]));
}
