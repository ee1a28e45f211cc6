//! Round trips of the wire codec: serializing and deserializing each
//! packet variant yields an identical value.

use hex_gossip::types::{Addr, PeerPresence};
use hex_gossip::transition::Transition;
use hex_gossip::wire::{encode_packet, decode_packet, encode_handshake, decode_handshake,
    frame_payload, try_frame, Handshake, Packet};
use hex_gossip::transition::key_digest;

fn id_of(b: u8) -> Vec<u8> {
    vec![b; 32]
}

fn some_transition() -> Transition {
    let parent = Transition::new(id_of(1), Vec::new(), vec![9, 9, 9]);
    Transition::new(id_of(2), vec![parent.key.clone()], vec![1, 2, 3, 4])
}

#[test]
fn round_trip_get_peers_request() {
    let bytes = encode_packet(&Packet::GetPeers(None));
    match decode_packet(&bytes) {
        Some(Packet::GetPeers(None)) => {}
        other => panic!("unexpected decode: {:?}", other),
    }
}

#[test]
fn round_trip_get_peers_reply() {
    let peers = vec![
        PeerPresence { id: id_of(3), addr: Addr { ip: 0x7f000001, port: 8001 }, writer: None },
        PeerPresence { id: id_of(4), addr: Addr { ip: 0x7f000002, port: 8002 }, writer: None },
    ];
    let bytes = encode_packet(&Packet::GetPeers(Some(peers)));
    match decode_packet(&bytes) {
        Some(Packet::GetPeers(Some(got))) => {
            assert_eq!(got.len(), 2);
            assert_eq!(got[0].id, id_of(3));
            assert_eq!(got[0].addr, Addr { ip: 0x7f000001, port: 8001 });
            assert!(got[0].writer.is_none());
            assert_eq!(got[1].id, id_of(4));
            assert_eq!(got[1].addr, Addr { ip: 0x7f000002, port: 8002 });
        }
        other => panic!("unexpected decode: {:?}", other),
    }
}

#[test]
fn round_trip_push() {
    let t = some_transition();
    let bytes = encode_packet(&Packet::Push(t.duplicate()));
    match decode_packet(&bytes) {
        Some(Packet::Push(got)) => {
            assert_eq!(got.author, t.author);
            assert_eq!(got.parents, t.parents);
            assert_eq!(got.body, t.body);
            assert_eq!(got.key, t.key);
        }
        other => panic!("unexpected decode: {:?}", other),
    }
}

#[test]
fn round_trip_file_request() {
    let bytes = encode_packet(&Packet::File(vec![7, 8, 9], None));
    match decode_packet(&bytes) {
        Some(Packet::File(id, None)) => assert_eq!(id, vec![7, 8, 9]),
        other => panic!("unexpected decode: {:?}", other),
    }
}

#[test]
fn round_trip_file_delivery() {
    let bytes = encode_packet(&Packet::File(vec![7], Some(vec![1, 2, 3])));
    match decode_packet(&bytes) {
        Some(Packet::File(id, Some(d))) => {
            assert_eq!(id, vec![7]);
            assert_eq!(d, vec![1, 2, 3]);
        }
        other => panic!("unexpected decode: {:?}", other),
    }
}

#[test]
fn round_trip_close() {
    let bytes = encode_packet(&Packet::Close);
    match decode_packet(&bytes) {
        Some(Packet::Close) => {}
        other => panic!("unexpected decode: {:?}", other),
    }
}

#[test]
fn truncated_packet_rejected() {
    let t = some_transition();
    let mut bytes = encode_packet(&Packet::Push(t));
    bytes.pop();
    assert!(decode_packet(&bytes).is_none());
    assert!(decode_packet(&Vec::new()).is_none());
    assert!(decode_packet(&vec![42u8]).is_none());
}

#[test]
fn round_trip_handshake() {
    let me = PeerPresence { id: id_of(9), addr: Addr { ip: 1, port: 2 }, writer: None };
    let hs = Handshake {
        version: 1,
        key_proof: key_digest(&vec![5u8; 16]),
        presence: me,
        tips: vec![vec![0xAB; 32], vec![0xCD; 32]],
    };
    let payload = encode_handshake(&hs);
    let framed = frame_payload(&payload);
    let (unframed, used) = try_frame(&framed).expect("complete frame");
    assert_eq!(used, framed.len());
    let got = decode_handshake(&unframed).expect("valid handshake");
    assert_eq!(got.version, 1);
    assert_eq!(got.key_proof, key_digest(&vec![5u8; 16]));
    assert_eq!(got.presence.id, id_of(9));
    assert_eq!(got.tips.len(), 2);
    assert_eq!(got.tips[1], vec![0xCD; 32]);
}

#[test]
fn partial_frame_waits() {
    let framed = frame_payload(&vec![1, 2, 3, 4, 5]);
    let mut cut = framed.clone();
    cut.truncate(framed.len() - 2);
    assert!(try_frame(&cut).is_none());
    let (payload, used) = try_frame(&framed).expect("whole frame");
    assert_eq!(payload, vec![1, 2, 3, 4, 5]);
    assert_eq!(used, 9);
}
