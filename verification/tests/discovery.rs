//! Discovery logic: probe matching, timeouts, and self-reply
//! suppression.

use hex_gossip::discover::{Beacon, Discover, BeaconStep, probe, BEACON_TIMEOUT_MS};
use hex_gossip::types::Addr;

#[test]
fn probe_bytes() {
    assert_eq!(probe(1), vec![1u8, 0, 0, 1]);
    assert_eq!(probe(7), vec![7u8, 0, 0, 1]);
}

#[test]
fn discover_echoes_matching_probe() {
    let d = Discover::new(1);
    let reply = d.respond(&probe(1), 4).expect("matching probe answered");
    assert_eq!(reply, vec![1u8, 0, 0, 1]);
}

#[test]
fn discover_ignores_bad_datagrams() {
    let d = Discover::new(1);
    // wrong version
    assert!(d.respond(&probe(2), 4).is_none());
    // wrong length
    assert!(d.respond(&vec![1, 0, 0, 1, 0], 5).is_none());
    // malformed
    assert!(d.respond(&vec![1, 1, 0, 1], 4).is_none());
}

#[test]
fn beacon_resolves_with_matching_responder() {
    let b = Beacon::new(1, 500, vec![0x0a000001]);
    let from = Addr { ip: 0x0a000002, port: 8004 };
    assert_eq!(b.on_datagram(&probe(1), 4, from), Some(from));
}

#[test]
fn beacon_ignores_mismatched_version() {
    let b = Beacon::new(1, 500, vec![0x0a000001]);
    let from = Addr { ip: 0x0a000002, port: 8004 };
    assert!(b.on_datagram(&probe(2), 4, from).is_none());
    // with only a mismatched responder it then times out to no contact
    assert_eq!(b.on_tick(BEACON_TIMEOUT_MS, 0), BeaconStep::NoContact);
}

#[test]
fn beacon_never_resolves_with_own_address() {
    let own = 0x0a000001u32;
    let b = Beacon::new(1, 500, vec![own]);
    let from_self = Addr { ip: own, port: 8004 };
    assert!(b.on_datagram(&probe(1), 4, from_self).is_none());
}

#[test]
fn beacon_times_out_to_no_contact() {
    let b = Beacon::new(1, 500, Vec::new());
    assert_eq!(b.on_tick(0, 500), BeaconStep::SendProbe);
    assert_eq!(b.on_tick(100, 100), BeaconStep::Wait);
    assert_eq!(b.on_tick(1999, 499), BeaconStep::Wait);
    assert_eq!(b.on_tick(2000, 0), BeaconStep::NoContact);
    assert_eq!(b.on_tick(3000, 500), BeaconStep::NoContact);
}

#[test]
fn send_beacon() {
    // a beacon probing alone: every interval it sends, and after the
    // timeout it resolves with no contact found
    let beacon = Beacon::new(1, 500, Vec::new());
    let mut elapsed: u64 = 0;
    let mut probes: u32 = 0;
    let mut outcome: Option<Option<Addr>> = None;
    while outcome.is_none() {
        match beacon.on_tick(elapsed, 500) {
            BeaconStep::SendProbe => {
                probes += 1;
                println!("Beacon probe = {:?}", probe(1));
            }
            BeaconStep::Wait => {}
            BeaconStep::NoContact => outcome = Some(None),
        }
        elapsed += 500;
    }
    println!("Beacon got = {:?}", outcome.unwrap());
    assert_eq!(outcome, Some(None));
    assert_eq!(probes, 4);
}
