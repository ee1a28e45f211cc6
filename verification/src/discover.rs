//! Discovery of a contact address by UDP broadcast.
//!
//! The probe datagram is the four bytes `[version, 0x00, 0x00, 0x01]`.
//! A passive responder ([`Discover`]) echoes a matching probe back to
//! its sender and ignores everything else.  An active prober
//! ([`Beacon`]) broadcasts the probe on an interval and resolves with
//! the first sender of a matching reply that is not one of its own
//! addresses; if nothing qualifies within two seconds it resolves with
//! "no contact", which is not an error.  The sockets and the clock live
//! in the embedding program; the decision logic is here.

use vstd::prelude::*;
use crate::types::Addr;

verus! {

/// Milliseconds after which a beacon gives up and reports no contact.
pub const BEACON_TIMEOUT_MS: u64 = 2000;

/// Is the received datagram (`n` bytes of `buf`) a probe of `version`?
pub open spec fn is_probe(buf: Seq<u8>, n: int, version: u8) -> bool {
    &&& n == 4
    &&& buf.len() >= 4
    &&& buf[0] == version
    &&& buf[1] == 0u8
    &&& buf[2] == 0u8
    &&& buf[3] == 1u8
}

/// The probe datagram for a protocol version.
pub fn probe(version: u8) -> (r: Vec<u8>)
    ensures
        r@ == seq![version, 0u8, 0u8, 1u8],
        is_probe(r@, 4, version),
{
    let mut out: Vec<u8> = Vec::new();
    out.push(version);
    out.push(0u8);
    out.push(0u8);
    out.push(1u8);
    proof {
        assert(out@ =~= seq![version, 0u8, 0u8, 1u8]);
    }
    out
}

/// The passive responder: replies to probes of its own version.
pub struct Discover {
    pub version: u8,
}

impl Discover {
    /// A responder for the given protocol version.
    pub fn new(version: u8) -> (r: Discover)
        ensures
            r.version == version,
    {
        Discover { version }
    }

    /// Decide what to answer to a received datagram: the identical
    /// probe, echoed to the sender, exactly when the datagram is a
    /// probe of this responder's version; anything else is ignored.
    pub fn respond(&self, buf: &Vec<u8>, n: usize) -> (r: Option<Vec<u8>>)
        ensures
            (match r {
                Some(reply) => is_probe(buf@, n as int, self.version) && reply@ == seq![
                    self.version,
                    0u8,
                    0u8,
                    1u8,
                ],
                None => !is_probe(buf@, n as int, self.version),
            }),
    {
        if n == 4 && buf.len() >= 4 && buf[0] == self.version && buf[1] == 0 && buf[2] == 0
            && buf[3] == 1 {
            Some(probe(self.version))
        } else {
            None
        }
    }
}

/// What a beacon decides on one activation.
#[derive(Debug, PartialEq, Eq, Structural)]
pub enum BeaconStep {
    /// Send another probe broadcast.
    SendProbe,
    /// Keep waiting.
    Wait,
    /// Give up: no contact was found within the timeout.
    NoContact,
}

/// The active prober: broadcasts probes and resolves with the first
/// qualifying reply.
pub struct Beacon {
    pub version: u8,
    pub interval_ms: u64,
    pub local_addrs: Vec<u32>,
}

impl Beacon {
    /// A beacon probing with `version` every `interval_ms`
    /// milliseconds.  `local_addrs` are the node's own interface
    /// addresses, used to suppress replies to itself.
    pub fn new(version: u8, interval_ms: u64, local_addrs: Vec<u32>) -> (r: Beacon)
        ensures
            r.version == version,
            r.interval_ms == interval_ms,
            r.local_addrs@ == local_addrs@,
    {
        Beacon { version, interval_ms, local_addrs }
    }

    /// Decide on a received datagram: resolve with the sender's address
    /// exactly when the datagram is a probe of this beacon's version
    /// and the sender is not one of this node's own addresses.  A
    /// beacon therefore never resolves with one of its own addresses.
    pub fn on_datagram(&self, buf: &Vec<u8>, n: usize, from: Addr) -> (r: Option<Addr>)
        ensures
            (match r {
                Some(a) => {
                    &&& a == from
                    &&& is_probe(buf@, n as int, self.version)
                    &&& !self.local_addrs@.contains(from.ip)
                },
                None => !is_probe(buf@, n as int, self.version) || self.local_addrs@.contains(
                    from.ip,
                ),
            }),
    {
        if n == 4 && buf.len() >= 4 && buf[0] == self.version && buf[1] == 0 && buf[2] == 0
            && buf[3] == 1 {
            let mut i: usize = 0;
            while i < self.local_addrs.len()
                invariant
                    i <= self.local_addrs@.len(),
                    forall|q: int| 0 <= q < i ==> self.local_addrs@[q] != from.ip,
                decreases self.local_addrs@.len() - i,
            {
                if self.local_addrs[i] == from.ip {
                    return None;
                }
                i = i + 1;
            }
            Some(from)
        } else {
            None
        }
    }

    /// Decide on the clock and the probe interval: give up once the
    /// timeout has passed since the search began, send a fresh probe at
    /// each interval boundary, and otherwise wait.
    pub fn on_tick(&self, elapsed_ms: u64, since_probe_ms: u64) -> (r: BeaconStep)
        ensures
            r == BeaconStep::NoContact <==> elapsed_ms >= BEACON_TIMEOUT_MS,
            r == BeaconStep::SendProbe <==> (elapsed_ms < BEACON_TIMEOUT_MS && since_probe_ms
                >= self.interval_ms),
            r == BeaconStep::Wait <==> (elapsed_ms < BEACON_TIMEOUT_MS && since_probe_ms
                < self.interval_ms),
    {
        if elapsed_ms >= BEACON_TIMEOUT_MS {
            BeaconStep::NoContact
        } else if since_probe_ms >= self.interval_ms {
            BeaconStep::SendProbe
        } else {
            BeaconStep::Wait
        }
    }
}

} // verus!
