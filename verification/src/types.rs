//! Common identifiers and peer bookkeeping types.

use vstd::prelude::*;

verus! {

/// Identification of a peer: the 32-byte public verification key that
/// signs the peer's messages.  Used as the map key wherever peers are
/// tracked.
pub type PeerId = Vec<u8>;

/// Shared credential proving membership in the same logical network.
/// Only a digest of it ever crosses the wire.
pub type NetworkKey = Vec<u8>;

/// Number of bytes in a peer identifier.
pub const PEER_ID_LEN: usize = 32;

/// An IPv4 socket address as plain values: the four address bytes packed
/// big-endian into `ip`, and the port.  The embedding program converts
/// from and to the operating system's address type.
#[derive(Clone, Copy, Debug, PartialEq, Eq, Structural)]
pub struct Addr {
    pub ip: u32,
    pub port: u16,
}

/// What a node knows about a peer's reachability.
///
/// `writer` is the local outbound multiplexer slot; it is meaningful only
/// on this node and is cleared before the presence is gossiped onward.
#[derive(Clone, Debug)]
pub struct PeerPresence {
    pub id: PeerId,
    pub addr: Addr,
    pub writer: Option<usize>,
}

/// Mathematical image of a [`PeerPresence`].
#[verifier::ext_equal]
pub ghost struct PresenceV {
    pub id: Seq<u8>,
    pub addr: Addr,
    pub writer: Option<usize>,
}

impl View for PeerPresence {
    type V = PresenceV;

    open spec fn view(&self) -> PresenceV {
        PresenceV { id: self.id@, addr: self.addr, writer: self.writer }
    }
}

impl PeerPresence {
    /// A presence is well formed when its identifier has the fixed key
    /// length the wire format expects.
    pub open spec fn wf(self) -> bool {
        self.id@.len() == PEER_ID_LEN
    }

    /// Build a presence from its parts.
    pub fn new(id: PeerId, addr: Addr, writer: Option<usize>) -> (r: PeerPresence)
        ensures
            r@.id == id@,
            r@.addr == addr,
            r@.writer == writer,
    {
        PeerPresence { id, addr, writer }
    }

    /// A copy equal to `self` in every field.
    pub fn duplicate(&self) -> (r: PeerPresence)
        ensures
            r@ == self@,
    {
        PeerPresence { id: clone_id(&self.id), addr: self.addr, writer: self.writer }
    }

    /// The same presence with the local-only multiplexer slot cleared,
    /// as it must be before being sent to another peer.
    pub fn cleared(&self) -> (r: PeerPresence)
        ensures
            r@.id == self@.id,
            r@.addr == self@.addr,
            r@.writer is None,
    {
        PeerPresence { id: clone_id(&self.id), addr: self.addr, writer: None }
    }
}

impl PresenceV {
    /// The presence as it stands on the wire: slot cleared.
    pub open spec fn cleared_v(self) -> PresenceV {
        PresenceV { id: self.id, addr: self.addr, writer: None }
    }
}

/// Destination of an outbound packet: the whole peer book, or one peer.
pub enum SpreadTo {
    Everyone,
    Peer(PeerId),
}

/// Copy a peer identifier.
pub fn clone_id(id: &PeerId) -> (r: PeerId)
    ensures
        r@ == id@,
{
    let mut out: Vec<u8> = Vec::new();
    let mut i: usize = 0;
    while i < id.len()
        invariant
            i <= id.len(),
            out@ == id@.subrange(0, i as int),
        decreases id.len() - i,
    {
        out.push(id[i]);
        i = i + 1;
        proof {
            assert(out@ =~= id@.subrange(0, i as int));
        }
    }
    proof {
        assert(out@ =~= id@);
    }
    out
}

/// Byte-for-byte equality of two identifiers.
pub fn ids_equal(a: &[u8], b: &[u8]) -> (r: bool)
    ensures
        r == (a@ == b@),
{
    if a.len() != b.len() {
        proof {
            assert(a@.len() != b@.len());
        }
        return false;
    }
    let mut i: usize = 0;
    while i < a.len()
        invariant
            i <= a.len(),
            a@.len() == b@.len(),
            forall|j: int| 0 <= j < i ==> a@[j] == b@[j],
        decreases a.len() - i,
    {
        if a[i] != b[i] {
            return false;
        }
        i = i + 1;
    }
    proof {
        assert(a@ =~= b@);
    }
    true
}

} // verus!
