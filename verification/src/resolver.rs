//! The peer resolver: connections that have begun but not finished the
//! join handshake.
//!
//! Each in-flight connection is an independent state machine.  The
//! embedding program opens the socket, writes the machine's hello
//! frame, and feeds received bytes in; the machine parses the remote
//! handshake frame, checks the protocol version and the network-key
//! proof, and either resolves with the remote presence and frontier or
//! fails.  A failed machine is dropped with no retry; callers decide
//! whether to attempt a fresh connection.

use vstd::prelude::*;
use crate::types::{PeerId, NetworkKey, PeerPresence, PresenceV, clone_id, ids_equal, PEER_ID_LEN};
use crate::transition::{TransitionKey, digest_of, key_digest};
use crate::wire::{
    Handshake, HandshakeV, enc_handshake, dec_handshake, encode_handshake, decode_handshake,
    frame_payload, try_frame, lemma_hs_frame_fits,
};
use crate::bytes_codec::{KEY_LEN, MAX_ITEMS, dec_bytes, copy_range};

verus! {

/// What one feeding of received bytes produced.
pub ghost enum HsStepV {
    /// The first frame is still incomplete.
    Pending,
    /// The frame arrived but was malformed, of another version, or
    /// carried a wrong key proof: the connection is failed.
    Rejected,
    /// The handshake was accepted; the presence, the remote frontier,
    /// and the number of buffered bytes it consumed.
    Accepted(PresenceV, Seq<Seq<u8>>, int),
}

/// The decision taken on a receive buffer `s`: the strict parse of the
/// first frame as a handshake, checked against the expected version and
/// network-key proof.
pub open spec fn hs_step(s: Seq<u8>, version: u8, my_proof: Seq<u8>) -> HsStepV {
    match dec_bytes(s, 0) {
        None => HsStepV::Pending,
        Some((payload, used)) => match dec_handshake(payload) {
            Some(h) => {
                if h.version == version && h.key_proof == my_proof && h.presence.id.len()
                    == PEER_ID_LEN {
                    HsStepV::Accepted(h.presence, h.tips, used)
                } else {
                    HsStepV::Rejected
                }
            },
            None => HsStepV::Rejected,
        },
    }
}

/// One in-flight handshake.
pub struct PendingPeer {
    /// Protocol version this node speaks.
    pub version: u8,
    /// Digest of the network key; the remote must present the same.
    pub my_proof: Vec<u8>,
    /// The identity this connection is expected to reach, when it was
    /// opened towards a known peer.
    pub expect: Option<PeerId>,
    /// Received bytes not yet consumed.
    pub buf: Vec<u8>,
    /// The frame to write first: this node's own handshake.
    pub hello: Vec<u8>,
    /// The handshake was rejected; the connection is to be torn down.
    pub failed: bool,
}

impl PendingPeer {
    /// Begin a handshake: compute the network-key proof and the hello
    /// frame carrying this node's presence and frontier.
    pub fn new(
        version: u8,
        key: &NetworkKey,
        myself: &PeerPresence,
        tips: Vec<TransitionKey>,
        expect: Option<PeerId>,
    ) -> (r: PendingPeer)
        requires
            myself@.id.len() == PEER_ID_LEN,
            tips@.len() <= MAX_ITEMS,
            forall|i: int| 0 <= i < tips@.len() ==> (#[trigger] tips@[i])@.len() == KEY_LEN,
        ensures
            r.version == version,
            r.my_proof@ == digest_of(key@),
            (match (r.expect, expect) {
                (Some(a), Some(b)) => a@ == b@,
                (None, None) => true,
                _ => false,
            }),
            r.buf@ == Seq::<u8>::empty(),
            r.hello@ == crate::bytes_codec::enc_bytes(
                enc_handshake(
                    HandshakeV {
                        version,
                        key_proof: digest_of(key@),
                        presence: myself@.cleared_v(),
                        tips: tips@.map_values(|k: TransitionKey| k@),
                    },
                ),
            ),
            !r.failed,
    {
        let my_proof = key_digest(key);
        let hs = Handshake {
            version,
            key_proof: clone_id(&my_proof),
            presence: myself.cleared(),
            tips,
        };
        proof {
            assert(hs@.wire_wf());
        }
        let payload = encode_handshake(&hs);
        proof {
            lemma_hs_frame_fits(hs@);
        }
        let hello = frame_payload(&payload);
        PendingPeer { version, my_proof, expect, buf: Vec::new(), hello, failed: false }
    }

    /// Feed received bytes and try to finish the handshake.  The
    /// outcome follows [`hs_step`] on the extended buffer: on
    /// acceptance the consumed frame leaves the buffer and the rest
    /// stays for the packet stream; on rejection the machine fails.
    pub fn on_data(&mut self, chunk: &Vec<u8>) -> (r: Option<(PeerPresence, Vec<TransitionKey>)>)
        requires
            !old(self).failed,
        ensures
            final(self).version == old(self).version,
            final(self).my_proof@ == old(self).my_proof@,
            final(self).expect == old(self).expect,
            final(self).hello@ == old(self).hello@,
            (match hs_step(old(self).buf@ + chunk@, old(self).version, old(self).my_proof@) {
                HsStepV::Pending => {
                    &&& r is None
                    &&& !final(self).failed
                    &&& final(self).buf@ == old(self).buf@ + chunk@
                },
                HsStepV::Rejected => {
                    &&& r is None
                    &&& final(self).failed
                },
                HsStepV::Accepted(p, tips, used) => {
                    &&& !final(self).failed
                    &&& final(self).buf@ == (old(self).buf@ + chunk@).skip(used)
                    &&& (match r {
                        Some((rp, rt)) => rp@ == p && rt@.map_values(|k: TransitionKey| k@)
                            == tips,
                        None => false,
                    })
                },
            }),
    {
        let mut data = clone_id(&self.buf);
        let mut i: usize = 0;
        while i < chunk.len()
            invariant
                i <= chunk@.len(),
                data@ == self.buf@ + chunk@.subrange(0, i as int),
            decreases chunk@.len() - i,
        {
            data.push(chunk[i]);
            i = i + 1;
            proof {
                assert(data@ =~= self.buf@ + chunk@.subrange(0, i as int));
            }
        }
        proof {
            assert(self.buf@ + chunk@.subrange(0, chunk@.len() as int) =~= self.buf@ + chunk@);
        }
        match try_frame(&data) {
            None => {
                self.buf = data;
                None
            },
            Some((payload, used)) => {
                match decode_handshake(&payload) {
                    Some(h) => {
                        if h.version == self.version && ids_equal(
                            h.key_proof.as_slice(),
                            self.my_proof.as_slice(),
                        ) && h.presence.id.len() == PEER_ID_LEN {
                            let rest = copy_range(&data, used, data.len());
                            proof {
                                assert(rest@ =~= (old(self).buf@ + chunk@).skip(used as int));
                            }
                            self.buf = rest;
                            Some((h.presence, h.tips))
                        } else {
                            self.failed = true;
                            None
                        }
                    },
                    None => {
                        self.failed = true;
                        None
                    },
                }
            },
        }
    }
}

/// The set of in-flight handshakes, polled together.
pub struct ResolvePeers {
    pub pending: Vec<PendingPeer>,
}

impl ResolvePeers {
    /// Start with a given set of machines (the initial contact, if
    /// any).
    pub fn new(peers: Vec<PendingPeer>) -> (r: ResolvePeers)
        ensures
            r.pending@ == peers@,
    {
        ResolvePeers { pending: peers }
    }

    /// Track one more in-flight handshake; returns its index.
    pub fn add_peer(&mut self, p: PendingPeer) -> (r: usize)
        ensures
            r == old(self).pending@.len(),
            final(self).pending@ == old(self).pending@.push(p),
    {
        let n = self.pending.len();
        self.pending.push(p);
        n
    }

    /// Is a connection to this identity already in flight?  Used to
    /// avoid opening duplicate connections to a peer being resolved.
    pub fn has_peer(&self, id: &PeerId) -> (r: bool)
        ensures
            r == exists|i: int|
                0 <= i < self.pending@.len() && (match (#[trigger] self.pending@[i]).expect {
                    Some(e) => e@ == id@,
                    None => false,
                }),
    {
        let mut i: usize = 0;
        while i < self.pending.len()
            invariant
                i <= self.pending@.len(),
                forall|q: int|
                    0 <= q < i ==> (match (#[trigger] self.pending@[q]).expect {
                        Some(e) => e@ != id@,
                        None => true,
                    }),
            decreases self.pending@.len() - i,
        {
            match &self.pending[i].expect {
                Some(e) => {
                    if ids_equal(e.as_slice(), id.as_slice()) {
                        return true;
                    }
                },
                None => {},
            }
            i = i + 1;
        }
        false
    }

    /// Feed received bytes to the machine at `idx`.
    pub fn on_conn_data(&mut self, idx: usize, chunk: &Vec<u8>) -> (r: Option<
        (PeerPresence, Vec<TransitionKey>),
    >)
        requires
            idx < old(self).pending@.len(),
            !old(self).pending@[idx as int].failed,
        ensures
            final(self).pending@.len() == old(self).pending@.len(),
            forall|q: int|
                0 <= q < old(self).pending@.len() && q != idx ==> final(self).pending@[q] == (
                #[trigger] old(self).pending@[q]),
            final(self).pending@[idx as int].expect == old(self).pending@[idx as int].expect,
            (match hs_step(
                old(self).pending@[idx as int].buf@ + chunk@,
                old(self).pending@[idx as int].version,
                old(self).pending@[idx as int].my_proof@,
            ) {
                HsStepV::Pending => r is None && !final(self).pending@[idx as int].failed,
                HsStepV::Rejected => r is None && final(self).pending@[idx as int].failed,
                HsStepV::Accepted(p, tips, used) => {
                    &&& !final(self).pending@[idx as int].failed
                    &&& final(self).pending@[idx as int].buf@ == (old(
                        self,
                    ).pending@[idx as int].buf@ + chunk@).skip(used)
                    &&& (match r {
                        Some((rp, rt)) => rp@ == p && rt@.map_values(|k: TransitionKey| k@)
                            == tips,
                        None => false,
                    })
                },
            }),
    {
        self.pending[idx].on_data(chunk)
    }

    /// Drop the machine at `idx` (resolved and handed on, or failed).
    pub fn remove(&mut self, idx: usize)
        requires
            idx < old(self).pending@.len(),
        ensures
            final(self).pending@ == old(self).pending@.remove(idx as int),
    {
        self.pending.remove(idx);
    }

    /// How many handshakes are in flight.
    pub fn len(&self) -> (r: usize)
        ensures
            r == self.pending@.len(),
    {
        self.pending.len()
    }
}

} // verus!
