//! The wire protocol: packet union, handshake message, and their codec.
//!
//! A connection carries length-prefixed frames; each frame holds one
//! encoded [`Packet`] (after the handshake) or one [`Handshake`] (as the
//! first frame in each direction).  The codec is strict: a decoder
//! accepts exactly the encodings its encoder produces, and decoding an
//! encoded value yields the value back (proved in
//! [`lemma_packet_round_trip`]).

use vstd::prelude::*;
use crate::types::{PeerPresence, PresenceV, Addr, clone_id, PEER_ID_LEN};
use crate::transition::{
    Transition, TransitionV, TransitionKey, enc_keys, dec_keys, lemma_dec_keys, lemma_enc_keys_len,
    enc_keys_vec, dec_keys_vec,
};
use crate::bytes_codec::{
    KEY_LEN, MAX_FIELD, MAX_ITEMS, MAX_BLOB, enc_u16, enc_u32, enc_bytes, dec_u16, dec_u32,
    dec_bytes, dec_key,
    lemma_dec_u16, lemma_dec_u32, lemma_dec_bytes, lemma_dec_key, lemma_split_at, enc_u16_vec,
    enc_u32_vec, enc_bytes_vec, append_vec, dec_u16_vec, dec_u32_vec, dec_bytes_vec, dec_key_vec,
};

verus! {

/// The cross-process message union.
#[derive(Debug)]
pub enum Packet {
    /// `None`: a request for the peer book; `Some`: the reply.
    GetPeers(Option<Vec<PeerPresence>>),
    /// Dissemination of one transition.
    Push(Transition),
    /// A file request (`None`) or delivery (`Some`).
    File(Vec<u8>, Option<Vec<u8>>),
    /// Orderly disconnect.
    Close,
}

/// Mathematical image of a [`Packet`].
#[verifier::ext_equal]
pub ghost enum PacketV {
    GetPeers(Option<Seq<PresenceV>>),
    Push(TransitionV),
    File(Seq<u8>, Option<Seq<u8>>),
    Close,
}

impl View for Packet {
    type V = PacketV;

    open spec fn view(&self) -> PacketV {
        match self {
            Packet::GetPeers(None) => PacketV::GetPeers(None),
            Packet::GetPeers(Some(ps)) => PacketV::GetPeers(
                Some(ps@.map_values(|p: PeerPresence| p@)),
            ),
            Packet::Push(t) => PacketV::Push(t@),
            Packet::File(id, None) => PacketV::File(id@, None),
            Packet::File(id, Some(d)) => PacketV::File(id@, Some(d@)),
            Packet::Close => PacketV::Close,
        }
    }
}

/// The first message of a connection in each direction: protocol
/// version, a digest proving knowledge of the network key, the sender's
/// presence, and the sender's DAG frontier.
#[derive(Debug)]
pub struct Handshake {
    pub version: u8,
    pub key_proof: Vec<u8>,
    pub presence: PeerPresence,
    pub tips: Vec<TransitionKey>,
}

/// Mathematical image of a [`Handshake`].
#[verifier::ext_equal]
pub ghost struct HandshakeV {
    pub version: u8,
    pub key_proof: Seq<u8>,
    pub presence: PresenceV,
    pub tips: Seq<Seq<u8>>,
}

impl View for Handshake {
    type V = HandshakeV;

    open spec fn view(&self) -> HandshakeV {
        HandshakeV {
            version: self.version,
            key_proof: self.key_proof@,
            presence: self.presence@,
            tips: self.tips@.map_values(|k: TransitionKey| k@),
        }
    }
}

// ---------------------------------------------------------------------
// what the wire can carry

impl PresenceV {
    /// A presence as it is sent: full-length identifier, slot cleared.
    pub open spec fn wire_wf(self) -> bool {
        &&& self.id.len() == PEER_ID_LEN
        &&& self.writer is None
    }
}

impl PacketV {
    /// Field bounds under which a packet has an encoding, and the
    /// local-only fields are cleared.
    pub open spec fn wire_wf(self) -> bool {
        match self {
            PacketV::GetPeers(None) => true,
            PacketV::GetPeers(Some(ps)) => {
                &&& ps.len() <= MAX_ITEMS
                &&& forall|i: int| 0 <= i < ps.len() ==> (#[trigger] ps[i]).wire_wf()
            },
            PacketV::Push(t) => t.wf(),
            PacketV::File(id, None) => id.len() <= MAX_BLOB,
            PacketV::File(id, Some(d)) => id.len() <= MAX_BLOB && d.len() <= MAX_BLOB,
            PacketV::Close => true,
        }
    }
}

impl HandshakeV {
    /// Field bounds under which a handshake has an encoding.
    pub open spec fn wire_wf(self) -> bool {
        &&& self.key_proof.len() == KEY_LEN
        &&& self.presence.wire_wf()
        &&& self.tips.len() <= MAX_ITEMS
        &&& forall|i: int| 0 <= i < self.tips.len() ==> (#[trigger] self.tips[i]).len() == KEY_LEN
    }
}

// ---------------------------------------------------------------------
// spec encoders

pub open spec fn enc_presence(p: PresenceV) -> Seq<u8> {
    enc_bytes(p.id) + enc_u32(p.addr.ip) + enc_u16(p.addr.port)
}

pub open spec fn enc_presences(ps: Seq<PresenceV>) -> Seq<u8>
    decreases ps.len(),
{
    if ps.len() == 0 {
        Seq::empty()
    } else {
        enc_presence(ps[0]) + enc_presences(ps.skip(1))
    }
}

pub open spec fn enc_transition(t: TransitionV) -> Seq<u8> {
    enc_bytes(t.author) + enc_u32(t.parents.len() as u32) + enc_keys(t.parents) + enc_bytes(t.body)
        + t.key
}

pub open spec fn enc_packet(p: PacketV) -> Seq<u8> {
    match p {
        PacketV::GetPeers(None) => seq![0u8],
        PacketV::GetPeers(Some(ps)) => seq![1u8] + enc_u32(ps.len() as u32) + enc_presences(ps),
        PacketV::Push(t) => seq![2u8] + enc_transition(t),
        PacketV::File(id, None) => seq![3u8] + enc_bytes(id),
        PacketV::File(id, Some(d)) => seq![4u8] + enc_bytes(id) + enc_bytes(d),
        PacketV::Close => seq![5u8],
    }
}

pub open spec fn enc_handshake(h: HandshakeV) -> Seq<u8> {
    seq![h.version] + enc_bytes(h.key_proof) + enc_presence(h.presence) + enc_u32(
        h.tips.len() as u32,
    ) + enc_keys(h.tips)
}

// ---------------------------------------------------------------------
// spec decoders

pub open spec fn dec_presence(s: Seq<u8>, i: int) -> Option<(PresenceV, int)> {
    match dec_bytes(s, i) {
        Some((id, j)) => match dec_u32(s, j) {
            Some((ip, j2)) => match dec_u16(s, j2) {
                Some((port, j3)) => Some(
                    (PresenceV { id, addr: Addr { ip, port }, writer: None }, j3),
                ),
                None => None,
            },
            None => None,
        },
        None => None,
    }
}

pub open spec fn dec_presences(s: Seq<u8>, i: int, n: nat) -> Option<(Seq<PresenceV>, int)>
    decreases n,
{
    if n == 0 {
        Some((Seq::empty(), i))
    } else {
        match dec_presence(s, i) {
            Some((p, j)) => match dec_presences(s, j, (n - 1) as nat) {
                Some((ps, e)) => Some((seq![p] + ps, e)),
                None => None,
            },
            None => None,
        }
    }
}

pub open spec fn dec_transition(s: Seq<u8>, i: int) -> Option<(TransitionV, int)> {
    match dec_bytes(s, i) {
        Some((author, j)) => match dec_u32(s, j) {
            Some((n, j2)) => match dec_keys(s, j2, n as nat) {
                Some((parents, j3)) => match dec_bytes(s, j3) {
                    Some((body, j4)) => match dec_key(s, j4) {
                        Some((key, j5)) => Some(
                            (TransitionV { author, parents, body, key }, j5),
                        ),
                        None => None,
                    },
                    None => None,
                },
                None => None,
            },
            None => None,
        },
        None => None,
    }
}

/// Decode a whole buffer as one packet; every byte must be consumed.
pub open spec fn dec_packet(s: Seq<u8>) -> Option<PacketV> {
    if s.len() < 1 {
        None
    } else if s[0] == 0 {
        if s.len() == 1 {
            Some(PacketV::GetPeers(None))
        } else {
            None
        }
    } else if s[0] == 1 {
        match dec_u32(s, 1) {
            Some((n, j)) => match dec_presences(s, j, n as nat) {
                Some((ps, e)) => if e == s.len() {
                    Some(PacketV::GetPeers(Some(ps)))
                } else {
                    None
                },
                None => None,
            },
            None => None,
        }
    } else if s[0] == 2 {
        match dec_transition(s, 1) {
            Some((t, e)) => if e == s.len() {
                Some(PacketV::Push(t))
            } else {
                None
            },
            None => None,
        }
    } else if s[0] == 3 {
        match dec_bytes(s, 1) {
            Some((id, e)) => if e == s.len() {
                Some(PacketV::File(id, None))
            } else {
                None
            },
            None => None,
        }
    } else if s[0] == 4 {
        match dec_bytes(s, 1) {
            Some((id, j)) => match dec_bytes(s, j) {
                Some((d, e)) => if e == s.len() {
                    Some(PacketV::File(id, Some(d)))
                } else {
                    None
                },
                None => None,
            },
            None => None,
        }
    } else if s[0] == 5 {
        if s.len() == 1 {
            Some(PacketV::Close)
        } else {
            None
        }
    } else {
        None
    }
}

/// Decode a whole buffer as one handshake; every byte must be consumed.
pub open spec fn dec_handshake(s: Seq<u8>) -> Option<HandshakeV> {
    if s.len() < 1 {
        None
    } else {
        match dec_bytes(s, 1) {
            Some((key_proof, j)) => match dec_presence(s, j) {
                Some((presence, j2)) => match dec_u32(s, j2) {
                    Some((n, j3)) => match dec_keys(s, j3, n as nat) {
                        Some((tips, e)) => if e == s.len() {
                            Some(HandshakeV { version: s[0], key_proof, presence, tips })
                        } else {
                            None
                        },
                        None => None,
                    },
                    None => None,
                },
                None => None,
            },
            None => None,
        }
    }
}

// ---------------------------------------------------------------------
// round-trip lemmas

/// Reading a presence back gives the presence encoded.
pub proof fn lemma_dec_presence(s: Seq<u8>, i: int, p: PresenceV)
    requires
        0 <= i,
        p.wire_wf(),
        i + enc_presence(p).len() <= s.len(),
        s.subrange(i, i + enc_presence(p).len()) == enc_presence(p),
    ensures
        dec_presence(s, i) == Some((p, i + enc_presence(p).len())),
{
    let a = enc_bytes(p.id);
    let b = enc_u32(p.addr.ip);
    let c = enc_u16(p.addr.port);
    assert(enc_presence(p) =~= a + (b + c));
    lemma_split_at(s, i, a, b + c);
    lemma_dec_bytes(s, i, p.id);
    let j = i + a.len();
    lemma_split_at(s, j, b, c);
    lemma_dec_u32(s, j, p.addr.ip);
    let j2 = j + b.len();
    lemma_dec_u16(s, j2, p.addr.port);
    assert(PresenceV { id: p.id, addr: Addr { ip: p.addr.ip, port: p.addr.port }, writer: None }
        == p);
}

/// Length of a presence-list encoding grows with each element.
pub proof fn lemma_dec_presences(s: Seq<u8>, i: int, ps: Seq<PresenceV>)
    requires
        0 <= i,
        forall|t: int| 0 <= t < ps.len() ==> (#[trigger] ps[t]).wire_wf(),
        i + enc_presences(ps).len() <= s.len(),
        s.subrange(i, i + enc_presences(ps).len()) == enc_presences(ps),
    ensures
        dec_presences(s, i, ps.len()) == Some((ps, i + enc_presences(ps).len())),
    decreases ps.len(),
{
    if ps.len() == 0 {
        assert(ps =~= Seq::<PresenceV>::empty());
    } else {
        let p0 = ps[0];
        let rest = ps.skip(1);
        assert(enc_presences(ps) == enc_presence(p0) + enc_presences(rest));
        lemma_split_at(s, i, enc_presence(p0), enc_presences(rest));
        lemma_dec_presence(s, i, p0);
        let j = i + enc_presence(p0).len();
        lemma_dec_presences(s, j, rest);
        assert(seq![p0] + rest =~= ps);
    }
}

/// Reading a transition back gives the transition encoded.
pub proof fn lemma_dec_transition(s: Seq<u8>, i: int, t: TransitionV)
    requires
        0 <= i,
        t.wf(),
        i + enc_transition(t).len() <= s.len(),
        s.subrange(i, i + enc_transition(t).len()) == enc_transition(t),
    ensures
        dec_transition(s, i) == Some((t, i + enc_transition(t).len())),
{
    let a = enc_bytes(t.author);
    let n = t.parents.len() as u32;
    let b = enc_u32(n);
    let c = enc_keys(t.parents);
    let d = enc_bytes(t.body);
    let e = t.key;
    lemma_enc_keys_len(t.parents);
    assert(enc_transition(t) =~= a + (b + (c + (d + e))));
    lemma_split_at(s, i, a, b + (c + (d + e)));
    lemma_dec_bytes(s, i, t.author);
    let j = i + a.len();
    lemma_split_at(s, j, b, c + (d + e));
    lemma_dec_u32(s, j, n);
    let j2 = j + 4;
    lemma_split_at(s, j2, c, d + e);
    assert(n as nat == t.parents.len());
    lemma_dec_keys(s, j2, t.parents);
    let j3 = j2 + c.len();
    assert(c.len() == KEY_LEN * t.parents.len());
    lemma_split_at(s, j3, d, e);
    lemma_dec_bytes(s, j3, t.body);
    let j4 = j3 + d.len();
    lemma_dec_key(s, j4, t.key);
    assert(TransitionV { author: t.author, parents: t.parents, body: t.body, key: t.key } == t);
}

/// One case of the packet round trip: a peer-list reply.
proof fn lemma_rt_get_peers_some(ps: Seq<PresenceV>)
    requires
        ps.len() <= MAX_FIELD,
        forall|i: int| 0 <= i < ps.len() ==> (#[trigger] ps[i]).wire_wf(),
    ensures
        dec_packet(enc_packet(PacketV::GetPeers(Some(ps)))) == Some(PacketV::GetPeers(Some(ps))),
{
    let s = enc_packet(PacketV::GetPeers(Some(ps)));
    let n = ps.len() as u32;
    assert(s =~= seq![1u8] + (enc_u32(n) + enc_presences(ps)));
    assert(s.subrange(0, s.len() as int) =~= s);
    lemma_split_at(s, 0, seq![1u8], enc_u32(n) + enc_presences(ps));
    lemma_split_at(s, 1, enc_u32(n), enc_presences(ps));
    lemma_dec_u32(s, 1, n);
    lemma_dec_presences(s, 5, ps);
    assert(s[0] == 1);
}

/// One case of the packet round trip: a transition push.
proof fn lemma_rt_push(t: TransitionV)
    requires
        t.wf(),
    ensures
        dec_packet(enc_packet(PacketV::Push(t))) == Some(PacketV::Push(t)),
{
    let s = enc_packet(PacketV::Push(t));
    assert(s =~= seq![2u8] + enc_transition(t));
    assert(s.subrange(0, s.len() as int) =~= s);
    lemma_split_at(s, 0, seq![2u8], enc_transition(t));
    lemma_dec_transition(s, 1, t);
    assert(s[0] == 2);
}

/// One case of the packet round trip: a file request.
proof fn lemma_rt_file_none(id: Seq<u8>)
    requires
        id.len() <= MAX_FIELD,
    ensures
        dec_packet(enc_packet(PacketV::File(id, None))) == Some(PacketV::File(id, None)),
{
    let s = enc_packet(PacketV::File(id, None));
    assert(s =~= seq![3u8] + enc_bytes(id));
    assert(s.subrange(0, s.len() as int) =~= s);
    lemma_split_at(s, 0, seq![3u8], enc_bytes(id));
    lemma_dec_bytes(s, 1, id);
    assert(s[0] == 3);
}

/// One case of the packet round trip: a file delivery.
proof fn lemma_rt_file_some(id: Seq<u8>, d: Seq<u8>)
    requires
        id.len() <= MAX_FIELD,
        d.len() <= MAX_FIELD,
    ensures
        dec_packet(enc_packet(PacketV::File(id, Some(d)))) == Some(PacketV::File(id, Some(d))),
{
    let s = enc_packet(PacketV::File(id, Some(d)));
    assert(s =~= seq![4u8] + (enc_bytes(id) + enc_bytes(d)));
    assert(s.subrange(0, s.len() as int) =~= s);
    lemma_split_at(s, 0, seq![4u8], enc_bytes(id) + enc_bytes(d));
    lemma_split_at(s, 1, enc_bytes(id), enc_bytes(d));
    lemma_dec_bytes(s, 1, id);
    lemma_dec_bytes(s, 1 + enc_bytes(id).len() as int, d);
    assert(s[0] == 4);
}

/// Decoding an encoded packet yields the packet back, for every packet
/// the wire can carry.
pub proof fn lemma_packet_round_trip(p: PacketV)
    requires
        p.wire_wf(),
    ensures
        dec_packet(enc_packet(p)) == Some(p),
{
    match p {
        PacketV::GetPeers(None) => {
            assert(enc_packet(p).len() == 1 && enc_packet(p)[0] == 0);
        },
        PacketV::GetPeers(Some(ps)) => {
            lemma_rt_get_peers_some(ps);
        },
        PacketV::Push(t) => {
            lemma_rt_push(t);
        },
        PacketV::File(id, None) => {
            lemma_rt_file_none(id);
        },
        PacketV::File(id, Some(d)) => {
            lemma_rt_file_some(id, d);
        },
        PacketV::Close => {
            assert(enc_packet(p).len() == 1 && enc_packet(p)[0] == 5);
        },
    }
}

/// Decoding an encoded handshake yields the handshake back.
#[verifier::rlimit(80)]
#[verifier::spinoff_prover]
pub proof fn lemma_handshake_round_trip(h: HandshakeV)
    requires
        h.wire_wf(),
    ensures
        dec_handshake(enc_handshake(h)) == Some(h),
{
    let s = enc_handshake(h);
    let a = enc_bytes(h.key_proof);
    let b = enc_presence(h.presence);
    let n = h.tips.len() as u32;
    let c = enc_u32(n);
    let d = enc_keys(h.tips);
    lemma_enc_keys_len(h.tips);
    assert(s =~= seq![h.version] + (a + (b + (c + d))));
    assert(s.subrange(0, s.len() as int) =~= s);
    lemma_split_at(s, 0, seq![h.version], a + (b + (c + d)));
    lemma_split_at(s, 1, a, b + (c + d));
    lemma_dec_bytes(s, 1, h.key_proof);
    let j: int = 1 + a.len() as int;
    lemma_split_at(s, j, b, c + d);
    lemma_dec_presence(s, j, h.presence);
    let j2 = j + b.len();
    lemma_split_at(s, j2, c, d);
    lemma_dec_u32(s, j2, n);
    let j3 = j2 + 4;
    assert(n as nat == h.tips.len());
    lemma_dec_keys(s, j3, h.tips);
    assert(s[0] == h.version);
    assert(HandshakeV { version: s[0], key_proof: h.key_proof, presence: h.presence, tips: h.tips }
        == h);
}

// ---------------------------------------------------------------------
// executable encoders

/// Appending one presence extends the concatenation by its encoding.
pub proof fn lemma_enc_presences_push(ps: Seq<PresenceV>, p: PresenceV)
    ensures
        enc_presences(ps.push(p)) == enc_presences(ps) + enc_presence(p),
    decreases ps.len(),
{
    if ps.len() == 0 {
        assert(ps.push(p)[0] == p);
        assert(ps.push(p).skip(1) =~= Seq::<PresenceV>::empty());
        assert(enc_presences(Seq::<PresenceV>::empty()) == Seq::<u8>::empty());
        assert(enc_presences(ps.push(p)) == enc_presence(p) + Seq::<u8>::empty());
        assert(enc_presences(ps.push(p)) =~= enc_presences(ps) + enc_presence(p));
    } else {
        assert(ps.push(p).skip(1) =~= ps.skip(1).push(p));
        lemma_enc_presences_push(ps.skip(1), p);
        assert(enc_presences(ps.push(p)) =~= enc_presences(ps) + enc_presence(p));
    }
}

/// Append the encoding of one presence (the slot is never written).
pub fn encode_presence_vec(out: &mut Vec<u8>, p: &PeerPresence)
    requires
        p@.id.len() <= MAX_FIELD,
    ensures
        final(out)@ == old(out)@ + enc_presence(p@),
{
    enc_bytes_vec(out, &p.id);
    enc_u32_vec(out, p.addr.ip);
    enc_u16_vec(out, p.addr.port);
    proof {
        assert(out@ =~= old(out)@ + enc_presence(p@));
    }
}

/// Encode one packet as the payload of a frame.
pub fn encode_packet(p: &Packet) -> (r: Vec<u8>)
    requires
        p@.wire_wf(),
    ensures
        r@ == enc_packet(p@),
{
    let mut out: Vec<u8> = Vec::new();
    match p {
        Packet::GetPeers(None) => {
            out.push(0u8);
            proof {
                assert(out@ =~= enc_packet(p@));
            }
        },
        Packet::GetPeers(Some(ps)) => {
            let ghost pv = ps@.map_values(|q: PeerPresence| q@);
            out.push(1u8);
            enc_u32_vec(&mut out, ps.len() as u32);
            let mut i: usize = 0;
            proof {
                assert(out@ =~= seq![1u8] + enc_u32(pv.len() as u32) + enc_presences(
                    pv.subrange(0, 0),
                ));
            }
            while i < ps.len()
                invariant
                    i <= ps.len(),
                    pv == ps@.map_values(|q: PeerPresence| q@),
                    forall|t: int| 0 <= t < pv.len() ==> (#[trigger] pv[t]).wire_wf(),
                    out@ == seq![1u8] + enc_u32(pv.len() as u32) + enc_presences(
                        pv.subrange(0, i as int),
                    ),
                decreases ps.len() - i,
            {
                proof {
                    assert(pv[i as int].wire_wf());
                    assert(ps@[i as int]@ == pv[i as int]);
                }
                encode_presence_vec(&mut out, &ps[i]);
                i = i + 1;
                proof {
                    assert(pv.subrange(0, i as int) =~= pv.subrange(0, i - 1).push(pv[i - 1]));
                    lemma_enc_presences_push(pv.subrange(0, i - 1), pv[i - 1]);
                    assert(out@ =~= seq![1u8] + enc_u32(pv.len() as u32) + enc_presences(
                        pv.subrange(0, i as int),
                    ));
                }
            }
            proof {
                assert(pv.subrange(0, pv.len() as int) =~= pv);
                assert(out@ =~= enc_packet(p@));
            }
        },
        Packet::Push(t) => {
            out.push(2u8);
            enc_bytes_vec(&mut out, &t.author);
            enc_u32_vec(&mut out, t.parents.len() as u32);
            enc_keys_vec(&mut out, &t.parents);
            enc_bytes_vec(&mut out, &t.body);
            append_vec(&mut out, &t.key);
            proof {
                assert(out@ =~= enc_packet(p@));
            }
        },
        Packet::File(id, None) => {
            out.push(3u8);
            enc_bytes_vec(&mut out, id);
            proof {
                assert(out@ =~= enc_packet(p@));
            }
        },
        Packet::File(id, Some(d)) => {
            out.push(4u8);
            enc_bytes_vec(&mut out, id);
            enc_bytes_vec(&mut out, d);
            proof {
                assert(out@ =~= enc_packet(p@));
            }
        },
        Packet::Close => {
            out.push(5u8);
            proof {
                assert(out@ =~= enc_packet(p@));
            }
        },
    }
    out
}

/// Encode one handshake as the payload of a frame.
pub fn encode_handshake(h: &Handshake) -> (r: Vec<u8>)
    requires
        h@.wire_wf(),
    ensures
        r@ == enc_handshake(h@),
{
    let mut out: Vec<u8> = Vec::new();
    out.push(h.version);
    enc_bytes_vec(&mut out, &h.key_proof);
    encode_presence_vec(&mut out, &h.presence);
    enc_u32_vec(&mut out, h.tips.len() as u32);
    enc_keys_vec(&mut out, &h.tips);
    proof {
        assert(out@ =~= enc_handshake(h@));
    }
    out
}

// ---------------------------------------------------------------------
// executable decoders

/// Read one presence at offset `i`.
pub fn dec_presence_vec(s: &Vec<u8>, i: usize) -> (r: Option<(PeerPresence, usize)>)
    ensures
        match r {
            Some((p, j)) => dec_presence(s@, i as int) == Some((p@, j as int)),
            None => dec_presence(s@, i as int) is None,
        },
{
    match dec_bytes_vec(s, i) {
        Some((id, j)) => match dec_u32_vec(s, j) {
            Some((ip, j2)) => match dec_u16_vec(s, j2) {
                Some((port, j3)) => Some(
                    (PeerPresence { id, addr: Addr { ip, port }, writer: None }, j3),
                ),
                None => None,
            },
            None => None,
        },
        None => None,
    }
}

/// Read `n` presences at offset `i`.
pub fn dec_presences_vec(s: &Vec<u8>, i: usize, n: u32) -> (r: Option<(Vec<PeerPresence>, usize)>)
    ensures
        match r {
            Some((ps, j)) => dec_presences(s@, i as int, n as nat) == Some((
                ps@.map_values(|p: PeerPresence| p@),
                j as int,
            )),
            None => dec_presences(s@, i as int, n as nat) is None,
        },
{
    let mut acc: Vec<PeerPresence> = Vec::new();
    let mut cur: usize = i;
    let mut t: u32 = 0;
    while t < n
        invariant
            t <= n,
            dec_presences(s@, i as int, n as nat) == (match dec_presences(
                s@,
                cur as int,
                (n - t) as nat,
            ) {
                Some((ps, e)) => Some((acc@.map_values(|p: PeerPresence| p@) + ps, e)),
                None => None::<(Seq<PresenceV>, int)>,
            }),
        decreases n - t,
    {
        match dec_presence_vec(s, cur) {
            Some((p, j)) => {
                let ghost av = acc@.map_values(|q: PeerPresence| q@);
                let ghost rem = (n - t - 1) as nat;
                proof {
                    assert(dec_presences(s@, cur as int, (n - t) as nat) == (match dec_presences(
                        s@,
                        j as int,
                        rem,
                    ) {
                        Some((ps, e)) => Some((seq![p@] + ps, e)),
                        None => None::<(Seq<PresenceV>, int)>,
                    }));
                }
                acc.push(p);
                cur = j;
                t = t + 1;
                proof {
                    assert(acc@.map_values(|q: PeerPresence| q@) =~= av.push(p@));
                    match dec_presences(s@, cur as int, (n - t) as nat) {
                        Some((ps, e)) => {
                            assert(av + (seq![p@] + ps) =~= av.push(p@) + ps);
                        },
                        None => {},
                    }
                }
            },
            None => {
                proof {
                    assert(dec_presences(s@, cur as int, (n - t) as nat) is None);
                }
                return None;
            },
        }
    }
    proof {
        assert(dec_presences(s@, cur as int, 0) == Some((Seq::<PresenceV>::empty(), cur as int)));
        assert(acc@.map_values(|p: PeerPresence| p@) + Seq::<PresenceV>::empty()
            =~= acc@.map_values(|p: PeerPresence| p@));
    }
    Some((acc, cur))
}

/// Read one transition at offset `i`.
pub fn dec_transition_vec(s: &Vec<u8>, i: usize) -> (r: Option<(Transition, usize)>)
    ensures
        match r {
            Some((t, j)) => dec_transition(s@, i as int) == Some((t@, j as int)),
            None => dec_transition(s@, i as int) is None,
        },
{
    match dec_bytes_vec(s, i) {
        Some((author, j)) => match dec_u32_vec(s, j) {
            Some((n, j2)) => match dec_keys_vec(s, j2, n) {
                Some((parents, j3)) => match dec_bytes_vec(s, j3) {
                    Some((body, j4)) => match dec_key_vec(s, j4) {
                        Some((key, j5)) => Some((Transition { author, parents, body, key }, j5)),
                        None => None,
                    },
                    None => None,
                },
                None => None,
            },
            None => None,
        },
        None => None,
    }
}

/// Decode a whole frame payload as one packet.
pub fn decode_packet(s: &Vec<u8>) -> (r: Option<Packet>)
    ensures
        match r {
            Some(p) => dec_packet(s@) == Some(p@),
            None => dec_packet(s@) is None,
        },
{
    if s.len() < 1 {
        return None;
    }
    let tag = s[0];
    if tag == 0 {
        if s.len() == 1 {
            Some(Packet::GetPeers(None))
        } else {
            None
        }
    } else if tag == 1 {
        match dec_u32_vec(s, 1) {
            Some((n, j)) => match dec_presences_vec(s, j, n) {
                Some((ps, e)) => {
                    if e == s.len() {
                        Some(Packet::GetPeers(Some(ps)))
                    } else {
                        None
                    }
                },
                None => None,
            },
            None => None,
        }
    } else if tag == 2 {
        match dec_transition_vec(s, 1) {
            Some((t, e)) => {
                if e == s.len() {
                    Some(Packet::Push(t))
                } else {
                    None
                }
            },
            None => None,
        }
    } else if tag == 3 {
        match dec_bytes_vec(s, 1) {
            Some((id, e)) => {
                if e == s.len() {
                    Some(Packet::File(id, None))
                } else {
                    None
                }
            },
            None => None,
        }
    } else if tag == 4 {
        match dec_bytes_vec(s, 1) {
            Some((id, j)) => match dec_bytes_vec(s, j) {
                Some((d, e)) => {
                    if e == s.len() {
                        Some(Packet::File(id, Some(d)))
                    } else {
                        None
                    }
                },
                None => None,
            },
            None => None,
        }
    } else if tag == 5 {
        if s.len() == 1 {
            Some(Packet::Close)
        } else {
            None
        }
    } else {
        None
    }
}

/// Decode a whole frame payload as one handshake.
pub fn decode_handshake(s: &Vec<u8>) -> (r: Option<Handshake>)
    ensures
        match r {
            Some(h) => dec_handshake(s@) == Some(h@),
            None => dec_handshake(s@) is None,
        },
{
    if s.len() < 1 {
        return None;
    }
    let version = s[0];
    match dec_bytes_vec(s, 1) {
        Some((key_proof, j)) => match dec_presence_vec(s, j) {
            Some((presence, j2)) => match dec_u32_vec(s, j2) {
                Some((n, j3)) => match dec_keys_vec(s, j3, n) {
                    Some((tips, e)) => {
                        if e == s.len() {
                            Some(Handshake { version, key_proof, presence, tips })
                        } else {
                            None
                        }
                    },
                    None => None,
                },
                None => None,
            },
            None => None,
        },
        None => None,
    }
}

impl Packet {
    /// A deep copy, equal to `self` in every field.
    pub fn duplicate(&self) -> (r: Packet)
        ensures
            r@ == self@,
    {
        match self {
            Packet::GetPeers(None) => Packet::GetPeers(None),
            Packet::GetPeers(Some(ps)) => {
                let mut out: Vec<PeerPresence> = Vec::new();
                let mut i: usize = 0;
                while i < ps.len()
                    invariant
                        i <= ps@.len(),
                        out@.map_values(|p: PeerPresence| p@) == ps@.map_values(
                            |p: PeerPresence| p@,
                        ).subrange(0, i as int),
                    decreases ps@.len() - i,
                {
                    let ghost before = out@.map_values(|p: PeerPresence| p@);
                    out.push(ps[i].duplicate());
                    i = i + 1;
                    proof {
                        let full = ps@.map_values(|p: PeerPresence| p@);
                        assert(out@.map_values(|p: PeerPresence| p@) =~= before.push(
                            ps@[i - 1]@,
                        ));
                        assert(before.push(full[i - 1]) =~= full.subrange(0, i as int));
                    }
                }
                proof {
                    let full = ps@.map_values(|p: PeerPresence| p@);
                    assert(full.subrange(0, full.len() as int) =~= full);
                }
                Packet::GetPeers(Some(out))
            },
            Packet::Push(t) => Packet::Push(t.duplicate()),
            Packet::File(id, None) => Packet::File(clone_id(id), None),
            Packet::File(id, Some(d)) => Packet::File(clone_id(id), Some(clone_id(d))),
            Packet::Close => Packet::Close,
        }
    }
}

// ---------------------------------------------------------------------
// stream framing

/// Wrap a payload in a length-prefixed frame.
pub fn frame_payload(payload: &Vec<u8>) -> (r: Vec<u8>)
    requires
        payload@.len() <= MAX_FIELD,
    ensures
        r@ == enc_bytes(payload@),
{
    let mut out: Vec<u8> = Vec::new();
    enc_bytes_vec(&mut out, payload);
    proof {
        assert(out@ =~= enc_bytes(payload@));
    }
    out
}

/// Try to take one complete frame off the front of a receive buffer,
/// returning its payload and the number of bytes consumed.
pub fn try_frame(buf: &Vec<u8>) -> (r: Option<(Vec<u8>, usize)>)
    ensures
        match r {
            Some((payload, used)) => dec_bytes(buf@, 0) == Some((payload@, used as int)),
            None => dec_bytes(buf@, 0) is None,
        },
{
    dec_bytes_vec(buf, 0)
}

// ---------------------------------------------------------------------
// frame-size bounds

/// Length of one encoded presence.
pub proof fn lemma_enc_presence_len(p: PresenceV)
    ensures
        enc_presence(p).len() == 10 + p.id.len(),
{
}

/// Length of an encoded list of well-formed presences.
pub proof fn lemma_enc_presences_len(ps: Seq<PresenceV>)
    requires
        forall|i: int| 0 <= i < ps.len() ==> (#[trigger] ps[i]).wire_wf(),
    ensures
        enc_presences(ps).len() == 42 * ps.len(),
    decreases ps.len(),
{
    if ps.len() > 0 {
        lemma_enc_presence_len(ps[0]);
        lemma_enc_presences_len(ps.skip(1));
        assert(42 * ps.len() == 42 + 42 * ps.skip(1).len()) by (nonlinear_arith)
            requires ps.len() == ps.skip(1).len() + 1;
    }
}

/// Every well-formed packet's encoding fits one frame.
pub proof fn lemma_frame_fits(p: PacketV)
    requires
        p.wire_wf(),
    ensures
        enc_packet(p).len() <= MAX_FIELD,
{
    match p {
        PacketV::GetPeers(None) => {},
        PacketV::GetPeers(Some(ps)) => {
            lemma_enc_presences_len(ps);
            assert(42 * ps.len() <= 42 * MAX_ITEMS) by (nonlinear_arith)
                requires ps.len() <= MAX_ITEMS;
        },
        PacketV::Push(t) => {
            lemma_enc_keys_len(t.parents);
            assert(KEY_LEN * t.parents.len() <= KEY_LEN * MAX_ITEMS) by (nonlinear_arith)
                requires t.parents.len() <= MAX_ITEMS;
        },
        PacketV::File(_, _) => {},
        PacketV::Close => {},
    }
}

/// Every well-formed handshake's encoding fits one frame.
pub proof fn lemma_hs_frame_fits(h: HandshakeV)
    requires
        h.wire_wf(),
    ensures
        enc_handshake(h).len() <= MAX_FIELD,
{
    lemma_enc_presence_len(h.presence);
    lemma_enc_keys_len(h.tips);
    assert(KEY_LEN * h.tips.len() <= KEY_LEN * MAX_ITEMS) by (nonlinear_arith)
        requires h.tips.len() <= MAX_ITEMS;
}

} // verus!
