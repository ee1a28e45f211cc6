//! The gossip engine: the steady-state protocol.
//!
//! The engine owns the peer book, the outbound multiplexer, the
//! resolver and the store, and decides every protocol step.  The
//! embedding program drives it: it accepts sockets, feeds received
//! frames in, writes queued frames out, and reports flush failures.
//! Everything the engine decides — replies, catch-up replication,
//! dissemination, deduplication, pruning — is stated in the contracts
//! here.

use vstd::prelude::*;
use crate::types::{
    Addr, PeerId, NetworkKey, PeerPresence, PresenceV, SpreadTo, clone_id, ids_equal, PEER_ID_LEN,
};
use crate::transition::{Transition, TransitionV, TransitionKey, digest_of};
use crate::wire::{Packet, PacketV, HandshakeV, enc_handshake};
use crate::store::{
    Store, log_has_key, approve_spec, tips_of, subgraph_of, set_from, file_lookup, lemma_tips_wf,
    lemma_keep_unmarked_elems,
};
use crate::spread::{Spread, SlotV};
use crate::resolver::{ResolvePeers, PendingPeer};
use crate::bytes_codec::{enc_bytes, KEY_LEN, MAX_ITEMS, MAX_BLOB};

verus! {

/// The protocol version spoken by this crate.
pub const PROTOCOL_VERSION: u8 = 1;

/// Configuration assembled by the embedding program.
pub struct GossipConf {
    pub addr: Option<Addr>,
    pub key: Option<NetworkKey>,
    pub contact: Option<Addr>,
    pub id: Option<PeerId>,
}

impl GossipConf {
    /// An empty configuration.
    pub fn new() -> (r: GossipConf)
        ensures
            r.addr is None,
            r.key is None,
            r.contact is None,
            r.id is None,
    {
        GossipConf { addr: None, key: None, contact: None, id: None }
    }

    /// Set the bind address.
    pub fn addr(self, addr: Addr) -> (r: GossipConf)
        ensures
            r.addr == Some(addr),
            r.key == self.key,
            r.contact == self.contact,
            r.id == self.id,
    {
        GossipConf { addr: Some(addr), ..self }
    }

    /// Set the network key.
    pub fn network_key(self, key: NetworkKey) -> (r: GossipConf)
        ensures
            (match r.key {
                Some(k) => k@ == key@,
                None => false,
            }),
            r.addr == self.addr,
            r.contact == self.contact,
            r.id == self.id,
    {
        GossipConf { key: Some(key), ..self }
    }

    /// Set the static contact address.
    pub fn contact(self, contact: Addr) -> (r: GossipConf)
        ensures
            r.contact == Some(contact),
            r.addr == self.addr,
            r.key == self.key,
            r.id == self.id,
    {
        GossipConf { contact: Some(contact), ..self }
    }

    /// Set the node's identity.
    pub fn id(self, id: PeerId) -> (r: GossipConf)
        ensures
            (match r.id {
                Some(i) => i@ == id@,
                None => false,
            }),
            r.addr == self.addr,
            r.key == self.key,
            r.contact == self.contact,
    {
        GossipConf { id: Some(id), ..self }
    }

    /// Take the configuration apart.  The address, the key and the
    /// identity are mandatory: a node cannot start without them, so
    /// they are demanded here.
    pub fn retrieve(self) -> (r: (Addr, NetworkKey, Option<Addr>, PeerId))
        requires
            self.addr is Some,
            self.key is Some,
            self.id is Some,
        ensures
            Some(r.0) == self.addr,
            (match self.key {
                Some(k) => r.1@ == k@,
                None => false,
            }),
            r.2 == self.contact,
            (match self.id {
                Some(i) => r.3@ == i@,
                None => false,
            }),
    {
        let GossipConf { addr, key, contact, id } = self;
        (addr.unwrap(), key.unwrap(), contact, id.unwrap())
    }
}

/// What the engine decided for one freshly resolved connection.
pub struct ResolveOutcome {
    /// The peer was accepted into the book and the registry.
    pub accepted: bool,
    /// Its slot index in the registry, when accepted.
    pub slot: Option<usize>,
    /// Whether the full peer list was requested (first peer only).
    pub request_peers: bool,
}

/// What the engine decided for one inbound packet.
pub struct PacketOutcome {
    /// An event surfaced to the caller: an accepted push or an inbound
    /// file delivery.
    pub event: Option<Packet>,
    /// Addresses to open fresh connections to, paired with the index
    /// of the handshake machine prepared for each.
    pub connect: Vec<(Addr, usize)>,
}

/// The keys of the peer-book presences.
pub open spec fn book_ids(books: Seq<PresenceV>) -> Seq<Seq<u8>> {
    books.map_values(|p: PresenceV| p.id)
}

/// The reply to a peer-list request from `origin`: the book without the
/// requester, each entry's local-only slot cleared.
pub open spec fn peers_reply(books: Seq<PresenceV>, origin: Seq<u8>) -> Seq<PresenceV>
    decreases books.len(),
{
    if books.len() == 0 {
        Seq::empty()
    } else if books.last().id == origin {
        peers_reply(books.drop_last(), origin)
    } else {
        peers_reply(books.drop_last(), origin).push(books.last().cleared_v())
    }
}

/// Does handling a pushed transition accept it: approved against the
/// store, not yet known, and within the store's capacity?
pub open spec fn push_event(es: Seq<TransitionV>, t: TransitionV) -> bool {
    &&& approve_spec(es, t)
    &&& !log_has_key(es, t.key)
    &&& es.len() < MAX_ITEMS
}

/// The store after handling a pushed transition: appended exactly when
/// it is accepted.
pub open spec fn push_store_effect(es: Seq<TransitionV>, t: TransitionV) -> Seq<TransitionV> {
    if push_event(es, t) {
        es.push(t)
    } else {
        es
    }
}

/// Is a pushed transition a protocol error: rejected by approval, or
/// new but beyond the store's capacity?  The capacity is the
/// deliberate [`MAX_ITEMS`] bound: every stored transition must remain
/// announceable in a handshake frontier, so a log at the bound accepts
/// nothing further and counts the attempt as an error.
pub open spec fn push_error(es: Seq<TransitionV>, t: TransitionV) -> bool {
    ||| !approve_spec(es, t)
    ||| (approve_spec(es, t) && !log_has_key(es, t.key) && es.len() >= MAX_ITEMS)
}

/// The presences of a received peer list that are connected to: those
/// with a full-length identity not already known, each marking its
/// identity known for the rest of the list.
pub open spec fn to_connect(list: Seq<PresenceV>, known: Set<Seq<u8>>) -> Seq<PresenceV>
    decreases list.len(),
{
    if list.len() == 0 {
        Seq::empty()
    } else {
        let p = list[0];
        if p.id.len() == PEER_ID_LEN && !known.contains(p.id) {
            seq![p] + to_connect(list.skip(1), known.insert(p.id))
        } else {
            to_connect(list.skip(1), known)
        }
    }
}

/// The expected identities of the in-flight handshakes.
pub open spec fn expects(pending: Seq<PendingPeer>) -> Seq<Option<Seq<u8>>> {
    pending.map_values(
        |p: PendingPeer|
            match p.expect {
                Some(e) => Some(e@),
                None => None,
            },
    )
}

/// An error counter that sticks at its ceiling.
pub open spec fn bump(errors: u64) -> u64 {
    if errors == u64::MAX {
        errors
    } else {
        (errors + 1) as u64
    }
}

/// The gossip engine's state.
pub struct Gossip {
    pub myself: PeerPresence,
    pub key: NetworkKey,
    pub version: u8,
    pub books: Vec<PeerPresence>,
    pub writer: Spread,
    pub resolve: ResolvePeers,
    pub store: Store,
    pub errors: u64,
}

impl Gossip {
    /// The peer book as mathematical values.
    pub open spec fn books_v(&self) -> Seq<PresenceV> {
        self.books@.map_values(|p: PeerPresence| p@)
    }

    /// Is a peer in the book?
    pub open spec fn in_book(&self, id: Seq<u8>) -> bool {
        book_ids(self.books_v()).contains(id)
    }

    /// Engine invariant: identities are full length and unique, the
    /// node itself is never in its own book, the book and the store
    /// stay within what one wire message can carry, and the parts'
    /// invariants hold.
    pub open spec fn wf(&self) -> bool {
        &&& self.myself@.id.len() == PEER_ID_LEN
        &&& self.books_v().len() <= MAX_ITEMS
        &&& forall|i: int| 0 <= i < self.books_v().len() ==> (#[trigger] self.books_v()[i]).id.len()
            == PEER_ID_LEN
        &&& forall|i: int, j: int|
            0 <= i < j < self.books_v().len() ==> (#[trigger] self.books_v()[i]).id != (
            #[trigger] self.books_v()[j]).id
        &&& forall|i: int| 0 <= i < self.books_v().len() ==> (#[trigger] self.books_v()[i]).id
            != self.myself@.id
        &&& self.writer.wf()
        &&& self.writer.my_id@ == self.myself@.id
        &&& self.store.wf()
        &&& self.store.entries().len() <= MAX_ITEMS
    }

    /// Assemble an engine from its configuration and its store.  The
    /// embedding program binds the listener and, when no static
    /// contact is configured, may run a beacon first and set the
    /// discovered address as the contact.  When a contact is present,
    /// one outbound handshake towards it is prepared.
    pub fn new(conf: GossipConf, store: Store) -> (r: Gossip)
        requires
            conf.addr is Some,
            conf.key is Some,
            conf.id is Some,
            (match conf.id {
                Some(i) => i@.len() == PEER_ID_LEN,
                None => false,
            }),
            store.wf(),
            store.entries().len() <= MAX_ITEMS,
        ensures
            r.wf(),
            (match conf.id {
                Some(i) => r.myself@.id == i@,
                None => false,
            }),
            Some(r.myself@.addr) == conf.addr,
            r.myself@.writer is None,
            (match conf.key {
                Some(k) => r.key@ == k@,
                None => false,
            }),
            r.version == PROTOCOL_VERSION,
            r.books_v() == Seq::<PresenceV>::empty(),
            r.writer.slots_v() == Seq::<SlotV>::empty(),
            r.store == store,
            r.errors == 0,
            r.resolve.pending@.len() == (if conf.contact is Some {
                1int
            } else {
                0int
            }),
            (match conf.contact {
                Some(_) => {
                    &&& r.resolve.pending@[0].expect is None
                    &&& !r.resolve.pending@[0].failed
                    &&& r.resolve.pending@[0].buf@ == Seq::<u8>::empty()
                    &&& r.resolve.pending@[0].version == PROTOCOL_VERSION
                    &&& r.resolve.pending@[0].my_proof@ == digest_of(r.key@)
                    &&& r.resolve.pending@[0].hello@ == enc_bytes(
                        enc_handshake(
                            HandshakeV {
                                version: PROTOCOL_VERSION,
                                key_proof: digest_of(r.key@),
                                presence: r.myself@.cleared_v(),
                                tips: tips_of(r.store.entries()),
                            },
                        ),
                    )
                },
                None => true,
            }),
    {
        let (addr, key, contact, id) = conf.retrieve();
        let myself = PeerPresence::new(id, addr, None);
        let writer = Spread::new(clone_id(&myself.id));
        let mut pending: Vec<PendingPeer> = Vec::new();
        match contact {
            Some(_) => {
                proof {
                    lemma_tips_wf(store);
                }
                let tips = store.restore(store.tips());
                proof {
                    assert forall|i: int| 0 <= i < tips@.len() implies (#[trigger] tips@[i])@.len()
                        == KEY_LEN by {
                        assert(tips@.map_values(|k: TransitionKey| k@)[i] == tips@[i]@);
                        assert(tips_of(store.entries())[i].len() == KEY_LEN);
                    }
                    assert(tips@.len() == tips_of(store.entries()).len());
                    assert(tips@.map_values(|k: TransitionKey| k@) == tips_of(store.entries()));
                }
                pending.push(PendingPeer::new(PROTOCOL_VERSION, &key, &myself, tips, None));
            },
            None => {},
        }
        let r = Gossip {
            myself,
            key,
            version: PROTOCOL_VERSION,
            books: Vec::new(),
            writer,
            resolve: ResolvePeers::new(pending),
            store,
            errors: 0,
        };
        proof {
            assert(r.books_v() =~= Seq::<PresenceV>::empty());
        }
        r
    }

    /// The node's identity.
    pub fn id(&self) -> (r: PeerId)
        ensures
            r@ == self.myself@.id,
    {
        clone_id(&self.myself.id)
    }

    /// The network key.
    pub fn network(&self) -> (r: NetworkKey)
        ensures
            r@ == self.key@,
    {
        clone_id(&self.key)
    }

    /// The bind address.
    pub fn addr(&self) -> (r: Addr)
        ensures
            r == self.myself@.addr,
    {
        self.myself.addr
    }

    /// The outbound multiplexer, for the embedding program's flush
    /// pass and for producers of new transitions.
    pub fn writer(&mut self) -> (r: &mut Spread)
        ensures
            final(self).myself == old(self).myself,
            final(self).key == old(self).key,
            final(self).version == old(self).version,
            final(self).books == old(self).books,
            final(self).resolve == old(self).resolve,
            final(self).store == old(self).store,
            final(self).errors == old(self).errors,
            *final(r) == final(self).writer,
            *r == old(self).writer,
    {
        &mut self.writer
    }

    /// Begin the handshake for a newly accepted or newly opened
    /// connection: prepare the machine whose hello frame carries this
    /// node's presence and current frontier.  Returns its index in the
    /// resolver.
    pub fn begin_handshake(&mut self, expect: Option<PeerId>) -> (r: usize)
        requires
            old(self).wf(),
        ensures
            final(self).wf(),
            r == old(self).resolve.pending@.len(),
            final(self).resolve.pending@.len() == old(self).resolve.pending@.len() + 1,
            forall|q: int|
                0 <= q < old(self).resolve.pending@.len() ==> final(self).resolve.pending@[q] == (
                #[trigger] old(self).resolve.pending@[q]),
            (match (final(self).resolve.pending@[r as int].expect, expect) {
                (Some(a), Some(b)) => a@ == b@,
                (None, None) => true,
                _ => false,
            }),
            !final(self).resolve.pending@[r as int].failed,
            final(self).resolve.pending@[r as int].my_proof@ == digest_of(old(self).key@),
            final(self).resolve.pending@[r as int].version == old(self).version,
            final(self).resolve.pending@[r as int].hello@ == enc_bytes(
                enc_handshake(
                    HandshakeV {
                        version: old(self).version,
                        key_proof: digest_of(old(self).key@),
                        presence: old(self).myself@.cleared_v(),
                        tips: tips_of(old(self).store.entries()),
                    },
                ),
            ),
            final(self).myself == old(self).myself,
            final(self).key == old(self).key,
            final(self).version == old(self).version,
            final(self).books == old(self).books,
            final(self).writer == old(self).writer,
            final(self).store == old(self).store,
            final(self).errors == old(self).errors,
    {
        proof {
            lemma_tips_wf(self.store);
        }
        let tips = self.store.restore(self.store.tips());
        proof {
            assert forall|i: int| 0 <= i < tips@.len() implies (#[trigger] tips@[i])@.len()
                == KEY_LEN by {
                assert(tips@.map_values(|k: TransitionKey| k@)[i] == tips@[i]@);
                assert(tips_of(self.store.entries())[i].len() == KEY_LEN);
            }
            assert(tips@.len() == tips_of(self.store.entries()).len());
            assert(tips@.map_values(|k: TransitionKey| k@) == tips_of(self.store.entries()));
        }
        let p = PendingPeer::new(self.version, &self.key, &self.myself, tips, expect);
        self.resolve.add_peer(p)
    }

    /// Is a peer in the book, as an executable test?
    pub fn book_contains(&self, id: &PeerId) -> (r: bool)
        ensures
            r == self.in_book(id@),
    {
        let mut i: usize = 0;
        while i < self.books.len()
            invariant
                i <= self.books@.len(),
                forall|q: int| 0 <= q < i ==> (#[trigger] self.books_v()[q]).id != id@,
            decreases self.books@.len() - i,
        {
            if ids_equal(self.books[i].id.as_slice(), id.as_slice()) {
                proof {
                    assert(book_ids(self.books_v())[i as int] == id@);
                }
                return true;
            }
            proof {
                assert(self.books_v()[i as int].id == self.books@[i as int]@.id);
            }
            i = i + 1;
        }
        proof {
            if self.in_book(id@) {
                let w = choose|w: int|
                    0 <= w < book_ids(self.books_v()).len() && book_ids(self.books_v())[w] == id@;
                assert(self.books_v()[w].id == id@);
            }
        }
        false
    }

    /// A freshly resolved connection.  A duplicate of an established
    /// peer, the node's own identity, or a peer beyond the book's
    /// capacity is rejected and torn down: accepting duplicate or self
    /// identities silently is a known trap, so the check is explicit.
    /// An accepted peer is registered, asked for the full peer list if
    /// it is the node's first peer, and sent the exact replication
    /// delta its frontier is missing.
    pub fn on_resolved(&mut self, presence: PeerPresence, remote_tips: &Vec<TransitionKey>) -> (r:
        ResolveOutcome)
        requires
            old(self).wf(),
            presence@.id.len() == PEER_ID_LEN,
        ensures
            final(self).wf(),
            final(self).myself == old(self).myself,
            final(self).key == old(self).key,
            final(self).version == old(self).version,
            final(self).resolve == old(self).resolve,
            final(self).store == old(self).store,
            final(self).errors == old(self).errors,
            ({
                let rejected = presence@.id == old(self).myself@.id || book_ids(
                    old(self).books_v(),
                ).contains(presence@.id) || old(self).writer.has_id(presence@.id) || old(
                    self,
                ).books_v().len() >= MAX_ITEMS;
                if rejected {
                    &&& !r.accepted
                    &&& final(self).books == old(self).books
                    &&& final(self).writer == old(self).writer
                } else {
                    &&& r.accepted
                    &&& r.request_peers == (old(self).books_v().len() == 0)
                    &&& (match r.slot {
                        Some(s) => s == old(self).writer.slots_v().len(),
                        None => false,
                    })
                    &&& final(self).books_v() == old(self).books_v().push(
                        PresenceV {
                            id: presence@.id,
                            addr: presence@.addr,
                            writer: Some(old(self).writer.slots_v().len() as usize),
                        },
                    )
                    &&& final(self).writer.slots_v().len() == old(self).writer.slots_v().len() + 1
                    &&& forall|q: int|
                        0 <= q < old(self).writer.slots_v().len()
                            ==> final(self).writer.slots_v()[q] == (#[trigger] old(
                            self,
                        ).writer.slots_v()[q])
                    &&& final(self).writer.slots_v().last().id == presence@.id
                    &&& final(self).writer.slots_v().last().queue == (if old(self).books_v().len()
                        == 0 {
                        seq![PacketV::GetPeers(None)]
                    } else {
                        Seq::<PacketV>::empty()
                    }) + subgraph_of(
                        old(self).store.entries(),
                        set_from(remote_tips@.map_values(|k: TransitionKey| k@)),
                    ).map_values(|t: TransitionV| PacketV::Push(t))
                }
            }),
    {
        if ids_equal(presence.id.as_slice(), self.myself.id.as_slice()) || self.book_contains(
            &presence.id,
        ) || self.writer.contains_id(&presence.id) || self.books.len() >= MAX_ITEMS {
            return ResolveOutcome { accepted: false, slot: None, request_peers: false };
        }
        let ghost delta_v = subgraph_of(
            self.store.entries(),
            set_from(remote_tips@.map_values(|k: TransitionKey| k@)),
        );
        let slot = self.writer.add_peer(&presence.id);
        proof {
            assert(old(self).writer.slots_v().len() == old(self).writer.slots@.len());
            assert forall|q: int| 0 <= q < old(self).writer.slots_v().len() implies (
            #[trigger] old(self).writer.slots_v()[q]).id != presence@.id by {
                if old(self).writer.slots_v()[q].id == presence@.id {
                    assert(old(self).writer.ids()[q] == presence@.id);
                    assert(old(self).writer.has_id(presence@.id));
                    assert(false);
                }
            }
        }
        let ghost after_add = self.writer.slots_v();
        let request_peers = self.books.len() == 0;
        if request_peers {
            proof {
                assert(after_add.last().id == presence@.id);
                assert forall|q: int| 0 <= q < after_add.len() - 1 implies (
                #[trigger] after_add[q]).id != presence@.id by {
                    assert(after_add[q] == old(self).writer.slots_v()[q]);
                }
            }
            self.writer.spread(Packet::GetPeers(None), SpreadTo::Peer(clone_id(&presence.id)));
            proof {
                let n = old(self).writer.slots_v().len() as int;
                assert(self.writer.slots_v()[n].queue == after_add[n].queue.push(
                    PacketV::GetPeers(None),
                ));
                assert(after_add[n].queue =~= Seq::<PacketV>::empty());
            }
        }
        proof {
            let n = old(self).writer.slots_v().len() as int;
            assert(request_peers == (old(self).books_v().len() == 0));
            assert(self.writer.slots_v()[n].queue =~= (if old(self).books_v().len() == 0 {
                seq![PacketV::GetPeers(None)]
            } else {
                Seq::<PacketV>::empty()
            }) + delta_v.map_values(|t: TransitionV| PacketV::Push(t)).subrange(0, 0));
            assert(self.writer.slots_v()[n].id == self.writer.ids()[n]);
            assert(after_add[n].id == after_add.map_values(|sl: SlotV| sl.id)[n]);
            assert(self.writer.slots_v().last().id == presence@.id);
            assert forall|q: int| 0 <= q < n implies final_slot_keeps(
                old(self).writer.slots_v(),
                self.writer.slots_v(),
                q,
            ) by {
                assert(after_add[q] == old(self).writer.slots_v()[q]);
                if old(self).writer.slots_v()[q].id == presence@.id {
                    assert(old(self).writer.ids()[q] == presence@.id);
                    assert(old(self).writer.has_id(presence@.id));
                    assert(false);
                }
                assert(self.writer.slots_v()[q].queue == after_add[q].queue);
                assert(self.writer.slots_v()[q].id == self.writer.ids()[q]);
                assert(after_add[q].id == after_add.map_values(|sl: SlotV| sl.id)[q]);
                assert(self.writer.slots_v()[q] =~= after_add[q]);
            }
        }
        let delta = self.store.subgraph(remote_tips);
        proof {
            lemma_keep_unmarked_elems(
                self.store.entries(),
                crate::store::marked_dn(
                    self.store.entries(),
                    set_from(remote_tips@.map_values(|k: TransitionKey| k@)),
                    0,
                ),
            );
        }
        let ghost base = (if old(self).books_v().len() == 0 {
            seq![PacketV::GetPeers(None)]
        } else {
            Seq::<PacketV>::empty()
        });
        let mut ti: usize = 0;
        while ti < delta.len()
            invariant
                ti <= delta@.len(),
                self.myself == old(self).myself,
                self.store == old(self).store,
                self.books == old(self).books,
                self.resolve == old(self).resolve,
                self.errors == old(self).errors,
                self.key == old(self).key,
                self.version == old(self).version,
                presence@.id.len() == PEER_ID_LEN,
                !old(self).writer.has_id(presence@.id),
                delta@.map_values(|t: Transition| t@) == delta_v,
                forall|k: int|
                    0 <= k < delta_v.len() ==> exists|w: int|
                        0 <= w < self.store.entries().len() && self.store.entries()[w] == (
                        #[trigger] delta_v[k]),
                old(self).wf(),
                self.writer.wf(),
                self.writer.my_id@ == old(self).myself@.id,
                self.writer.slots_v().len() == old(self).writer.slots_v().len() + 1,
                forall|q: int|
                    0 <= q < old(self).writer.slots_v().len() ==> final_slot_keeps(
                        old(self).writer.slots_v(),
                        self.writer.slots_v(),
                        q,
                    ),
                self.writer.slots_v().last().id == presence@.id,
                self.writer.slots_v().last().queue == base + delta_v.map_values(
                    |t: TransitionV| PacketV::Push(t),
                ).subrange(0, ti as int),
            decreases delta@.len() - ti,
        {
            proof {
                assert(delta@[ti as int]@ == delta_v[ti as int]);
                let w = choose|w: int|
                    0 <= w < self.store.entries().len() && self.store.entries()[w] == delta_v[ti as int];
                assert(self.store.entries()[w].wf());
                assert forall|q: int|
                    0 <= q < self.writer.slots_v().len() - 1 implies (
                #[trigger] self.writer.slots_v()[q]).id != presence@.id by {
                    assert(final_slot_keeps(
                        old(self).writer.slots_v(),
                        self.writer.slots_v(),
                        q,
                    ));
                    if old(self).writer.slots_v()[q].id == presence@.id {
                        assert(old(self).writer.ids()[q] == presence@.id);
                        assert(old(self).writer.has_id(presence@.id));
                        assert(false);
                    }
                }
            }
            let ghost snap = self.writer.slots_v();
            let ghost qbefore = snap.last().queue;
            self.writer.spread(
                Packet::Push(delta[ti].duplicate()),
                SpreadTo::Peer(clone_id(&presence.id)),
            );
            ti = ti + 1;
            proof {
                let pv = delta_v.map_values(|t: TransitionV| PacketV::Push(t));
                let n2 = snap.len() - 1;
                assert(snap[n2].id == presence@.id);
                assert(self.writer.slots_v()[n2].queue =~= qbefore.push(
                    PacketV::Push(delta_v[ti - 1]),
                ));
                assert(base + pv.subrange(0, ti - 1) + seq![pv[ti - 1]] =~= base + pv.subrange(
                    0,
                    ti as int,
                ));
                assert(qbefore.push(PacketV::Push(delta_v[ti - 1])) =~= base + pv.subrange(
                    0,
                    ti - 1,
                ) + seq![pv[ti - 1]]);
                assert(self.writer.slots_v()[n2].id == self.writer.ids()[n2]);
                assert(snap[n2].id == snap.map_values(|sl: SlotV| sl.id)[n2]);
                assert forall|q: int| 0 <= q < old(self).writer.slots_v().len() implies
                    final_slot_keeps(
                    old(self).writer.slots_v(),
                    self.writer.slots_v(),
                    q,
                ) by {
                    assert(final_slot_keeps(old(self).writer.slots_v(), snap, q));
                    assert(snap[q].id != presence@.id);
                    assert(self.writer.slots_v()[q].queue == snap[q].queue);
                    assert(self.writer.slots_v()[q].id == self.writer.ids()[q]);
                    assert(snap[q].id == snap.map_values(|sl: SlotV| sl.id)[q]);
                    assert(self.writer.slots_v()[q] =~= snap[q]);
                }
            }
        }
        proof {
            let pv = delta_v.map_values(|t: TransitionV| PacketV::Push(t));
            assert(pv.subrange(0, pv.len() as int) =~= pv);
            assert forall|q: int|
                0 <= q < old(self).writer.slots_v().len() implies self.writer.slots_v()[q] == (
            #[trigger] old(self).writer.slots_v()[q]) by {
                assert(final_slot_keeps(old(self).writer.slots_v(), self.writer.slots_v(), q));
            }
        }
        let ghost books0 = self.books_v();
        self.books.push(
            PeerPresence { id: presence.id, addr: presence.addr, writer: Some(slot) },
        );
        proof {
            assert(self.books_v() =~~= books0.push(
                PresenceV {
                    id: presence@.id,
                    addr: presence@.addr,
                    writer: Some(old(self).writer.slots_v().len() as usize),
                },
            ));
            assert forall|i: int, j: int| 0 <= i < j < self.books_v().len() implies (
            #[trigger] self.books_v()[i]).id != (#[trigger] self.books_v()[j]).id by {
                if j < books0.len() {
                } else {
                    assert(self.books_v()[i] == books0[i]);
                    if books0[i].id == presence@.id {
                        assert(book_ids(books0)[i] == presence@.id);
                    }
                }
            }
        }
        ResolveOutcome { accepted: true, slot: Some(slot), request_peers }
    }

    /// Remove every peer whose flush failed from both the book and the
    /// outbound registry.  Afterwards none of the dead peers is present
    /// in either, so no further packets can be queued for them; they
    /// can only come back through a fresh handshake.
    pub fn on_dead_peers(&mut self, dead: &Vec<PeerId>)
        requires
            old(self).wf(),
        ensures
            final(self).wf(),
            final(self).myself == old(self).myself,
            final(self).key == old(self).key,
            final(self).version == old(self).version,
            final(self).resolve == old(self).resolve,
            final(self).store == old(self).store,
            final(self).errors == old(self).errors,
            final(self).books_v() == drop_ids(
                old(self).books_v(),
                dead@.map_values(|d: PeerId| d@),
            ),
            final(self).writer.slots_v() == crate::spread::keep_alive(
                old(self).writer.slots_v(),
                dead@.map_values(|d: PeerId| d@),
            ),
            forall|d: int|
                0 <= d < dead@.len() ==> !final(self).in_book(#[trigger] dead@[d]@)
                    && !final(self).writer.has_id(dead@[d]@),
    {
        let ghost dv = dead@.map_values(|d: PeerId| d@);
        self.writer.prune(dead);
        let mut kept: Vec<PeerPresence> = Vec::new();
        proof {
            assert(kept@.map_values(|p: PeerPresence| p@) =~= drop_ids(
                self.books_v().subrange(0, 0),
                dv,
            ));
        }
        let mut i: usize = 0;
        while i < self.books.len()
            invariant
                i <= self.books@.len(),
                dv == dead@.map_values(|d: PeerId| d@),
                kept@.map_values(|p: PeerPresence| p@) == drop_ids(
                    self.books_v().subrange(0, i as int),
                    dv,
                ),
            decreases self.books@.len() - i,
        {
            let ghost before = kept@.map_values(|p: PeerPresence| p@);
            if !id_listed(dead, &self.books[i].id) {
                kept.push(self.books[i].duplicate());
                proof {
                    assert(kept@.map_values(|p: PeerPresence| p@) =~= before.push(
                        self.books_v()[i as int],
                    ));
                }
            }
            i = i + 1;
            proof {
                let pre = self.books_v().subrange(0, i as int);
                assert(pre.drop_last() =~= self.books_v().subrange(0, i - 1));
                assert(pre.last() == self.books_v()[i - 1]);
                assert(kept@.map_values(|p: PeerPresence| p@) =~= drop_ids(pre, dv));
            }
        }
        proof {
            assert(self.books_v().subrange(0, self.books_v().len() as int) =~= self.books_v());
        }
        self.books = kept;
        proof {
            lemma_drop_ids(old(self).books_v(), dv);
            assert forall|d: int| 0 <= d < dead@.len() implies !self.in_book(
                #[trigger] dead@[d]@,
            ) by {
                if self.in_book(dead@[d]@) {
                    let w = choose|w: int|
                        0 <= w < book_ids(self.books_v()).len() && book_ids(self.books_v())[w]
                            == dead@[d]@;
                    assert(self.books_v()[w].id == dead@[d]@);
                    assert(dv.contains(dead@[d]@)) by {
                        assert(dv[d] == dead@[d]@);
                    }
                }
            }
            assert forall|i2: int, j2: int| 0 <= i2 < j2 < self.books_v().len() implies (
            #[trigger] self.books_v()[i2]).id != (#[trigger] self.books_v()[j2]).id by {
                lemma_drop_ids_unique(old(self).books_v(), dv, i2, j2);
            }
        }
    }
}

/// The unchanged-slot relation used while a new slot's queue grows.
pub open spec fn final_slot_keeps(before: Seq<SlotV>, after: Seq<SlotV>, q: int) -> bool {
    after[q] == before[q]
}

/// The presences whose identifier is not listed, in order.
pub open spec fn drop_ids(books: Seq<PresenceV>, dead: Seq<Seq<u8>>) -> Seq<PresenceV>
    decreases books.len(),
{
    if books.len() == 0 {
        Seq::empty()
    } else if dead.contains(books.last().id) {
        drop_ids(books.drop_last(), dead)
    } else {
        drop_ids(books.drop_last(), dead).push(books.last())
    }
}

/// Every kept presence comes from the input book and is not dead.
proof fn lemma_drop_ids(books: Seq<PresenceV>, dead: Seq<Seq<u8>>)
    ensures
        forall|k: int|
            0 <= k < drop_ids(books, dead).len() ==> !dead.contains(
                (#[trigger] drop_ids(books, dead)[k]).id,
            ) && exists|w: int| 0 <= w < books.len() && books[w] == drop_ids(books, dead)[k],
        drop_ids(books, dead).len() <= books.len(),
    decreases books.len(),
{
    if books.len() > 0 {
        lemma_drop_ids(books.drop_last(), dead);
        let r = drop_ids(books, dead);
        let r0 = drop_ids(books.drop_last(), dead);
        assert forall|k: int| 0 <= k < r.len() implies !dead.contains((#[trigger] r[k]).id)
            && exists|w: int| 0 <= w < books.len() && books[w] == r[k] by {
            if k < r0.len() {
                let w = choose|w: int|
                    0 <= w < books.drop_last().len() && books.drop_last()[w] == r0[k];
                assert(books[w] == r[k]);
            } else {
                assert(r[k] == books.last());
                assert(books[books.len() - 1] == r[k]);
            }
        }
    }
}

/// Unique identifiers stay unique after dropping the dead.
proof fn lemma_drop_ids_unique(books: Seq<PresenceV>, dead: Seq<Seq<u8>>, i: int, j: int)
    requires
        forall|a: int, b: int|
            0 <= a < b < books.len() ==> (#[trigger] books[a]).id != (#[trigger] books[b]).id,
        0 <= i < j < drop_ids(books, dead).len(),
    ensures
        drop_ids(books, dead)[i].id != drop_ids(books, dead)[j].id,
    decreases books.len(),
{
    let r = drop_ids(books, dead);
    let r0 = drop_ids(books.drop_last(), dead);
    if j < r0.len() {
        lemma_drop_ids_unique(books.drop_last(), dead, i, j);
    } else {
        assert(r[j] == books.last());
        lemma_drop_ids(books.drop_last(), dead);
        let w = choose|w: int|
            0 <= w < books.drop_last().len() && books.drop_last()[w] == r0[i];
        assert(books[w] == r[i]);
        assert(books[w].id != books[books.len() - 1].id);
    }
}

/// Is `id` among the listed identifiers?
fn id_listed(v: &Vec<PeerId>, id: &PeerId) -> (r: bool)
    ensures
        r == v@.map_values(|d: PeerId| d@).contains(id@),
{
    let mut i: usize = 0;
    while i < v.len()
        invariant
            i <= v@.len(),
            forall|q: int| 0 <= q < i ==> (#[trigger] v@[q])@ != id@,
        decreases v@.len() - i,
    {
        if ids_equal(v[i].as_slice(), id.as_slice()) {
            proof {
                assert(v@.map_values(|d: PeerId| d@)[i as int] == id@);
            }
            return true;
        }
        i = i + 1;
    }
    proof {
        let mv = v@.map_values(|d: PeerId| d@);
        if mv.contains(id@) {
            let w = choose|w: int| 0 <= w < mv.len() && mv[w] == id@;
            assert(v@[w]@ == id@);
        }
    }
    false
}

/// The peer-list reply is no longer than the book, and every entry in
/// it is fit for the wire.
proof fn lemma_peers_reply_wf(books: Seq<PresenceV>, origin: Seq<u8>)
    requires
        forall|i: int| 0 <= i < books.len() ==> (#[trigger] books[i]).id.len() == PEER_ID_LEN,
    ensures
        peers_reply(books, origin).len() <= books.len(),
        forall|k: int|
            0 <= k < peers_reply(books, origin).len() ==> (#[trigger] peers_reply(
                books,
                origin,
            )[k]).wire_wf(),
    decreases books.len(),
{
    if books.len() > 0 {
        lemma_peers_reply_wf(books.drop_last(), origin);
        let r = peers_reply(books, origin);
        let r0 = peers_reply(books.drop_last(), origin);
        assert forall|k: int| 0 <= k < r.len() implies (#[trigger] r[k]).wire_wf() by {
            if k < r0.len() {
                assert(r0[k].wire_wf());
            } else {
                assert(r[k] == books.last().cleared_v());
                assert(books[books.len() - 1].id.len() == PEER_ID_LEN);
            }
        }
    }
}

/// The identifiers of a presence list.
pub open spec fn ids_of(ps: Seq<PresenceV>) -> Seq<Seq<u8>> {
    ps.map_values(|p: PresenceV| p.id)
}

impl Gossip {
    /// A received peer list: open one outbound connection to every
    /// presence not already established, being resolved, or this node
    /// itself (full-mesh convergence).  Returns the addresses to dial,
    /// each paired with the index of its prepared handshake machine.
    pub fn connect_peers(&mut self, list: &Vec<PeerPresence>) -> (r: Vec<(Addr, usize)>)
        requires
            old(self).wf(),
        ensures
            final(self).wf(),
            final(self).myself == old(self).myself,
            final(self).key == old(self).key,
            final(self).version == old(self).version,
            final(self).books == old(self).books,
            final(self).writer == old(self).writer,
            final(self).store == old(self).store,
            final(self).errors == old(self).errors,
            ({
                let known0 = Set::new(
                    |k: Seq<u8>|
                        book_ids(old(self).books_v()).contains(k) || expects(
                            old(self).resolve.pending@,
                        ).contains(Some(k)) || k == old(self).myself@.id,
                );
                let added = to_connect(list@.map_values(|p: PeerPresence| p@), known0);
                &&& final(self).resolve.pending@.len() == old(self).resolve.pending@.len()
                    + added.len()
                &&& forall|q: int|
                    0 <= q < old(self).resolve.pending@.len() ==> final(self).resolve.pending@[q]
                        == (#[trigger] old(self).resolve.pending@[q])
                &&& forall|q: int|
                    0 <= q < added.len() ==> pending_towards(
                        final(self).resolve.pending@[old(self).resolve.pending@.len() + q],
                        (#[trigger] added[q]).id,
                        old(self).version,
                        digest_of(old(self).key@),
                        enc_bytes(
                            enc_handshake(
                                HandshakeV {
                                    version: old(self).version,
                                    key_proof: digest_of(old(self).key@),
                                    presence: old(self).myself@.cleared_v(),
                                    tips: tips_of(old(self).store.entries()),
                                },
                            ),
                        ),
                    )
                &&& r@.len() == added.len()
                &&& forall|q: int|
                    0 <= q < added.len() ==> (#[trigger] r@[q]).0 == added[q].addr && r@[q].1
                        == old(self).resolve.pending@.len() + q
            }),
    {
        let ghost lv = list@.map_values(|p: PeerPresence| p@);
        let ghost known0 = Set::new(
            |k: Seq<u8>|
                book_ids(old(self).books_v()).contains(k) || expects(
                    old(self).resolve.pending@,
                ).contains(Some(k)) || k == old(self).myself@.id,
        );
        let ghost hello_v = enc_bytes(
            enc_handshake(
                HandshakeV {
                    version: old(self).version,
                    key_proof: digest_of(old(self).key@),
                    presence: old(self).myself@.cleared_v(),
                    tips: tips_of(old(self).store.entries()),
                },
            ),
        );
        let mut out: Vec<(Addr, usize)> = Vec::new();
        let ghost mut addedv: Seq<PresenceV> = Seq::empty();
        let ghost mut known_cur: Set<Seq<u8>> = known0;
        proof {
            assert(lv.skip(0) =~= lv);
        }
        let mut i: usize = 0;
        while i < list.len()
            invariant
                i <= list@.len(),
                lv == list@.map_values(|p: PeerPresence| p@),
                (known0 == Set::new(
                    |k: Seq<u8>|
                        book_ids(old(self).books_v()).contains(k) || expects(
                            old(self).resolve.pending@,
                        ).contains(Some(k)) || k == old(self).myself@.id,
                )),
                (hello_v == enc_bytes(
                    enc_handshake(
                        HandshakeV {
                            version: old(self).version,
                            key_proof: digest_of(old(self).key@),
                            presence: old(self).myself@.cleared_v(),
                            tips: tips_of(old(self).store.entries()),
                        },
                    ),
                )),
                self.wf(),
                self.myself == old(self).myself,
                self.key == old(self).key,
                self.version == old(self).version,
                self.books == old(self).books,
                self.writer == old(self).writer,
                self.store == old(self).store,
                self.errors == old(self).errors,
                to_connect(lv, known0) == addedv + to_connect(lv.skip(i as int), known_cur),
                forall|k: Seq<u8>|
                    #[trigger] known_cur.contains(k) <==> (known0.contains(k) || ids_of(
                        addedv,
                    ).contains(k)),
                self.resolve.pending@.len() == old(self).resolve.pending@.len() + addedv.len(),
                forall|q: int|
                    0 <= q < old(self).resolve.pending@.len() ==> self.resolve.pending@[q] == (
                    #[trigger] old(self).resolve.pending@[q]),
                forall|q: int|
                    0 <= q < addedv.len() ==> pending_towards(
                        self.resolve.pending@[old(self).resolve.pending@.len() + q],
                        (#[trigger] addedv[q]).id,
                        old(self).version,
                        digest_of(old(self).key@),
                        hello_v,
                    ),
                out@.len() == addedv.len(),
                forall|q: int|
                    0 <= q < addedv.len() ==> (#[trigger] out@[q]).0 == addedv[q].addr
                        && out@[q].1 == old(self).resolve.pending@.len() + q,
            decreases list@.len() - i,
    {
            let p = &list[i];
            let ghost pv = lv[i as int];
            proof {
                assert(p@ == pv);
            }
            let fits = p.id.len() == PEER_ID_LEN;
            let in_books = self.book_contains(&p.id);
            let in_flight = self.resolve.has_peer(&p.id);
            let is_self = ids_equal(p.id.as_slice(), self.myself.id.as_slice());
            proof {
                // in-flight test against the grown resolver equals
                // membership in the evolving known set
                if in_flight {
                    let w = choose|w: int|
                        0 <= w < self.resolve.pending@.len() && (match (
                        #[trigger] self.resolve.pending@[w]).expect {
                            Some(e) => e@ == pv.id,
                            None => false,
                        });
                    if w < old(self).resolve.pending@.len() {
                        assert(self.resolve.pending@[w] == old(self).resolve.pending@[w]);
                        assert(expects(old(self).resolve.pending@)[w] == Some(pv.id));
                        assert(expects(old(self).resolve.pending@).contains(Some(pv.id)));
                        assert(known0.contains(pv.id));
                    } else {
                        let q = w - old(self).resolve.pending@.len();
                        assert(pending_towards(
                            self.resolve.pending@[old(self).resolve.pending@.len() + q],
                            addedv[q].id,
                            old(self).version,
                            digest_of(old(self).key@),
                            hello_v,
                        ));
                        assert(addedv[q].id == pv.id);
                        assert(ids_of(addedv)[q] == pv.id);
                        assert(ids_of(addedv).contains(pv.id));
                    }
                    assert(known_cur.contains(pv.id));
                }
                if !in_flight && known_cur.contains(pv.id) && !in_books && !is_self {
                    // then it must be an expected or added identity
                    if known0.contains(pv.id) {
                        if expects(old(self).resolve.pending@).contains(Some(pv.id)) {
                            let w = choose|w: int|
                                0 <= w < expects(old(self).resolve.pending@).len() && expects(
                                    old(self).resolve.pending@,
                                )[w] == Some(pv.id);
                            assert(self.resolve.pending@[w] == old(self).resolve.pending@[w]);
                            assert(false);
                        }
                    } else {
                        let q = choose|q: int|
                            0 <= q < ids_of(addedv).len() && ids_of(addedv)[q] == pv.id;
                        assert(addedv[q].id == pv.id);
                        assert(pending_towards(
                            self.resolve.pending@[old(self).resolve.pending@.len() + q],
                            addedv[q].id,
                            old(self).version,
                            digest_of(old(self).key@),
                            hello_v,
                        ));
                        assert(false);
                    }
                }
                assert(lv.skip(i as int)[0] == pv);
                assert(lv.skip(i as int).skip(1) =~= lv.skip(i + 1));
            }
            if fits && !in_books && !in_flight && !is_self {
                proof {
                    assert(!known_cur.contains(pv.id));
                }
                let ghost added0 = addedv;
                let idx = self.begin_handshake(Some(clone_id(&p.id)));
                out.push((p.addr, idx));
                proof {
                    addedv = added0.push(pv);
                    known_cur = known_cur.insert(pv.id);
                    assert(to_connect(lv.skip(i as int), known_cur.remove(pv.id)) == seq![pv]
                        + to_connect(lv.skip(i + 1), known_cur.remove(pv.id).insert(pv.id)))
                        by {
                        assert(!known_cur.remove(pv.id).contains(pv.id));
                    }
                    assert(known_cur.remove(pv.id) =~= known_cur.remove(pv.id));
                    assert forall|k: Seq<u8>| #[trigger] known_cur.contains(k) <==> (
                    known0.contains(k) || ids_of(addedv).contains(k)) by {
                        if known_cur.contains(k) {
                            if k == pv.id {
                                assert(ids_of(addedv)[added0.len() as int] == pv.id);
                                assert(ids_of(addedv).contains(k));
                            } else {
                                if ids_of(added0).contains(k) {
                                    let w = choose|w: int|
                                        0 <= w < ids_of(added0).len() && ids_of(added0)[w] == k;
                                    assert(ids_of(addedv)[w] == k);
                                }
                            }
                        } else {
                            if ids_of(addedv).contains(k) {
                                let w = choose|w: int|
                                    0 <= w < ids_of(addedv).len() && ids_of(addedv)[w] == k;
                                if w < added0.len() {
                                    assert(ids_of(added0)[w] == k);
                                } else {
                                    assert(addedv[w] == pv);
                                }
                                assert(false);
                            }
                        }
                    }
                    let kc0 = known_cur.remove(pv.id);
                    assert(to_connect(lv, known0) == added0 + to_connect(lv.skip(i as int), kc0))
                        by {
                        assert(kc0 =~= known_cur.remove(pv.id));
                    }
                    assert(added0 + (seq![pv] + to_connect(lv.skip(i + 1), known_cur)) =~= addedv
                        + to_connect(lv.skip(i + 1), known_cur));
                    assert(pending_towards(
                        self.resolve.pending@[old(self).resolve.pending@.len()
                            + added0.len() as int],
                        pv.id,
                        old(self).version,
                        digest_of(old(self).key@),
                        hello_v,
                    ));
                }
            } else {
                proof {
                    if fits {
                        assert(known_cur.contains(pv.id)) by {
                            if in_books {
                                assert(known0.contains(pv.id));
                            }
                            if is_self {
                                assert(known0.contains(pv.id));
                            }
                        }
                    }
                    assert(to_connect(lv.skip(i as int), known_cur) == to_connect(
                        lv.skip(i + 1),
                        known_cur,
                    ));
                }
            }
            i = i + 1;
        }
        proof {
            assert(lv.skip(lv.len() as int).len() == 0);
            assert(to_connect(lv.skip(lv.len() as int), known_cur) == Seq::<PresenceV>::empty());
            assert(addedv + Seq::<PresenceV>::empty() =~= addedv);
            assert(to_connect(lv, known0) == addedv);
        }
        out
    }
}

/// A handshake machine prepared towards a known identity, carrying
/// this node's version, key proof, and hello frame.
pub open spec fn pending_towards(
    m: PendingPeer,
    id: Seq<u8>,
    version: u8,
    my_proof: Seq<u8>,
    hello: Seq<u8>,
) -> bool {
    &&& (match m.expect {
        Some(e) => e@ == id,
        None => false,
    })
    &&& !m.failed
    &&& m.version == version
    &&& m.my_proof@ == my_proof
    &&& m.hello@ == hello
}

impl Gossip {
    /// The packet pass: process one inbound packet from an established
    /// peer, in receipt order.
    ///
    /// - A peer-list request is answered with the book, without the
    ///   requester and with local-only fields cleared.
    /// - A peer-list reply triggers a connection to every peer not yet
    ///   known (full-mesh convergence).
    /// - A pushed transition is validated once; a rejected one counts a
    ///   protocol error and is dropped; a known one is silently
    ///   discarded, which stops the flood; a new one is stored,
    ///   rebroadcast to everyone, and surfaced to the caller.
    /// - A file delivery is surfaced; a file request is answered from
    ///   the store when the blob exists and fits a frame.  A stored
    ///   blob beyond [`MAX_BLOB`] is deliberately left unanswered, like
    ///   a missing one: the wire format cannot carry it, and a missing
    ///   file is already a silent, non-fatal outcome.
    /// - A close removes the sender from the book.
    pub fn handle_packet(&mut self, origin: &PeerId, packet: Packet) -> (r: PacketOutcome)
        requires
            old(self).wf(),
        ensures
            final(self).wf(),
            final(self).myself == old(self).myself,
            final(self).key == old(self).key,
            final(self).version == old(self).version,
            (match packet@ {
                PacketV::GetPeers(None) => {
                    &&& final(self).books == old(self).books
                    &&& final(self).store == old(self).store
                    &&& final(self).resolve == old(self).resolve
                    &&& final(self).errors == old(self).errors
                    &&& r.event is None
                    &&& r.connect@.len() == 0
                    &&& final(self).writer.ids() == old(self).writer.ids()
                    &&& forall|q: int|
                        0 <= q < old(self).writer.slots_v().len()
                            ==> final(self).writer.slots_v()[q].queue == (if (#[trigger] old(
                            self,
                        ).writer.slots_v()[q]).id == origin@ {
                            old(self).writer.slots_v()[q].queue.push(
                                PacketV::GetPeers(Some(peers_reply(old(self).books_v(), origin@))),
                            )
                        } else {
                            old(self).writer.slots_v()[q].queue
                        })
                },
                PacketV::GetPeers(Some(_)) => {
                    &&& final(self).books == old(self).books
                    &&& final(self).store == old(self).store
                    &&& final(self).writer == old(self).writer
                    &&& final(self).errors == old(self).errors
                    &&& r.event is None
                    &&& ({
                        let listv = (match packet@ {
                            PacketV::GetPeers(Some(l)) => l,
                            _ => Seq::empty(),
                        });
                        let known0 = Set::new(
                            |k: Seq<u8>|
                                book_ids(old(self).books_v()).contains(k) || expects(
                                    old(self).resolve.pending@,
                                ).contains(Some(k)) || k == old(self).myself@.id,
                        );
                        let added = to_connect(listv, known0);
                        &&& final(self).resolve.pending@.len() == old(
                            self,
                        ).resolve.pending@.len() + added.len()
                        &&& forall|q: int|
                            0 <= q < old(self).resolve.pending@.len()
                                ==> final(self).resolve.pending@[q] == (#[trigger] old(
                                self,
                            ).resolve.pending@[q])
                        &&& forall|q: int|
                            0 <= q < added.len() ==> pending_towards(
                                final(self).resolve.pending@[old(self).resolve.pending@.len()
                                    + q],
                                (#[trigger] added[q]).id,
                                old(self).version,
                                digest_of(old(self).key@),
                                enc_bytes(
                                    enc_handshake(
                                        HandshakeV {
                                            version: old(self).version,
                                            key_proof: digest_of(old(self).key@),
                                            presence: old(self).myself@.cleared_v(),
                                            tips: tips_of(old(self).store.entries()),
                                        },
                                    ),
                                ),
                            )
                        &&& r.connect@.len() == added.len()
                        &&& forall|q: int|
                            0 <= q < added.len() ==> (#[trigger] r.connect@[q]).0 == added[q].addr
                                && r.connect@[q].1 == old(self).resolve.pending@.len() + q
                    })
                },
                PacketV::Push(t) => {
                    &&& final(self).books == old(self).books
                    &&& final(self).resolve == old(self).resolve
                    &&& r.connect@.len() == 0
                    &&& final(self).store.entries() == push_store_effect(
                        old(self).store.entries(),
                        t,
                    )
                    &&& final(self).store.files_v() == old(self).store.files_v()
                    &&& final(self).errors == (if push_error(old(self).store.entries(), t) {
                        bump(old(self).errors)
                    } else {
                        old(self).errors
                    })
                    &&& (match r.event {
                        Some(p) => push_event(old(self).store.entries(), t) && p@
                            == PacketV::Push(t),
                        None => !push_event(old(self).store.entries(), t),
                    })
                    &&& final(self).writer.ids() == old(self).writer.ids()
                    &&& forall|q: int|
                        0 <= q < old(self).writer.slots_v().len()
                            ==> final(self).writer.slots_v()[q].queue == (if push_event(
                            old(self).store.entries(),
                            t,
                        ) {
                            (#[trigger] old(self).writer.slots_v()[q]).queue.push(
                                PacketV::Push(t),
                            )
                        } else {
                            old(self).writer.slots_v()[q].queue
                        })
                },
                PacketV::File(id, Some(d)) => {
                    &&& final(self).books == old(self).books
                    &&& final(self).store == old(self).store
                    &&& final(self).writer == old(self).writer
                    &&& final(self).resolve == old(self).resolve
                    &&& final(self).errors == old(self).errors
                    &&& r.connect@.len() == 0
                    &&& (match r.event {
                        Some(p) => p@ == packet@,
                        None => false,
                    })
                },
                PacketV::File(id, None) => {
                    &&& final(self).books == old(self).books
                    &&& final(self).store == old(self).store
                    &&& final(self).resolve == old(self).resolve
                    &&& final(self).errors == old(self).errors
                    &&& r.event is None
                    &&& r.connect@.len() == 0
                    &&& final(self).writer.ids() == old(self).writer.ids()
                    &&& (match file_lookup(old(self).store.files_v(), id) {
                        Some(d) => {
                            if id.len() <= MAX_BLOB && d.len() <= MAX_BLOB {
                                forall|q: int|
                                    0 <= q < old(self).writer.slots_v().len()
                                        ==> final(self).writer.slots_v()[q].queue == (if (
                                        #[trigger] old(self).writer.slots_v()[q]).id == origin@ {
                                        old(self).writer.slots_v()[q].queue.push(
                                            PacketV::File(id, Some(d)),
                                        )
                                    } else {
                                        old(self).writer.slots_v()[q].queue
                                    })
                            } else {
                                final(self).writer == old(self).writer
                            }
                        },
                        None => final(self).writer == old(self).writer,
                    })
                },
                PacketV::Close => {
                    &&& final(self).books_v() == drop_ids(old(self).books_v(), seq![origin@])
                    &&& !final(self).in_book(origin@)
                    &&& final(self).store == old(self).store
                    &&& final(self).writer == old(self).writer
                    &&& final(self).resolve == old(self).resolve
                    &&& final(self).errors == old(self).errors
                    &&& r.event is None
                    &&& r.connect@.len() == 0
                },
            }),
    {
        match packet {
            Packet::GetPeers(None) => {
                let ghost bv = self.books_v();
                let mut reply: Vec<PeerPresence> = Vec::new();
                proof {
                    assert(reply@.map_values(|p: PeerPresence| p@) =~= peers_reply(
                        bv.subrange(0, 0),
                        origin@,
                    ));
                }
                let mut i: usize = 0;
                while i < self.books.len()
                    invariant
                        i <= self.books@.len(),
                        bv == self.books_v(),
                        reply@.map_values(|p: PeerPresence| p@) == peers_reply(
                            bv.subrange(0, i as int),
                            origin@,
                        ),
                    decreases self.books@.len() - i,
                {
                    let ghost before = reply@.map_values(|p: PeerPresence| p@);
                    if !ids_equal(self.books[i].id.as_slice(), origin.as_slice()) {
                        reply.push(self.books[i].cleared());
                        proof {
                            assert(reply@.map_values(|p: PeerPresence| p@) =~~= before.push(
                                bv[i as int].cleared_v(),
                            ));
                        }
                    }
                    i = i + 1;
                    proof {
                        let pre = bv.subrange(0, i as int);
                        assert(pre.drop_last() =~= bv.subrange(0, i - 1));
                        assert(pre.last() == bv[i - 1]);
                        assert(reply@.map_values(|p: PeerPresence| p@) =~= peers_reply(
                            pre,
                            origin@,
                        ));
                    }
                }
                proof {
                    assert(bv.subrange(0, bv.len() as int) =~= bv);
                    lemma_peers_reply_wf(bv, origin@);
                    assert(Packet::GetPeers(Some(reply))@ == PacketV::GetPeers(
                        Some(peers_reply(bv, origin@)),
                    ));
                }
                self.writer.spread(
                    Packet::GetPeers(Some(reply)),
                    SpreadTo::Peer(clone_id(origin)),
                );
                PacketOutcome { event: None, connect: Vec::new() }
            },
            Packet::GetPeers(Some(list)) => {
                let connect = self.connect_peers(&list);
                PacketOutcome { event: None, connect }
            },
            Packet::Push(t) => {
                if !self.store.approve(&t) {
                    if self.errors < u64::MAX {
                        self.errors = self.errors + 1;
                    }
                    PacketOutcome { event: None, connect: Vec::new() }
                } else if self.store.has(&t.key) {
                    PacketOutcome { event: None, connect: Vec::new() }
                } else if self.store.log.len() >= MAX_ITEMS {
                    if self.errors < u64::MAX {
                        self.errors = self.errors + 1;
                    }
                    PacketOutcome { event: None, connect: Vec::new() }
                } else {
                    let ev = t.duplicate();
                    let rebroadcast = t.duplicate();
                    self.store.store(t);
                    self.writer.spread(Packet::Push(rebroadcast), SpreadTo::Everyone);
                    PacketOutcome { event: Some(Packet::Push(ev)), connect: Vec::new() }
                }
            },
            Packet::File(id, Some(d)) => {
                PacketOutcome { event: Some(Packet::File(id, Some(d))), connect: Vec::new() }
            },
            Packet::File(id, None) => {
                match self.store.get_file(&id) {
                    Some(data) => {
                        if id.len() <= MAX_BLOB && data.len() <= MAX_BLOB {
                            self.writer.spread(
                                Packet::File(id, Some(data)),
                                SpreadTo::Peer(clone_id(origin)),
                            );
                        }
                        PacketOutcome { event: None, connect: Vec::new() }
                    },
                    None => PacketOutcome { event: None, connect: Vec::new() },
                }
            },
            Packet::Close => {
                let ghost bv = self.books_v();
                let ghost ov = seq![origin@];
                let mut kept: Vec<PeerPresence> = Vec::new();
                proof {
                    assert(kept@.map_values(|p: PeerPresence| p@) =~= drop_ids(
                        bv.subrange(0, 0),
                        ov,
                    ));
                }
                let mut i: usize = 0;
                while i < self.books.len()
                    invariant
                        i <= self.books@.len(),
                        bv == self.books_v(),
                        ov == seq![origin@],
                        kept@.map_values(|p: PeerPresence| p@) == drop_ids(
                            bv.subrange(0, i as int),
                            ov,
                        ),
                    decreases self.books@.len() - i,
                {
                    let ghost before = kept@.map_values(|p: PeerPresence| p@);
                    if !ids_equal(self.books[i].id.as_slice(), origin.as_slice()) {
                        kept.push(self.books[i].duplicate());
                        proof {
                            assert(!ov.contains(bv[i as int].id)) by {
                                if ov.contains(bv[i as int].id) {
                                    assert(ov[0] == origin@);
                                }
                            }
                            assert(kept@.map_values(|p: PeerPresence| p@) =~= before.push(
                                bv[i as int],
                            ));
                        }
                    } else {
                        proof {
                            assert(ov.contains(bv[i as int].id)) by {
                                assert(ov[0] == bv[i as int].id);
                            }
                        }
                    }
                    i = i + 1;
                    proof {
                        let pre = bv.subrange(0, i as int);
                        assert(pre.drop_last() =~= bv.subrange(0, i - 1));
                        assert(pre.last() == bv[i - 1]);
                        assert(kept@.map_values(|p: PeerPresence| p@) =~= drop_ids(pre, ov));
                    }
                }
                proof {
                    assert(bv.subrange(0, bv.len() as int) =~= bv);
                }
                self.books = kept;
                proof {
                    lemma_drop_ids(old(self).books_v(), ov);
                    if self.in_book(origin@) {
                        let w = choose|w: int|
                            0 <= w < book_ids(self.books_v()).len() && book_ids(
                                self.books_v(),
                            )[w] == origin@;
                        assert(self.books_v()[w].id == origin@);
                        assert(ov.contains(origin@)) by {
                            assert(ov[0] == origin@);
                        }
                        assert(false);
                    }
                    assert forall|i2: int, j2: int|
                        0 <= i2 < j2 < self.books_v().len() implies (
                    #[trigger] self.books_v()[i2]).id != (#[trigger] self.books_v()[j2]).id by {
                        lemma_drop_ids_unique(old(self).books_v(), ov, i2, j2);
                    }
                }
                PacketOutcome { event: None, connect: Vec::new() }
            },
        }
    }
}

/// Law: deduplication.  Once a pushed transition has been accepted,
/// handling any further push with the same key stores nothing and
/// surfaces nothing — the same key is stored exactly once and at most
/// one accepted event is produced for it.
pub proof fn lemma_push_dedup(es: Seq<TransitionV>, t1: TransitionV, t2: TransitionV)
    requires
        t2.key == t1.key,
        push_event(es, t1),
    ensures
        push_store_effect(push_store_effect(es, t1), t2) == push_store_effect(es, t1),
        !push_event(push_store_effect(es, t1), t2),
{
    let es1 = push_store_effect(es, t1);
    assert(es1 == es.push(t1));
    assert(es1[es.len() as int] == t1);
    assert(log_has_key(es1, t2.key));
}

} // verus!
