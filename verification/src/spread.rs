//! Spread: the outbound multiplexer.
//!
//! Every outbound packet passes through here.  Each established peer
//! owns a slot holding its send queue; `spread` only buffers, and a
//! flush pass encodes the queued packets into frames for the embedding
//! program to write.  A peer whose flush fails is pruned: it leaves the
//! registry at once and nothing further is queued for it.

use vstd::prelude::*;
use crate::types::{PeerId, SpreadTo, clone_id, ids_equal, PEER_ID_LEN};
use crate::transition::{Transition, TransitionKey, key_of};
use crate::wire::{Packet, PacketV, enc_packet, encode_packet, frame_payload, lemma_frame_fits};
use crate::store::{Store, log_has_key, tips_of, lemma_tips_wf};
use crate::bytes_codec::{enc_bytes, KEY_LEN, MAX_ITEMS, MAX_BLOB};

verus! {

/// One peer's outbound slot: its identifier and its send queue.
pub struct SpreadEntry {
    pub id: PeerId,
    pub queue: Vec<Packet>,
}

/// Mathematical image of a [`SpreadEntry`].
#[verifier::ext_equal]
pub ghost struct SlotV {
    pub id: Seq<u8>,
    pub queue: Seq<PacketV>,
}

impl View for SpreadEntry {
    type V = SlotV;

    open spec fn view(&self) -> SlotV {
        SlotV { id: self.id@, queue: self.queue@.map_values(|p: Packet| p@) }
    }
}

/// The outbound registry: one slot per established peer.
pub struct Spread {
    pub my_id: PeerId,
    pub slots: Vec<SpreadEntry>,
}

impl Spread {
    /// The slots as mathematical values.
    pub open spec fn slots_v(&self) -> Seq<SlotV> {
        self.slots@.map_values(|e: SpreadEntry| e@)
    }

    /// The registered peer identifiers, in slot order.
    pub open spec fn ids(&self) -> Seq<Seq<u8>> {
        self.slots_v().map_values(|s: SlotV| s.id)
    }

    /// Is a peer registered?
    pub open spec fn has_id(&self, id: Seq<u8>) -> bool {
        self.ids().contains(id)
    }

    /// Registry invariant: own identifier full length, registered
    /// identifiers unique, every queued packet fit for the wire.
    pub open spec fn wf(&self) -> bool {
        &&& self.my_id@.len() == PEER_ID_LEN
        &&& forall|i: int, j: int|
            0 <= i < j < self.ids().len() ==> self.ids()[i] != self.ids()[j]
        &&& forall|i: int, qi: int|
            0 <= i < self.slots_v().len() && 0 <= qi < self.slots_v()[i].queue.len() ==> (
            #[trigger] self.slots_v()[i].queue[qi]).wire_wf()
    }

    /// An empty registry for a node with the given identity.
    pub fn new(my_id: PeerId) -> (r: Spread)
        requires
            my_id@.len() == PEER_ID_LEN,
        ensures
            r.my_id@ == my_id@,
            r.slots_v() == Seq::<SlotV>::empty(),
            r.wf(),
    {
        let r = Spread { my_id, slots: Vec::new() };
        proof {
            assert(r.slots_v() =~= Seq::<SlotV>::empty());
        }
        r
    }

    /// Register a newly established peer and return its slot index.
    /// Duplicate identities are rejected before this point, so the
    /// identifier must be new.
    pub fn add_peer(&mut self, id: &PeerId) -> (r: usize)
        requires
            old(self).wf(),
            id@.len() == PEER_ID_LEN,
            !old(self).has_id(id@),
        ensures
            r == old(self).slots_v().len(),
            final(self).my_id@ == old(self).my_id@,
            final(self).slots_v() == old(self).slots_v().push(
                SlotV { id: id@, queue: Seq::empty() },
            ),
            final(self).wf(),
    {
        let n = self.slots.len();
        let fresh: Vec<Packet> = Vec::new();
        let entry = SpreadEntry { id: clone_id(id), queue: fresh };
        proof {
            assert(entry@.id == id@);
            assert(entry@.queue =~= Seq::<PacketV>::empty());
        }
        self.slots.push(entry);
        proof {
            assert(self.slots_v() =~~= old(self).slots_v().push(
                SlotV { id: id@, queue: Seq::empty() },
            ));
            assert forall|i: int, j: int| 0 <= i < j < self.ids().len() implies self.ids()[i]
                != self.ids()[j] by {
                if j < old(self).ids().len() {
                    assert(old(self).ids()[i] != old(self).ids()[j]);
                } else {
                    assert(!old(self).ids().contains(id@));
                    assert(old(self).ids()[i] != id@);
                }
            }
        }
        n
    }

    /// Queue a packet for every registered peer, or for one peer (a
    /// no-op if it is absent).  Buffering performs no output.
    pub fn spread(&mut self, packet: Packet, dest: SpreadTo)
        requires
            old(self).wf(),
            packet@.wire_wf(),
        ensures
            final(self).my_id@ == old(self).my_id@,
            final(self).slots_v().len() == old(self).slots_v().len(),
            final(self).ids() == old(self).ids(),
            (match dest {
                SpreadTo::Everyone => forall|i: int|
                    0 <= i < old(self).slots_v().len() ==> final(self).slots_v()[i].queue == (
                    #[trigger] old(self).slots_v()[i]).queue.push(packet@),
                SpreadTo::Peer(id) => forall|i: int|
                    0 <= i < old(self).slots_v().len() ==> final(self).slots_v()[i].queue == (
                    if (#[trigger] old(self).slots_v()[i]).id == id@ {
                        old(self).slots_v()[i].queue.push(packet@)
                    } else {
                        old(self).slots_v()[i].queue
                    }),
            }),
            final(self).wf(),
    {
        match dest {
            SpreadTo::Everyone => {
                let mut i: usize = 0;
                while i < self.slots.len()
                    invariant
                        i <= self.slots@.len(),
                        packet@.wire_wf(),
                        self.my_id@ == old(self).my_id@,
                        self.slots_v().len() == old(self).slots_v().len(),
                        forall|q: int|
                            0 <= q < self.slots_v().len() ==> (#[trigger] self.slots_v()[q]).id
                                == old(self).slots_v()[q].id,
                        forall|q: int|
                            0 <= q < i ==> (#[trigger] self.slots_v()[q]).queue == old(
                                self,
                            ).slots_v()[q].queue.push(packet@),
                        forall|q: int|
                            i <= q < self.slots_v().len() ==> (#[trigger] self.slots_v()[q]).queue
                                == old(self).slots_v()[q].queue,
                    decreases self.slots@.len() - i,
                {
                    let ghost prev = self.slots_v();
                    self.slots[i].queue.push(packet.duplicate());
                    proof {
                        assert(self.slots_v()[i as int].queue =~= prev[i as int].queue.push(
                            packet@,
                        ));
                        assert forall|q: int|
                            0 <= q < self.slots_v().len() && q != i implies (
                        #[trigger] self.slots_v()[q]) == prev[q] by {}
                    }
                    i = i + 1;
                }
                proof {
                    assert(self.ids() =~= old(self).ids());
                    spread_wf_after(old(self).slots_v(), self.slots_v(), packet@);
                }
            },
            SpreadTo::Peer(id) => {
                let mut i: usize = 0;
                while i < self.slots.len()
                    invariant
                        i <= self.slots@.len(),
                        packet@.wire_wf(),
                        self.my_id@ == old(self).my_id@,
                        self.slots_v().len() == old(self).slots_v().len(),
                        forall|q: int|
                            0 <= q < self.slots_v().len() ==> (#[trigger] self.slots_v()[q]).id
                                == old(self).slots_v()[q].id,
                        forall|q: int|
                            0 <= q < i ==> (#[trigger] self.slots_v()[q]).queue == (if old(
                                self,
                            ).slots_v()[q].id == id@ {
                                old(self).slots_v()[q].queue.push(packet@)
                            } else {
                                old(self).slots_v()[q].queue
                            }),
                        forall|q: int|
                            i <= q < self.slots_v().len() ==> (#[trigger] self.slots_v()[q]).queue
                                == old(self).slots_v()[q].queue,
                    decreases self.slots@.len() - i,
                {
                    let ghost prev = self.slots_v();
                    if ids_equal(self.slots[i].id.as_slice(), id.as_slice()) {
                        self.slots[i].queue.push(packet.duplicate());
                        proof {
                            assert(self.slots_v()[i as int].queue =~= prev[i as int].queue.push(
                                packet@,
                            ));
                            assert forall|q: int|
                                0 <= q < self.slots_v().len() && q != i implies (
                            #[trigger] self.slots_v()[q]) == prev[q] by {}
                        }
                    }
                    i = i + 1;
                }
                proof {
                    assert(self.ids() =~= old(self).ids());
                    spread_wf_after(old(self).slots_v(), self.slots_v(), packet@);
                }
            },
        }
    }

    /// Encode and clear one peer's queue, returning the frames to
    /// write, oldest first.
    pub fn flush_frames(&mut self, i: usize) -> (r: Vec<Vec<u8>>)
        requires
            old(self).wf(),
            i < old(self).slots_v().len(),
        ensures
            final(self).my_id@ == old(self).my_id@,
            final(self).ids() == old(self).ids(),
            final(self).slots_v().len() == old(self).slots_v().len(),
            final(self).slots_v()[i as int].queue == Seq::<PacketV>::empty(),
            forall|q: int|
                0 <= q < old(self).slots_v().len() && q != i ==> final(self).slots_v()[q].queue
                    == (#[trigger] old(self).slots_v()[q]).queue,
            r@.map_values(|f: Vec<u8>| f@) == old(self).slots_v()[i as int].queue.map_values(
                |p: PacketV| enc_bytes(enc_packet(p)),
            ),
            final(self).wf(),
    {
        let ghost qv = old(self).slots_v()[i as int].queue;
        let mut frames: Vec<Vec<u8>> = Vec::new();
        let mut qi: usize = 0;
        proof {
            assert(frames@.map_values(|f: Vec<u8>| f@) =~= qv.subrange(0, 0).map_values(
                |p: PacketV| enc_bytes(enc_packet(p)),
            ));
        }
        while qi < self.slots[i].queue.len()
            invariant
                i < self.slots@.len(),
                qi <= qv.len(),
                *self == *old(self),
                qv == self.slots_v()[i as int].queue,
                old(self).wf(),
                frames@.map_values(|f: Vec<u8>| f@) == qv.subrange(0, qi as int).map_values(
                    |p: PacketV| enc_bytes(enc_packet(p)),
                ),
            decreases qv.len() - qi,
        {
            proof {
                assert(self.slots_v()[i as int].queue[qi as int].wire_wf());
                lemma_frame_fits(qv[qi as int]);
                assert(self.slots@[i as int].queue@[qi as int]@ == qv[qi as int]);
            }
            let ghost before = frames@.map_values(|f: Vec<u8>| f@);
            let payload = encode_packet(&self.slots[i].queue[qi]);
            let framed = frame_payload(&payload);
            frames.push(framed);
            qi = qi + 1;
            proof {
                assert(frames@.map_values(|f: Vec<u8>| f@) =~= before.push(
                    enc_bytes(enc_packet(qv[qi - 1])),
                ));
                assert(qv.subrange(0, qi as int).map_values(
                    |p: PacketV| enc_bytes(enc_packet(p)),
                ) =~= before.push(enc_bytes(enc_packet(qv[qi - 1]))));
            }
        }
        proof {
            assert(qv.subrange(0, qv.len() as int) =~= qv);
        }
        let ghost prev = self.slots_v();
        self.slots[i].queue = Vec::new();
        proof {
            assert(self.slots_v()[i as int].queue =~= Seq::<PacketV>::empty());
            assert forall|q: int|
                0 <= q < self.slots_v().len() && q != i implies (#[trigger] self.slots_v()[q])
                    == prev[q] by {}
            assert(self.ids() =~= old(self).ids());
            assert forall|q: int, q2: int|
                0 <= q < self.slots_v().len() && 0 <= q2 < self.slots_v()[q].queue.len() implies (
            #[trigger] self.slots_v()[q].queue[q2]).wire_wf() by {
                if q != i {
                    assert(self.slots_v()[q] == old(self).slots_v()[q]);
                    assert(old(self).slots_v()[q].queue[q2].wire_wf());
                }
            }
        }
        frames
    }

    /// Remove every peer whose flush failed.  Afterwards none of the
    /// dead peers is registered, so nothing further can be queued for
    /// them; the surviving slots keep their order and queues.
    pub fn prune(&mut self, dead: &Vec<PeerId>)
        requires
            old(self).wf(),
        ensures
            final(self).my_id@ == old(self).my_id@,
            final(self).slots_v() == keep_alive(
                old(self).slots_v(),
                dead@.map_values(|d: PeerId| d@),
            ),
            forall|d: int|
                0 <= d < dead@.len() ==> !final(self).has_id(#[trigger] dead@[d]@),
            final(self).wf(),
    {
        let ghost dv = dead@.map_values(|d: PeerId| d@);
        let mut kept: Vec<SpreadEntry> = Vec::new();
        let ghost n = self.slots@.len();
        proof {
            assert(kept@.map_values(|e: SpreadEntry| e@) =~= keep_alive(
                self.slots_v().subrange(0, 0),
                dv,
            ));
        }
        let mut i: usize = 0;
        while i < self.slots.len()
            invariant
                i <= self.slots@.len(),
                dv == dead@.map_values(|d: PeerId| d@),
                kept@.map_values(|e: SpreadEntry| e@) == keep_alive(
                    self.slots_v().subrange(0, i as int),
                    dv,
                ),
            decreases self.slots@.len() - i,
        {
            let ghost before = kept@.map_values(|e: SpreadEntry| e@);
            if !id_in(dead, &self.slots[i].id) {
                let e = &self.slots[i];
                kept.push(SpreadEntry { id: clone_id(&e.id), queue: dup_queue(&e.queue) });
                proof {
                    assert(kept@.map_values(|e: SpreadEntry| e@) =~= before.push(
                        self.slots_v()[i as int],
                    ));
                }
            }
            i = i + 1;
            proof {
                let pre = self.slots_v().subrange(0, i as int);
                assert(pre.drop_last() =~= self.slots_v().subrange(0, i - 1));
                assert(pre.last() == self.slots_v()[i - 1]);
                assert(kept@.map_values(|e: SpreadEntry| e@) =~= keep_alive(pre, dv));
            }
        }
        proof {
            assert(self.slots_v().subrange(0, self.slots_v().len() as int) =~= self.slots_v());
        }
        self.slots = kept;
        proof {
            lemma_keep_alive(old(self).slots_v(), dv);
            assert forall|d: int| 0 <= d < dead@.len() implies !self.has_id(
                #[trigger] dead@[d]@,
            ) by {
                if self.has_id(dead@[d]@) {
                    let w = choose|w: int| 0 <= w < self.ids().len() && self.ids()[w]
                        == dead@[d]@;
                    assert(self.slots_v()[w].id == dead@[d]@);
                    assert(dv.contains(dead@[d]@)) by {
                        assert(dv[d] == dead@[d]@);
                    }
                }
            }
            assert forall|a: int, b: int|
                0 <= a < b < old(self).slots_v().len() implies (#[trigger] old(
                self,
            ).slots_v()[a]).id != (#[trigger] old(self).slots_v()[b]).id by {
                assert(old(self).ids()[a] == old(self).slots_v()[a].id);
                assert(old(self).ids()[b] == old(self).slots_v()[b].id);
            }
            assert forall|i2: int, j2: int| 0 <= i2 < j2 < self.ids().len() implies self.ids()[i2]
                != self.ids()[j2] by {
                lemma_keep_alive_unique(old(self).slots_v(), dv, i2, j2);
                assert(self.ids()[i2] == self.slots_v()[i2].id);
                assert(self.ids()[j2] == self.slots_v()[j2].id);
            }
        }
    }
}

/// The slots whose identifier is not among the dead, in order.
pub open spec fn keep_alive(slots: Seq<SlotV>, dead: Seq<Seq<u8>>) -> Seq<SlotV>
    decreases slots.len(),
{
    if slots.len() == 0 {
        Seq::empty()
    } else if dead.contains(slots.last().id) {
        keep_alive(slots.drop_last(), dead)
    } else {
        keep_alive(slots.drop_last(), dead).push(slots.last())
    }
}

/// Every surviving slot comes from the input slots, is alive, and the
/// input order is kept.
proof fn lemma_keep_alive(slots: Seq<SlotV>, dead: Seq<Seq<u8>>)
    ensures
        forall|k: int|
            0 <= k < keep_alive(slots, dead).len() ==> !dead.contains(
                (#[trigger] keep_alive(slots, dead)[k]).id,
            ) && exists|w: int| 0 <= w < slots.len() && slots[w] == keep_alive(slots, dead)[k],
        keep_alive(slots, dead).len() <= slots.len(),
    decreases slots.len(),
{
    if slots.len() > 0 {
        lemma_keep_alive(slots.drop_last(), dead);
        let r = keep_alive(slots, dead);
        let r0 = keep_alive(slots.drop_last(), dead);
        assert forall|k: int| 0 <= k < r.len() implies !dead.contains((#[trigger] r[k]).id)
            && exists|w: int| 0 <= w < slots.len() && slots[w] == r[k] by {
            if k < r0.len() {
                assert(!dead.contains(r0[k].id));
                let w = choose|w: int|
                    0 <= w < slots.drop_last().len() && slots.drop_last()[w] == r0[k];
                assert(slots[w] == r[k]);
            } else {
                assert(r[k] == slots.last());
                assert(slots[slots.len() - 1] == r[k]);
            }
        }
    }
}

/// Distinct surviving slots at distinct positions come from distinct
/// input slots, so unique identifiers stay unique.
proof fn lemma_keep_alive_unique(slots: Seq<SlotV>, dead: Seq<Seq<u8>>, i: int, j: int)
    requires
        forall|a: int, b: int|
            0 <= a < b < slots.len() ==> (#[trigger] slots[a]).id != (#[trigger] slots[b]).id,
        0 <= i < j < keep_alive(slots, dead).len(),
    ensures
        keep_alive(slots, dead)[i].id != keep_alive(slots, dead)[j].id,
    decreases slots.len(),
{
    let r = keep_alive(slots, dead);
    let r0 = keep_alive(slots.drop_last(), dead);
    if j < r0.len() {
        lemma_keep_alive_unique(slots.drop_last(), dead, i, j);
    } else {
        // j is the appended last slot; i survives from the prefix
        assert(r[j] == slots.last());
        lemma_keep_alive(slots.drop_last(), dead);
        let w = choose|w: int|
            0 <= w < slots.drop_last().len() && slots.drop_last()[w] == r0[i];
        assert(slots[w] == r[i]);
        assert(slots[w].id != slots[slots.len() - 1].id);
    }
}

/// Is `id` among the listed identifiers?
fn id_in(v: &Vec<PeerId>, id: &PeerId) -> (r: bool)
    ensures
        r == v@.map_values(|d: PeerId| d@).contains(id@),
{
    let mut i: usize = 0;
    while i < v.len()
        invariant
            i <= v@.len(),
            forall|q: int| 0 <= q < i ==> (#[trigger] v@[q])@ != id@,
        decreases v@.len() - i,
    {
        if ids_equal(v[i].as_slice(), id.as_slice()) {
            proof {
                assert(v@.map_values(|d: PeerId| d@)[i as int] == id@);
            }
            return true;
        }
        i = i + 1;
    }
    proof {
        let mv = v@.map_values(|d: PeerId| d@);
        if mv.contains(id@) {
            let w = choose|w: int| 0 <= w < mv.len() && mv[w] == id@;
            assert(v@[w]@ == id@);
        }
    }
    false
}

/// Copy a queue of packets.
fn dup_queue(q: &Vec<Packet>) -> (r: Vec<Packet>)
    ensures
        r@.map_values(|p: Packet| p@) == q@.map_values(|p: Packet| p@),
{
    let mut out: Vec<Packet> = Vec::new();
    let mut i: usize = 0;
    while i < q.len()
        invariant
            i <= q@.len(),
            out@.map_values(|p: Packet| p@) == q@.map_values(|p: Packet| p@).subrange(
                0,
                i as int,
            ),
        decreases q@.len() - i,
    {
        let ghost before = out@.map_values(|p: Packet| p@);
        out.push(q[i].duplicate());
        i = i + 1;
        proof {
            let full = q@.map_values(|p: Packet| p@);
            assert(out@.map_values(|p: Packet| p@) =~= before.push(q@[i - 1]@));
            assert(before.push(full[i - 1]) =~= full.subrange(0, i as int));
        }
    }
    proof {
        let full = q@.map_values(|p: Packet| p@);
        assert(full.subrange(0, full.len() as int) =~= full);
    }
    out
}

/// Queues that only grew by one well-formed packet keep the queue
/// invariant.
proof fn spread_wf_after(before: Seq<SlotV>, after: Seq<SlotV>, p: PacketV)
    requires
        p.wire_wf(),
        before.len() == after.len(),
        forall|i: int, qi: int|
            0 <= i < before.len() && 0 <= qi < before[i].queue.len() ==> (
            #[trigger] before[i].queue[qi]).wire_wf(),
        forall|i: int|
            0 <= i < after.len() ==> (#[trigger] after[i]).queue == before[i].queue || after[
                i].queue == before[i].queue.push(p),
    ensures
        forall|i: int, qi: int|
            0 <= i < after.len() && 0 <= qi < after[i].queue.len() ==> (
            #[trigger] after[i].queue[qi]).wire_wf(),
{
    assert forall|i: int, qi: int|
        0 <= i < after.len() && 0 <= qi < after[i].queue.len() implies (
    #[trigger] after[i].queue[qi]).wire_wf() by {
        if after[i].queue == before[i].queue {
            assert(before[i].queue[qi].wire_wf());
        } else {
            if qi < before[i].queue.len() {
                assert(before[i].queue[qi].wire_wf());
                assert(after[i].queue[qi] == before[i].queue[qi]);
            } else {
                assert(after[i].queue[qi] == p);
            }
        }
    }
}

impl Spread {
    /// Create and disseminate a new local transition: its parents are
    /// the store's current frontier, it passes the same approval check
    /// as any received transition before it is stored (and is skipped
    /// if its key is somehow already present), and a push packet is
    /// queued for every registered peer.  This is the sole path by
    /// which local application data enters the DAG.
    pub fn push(&mut self, store: &mut Store, payload: Vec<u8>) -> (r: Transition)
        requires
            old(self).wf(),
            old(store).wf(),
            old(store).entries().len() <= MAX_ITEMS,
            payload@.len() <= MAX_BLOB,
        ensures
            final(self).my_id@ == old(self).my_id@,
            final(self).ids() == old(self).ids(),
            r@.author == old(self).my_id@,
            r@.parents == tips_of(old(store).entries()),
            r@.body == payload@,
            r@.key == key_of(r@.author, r@.parents, r@.body),
            (if !log_has_key(old(store).entries(), r@.key) {
                &&& final(store).entries() == old(store).entries().push(r@)
                &&& forall|i: int|
                    0 <= i < old(self).slots_v().len() ==> final(self).slots_v()[i].queue == (
                    #[trigger] old(self).slots_v()[i]).queue.push(PacketV::Push(r@))
            } else {
                &&& final(store).entries() == old(store).entries()
                &&& final(self).slots_v() == old(self).slots_v()
            }),
            final(store).files_v() == old(store).files_v(),
            final(self).wf(),
            final(store).wf(),
    {
        proof {
            lemma_tips_wf(*store);
        }
        let tips = store.tips();
        proof {
            assert forall|i: int| 0 <= i < tips@.len() implies (#[trigger] tips@[i])@.len()
                == KEY_LEN by {
                assert(tips@.map_values(|k: TransitionKey| k@)[i] == tips@[i]@);
                assert(tips_of(store.entries())[i].len() == KEY_LEN);
            }
            assert(tips@.len() == tips_of(store.entries()).len());
        }
        let t = Transition::new(clone_id(&self.my_id), tips, payload);
        let dup = t.duplicate();
        proof {
            assert forall|pi: int| 0 <= pi < t@.parents.len() implies log_has_key(
                store.entries(),
                #[trigger] t@.parents[pi],
            ) by {
                assert(t@.parents[pi] == tips_of(store.entries())[pi]);
            }
        }
        let approved = store.approve(&t);
        proof {
            assert(approved);
        }
        if approved && !store.has(t.key()) {
            store.store(dup);
            self.spread(Packet::Push(t.duplicate()), SpreadTo::Everyone);
        }
        t
    }
}

impl Spread {
    /// Is a peer registered, as an executable test?
    pub fn contains_id(&self, id: &PeerId) -> (r: bool)
        ensures
            r == self.has_id(id@),
    {
        let mut i: usize = 0;
        while i < self.slots.len()
            invariant
                i <= self.slots@.len(),
                forall|q: int| 0 <= q < i ==> (#[trigger] self.slots_v()[q]).id != id@,
            decreases self.slots@.len() - i,
        {
            if ids_equal(self.slots[i].id.as_slice(), id.as_slice()) {
                proof {
                    assert(self.ids()[i as int] == id@);
                }
                return true;
            }
            proof {
                assert(self.slots_v()[i as int].id == self.slots@[i as int]@.id);
            }
            i = i + 1;
        }
        proof {
            if self.has_id(id@) {
                let w = choose|w: int| 0 <= w < self.ids().len() && self.ids()[w] == id@;
                assert(self.slots_v()[w].id == id@);
            }
        }
        false
    }
}

} // verus!
