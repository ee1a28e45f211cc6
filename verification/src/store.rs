//! The local DAG store: the storage capability the gossip core consults
//! and updates (tips, approval, deduplication, replication deltas, file
//! blobs).
//!
//! Transitions are kept in insertion order in an append-only table.  The
//! store's invariant pins down what the protocol relies on: every stored
//! transition was approved when it was stored (its key matches its
//! content and its parents precede it), and keys are unique.

use vstd::prelude::*;
use crate::types::{clone_id, ids_equal};
use crate::transition::{Transition, TransitionV, TransitionKey};
use crate::bytes_codec::{MAX_FIELD, KEY_LEN};

verus! {

/// The append-only transition table and the file blobs.
pub struct Store {
    pub log: Vec<Transition>,
    pub files: Vec<(Vec<u8>, Vec<u8>)>,
}

// ---------------------------------------------------------------------
// spec model

/// Does any entry of `es` carry the key `k`?
pub open spec fn log_has_key(es: Seq<TransitionV>, k: Seq<u8>) -> bool {
    exists|i: int| 0 <= i < es.len() && (#[trigger] es[i]).key == k
}

/// Does any entry with index below `upto` carry the key `k`?
pub open spec fn key_in_prefix(es: Seq<TransitionV>, upto: int, k: Seq<u8>) -> bool {
    exists|i: int| 0 <= i < upto && (#[trigger] es[i]).key == k
}

/// Is `k` among the parents of `t`?
pub open spec fn parent_of(t: TransitionV, k: Seq<u8>) -> bool {
    exists|pi: int| 0 <= pi < t.parents.len() && (#[trigger] t.parents[pi]) == k
}

/// Does any entry of `es` name `k` as a parent?
pub open spec fn has_child(es: Seq<TransitionV>, k: Seq<u8>) -> bool {
    exists|j: int| 0 <= j < es.len() && parent_of(#[trigger] es[j], k)
}

/// All parents of `t` are keys of entries of `es`.
pub open spec fn parents_known(es: Seq<TransitionV>, t: TransitionV) -> bool {
    forall|pi: int| 0 <= pi < t.parents.len() ==> log_has_key(es, #[trigger] t.parents[pi])
}

/// What the store demands of a transition before it is stored: well
/// formed, key derived from content, and all parents already present.
pub open spec fn approve_spec(es: Seq<TransitionV>, t: TransitionV) -> bool {
    &&& t.wf()
    &&& t.keyed()
    &&& parents_known(es, t)
}

impl Store {
    /// The stored transitions, in insertion order.
    pub open spec fn entries(&self) -> Seq<TransitionV> {
        self.log@.map_values(|t: Transition| t@)
    }

    /// The stored file table.
    pub open spec fn files_v(&self) -> Seq<(Seq<u8>, Seq<u8>)> {
        self.files@.map_values(|f: (Vec<u8>, Vec<u8>)| (f.0@, f.1@))
    }

    /// The store's invariant.  Every entry was approved when it was
    /// stored: it is well formed, its key is derived from its content,
    /// and its parents are keys of strictly earlier entries.  Keys are
    /// unique, so each transition is stored at most once.
    pub open spec fn wf(&self) -> bool {
        &&& forall|i: int| 0 <= i < self.entries().len() ==> (#[trigger] self.entries()[i]).wf()
        &&& forall|i: int| 0 <= i < self.entries().len() ==> (#[trigger] self.entries()[i]).keyed()
        &&& forall|i: int, j: int|
            0 <= i < j < self.entries().len() ==> (#[trigger] self.entries()[i]).key != (
            #[trigger] self.entries()[j]).key
        &&& forall|i: int, pi: int|
            0 <= i < self.entries().len() && 0 <= pi < self.entries()[i].parents.len()
                ==> key_in_prefix(
                self.entries(),
                i,
                #[trigger] self.entries()[i].parents[pi],
            )
    }

    /// An empty store.
    pub fn new() -> (r: Store)
        ensures
            r.entries() == Seq::<TransitionV>::empty(),
            r.files_v() == Seq::<(Seq<u8>, Seq<u8>)>::empty(),
            r.wf(),
    {
        let r = Store { log: Vec::new(), files: Vec::new() };
        proof {
            assert(r.entries() =~= Seq::<TransitionV>::empty());
            assert(r.files_v() =~= Seq::<(Seq<u8>, Seq<u8>)>::empty());
        }
        r
    }

    /// Is a transition with this key already stored?
    pub fn has(&self, k: &TransitionKey) -> (r: bool)
        ensures
            r == log_has_key(self.entries(), k@),
    {
        let mut i: usize = 0;
        while i < self.log.len()
            invariant
                i <= self.log@.len(),
                forall|j: int| 0 <= j < i ==> (#[trigger] self.entries()[j]).key != k@,
            decreases self.log@.len() - i,
        {
            if ids_equal(self.log[i].key.as_slice(), k.as_slice()) {
                proof {
                    assert(self.entries()[i as int].key == k@);
                }
                return true;
            }
            i = i + 1;
        }
        false
    }

    /// Validate a transition against the current store: field bounds,
    /// content-derived key, and parents all present.
    pub fn approve(&self, t: &Transition) -> (r: bool)
        ensures
            r == approve_spec(self.entries(), t@),
    {
        if !t.check_wf() {
            return false;
        }
        if !t.matches_key() {
            return false;
        }
        let mut pi: usize = 0;
        while pi < t.parents.len()
            invariant
                pi <= t.parents@.len(),
                t@.wf(),
                forall|q: int| 0 <= q < pi ==> log_has_key(self.entries(), #[trigger] t@.parents[q]),
            decreases t.parents@.len() - pi,
        {
            if !self.has(&t.parents[pi]) {
                proof {
                    assert(t@.parents[pi as int] == t.parents@[pi as int]@);
                }
                return false;
            }
            pi = pi + 1;
        }
        proof {
            assert(forall|q: int| 0 <= q < t@.parents.len() ==> log_has_key(
                self.entries(),
                #[trigger] t@.parents[q],
            ));
        }
        true
    }

    /// Append an approved, new transition.  This is the only way the
    /// table grows, so the invariant records that approval preceded
    /// every store.
    pub fn store(&mut self, t: Transition)
        requires
            old(self).wf(),
            approve_spec(old(self).entries(), t@),
            !log_has_key(old(self).entries(), t@.key),
        ensures
            final(self).entries() == old(self).entries().push(t@),
            final(self).files_v() == old(self).files_v(),
            final(self).wf(),
    {
        let ghost es0 = self.entries();
        self.log.push(t);
        proof {
            let es = self.entries();
            assert(es =~= es0.push(t@));
            assert forall|i: int, pi: int|
                0 <= i < es.len() && 0 <= pi < es[i].parents.len() implies key_in_prefix(
                es,
                i,
                #[trigger] es[i].parents[pi],
            ) by {
                if i < es0.len() {
                    assert(es[i] == es0[i]);
                    assert(key_in_prefix(es0, i, es0[i].parents[pi]));
                    let w = choose|w: int| 0 <= w < i && (#[trigger] es0[w]).key == es0[i].parents[pi];
                    assert(es[w].key == es[i].parents[pi]);
                } else {
                    assert(es[i] == t@);
                    assert(log_has_key(es0, t@.parents[pi]));
                    let w = choose|w: int| 0 <= w < es0.len() && (#[trigger] es0[w]).key
                        == t@.parents[pi];
                    assert(es[w].key == es[i].parents[pi]);
                }
            }
            assert forall|i: int, j: int| 0 <= i < j < es.len() implies (#[trigger] es[i]).key != (
            #[trigger] es[j]).key by {
                if j < es0.len() {
                } else {
                    assert(es[j] == t@);
                    assert(es[i] == es0[i]);
                    assert(!log_has_key(es0, t@.key));
                    assert(es0[i].key != t@.key);
                }
            }
        }
    }

    /// The DAG frontier: keys of stored transitions that no stored
    /// transition names as a parent, in insertion order.
    pub fn tips(&self) -> (r: Vec<TransitionKey>)
        ensures
            r@.map_values(|k: TransitionKey| k@) == tips_of(self.entries()),
    {
        let ghost es = self.entries();
        let mut out: Vec<TransitionKey> = Vec::new();
        let mut i: usize = 0;
        proof {
            assert(out@.map_values(|k: TransitionKey| k@) =~= tips_sel(es.subrange(0, 0), es));
        }
        while i < self.log.len()
            invariant
                i <= self.log@.len(),
                es == self.entries(),
                out@.map_values(|k: TransitionKey| k@) == tips_sel(es.subrange(0, i as int), es),
            decreases self.log@.len() - i,
        {
            let ghost before = out@.map_values(|k: TransitionKey| k@);
            if !self.any_child_of(&self.log[i].key) {
                out.push(clone_id(&self.log[i].key));
                proof {
                    assert(out@.map_values(|k: TransitionKey| k@) =~= before.push(
                        es[i as int].key,
                    ));
                }
            }
            i = i + 1;
            proof {
                let pre = es.subrange(0, i as int);
                assert(pre.drop_last() =~= es.subrange(0, i - 1));
                assert(pre.last() == es[i - 1]);
                assert(out@.map_values(|k: TransitionKey| k@) =~= tips_sel(pre, es));
            }
        }
        proof {
            assert(es.subrange(0, es.len() as int) =~= es);
        }
        out
    }

    /// Does any stored transition name `k` as a parent?
    fn any_child_of(&self, k: &TransitionKey) -> (r: bool)
        ensures
            r == has_child(self.entries(), k@),
    {
        let mut j: usize = 0;
        while j < self.log.len()
            invariant
                j <= self.log@.len(),
                forall|q: int| 0 <= q < j ==> !parent_of(#[trigger] self.entries()[q], k@),
            decreases self.log@.len() - j,
        {
            let t = &self.log[j];
            let mut pi: usize = 0;
            while pi < t.parents.len()
                invariant
                    pi <= t.parents@.len(),
                    t == self.log@[j as int],
                    j < self.log@.len(),
                    forall|q: int| 0 <= q < pi ==> (#[trigger] t@.parents[q]) != k@,
                decreases t.parents@.len() - pi,
            {
                if ids_equal(t.parents[pi].as_slice(), k.as_slice()) {
                    proof {
                        assert(t@.parents[pi as int] == k@);
                        assert(parent_of(self.entries()[j as int], k@));
                    }
                    return true;
                }
                proof {
                    assert(t@.parents[pi as int] == t.parents@[pi as int]@);
                }
                pi = pi + 1;
            }
            proof {
                assert(!parent_of(self.entries()[j as int], k@));
            }
            j = j + 1;
        }
        false
    }

    /// Resolve a frontier summary: the in-memory store's frontier keys
    /// stand for themselves, so the summary is returned unchanged.
    pub fn restore(&self, tips: Vec<TransitionKey>) -> (r: Vec<TransitionKey>)
        ensures
            r@ == tips@,
    {
        tips
    }

    /// Look up a stored file blob by identifier (first match).
    pub fn get_file(&self, id: &Vec<u8>) -> (r: Option<Vec<u8>>)
        ensures
            (match r {
                Some(d) => file_lookup(self.files_v(), id@) == Some(d@),
                None => file_lookup(self.files_v(), id@) is None,
            }),
    {
        let mut i: usize = 0;
        proof {
            assert(self.files_v().skip(0) =~= self.files_v());
        }
        while i < self.files.len()
            invariant
                i <= self.files@.len(),
                file_lookup(self.files_v(), id@) == file_lookup(
                    self.files_v().skip(i as int),
                    id@,
                ),
            decreases self.files@.len() - i,
        {
            if ids_equal(self.files[i].0.as_slice(), id.as_slice()) {
                proof {
                    assert(self.files_v().skip(i as int)[0] == self.files_v()[i as int]);
                    assert(self.files_v()[i as int].0 == id@);
                }
                return Some(clone_id(&self.files[i].1));
            }
            proof {
                assert(self.files_v().skip(i as int)[0] == self.files_v()[i as int]);
                assert(self.files_v()[i as int].0 != id@);
                assert(self.files_v().skip(i as int).skip(1) =~= self.files_v().skip(i + 1));
            }
            i = i + 1;
        }
        proof {
            assert(self.files_v().skip(i as int).len() == 0);
        }
        None
    }

    /// Record a file blob.
    pub fn add_file(&mut self, id: Vec<u8>, data: Vec<u8>)
        requires
            old(self).wf(),
        ensures
            final(self).files_v() == old(self).files_v().push((id@, data@)),
            final(self).entries() == old(self).entries(),
            final(self).wf(),
    {
        let ghost fs0 = self.files_v();
        self.files.push((id, data));
        proof {
            assert(self.files_v() =~= fs0.push((self.files@.last().0@, self.files@.last().1@)));
        }
    }
}

/// First-match lookup in the file table.
pub open spec fn file_lookup(fs: Seq<(Seq<u8>, Seq<u8>)>, id: Seq<u8>) -> Option<Seq<u8>>
    decreases fs.len(),
{
    if fs.len() == 0 {
        None
    } else if fs[0].0 == id {
        Some(fs[0].1)
    } else {
        file_lookup(fs.skip(1), id)
    }
}

/// The frontier keys of `prefix`, judged against the whole table `es`.
pub open spec fn tips_sel(prefix: Seq<TransitionV>, es: Seq<TransitionV>) -> Seq<Seq<u8>>
    decreases prefix.len(),
{
    if prefix.len() == 0 {
        Seq::empty()
    } else if has_child(es, prefix.last().key) {
        tips_sel(prefix.drop_last(), es)
    } else {
        tips_sel(prefix.drop_last(), es).push(prefix.last().key)
    }
}

/// The DAG frontier of `es`: keys no entry names as a parent.
pub open spec fn tips_of(es: Seq<TransitionV>) -> Seq<Seq<u8>> {
    tips_sel(es, es)
}

// ---------------------------------------------------------------------
// replication delta (`subgraph`)

/// The set of elements of a key sequence.
pub open spec fn set_from(s: Seq<Seq<u8>>) -> Set<Seq<u8>> {
    Set::new(|k: Seq<u8>| s.contains(k))
}

/// Appending a key to a sequence inserts it into the element set.
pub proof fn lemma_set_from_push(s: Seq<Seq<u8>>, x: Seq<u8>)
    ensures
        set_from(s.push(x)) == set_from(s).insert(x),
{
    assert forall|k: Seq<u8>| set_from(s.push(x)).contains(k) implies set_from(s).insert(
        x,
    ).contains(k) by {
        let w = choose|w: int| 0 <= w < s.push(x).len() && s.push(x)[w] == k;
        if w < s.len() {
            assert(s[w] == k);
        }
    }
    assert forall|k: Seq<u8>| set_from(s).insert(x).contains(k) implies set_from(
        s.push(x),
    ).contains(k) by {
        if k == x {
            assert(s.push(x)[s.len() as int] == x);
        } else {
            let w = choose|w: int| 0 <= w < s.len() && s[w] == k;
            assert(s.push(x)[w] == k);
        }
    }
    assert(set_from(s.push(x)) =~= set_from(s).insert(x));
}

/// The mark set after the backward pass has processed entries
/// `i .. es.len()`: the remote frontier `from`, plus the parents of
/// every processed entry whose key was already marked when it was
/// processed.  Entries are processed in descending index order, so a
/// key's mark is settled before the entry that carries it is reached.
pub open spec fn marked_dn(es: Seq<TransitionV>, from: Set<Seq<u8>>, i: int) -> Set<Seq<u8>>
    decreases es.len() - i,
    when 0 <= i <= es.len()
{
    if i >= es.len() {
        from
    } else {
        let s = marked_dn(es, from, i + 1);
        if s.contains(es[i].key) {
            s.union(set_from(es[i].parents))
        } else {
            s
        }
    }
}

/// The entries of `es` whose key is not marked, in insertion order.
pub open spec fn keep_unmarked(es: Seq<TransitionV>, marked: Set<Seq<u8>>) -> Seq<TransitionV>
    decreases es.len(),
{
    if es.len() == 0 {
        Seq::empty()
    } else if marked.contains(es.last().key) {
        keep_unmarked(es.drop_last(), marked)
    } else {
        keep_unmarked(es.drop_last(), marked).push(es.last())
    }
}

/// The replication delta: the stored transitions not reachable from the
/// frontier `from`, in insertion (and therefore causal) order.
pub open spec fn subgraph_of(es: Seq<TransitionV>, from: Set<Seq<u8>>) -> Seq<TransitionV> {
    keep_unmarked(es, marked_dn(es, from, 0))
}

/// Is `k` an element of the key list?
fn key_listed(v: &Vec<TransitionKey>, k: &TransitionKey) -> (r: bool)
    ensures
        r == v@.map_values(|x: TransitionKey| x@).contains(k@),
{
    let mut i: usize = 0;
    while i < v.len()
        invariant
            i <= v@.len(),
            forall|q: int| 0 <= q < i ==> (#[trigger] v@[q])@ != k@,
        decreases v@.len() - i,
    {
        if ids_equal(v[i].as_slice(), k.as_slice()) {
            proof {
                assert(v@.map_values(|x: TransitionKey| x@)[i as int] == k@);
            }
            return true;
        }
        i = i + 1;
    }
    proof {
        let mv = v@.map_values(|x: TransitionKey| x@);
        if mv.contains(k@) {
            let w = choose|w: int| 0 <= w < mv.len() && mv[w] == k@;
            assert(v@[w]@ == k@);
        }
    }
    false
}

impl Store {
    /// The transitions a peer with frontier `tips` is missing: exactly
    /// those not reachable from `tips` through parent links, in
    /// insertion order (parents before children).
    pub fn subgraph(&self, tips: &Vec<TransitionKey>) -> (r: Vec<Transition>)
        ensures
            r@.map_values(|t: Transition| t@) == subgraph_of(
                self.entries(),
                set_from(tips@.map_values(|k: TransitionKey| k@)),
            ),
    {
        let ghost es = self.entries();
        let ghost from = set_from(tips@.map_values(|k: TransitionKey| k@));

        // start from the remote frontier
        let mut marked: Vec<TransitionKey> = Vec::new();
        let mut c: usize = 0;
        while c < tips.len()
            invariant
                c <= tips@.len(),
                marked@.map_values(|x: TransitionKey| x@) == tips@.map_values(
                    |x: TransitionKey| x@,
                ).subrange(0, c as int),
            decreases tips@.len() - c,
        {
            let ghost before = marked@.map_values(|x: TransitionKey| x@);
            marked.push(clone_id(&tips[c]));
            c = c + 1;
            proof {
                let tv = tips@.map_values(|x: TransitionKey| x@);
                assert(marked@.map_values(|x: TransitionKey| x@) =~= before.push(
                    tips@[c - 1]@,
                ));
                assert(before.push(tv[c - 1]) =~= tv.subrange(0, c as int));
            }
        }
        proof {
            assert(tips@.map_values(|x: TransitionKey| x@).subrange(
                0,
                tips@.len() as int,
            ) =~= tips@.map_values(|x: TransitionKey| x@));
            assert(set_from(marked@.map_values(|x: TransitionKey| x@)) == from);
        }

        // backward pass: propagate marks to parents
        let mut i: usize = self.log.len();
        while i > 0
            invariant
                i <= self.log@.len(),
                es == self.entries(),
                set_from(marked@.map_values(|x: TransitionKey| x@)) == marked_dn(
                    es,
                    from,
                    i as int,
                ),
            decreases i,
        {
            i = i - 1;
            let ghost s = set_from(marked@.map_values(|x: TransitionKey| x@));
            if key_listed(&marked, &self.log[i].key) {
                proof {
                    assert(s.contains(es[i as int].key));
                }
                let parents = &self.log[i].parents;
                let mut pi: usize = 0;
                proof {
                    assert(set_from(marked@.map_values(|x: TransitionKey| x@)) =~= s.union(
                        set_from(es[i as int].parents.subrange(0, 0)),
                    ));
                }
                while pi < parents.len()
                    invariant
                        pi <= parents@.len(),
                        parents == self.log@[i as int].parents,
                        i < self.log@.len(),
                        es == self.entries(),
                        set_from(marked@.map_values(|x: TransitionKey| x@)) == s.union(
                            set_from(es[i as int].parents.subrange(0, pi as int)),
                        ),
                    decreases parents@.len() - pi,
                {
                    let ghost before = marked@.map_values(|x: TransitionKey| x@);
                    marked.push(clone_id(&parents[pi]));
                    pi = pi + 1;
                    proof {
                        let pv = es[i as int].parents;
                        assert(marked@.map_values(|x: TransitionKey| x@) =~= before.push(
                            pv[pi - 1],
                        ));
                        lemma_set_from_push(before, pv[pi - 1]);
                        assert(pv.subrange(0, pi as int) =~= pv.subrange(0, pi - 1).push(
                            pv[pi - 1],
                        ));
                        lemma_set_from_push_sub(pv, pi as int);
                        assert(set_from(before).insert(pv[pi - 1]) =~= s.union(
                            set_from(pv.subrange(0, pi as int)),
                        ));
                    }
                }
                proof {
                    let pv = es[i as int].parents;
                    assert(pv.subrange(0, pv.len() as int) =~= pv);
                    assert(set_from(marked@.map_values(|x: TransitionKey| x@)) == marked_dn(
                        es,
                        from,
                        i as int,
                    ));
                }
            } else {
                proof {
                    assert(!s.contains(es[i as int].key));
                }
            }
        }

        // forward pass: keep the unmarked entries in order
        let ghost m0 = marked_dn(es, from, 0);
        let mut out: Vec<Transition> = Vec::new();
        let mut j: usize = 0;
        proof {
            assert(out@.map_values(|t: Transition| t@) =~= keep_unmarked(es.subrange(0, 0), m0));
        }
        while j < self.log.len()
            invariant
                j <= self.log@.len(),
                es == self.entries(),
                set_from(marked@.map_values(|x: TransitionKey| x@)) == m0,
                out@.map_values(|t: Transition| t@) == keep_unmarked(es.subrange(0, j as int), m0),
            decreases self.log@.len() - j,
        {
            let ghost before = out@.map_values(|t: Transition| t@);
            if !key_listed(&marked, &self.log[j].key) {
                out.push(self.log[j].duplicate());
                proof {
                    assert(out@.map_values(|t: Transition| t@) =~= before.push(es[j as int]));
                }
            }
            j = j + 1;
            proof {
                let pre = es.subrange(0, j as int);
                assert(pre.drop_last() =~= es.subrange(0, j - 1));
                assert(pre.last() == es[j - 1]);
                assert(out@.map_values(|t: Transition| t@) =~= keep_unmarked(pre, m0));
            }
        }
        proof {
            assert(es.subrange(0, es.len() as int) =~= es);
        }
        out
    }
}

/// A subrange of parents seen as a set absorbs its last element.
proof fn lemma_set_from_push_sub(pv: Seq<Seq<u8>>, pi: int)
    requires
        0 < pi <= pv.len(),
    ensures
        set_from(pv.subrange(0, pi)) == set_from(pv.subrange(0, pi - 1)).insert(pv[pi - 1]),
{
    assert(pv.subrange(0, pi) =~= pv.subrange(0, pi - 1).push(pv[pi - 1]));
    lemma_set_from_push(pv.subrange(0, pi - 1), pv[pi - 1]);
}

// ---------------------------------------------------------------------
// laws

/// Keys are unique across the table.
pub open spec fn unique_keys(es: Seq<TransitionV>) -> bool {
    forall|i: int, j: int|
        0 <= i < j < es.len() ==> (#[trigger] es[i]).key != (#[trigger] es[j]).key
}

/// Every parent link points to a strictly earlier entry.
pub open spec fn parents_precede(es: Seq<TransitionV>) -> bool {
    forall|i: int, pi: int|
        0 <= i < es.len() && 0 <= pi < es[i].parents.len() ==> key_in_prefix(
            es,
            i,
            #[trigger] es[i].parents[pi],
        )
}

/// Law: for every transition stored, approval held at the moment it was
/// stored — it is well formed, its key is derived from its content, and
/// all of its parents were already stored.
pub proof fn lemma_stored_implies_approved(s: Store)
    requires
        s.wf(),
    ensures
        forall|i: int|
            0 <= i < s.entries().len() ==> approve_spec(
                s.entries().subrange(0, i),
                #[trigger] s.entries()[i],
            ),
{
    let es = s.entries();
    assert forall|i: int| 0 <= i < es.len() implies approve_spec(
        es.subrange(0, i),
        #[trigger] es[i],
    ) by {
        assert forall|pi: int| 0 <= pi < es[i].parents.len() implies log_has_key(
            es.subrange(0, i),
            #[trigger] es[i].parents[pi],
        ) by {
            assert(key_in_prefix(es, i, es[i].parents[pi]));
            let w = choose|w: int| 0 <= w < i && (#[trigger] es[w]).key == es[i].parents[pi];
            assert(es.subrange(0, i)[w].key == es[i].parents[pi]);
        }
    }
}

/// One parent step: some entry carries key `a` and names `k` a parent.
pub open spec fn depends(es: Seq<TransitionV>, a: Seq<u8>, k: Seq<u8>) -> bool {
    exists|j: int| 0 <= j < es.len() && (#[trigger] es[j]).key == a && parent_of(es[j], k)
}

/// A chain of parent steps from the frontier to `k`: the first key lies
/// in `from`, each key is followed by a parent of an entry carrying it,
/// and the last key is `k`.
pub open spec fn is_path(
    es: Seq<TransitionV>,
    from: Set<Seq<u8>>,
    p: Seq<Seq<u8>>,
    k: Seq<u8>,
) -> bool {
    &&& p.len() > 0
    &&& from.contains(p[0])
    &&& p.last() == k
    &&& forall|i: int| 0 <= i < p.len() - 1 ==> depends(es, #[trigger] p[i], p[i + 1])
}

/// `k` is reachable from the frontier `from` through parent links.
pub open spec fn reachable(es: Seq<TransitionV>, from: Set<Seq<u8>>, k: Seq<u8>) -> bool {
    exists|p: Seq<Seq<u8>>| is_path(es, from, p, k)
}

/// The mark set only shrinks as the pass starts later.
proof fn lemma_marked_monotone(es: Seq<TransitionV>, from: Set<Seq<u8>>, i: int, i2: int)
    requires
        0 <= i <= i2 <= es.len(),
    ensures
        marked_dn(es, from, i2).subset_of(marked_dn(es, from, i)),
    decreases i2 - i,
{
    if i < i2 {
        lemma_marked_monotone(es, from, i + 1, i2);
    }
}

/// A key's mark is settled before the entry that carries it is
/// processed: if the key of entry `j` is marked at step `i <= j + 1`,
/// it was already marked at step `j + 1`.
proof fn lemma_marked_settled(es: Seq<TransitionV>, from: Set<Seq<u8>>, i: int, j: int)
    requires
        unique_keys(es),
        parents_precede(es),
        0 <= i <= j + 1,
        0 <= j < es.len(),
        marked_dn(es, from, i).contains(es[j].key),
    ensures
        marked_dn(es, from, j + 1).contains(es[j].key),
    decreases j + 1 - i,
{
    if i <= j {
        let s = marked_dn(es, from, i + 1);
        if s.contains(es[j].key) {
            lemma_marked_settled(es, from, i + 1, j);
        } else {
            assert(marked_dn(es, from, i).contains(es[j].key));
            assert(s.contains(es[i].key) && set_from(es[i].parents).contains(es[j].key));
            let pi = choose|pi: int| 0 <= pi < es[i].parents.len() && es[i].parents[pi]
                == es[j].key;
            assert(key_in_prefix(es, i, es[i].parents[pi]));
            let w = choose|w: int| 0 <= w < i && (#[trigger] es[w]).key == es[i].parents[pi];
            assert(es[w].key == es[j].key);
            assert(w == j);
            assert(false);
        }
    }
}

/// Soundness of the mark pass: every marked key is reachable.
proof fn lemma_marked_sound(es: Seq<TransitionV>, from: Set<Seq<u8>>, i: int, k: Seq<u8>)
    requires
        0 <= i <= es.len(),
        marked_dn(es, from, i).contains(k),
    ensures
        reachable(es, from, k),
    decreases es.len() - i,
{
    if i >= es.len() {
        assert(from.contains(k));
        let p = seq![k];
        assert(is_path(es, from, p, k));
    } else {
        let s = marked_dn(es, from, i + 1);
        if s.contains(k) {
            lemma_marked_sound(es, from, i + 1, k);
        } else {
            assert(s.contains(es[i].key) && set_from(es[i].parents).contains(k));
            lemma_marked_sound(es, from, i + 1, es[i].key);
            let p0 = choose|p0: Seq<Seq<u8>>| is_path(es, from, p0, es[i].key);
            let p = p0.push(k);
            let pi = choose|pi: int| 0 <= pi < es[i].parents.len() && es[i].parents[pi] == k;
            assert(parent_of(es[i], k));
            assert(depends(es, es[i].key, k));
            assert(p[0] == p0[0]);
            assert(p.last() == k);
            assert forall|i2: int| 0 <= i2 < p.len() - 1 implies depends(
                es,
                #[trigger] p[i2],
                p[i2 + 1],
            ) by {
                if i2 < p0.len() - 1 {
                    assert(p[i2] == p0[i2] && p[i2 + 1] == p0[i2 + 1]);
                    assert(depends(es, p0[i2], p0[i2 + 1]));
                } else {
                    assert(p[i2] == p0.last() && p[i2 + 1] == k);
                }
            }
            assert(is_path(es, from, p, k));
        }
    }
}

/// Completeness of the mark pass: the end of every parent chain from
/// the frontier is marked.
proof fn lemma_path_marked(es: Seq<TransitionV>, from: Set<Seq<u8>>, p: Seq<Seq<u8>>, k: Seq<u8>)
    requires
        unique_keys(es),
        parents_precede(es),
        is_path(es, from, p, k),
    ensures
        marked_dn(es, from, 0).contains(k),
    decreases p.len(),
{
    if p.len() == 1 {
        assert(p[0] == k);
        lemma_marked_monotone(es, from, 0, es.len() as int);
        assert(marked_dn(es, from, es.len() as int) == from);
    } else {
        let a = p[p.len() - 2];
        let p2 = p.drop_last();
        assert(p2.last() == a);
        assert forall|i2: int| 0 <= i2 < p2.len() - 1 implies depends(
            es,
            #[trigger] p2[i2],
            p2[i2 + 1],
        ) by {
            assert(p2[i2] == p[i2] && p2[i2 + 1] == p[i2 + 1]);
            assert(depends(es, p[i2], p[i2 + 1]));
        }
        assert(is_path(es, from, p2, a));
        lemma_path_marked(es, from, p2, a);
        assert(depends(es, p[p.len() - 2], p[p.len() - 1]));
        assert(p[p.len() - 1] == k);
        assert(depends(es, a, k));
        let j = choose|j: int| 0 <= j < es.len() && (#[trigger] es[j]).key == a && parent_of(
            es[j],
            k,
        );
        lemma_marked_settled(es, from, 0, j);
        assert(marked_dn(es, from, j + 1).contains(es[j].key));
        let pi = choose|pi: int| 0 <= pi < es[j].parents.len() && es[j].parents[pi] == k;
        assert(set_from(es[j].parents).contains(k)) by {
            assert(es[j].parents[pi] == k);
        }
        assert(marked_dn(es, from, j).contains(k));
        lemma_marked_monotone(es, from, 0, j);
    }
}

/// Law: catch-up completeness.  The replication delta computed for a
/// joining peer with frontier `from` holds exactly the stored
/// transitions that are not reachable from `from` through parent links
/// — no more, no fewer.
pub proof fn lemma_subgraph_exact(s: Store, from: Set<Seq<u8>>)
    requires
        s.wf(),
    ensures
        forall|k: Seq<u8>|
            #[trigger] marked_dn(s.entries(), from, 0).contains(k) <==> reachable(
                s.entries(),
                from,
                k,
            ),
        subgraph_of(s.entries(), from) == keep_unmarked(
            s.entries(),
            Set::new(|k: Seq<u8>| reachable(s.entries(), from, k)),
        ),
{
    let es = s.entries();
    assert forall|k: Seq<u8>| #[trigger] marked_dn(es, from, 0).contains(k) implies reachable(
        es,
        from,
        k,
    ) by {
        lemma_marked_sound(es, from, 0, k);
    }
    assert forall|k: Seq<u8>| reachable(es, from, k) implies marked_dn(es, from, 0).contains(
        k,
    ) by {
        let p = choose|p: Seq<Seq<u8>>| is_path(es, from, p, k);
        lemma_path_marked(es, from, p, k);
    }
    assert(marked_dn(es, from, 0) =~= Set::new(|k: Seq<u8>| reachable(es, from, k)));
}





/// The frontier's keys: no more of them than entries, each of key
/// length, each the key of a stored entry.
proof fn lemma_tips_sel_props(es: Seq<TransitionV>, m: int)
    requires
        0 <= m <= es.len(),
        forall|i: int| 0 <= i < es.len() ==> (#[trigger] es[i]).wf(),
    ensures
        tips_sel(es.subrange(0, m), es).len() <= m,
        forall|t: int|
            0 <= t < tips_sel(es.subrange(0, m), es).len() ==> (#[trigger] tips_sel(
                es.subrange(0, m),
                es,
            )[t]).len() == KEY_LEN && log_has_key(es, tips_sel(es.subrange(0, m), es)[t]),
    decreases m,
{
    if m > 0 {
        let pre = es.subrange(0, m);
        assert(pre.drop_last() =~= es.subrange(0, m - 1));
        assert(pre.last() == es[m - 1]);
        lemma_tips_sel_props(es, m - 1);
        let r = tips_sel(pre, es);
        let r0 = tips_sel(es.subrange(0, m - 1), es);
        assert forall|t: int| 0 <= t < r.len() implies (#[trigger] r[t]).len() == KEY_LEN
            && log_has_key(es, r[t]) by {
            if t < r0.len() {
                assert(r0[t].len() == KEY_LEN && log_has_key(es, r0[t]));
            } else {
                assert(r[t] == es[m - 1].key);
                assert(es[m - 1].wf());
            }
        }
    }
}

/// The frontier of a well-formed store is made of stored keys.
pub proof fn lemma_tips_wf(s: Store)
    requires
        s.wf(),
    ensures
        tips_of(s.entries()).len() <= s.entries().len(),
        forall|t: int|
            0 <= t < tips_of(s.entries()).len() ==> (#[trigger] tips_of(s.entries())[t]).len()
                == KEY_LEN && log_has_key(s.entries(), tips_of(s.entries())[t]),
{
    let es = s.entries();
    assert(es.subrange(0, es.len() as int) =~= es);
    lemma_tips_sel_props(es, es.len() as int);
}

/// Every transition of the replication delta is a stored entry.
pub proof fn lemma_keep_unmarked_elems(es: Seq<TransitionV>, marked: Set<Seq<u8>>)
    ensures
        keep_unmarked(es, marked).len() <= es.len(),
        forall|k: int|
            0 <= k < keep_unmarked(es, marked).len() ==> exists|w: int|
                0 <= w < es.len() && es[w] == #[trigger] keep_unmarked(es, marked)[k],
    decreases es.len(),
{
    if es.len() > 0 {
        lemma_keep_unmarked_elems(es.drop_last(), marked);
        let r = keep_unmarked(es, marked);
        let r0 = keep_unmarked(es.drop_last(), marked);
        assert forall|k: int| 0 <= k < r.len() implies exists|w: int|
            0 <= w < es.len() && es[w] == #[trigger] r[k] by {
            if k < r0.len() {
                let w = choose|w: int|
                    0 <= w < es.drop_last().len() && es.drop_last()[w] == r0[k];
                assert(es[w] == r[k]);
            } else {
                assert(r[k] == es.last());
                assert(es[es.len() - 1] == r[k]);
            }
        }
    }
}

} // verus!
