//! Transitions: content-addressed, causally linked units of replicated
//! application data.
//!
//! A transition names its author, the DAG frontier its author saw at
//! creation time (its parents), and an opaque payload.  Its key is
//! derived from that content alone, so every peer computes the same
//! identity without coordination.

use vstd::prelude::*;
use crate::types::{PeerId, clone_id, PEER_ID_LEN};
use crate::bytes_codec::{
    KEY_LEN, MAX_FIELD, MAX_ITEMS, MAX_BLOB, enc_u32, enc_bytes, dec_key, lemma_dec_key,
    enc_u32_vec, enc_bytes_vec, append_vec, dec_key_vec,
};

verus! {

/// Content-derived identifier of a transition: a 32-byte digest.
pub type TransitionKey = Vec<u8>;

/// Mathematical image of a [`Transition`].
#[verifier::ext_equal]
pub ghost struct TransitionV {
    pub author: Seq<u8>,
    pub parents: Seq<Seq<u8>>,
    pub body: Seq<u8>,
    pub key: Seq<u8>,
}

/// A single unit of replicated data with explicit parent pointers.
#[derive(Debug)]
pub struct Transition {
    pub author: PeerId,
    pub parents: Vec<TransitionKey>,
    pub body: Vec<u8>,
    pub key: TransitionKey,
}

impl View for Transition {
    type V = TransitionV;

    open spec fn view(&self) -> TransitionV {
        TransitionV {
            author: self.author@,
            parents: self.parents@.map_values(|k: TransitionKey| k@),
            body: self.body@,
            key: self.key@,
        }
    }
}

impl TransitionV {
    /// Field lengths and counts that the wire format can carry.
    pub open spec fn wf(self) -> bool {
        &&& self.author.len() == PEER_ID_LEN
        &&& self.key.len() == KEY_LEN
        &&& forall|i: int| 0 <= i < self.parents.len() ==> (#[trigger] self.parents[i]).len()
            == KEY_LEN
        &&& self.parents.len() <= MAX_ITEMS
        &&& self.body.len() <= MAX_BLOB
    }

    /// A transition whose key matches its content.
    pub open spec fn keyed(self) -> bool {
        self.key == key_of(self.author, self.parents, self.body)
    }
}

// ---------------------------------------------------------------------
// content encoding, the input of the key digest

/// Concatenation of fixed-length keys.
pub open spec fn enc_keys(ks: Seq<Seq<u8>>) -> Seq<u8>
    decreases ks.len(),
{
    if ks.len() == 0 {
        Seq::empty()
    } else {
        ks[0] + enc_keys(ks.skip(1))
    }
}

/// The byte string a transition's key is computed from.
pub open spec fn content_enc(author: Seq<u8>, parents: Seq<Seq<u8>>, body: Seq<u8>) -> Seq<u8> {
    enc_bytes(author) + enc_u32(parents.len() as u32) + enc_keys(parents) + enc_bytes(body)
}

/// What the digest of a byte string is.  Stated only through the trusted
/// wrapper below; no further facts are assumed of it.
pub uninterp spec fn digest_of(data: Seq<u8>) -> Seq<u8>;

/// The content-derived key of a transition.
pub open spec fn key_of(author: Seq<u8>, parents: Seq<Seq<u8>>, body: Seq<u8>) -> Seq<u8> {
    digest_of(content_enc(author, parents, body))
}

/// Relies on `ring::digest::digest` with SHA-256: the result is a
/// function of the input bytes alone and is 32 bytes long
/// (`ring::digest::SHA256_OUTPUT_LEN`).
#[verifier::external_body]
fn sha256(data: &Vec<u8>) -> (r: Vec<u8>)
    ensures
        r@ == digest_of(data@),
        r@.len() == KEY_LEN,
{
    ring::digest::digest(&ring::digest::SHA256, data.as_slice()).as_ref().to_vec()
}

/// The 32-byte digest of arbitrary bytes, as used for transition keys
/// and for the network-key proof of the handshake.
pub fn key_digest(data: &Vec<u8>) -> (r: Vec<u8>)
    ensures
        r@ == digest_of(data@),
        r@.len() == KEY_LEN,
{
    sha256(data)
}

// ---------------------------------------------------------------------
// executable encoders over key lists and content

/// Appending one key extends the concatenation by that key.
pub proof fn lemma_enc_keys_push(ks: Seq<Seq<u8>>, k: Seq<u8>)
    ensures
        enc_keys(ks.push(k)) == enc_keys(ks) + k,
    decreases ks.len(),
{
    if ks.len() == 0 {
        assert(ks.push(k)[0] == k);
        assert(ks.push(k).skip(1) =~= Seq::<Seq<u8>>::empty());
        assert(enc_keys(Seq::<Seq<u8>>::empty()) == Seq::<u8>::empty());
        assert(enc_keys(ks.push(k)) == k + Seq::<u8>::empty());
        assert(enc_keys(ks.push(k)) =~= enc_keys(ks) + k);
    } else {
        assert(ks.push(k).skip(1) =~= ks.skip(1).push(k));
        lemma_enc_keys_push(ks.skip(1), k);
        assert(enc_keys(ks.push(k)) =~= enc_keys(ks) + k);
    }
}

/// Append every key of `ks` in order.
pub fn enc_keys_vec(out: &mut Vec<u8>, ks: &Vec<TransitionKey>)
    ensures
        final(out)@ == old(out)@ + enc_keys(ks@.map_values(|k: TransitionKey| k@)),
{
    let ghost kv = ks@.map_values(|k: TransitionKey| k@);
    let mut i: usize = 0;
    proof {
        assert(out@ =~= old(out)@ + enc_keys(kv.subrange(0, 0)));
    }
    while i < ks.len()
        invariant
            i <= ks.len(),
            kv == ks@.map_values(|k: TransitionKey| k@),
            out@ == old(out)@ + enc_keys(kv.subrange(0, i as int)),
        decreases ks.len() - i,
    {
        append_vec(out, &ks[i]);
        i = i + 1;
        proof {
            assert(kv.subrange(0, i as int) =~= kv.subrange(0, i - 1).push(kv[i - 1]));
            lemma_enc_keys_push(kv.subrange(0, i - 1), kv[i - 1]);
            assert(out@ =~= old(out)@ + enc_keys(kv.subrange(0, i as int)));
        }
    }
    proof {
        assert(kv.subrange(0, kv.len() as int) =~= kv);
    }
}

/// Build the content encoding of a transition's parts.
pub fn content_vec(author: &PeerId, parents: &Vec<TransitionKey>, body: &Vec<u8>) -> (r: Vec<u8>)
    requires
        author@.len() <= MAX_FIELD,
        parents@.len() <= MAX_FIELD,
        body@.len() <= MAX_FIELD,
    ensures
        r@ == content_enc(
            author@,
            parents@.map_values(|k: TransitionKey| k@),
            body@,
        ),
{
    let mut out: Vec<u8> = Vec::new();
    enc_bytes_vec(&mut out, author);
    enc_u32_vec(&mut out, parents.len() as u32);
    enc_keys_vec(&mut out, parents);
    enc_bytes_vec(&mut out, body);
    proof {
        let kv = parents@.map_values(|k: TransitionKey| k@);
        assert(kv.len() == parents@.len());
        assert(out@ =~= content_enc(author@, kv, body@));
    }
    out
}

// ---------------------------------------------------------------------
// key-list decoding, shared by the wire codec

/// Decode `n` fixed-length keys starting at offset `i`.
pub open spec fn dec_keys(s: Seq<u8>, i: int, n: nat) -> Option<(Seq<Seq<u8>>, int)>
    decreases n,
{
    if n == 0 {
        Some((Seq::empty(), i))
    } else {
        match dec_key(s, i) {
            Some((k, j)) => match dec_keys(s, j, (n - 1) as nat) {
                Some((ks, e)) => Some((seq![k] + ks, e)),
                None => None,
            },
            None => None,
        }
    }
}

/// Reading a key list back gives the keys encoded.
pub proof fn lemma_dec_keys(s: Seq<u8>, i: int, ks: Seq<Seq<u8>>)
    requires
        0 <= i,
        forall|t: int| 0 <= t < ks.len() ==> (#[trigger] ks[t]).len() == KEY_LEN,
        i + KEY_LEN * ks.len() <= s.len(),
        s.subrange(i, i + KEY_LEN * ks.len()) == enc_keys(ks),
    ensures
        dec_keys(s, i, ks.len()) == Some((ks, i + KEY_LEN * ks.len())),
    decreases ks.len(),
{
    if ks.len() == 0 {
        assert(dec_keys(s, i, 0) == Some((Seq::<Seq<u8>>::empty(), i)));
        assert(ks =~= Seq::<Seq<u8>>::empty());
    } else {
        let k0 = ks[0];
        let rest = ks.skip(1);
        assert(KEY_LEN * ks.len() == KEY_LEN + KEY_LEN * rest.len()) by (nonlinear_arith)
            requires ks.len() == rest.len() + 1;
        assert(enc_keys(ks) == k0 + enc_keys(rest));
        assert(enc_keys(rest).len() == KEY_LEN * rest.len()) by {
            lemma_enc_keys_len(rest);
        }
        assert(s.subrange(i, i + KEY_LEN) =~= k0) by {
            assert forall|t: int| 0 <= t < KEY_LEN implies s.subrange(i, i + KEY_LEN)[t]
                == k0[t] by {
                assert(s.subrange(i, i + KEY_LEN * ks.len())[t] == (k0 + enc_keys(rest))[t]);
            }
        }
        lemma_dec_key(s, i, k0);
        let j = i + KEY_LEN;
        assert(s.subrange(j, j + KEY_LEN * rest.len()) =~= enc_keys(rest)) by {
            assert forall|t: int| 0 <= t < KEY_LEN * rest.len() implies s.subrange(
                j,
                j + KEY_LEN * rest.len(),
            )[t] == enc_keys(rest)[t] by {
                assert(s.subrange(i, i + KEY_LEN * ks.len())[t + KEY_LEN] == (k0 + enc_keys(
                    rest,
                ))[t + KEY_LEN]);
            }
        }
        lemma_dec_keys(s, j, rest);
        assert(seq![k0] + rest =~= ks);
    }
}

/// Length of a key-list encoding.
pub proof fn lemma_enc_keys_len(ks: Seq<Seq<u8>>)
    requires
        forall|t: int| 0 <= t < ks.len() ==> (#[trigger] ks[t]).len() == KEY_LEN,
    ensures
        enc_keys(ks).len() == KEY_LEN * ks.len(),
    decreases ks.len(),
{
    if ks.len() == 0 {
    } else {
        lemma_enc_keys_len(ks.skip(1));
        assert(KEY_LEN * ks.len() == KEY_LEN + KEY_LEN * ks.skip(1).len()) by (nonlinear_arith)
            requires ks.len() == ks.skip(1).len() + 1;
    }
}

/// Read `n` fixed-length keys at offset `i`.
pub fn dec_keys_vec(s: &Vec<u8>, i: usize, n: u32) -> (r: Option<(Vec<TransitionKey>, usize)>)
    ensures
        match r {
            Some((ks, j)) => dec_keys(s@, i as int, n as nat) == Some((
                ks@.map_values(|k: TransitionKey| k@),
                j as int,
            )),
            None => dec_keys(s@, i as int, n as nat) is None,
        },
{
    let mut acc: Vec<TransitionKey> = Vec::new();
    let mut cur: usize = i;
    let mut t: u32 = 0;
    while t < n
        invariant
            t <= n,
            dec_keys(s@, i as int, n as nat) == (match dec_keys(s@, cur as int, (n - t) as nat) {
                Some((ks, e)) => Some((acc@.map_values(|k: TransitionKey| k@) + ks, e)),
                None => None::<(Seq<Seq<u8>>, int)>,
            }),
        decreases n - t,
    {
        match dec_key_vec(s, cur) {
            Some((k, j)) => {
                let ghost av = acc@.map_values(|kk: TransitionKey| kk@);
                let ghost rem = (n - t - 1) as nat;
                proof {
                    assert(dec_keys(s@, cur as int, (n - t) as nat) == (match dec_keys(
                        s@,
                        j as int,
                        rem,
                    ) {
                        Some((ks, e)) => Some((seq![k@] + ks, e)),
                        None => None::<(Seq<Seq<u8>>, int)>,
                    }));
                }
                acc.push(k);
                cur = j;
                t = t + 1;
                proof {
                    assert(acc@.map_values(|kk: TransitionKey| kk@) =~= av.push(k@));
                    match dec_keys(s@, cur as int, (n - t) as nat) {
                        Some((ks, e)) => {
                            assert(av + (seq![k@] + ks) =~= av.push(k@) + ks);
                        },
                        None => {},
                    }
                }
            },
            None => {
                proof {
                    assert(dec_keys(s@, cur as int, (n - t) as nat) is None);
                }
                return None;
            },
        }
    }
    proof {
        assert(dec_keys(s@, cur as int, 0) == Some((Seq::<Seq<u8>>::empty(), cur as int)));
        assert(acc@.map_values(|k: TransitionKey| k@) + Seq::<Seq<u8>>::empty()
            =~= acc@.map_values(|k: TransitionKey| k@));
    }
    Some((acc, cur))
}

// ---------------------------------------------------------------------

impl Transition {
    /// Create a transition, deriving its key from its content.
    pub fn new(author: PeerId, parents: Vec<TransitionKey>, body: Vec<u8>) -> (r: Transition)
        requires
            author@.len() == PEER_ID_LEN,
            forall|i: int| 0 <= i < parents@.len() ==> (#[trigger] parents@[i])@.len() == KEY_LEN,
            parents@.len() <= MAX_ITEMS,
            body@.len() <= MAX_BLOB,
        ensures
            r@.author == author@,
            r@.parents == parents@.map_values(|k: TransitionKey| k@),
            r@.body == body@,
            r@.key == key_of(r@.author, r@.parents, r@.body),
            r@.wf(),
            r@.keyed(),
    {
        let content = content_vec(&author, &parents, &body);
        let key = sha256(&content);
        let r = Transition { author, parents, body, key };
        proof {
            assert(r@.parents.len() == r.parents@.len());
            assert(forall|i: int| 0 <= i < r@.parents.len() ==> (#[trigger] r@.parents[i]).len()
                == KEY_LEN);
        }
        r
    }

    /// Check the field bounds of [`TransitionV::wf`].
    pub fn check_wf(&self) -> (r: bool)
        ensures
            r == self@.wf(),
    {
        if self.author.len() != PEER_ID_LEN {
            return false;
        }
        if self.key.len() != KEY_LEN {
            return false;
        }
        if self.parents.len() > MAX_ITEMS {
            return false;
        }
        if self.body.len() > MAX_BLOB {
            return false;
        }
        let mut i: usize = 0;
        while i < self.parents.len()
            invariant
                i <= self.parents@.len(),
                forall|q: int| 0 <= q < i ==> (#[trigger] self@.parents[q]).len() == KEY_LEN,
            decreases self.parents@.len() - i,
        {
            if self.parents[i].len() != KEY_LEN {
                proof {
                    assert(self@.parents[i as int].len() != KEY_LEN);
                }
                return false;
            }
            proof {
                assert(self@.parents[i as int] == self.parents@[i as int]@);
            }
            i = i + 1;
        }
        true
    }

    /// Recompute the content digest and compare it with the stored key.
    pub fn matches_key(&self) -> (r: bool)
        requires
            self@.wf(),
        ensures
            r == self@.keyed(),
    {
        let content = content_vec(&self.author, &self.parents, &self.body);
        let derived = sha256(&content);
        crate::types::ids_equal(self.key.as_slice(), derived.as_slice())
    }

    /// The content-derived key.
    pub fn key(&self) -> (r: &TransitionKey)
        ensures
            r@ == self@.key,
    {
        &self.key
    }

    /// A deep copy, equal to `self` in every field.
    pub fn duplicate(&self) -> (r: Transition)
        ensures
            r@ == self@,
    {
        let mut parents: Vec<TransitionKey> = Vec::new();
        let mut i: usize = 0;
        while i < self.parents.len()
            invariant
                i <= self.parents@.len(),
                parents@.map_values(|k: TransitionKey| k@) == self.parents@.map_values(
                    |k: TransitionKey| k@,
                ).subrange(0, i as int),
            decreases self.parents@.len() - i,
        {
            let ghost before = parents@.map_values(|k: TransitionKey| k@);
            parents.push(clone_id(&self.parents[i]));
            i = i + 1;
            proof {
                let full = self.parents@.map_values(|k: TransitionKey| k@);
                assert(parents@.map_values(|k: TransitionKey| k@) =~= before.push(
                    self.parents@[i - 1]@,
                ));
                assert(before.push(full[i - 1]) =~= full.subrange(0, i as int));
            }
        }
        let r = Transition {
            author: clone_id(&self.author),
            parents,
            body: clone_id(&self.body),
            key: clone_id(&self.key),
        };
        proof {
            assert(r.parents@.map_values(|k: TransitionKey| k@) =~= self.parents@.map_values(
                |k: TransitionKey| k@,
            ));
        }
        r
    }
}

} // verus!
