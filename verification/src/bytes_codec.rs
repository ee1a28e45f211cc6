//! Little-endian byte-level primitives of the wire format.
//!
//! Every field of a frame is one of: a `u16`, a `u32`, a length-prefixed
//! byte string, or a fixed-length key.  Each primitive has a total spec
//! encoder, a partial spec decoder over `(sequence, offset)`, an
//! executable pair proved equal to them, and a lemma that decoding an
//! encoded field out of any surrounding frame yields the field back.

use vstd::prelude::*;

verus! {

/// Number of bytes in a fixed-length key field (a digest or public key).
pub const KEY_LEN: usize = 32;

/// Largest value a length prefix can carry.
pub const MAX_FIELD: usize = 0xffff_ffff;

/// Cap on list counts (parents, tips, peer lists) that well-formed
/// values respect.  A deliberate limit, not one the length prefix
/// forces on its own: a single field may carry up to [`MAX_FIELD`]
/// bytes, but a message combining several capped fields must still fit
/// one u32-prefixed frame, which a count at [`MAX_FIELD`] would not
/// (65535 fixed-size keys or peer entries keep the largest message a
/// few tens of megabytes).  It also bounds the transition log, since a
/// handshake carries the whole frontier and the log must stay
/// announceable.
pub const MAX_ITEMS: usize = 0xffff;

/// Cap on opaque byte fields (payloads, file blobs) that well-formed
/// values respect.  A deliberate limit with the same purpose as
/// [`MAX_ITEMS`]: two such fields plus every fixed-size part of the
/// largest message must together fit one u32-prefixed frame, which is
/// comfortable at 16 MiB per field and impossible at [`MAX_FIELD`].
pub const MAX_BLOB: usize = 0xff_ffff;

// ---------------------------------------------------------------------
// spec encoders

pub open spec fn enc_u16(x: u16) -> Seq<u8> {
    seq![x as u8, (x >> 8) as u8]
}

pub open spec fn enc_u32(x: u32) -> Seq<u8> {
    seq![x as u8, (x >> 8) as u8, (x >> 16) as u8, (x >> 24) as u8]
}

pub open spec fn enc_bytes(b: Seq<u8>) -> Seq<u8> {
    enc_u32(b.len() as u32) + b
}

// ---------------------------------------------------------------------
// spec decoders

pub open spec fn dec_u16(s: Seq<u8>, i: int) -> Option<(u16, int)> {
    if 0 <= i && i + 2 <= s.len() {
        Some(((s[i] as u16) | ((s[i + 1] as u16) << 8), i + 2))
    } else {
        None
    }
}

pub open spec fn dec_u32(s: Seq<u8>, i: int) -> Option<(u32, int)> {
    if 0 <= i && i + 4 <= s.len() {
        Some((
            (s[i] as u32) | ((s[i + 1] as u32) << 8) | ((s[i + 2] as u32) << 16)
                | ((s[i + 3] as u32) << 24),
            i + 4,
        ))
    } else {
        None
    }
}

pub open spec fn dec_bytes(s: Seq<u8>, i: int) -> Option<(Seq<u8>, int)> {
    match dec_u32(s, i) {
        Some((n, j)) => {
            if j + n <= s.len() {
                Some((s.subrange(j, j + n), j + n))
            } else {
                None
            }
        },
        None => None,
    }
}

pub open spec fn dec_key(s: Seq<u8>, i: int) -> Option<(Seq<u8>, int)> {
    if 0 <= i && i + KEY_LEN <= s.len() {
        Some((s.subrange(i, i + KEY_LEN), i + KEY_LEN))
    } else {
        None
    }
}

// ---------------------------------------------------------------------
// round-trip lemmas: a decoder applied where an encoder wrote

/// A range of `s` equal to a concatenation splits into its two parts.
pub proof fn lemma_split_at(s: Seq<u8>, i: int, x: Seq<u8>, y: Seq<u8>)
    requires
        0 <= i,
        i + x.len() + y.len() <= s.len(),
        s.subrange(i, i + x.len() + y.len()) == x + y,
    ensures
        s.subrange(i, i + x.len()) == x,
        s.subrange(i + x.len(), i + x.len() + y.len()) == y,
{
    assert(s.subrange(i, i + x.len()) =~= x) by {
        assert forall|k: int| 0 <= k < x.len() implies s.subrange(i, i + x.len())[k] == x[k] by {
            assert(s.subrange(i, i + x.len() + y.len())[k] == (x + y)[k]);
        }
    }
    assert(s.subrange(i + x.len(), i + x.len() + y.len()) =~= y) by {
        assert forall|k: int| 0 <= k < y.len() implies s.subrange(
            i + x.len(),
            i + x.len() + y.len(),
        )[k] == y[k] by {
            assert(s.subrange(i, i + x.len() + y.len())[k + x.len()] == (x + y)[k + x.len()]);
            assert(s.subrange(i, i + x.len() + y.len())[k + x.len()] == s[i + k + x.len()]);
            assert(s.subrange(i + x.len(), i + x.len() + y.len())[k] == s[i + x.len() + k]);
            assert((x + y)[k + x.len()] == y[k]);
        }
    }
}

/// Reading two little-endian bytes back gives the number they encode.
pub proof fn lemma_dec_u16(s: Seq<u8>, i: int, x: u16)
    requires
        0 <= i,
        i + 2 <= s.len(),
        s.subrange(i, i + 2) == enc_u16(x),
    ensures
        dec_u16(s, i) == Some((x, i + 2)),
{
    assert(s[i] == enc_u16(x)[0]);
    assert(s[i + 1] == enc_u16(x)[1]);
    assert((x as u8 as u16) | (((x >> 8) as u8 as u16) << 8) == x) by (bit_vector);
}

/// Reading four little-endian bytes back gives the number they encode.
pub proof fn lemma_dec_u32(s: Seq<u8>, i: int, x: u32)
    requires
        0 <= i,
        i + 4 <= s.len(),
        s.subrange(i, i + 4) == enc_u32(x),
    ensures
        dec_u32(s, i) == Some((x, i + 4)),
{
    assert(s[i] == enc_u32(x)[0]);
    assert(s[i + 1] == enc_u32(x)[1]);
    assert(s[i + 2] == enc_u32(x)[2]);
    assert(s[i + 3] == enc_u32(x)[3]);
    assert((x as u8 as u32) | (((x >> 8) as u8 as u32) << 8) | (((x >> 16) as u8 as u32) << 16)
        | (((x >> 24) as u8 as u32) << 24) == x) by (bit_vector);
}

/// Reading a length-prefixed byte string back gives the bytes encoded.
pub proof fn lemma_dec_bytes(s: Seq<u8>, i: int, b: Seq<u8>)
    requires
        0 <= i,
        b.len() <= MAX_FIELD,
        i + 4 + b.len() <= s.len(),
        s.subrange(i, i + 4 + b.len()) == enc_bytes(b),
    ensures
        dec_bytes(s, i) == Some((b, i + 4 + b.len())),
{
    let n = b.len() as u32;
    assert(n as int == b.len()) by {
        assert(b.len() <= 0xffff_ffff);
    }
    assert(s.subrange(i, i + 4) =~= enc_u32(n)) by {
        assert forall|k: int| 0 <= k < 4 implies s.subrange(i, i + 4)[k] == enc_u32(n)[k] by {
            assert(s.subrange(i, i + 4 + b.len())[k] == enc_bytes(b)[k]);
        }
    }
    lemma_dec_u32(s, i, n);
    assert(s.subrange(i + 4, i + 4 + b.len()) =~= b) by {
        assert forall|k: int| 0 <= k < b.len() implies s.subrange(i + 4, i + 4 + b.len())[k]
            == b[k] by {
            assert(s.subrange(i, i + 4 + b.len())[k + 4] == enc_bytes(b)[k + 4]);
        }
    }
}

/// Reading a fixed-length key back gives the key encoded.
pub proof fn lemma_dec_key(s: Seq<u8>, i: int, b: Seq<u8>)
    requires
        0 <= i,
        b.len() == KEY_LEN,
        i + KEY_LEN <= s.len(),
        s.subrange(i, i + KEY_LEN as int) == b,
    ensures
        dec_key(s, i) == Some((b, i + KEY_LEN)),
{
}

// ---------------------------------------------------------------------
// executable encoders

/// Append the two little-endian bytes of `x`.
pub fn enc_u16_vec(out: &mut Vec<u8>, x: u16)
    ensures
        final(out)@ == old(out)@ + enc_u16(x),
{
    out.push(x as u8);
    out.push((x >> 8) as u8);
    proof {
        assert(out@ =~= old(out)@ + enc_u16(x));
    }
}

/// Append the four little-endian bytes of `x`.
pub fn enc_u32_vec(out: &mut Vec<u8>, x: u32)
    ensures
        final(out)@ == old(out)@ + enc_u32(x),
{
    out.push(x as u8);
    out.push((x >> 8) as u8);
    out.push((x >> 16) as u8);
    out.push((x >> 24) as u8);
    proof {
        assert(out@ =~= old(out)@ + enc_u32(x));
    }
}

/// Append the bytes of `b` unchanged.
pub fn append_vec(out: &mut Vec<u8>, b: &Vec<u8>)
    ensures
        final(out)@ == old(out)@ + b@,
{
    let mut i: usize = 0;
    while i < b.len()
        invariant
            i <= b.len(),
            out@ == old(out)@ + b@.subrange(0, i as int),
        decreases b.len() - i,
    {
        out.push(b[i]);
        i = i + 1;
        proof {
            assert(old(out)@ + b@.subrange(0, i - 1) + seq![b@[i - 1]] =~= old(out)@
                + b@.subrange(0, i as int));
        }
    }
    proof {
        assert(old(out)@ + b@.subrange(0, b@.len() as int) =~= old(out)@ + b@);
    }
}

/// Append the length prefix and the bytes of `b`.
pub fn enc_bytes_vec(out: &mut Vec<u8>, b: &Vec<u8>)
    requires
        b@.len() <= MAX_FIELD,
    ensures
        final(out)@ == old(out)@ + enc_bytes(b@),
{
    enc_u32_vec(out, b.len() as u32);
    append_vec(out, b);
    proof {
        assert(out@ =~= old(out)@ + enc_bytes(b@));
    }
}

// ---------------------------------------------------------------------
// executable decoders

/// Copy `s[from..to]` into a fresh vector.
pub fn copy_range(s: &Vec<u8>, from: usize, to: usize) -> (r: Vec<u8>)
    requires
        from <= to,
        to <= s@.len(),
    ensures
        r@ == s@.subrange(from as int, to as int),
{
    let mut out: Vec<u8> = Vec::new();
    let mut i: usize = from;
    while i < to
        invariant
            from <= i <= to,
            to <= s@.len(),
            out@ == s@.subrange(from as int, i as int),
        decreases to - i,
    {
        out.push(s[i]);
        i = i + 1;
        proof {
            assert(out@ =~= s@.subrange(from as int, i as int));
        }
    }
    out
}

/// Read a `u16` at offset `i`.
pub fn dec_u16_vec(s: &Vec<u8>, i: usize) -> (r: Option<(u16, usize)>)
    ensures
        match r {
            Some((x, j)) => dec_u16(s@, i as int) == Some((x, j as int)),
            None => dec_u16(s@, i as int) is None,
        },
{
    if i < s.len() && s.len() - i >= 2 {
        let lo = s[i];
        let hi = s[i + 1];
        Some(((lo as u16) | ((hi as u16) << 8), i + 2))
    } else {
        None
    }
}

/// Read a `u32` at offset `i`.
pub fn dec_u32_vec(s: &Vec<u8>, i: usize) -> (r: Option<(u32, usize)>)
    ensures
        match r {
            Some((x, j)) => dec_u32(s@, i as int) == Some((x, j as int)),
            None => dec_u32(s@, i as int) is None,
        },
{
    if i < s.len() && s.len() - i >= 4 {
        let b0 = s[i];
        let b1 = s[i + 1];
        let b2 = s[i + 2];
        let b3 = s[i + 3];
        Some((
            (b0 as u32) | ((b1 as u32) << 8) | ((b2 as u32) << 16) | ((b3 as u32) << 24),
            i + 4,
        ))
    } else {
        None
    }
}

/// Read a length-prefixed byte string at offset `i`.
pub fn dec_bytes_vec(s: &Vec<u8>, i: usize) -> (r: Option<(Vec<u8>, usize)>)
    ensures
        match r {
            Some((b, j)) => dec_bytes(s@, i as int) == Some((b@, j as int)),
            None => dec_bytes(s@, i as int) is None,
        },
{
    match dec_u32_vec(s, i) {
        Some((n, j)) => {
            if n as usize <= s.len() - j {
                let end = j + n as usize;
                let b = copy_range(s, j, end);
                Some((b, end))
            } else {
                None
            }
        },
        None => None,
    }
}

/// Read a fixed-length key at offset `i`.
pub fn dec_key_vec(s: &Vec<u8>, i: usize) -> (r: Option<(Vec<u8>, usize)>)
    ensures
        match r {
            Some((b, j)) => dec_key(s@, i as int) == Some((b@, j as int)),
            None => dec_key(s@, i as int) is None,
        },
{
    if i < s.len() && s.len() - i >= KEY_LEN {
        let end = i + KEY_LEN;
        let b = copy_range(s, i, end);
        Some((b, end))
    } else {
        None
    }
}

} // verus!
