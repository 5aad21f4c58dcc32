//! Primitive pieces of the canonical byte encoding: little-endian integers,
//! length-prefixed byte strings, booleans and optional integers.  Every
//! composite encoder in the crate is built from these.

use vstd::prelude::*;
use crate::tx::{Tx, txs_view};

verus! {

/// The `k`-th little-endian byte of `x`.
#[verifier::opaque]
pub open spec fn le_byte(x: u64, k: int) -> u8 {
    ((x >> (8 * k) as u64) & 0xff) as u8
}

/// Canonical encoding of a `u64`: 8 little-endian bytes.
pub open spec fn enc_u64(x: u64) -> Seq<u8> {
    seq![
        le_byte(x, 0),
        le_byte(x, 1),
        le_byte(x, 2),
        le_byte(x, 3),
        le_byte(x, 4),
        le_byte(x, 5),
        le_byte(x, 6),
        le_byte(x, 7),
    ]
}

/// Reassembles a `u64` from its 8 little-endian bytes.
#[verifier::opaque]
pub open spec fn u64_from_le(b: Seq<u8>) -> u64
    recommends
        b.len() == 8,
{
    ((b[0] as u64) | ((b[1] as u64) << 8u64) | ((b[2] as u64) << 16u64) | ((b[3] as u64)
        << 24u64) | ((b[4] as u64) << 32u64) | ((b[5] as u64) << 40u64) | ((b[6] as u64)
        << 48u64) | ((b[7] as u64) << 56u64)) as u64
}

/// Decoding a `u64` undoes its encoding.
pub proof fn lemma_u64_le_roundtrip(x: u64)
    ensures
        u64_from_le(enc_u64(x)) == x,
{
    reveal(le_byte);
    reveal(u64_from_le);
    let b = enc_u64(x);
    assert(((((x >> 0u64) & 0xff) as u8 as u64) | ((((x >> 8u64) & 0xff) as u8 as u64) << 8u64) | (
    (((x >> 16u64) & 0xff) as u8 as u64) << 16u64) | ((((x >> 24u64) & 0xff) as u8 as u64)
        << 24u64) | ((((x >> 32u64) & 0xff) as u8 as u64) << 32u64) | ((((x >> 40u64)
        & 0xff) as u8 as u64) << 40u64) | ((((x >> 48u64) & 0xff) as u8 as u64) << 48u64) | ((((x
        >> 56u64) & 0xff) as u8 as u64) << 56u64)) == x) by (bit_vector);
    assert(b[0] == ((x >> 0u64) & 0xff) as u8);
    assert(b[1] == ((x >> 8u64) & 0xff) as u8);
    assert(b[2] == ((x >> 16u64) & 0xff) as u8);
    assert(b[3] == ((x >> 24u64) & 0xff) as u8);
    assert(b[4] == ((x >> 32u64) & 0xff) as u8);
    assert(b[5] == ((x >> 40u64) & 0xff) as u8);
    assert(b[6] == ((x >> 48u64) & 0xff) as u8);
    assert(b[7] == ((x >> 56u64) & 0xff) as u8);
}

/// Appends the encoding of `x` to `out`.
pub fn encode_u64(x: u64, out: &mut Vec<u8>)
    ensures
        final(out)@ == old(out)@ + enc_u64(x),
{
    out.push((x & 0xff) as u8);
    out.push(((x >> 8u64) & 0xff) as u8);
    out.push(((x >> 16u64) & 0xff) as u8);
    out.push(((x >> 24u64) & 0xff) as u8);
    out.push(((x >> 32u64) & 0xff) as u8);
    out.push(((x >> 40u64) & 0xff) as u8);
    out.push(((x >> 48u64) & 0xff) as u8);
    out.push(((x >> 56u64) & 0xff) as u8);
    proof {
        reveal(le_byte);
        assert((x & 0xff) == ((x >> 0u64) & 0xff)) by (bit_vector);
        assert(out@ =~= old(out)@ + enc_u64(x));
    }
}

/// The spec-level decoder for a `u64`: the value and the bytes consumed.
pub open spec fn sdec_u64(s: Seq<u8>) -> Option<(u64, int)> {
    if s.len() >= 8 {
        Some((u64_from_le(s.take(8)), 8int))
    } else {
        None
    }
}

/// A `u64` parses back from its own encoding followed by anything.
pub proof fn lemma_rt_u64(x: u64, rest: Seq<u8>)
    ensures
        sdec_u64(enc_u64(x) + rest) == Some((x, 8int)),
{
    let s = enc_u64(x) + rest;
    assert(s.take(8) =~= enc_u64(x));
    lemma_u64_le_roundtrip(x);
}

/// Reads a `u64` at `pos`; mirrors `sdec_u64` on the remaining bytes.
pub fn decode_u64(buf: &Vec<u8>, pos: usize) -> (r: Option<(u64, usize)>)
    requires
        pos <= buf@.len(),
    ensures
        match r {
            Some((x, p2)) => sdec_u64(buf@.skip(pos as int)) == Some((x, p2 - pos))
                && pos < p2 <= buf@.len(),
            None => sdec_u64(buf@.skip(pos as int)) is None,
        },
{
    if buf.len() - pos < 8 {
        return None;
    }
    let b0 = buf[pos] as u64;
    let b1 = buf[pos + 1] as u64;
    let b2 = buf[pos + 2] as u64;
    let b3 = buf[pos + 3] as u64;
    let b4 = buf[pos + 4] as u64;
    let b5 = buf[pos + 5] as u64;
    let b6 = buf[pos + 6] as u64;
    let b7 = buf[pos + 7] as u64;
    let x: u64 = b0 | (b1 << 8u64) | (b2 << 16u64) | (b3 << 24u64) | (b4 << 32u64) | (b5 << 40u64)
        | (b6 << 48u64) | (b7 << 56u64);
    proof {
        reveal(le_byte);
        reveal(u64_from_le);
        let s = buf@.skip(pos as int);
        assert(s.take(8)[0] == buf@[pos as int]);
        assert(s.take(8)[1] == buf@[pos as int + 1]);
        assert(s.take(8)[2] == buf@[pos as int + 2]);
        assert(s.take(8)[3] == buf@[pos as int + 3]);
        assert(s.take(8)[4] == buf@[pos as int + 4]);
        assert(s.take(8)[5] == buf@[pos as int + 5]);
        assert(s.take(8)[6] == buf@[pos as int + 6]);
        assert(s.take(8)[7] == buf@[pos as int + 7]);
    }
    Some((x, pos + 8))
}

/// Canonical encoding of a byte string: length, then the bytes.
pub open spec fn enc_bytes(b: Seq<u8>) -> Seq<u8> {
    enc_u64(b.len() as u64) + b
}

/// Appends the bytes of `b` to `out`.
pub fn append_bytes(out: &mut Vec<u8>, b: &Vec<u8>)
    ensures
        final(out)@ == old(out)@ + b@,
{
    let mut i: usize = 0;
    while i < b.len()
        invariant
            i <= b@.len(),
            out@ == old(out)@ + b@.take(i as int),
        decreases b@.len() - i,
    {
        out.push(b[i]);
        i = i + 1;
        proof {
            assert(old(out)@ + b@.take(i as int) =~= (old(out)@ + b@.take(i as int - 1)).push(
                b@[i as int - 1],
            ));
        }
    }
    proof {
        assert(b@.take(b@.len() as int) =~= b@);
    }
}

/// Appends the encoding of `b` to `out`.
pub fn encode_bytes(b: &Vec<u8>, out: &mut Vec<u8>)
    ensures
        final(out)@ == old(out)@ + enc_bytes(b@),
{
    encode_u64(b.len() as u64, out);
    append_bytes(out, b);
    proof {
        assert(out@ =~= old(out)@ + enc_bytes(b@));
    }
}

/// The spec-level decoder for a byte string.
pub open spec fn sdec_bytes(s: Seq<u8>) -> Option<(Seq<u8>, int)> {
    match sdec_u64(s) {
        None => None,
        Some((n, c)) => if c + n <= s.len() {
            Some((s.subrange(c, c + n), c + n))
        } else {
            None
        },
    }
}

/// A byte string parses back from its own encoding followed by anything.
pub proof fn lemma_rt_bytes(b: Seq<u8>, rest: Seq<u8>)
    requires
        b.len() <= u64::MAX,
    ensures
        sdec_bytes(enc_bytes(b) + rest) == Some((b, 8 + b.len() as int)),
{
    let s = enc_bytes(b) + rest;
    assert(s =~= enc_u64(b.len() as u64) + (b + rest));
    lemma_rt_u64(b.len() as u64, b + rest);
    assert(s.subrange(8, 8 + b.len() as int) =~= b);
}

/// Reads a length-prefixed byte string at `pos`.
pub fn decode_bytes(buf: &Vec<u8>, pos: usize) -> (r: Option<(Vec<u8>, usize)>)
    requires
        pos <= buf@.len(),
    ensures
        match r {
            Some((x, p2)) => pos < p2 <= buf@.len() && sdec_bytes(buf@.skip(pos as int)) == Some(
                (x@, p2 - pos),
            ),
            None => sdec_bytes(buf@.skip(pos as int)) is None,
        },
{
    let ghost s = buf@.skip(pos as int);
    match decode_u64(buf, pos) {
        None => None,
        Some((n, p1)) => {
            if n > (buf.len() - p1) as u64 {
                return None;
            }
            let nn = n as usize;
            let mut out: Vec<u8> = Vec::new();
            let mut i: usize = 0;
            while i < nn
                invariant
                    i <= nn,
                    p1 + nn <= buf@.len(),
                    buf@.len() <= usize::MAX,
                    out@ == buf@.subrange(p1 as int, p1 as int + i as int),
                decreases nn - i,
            {
                out.push(buf[p1 + i]);
                i = i + 1;
                proof {
                    assert(out@ =~= buf@.subrange(p1 as int, p1 as int + i as int));
                }
            }
            proof {
                assert(out@ =~= s.subrange(8, 8 + n as int));
            }
            Some((out, p1 + nn))
        },
    }
}

/// Canonical encoding of a boolean: one byte, 1 or 0.
pub open spec fn enc_bool(x: bool) -> Seq<u8> {
    seq![
        if x {
            1u8
        } else {
            0u8
        },
    ]
}

/// The spec-level decoder for a boolean.
pub open spec fn sdec_bool(s: Seq<u8>) -> Option<(bool, int)> {
    if s.len() >= 1 {
        if s[0] == 1 {
            Some((true, 1int))
        } else if s[0] == 0 {
            Some((false, 1int))
        } else {
            None
        }
    } else {
        None
    }
}

/// A boolean parses back from its own encoding followed by anything.
pub proof fn lemma_rt_bool(x: bool, rest: Seq<u8>)
    ensures
        sdec_bool(enc_bool(x) + rest) == Some((x, 1int)),
{
}

/// Appends the encoding of `x` to `out`.
pub fn encode_bool(x: bool, out: &mut Vec<u8>)
    ensures
        final(out)@ == old(out)@ + enc_bool(x),
{
    out.push(if x {
        1
    } else {
        0
    });
    proof {
        assert(out@ =~= old(out)@ + enc_bool(x));
    }
}

/// Reads a boolean at `pos`.
pub fn decode_bool(buf: &Vec<u8>, pos: usize) -> (r: Option<(bool, usize)>)
    requires
        pos <= buf@.len(),
    ensures
        match r {
            Some((x, p2)) => pos < p2 <= buf@.len() && sdec_bool(buf@.skip(pos as int)) == Some(
                (x, p2 - pos),
            ),
            None => sdec_bool(buf@.skip(pos as int)) is None,
        },
{
    if pos >= buf.len() {
        return None;
    }
    let b = buf[pos];
    if b == 1 {
        Some((true, pos + 1))
    } else if b == 0 {
        Some((false, pos + 1))
    } else {
        None
    }
}

/// Canonical encoding of an optional `u64`: a presence byte, then the
/// value when present.
pub open spec fn enc_opt_u64(o: Option<u64>) -> Seq<u8> {
    match o {
        None => seq![0u8],
        Some(x) => seq![1u8] + enc_u64(x),
    }
}

/// The spec-level decoder for an optional `u64`.
pub open spec fn sdec_opt_u64(s: Seq<u8>) -> Option<(Option<u64>, int)> {
    if s.len() >= 1 {
        if s[0] == 0 {
            Some((None, 1int))
        } else if s[0] == 1 {
            match sdec_u64(s.skip(1)) {
                None => None,
                Some((x, c)) => Some((Some(x), 1 + c)),
            }
        } else {
            None
        }
    } else {
        None
    }
}

/// An optional `u64` parses back from its own encoding followed by
/// anything.
pub proof fn lemma_rt_opt_u64(o: Option<u64>, rest: Seq<u8>)
    ensures
        sdec_opt_u64(enc_opt_u64(o) + rest) == Some((o, enc_opt_u64(o).len() as int)),
{
    match o {
        None => {},
        Some(x) => {
            let s = enc_opt_u64(o) + rest;
            assert(s.skip(1) =~= enc_u64(x) + rest);
            lemma_rt_u64(x, rest);
        },
    }
}

/// Appends the encoding of `o` to `out`.
pub fn encode_opt_u64(o: &Option<u64>, out: &mut Vec<u8>)
    ensures
        final(out)@ == old(out)@ + enc_opt_u64(*o),
{
    match o {
        None => {
            out.push(0);
        },
        Some(x) => {
            out.push(1);
            encode_u64(*x, out);
        },
    }
    proof {
        assert(out@ =~= old(out)@ + enc_opt_u64(*o));
    }
}

/// Reads an optional `u64` at `pos`.
pub fn decode_opt_u64(buf: &Vec<u8>, pos: usize) -> (r: Option<(Option<u64>, usize)>)
    requires
        pos <= buf@.len(),
    ensures
        match r {
            Some((x, p2)) => pos < p2 <= buf@.len() && sdec_opt_u64(buf@.skip(pos as int))
                == Some((x, p2 - pos)),
            None => sdec_opt_u64(buf@.skip(pos as int)) is None,
        },
{
    if pos >= buf.len() {
        return None;
    }
    let b = buf[pos];
    if b == 0 {
        Some((None, pos + 1))
    } else if b == 1 {
        proof {
            assert(buf@.skip(pos as int).skip(1) =~= buf@.skip(pos as int + 1));
        }
        match decode_u64(buf, pos + 1) {
            None => None,
            Some((x, p2)) => Some((Some(x), p2)),
        }
    } else {
        None
    }
}

/// Encoding of the first `n` entries of a transaction list, in order.
pub open spec fn enc_txs_items(ts: Seq<Seq<u8>>, n: int) -> Seq<u8>
    decreases n,
{
    if n <= 0 {
        Seq::empty()
    } else {
        enc_txs_items(ts, n - 1) + enc_bytes(ts[n - 1])
    }
}

/// Canonical encoding of a transaction list: count, then each payload.
#[verifier::opaque]
pub open spec fn enc_txs(ts: Seq<Seq<u8>>) -> Seq<u8> {
    enc_u64(ts.len() as u64) + enc_txs_items(ts, ts.len() as int)
}

/// Appends the encoding of `txs` to `out`.
pub fn encode_txs(txs: &Vec<Tx>, out: &mut Vec<u8>)
    ensures
        final(out)@ == old(out)@ + enc_txs(txs_view(txs@)),
{
    let ghost ts = txs_view(txs@);
    encode_u64(txs.len() as u64, out);
    let mut i: usize = 0;
    while i < txs.len()
        invariant
            i <= txs@.len(),
            ts == txs_view(txs@),
            out@ == old(out)@ + enc_u64(txs@.len() as u64) + enc_txs_items(ts, i as int),
        decreases txs@.len() - i,
    {
        encode_bytes(&txs[i].payload, out);
        i = i + 1;
        proof {
            assert(ts[i as int - 1] == txs@[i as int - 1]@);
            assert(out@ =~= old(out)@ + enc_u64(txs@.len() as u64) + enc_txs_items(ts, i as int));
        }
    }
    proof {
        reveal(enc_txs);
        assert(out@ =~= old(out)@ + enc_txs(ts));
    }
}

} // verus!
