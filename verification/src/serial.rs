//! The canonical, deterministic byte codec for the consensus state and
//! its parts, with proofs that decoding undoes encoding.  It backs both
//! signature inputs and persistence.

use vstd::prelude::*;
use crate::codec::{
    enc_u64, enc_bytes, enc_bool, enc_opt_u64, enc_txs, enc_txs_items, sdec_u64, sdec_bytes,
    sdec_bool, sdec_opt_u64, encode_u64, encode_bytes, encode_bool, encode_opt_u64, encode_txs,
    decode_u64, decode_bytes, decode_bool, decode_opt_u64, lemma_rt_u64, lemma_rt_bytes,
    lemma_rt_bool, lemma_rt_opt_u64,
};
use crate::block::{
    Block, BlockProposal, BlockV, Metadata, PropV, StreamletMetadata, blocks_view, enc_proposal,
    encode_proposal,
};
use crate::blockchain::{Blockchain, chains_view};
use crate::crypto::{PublicKey, SecretKey, Signature};
use crate::participant::Participant;
use crate::state::{State, StateV};
use crate::tx::{Tx, txs_view};
use crate::util::Timestamp;
use crate::vote::{Vote, VoteV, votes_view};

verus! {

/// Every payload of the list fits the length prefix.
pub open spec fn bounded_txs(ts: Seq<Seq<u8>>) -> bool {
    ts.len() <= u64::MAX && forall|i: int| 0 <= i < ts.len() ==> (#[trigger] ts[i]).len()
        <= u64::MAX
}

/// The spec-level decoder for `n` consecutive transactions.
pub open spec fn sdec_tx_items(s: Seq<u8>, n: nat) -> Option<(Seq<Seq<u8>>, int)>
    decreases n,
{
    if n == 0 {
        Some((Seq::empty(), 0int))
    } else {
        match sdec_bytes(s) {
            None => None,
            Some((x, c)) => match sdec_tx_items(s.skip(c), (n - 1) as nat) {
                None => None,
                Some((xs, c2)) => Some((seq![x] + xs, c + c2)),
            },
        }
    }
}

/// The item encoding splits off its first element.
pub proof fn lemma_enc_txs_items_front(ts: Seq<Seq<u8>>, n: int)
    requires
        1 <= n <= ts.len(),
    ensures
        enc_txs_items(ts, n) == enc_bytes(ts[0]) + enc_txs_items(ts.skip(1), n - 1),
    decreases n,
{
    if n == 1 {
        assert(enc_txs_items(ts, 0) == Seq::<u8>::empty());
        assert(enc_txs_items(ts.skip(1), 0) == Seq::<u8>::empty());
        assert(enc_txs_items(ts, 1) =~= enc_bytes(ts[0]) + enc_txs_items(ts.skip(1), 0));
    } else {
        lemma_enc_txs_items_front(ts, n - 1);
        assert(ts.skip(1)[n - 2] == ts[n - 1]);
        assert(enc_txs_items(ts, n) =~= enc_bytes(ts[0]) + enc_txs_items(ts.skip(1), n - 1));
    }
}

/// Transaction items parse back from their own encoding.
pub proof fn lemma_rt_tx_items(ts: Seq<Seq<u8>>, rest: Seq<u8>)
    requires
        forall|i: int| 0 <= i < ts.len() ==> (#[trigger] ts[i]).len() <= u64::MAX,
    ensures
        sdec_tx_items(enc_txs_items(ts, ts.len() as int) + rest, ts.len()) == Some((
            ts,
            enc_txs_items(ts, ts.len() as int).len() as int,
        )),
    decreases ts.len(),
{
    if ts.len() == 0 {
        assert(enc_txs_items(ts, 0) + rest =~= rest);
        assert(Seq::<Seq<u8>>::empty() =~= ts);
    } else {
        let n = ts.len() as int;
        lemma_enc_txs_items_front(ts, n);
        let tail_enc = enc_txs_items(ts.skip(1), n - 1);
        let s = enc_txs_items(ts, n) + rest;
        assert(s =~= enc_bytes(ts[0]) + (tail_enc + rest));
        lemma_rt_bytes(ts[0], tail_enc + rest);
        let c = 8 + ts[0].len() as int;
        assert(s.skip(c) =~= tail_enc + rest);
        lemma_rt_tx_items(ts.skip(1), rest);
        assert(ts.skip(1).len() as int == enc_txs_items(ts.skip(1), n - 1).len() as int
            - tail_enc.len() + ts.skip(1).len() as int);
        assert(seq![ts[0]] + ts.skip(1) =~= ts);
        assert(enc_txs_items(ts, n).len() == c + tail_enc.len());
    }
}

/// The spec-level decoder for a transaction list.
pub open spec fn sdec_txs(s: Seq<u8>) -> Option<(Seq<Seq<u8>>, int)> {
    match sdec_u64(s) {
        None => None,
        Some((n, c)) => match sdec_tx_items(s.skip(c), n as nat) {
            None => None,
            Some((xs, c2)) => Some((xs, c + c2)),
        },
    }
}

/// A transaction list parses back from its own encoding.
pub proof fn lemma_rt_txs(ts: Seq<Seq<u8>>, rest: Seq<u8>)
    requires
        bounded_txs(ts),
    ensures
        sdec_txs(enc_txs(ts) + rest) == Some((ts, enc_txs(ts).len() as int)),
{
    reveal(enc_txs);
    let s = enc_txs(ts) + rest;
    let items = enc_txs_items(ts, ts.len() as int);
    assert(s =~= enc_u64(ts.len() as u64) + (items + rest));
    lemma_rt_u64(ts.len() as u64, items + rest);
    assert(s.skip(8) =~= items + rest);
    lemma_rt_tx_items(ts, rest);
}

/// Reads `n` consecutive transactions at `pos`.
pub fn decode_tx_items(buf: &Vec<u8>, pos: usize, n: u64) -> (r: Option<(Vec<Tx>, usize)>)
    requires
        pos <= buf@.len(),
    ensures
        match r {
            Some((xs, p2)) => pos <= p2 <= buf@.len() && sdec_tx_items(
                buf@.skip(pos as int),
                n as nat,
            ) == Some((txs_view(xs@), p2 - pos)),
            None => sdec_tx_items(buf@.skip(pos as int), n as nat) is None,
        },
    decreases n,
{
    if n == 0 {
        let xs: Vec<Tx> = Vec::new();
        proof {
            assert(txs_view(xs@) =~= Seq::<Seq<u8>>::empty());
        }
        return Some((xs, pos));
    }
    match decode_bytes(buf, pos) {
        None => None,
        Some((x, p1)) => {
            proof {
                assert(buf@.skip(pos as int).skip(p1 - pos) =~= buf@.skip(p1 as int));
            }
            let ghost xv = x@;
            match decode_tx_items(buf, p1, n - 1) {
                None => None,
                Some((mut xs, p2)) => {
                    let ghost tailv = txs_view(xs@);
                    xs.insert(0, Tx { payload: x });
                    proof {
                        assert(txs_view(xs@) =~= seq![xv] + tailv);
                    }
                    Some((xs, p2))
                },
            }
        },
    }
}

/// Reads a transaction list at `pos`.
pub fn decode_txs(buf: &Vec<u8>, pos: usize) -> (r: Option<(Vec<Tx>, usize)>)
    requires
        pos <= buf@.len(),
    ensures
        match r {
            Some((xs, p2)) => pos <= p2 <= buf@.len() && sdec_txs(buf@.skip(pos as int)) == Some(
                (txs_view(xs@), p2 - pos),
            ),
            None => sdec_txs(buf@.skip(pos as int)) is None,
        },
{
    match decode_u64(buf, pos) {
        None => None,
        Some((n, p1)) => {
            proof {
                assert(buf@.skip(pos as int).skip(p1 - pos) =~= buf@.skip(p1 as int));
            }
            match decode_tx_items(buf, p1, n) {
                None => None,
                Some((xs, p2)) => Some((xs, p2)),
            }
        },
    }
}

/// Canonical encoding of a participant.
pub open spec fn enc_participant(p: Participant) -> Seq<u8> {
    enc_u64(p.id) + enc_u64(p.public_key.key) + enc_u64(p.joined) + enc_opt_u64(p.voted)
}

/// The spec-level decoder for a participant.
#[verifier::opaque]
pub open spec fn sdec_participant(s: Seq<u8>) -> Option<(Participant, int)> {
    match sdec_u64(s) {
        None => None,
        Some((id, c1)) => match sdec_u64(s.skip(c1)) {
            None => None,
            Some((pk, c2)) => match sdec_u64(s.skip(c1 + c2)) {
                None => None,
                Some((joined, c3)) => match sdec_opt_u64(s.skip(c1 + c2 + c3)) {
                    None => None,
                    Some((voted, c4)) => Some((
                        Participant { id, public_key: PublicKey { key: pk }, joined, voted },
                        c1 + c2 + c3 + c4,
                    )),
                },
            },
        },
    }
}

/// A participant parses back from its own encoding.
pub proof fn lemma_rt_participant(p: Participant, rest: Seq<u8>)
    ensures
        sdec_participant(enc_participant(p) + rest) == Some((
            p,
            enc_participant(p).len() as int,
        )),
{
    reveal(sdec_participant);
    let s = enc_participant(p) + rest;
    let r1 = enc_u64(p.public_key.key) + enc_u64(p.joined) + enc_opt_u64(p.voted) + rest;
    assert(s =~= enc_u64(p.id) + r1);
    lemma_rt_u64(p.id, r1);
    let r2 = enc_u64(p.joined) + enc_opt_u64(p.voted) + rest;
    assert(s.skip(8) =~= enc_u64(p.public_key.key) + r2);
    lemma_rt_u64(p.public_key.key, r2);
    let r3 = enc_opt_u64(p.voted) + rest;
    assert(s.skip(16) =~= enc_u64(p.joined) + r3);
    lemma_rt_u64(p.joined, r3);
    assert(s.skip(24) =~= enc_opt_u64(p.voted) + rest);
    lemma_rt_opt_u64(p.voted, rest);
}

/// Appends the encoding of `p` to `out`.
pub fn encode_participant(p: &Participant, out: &mut Vec<u8>)
    ensures
        final(out)@ == old(out)@ + enc_participant(*p),
{
    encode_u64(p.id, out);
    encode_u64(p.public_key.key, out);
    encode_u64(p.joined, out);
    encode_opt_u64(&p.voted, out);
    proof {
        assert(out@ =~= old(out)@ + enc_participant(*p));
    }
}

/// Reads a participant at `pos`.
pub fn decode_participant(buf: &Vec<u8>, pos: usize) -> (r: Option<(Participant, usize)>)
    requires
        pos <= buf@.len(),
    ensures
        match r {
            Some((x, p2)) => pos <= p2 <= buf@.len() && sdec_participant(buf@.skip(pos as int))
                == Some((x, p2 - pos)),
            None => sdec_participant(buf@.skip(pos as int)) is None,
        },
{
    proof {
        reveal(sdec_participant);
    }
    let ghost s = buf@.skip(pos as int);
    match decode_u64(buf, pos) {
        None => None,
        Some((id, p1)) => {
            proof {
                assert(s.skip(p1 - pos) =~= buf@.skip(p1 as int));
            }
            match decode_u64(buf, p1) {
                None => None,
                Some((pk, p2)) => {
                    proof {
                        assert(s.skip(p2 - pos) =~= buf@.skip(p2 as int));
                    }
                    match decode_u64(buf, p2) {
                        None => None,
                        Some((joined, p3)) => {
                            proof {
                                assert(s.skip(p3 - pos) =~= buf@.skip(p3 as int));
                            }
                            match decode_opt_u64(buf, p3) {
                                None => None,
                                Some((voted, p4)) => Some((
                                    Participant {
                                        id,
                                        public_key: PublicKey { key: pk },
                                        joined,
                                        voted,
                                    },
                                    p4,
                                )),
                            }
                        },
                    }
                },
            }
        },
    }
}

/// Encoding of the first `n` entries of a participant list.
pub open spec fn enc_participant_items(ps: Seq<Participant>, n: int) -> Seq<u8>
    decreases n,
{
    if n <= 0 {
        Seq::empty()
    } else {
        enc_participant_items(ps, n - 1) + enc_participant(ps[n - 1])
    }
}

/// Canonical encoding of a participant list: count, then each entry.
#[verifier::opaque]
pub open spec fn enc_participants(ps: Seq<Participant>) -> Seq<u8> {
    enc_u64(ps.len() as u64) + enc_participant_items(ps, ps.len() as int)
}

/// The spec-level decoder for `n` consecutive participants.
pub open spec fn sdec_participant_items(s: Seq<u8>, n: nat) -> Option<(Seq<Participant>, int)>
    decreases n,
{
    if n == 0 {
        Some((Seq::empty(), 0int))
    } else {
        match sdec_participant(s) {
            None => None,
            Some((x, c)) => match sdec_participant_items(s.skip(c), (n - 1) as nat) {
                None => None,
                Some((xs, c2)) => Some((seq![x] + xs, c + c2)),
            },
        }
    }
}

/// The spec-level decoder for a participant list.
pub open spec fn sdec_participants(s: Seq<u8>) -> Option<(Seq<Participant>, int)> {
    match sdec_u64(s) {
        None => None,
        Some((n, c)) => match sdec_participant_items(s.skip(c), n as nat) {
            None => None,
            Some((xs, c2)) => Some((xs, c + c2)),
        },
    }
}

/// The participant item encoding splits off its first element.
pub proof fn lemma_enc_participant_items_front(ps: Seq<Participant>, n: int)
    requires
        1 <= n <= ps.len(),
    ensures
        enc_participant_items(ps, n) == enc_participant(ps[0]) + enc_participant_items(
            ps.skip(1),
            n - 1,
        ),
    decreases n,
{
    if n == 1 {
        assert(enc_participant_items(ps, 0) == Seq::<u8>::empty());
        assert(enc_participant_items(ps.skip(1), 0) == Seq::<u8>::empty());
        assert(enc_participant_items(ps, 1) =~= enc_participant(ps[0]) + enc_participant_items(
            ps.skip(1),
            0,
        ));
    } else {
        lemma_enc_participant_items_front(ps, n - 1);
        assert(ps.skip(1)[n - 2] == ps[n - 1]);
        assert(enc_participant_items(ps, n) =~= enc_participant(ps[0]) + enc_participant_items(
            ps.skip(1),
            n - 1,
        ));
    }
}

/// Participant items parse back from their own encoding.
#[verifier::rlimit(60)]
pub proof fn lemma_rt_participant_items(ps: Seq<Participant>, rest: Seq<u8>)
    ensures
        sdec_participant_items(enc_participant_items(ps, ps.len() as int) + rest, ps.len())
            == Some((ps, enc_participant_items(ps, ps.len() as int).len() as int)),
    decreases ps.len(),
{
    if ps.len() == 0 {
        assert(enc_participant_items(ps, 0) + rest =~= rest);
        assert(Seq::<Participant>::empty() =~= ps);
    } else {
        let n = ps.len() as int;
        lemma_enc_participant_items_front(ps, n);
        let tail_enc = enc_participant_items(ps.skip(1), n - 1);
        let s = enc_participant_items(ps, n) + rest;
        assert(s =~= enc_participant(ps[0]) + (tail_enc + rest));
        lemma_rt_participant(ps[0], tail_enc + rest);
        let c = enc_participant(ps[0]).len() as int;
        assert(s.skip(c) =~= tail_enc + rest);
        lemma_rt_participant_items(ps.skip(1), rest);
        assert(seq![ps[0]] + ps.skip(1) =~= ps);
    }
}

/// A participant list parses back from its own encoding.
#[verifier::rlimit(60)]
pub proof fn lemma_rt_participants(ps: Seq<Participant>, rest: Seq<u8>)
    requires
        ps.len() <= u64::MAX,
    ensures
        sdec_participants(enc_participants(ps) + rest) == Some((
            ps,
            enc_participants(ps).len() as int,
        )),
{
    reveal(enc_participants);
    let s = enc_participants(ps) + rest;
    let items = enc_participant_items(ps, ps.len() as int);
    assert(s =~= enc_u64(ps.len() as u64) + (items + rest));
    lemma_rt_u64(ps.len() as u64, items + rest);
    assert(s.skip(8) =~= items + rest);
    lemma_rt_participant_items(ps, rest);
}

/// Appends the encoding of `ps` to `out`.
pub fn encode_participants(ps: &Vec<Participant>, out: &mut Vec<u8>)
    ensures
        final(out)@ == old(out)@ + enc_participants(ps@),
{
    encode_u64(ps.len() as u64, out);
    let mut i: usize = 0;
    while i < ps.len()
        invariant
            i <= ps@.len(),
            out@ == old(out)@ + enc_u64(ps@.len() as u64) + enc_participant_items(ps@, i as int),
        decreases ps@.len() - i,
    {
        encode_participant(&ps[i], out);
        i = i + 1;
        proof {
            assert(out@ =~= old(out)@ + enc_u64(ps@.len() as u64) + enc_participant_items(
                ps@,
                i as int,
            ));
        }
    }
    proof {
        reveal(enc_participants);
        assert(out@ =~= old(out)@ + enc_participants(ps@));
    }
}

/// Reads `n` consecutive participants at `pos`.
pub fn decode_participant_items(buf: &Vec<u8>, pos: usize, n: u64) -> (r: Option<
    (Vec<Participant>, usize),
>)
    requires
        pos <= buf@.len(),
    ensures
        match r {
            Some((xs, p2)) => pos <= p2 <= buf@.len() && sdec_participant_items(
                buf@.skip(pos as int),
                n as nat,
            ) == Some((xs@, p2 - pos)),
            None => sdec_participant_items(buf@.skip(pos as int), n as nat) is None,
        },
    decreases n,
{
    if n == 0 {
        let xs: Vec<Participant> = Vec::new();
        proof {
            assert(xs@ =~= Seq::<Participant>::empty());
        }
        return Some((xs, pos));
    }
    match decode_participant(buf, pos) {
        None => None,
        Some((x, p1)) => {
            proof {
                assert(buf@.skip(pos as int).skip(p1 - pos) =~= buf@.skip(p1 as int));
            }
            match decode_participant_items(buf, p1, n - 1) {
                None => None,
                Some((mut xs, p2)) => {
                    let ghost tailv = xs@;
                    xs.insert(0, x);
                    proof {
                        assert(xs@ =~= seq![x] + tailv);
                    }
                    Some((xs, p2))
                },
            }
        },
    }
}

/// Reads a participant list at `pos`.
pub fn decode_participants(buf: &Vec<u8>, pos: usize) -> (r: Option<(Vec<Participant>, usize)>)
    requires
        pos <= buf@.len(),
    ensures
        match r {
            Some((xs, p2)) => pos <= p2 <= buf@.len() && sdec_participants(buf@.skip(pos as int))
                == Some((xs@, p2 - pos)),
            None => sdec_participants(buf@.skip(pos as int)) is None,
        },
{
    match decode_u64(buf, pos) {
        None => None,
        Some((n, p1)) => {
            proof {
                assert(buf@.skip(pos as int).skip(p1 - pos) =~= buf@.skip(p1 as int));
            }
            match decode_participant_items(buf, p1, n) {
                None => None,
                Some((xs, p2)) => Some((xs, p2)),
            }
        },
    }
}


/// The spec-level decoder for a full proposal.
#[verifier::opaque]
pub open spec fn sdec_proposal(s: Seq<u8>) -> Option<(PropV, int)> {
    match sdec_u64(s) {
        None => None,
        Some((pk, _c1)) => match sdec_u64(s.skip(8)) {
            None => None,
            Some((signer, _c2)) => match sdec_u64(s.skip(16)) {
                None => None,
                Some((tag, _c3)) => match sdec_u64(s.skip(24)) {
                    None => None,
                    Some((id, _c4)) => match sdec_u64(s.skip(32)) {
                        None => None,
                        Some((st, _c5)) => match sdec_u64(s.skip(40)) {
                            None => None,
                            Some((sl, _c6)) => match sdec_txs(s.skip(48)) {
                                None => None,
                                Some((txs, c7)) => Some((
                                    PropV {
                                        public_key: PublicKey { key: pk },
                                        signature: Signature { signer, tag },
                                        id,
                                        st,
                                        sl,
                                        txs,
                                    },
                                    48 + c7,
                                )),
                            },
                        },
                    },
                },
            },
        },
    }
}

/// A proposal parses back from its own encoding.
#[verifier::rlimit(60)]
pub proof fn lemma_rt_proposal(p: PropV, rest: Seq<u8>)
    requires
        bounded_txs(p.txs),
    ensures
        sdec_proposal(enc_proposal(p) + rest) == Some((p, enc_proposal(p).len() as int)),
{
    reveal(sdec_proposal);
    let s = enc_proposal(p) + rest;
    let r1 = enc_u64(p.signature.signer) + enc_u64(p.signature.tag) + enc_u64(p.id) + enc_u64(p.st)
        + enc_u64(p.sl) + enc_txs(p.txs) + rest;
    assert(s =~= enc_u64(p.public_key.key) + r1);
    lemma_rt_u64(p.public_key.key, r1);
    let r2 = enc_u64(p.signature.tag) + enc_u64(p.id) + enc_u64(p.st) + enc_u64(p.sl) + enc_txs(
        p.txs,
    ) + rest;
    assert(s.skip(8) =~= enc_u64(p.signature.signer) + r2);
    lemma_rt_u64(p.signature.signer, r2);
    let r3 = enc_u64(p.id) + enc_u64(p.st) + enc_u64(p.sl) + enc_txs(p.txs) + rest;
    assert(s.skip(16) =~= enc_u64(p.signature.tag) + r3);
    lemma_rt_u64(p.signature.tag, r3);
    let r4 = enc_u64(p.st) + enc_u64(p.sl) + enc_txs(p.txs) + rest;
    assert(s.skip(24) =~= enc_u64(p.id) + r4);
    lemma_rt_u64(p.id, r4);
    let r5 = enc_u64(p.sl) + enc_txs(p.txs) + rest;
    assert(s.skip(32) =~= enc_u64(p.st) + r5);
    lemma_rt_u64(p.st, r5);
    let r6 = enc_txs(p.txs) + rest;
    assert(s.skip(40) =~= enc_u64(p.sl) + r6);
    lemma_rt_u64(p.sl, r6);
    assert(s.skip(48) =~= enc_txs(p.txs) + rest);
    lemma_rt_txs(p.txs, rest);
}

/// Reads a full proposal at `pos`.
pub fn decode_proposal(buf: &Vec<u8>, pos: usize) -> (r: Option<(BlockProposal, usize)>)
    requires
        pos <= buf@.len(),
    ensures
        match r {
            Some((x, p2)) => pos <= p2 <= buf@.len() && sdec_proposal(buf@.skip(pos as int))
                == Some((x@, p2 - pos)),
            None => sdec_proposal(buf@.skip(pos as int)) is None,
        },
{
    proof {
        reveal(sdec_proposal);
    }
    let ghost s = buf@.skip(pos as int);
    let r1 = decode_u64(buf, pos);
    if r1.is_none() {
        return None;
    }
    let (pk, p1) = r1.unwrap();
    proof {
        assert(s.skip(8) =~= buf@.skip(p1 as int));
    }
    let r2 = decode_u64(buf, p1);
    if r2.is_none() {
        return None;
    }
    let (signer, p2) = r2.unwrap();
    proof {
        assert(s.skip(16) =~= buf@.skip(p2 as int));
    }
    let r3 = decode_u64(buf, p2);
    if r3.is_none() {
        return None;
    }
    let (tag, p3) = r3.unwrap();
    proof {
        assert(s.skip(24) =~= buf@.skip(p3 as int));
    }
    let r4 = decode_u64(buf, p3);
    if r4.is_none() {
        return None;
    }
    let (id, p4) = r4.unwrap();
    proof {
        assert(s.skip(32) =~= buf@.skip(p4 as int));
    }
    let r5 = decode_u64(buf, p4);
    if r5.is_none() {
        return None;
    }
    let (st, p5) = r5.unwrap();
    proof {
        assert(s.skip(40) =~= buf@.skip(p5 as int));
    }
    let r6 = decode_u64(buf, p5);
    if r6.is_none() {
        return None;
    }
    let (sl, p6) = r6.unwrap();
    proof {
        assert(s.skip(48) =~= buf@.skip(p6 as int));
    }
    let r7 = decode_txs(buf, p6);
    if r7.is_none() {
        return None;
    }
    let (txs, p7) = r7.unwrap();
    let prop = BlockProposal {
        public_key: PublicKey { key: pk },
        signature: Signature { signer, tag },
        id,
        st,
        sl,
        txs,
    };
    proof {
        assert(prop@ =~~= sdec_proposal(s).unwrap().0);
    }
    Some((prop, p7))
}

/// Canonical encoding of a vote.
#[verifier::opaque]
pub open spec fn enc_vote(v: VoteV) -> Seq<u8> {
    enc_u64(v.node_public_key.key) + enc_u64(v.vote.signer) + enc_u64(v.vote.tag) + enc_proposal(
        v.block,
    ) + enc_u64(v.id)
}

/// The spec-level decoder for a vote.
#[verifier::opaque]
pub open spec fn sdec_vote(s: Seq<u8>) -> Option<(VoteV, int)> {
    match sdec_u64(s) {
        None => None,
        Some((pk, _c1)) => match sdec_u64(s.skip(8)) {
            None => None,
            Some((signer, _c2)) => match sdec_u64(s.skip(16)) {
                None => None,
                Some((tag, _c3)) => match sdec_proposal(s.skip(24)) {
                    None => None,
                    Some((prop, c4)) => match sdec_u64(s.skip(24 + c4)) {
                        None => None,
                        Some((id, _c5)) => Some((
                            VoteV {
                                node_public_key: PublicKey { key: pk },
                                vote: Signature { signer, tag },
                                block: prop,
                                id,
                            },
                            24 + c4 + 8,
                        )),
                    },
                },
            },
        },
    }
}

/// A vote parses back from its own encoding.
#[verifier::rlimit(100)]
pub proof fn lemma_rt_vote(v: VoteV, rest: Seq<u8>)
    requires
        bounded_txs(v.block.txs),
    ensures
        sdec_vote(enc_vote(v) + rest) == Some((v, enc_vote(v).len() as int)),
{
    reveal(sdec_vote);
    reveal(enc_vote);
    let s = enc_vote(v) + rest;
    let r1 = enc_u64(v.vote.signer) + enc_u64(v.vote.tag) + enc_proposal(v.block) + enc_u64(v.id)
        + rest;
    assert(s =~= enc_u64(v.node_public_key.key) + r1);
    lemma_rt_u64(v.node_public_key.key, r1);
    let r2 = enc_u64(v.vote.tag) + enc_proposal(v.block) + enc_u64(v.id) + rest;
    assert(s.skip(8) =~= enc_u64(v.vote.signer) + r2);
    lemma_rt_u64(v.vote.signer, r2);
    let r3 = enc_proposal(v.block) + enc_u64(v.id) + rest;
    assert(s.skip(16) =~= enc_u64(v.vote.tag) + r3);
    lemma_rt_u64(v.vote.tag, r3);
    assert(s.skip(24) =~= enc_proposal(v.block) + (enc_u64(v.id) + rest));
    lemma_rt_proposal(v.block, enc_u64(v.id) + rest);
    let c4 = enc_proposal(v.block).len() as int;
    assert(s.skip(24 + c4) =~= enc_u64(v.id) + rest);
    lemma_rt_u64(v.id, rest);
}

/// Appends the encoding of `v` to `out`.
pub fn encode_vote(v: &Vote, out: &mut Vec<u8>)
    ensures
        final(out)@ == old(out)@ + enc_vote(v@),
{
    encode_u64(v.node_public_key.key, out);
    encode_u64(v.vote.signer, out);
    encode_u64(v.vote.tag, out);
    encode_proposal(&v.block, out);
    encode_u64(v.id, out);
    proof {
        reveal(enc_vote);
        assert(out@ =~= old(out)@ + enc_vote(v@));
    }
}

/// Reads a vote at `pos`.
pub fn decode_vote(buf: &Vec<u8>, pos: usize) -> (r: Option<(Vote, usize)>)
    requires
        pos <= buf@.len(),
    ensures
        match r {
            Some((x, p2)) => pos <= p2 <= buf@.len() && sdec_vote(buf@.skip(pos as int)) == Some(
                (x@, p2 - pos),
            ),
            None => sdec_vote(buf@.skip(pos as int)) is None,
        },
{
    proof {
        reveal(sdec_vote);
    }
    let ghost s = buf@.skip(pos as int);
    let r1 = decode_u64(buf, pos);
    if r1.is_none() {
        return None;
    }
    let (pk, p1) = r1.unwrap();
    proof {
        assert(s.skip(8) =~= buf@.skip(p1 as int));
    }
    let r2 = decode_u64(buf, p1);
    if r2.is_none() {
        return None;
    }
    let (signer, p2) = r2.unwrap();
    proof {
        assert(s.skip(16) =~= buf@.skip(p2 as int));
    }
    let r3 = decode_u64(buf, p2);
    if r3.is_none() {
        return None;
    }
    let (tag, p3) = r3.unwrap();
    proof {
        assert(s.skip(24) =~= buf@.skip(p3 as int));
    }
    let r4 = decode_proposal(buf, p3);
    if r4.is_none() {
        return None;
    }
    let (prop, p4) = r4.unwrap();
    proof {
        assert(s.skip(24 + (p4 - p3)) =~= buf@.skip(p4 as int));
    }
    let r5 = decode_u64(buf, p4);
    if r5.is_none() {
        return None;
    }
    let (id, p5) = r5.unwrap();
    let vote = Vote {
        node_public_key: PublicKey { key: pk },
        vote: Signature { signer, tag },
        block: prop,
        id,
    };
    proof {
        assert(vote@ =~~= sdec_vote(s).unwrap().0);
    }
    Some((vote, p5))
}

/// Encoding of the first `n` entries of a vote list.
pub open spec fn enc_vote_items(vs: Seq<VoteV>, n: int) -> Seq<u8>
    decreases n,
{
    if n <= 0 {
        Seq::empty()
    } else {
        enc_vote_items(vs, n - 1) + enc_vote(vs[n - 1])
    }
}

/// Canonical encoding of a vote list: count, then each vote.
#[verifier::opaque]
pub open spec fn enc_votes(vs: Seq<VoteV>) -> Seq<u8> {
    enc_u64(vs.len() as u64) + enc_vote_items(vs, vs.len() as int)
}

/// The spec-level decoder for `n` consecutive votes.
pub open spec fn sdec_vote_items(s: Seq<u8>, n: nat) -> Option<(Seq<VoteV>, int)>
    decreases n,
{
    if n == 0 {
        Some((Seq::empty(), 0int))
    } else {
        match sdec_vote(s) {
            None => None,
            Some((x, c)) => match sdec_vote_items(s.skip(c), (n - 1) as nat) {
                None => None,
                Some((xs, c2)) => Some((seq![x] + xs, c + c2)),
            },
        }
    }
}

/// The spec-level decoder for a vote list.
pub open spec fn sdec_votes(s: Seq<u8>) -> Option<(Seq<VoteV>, int)> {
    match sdec_u64(s) {
        None => None,
        Some((n, c)) => match sdec_vote_items(s.skip(c), n as nat) {
            None => None,
            Some((xs, c2)) => Some((xs, c + c2)),
        },
    }
}

/// Every vote of the list fits the length prefixes.
pub open spec fn bounded_votes(vs: Seq<VoteV>) -> bool {
    vs.len() <= u64::MAX && forall|i: int| 0 <= i < vs.len() ==> bounded_txs(
        (#[trigger] vs[i]).block.txs,
    )
}

/// The vote item encoding splits off its first element.
pub proof fn lemma_enc_vote_items_front(vs: Seq<VoteV>, n: int)
    requires
        1 <= n <= vs.len(),
    ensures
        enc_vote_items(vs, n) == enc_vote(vs[0]) + enc_vote_items(vs.skip(1), n - 1),
    decreases n,
{
    if n == 1 {
        assert(enc_vote_items(vs, 0) == Seq::<u8>::empty());
        assert(enc_vote_items(vs.skip(1), 0) == Seq::<u8>::empty());
        assert(enc_vote_items(vs, 1) =~= enc_vote(vs[0]) + enc_vote_items(vs.skip(1), 0));
    } else {
        lemma_enc_vote_items_front(vs, n - 1);
        assert(vs.skip(1)[n - 2] == vs[n - 1]);
        assert(enc_vote_items(vs, n) =~= enc_vote(vs[0]) + enc_vote_items(vs.skip(1), n - 1));
    }
}

/// Vote items parse back from their own encoding.
#[verifier::rlimit(100)]
pub proof fn lemma_rt_vote_items(vs: Seq<VoteV>, rest: Seq<u8>)
    requires
        forall|i: int| 0 <= i < vs.len() ==> bounded_txs((#[trigger] vs[i]).block.txs),
    ensures
        sdec_vote_items(enc_vote_items(vs, vs.len() as int) + rest, vs.len()) == Some((
            vs,
            enc_vote_items(vs, vs.len() as int).len() as int,
        )),
    decreases vs.len(),
{
    if vs.len() == 0 {
        assert(enc_vote_items(vs, 0) + rest =~= rest);
        assert(Seq::<VoteV>::empty() =~= vs);
    } else {
        let n = vs.len() as int;
        lemma_enc_vote_items_front(vs, n);
        let tail_enc = enc_vote_items(vs.skip(1), n - 1);
        let s = enc_vote_items(vs, n) + rest;
        assert(s =~= enc_vote(vs[0]) + (tail_enc + rest));
        lemma_rt_vote(vs[0], tail_enc + rest);
        let c = enc_vote(vs[0]).len() as int;
        assert(s.skip(c) =~= tail_enc + rest);
        lemma_rt_vote_items(vs.skip(1), rest);
        assert(seq![vs[0]] + vs.skip(1) =~= vs);
    }
}

/// A vote list parses back from its own encoding.
#[verifier::rlimit(60)]
pub proof fn lemma_rt_votes(vs: Seq<VoteV>, rest: Seq<u8>)
    requires
        bounded_votes(vs),
    ensures
        sdec_votes(enc_votes(vs) + rest) == Some((vs, enc_votes(vs).len() as int)),
{
    reveal(enc_votes);
    reveal(enc_vote);
    let s = enc_votes(vs) + rest;
    let items = enc_vote_items(vs, vs.len() as int);
    assert(s =~= enc_u64(vs.len() as u64) + (items + rest));
    lemma_rt_u64(vs.len() as u64, items + rest);
    assert(s.skip(8) =~= items + rest);
    lemma_rt_vote_items(vs, rest);
}

/// Appends the encoding of `vs` to `out`.
pub fn encode_votes(vs: &Vec<Vote>, out: &mut Vec<u8>)
    ensures
        final(out)@ == old(out)@ + enc_votes(votes_view(vs@)),
{
    let ghost vv = votes_view(vs@);
    encode_u64(vs.len() as u64, out);
    let mut i: usize = 0;
    while i < vs.len()
        invariant
            i <= vs@.len(),
            vv == votes_view(vs@),
            out@ == old(out)@ + enc_u64(vs@.len() as u64) + enc_vote_items(vv, i as int),
        decreases vs@.len() - i,
    {
        encode_vote(&vs[i], out);
        i = i + 1;
        proof {
            assert(vv[i as int - 1] == vs@[i as int - 1]@);
            assert(out@ =~= old(out)@ + enc_u64(vs@.len() as u64) + enc_vote_items(vv, i as int));
        }
    }
    proof {
        reveal(enc_votes);
        assert(out@ =~= old(out)@ + enc_votes(vv));
    }
}

/// Reads `n` consecutive votes at `pos`.
#[verifier::rlimit(100)]
pub fn decode_vote_items(buf: &Vec<u8>, pos: usize, n: u64) -> (r: Option<(Vec<Vote>, usize)>)
    requires
        pos <= buf@.len(),
    ensures
        match r {
            Some((xs, p2)) => pos <= p2 <= buf@.len() && sdec_vote_items(
                buf@.skip(pos as int),
                n as nat,
            ) == Some((votes_view(xs@), p2 - pos)),
            None => sdec_vote_items(buf@.skip(pos as int), n as nat) is None,
        },
    decreases n,
{
    if n == 0 {
        let xs: Vec<Vote> = Vec::new();
        proof {
            assert(votes_view(xs@) =~= Seq::<VoteV>::empty());
        }
        return Some((xs, pos));
    }
    match decode_vote(buf, pos) {
        None => None,
        Some((x, p1)) => {
            proof {
                assert(buf@.skip(pos as int).skip(p1 - pos) =~= buf@.skip(p1 as int));
            }
            let ghost xv = x@;
            match decode_vote_items(buf, p1, n - 1) {
                None => None,
                Some((mut xs, p2)) => {
                    let ghost tailv = votes_view(xs@);
                    xs.insert(0, x);
                    proof {
                        assert(votes_view(xs@) =~= seq![xv] + tailv);
                    }
                    Some((xs, p2))
                },
            }
        },
    }
}

/// Reads a vote list at `pos`.
pub fn decode_votes(buf: &Vec<u8>, pos: usize) -> (r: Option<(Vec<Vote>, usize)>)
    requires
        pos <= buf@.len(),
    ensures
        match r {
            Some((xs, p2)) => pos <= p2 <= buf@.len() && sdec_votes(buf@.skip(pos as int))
                == Some((votes_view(xs@), p2 - pos)),
            None => sdec_votes(buf@.skip(pos as int)) is None,
        },
{
    match decode_u64(buf, pos) {
        None => None,
        Some((n, p1)) => {
            proof {
                assert(buf@.skip(pos as int).skip(p1 - pos) =~= buf@.skip(p1 as int));
            }
            match decode_vote_items(buf, p1, n) {
                None => None,
                Some((xs, p2)) => Some((xs, p2)),
            }
        },
    }
}


/// Canonical encoding of a block, metadata included.
#[verifier::opaque]
pub open spec fn enc_block(b: BlockV) -> Seq<u8> {
    enc_u64(b.st) + enc_u64(b.sl) + enc_txs(b.txs) + enc_bytes(b.proof_data) + enc_bytes(b.sig_r)
        + enc_bytes(b.sig_s) + enc_participants(b.participants) + enc_votes(b.votes) + enc_bool(
        b.notarized,
    ) + enc_bool(b.finalized)
}

/// The spec-level decoder for a block.
#[verifier::opaque]
pub open spec fn sdec_block(s: Seq<u8>) -> Option<(BlockV, int)> {
    match sdec_u64(s) {
        None => None,
        Some((st, _c1)) => match sdec_u64(s.skip(8)) {
            None => None,
            Some((sl, _c2)) => match sdec_txs(s.skip(16)) {
                None => None,
                Some((txs, c3)) => match sdec_bytes(s.skip(16 + c3)) {
                    None => None,
                    Some((proof_data, c4)) => match sdec_bytes(s.skip(16 + c3 + c4)) {
                        None => None,
                        Some((sig_r, c5)) => match sdec_bytes(s.skip(16 + c3 + c4 + c5)) {
                            None => None,
                            Some((sig_s, c6)) => match sdec_participants(
                                s.skip(16 + c3 + c4 + c5 + c6),
                            ) {
                                None => None,
                                Some((participants, c7)) => match sdec_votes(
                                    s.skip(16 + c3 + c4 + c5 + c6 + c7),
                                ) {
                                    None => None,
                                    Some((votes, c8)) => match sdec_bool(
                                        s.skip(16 + c3 + c4 + c5 + c6 + c7 + c8),
                                    ) {
                                        None => None,
                                        Some((notarized, _c9)) => match sdec_bool(
                                            s.skip(17 + c3 + c4 + c5 + c6 + c7 + c8),
                                        ) {
                                            None => None,
                                            Some((finalized, _c10)) => Some((
                                                BlockV {
                                                    st,
                                                    sl,
                                                    txs,
                                                    proof_data,
                                                    sig_r,
                                                    sig_s,
                                                    participants,
                                                    votes,
                                                    notarized,
                                                    finalized,
                                                },
                                                18 + c3 + c4 + c5 + c6 + c7 + c8,
                                            )),
                                        },
                                    },
                                },
                            },
                        },
                    },
                },
            },
        },
    }
}

/// Every collection of the block fits its length prefix.
pub open spec fn bounded_block(b: BlockV) -> bool {
    bounded_txs(b.txs) && b.proof_data.len() <= u64::MAX && b.sig_r.len() <= u64::MAX
        && b.sig_s.len() <= u64::MAX && b.participants.len() <= u64::MAX && bounded_votes(b.votes)
}

/// The leading fields of a block parse back from its encoding.
#[verifier::rlimit(100)]
pub proof fn lemma_rt_block_head(b: BlockV, rest: Seq<u8>)
    requires
        bounded_block(b),
    ensures
        ({
            let s = enc_block(b) + rest;
            let c3 = enc_txs(b.txs).len() as int;
            let c4 = enc_bytes(b.proof_data).len() as int;
            let c5 = enc_bytes(b.sig_r).len() as int;
            let c6 = enc_bytes(b.sig_s).len() as int;
            sdec_u64(s) == Some((b.st, 8int)) && sdec_u64(s.skip(8)) == Some((b.sl, 8int))
                && sdec_txs(s.skip(16)) == Some((b.txs, c3)) && sdec_bytes(s.skip(16 + c3))
                == Some((b.proof_data, c4)) && sdec_bytes(s.skip(16 + c3 + c4)) == Some((
                b.sig_r,
                c5,
            )) && sdec_bytes(s.skip(16 + c3 + c4 + c5)) == Some((b.sig_s, c6)) && s.skip(
                16 + c3 + c4 + c5 + c6,
            ) == enc_participants(b.participants) + (enc_votes(b.votes) + (enc_bool(b.notarized)
                + (enc_bool(b.finalized) + rest))) && enc_block(b).len() == 18 + c3 + c4 + c5 + c6
                + enc_participants(b.participants).len() + enc_votes(b.votes).len()
        }),
{
    let t10 = enc_bool(b.finalized) + rest;
    let t9 = enc_bool(b.notarized) + t10;
    let t8 = enc_votes(b.votes) + t9;
    let t7 = enc_participants(b.participants) + t8;
    let t6 = enc_bytes(b.sig_s) + t7;
    let t5 = enc_bytes(b.sig_r) + t6;
    let t4 = enc_bytes(b.proof_data) + t5;
    let t3 = enc_txs(b.txs) + t4;
    let t2 = enc_u64(b.sl) + t3;
    let t1 = enc_u64(b.st) + t2;
    let s = enc_block(b) + rest;
    assert(s =~= t1) by {
        reveal(enc_block);
    }
    let c3 = enc_txs(b.txs).len() as int;
    let c4 = enc_bytes(b.proof_data).len() as int;
    let c5 = enc_bytes(b.sig_r).len() as int;
    let c6 = enc_bytes(b.sig_s).len() as int;
    lemma_rt_u64(b.st, t2);
    assert(s.skip(8) =~= t2);
    lemma_rt_u64(b.sl, t3);
    assert(s.skip(16) =~= t3);
    lemma_rt_txs(b.txs, t4);
    assert(s.skip(16 + c3) =~= t4);
    lemma_rt_bytes(b.proof_data, t5);
    assert(s.skip(16 + c3 + c4) =~= t5);
    lemma_rt_bytes(b.sig_r, t6);
    assert(s.skip(16 + c3 + c4 + c5) =~= t6);
    lemma_rt_bytes(b.sig_s, t7);
    assert(s.skip(16 + c3 + c4 + c5 + c6) =~= t7);
    assert(t7 =~= enc_participants(b.participants) + (enc_votes(b.votes) + (enc_bool(b.notarized)
        + (enc_bool(b.finalized) + rest))));
    assert(enc_block(b).len() == 18 + c3 + c4 + c5 + c6 + enc_participants(
        b.participants,
    ).len() + enc_votes(b.votes).len()) by {
        reveal(enc_block);
    }
}

/// A block parses back from its own encoding.
#[verifier::rlimit(100)]
pub proof fn lemma_rt_block(b: BlockV, rest: Seq<u8>)
    requires
        bounded_block(b),
    ensures
        sdec_block(enc_block(b) + rest) == Some((b, enc_block(b).len() as int)),
{
    lemma_rt_block_head(b, rest);
    let s = enc_block(b) + rest;
    let c3 = enc_txs(b.txs).len() as int;
    let c4 = enc_bytes(b.proof_data).len() as int;
    let c5 = enc_bytes(b.sig_r).len() as int;
    let c6 = enc_bytes(b.sig_s).len() as int;
    let c7 = enc_participants(b.participants).len() as int;
    let c8 = enc_votes(b.votes).len() as int;
    let t7 = s.skip(16 + c3 + c4 + c5 + c6);
    let t10 = enc_bool(b.finalized) + rest;
    let t9 = enc_bool(b.notarized) + t10;
    let t8 = enc_votes(b.votes) + t9;
    assert(t7 =~= enc_participants(b.participants) + t8);
    lemma_rt_participants(b.participants, t8);
    assert(t7.skip(c7) =~= t8);
    assert(s.skip(16 + c3 + c4 + c5 + c6 + c7) =~= t7.skip(c7));
    lemma_rt_votes(b.votes, t9);
    assert(t8.skip(c8) =~= t9);
    assert(s.skip(16 + c3 + c4 + c5 + c6 + c7 + c8) =~= t8.skip(c8));
    lemma_rt_bool(b.notarized, t10);
    assert(t9.skip(1) =~= t10);
    assert(s.skip(17 + c3 + c4 + c5 + c6 + c7 + c8) =~= t9.skip(1));
    lemma_rt_bool(b.finalized, rest);
    assert(sdec_block(s) == Some((b, 18 + c3 + c4 + c5 + c6 + c7 + c8))) by {
        reveal(sdec_block);
    }
}

/// Appends the encoding of `b` to `out`.
pub fn encode_block(b: &Block, out: &mut Vec<u8>)
    ensures
        final(out)@ == old(out)@ + enc_block(b@),
{
    encode_u64(b.st, out);
    encode_u64(b.sl, out);
    encode_txs(&b.txs, out);
    encode_bytes(&b.metadata.proof_data, out);
    encode_bytes(&b.metadata.sig_r, out);
    encode_bytes(&b.metadata.sig_s, out);
    encode_participants(&b.metadata.participants, out);
    encode_votes(&b.metadata.sm.votes, out);
    encode_bool(b.metadata.sm.notarized, out);
    encode_bool(b.metadata.sm.finalized, out);
    proof {
        reveal(enc_block);
        assert(out@ =~= old(out)@ + enc_block(b@));
    }
}

/// Reads a block at `pos`.
#[verifier::rlimit(100)]
pub fn decode_block(buf: &Vec<u8>, pos: usize) -> (r: Option<(Block, usize)>)
    requires
        pos <= buf@.len(),
    ensures
        match r {
            Some((x, p2)) => pos <= p2 <= buf@.len() && sdec_block(buf@.skip(pos as int))
                == Some((x@, p2 - pos)),
            None => sdec_block(buf@.skip(pos as int)) is None,
        },
{
    proof {
        reveal(sdec_block);
    }
    let ghost s = buf@.skip(pos as int);
    let r1 = decode_u64(buf, pos);
    if r1.is_none() {
        return None;
    }
    let (st, p1) = r1.unwrap();
    proof {
        assert(s.skip(8) =~= buf@.skip(p1 as int));
    }
    let r2 = decode_u64(buf, p1);
    if r2.is_none() {
        return None;
    }
    let (sl, p2) = r2.unwrap();
    proof {
        assert(s.skip(16) =~= buf@.skip(p2 as int));
    }
    let r3 = decode_txs(buf, p2);
    if r3.is_none() {
        return None;
    }
    let (txs, p3) = r3.unwrap();
    proof {
        assert(s.skip(16 + (p3 - p2)) =~= buf@.skip(p3 as int));
    }
    let r4 = decode_bytes(buf, p3);
    if r4.is_none() {
        return None;
    }
    let (proof_data, p4) = r4.unwrap();
    proof {
        assert(s.skip(16 + (p3 - p2) + (p4 - p3)) =~= buf@.skip(p4 as int));
    }
    let r5 = decode_bytes(buf, p4);
    if r5.is_none() {
        return None;
    }
    let (sig_r, p5) = r5.unwrap();
    proof {
        assert(s.skip(16 + (p3 - p2) + (p4 - p3) + (p5 - p4)) =~= buf@.skip(p5 as int));
    }
    let r6 = decode_bytes(buf, p5);
    if r6.is_none() {
        return None;
    }
    let (sig_s, p6) = r6.unwrap();
    proof {
        assert(s.skip(16 + (p3 - p2) + (p4 - p3) + (p5 - p4) + (p6 - p5)) =~= buf@.skip(
            p6 as int,
        ));
    }
    let r7 = decode_participants(buf, p6);
    if r7.is_none() {
        return None;
    }
    let (participants, p7) = r7.unwrap();
    proof {
        assert(s.skip(16 + (p3 - p2) + (p4 - p3) + (p5 - p4) + (p6 - p5) + (p7 - p6))
            =~= buf@.skip(p7 as int));
    }
    let r8 = decode_votes(buf, p7);
    if r8.is_none() {
        return None;
    }
    let (votes, p8) = r8.unwrap();
    proof {
        assert(s.skip(16 + (p3 - p2) + (p4 - p3) + (p5 - p4) + (p6 - p5) + (p7 - p6) + (p8 - p7))
            =~= buf@.skip(p8 as int));
    }
    let r9 = decode_bool(buf, p8);
    if r9.is_none() {
        return None;
    }
    let (notarized, p9) = r9.unwrap();
    proof {
        assert(s.skip(
            17 + (p3 - p2) + (p4 - p3) + (p5 - p4) + (p6 - p5) + (p7 - p6) + (p8 - p7),
        ) =~= buf@.skip(p9 as int));
    }
    let r10 = decode_bool(buf, p9);
    if r10.is_none() {
        return None;
    }
    let (finalized, p10) = r10.unwrap();
    let blk = Block {
        st,
        sl,
        txs,
        metadata: Metadata {
            proof_data,
            sig_r,
            sig_s,
            participants,
            sm: StreamletMetadata { votes, notarized, finalized },
        },
    };
    proof {
        assert(blk@ =~~= sdec_block(s).unwrap().0);
    }
    Some((blk, p10))
}

/// Encoding of the first `n` blocks of a chain.
pub open spec fn enc_block_items(bs: Seq<BlockV>, n: int) -> Seq<u8>
    decreases n,
{
    if n <= 0 {
        Seq::empty()
    } else {
        enc_block_items(bs, n - 1) + enc_block(bs[n - 1])
    }
}

/// Canonical encoding of a chain: block count, then each block.
#[verifier::opaque]
pub open spec fn enc_chain(bs: Seq<BlockV>) -> Seq<u8> {
    enc_u64(bs.len() as u64) + enc_block_items(bs, bs.len() as int)
}

/// The spec-level decoder for `n` consecutive blocks.
pub open spec fn sdec_block_items(s: Seq<u8>, n: nat) -> Option<(Seq<BlockV>, int)>
    decreases n,
{
    if n == 0 {
        Some((Seq::empty(), 0int))
    } else {
        match sdec_block(s) {
            None => None,
            Some((x, c)) => match sdec_block_items(s.skip(c), (n - 1) as nat) {
                None => None,
                Some((xs, c2)) => Some((seq![x] + xs, c + c2)),
            },
        }
    }
}

/// The spec-level decoder for a chain.
pub open spec fn sdec_chain(s: Seq<u8>) -> Option<(Seq<BlockV>, int)> {
    match sdec_u64(s) {
        None => None,
        Some((n, c)) => match sdec_block_items(s.skip(c), n as nat) {
            None => None,
            Some((xs, c2)) => Some((xs, c + c2)),
        },
    }
}

/// Every block of the chain is bounded and the chain fits its prefix.
pub open spec fn bounded_chain(bs: Seq<BlockV>) -> bool {
    bs.len() <= u64::MAX && forall|i: int| 0 <= i < bs.len() ==> bounded_block(#[trigger] bs[i])
}

/// The block item encoding splits off its first element.
pub proof fn lemma_enc_block_items_front(bs: Seq<BlockV>, n: int)
    requires
        1 <= n <= bs.len(),
    ensures
        enc_block_items(bs, n) == enc_block(bs[0]) + enc_block_items(bs.skip(1), n - 1),
    decreases n,
{
    if n == 1 {
        assert(enc_block_items(bs, 0) == Seq::<u8>::empty());
        assert(enc_block_items(bs.skip(1), 0) == Seq::<u8>::empty());
        assert(enc_block_items(bs, 1) =~= enc_block(bs[0]) + enc_block_items(bs.skip(1), 0));
    } else {
        lemma_enc_block_items_front(bs, n - 1);
        assert(bs.skip(1)[n - 2] == bs[n - 1]);
        assert(enc_block_items(bs, n) =~= enc_block(bs[0]) + enc_block_items(bs.skip(1), n - 1));
    }
}

/// Block items parse back from their own encoding.
#[verifier::rlimit(100)]
pub proof fn lemma_rt_block_items(bs: Seq<BlockV>, rest: Seq<u8>)
    requires
        forall|i: int| 0 <= i < bs.len() ==> bounded_block(#[trigger] bs[i]),
    ensures
        sdec_block_items(enc_block_items(bs, bs.len() as int) + rest, bs.len()) == Some((
            bs,
            enc_block_items(bs, bs.len() as int).len() as int,
        )),
    decreases bs.len(),
{
    if bs.len() == 0 {
        assert(enc_block_items(bs, 0) + rest =~= rest);
        assert(Seq::<BlockV>::empty() =~= bs);
    } else {
        let n = bs.len() as int;
        lemma_enc_block_items_front(bs, n);
        let tail_enc = enc_block_items(bs.skip(1), n - 1);
        let s = enc_block_items(bs, n) + rest;
        assert(s =~= enc_block(bs[0]) + (tail_enc + rest));
        lemma_rt_block(bs[0], tail_enc + rest);
        let c = enc_block(bs[0]).len() as int;
        assert(s.skip(c) =~= tail_enc + rest);
        lemma_rt_block_items(bs.skip(1), rest);
        assert(seq![bs[0]] + bs.skip(1) =~= bs);
    }
}

/// A chain parses back from its own encoding.
#[verifier::rlimit(100)]
pub proof fn lemma_rt_chain(bs: Seq<BlockV>, rest: Seq<u8>)
    requires
        bounded_chain(bs),
    ensures
        sdec_chain(enc_chain(bs) + rest) == Some((bs, enc_chain(bs).len() as int)),
{
    reveal(enc_chain);
    let s = enc_chain(bs) + rest;
    let items = enc_block_items(bs, bs.len() as int);
    assert(s =~= enc_u64(bs.len() as u64) + (items + rest));
    lemma_rt_u64(bs.len() as u64, items + rest);
    assert(s.skip(8) =~= items + rest);
    lemma_rt_block_items(bs, rest);
}

/// Appends the encoding of `c` to `out`.
pub fn encode_chain(c: &Blockchain, out: &mut Vec<u8>)
    ensures
        final(out)@ == old(out)@ + enc_chain(c@),
{
    let ghost cv = c@;
    encode_u64(c.blocks.len() as u64, out);
    let mut i: usize = 0;
    while i < c.blocks.len()
        invariant
            i <= c.blocks@.len(),
            cv == c@,
            out@ == old(out)@ + enc_u64(c.blocks@.len() as u64) + enc_block_items(cv, i as int),
        decreases c.blocks@.len() - i,
    {
        encode_block(&c.blocks[i], out);
        i = i + 1;
        proof {
            assert(cv[i as int - 1] == c.blocks@[i as int - 1]@);
            assert(out@ =~= old(out)@ + enc_u64(c.blocks@.len() as u64) + enc_block_items(
                cv,
                i as int,
            ));
        }
    }
    proof {
        reveal(enc_chain);
        assert(out@ =~= old(out)@ + enc_chain(cv));
    }
}

/// Reads `n` consecutive blocks at `pos`.
#[verifier::rlimit(100)]
pub fn decode_block_items(buf: &Vec<u8>, pos: usize, n: u64) -> (r: Option<(Vec<Block>, usize)>)
    requires
        pos <= buf@.len(),
    ensures
        match r {
            Some((xs, p2)) => pos <= p2 <= buf@.len() && sdec_block_items(
                buf@.skip(pos as int),
                n as nat,
            ) == Some((blocks_view(xs@), p2 - pos)),
            None => sdec_block_items(buf@.skip(pos as int), n as nat) is None,
        },
    decreases n,
{
    if n == 0 {
        let xs: Vec<Block> = Vec::new();
        proof {
            assert(blocks_view(xs@) =~= Seq::<BlockV>::empty());
        }
        return Some((xs, pos));
    }
    match decode_block(buf, pos) {
        None => None,
        Some((x, p1)) => {
            proof {
                assert(buf@.skip(pos as int).skip(p1 - pos) =~= buf@.skip(p1 as int));
            }
            let ghost xv = x@;
            match decode_block_items(buf, p1, n - 1) {
                None => None,
                Some((mut xs, p2)) => {
                    let ghost tailv = blocks_view(xs@);
                    xs.insert(0, x);
                    proof {
                        assert(blocks_view(xs@) =~= seq![xv] + tailv);
                    }
                    Some((xs, p2))
                },
            }
        },
    }
}

/// Reads a chain at `pos`.
pub fn decode_chain(buf: &Vec<u8>, pos: usize) -> (r: Option<(Blockchain, usize)>)
    requires
        pos <= buf@.len(),
    ensures
        match r {
            Some((x, p2)) => pos <= p2 <= buf@.len() && sdec_chain(buf@.skip(pos as int))
                == Some((x@, p2 - pos)),
            None => sdec_chain(buf@.skip(pos as int)) is None,
        },
{
    match decode_u64(buf, pos) {
        None => None,
        Some((n, p1)) => {
            proof {
                assert(buf@.skip(pos as int).skip(p1 - pos) =~= buf@.skip(p1 as int));
            }
            match decode_block_items(buf, p1, n) {
                None => None,
                Some((xs, p2)) => Some((Blockchain { blocks: xs }, p2)),
            }
        },
    }
}

/// Encoding of the first `n` chains of a fork list.
pub open spec fn enc_chain_items(cs: Seq<Seq<BlockV>>, n: int) -> Seq<u8>
    decreases n,
{
    if n <= 0 {
        Seq::empty()
    } else {
        enc_chain_items(cs, n - 1) + enc_chain(cs[n - 1])
    }
}

/// Canonical encoding of a fork list: count, then each chain.
#[verifier::opaque]
pub open spec fn enc_chains(cs: Seq<Seq<BlockV>>) -> Seq<u8> {
    enc_u64(cs.len() as u64) + enc_chain_items(cs, cs.len() as int)
}

/// The spec-level decoder for `n` consecutive chains.
pub open spec fn sdec_chain_items(s: Seq<u8>, n: nat) -> Option<(Seq<Seq<BlockV>>, int)>
    decreases n,
{
    if n == 0 {
        Some((Seq::empty(), 0int))
    } else {
        match sdec_chain(s) {
            None => None,
            Some((x, c)) => match sdec_chain_items(s.skip(c), (n - 1) as nat) {
                None => None,
                Some((xs, c2)) => Some((seq![x] + xs, c + c2)),
            },
        }
    }
}

/// The spec-level decoder for a fork list.
pub open spec fn sdec_chains(s: Seq<u8>) -> Option<(Seq<Seq<BlockV>>, int)> {
    match sdec_u64(s) {
        None => None,
        Some((n, c)) => match sdec_chain_items(s.skip(c), n as nat) {
            None => None,
            Some((xs, c2)) => Some((xs, c + c2)),
        },
    }
}

/// Every chain of the list is bounded and the list fits its prefix.
pub open spec fn bounded_chains(cs: Seq<Seq<BlockV>>) -> bool {
    cs.len() <= u64::MAX && forall|i: int| 0 <= i < cs.len() ==> bounded_chain(#[trigger] cs[i])
}

/// The chain item encoding splits off its first element.
pub proof fn lemma_enc_chain_items_front(cs: Seq<Seq<BlockV>>, n: int)
    requires
        1 <= n <= cs.len(),
    ensures
        enc_chain_items(cs, n) == enc_chain(cs[0]) + enc_chain_items(cs.skip(1), n - 1),
    decreases n,
{
    if n == 1 {
        assert(enc_chain_items(cs, 0) == Seq::<u8>::empty());
        assert(enc_chain_items(cs.skip(1), 0) == Seq::<u8>::empty());
        assert(enc_chain_items(cs, 1) =~= enc_chain(cs[0]) + enc_chain_items(cs.skip(1), 0));
    } else {
        lemma_enc_chain_items_front(cs, n - 1);
        assert(cs.skip(1)[n - 2] == cs[n - 1]);
        assert(enc_chain_items(cs, n) =~= enc_chain(cs[0]) + enc_chain_items(cs.skip(1), n - 1));
    }
}

/// Chain items parse back from their own encoding.
#[verifier::rlimit(100)]
pub proof fn lemma_rt_chain_items(cs: Seq<Seq<BlockV>>, rest: Seq<u8>)
    requires
        forall|i: int| 0 <= i < cs.len() ==> bounded_chain(#[trigger] cs[i]),
    ensures
        sdec_chain_items(enc_chain_items(cs, cs.len() as int) + rest, cs.len()) == Some((
            cs,
            enc_chain_items(cs, cs.len() as int).len() as int,
        )),
    decreases cs.len(),
{
    if cs.len() == 0 {
        assert(enc_chain_items(cs, 0) + rest =~= rest);
        assert(Seq::<Seq<BlockV>>::empty() =~= cs);
    } else {
        let n = cs.len() as int;
        lemma_enc_chain_items_front(cs, n);
        let tail_enc = enc_chain_items(cs.skip(1), n - 1);
        let s = enc_chain_items(cs, n) + rest;
        assert(s =~= enc_chain(cs[0]) + (tail_enc + rest));
        lemma_rt_chain(cs[0], tail_enc + rest);
        let c = enc_chain(cs[0]).len() as int;
        assert(s.skip(c) =~= tail_enc + rest);
        lemma_rt_chain_items(cs.skip(1), rest);
        assert(seq![cs[0]] + cs.skip(1) =~= cs);
    }
}

/// A fork list parses back from its own encoding.
#[verifier::rlimit(100)]
pub proof fn lemma_rt_chains(cs: Seq<Seq<BlockV>>, rest: Seq<u8>)
    requires
        bounded_chains(cs),
    ensures
        sdec_chains(enc_chains(cs) + rest) == Some((cs, enc_chains(cs).len() as int)),
{
    reveal(enc_chains);
    let s = enc_chains(cs) + rest;
    let items = enc_chain_items(cs, cs.len() as int);
    assert(s =~= enc_u64(cs.len() as u64) + (items + rest));
    lemma_rt_u64(cs.len() as u64, items + rest);
    assert(s.skip(8) =~= items + rest);
    lemma_rt_chain_items(cs, rest);
}

/// Appends the encoding of `cs` to `out`.
pub fn encode_chains(cs: &Vec<Blockchain>, out: &mut Vec<u8>)
    ensures
        final(out)@ == old(out)@ + enc_chains(chains_view(cs@)),
{
    let ghost cv = chains_view(cs@);
    encode_u64(cs.len() as u64, out);
    let mut i: usize = 0;
    while i < cs.len()
        invariant
            i <= cs@.len(),
            cv == chains_view(cs@),
            out@ == old(out)@ + enc_u64(cs@.len() as u64) + enc_chain_items(cv, i as int),
        decreases cs@.len() - i,
    {
        encode_chain(&cs[i], out);
        i = i + 1;
        proof {
            assert(cv[i as int - 1] == cs@[i as int - 1]@);
            assert(out@ =~= old(out)@ + enc_u64(cs@.len() as u64) + enc_chain_items(
                cv,
                i as int,
            ));
        }
    }
    proof {
        reveal(enc_chains);
        assert(out@ =~= old(out)@ + enc_chains(cv));
    }
}

/// Reads `n` consecutive chains at `pos`.
pub fn decode_chain_items(buf: &Vec<u8>, pos: usize, n: u64) -> (r: Option<
    (Vec<Blockchain>, usize),
>)
    requires
        pos <= buf@.len(),
    ensures
        match r {
            Some((xs, p2)) => pos <= p2 <= buf@.len() && sdec_chain_items(
                buf@.skip(pos as int),
                n as nat,
            ) == Some((chains_view(xs@), p2 - pos)),
            None => sdec_chain_items(buf@.skip(pos as int), n as nat) is None,
        },
    decreases n,
{
    if n == 0 {
        let xs: Vec<Blockchain> = Vec::new();
        proof {
            assert(chains_view(xs@) =~= Seq::<Seq<BlockV>>::empty());
        }
        return Some((xs, pos));
    }
    match decode_chain(buf, pos) {
        None => None,
        Some((x, p1)) => {
            proof {
                assert(buf@.skip(pos as int).skip(p1 - pos) =~= buf@.skip(p1 as int));
            }
            let ghost xv = x@;
            match decode_chain_items(buf, p1, n - 1) {
                None => None,
                Some((mut xs, p2)) => {
                    let ghost tailv = chains_view(xs@);
                    xs.insert(0, x);
                    proof {
                        assert(chains_view(xs@) =~= seq![xv] + tailv);
                    }
                    Some((xs, p2))
                },
            }
        },
    }
}

/// Reads a fork list at `pos`.
pub fn decode_chains(buf: &Vec<u8>, pos: usize) -> (r: Option<(Vec<Blockchain>, usize)>)
    requires
        pos <= buf@.len(),
    ensures
        match r {
            Some((xs, p2)) => pos <= p2 <= buf@.len() && sdec_chains(buf@.skip(pos as int))
                == Some((chains_view(xs@), p2 - pos)),
            None => sdec_chains(buf@.skip(pos as int)) is None,
        },
{
    match decode_u64(buf, pos) {
        None => None,
        Some((n, p1)) => {
            proof {
                assert(buf@.skip(pos as int).skip(p1 - pos) =~= buf@.skip(p1 as int));
            }
            match decode_chain_items(buf, p1, n) {
                None => None,
                Some((xs, p2)) => Some((xs, p2)),
            }
        },
    }
}

/// A signed timestamp and its unsigned wire form agree.
pub proof fn lemma_i64_roundtrip(x: i64)
    ensures
        ((x as u64) as i64) == x,
{
    assert(((x as u64) as i64) == x) by (bit_vector);
}

/// Canonical encoding of a whole consensus state.
#[verifier::opaque]
pub open spec fn enc_state(v: StateV) -> Seq<u8> {
    enc_u64(v.id) + enc_u64(v.genesis_time as u64) + enc_u64(v.secret_key.key) + enc_u64(
        v.public_key.key,
    ) + enc_chain(v.canonical) + enc_chains(v.forks) + enc_txs(v.pool) + enc_votes(v.orphans)
        + enc_participants(v.participants) + enc_participants(v.pending)
}

/// The spec-level decoder for a whole consensus state.
#[verifier::opaque]
pub open spec fn sdec_state(s: Seq<u8>) -> Option<(StateV, int)> {
    match sdec_u64(s) {
        None => None,
        Some((id, _c1)) => match sdec_u64(s.skip(8)) {
            None => None,
            Some((genesis, _c2)) => match sdec_u64(s.skip(16)) {
                None => None,
                Some((sk, _c3)) => match sdec_u64(s.skip(24)) {
                    None => None,
                    Some((pk, _c4)) => match sdec_chain(s.skip(32)) {
                        None => None,
                        Some((canonical, c5)) => match sdec_chains(s.skip(32 + c5)) {
                            None => None,
                            Some((forks, c6)) => match sdec_txs(s.skip(32 + c5 + c6)) {
                                None => None,
                                Some((pool, c7)) => match sdec_votes(s.skip(32 + c5 + c6 + c7)) {
                                    None => None,
                                    Some((orphans, c8)) => match sdec_participants(
                                        s.skip(32 + c5 + c6 + c7 + c8),
                                    ) {
                                        None => None,
                                        Some((participants, c9)) => match sdec_participants(
                                            s.skip(32 + c5 + c6 + c7 + c8 + c9),
                                        ) {
                                            None => None,
                                            Some((pending, c10)) => Some((
                                                StateV {
                                                    id,
                                                    genesis_time: genesis as i64,
                                                    secret_key: SecretKey { key: sk },
                                                    public_key: PublicKey { key: pk },
                                                    canonical,
                                                    forks,
                                                    pool,
                                                    orphans,
                                                    participants,
                                                    pending,
                                                },
                                                32 + c5 + c6 + c7 + c8 + c9 + c10,
                                            )),
                                        },
                                    },
                                },
                            },
                        },
                    },
                },
            },
        },
    }
}

/// Every collection of the state fits its length prefix.
pub open spec fn bounded_state(v: StateV) -> bool {
    bounded_chain(v.canonical) && bounded_chains(v.forks) && bounded_txs(v.pool) && bounded_votes(
        v.orphans,
    ) && v.participants.len() <= u64::MAX && v.pending.len() <= u64::MAX
}

/// Serializing and deserializing a consensus state yields the same
/// state: the codec round-trips on every well-sized state.
#[verifier::rlimit(100)]
pub proof fn lemma_rt_state(v: StateV, rest: Seq<u8>)
    requires
        bounded_state(v),
    ensures
        sdec_state(enc_state(v) + rest) == Some((v, enc_state(v).len() as int)),
{
    let t10 = enc_participants(v.pending) + rest;
    let t9 = enc_participants(v.participants) + t10;
    let t8 = enc_votes(v.orphans) + t9;
    let t7 = enc_txs(v.pool) + t8;
    let t6 = enc_chains(v.forks) + t7;
    let t5 = enc_chain(v.canonical) + t6;
    let t4 = enc_u64(v.public_key.key) + t5;
    let t3 = enc_u64(v.secret_key.key) + t4;
    let t2 = enc_u64(v.genesis_time as u64) + t3;
    let t1 = enc_u64(v.id) + t2;
    let s = enc_state(v) + rest;
    assert(s =~= t1) by {
        reveal(enc_state);
    }
    let c5 = enc_chain(v.canonical).len() as int;
    let c6 = enc_chains(v.forks).len() as int;
    let c7 = enc_txs(v.pool).len() as int;
    let c8 = enc_votes(v.orphans).len() as int;
    let c9 = enc_participants(v.participants).len() as int;
    let c10 = enc_participants(v.pending).len() as int;
    lemma_rt_u64(v.id, t2);
    assert(s.skip(8) =~= t2);
    lemma_rt_u64(v.genesis_time as u64, t3);
    lemma_i64_roundtrip(v.genesis_time);
    assert(s.skip(16) =~= t3);
    lemma_rt_u64(v.secret_key.key, t4);
    assert(s.skip(24) =~= t4);
    lemma_rt_u64(v.public_key.key, t5);
    assert(s.skip(32) =~= t5);
    lemma_rt_chain(v.canonical, t6);
    assert(s.skip(32 + c5) =~= t6);
    lemma_rt_chains(v.forks, t7);
    assert(s.skip(32 + c5 + c6) =~= t7);
    lemma_rt_txs(v.pool, t8);
    assert(s.skip(32 + c5 + c6 + c7) =~= t8);
    lemma_rt_votes(v.orphans, t9);
    assert(s.skip(32 + c5 + c6 + c7 + c8) =~= t9);
    lemma_rt_participants(v.participants, t10);
    assert(s.skip(32 + c5 + c6 + c7 + c8 + c9) =~= t10);
    lemma_rt_participants(v.pending, rest);
    assert(enc_state(v).len() == 32 + c5 + c6 + c7 + c8 + c9 + c10) by {
        reveal(enc_state);
    }
    assert(sdec_state(s) == Some((v, 32 + c5 + c6 + c7 + c8 + c9 + c10))) by {
        reveal(sdec_state);
    }
}

/// Appends the encoding of the whole state `st` to `out`.
pub fn encode_state(st: &State, out: &mut Vec<u8>)
    ensures
        final(out)@ == old(out)@ + enc_state(st@),
{
    encode_u64(st.id, out);
    proof {
        lemma_i64_roundtrip(st.genesis_time.0);
    }
    encode_u64(st.genesis_time.0 as u64, out);
    encode_u64(st.secret_key.key, out);
    encode_u64(st.public_key.key, out);
    encode_chain(&st.canonical_blockchain, out);
    encode_chains(&st.node_blockchains, out);
    encode_txs(&st.unconfirmed_txs, out);
    encode_votes(&st.orphan_votes, out);
    encode_participants(&st.participants, out);
    encode_participants(&st.pending_participants, out);
    proof {
        reveal(enc_state);
        assert(out@ =~= old(out)@ + enc_state(st@));
    }
}

/// Reads a whole consensus state at `pos`.
#[verifier::rlimit(100)]
pub fn decode_state(buf: &Vec<u8>, pos: usize) -> (r: Option<(State, usize)>)
    requires
        pos <= buf@.len(),
    ensures
        match r {
            Some((x, p2)) => pos <= p2 <= buf@.len() && sdec_state(buf@.skip(pos as int))
                == Some((x@, p2 - pos)),
            None => sdec_state(buf@.skip(pos as int)) is None,
        },
{
    proof {
        reveal(sdec_state);
    }
    let ghost s = buf@.skip(pos as int);
    let r1 = decode_u64(buf, pos);
    if r1.is_none() {
        return None;
    }
    let (id, p1) = r1.unwrap();
    proof {
        assert(s.skip(8) =~= buf@.skip(p1 as int));
    }
    let r2 = decode_u64(buf, p1);
    if r2.is_none() {
        return None;
    }
    let (genesis, p2) = r2.unwrap();
    proof {
        assert(s.skip(16) =~= buf@.skip(p2 as int));
    }
    let r3 = decode_u64(buf, p2);
    if r3.is_none() {
        return None;
    }
    let (sk, p3) = r3.unwrap();
    proof {
        assert(s.skip(24) =~= buf@.skip(p3 as int));
    }
    let r4 = decode_u64(buf, p3);
    if r4.is_none() {
        return None;
    }
    let (pk, p4) = r4.unwrap();
    proof {
        assert(s.skip(32) =~= buf@.skip(p4 as int));
    }
    let r5 = decode_chain(buf, p4);
    if r5.is_none() {
        return None;
    }
    let (canonical, p5) = r5.unwrap();
    proof {
        assert(s.skip(32 + (p5 - p4)) =~= buf@.skip(p5 as int));
    }
    let r6 = decode_chains(buf, p5);
    if r6.is_none() {
        return None;
    }
    let (forks, p6) = r6.unwrap();
    proof {
        assert(s.skip(32 + (p5 - p4) + (p6 - p5)) =~= buf@.skip(p6 as int));
    }
    let r7 = decode_txs(buf, p6);
    if r7.is_none() {
        return None;
    }
    let (pool, p7) = r7.unwrap();
    proof {
        assert(s.skip(32 + (p5 - p4) + (p6 - p5) + (p7 - p6)) =~= buf@.skip(p7 as int));
    }
    let r8 = decode_votes(buf, p7);
    if r8.is_none() {
        return None;
    }
    let (orphans, p8) = r8.unwrap();
    proof {
        assert(s.skip(32 + (p5 - p4) + (p6 - p5) + (p7 - p6) + (p8 - p7)) =~= buf@.skip(
            p8 as int,
        ));
    }
    let r9 = decode_participants(buf, p8);
    if r9.is_none() {
        return None;
    }
    let (participants, p9) = r9.unwrap();
    proof {
        assert(s.skip(32 + (p5 - p4) + (p6 - p5) + (p7 - p6) + (p8 - p7) + (p9 - p8))
            =~= buf@.skip(p9 as int));
    }
    let r10 = decode_participants(buf, p9);
    if r10.is_none() {
        return None;
    }
    let (pending, p10) = r10.unwrap();
    let st = State {
        id,
        genesis_time: Timestamp(genesis as i64),
        secret_key: SecretKey { key: sk },
        public_key: PublicKey { key: pk },
        canonical_blockchain: canonical,
        node_blockchains: forks,
        unconfirmed_txs: pool,
        orphan_votes: orphans,
        participants,
        pending_participants: pending,
    };
    proof {
        assert(st@ =~~= sdec_state(s).unwrap().0);
    }
    Some((st, p10))
}

} // verus!
