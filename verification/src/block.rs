//! Blocks and block proposals.  A block's identity is the triple
//! (parent hash, slot, transactions); metadata — votes, notarization and
//! finalization marks — is excluded from identity and from the chain hash.

use vstd::prelude::*;
use crate::codec::{enc_u64, enc_txs, encode_u64, encode_txs};
use crate::crypto::{PublicKey, Signature};
use crate::hashing::spec_hash_bytes;
use crate::participant::Participant;
use crate::tx::{Tx, txs_view, txs_eq, clone_txs, clone_bytes};
use crate::vote::{Vote, VoteV, votes_view, clone_votes};

verus! {

/// The wire form of a not-yet-voted block.
pub struct BlockProposal {
    /// Public key of the proposing leader.
    pub public_key: PublicKey,
    /// Leader's signature over the encoded (parent hash, slot, transactions).
    pub signature: Signature,
    /// Identifier of the proposing leader.
    pub id: u64,
    /// Hash of the parent block.
    pub st: u64,
    /// Slot (epoch) at which the block was proposed.
    pub sl: u64,
    /// Transactions payload.
    pub txs: Vec<Tx>,
}

/// Mathematical image of a proposal.
#[verifier::ext_equal]
pub struct PropV {
    pub public_key: PublicKey,
    pub signature: Signature,
    pub id: u64,
    pub st: u64,
    pub sl: u64,
    pub txs: Seq<Seq<u8>>,
}

impl View for BlockProposal {
    type V = PropV;

    open spec fn view(&self) -> PropV {
        PropV {
            public_key: self.public_key,
            signature: self.signature,
            id: self.id,
            st: self.st,
            sl: self.sl,
            txs: txs_view(self.txs@),
        }
    }
}

impl BlockProposal {
    pub fn new(
        public_key: PublicKey,
        signature: Signature,
        id: u64,
        st: u64,
        sl: u64,
        txs: Vec<Tx>,
    ) -> (r: BlockProposal)
        ensures
            r@ == (PropV { public_key, signature, id, st, sl, txs: txs_view(txs@) }),
    {
        BlockProposal { public_key, signature, id, st, sl, txs }
    }

    /// Field-wise equality of two proposals.
    pub fn same_as(&self, other: &BlockProposal) -> (r: bool)
        ensures
            r == (self@ == other@),
    {
        let r = self.public_key.key == other.public_key.key && self.signature.signer
            == other.signature.signer && self.signature.tag == other.signature.tag && self.id
            == other.id && self.st == other.st && self.sl == other.sl && txs_eq(
            &self.txs,
            &other.txs,
        );
        proof {
            if r {
                assert(self@ =~~= other@);
            }
        }
        r
    }

    /// A deep copy whose view equals this proposal's view.
    pub fn deep_clone(&self) -> (r: BlockProposal)
        ensures
            r@ == self@,
    {
        let r = BlockProposal {
            public_key: self.public_key,
            signature: self.signature,
            id: self.id,
            st: self.st,
            sl: self.sl,
            txs: clone_txs(&self.txs),
        };
        proof {
            assert(r@ =~~= self@);
        }
        r
    }
}

/// Canonical encoding of a block's identity triple, the input both to the
/// chain hash and to the leader's signature.
pub open spec fn enc_header(st: u64, sl: u64, txs: Seq<Seq<u8>>) -> Seq<u8> {
    enc_u64(st) + enc_u64(sl) + enc_txs(txs)
}

/// Appends the encoding of an identity triple to `out`.
pub fn encode_header(st: u64, sl: u64, txs: &Vec<Tx>, out: &mut Vec<u8>)
    ensures
        final(out)@ == old(out)@ + enc_header(st, sl, txs_view(txs@)),
{
    encode_u64(st, out);
    encode_u64(sl, out);
    encode_txs(txs, out);
    proof {
        assert(out@ =~= old(out)@ + enc_header(st, sl, txs_view(txs@)));
    }
}

/// Canonical encoding of a full proposal, the input to a vote's signature.
pub open spec fn enc_proposal(p: PropV) -> Seq<u8> {
    enc_u64(p.public_key.key) + enc_u64(p.signature.signer) + enc_u64(p.signature.tag) + enc_u64(
        p.id,
    ) + enc_header(p.st, p.sl, p.txs)
}

/// Appends the encoding of a full proposal to `out`.
pub fn encode_proposal(p: &BlockProposal, out: &mut Vec<u8>)
    ensures
        final(out)@ == old(out)@ + enc_proposal(p@),
{
    encode_u64(p.public_key.key, out);
    encode_u64(p.signature.signer, out);
    encode_u64(p.signature.tag, out);
    encode_u64(p.id, out);
    encode_header(p.st, p.sl, &p.txs, out);
    proof {
        assert(out@ =~= old(out)@ + enc_proposal(p@));
    }
}

/// Per-block consensus bookkeeping: the votes received so far and the
/// notarization / finalization marks.
pub struct StreamletMetadata {
    pub votes: Vec<Vote>,
    pub notarized: bool,
    pub finalized: bool,
}

/// Additional block information: proof placeholders, the participant set
/// observed when the block was materialized, and the consensus marks.
pub struct Metadata {
    pub proof_data: Vec<u8>,
    pub sig_r: Vec<u8>,
    pub sig_s: Vec<u8>,
    pub participants: Vec<Participant>,
    pub sm: StreamletMetadata,
}

impl Metadata {
    pub fn new(
        proof_data: Vec<u8>,
        sig_r: Vec<u8>,
        sig_s: Vec<u8>,
        participants: Vec<Participant>,
    ) -> (r: Metadata)
        ensures
            r.proof_data@ == proof_data@,
            r.sig_r@ == sig_r@,
            r.sig_s@ == sig_s@,
            r.participants@ == participants@,
            r.sm.votes@.len() == 0,
            !r.sm.notarized,
            !r.sm.finalized,
    {
        Metadata {
            proof_data,
            sig_r,
            sig_s,
            participants,
            sm: StreamletMetadata { votes: Vec::new(), notarized: false, finalized: false },
        }
    }
}

/// A block of the chain.
pub struct Block {
    /// Hash of the parent block.
    pub st: u64,
    /// Slot (epoch) at which the block was proposed.
    pub sl: u64,
    /// Transactions payload.
    pub txs: Vec<Tx>,
    /// Additional block information, excluded from identity.
    pub metadata: Metadata,
}

/// Mathematical image of a block, with the metadata flattened in.
#[verifier::ext_equal]
pub struct BlockV {
    pub st: u64,
    pub sl: u64,
    pub txs: Seq<Seq<u8>>,
    pub proof_data: Seq<u8>,
    pub sig_r: Seq<u8>,
    pub sig_s: Seq<u8>,
    pub participants: Seq<Participant>,
    pub votes: Seq<VoteV>,
    pub notarized: bool,
    pub finalized: bool,
}

impl View for Block {
    type V = BlockV;

    open spec fn view(&self) -> BlockV {
        BlockV {
            st: self.st,
            sl: self.sl,
            txs: txs_view(self.txs@),
            proof_data: self.metadata.proof_data@,
            sig_r: self.metadata.sig_r@,
            sig_s: self.metadata.sig_s@,
            participants: self.metadata.participants@,
            votes: votes_view(self.metadata.sm.votes@),
            notarized: self.metadata.sm.notarized,
            finalized: self.metadata.sm.finalized,
        }
    }
}

impl Block {
    pub fn new(
        st: u64,
        sl: u64,
        txs: Vec<Tx>,
        proof_data: Vec<u8>,
        sig_r: Vec<u8>,
        sig_s: Vec<u8>,
        participants: Vec<Participant>,
    ) -> (r: Block)
        ensures
            r@ == (BlockV {
                st,
                sl,
                txs: txs_view(txs@),
                proof_data: proof_data@,
                sig_r: sig_r@,
                sig_s: sig_s@,
                participants: participants@,
                votes: Seq::<VoteV>::empty(),
                notarized: false,
                finalized: false,
            }),
    {
        let r = Block { st, sl, txs, metadata: Metadata::new(proof_data, sig_r, sig_s, participants) };
        proof {
            assert(votes_view(r.metadata.sm.votes@) =~= Seq::<VoteV>::empty());
            assert(r@ =~~= (BlockV {
                st,
                sl,
                txs: txs_view(txs@),
                proof_data: proof_data@,
                sig_r: sig_r@,
                sig_s: sig_s@,
                participants: participants@,
                votes: Seq::<VoteV>::empty(),
                notarized: false,
                finalized: false,
            }));
        }
        r
    }

    /// The chain hash of this block, over its identity triple only.
    pub fn hash_value(&self) -> (r: u64)
        ensures
            r == spec_block_hash(self@),
    {
        let mut buf: Vec<u8> = Vec::new();
        encode_header(self.st, self.sl, &self.txs, &mut buf);
        proof {
            assert(buf@ =~= enc_header(self@.st, self@.sl, self@.txs));
        }
        crate::hashing::hash_bytes(&buf)
    }

    /// A deep copy whose view equals this block's view.
    pub fn deep_clone(&self) -> (r: Block)
        ensures
            r@ == self@,
    {
        let r = Block {
            st: self.st,
            sl: self.sl,
            txs: clone_txs(&self.txs),
            metadata: Metadata {
                proof_data: clone_bytes(&self.metadata.proof_data),
                sig_r: clone_bytes(&self.metadata.sig_r),
                sig_s: clone_bytes(&self.metadata.sig_s),
                participants: clone_participants(&self.metadata.participants),
                sm: StreamletMetadata {
                    votes: clone_votes(&self.metadata.sm.votes),
                    notarized: self.metadata.sm.notarized,
                    finalized: self.metadata.sm.finalized,
                },
            },
        };
        proof {
            assert(r@ =~~= self@);
        }
        r
    }
}

/// A copy of a participant list.
pub fn clone_participants(ps: &Vec<Participant>) -> (r: Vec<Participant>)
    ensures
        r@ == ps@,
{
    let mut out: Vec<Participant> = Vec::new();
    let mut i: usize = 0;
    while i < ps.len()
        invariant
            i <= ps@.len(),
            out@ == ps@.take(i as int),
        decreases ps@.len() - i,
    {
        out.push(ps[i]);
        i = i + 1;
        proof {
            assert(ps@.take(i as int) =~= ps@.take(i as int - 1).push(ps@[i as int - 1]));
        }
    }
    proof {
        assert(ps@.take(ps@.len() as int) =~= ps@);
    }
    out
}

/// The chain hash of a block's image.
pub open spec fn spec_block_hash(b: BlockV) -> u64 {
    spec_hash_bytes(enc_header(b.st, b.sl, b.txs))
}

/// A proposal and a block are the same block when their identity triples
/// match.
pub open spec fn blocks_match(p: PropV, b: BlockV) -> bool {
    p.st == b.st && p.sl == b.sl && p.txs == b.txs
}

/// Whether `proposal` and `block` are the same block.
pub fn proposal_eq_block(proposal: &BlockProposal, block: &Block) -> (r: bool)
    ensures
        r == blocks_match(proposal@, block@),
{
    proposal.st == block.st && proposal.sl == block.sl && txs_eq(&proposal.txs, &block.txs)
}

/// The views of a sequence of blocks.
pub open spec fn blocks_view(bs: Seq<Block>) -> Seq<BlockV> {
    bs.map(|i: int, b: Block| b@)
}

} // verus!
