//! Votes cast by participants over full block proposals.  Two votes are
//! equal when the same voter references the same proposal.

use vstd::prelude::*;
use crate::crypto::{PublicKey, Signature};
use crate::block::{BlockProposal, PropV};

verus! {

pub struct Vote {
    /// Public key of the voter.
    pub node_public_key: PublicKey,
    /// Signature over the encoded referenced proposal.
    pub vote: Signature,
    /// The referenced proposal, carried in full.
    pub block: BlockProposal,
    /// Identifier of the voter.
    pub id: u64,
}

/// Mathematical image of a vote.
#[verifier::ext_equal]
pub struct VoteV {
    pub node_public_key: PublicKey,
    pub vote: Signature,
    pub block: PropV,
    pub id: u64,
}

impl View for Vote {
    type V = VoteV;

    open spec fn view(&self) -> VoteV {
        VoteV {
            node_public_key: self.node_public_key,
            vote: self.vote,
            block: self.block@,
            id: self.id,
        }
    }
}

impl Vote {
    pub fn new(node_public_key: PublicKey, vote: Signature, block: BlockProposal, id: u64) -> (r:
        Vote)
        ensures
            r@ == (VoteV { node_public_key, vote, block: block@, id }),
    {
        Vote { node_public_key, vote, block, id }
    }

    /// Field-wise equality of two votes.
    pub fn same_as(&self, other: &Vote) -> (r: bool)
        ensures
            r == (self@ == other@),
    {
        let r = self.node_public_key.key == other.node_public_key.key && self.vote.signer
            == other.vote.signer && self.vote.tag == other.vote.tag && self.id == other.id
            && self.block.same_as(&other.block);
        proof {
            if r {
                assert(self@ =~~= other@);
            }
        }
        r
    }

    /// A deep copy whose view equals this vote's view.
    pub fn deep_clone(&self) -> (r: Vote)
        ensures
            r@ == self@,
    {
        let r = Vote {
            node_public_key: self.node_public_key,
            vote: self.vote,
            block: self.block.deep_clone(),
            id: self.id,
        };
        proof {
            assert(r@ =~~= self@);
        }
        r
    }
}

/// The views of a sequence of votes.
pub open spec fn votes_view(vs: Seq<Vote>) -> Seq<VoteV> {
    vs.map(|i: int, v: Vote| v@)
}

/// Whether `v` occurs in the viewed vote list `vs`.
pub open spec fn vote_in(vs: Seq<VoteV>, v: VoteV) -> bool {
    exists|i: int| 0 <= i < vs.len() && vs[i] == v
}

/// Scans a vote list for an entry equal to `v`.
pub fn contains_vote(vs: &Vec<Vote>, v: &Vote) -> (r: bool)
    ensures
        r == vote_in(votes_view(vs@), v@),
{
    let mut i: usize = 0;
    while i < vs.len()
        invariant
            i <= vs@.len(),
            forall|j: int| 0 <= j < i ==> vs@[j]@ != v@,
        decreases vs@.len() - i,
    {
        if vs[i].same_as(v) {
            proof {
                assert(votes_view(vs@)[i as int] == v@);
            }
            return true;
        }
        i = i + 1;
    }
    proof {
        assert(forall|j: int| 0 <= j < votes_view(vs@).len() ==> votes_view(vs@)[j] != v@);
    }
    false
}

/// A deep copy of a vote list.
pub fn clone_votes(vs: &Vec<Vote>) -> (r: Vec<Vote>)
    ensures
        votes_view(r@) == votes_view(vs@),
{
    let mut out: Vec<Vote> = Vec::new();
    let mut i: usize = 0;
    while i < vs.len()
        invariant
            i <= vs@.len(),
            out@.len() == i,
            forall|j: int| 0 <= j < i ==> out@[j]@ == vs@[j]@,
        decreases vs@.len() - i,
    {
        out.push(vs[i].deep_clone());
        i = i + 1;
    }
    proof {
        assert(votes_view(out@) =~= votes_view(vs@));
    }
    out
}

} // verus!
