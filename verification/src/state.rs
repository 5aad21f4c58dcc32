//! The consensus state of a node and the protocol transitions over it:
//! leader election, block proposal, voting, notarization and finalization.
//! Every transition is specified as a pure function over the state's
//! mathematical image and the executable code is proved to implement it.

use vstd::prelude::*;
use crate::block::{
    Block, BlockProposal, BlockV, PropV, blocks_match, blocks_view, spec_block_hash, enc_header,
    enc_proposal, encode_header, encode_proposal, proposal_eq_block, clone_participants,
};
use crate::blockchain::{Blockchain, all_notarized, notarized_except_last, chains_view};
use crate::crypto::{PublicKey, SecretKey, spec_sign, spec_pk_of, spec_verify};
use crate::hashing::spec_hash_u64;
use crate::participant::{
    Participant, sorted_by_id, spec_admit, admit_participants, lemma_admit_sorted,
    lemma_lb_spec_bounds, find_participant_index,
};
use crate::tx::{Tx, tx_in, txs_view, contains_tx, clone_txs};
use crate::util::{Timestamp, spec_epoch, spec_secs_until_next_epoch, current_epoch_at,
    secs_until_next_epoch_at, unix_now};
use crate::vote::{Vote, VoteV, vote_in, votes_view, contains_vote};

verus! {

/// Typed rejection of an adversarial or failing input; an invalid message
/// never terminates the node.
#[derive(Clone, Copy, PartialEq, Eq, Structural, Debug)]
pub enum ConsensusError {
    /// The proposal does not come from the current epoch's leader.
    InvalidLeader,
    /// A signature does not verify against its stated public key.
    InvalidSignature,
    /// The persistent store refused an operation.
    StoreFailure,
    /// Persisted bytes do not decode to a state.
    DecodeFailure,
}

/// Mathematical image of a whole consensus state.
#[verifier::ext_equal]
pub struct StateV {
    pub id: u64,
    pub genesis_time: i64,
    pub secret_key: SecretKey,
    pub public_key: PublicKey,
    pub canonical: Seq<BlockV>,
    pub forks: Seq<Seq<BlockV>>,
    pub pool: Seq<Seq<u8>>,
    pub orphans: Seq<VoteV>,
    pub participants: Seq<Participant>,
    pub pending: Seq<Participant>,
}

/// The state of a consensus node: its identity and keys, the canonical
/// chain, the competing forks, the unconfirmed transaction pool, buffered
/// orphan votes and the participant registry.
pub struct State {
    pub id: u64,
    pub genesis_time: Timestamp,
    pub secret_key: SecretKey,
    pub public_key: PublicKey,
    pub canonical_blockchain: Blockchain,
    pub node_blockchains: Vec<Blockchain>,
    pub unconfirmed_txs: Vec<Tx>,
    pub orphan_votes: Vec<Vote>,
    pub participants: Vec<Participant>,
    pub pending_participants: Vec<Participant>,
}

impl View for State {
    type V = StateV;

    open spec fn view(&self) -> StateV {
        StateV {
            id: self.id,
            genesis_time: self.genesis_time.0,
            secret_key: self.secret_key,
            public_key: self.public_key,
            canonical: self.canonical_blockchain@,
            forks: chains_view(self.node_blockchains@),
            pool: txs_view(self.unconfirmed_txs@),
            orphans: votes_view(self.orphan_votes@),
            participants: self.participants@,
            pending: self.pending_participants@,
        }
    }
}

/// Well-formedness of a consensus state: the canonical chain is nonempty
/// and fully notarized, every tracked fork is nonempty, and the active
/// participant set is strictly sorted by identifier.
pub open spec fn wf(s: StateV) -> bool {
    &&& s.canonical.len() >= 1
    &&& all_notarized(s.canonical)
    &&& forall|i: int| 0 <= i < s.forks.len() ==> s.forks[i].len() >= 1
    &&& sorted_by_id(s.participants)
}

/// The bootstrap admission: when the active set is empty, all pending
/// participants move in at once.
pub open spec fn spec_zero_check(s: StateV) -> StateV {
    if s.participants.len() == 0 {
        StateV {
            participants: spec_admit(s.participants, s.pending, s.pending.len() as int),
            pending: Seq::empty(),
            ..s
        }
    } else {
        s
    }
}

/// Admission never shrinks the active set.
pub proof fn lemma_admit_len(ps: Seq<Participant>, pending: Seq<Participant>, n: int)
    requires
        0 <= n <= pending.len(),
    ensures
        spec_admit(ps, pending, n).len() >= ps.len(),
        n >= 1 ==> spec_admit(ps, pending, n).len() >= 1,
    decreases n,
{
    if n > 0 {
        lemma_admit_len(ps, pending, n - 1);
        let prev = spec_admit(ps, pending, n - 1);
        let p = pending[n - 1];
        lemma_lb_spec_bounds(prev, p.id);
    }
}

/// The leader of `epoch` over a snapshot of the active participant set:
/// a hash of the epoch number reduced modulo the set size picks the
/// position in identifier order.
pub open spec fn spec_epoch_leader(epoch: u64, parts: Seq<Participant>) -> u64
    recommends
        parts.len() > 0,
{
    parts[(spec_hash_u64(epoch) as int) % (parts.len() as int)].id
}

/// Scan of the first `n` forks for the longest fully notarized one:
/// the pair of its index and its length, `(-1, 0)` when none qualifies.
pub open spec fn spec_lnc(forks: Seq<Seq<BlockV>>, n: int) -> (int, int)
    decreases n,
{
    if n <= 0 {
        (-1int, 0int)
    } else {
        let (bi, bl) = spec_lnc(forks, n - 1);
        if all_notarized(forks[n - 1]) && forks[n - 1].len() > bl {
            (n - 1, forks[n - 1].len() as int)
        } else {
            (bi, bl)
        }
    }
}

/// The longest fully notarized chain of a state; the canonical chain when
/// no tracked fork qualifies.
pub open spec fn spec_longest_chain(s: StateV) -> Seq<BlockV> {
    let (bi, bl) = spec_lnc(s.forks, s.forks.len() as int);
    if bi == -1 {
        s.canonical
    } else {
        s.forks[bi]
    }
}

/// Whether transaction `t` appears in any block of any tracked fork.
pub open spec fn tx_in_forks(forks: Seq<Seq<BlockV>>, t: Seq<u8>) -> bool {
    exists|i: int, j: int|
        0 <= i < forks.len() && 0 <= j < forks[i].len() && tx_in(forks[i][j].txs, t)
}

/// The first `n` pool entries that appear in no tracked fork, in pool
/// order.
pub open spec fn spec_unproposed_n(pool: Seq<Seq<u8>>, forks: Seq<Seq<BlockV>>, n: int) -> Seq<
    Seq<u8>,
>
    decreases n,
{
    if n <= 0 {
        Seq::empty()
    } else {
        spec_unproposed_n(pool, forks, n - 1) + if !tx_in_forks(forks, pool[n - 1]) {
            seq![pool[n - 1]]
        } else {
            Seq::empty()
        }
    }
}

/// The unconfirmed transactions not yet included in any tracked fork.
pub open spec fn spec_unproposed(s: StateV) -> Seq<Seq<u8>> {
    spec_unproposed_n(s.pool, s.forks, s.pool.len() as int)
}

/// The proposal this node builds for `epoch`: it extends the tail of the
/// longest notarized chain and carries every unproposed transaction,
/// signed over the encoded identity triple.
pub open spec fn spec_propose(s: StateV, epoch: u64) -> PropV {
    let chain = spec_longest_chain(s);
    let st = spec_block_hash(chain.last());
    let txs = spec_unproposed(s);
    PropV {
        public_key: s.public_key,
        signature: spec_sign(s.secret_key, enc_header(st, epoch, txs)),
        id: s.id,
        st,
        sl: epoch,
        txs,
    }
}

/// Whether a block with parent hash `st` and slot `sl` extends the tail
/// of chain `f` under the slot-ordering rule: the leader's own proposal
/// may sit at the tip boundary, any other must be strictly later.
pub open spec fn fork_tip_match(f: Seq<BlockV>, st: u64, sl: u64, leader: bool) -> bool
    recommends
        f.len() >= 1,
{
    st == spec_block_hash(f.last()) && (if leader {
        sl >= f.last().sl
    } else {
        sl > f.last().sl
    })
}

/// First of the first `n` forks whose tail the block extends; `-3` when
/// none does.
pub open spec fn spec_find_ext_n(
    forks: Seq<Seq<BlockV>>,
    st: u64,
    sl: u64,
    leader: bool,
    n: int,
) -> int
    decreases n,
{
    if n <= 0 {
        -3int
    } else {
        let prev = spec_find_ext_n(forks, st, sl, leader, n - 1);
        if prev != -3 {
            prev
        } else if fork_tip_match(forks[n - 1], st, sl, leader) {
            n - 1
        } else {
            -3int
        }
    }
}

/// Which chain a block extends: the index of a tracked fork, `-1` for the
/// canonical chain (a new fork starts), `-2` for none.
pub open spec fn spec_find_ext(
    forks: Seq<Seq<BlockV>>,
    canonical: Seq<BlockV>,
    st: u64,
    sl: u64,
    leader: bool,
) -> int {
    let f = spec_find_ext_n(forks, st, sl, leader, forks.len() as int);
    if f != -3 {
        f
    } else if fork_tip_match(canonical, st, sl, leader) {
        -1
    } else {
        -2
    }
}

/// The fork scan yields `-3` or a valid index.
pub proof fn lemma_find_ext_bounds(forks: Seq<Seq<BlockV>>, st: u64, sl: u64, leader: bool, n: int)
    requires
        0 <= n,
    ensures
        spec_find_ext_n(forks, st, sl, leader, n) == -3 || 0 <= spec_find_ext_n(
            forks,
            st,
            sl,
            leader,
            n,
        ) < n,
    decreases n,
{
    if n > 0 {
        lemma_find_ext_bounds(forks, st, sl, leader, n - 1);
    }
}

/// A found fork index propagates through the rest of the scan.
pub proof fn lemma_find_ext_propagate(
    forks: Seq<Seq<BlockV>>,
    st: u64,
    sl: u64,
    leader: bool,
    n: int,
    m: int,
)
    requires
        0 <= n <= m,
        spec_find_ext_n(forks, st, sl, leader, n) != -3,
    ensures
        spec_find_ext_n(forks, st, sl, leader, m) == spec_find_ext_n(forks, st, sl, leader, n),
    decreases m - n,
{
    if m > n {
        lemma_find_ext_propagate(forks, st, sl, leader, n, m - 1);
    }
}

/// Whether two proposals name the same block: their identity triples
/// match.
pub open spec fn prop_match(a: PropV, b: PropV) -> bool {
    a.st == b.st && a.sl == b.sl && a.txs == b.txs
}

/// The first `n` buffered orphans that reference proposal `p`, in order.
pub open spec fn spec_moved_orphans(os: Seq<VoteV>, p: PropV, n: int) -> Seq<VoteV>
    decreases n,
{
    if n <= 0 {
        Seq::empty()
    } else {
        spec_moved_orphans(os, p, n - 1) + if prop_match(os[n - 1].block, p) {
            seq![os[n - 1]]
        } else {
            Seq::empty()
        }
    }
}

/// The first `n` buffered orphans that do not reference `p`, in order.
pub open spec fn spec_kept_orphans(os: Seq<VoteV>, p: PropV, n: int) -> Seq<VoteV>
    decreases n,
{
    if n <= 0 {
        Seq::empty()
    } else {
        spec_kept_orphans(os, p, n - 1) + if !prop_match(os[n - 1].block, p) {
            seq![os[n - 1]]
        } else {
            Seq::empty()
        }
    }
}

/// The candidate block a node materializes from proposal `p`: the
/// proposal's identity triple, the active participant snapshot, and every
/// matching orphan vote already attached.
pub open spec fn spec_candidate(s1: StateV, p: PropV) -> BlockV {
    BlockV {
        st: p.st,
        sl: p.sl,
        txs: p.txs,
        proof_data: Seq::empty(),
        sig_r: Seq::empty(),
        sig_s: Seq::empty(),
        participants: s1.participants,
        votes: spec_moved_orphans(s1.orphans, p, s1.orphans.len() as int),
        notarized: false,
        finalized: false,
    }
}

/// The voting transition: admit pending participants if none are active,
/// drain matching orphans into the candidate, place the candidate on the
/// fork it extends (or open a new fork off the canonical tail), and emit
/// a vote exactly when the extended fork's ancestry is fully notarized.
pub open spec fn spec_vote_block(s: StateV, p: PropV, leader: bool) -> (StateV, Option<VoteV>) {
    let s1 = spec_zero_check(s);
    let cand = spec_candidate(s1, p);
    let s2 = StateV {
        orphans: spec_kept_orphans(s1.orphans, p, s1.orphans.len() as int),
        ..s1
    };
    let idx = spec_find_ext(s2.forks, s2.canonical, p.st, p.sl, leader);
    if idx == -2 {
        (s2, None)
    } else {
        let forks2 = if idx == -1 {
            s2.forks.push(seq![cand])
        } else {
            s2.forks.update(idx, s2.forks[idx].push(cand))
        };
        let fi = if idx == -1 {
            forks2.len() - 1
        } else {
            idx
        };
        let s3 = StateV { forks: forks2, ..s2 };
        let vote = if notarized_except_last(forks2[fi as int]) {
            Some(VoteV {
                node_public_key: s.public_key,
                vote: spec_sign(s.secret_key, enc_proposal(p)),
                block: p,
                id: s.id,
            })
        } else {
            None
        };
        (s3, vote)
    }
}

/// Highest index below `n` in chain `c` matching proposal `p`.
pub open spec fn spec_rfind_in_chain(c: Seq<BlockV>, p: PropV, n: int) -> Option<int>
    decreases n,
{
    if n <= 0 {
        None
    } else if blocks_match(p, c[n - 1]) {
        Some(n - 1)
    } else {
        spec_rfind_in_chain(c, p, n - 1)
    }
}

/// First of the first `n` forks holding a block matching `p`, with the
/// matching block's position.
pub open spec fn spec_find_block_n(forks: Seq<Seq<BlockV>>, p: PropV, n: int) -> Option<(int, int)>
    decreases n,
{
    if n <= 0 {
        None
    } else {
        match spec_find_block_n(forks, p, n - 1) {
            Some(r) => Some(r),
            None => match spec_rfind_in_chain(forks[n - 1], p, forks[n - 1].len() as int) {
                Some(j) => Some((n - 1, j)),
                None => None,
            },
        }
    }
}

/// Where a proposal's block lives: a fork index and block position, with
/// `-1` standing for the canonical chain; `None` when unknown.
pub open spec fn spec_find_block(
    forks: Seq<Seq<BlockV>>,
    canonical: Seq<BlockV>,
    p: PropV,
) -> Option<(int, int)> {
    match spec_find_block_n(forks, p, forks.len() as int) {
        Some(r) => Some(r),
        None => match spec_rfind_in_chain(canonical, p, canonical.len() as int) {
            Some(j) => Some((-1int, j)),
            None => None,
        },
    }
}

/// A found block location propagates through the rest of the fork scan.
pub proof fn lemma_find_block_propagate(forks: Seq<Seq<BlockV>>, p: PropV, n: int, m: int)
    requires
        0 <= n <= m,
        spec_find_block_n(forks, p, n) is Some,
    ensures
        spec_find_block_n(forks, p, m) == spec_find_block_n(forks, p, n),
    decreases m - n,
{
    if m > n {
        lemma_find_block_propagate(forks, p, n, m - 1);
    }
}

/// The chain a location refers to: the canonical chain for `-1`, else the
/// fork at that index.
pub open spec fn chain_at(s: StateV, ci: int) -> Seq<BlockV> {
    if ci == -1 {
        s.canonical
    } else {
        s.forks[ci]
    }
}

/// The state with the block at location `(ci, bi)` replaced by `b`.
pub open spec fn spec_set_block(s: StateV, ci: int, bi: int, b: BlockV) -> StateV {
    if ci == -1 {
        StateV { canonical: s.canonical.update(bi, b), ..s }
    } else {
        StateV { forks: s.forks.update(ci, s.forks[ci].update(bi, b)), ..s }
    }
}

/// The participant set with the voter's `voted` field set to `slot`.
pub open spec fn spec_update_voted(ps: Seq<Participant>, id: u64, slot: u64) -> Seq<Participant> {
    ps.map(
        |i: int, q: Participant|
            if q.id == id {
                Participant { voted: Some(slot), ..q }
            } else {
                q
            },
    )
}

/// Whether a participant with identifier `id` is active.
pub open spec fn has_participant(ps: Seq<Participant>, id: u64) -> bool {
    exists|j: int| 0 <= j < ps.len() && ps[j].id == id
}

/// The quorum threshold for `n` active participants: a block notarizes
/// when its distinct votes exceed `2n/3` rounded down.
pub open spec fn spec_quorum_threshold(n: int) -> int {
    2 * n / 3
}

/// Length of the run of consecutive notarized blocks from the head of
/// chain `f`, scanning its first `n` blocks.
pub open spec fn lead_run(f: Seq<BlockV>, n: int) -> int
    decreases n,
{
    if n <= 0 {
        0
    } else {
        let p = lead_run(f, n - 1);
        if p == n - 1 && f[n - 1].notarized {
            n
        } else {
            p
        }
    }
}

/// `lead_run` is pinned by its first non-notarized position.
pub proof fn lemma_lead_run_char(f: Seq<BlockV>, n: int, r: int)
    requires
        0 <= r <= n,
        forall|j: int| 0 <= j < r ==> f[j].notarized,
        r < n ==> !f[r].notarized,
    ensures
        lead_run(f, n) == r,
    decreases n,
{
    if n > 0 {
        if r == n {
            lemma_lead_run_char(f, n - 1, n - 1);
        } else {
            lemma_lead_run_char(f, n - 1, r);
        }
    }
}

/// Everything inside the lead run is notarized, and the run is bounded.
pub proof fn lemma_lead_run_bounds(f: Seq<BlockV>, n: int)
    requires
        0 <= n,
    ensures
        0 <= lead_run(f, n) <= n,
        forall|j: int| 0 <= j < lead_run(f, n) ==> f[j].notarized,
    decreases n,
{
    if n > 0 {
        lemma_lead_run_bounds(f, n - 1);
    }
}

/// The first `k` blocks of `f`, each with its `finalized` mark set.
pub open spec fn spec_mark_finalized(f: Seq<BlockV>, k: int) -> Seq<BlockV> {
    f.take(k).map(|i: int, b: BlockV| BlockV { finalized: true, ..b })
}

/// Whether transaction `t` appears in any of the blocks `bs`.
pub open spec fn tx_in_blocks(bs: Seq<BlockV>, t: Seq<u8>) -> bool {
    exists|i: int| 0 <= i < bs.len() && tx_in(bs[i].txs, t)
}

/// The first `n` pool entries not contained in any finalized block.
pub open spec fn spec_keep_pool(pool: Seq<Seq<u8>>, fin: Seq<BlockV>, n: int) -> Seq<Seq<u8>>
    decreases n,
{
    if n <= 0 {
        Seq::empty()
    } else {
        spec_keep_pool(pool, fin, n - 1) + if !tx_in_blocks(fin, pool[n - 1]) {
            seq![pool[n - 1]]
        } else {
            Seq::empty()
        }
    }
}

/// Whether fork `g` chains from the canonical tail: its first block names
/// the tail's hash as parent and sits at a strictly later slot.
pub open spec fn fork_survives(g: Seq<BlockV>, th: u64, tail_sl: u64) -> bool
    recommends
        g.len() >= 1,
{
    g[0].st == th && g[0].sl > tail_sl
}

/// The first `n` forks that chain from the canonical tail, in order.
pub open spec fn spec_keep_forks(
    forks: Seq<Seq<BlockV>>,
    th: u64,
    tail_sl: u64,
    n: int,
) -> Seq<Seq<BlockV>>
    decreases n,
{
    if n <= 0 {
        Seq::empty()
    } else {
        spec_keep_forks(forks, th, tail_sl, n - 1) + if fork_survives(forks[n - 1], th, tail_sl) {
            seq![forks[n - 1]]
        } else {
            Seq::empty()
        }
    }
}

/// The first `n` orphan votes still above the finalized height.
pub open spec fn spec_keep_orphans(os: Seq<VoteV>, tail_sl: u64, n: int) -> Seq<VoteV>
    decreases n,
{
    if n <= 0 {
        Seq::empty()
    } else {
        spec_keep_orphans(os, tail_sl, n - 1) + if os[n - 1].block.sl > tail_sl {
            seq![os[n - 1]]
        } else {
            Seq::empty()
        }
    }
}

/// The finalization transition on fork `ci`: when at least three
/// consecutive notarized blocks stand at its head, all but the last of
/// them are marked finalized and committed to the canonical chain, their
/// transactions leave the pool, the fork keeps only the remainder, forks
/// not chaining from the new canonical tail are dropped, and orphan votes
/// at or below the tail's slot are purged.  Otherwise nothing changes.
pub open spec fn spec_finalize(s: StateV, ci: int) -> StateV
    recommends
        0 <= ci < s.forks.len(),
{
    let f = s.forks[ci];
    let run = lead_run(f, f.len() as int);
    if f.len() > 2 && run > 2 {
        let fin = spec_mark_finalized(f, run - 1);
        let canon1 = s.canonical + fin;
        let tail = canon1.last();
        let th = spec_block_hash(tail);
        let pool1 = spec_keep_pool(s.pool, fin, s.pool.len() as int);
        let forks1 = s.forks.update(ci, f.skip(run - 1));
        let forks2 = spec_keep_forks(forks1, th, tail.sl, forks1.len() as int);
        let orphans1 = spec_keep_orphans(s.orphans, tail.sl, s.orphans.len() as int);
        StateV { canonical: canon1, forks: forks2, pool: pool1, orphans: orphans1, ..s }
    } else {
        s
    }
}

/// The vote-receipt transition: admit pending participants if none are
/// active, locate the referenced block (buffering the vote as an orphan
/// when it is unknown), reject duplicates and unknown voters, record the
/// vote and the voter's activity, notarize on quorum and then finalize
/// the owning fork.  The flag reports whether any state changed.
pub open spec fn spec_receive_vote(s: StateV, v: VoteV) -> (StateV, bool) {
    let s1 = spec_zero_check(s);
    let n = s1.participants.len() as int;
    match spec_find_block(s1.forks, s1.canonical, v.block) {
        None => if vote_in(s1.orphans, v) {
            (s1, false)
        } else {
            (StateV { orphans: s1.orphans.push(v), ..s1 }, false)
        },
        Some((ci, bi)) => {
            let b = chain_at(s1, ci)[bi];
            if vote_in(b.votes, v) {
                (s1, false)
            } else if !has_participant(s1.participants, v.id) {
                (s1, false)
            } else {
                let quorum = !b.notarized && (b.votes.len() + 1) as int > spec_quorum_threshold(n);
                let b1 = BlockV {
                    votes: b.votes.push(v),
                    notarized: b.notarized || quorum,
                    ..b
                };
                let s2 = spec_set_block(s1, ci, bi, b1);
                let s3 = StateV {
                    participants: spec_update_voted(s2.participants, v.id, v.block.sl),
                    ..s2
                };
                if quorum {
                    (spec_finalize(s3, ci), true)
                } else {
                    (s3, true)
                }
            }
        },
    }
}

/// Whether a participant is still active at the epoch before `prev`:
/// they voted at or after it, or joined at or after it without voting.
pub open spec fn is_active(p: Participant, prev: u64) -> bool {
    match p.voted {
        Some(e) => e >= prev,
        None => p.joined >= prev,
    }
}

/// The first `n` participants still active relative to epoch `prev`.
pub open spec fn spec_keep_active(ps: Seq<Participant>, prev: u64, n: int) -> Seq<Participant>
    decreases n,
{
    if n <= 0 {
        Seq::empty()
    } else {
        spec_keep_active(ps, prev, n - 1) + if is_active(ps[n - 1], prev) {
            seq![ps[n - 1]]
        } else {
            Seq::empty()
        }
    }
}

/// Filtering for activity preserves the identifier order.
pub proof fn lemma_keep_active_sorted(ps: Seq<Participant>, prev: u64, n: int)
    requires
        sorted_by_id(ps),
        0 <= n <= ps.len(),
    ensures
        sorted_by_id(spec_keep_active(ps, prev, n)),
        forall|j: int|
            n <= j < ps.len() && spec_keep_active(ps, prev, n).len() > 0 ==> spec_keep_active(
                ps,
                prev,
                n,
            ).last().id < ps[j].id,
    decreases n,
{
    if n > 0 {
        lemma_keep_active_sorted(ps, prev, n - 1);
        let prior = spec_keep_active(ps, prev, n - 1);
        let cur = spec_keep_active(ps, prev, n);
        if is_active(ps[n - 1], prev) {
            assert(cur =~= prior.push(ps[n - 1]));
            assert forall|a: int, b: int| 0 <= a < b < cur.len() implies cur[a].id < cur[b].id by {
                if b == cur.len() - 1 {
                    if prior.len() > 0 {
                        assert(prior[a].id <= prior.last().id || a == prior.len() - 1);
                        if a < prior.len() - 1 {
                            assert(prior[a].id < prior[prior.len() - 1].id);
                        }
                        assert(prior.last().id < ps[n - 1].id);
                    }
                }
            }
        } else {
            assert(cur =~= prior);
        }
    }
}

/// The epoch-boundary refresh: every pending participant is admitted,
/// then participants inactive since before the previous epoch are
/// evicted.  At epoch zero the previous epoch clamps to zero.
pub open spec fn spec_refresh(s: StateV, now: i64) -> StateV {
    let parts1 = spec_admit(s.participants, s.pending, s.pending.len() as int);
    let e = spec_epoch(s.genesis_time, now);
    let prev = if e >= 1 {
        (e - 1) as u64
    } else {
        0
    };
    StateV {
        participants: spec_keep_active(parts1, prev, parts1.len() as int),
        pending: Seq::empty(),
        ..s
    }
}

impl State {
    /// A fresh node state: the given genesis block forms the canonical
    /// chain and a random secret key is drawn for the node.
    pub fn new(id: u64, genesis_time: Timestamp, init_block: Block) -> (r: State)
        ensures
            r@.id == id,
            r@.genesis_time == genesis_time.0,
            r@.public_key == spec_pk_of(r@.secret_key),
            r@.canonical == seq![init_block@],
            r@.forks.len() == 0,
            r@.pool.len() == 0,
            r@.orphans.len() == 0,
            r@.participants.len() == 0,
            r@.pending.len() == 0,
            init_block@.notarized ==> wf(r@),
    {
        let secret = SecretKey::random();
        let r = State {
            id,
            genesis_time,
            secret_key: secret,
            public_key: PublicKey::from_secret(secret),
            canonical_blockchain: Blockchain::new(init_block),
            node_blockchains: Vec::new(),
            unconfirmed_txs: Vec::new(),
            orphan_votes: Vec::new(),
            participants: Vec::new(),
            pending_participants: Vec::new(),
        };
        proof {
            assert(chains_view(r.node_blockchains@) =~= Seq::<Seq<BlockV>>::empty());
            assert(txs_view(r.unconfirmed_txs@) =~= Seq::<Seq<u8>>::empty());
            assert(votes_view(r.orphan_votes@) =~= Seq::<VoteV>::empty());
        }
        r
    }

    /// Appends a transaction to the unconfirmed pool unless an equal one
    /// is already there; reports whether the pool changed.
    pub fn append_tx(&mut self, tx: Tx) -> (r: bool)
        ensures
            tx_in(old(self)@.pool, tx@) ==> (!r && final(self)@ == old(self)@),
            !tx_in(old(self)@.pool, tx@) ==> (r && final(self)@ == (StateV {
                pool: old(self)@.pool.push(tx@),
                ..old(self)@
            })),
    {
        if contains_tx(&self.unconfirmed_txs, &tx) {
            proof {
                assert(self@ =~~= old(self)@);
            }
            return false;
        }
        let ghost t = tx@;
        self.unconfirmed_txs.push(tx);
        proof {
            assert(txs_view(self.unconfirmed_txs@) =~= old(self)@.pool.push(t));
            assert(self@ =~~= (StateV { pool: old(self)@.pool.push(t), ..old(self)@ }));
        }
        true
    }

    /// Appends a participant to the pending queue unless an equal one is
    /// already queued; reports whether the queue changed.
    pub fn append_participant(&mut self, participant: Participant) -> (r: bool)
        ensures
            old(self)@.pending.contains(participant) ==> (!r && final(self)@ == old(self)@),
            !old(self)@.pending.contains(participant) ==> (r && final(self)@ == (StateV {
                pending: old(self)@.pending.push(participant),
                ..old(self)@
            })),
    {
        let mut i: usize = 0;
        while i < self.pending_participants.len()
            invariant
                i <= self.pending_participants@.len(),
                forall|j: int| 0 <= j < i ==> self.pending_participants@[j] != participant,
                self@ == old(self)@,
            decreases self.pending_participants@.len() - i,
        {
            if self.pending_participants[i].same_as(&participant) {
                proof {
                    assert(old(self)@.pending[i as int] == participant);
                    assert(self@ =~~= old(self)@);
                }
                return false;
            }
            i = i + 1;
        }
        self.pending_participants.push(participant);
        proof {
            assert(!old(self)@.pending.contains(participant));
            assert(self@ =~~= (StateV {
                pending: old(self)@.pending.push(participant),
                ..old(self)@
            }));
        }
        true
    }

    /// The bootstrap admission: if no participant is active yet, every
    /// pending participant becomes active and the queue empties.
    pub fn zero_participants_check(&mut self)
        requires
            sorted_by_id(old(self)@.participants),
        ensures
            final(self)@ == spec_zero_check(old(self)@),
            sorted_by_id(final(self)@.participants),
            old(self)@.participants.len() + old(self)@.pending.len() > 0
                ==> final(self)@.participants.len() > 0,
    {
        proof {
            lemma_admit_sorted(
                self@.participants,
                self@.pending,
                self@.pending.len() as int,
            );
            lemma_admit_len(self@.participants, self@.pending, self@.pending.len() as int);
        }
        if self.participants.len() == 0 {
            admit_participants(&mut self.participants, &self.pending_participants);
            self.pending_participants = Vec::new();
            proof {
                assert(self@ =~~= spec_zero_check(old(self)@));
            }
        } else {
            proof {
                assert(self@ =~~= spec_zero_check(old(self)@));
            }
        }
    }

    /// The current epoch number at time `now`.
    pub fn current_epoch_at(&self, now: i64) -> (r: u64)
        ensures
            r == spec_epoch(self@.genesis_time, now),
    {
        current_epoch_at(self.genesis_time, now)
    }

    /// The current epoch number, read from the wall clock.
    pub fn get_current_epoch(&self) -> (r: u64)
        ensures
            exists|now: i64| r == spec_epoch(self@.genesis_time, now),
    {
        let now = unix_now();
        let r = self.current_epoch_at(now);
        proof {
            assert(r == spec_epoch(self@.genesis_time, now));
        }
        r
    }

    /// Seconds until the next epoch boundary at time `now`.
    pub fn seconds_until_next_epoch_at(&self, now: i64) -> (r: u64)
        ensures
            r == spec_secs_until_next_epoch(self@.genesis_time, now),
    {
        secs_until_next_epoch_at(self.genesis_time, now)
    }

    /// Seconds until the next epoch boundary, read from the wall clock.
    pub fn get_seconds_until_next_epoch_start(&self) -> (r: u64)
        ensures
            exists|now: i64| r == spec_secs_until_next_epoch(self@.genesis_time, now),
    {
        let now = unix_now();
        let r = self.seconds_until_next_epoch_at(now);
        proof {
            assert(r == spec_secs_until_next_epoch(self@.genesis_time, now));
        }
        r
    }

    /// The elected leader for the epoch at time `now`: admits pending
    /// participants if none are active, then picks by hashed epoch.
    pub fn get_epoch_leader_at(&mut self, now: i64) -> (r: u64)
        requires
            sorted_by_id(old(self)@.participants),
            old(self)@.participants.len() + old(self)@.pending.len() > 0,
        ensures
            final(self)@ == spec_zero_check(old(self)@),
            sorted_by_id(final(self)@.participants),
            final(self)@.participants.len() > 0,
            r == spec_epoch_leader(
                spec_epoch(old(self)@.genesis_time, now),
                final(self)@.participants,
            ),
    {
        self.zero_participants_check();
        let epoch = current_epoch_at(self.genesis_time, now);
        let h = crate::hashing::hash_u64(epoch);
        let n = self.participants.len() as u64;
        let pos = (h % n) as usize;
        self.participants[pos].id
    }

    /// The elected leader for the current epoch, read from the wall clock.
    pub fn get_epoch_leader(&mut self) -> (r: u64)
        requires
            sorted_by_id(old(self)@.participants),
            old(self)@.participants.len() + old(self)@.pending.len() > 0,
        ensures
            final(self)@ == spec_zero_check(old(self)@),
            sorted_by_id(final(self)@.participants),
            exists|now: i64| r == spec_epoch_leader(
                spec_epoch(old(self)@.genesis_time, now),
                final(self)@.participants,
            ),
    {
        let now = unix_now();
        let r = self.get_epoch_leader_at(now);
        proof {
            assert(r == spec_epoch_leader(
                spec_epoch(old(self)@.genesis_time, now),
                self@.participants,
            ));
        }
        r
    }

    /// Whether this node is the elected leader for the epoch at `now`.
    pub fn check_if_epoch_leader_at(&mut self, now: i64) -> (r: bool)
        requires
            sorted_by_id(old(self)@.participants),
            old(self)@.participants.len() + old(self)@.pending.len() > 0,
        ensures
            final(self)@ == spec_zero_check(old(self)@),
            sorted_by_id(final(self)@.participants),
            r == (old(self)@.id == spec_epoch_leader(
                spec_epoch(old(self)@.genesis_time, now),
                final(self)@.participants,
            )),
    {
        let leader = self.get_epoch_leader_at(now);
        self.id == leader
    }

    /// Whether this node is the current leader, read from the wall clock.
    pub fn check_if_epoch_leader(&mut self) -> (r: bool)
        requires
            sorted_by_id(old(self)@.participants),
            old(self)@.participants.len() + old(self)@.pending.len() > 0,
        ensures
            final(self)@ == spec_zero_check(old(self)@),
            sorted_by_id(final(self)@.participants),
            exists|now: i64| r == (old(self)@.id == spec_epoch_leader(
                spec_epoch(old(self)@.genesis_time, now),
                final(self)@.participants,
            )),
    {
        let now = unix_now();
        let r = self.check_if_epoch_leader_at(now);
        proof {
            assert(r == (old(self)@.id == spec_epoch_leader(
                spec_epoch(old(self)@.genesis_time, now),
                self@.participants,
            )));
        }
        r
    }

    /// The longest fully notarized chain this node holds; the canonical
    /// chain when no tracked fork qualifies.
    pub fn find_longest_notarized_chain(&self) -> (r: &Blockchain)
        ensures
            r@ == spec_longest_chain(self@),
    {
        let ghost forks = self@.forks;
        let mut best: Option<usize> = None;
        let mut length: usize = 0;
        let mut i: usize = 0;
        while i < self.node_blockchains.len()
            invariant
                i <= self.node_blockchains@.len(),
                forks == self@.forks,
                match best {
                    None => spec_lnc(forks, i as int) == (-1int, length as int) && length == 0,
                    Some(b) => spec_lnc(forks, i as int) == (b as int, length as int) && b < i,
                },
            decreases self.node_blockchains@.len() - i,
        {
            if self.node_blockchains[i].is_notarized() && self.node_blockchains[i].blocks.len()
                > length {
                length = self.node_blockchains[i].blocks.len();
                best = Some(i);
            }
            i = i + 1;
        }
        match best {
            None => &self.canonical_blockchain,
            Some(b) => &self.node_blockchains[b],
        }
    }

    /// Whether transaction `t` already sits in a block of a tracked fork.
    fn tx_in_forks_exec(&self, t: &Tx) -> (r: bool)
        ensures
            r == tx_in_forks(self@.forks, t@),
    {
        let mut i: usize = 0;
        while i < self.node_blockchains.len()
            invariant
                i <= self.node_blockchains@.len(),
                forall|a: int, b: int|
                    0 <= a < i && 0 <= b < self@.forks[a].len() ==> !tx_in(
                        self@.forks[a][b].txs,
                        t@,
                    ),
            decreases self.node_blockchains@.len() - i,
        {
            let chain = &self.node_blockchains[i];
            let mut j: usize = 0;
            while j < chain.blocks.len()
                invariant
                    j <= chain.blocks@.len(),
                    chain@ == self@.forks[i as int],
                    i < self.node_blockchains@.len(),
                    forall|b: int| 0 <= b < j ==> !tx_in(self@.forks[i as int][b].txs, t@),
                decreases chain.blocks@.len() - j,
            {
                if contains_tx(&chain.blocks[j].txs, t) {
                    proof {
                        assert(tx_in(self@.forks[i as int][j as int].txs, t@));
                    }
                    return true;
                }
                j = j + 1;
            }
            i = i + 1;
        }
        false
    }

    /// Every unconfirmed transaction not yet proposed in a block of a
    /// tracked fork, in pool order.
    pub fn get_unproposed_txs(&self) -> (r: Vec<Tx>)
        ensures
            txs_view(r@) == spec_unproposed(self@),
    {
        let mut out: Vec<Tx> = Vec::new();
        let mut i: usize = 0;
        while i < self.unconfirmed_txs.len()
            invariant
                i <= self.unconfirmed_txs@.len(),
                txs_view(out@) == spec_unproposed_n(self@.pool, self@.forks, i as int),
            decreases self.unconfirmed_txs@.len() - i,
        {
            let tx = &self.unconfirmed_txs[i];
            proof {
                assert(self@.pool[i as int] == self.unconfirmed_txs@[i as int]@);
            }
            if !self.tx_in_forks_exec(tx) {
                out.push(Tx { payload: crate::tx::clone_bytes(&tx.payload) });
                proof {
                    assert(txs_view(out@) =~= spec_unproposed_n(
                        self@.pool,
                        self@.forks,
                        i as int,
                    ) + seq![self@.pool[i as int]]);
                }
            } else {
                proof {
                    assert(txs_view(out@) =~= spec_unproposed_n(
                        self@.pool,
                        self@.forks,
                        i as int,
                    ) + Seq::<Seq<u8>>::empty());
                }
            }
            i = i + 1;
        }
        out
    }

    /// Builds this node's proposal for the epoch at time `now`: it
    /// extends the longest notarized chain and carries all unproposed
    /// transactions, signed with the node's secret key.
    pub fn propose_block_at(&self, now: i64) -> (r: Result<Option<BlockProposal>, ConsensusError>)
        requires
            wf(self@),
        ensures
            match r {
                Ok(Some(p)) => p@ == spec_propose(self@, spec_epoch(self@.genesis_time, now)),
                _ => false,
            },
    {
        let epoch = current_epoch_at(self.genesis_time, now);
        let longest = self.find_longest_notarized_chain();
        proof {
            if spec_lnc(self@.forks, self@.forks.len() as int).0 != -1 {
                assert(0 <= spec_lnc(self@.forks, self@.forks.len() as int).0
                    < self@.forks.len()) by {
                    lemma_lnc_bounds(self@.forks, self@.forks.len() as int);
                }
            }
            assert(longest@.len() >= 1);
        }
        let tail = &longest.blocks[longest.blocks.len() - 1];
        proof {
            assert(tail@ == longest@.last());
        }
        let hash = tail.hash_value();
        let unproposed_txs = self.get_unproposed_txs();
        let mut encoded_block: Vec<u8> = Vec::new();
        encode_header(hash, epoch, &unproposed_txs, &mut encoded_block);
        let signed_block = self.secret_key.sign(&encoded_block);
        let r = BlockProposal::new(
            self.public_key,
            signed_block,
            self.id,
            hash,
            epoch,
            unproposed_txs,
        );
        proof {
            assert(r@ =~~= spec_propose(self@, spec_epoch(self@.genesis_time, now)));
        }
        Ok(Some(r))
    }

    /// Builds this node's proposal for the current epoch, read from the
    /// wall clock.
    pub fn propose_block(&self) -> (r: Result<Option<BlockProposal>, ConsensusError>)
        requires
            wf(self@),
        ensures
            match r {
                Ok(Some(p)) => exists|now: i64|
                    p@ == spec_propose(self@, spec_epoch(self@.genesis_time, now)),
                _ => false,
            },
    {
        let now = unix_now();
        let r = self.propose_block_at(now);
        proof {
            match r {
                Ok(Some(ref p)) => {
                    assert(p@ == spec_propose(self@, spec_epoch(self@.genesis_time, now)));
                },
                _ => {},
            }
        }
        r
    }

    /// Whether `blockchain` is notarized excluding its last block: the
    /// ancestry a node must have seen notarized before voting.
    pub fn extends_notarized_blockchain(&self, blockchain: &Blockchain) -> (r: bool)
        requires
            blockchain@.len() >= 1,
        ensures
            r == notarized_except_last(blockchain@),
    {
        let mut i: usize = 0;
        while i < blockchain.blocks.len() - 1
            invariant
                blockchain@.len() >= 1,
                i <= blockchain.blocks@.len() - 1,
                forall|j: int| 0 <= j < i ==> blockchain@[j].notarized,
            decreases blockchain.blocks@.len() - 1 - i,
        {
            if !blockchain.blocks[i].metadata.sm.notarized {
                proof {
                    assert(!blockchain@[i as int].notarized);
                }
                return false;
            }
            i = i + 1;
        }
        true
    }

    /// The index of the chain that `block` extends: a tracked fork's
    /// index, `-1` for the canonical chain, `-2` for none.
    pub fn find_extended_blockchain_index(&self, block: &Block, leader: bool) -> (r: i64)
        requires
            wf(self@),
            self@.forks.len() <= i64::MAX,
        ensures
            r as int == spec_find_ext(self@.forks, self@.canonical, block@.st, block@.sl, leader),
    {
        let ghost st = block@.st;
        let ghost sl = block@.sl;
        let mut i: usize = 0;
        while i < self.node_blockchains.len()
            invariant
                i <= self.node_blockchains@.len(),
                self.node_blockchains@.len() <= i64::MAX,
                wf(self@),
                st == block@.st,
                sl == block@.sl,
                spec_find_ext_n(self@.forks, st, sl, leader, i as int) == -3,
            decreases self.node_blockchains@.len() - i,
        {
            let chain = &self.node_blockchains[i];
            proof {
                assert(chain@ == self@.forks[i as int]);
                assert(chain@.len() >= 1);
            }
            let last_block = &chain.blocks[chain.blocks.len() - 1];
            proof {
                assert(last_block@ == self@.forks[i as int].last());
            }
            let h = last_block.hash_value();
            if (leader && block.st == h && block.sl >= last_block.sl) || (!leader && block.st == h
                && block.sl > last_block.sl) {
                proof {
                    assert(fork_tip_match(self@.forks[i as int], st, sl, leader));
                    lemma_find_ext_propagate(
                        self@.forks,
                        st,
                        sl,
                        leader,
                        i as int + 1,
                        self@.forks.len() as int,
                    );
                }
                return i as i64;
            }
            proof {
                assert(!fork_tip_match(self@.forks[i as int], st, sl, leader));
            }
            i = i + 1;
        }
        let last_block = &self.canonical_blockchain.blocks[self.canonical_blockchain.blocks.len()
            - 1];
        proof {
            assert(last_block@ == self@.canonical.last());
        }
        let h = last_block.hash_value();
        if (leader && (block.st != h || block.sl < last_block.sl)) || (!leader && (block.st != h
            || block.sl <= last_block.sl)) {
            proof {
                assert(!fork_tip_match(self@.canonical, st, sl, leader));
            }
            return -2;
        }
        proof {
            assert(fork_tip_match(self@.canonical, st, sl, leader));
        }
        -1
    }

    /// Materializes the candidate block from `proposal`, drains matching
    /// orphan votes into it, places it on the chain it extends — a
    /// tracked fork, or a new fork off the canonical tail — and votes on
    /// it exactly when its ancestry is fully notarized.  When it extends
    /// no known chain, no fork is created and no vote is produced.
    pub fn vote_block(&mut self, proposal: &BlockProposal, leader: bool) -> (r: Result<
        Option<Vote>,
        ConsensusError,
    >)
        requires
            wf(old(self)@),
            old(self)@.forks.len() < i64::MAX,
        ensures
            wf(final(self)@),
            match r {
                Ok(Some(v)) => (final(self)@, Some(v@)) == spec_vote_block(
                    old(self)@,
                    proposal@,
                    leader,
                ),
                Ok(None) => (final(self)@, None::<VoteV>) == spec_vote_block(
                    old(self)@,
                    proposal@,
                    leader,
                ),
                Err(_) => false,
            },
    {
        let ghost p = proposal@;
        self.zero_participants_check();
        let ghost s1 = self@;
        proof {
            assert(s1 == spec_zero_check(old(self)@));
        }
        let mut cand = Block::new(
            proposal.st,
            proposal.sl,
            clone_txs(&proposal.txs),
            Vec::new(),
            Vec::new(),
            Vec::new(),
            clone_participants(&self.participants),
        );
        proof {
            assert(cand@ =~~= (BlockV {
                votes: Seq::<VoteV>::empty(),
                ..spec_candidate(s1, p)
            }));
        }
        // Drain orphan votes that reference this candidate.
        let mut kept: Vec<Vote> = Vec::new();
        let mut i: usize = 0;
        while i < self.orphan_votes.len()
            invariant
                i <= self.orphan_votes@.len(),
                self@ == s1,
                p == proposal@,
                cand@ == (BlockV {
                    votes: spec_moved_orphans(s1.orphans, p, i as int),
                    ..spec_candidate(s1, p)
                }),
                votes_view(kept@) == spec_kept_orphans(s1.orphans, p, i as int),
            decreases self.orphan_votes@.len() - i,
        {
            let v = &self.orphan_votes[i];
            proof {
                assert(v@ == s1.orphans[i as int]);
            }
            if proposal_eq_block(&v.block, &cand) {
                cand.metadata.sm.votes.push(v.deep_clone());
                proof {
                    assert(prop_match(s1.orphans[i as int].block, p));
                    assert(votes_view(cand.metadata.sm.votes@) =~= spec_moved_orphans(
                        s1.orphans,
                        p,
                        i as int,
                    ).push(s1.orphans[i as int]));
                    assert(spec_moved_orphans(s1.orphans, p, i as int + 1) =~= spec_moved_orphans(
                        s1.orphans,
                        p,
                        i as int,
                    ).push(s1.orphans[i as int]));
                    assert(cand@ =~~= (BlockV {
                        votes: spec_moved_orphans(s1.orphans, p, i as int + 1),
                        ..spec_candidate(s1, p)
                    }));
                }
            } else {
                kept.push(v.deep_clone());
                proof {
                    assert(!prop_match(s1.orphans[i as int].block, p));
                    assert(votes_view(kept@) =~= spec_kept_orphans(s1.orphans, p, i as int).push(
                        s1.orphans[i as int],
                    ));
                    assert(spec_kept_orphans(s1.orphans, p, i as int + 1) =~= spec_kept_orphans(
                        s1.orphans,
                        p,
                        i as int,
                    ).push(s1.orphans[i as int]));
                }
            }
            i = i + 1;
        }
        self.orphan_votes = kept;
        proof {
            assert(cand@ == spec_candidate(s1, p));
            assert(self@ =~~= (StateV {
                orphans: spec_kept_orphans(s1.orphans, p, s1.orphans.len() as int),
                ..s1
            }));
        }
        let ghost s2 = self@;
        let index = self.find_extended_blockchain_index(&cand, leader);
        proof {
            assert(index as int == spec_find_ext(s2.forks, s2.canonical, p.st, p.sl, leader));
        }
        if index == -2 {
            proof {
                assert((self@, None::<VoteV>) == spec_vote_block(old(self)@, p, leader));
            }
            return Ok(None);
        }
        let fi: usize;
        if index == -1 {
            self.node_blockchains.push(Blockchain::new(cand));
            fi = self.node_blockchains.len() - 1;
            proof {
                assert(self@.forks =~= s2.forks.push(seq![spec_candidate(s1, p)]));
            }
        } else {
            proof {
                lemma_find_ext_bounds(s2.forks, p.st, p.sl, leader, s2.forks.len() as int);
                assert(0 <= index as int && (index as int) < s2.forks.len());
            }
            fi = index as usize;
            let nlen = self.node_blockchains.len();
            proof {
                assert(s2.forks.len() == nlen as int);
                assert(fi as int == index as int);
            }
            let ghost ol = self.node_blockchains@;
            let mut chain = self.node_blockchains.remove(fi);
            proof {
                assert(chain@ == s2.forks[fi as int]);
            }
            chain.add_block(&cand);
            let ghost chv = chain@;
            self.node_blockchains.insert(fi, chain);
            proof {
                assert(chv == s2.forks[fi as int].push(spec_candidate(s1, p)));
                assert(s2.forks == chains_view(ol));
                assert(self.node_blockchains@ =~= ol.update(fi as int, self.node_blockchains@[fi as int]));
                assert(self.node_blockchains@[fi as int]@ == chv);
                assert forall|j: int|
                    0 <= j < self.node_blockchains@.len() implies chains_view(
                    self.node_blockchains@,
                )[j] == s2.forks.update(index as int, s2.forks[index as int].push(
                    spec_candidate(s1, p),
                ))[j] by {
                    assert(chains_view(self.node_blockchains@)[j] == self.node_blockchains@[j]@);
                    if j != fi as int {
                        assert(self.node_blockchains@[j] == ol[j]);
                        assert(chains_view(ol)[j] == ol[j]@);
                    } else {
                        assert(self.node_blockchains@[j]@ == chv);
                    }
                }
                assert(self@.forks =~= s2.forks.update(
                    index as int,
                    s2.forks[index as int].push(spec_candidate(s1, p)),
                ));
            }
        }
        proof {
            assert(self@ =~~= (StateV {
                forks: spec_vote_block(old(self)@, p, leader).0.forks,
                ..s2
            }));
            assert(self@ == spec_vote_block(old(self)@, p, leader).0);
            assert(self@.forks[fi as int].len() >= 1);
            assert(wf(self@));
        }
        if self.extends_notarized_blockchain_idx(fi) {
            let mut encoded_proposal: Vec<u8> = Vec::new();
            encode_proposal(proposal, &mut encoded_proposal);
            let signed_proposal = self.secret_key.sign(&encoded_proposal);
            let v = Vote::new(self.public_key, signed_proposal, proposal.deep_clone(), self.id);
            proof {
                assert(v@ =~~= spec_vote_block(old(self)@, p, leader).1.unwrap());
            }
            return Ok(Some(v));
        }
        Ok(None)
    }

    /// Whether the fork at `fi` is notarized excluding its last block.
    fn extends_notarized_blockchain_idx(&self, fi: usize) -> (r: bool)
        requires
            fi < self@.forks.len(),
            self@.forks[fi as int].len() >= 1,
        ensures
            r == notarized_except_last(self@.forks[fi as int]),
    {
        self.extends_notarized_blockchain(&self.node_blockchains[fi])
    }

    /// Locates the block a proposal refers to among the tracked forks
    /// (searched tail to head) and then the canonical chain; the chain
    /// index `-1` stands for the canonical chain.
    pub fn find_block(&self, vote_block: &BlockProposal) -> (r: Option<(i64, usize)>)
        requires
            wf(self@),
            self@.forks.len() <= i64::MAX,
        ensures
            match r {
                Some((ci, bi)) => spec_find_block(self@.forks, self@.canonical, vote_block@)
                    == Some((ci as int, bi as int)) && (ci == -1 ==> (bi as int)
                    < self@.canonical.len()) && (ci != -1 ==> 0 <= ci as int
                    && (ci as int) < self@.forks.len() && (bi as int)
                    < self@.forks[ci as int].len()),
                None => spec_find_block(self@.forks, self@.canonical, vote_block@) is None,
            },
    {
        let ghost p = vote_block@;
        let mut i: usize = 0;
        while i < self.node_blockchains.len()
            invariant
                i <= self.node_blockchains@.len(),
                self.node_blockchains@.len() <= i64::MAX,
                wf(self@),
                p == vote_block@,
                spec_find_block_n(self@.forks, p, i as int) is None,
            decreases self.node_blockchains@.len() - i,
        {
            let chain = &self.node_blockchains[i];
            let ghost c = self@.forks[i as int];
            proof {
                assert(chain@ == c);
            }
            let mut j: usize = chain.blocks.len();
            while j > 0
                invariant
                    j <= chain.blocks@.len(),
                    chain@ == c,
                    p == vote_block@,
                    i < self.node_blockchains@.len(),
                    self.node_blockchains@.len() <= i64::MAX,
                    c == self@.forks[i as int],
                    spec_find_block_n(self@.forks, p, i as int) is None,
                    spec_rfind_in_chain(c, p, c.len() as int) == spec_rfind_in_chain(
                        c,
                        p,
                        j as int,
                    ),
                decreases j,
            {
                let jj = j - 1;
                if proposal_eq_block(vote_block, &chain.blocks[jj]) {
                    proof {
                        assert(blocks_match(p, c[jj as int]));
                        assert(spec_rfind_in_chain(c, p, j as int) == Some(jj as int));
                        assert(spec_find_block_n(self@.forks, p, i as int + 1) == Some((
                            i as int,
                            jj as int,
                        )));
                        lemma_find_block_propagate(
                            self@.forks,
                            p,
                            i as int + 1,
                            self@.forks.len() as int,
                        );
                    }
                    return Some((i as i64, jj));
                }
                proof {
                    assert(!blocks_match(p, c[jj as int]));
                }
                j = jj;
            }
            proof {
                assert(spec_rfind_in_chain(c, p, c.len() as int) is None);
            }
            i = i + 1;
        }
        let ghost canon = self@.canonical;
        let mut j: usize = self.canonical_blockchain.blocks.len();
        while j > 0
            invariant
                j <= self.canonical_blockchain.blocks@.len(),
                canon == self@.canonical,
                p == vote_block@,
                spec_find_block_n(self@.forks, p, self@.forks.len() as int) is None,
                spec_rfind_in_chain(canon, p, canon.len() as int) == spec_rfind_in_chain(
                    canon,
                    p,
                    j as int,
                ),
            decreases j,
        {
            let jj = j - 1;
            if proposal_eq_block(vote_block, &self.canonical_blockchain.blocks[jj]) {
                proof {
                    assert(blocks_match(p, canon[jj as int]));
                    assert(spec_rfind_in_chain(canon, p, j as int) == Some(jj as int));
                }
                return Some((-1, jj));
            }
            proof {
                assert(!blocks_match(p, canon[jj as int]));
            }
            j = jj;
        }
        None
    }

    /// Whether transaction `t` sits in one of the first `upto` blocks of
    /// `fork`, with those blocks carrying the finalized mark.
    fn tx_in_chain_prefix(fork: &Blockchain, upto: usize, t: &Tx) -> (r: bool)
        requires
            upto <= fork@.len(),
        ensures
            r == tx_in_blocks(spec_mark_finalized(fork@, upto as int), t@),
    {
        let ghost fin = spec_mark_finalized(fork@, upto as int);
        let mut j: usize = 0;
        while j < upto
            invariant
                j <= upto,
                upto <= fork@.len(),
                fin == spec_mark_finalized(fork@, upto as int),
                forall|b: int| 0 <= b < j ==> !tx_in(fin[b].txs, t@),
            decreases upto - j,
        {
            proof {
                assert(fin[j as int].txs == fork@[j as int].txs);
            }
            if contains_tx(&fork.blocks[j].txs, t) {
                proof {
                    assert(tx_in(fin[j as int].txs, t@));
                }
                return true;
            }
            j = j + 1;
        }
        false
    }

    /// Finalizes fork `blockchain_index` when at least three consecutive
    /// notarized blocks stand at its head: all but the last of the run
    /// are committed to the canonical chain, their transactions leave the
    /// unconfirmed pool, forks that do not chain from the new canonical
    /// tail are dropped, and orphan votes at or below the tail's slot are
    /// purged.
    pub fn check_blockchain_finalization(&mut self, blockchain_index: i64)
        requires
            wf(old(self)@),
            0 <= blockchain_index as int,
            (blockchain_index as int) < old(self)@.forks.len(),
        ensures
            wf(final(self)@),
            final(self)@ == spec_finalize(old(self)@, blockchain_index as int),
    {
        let nlen = self.node_blockchains.len();
        proof {
            assert(old(self)@.forks.len() == nlen as int);
        }
        let ci = blockchain_index as usize;
        proof {
            assert(ci as int == blockchain_index as int);
        }
        let ghost s0 = self@;
        let ghost f = s0.forks[ci as int];
        let flen = self.node_blockchains[ci].blocks.len();
        proof {
            assert(self.node_blockchains@[ci as int]@ == f);
            assert(flen as int == f.len());
        }
        // Count the run of consecutive notarized blocks from the head.
        let chain = &self.node_blockchains[ci];
        let mut run: usize = 0;
        while run < flen && chain.blocks[run].metadata.sm.notarized
            invariant
                run <= flen,
                chain@ == f,
                flen as int == f.len(),
                forall|j: int| 0 <= j < run ==> f[j].notarized,
            decreases flen - run,
        {
            proof {
                assert(f[run as int].notarized);
            }
            run = run + 1;
        }
        proof {
            lemma_lead_run_char(f, f.len() as int, run as int);
        }
        if flen <= 2 || run <= 2 {
            proof {
                assert(self@ == s0);
                assert(spec_finalize(s0, ci as int) == s0);
            }
            return;
        }
        let fork = self.node_blockchains.remove(ci);
        let ghost mid_forks = self.node_blockchains@;
        proof {
            assert(fork@ == f);
        }
        let ghost canon0 = s0.canonical;
        let ghost fin = spec_mark_finalized(f, run as int - 1);
        // Mark the run (all but its last block) finalized and commit it.
        let mut k: usize = 0;
        while k < run - 1
            invariant
                k <= run - 1,
                2 < run,
                run <= flen,
                fork@ == f,
                flen as int == f.len(),
                fin == spec_mark_finalized(f, run as int - 1),
                self.canonical_blockchain@ == canon0 + spec_mark_finalized(f, k as int),
                self.node_blockchains@ == mid_forks,
                txs_view(self.unconfirmed_txs@) == s0.pool,
                votes_view(self.orphan_votes@) == s0.orphans,
                self.participants@ == s0.participants,
                self.pending_participants@ == s0.pending,
                self.id == s0.id,
                self.genesis_time.0 == s0.genesis_time,
                self.secret_key == s0.secret_key,
                self.public_key == s0.public_key,
            decreases run - 1 - k,
        {
            let mut fb = fork.blocks[k].deep_clone();
            fb.metadata.sm.finalized = true;
            let ghost fbv = fb@;
            proof {
                assert(fbv =~~= (BlockV { finalized: true, ..f[k as int] }));
            }
            self.canonical_blockchain.blocks.push(fb);
            proof {
                assert(spec_mark_finalized(f, k as int + 1) =~= spec_mark_finalized(
                    f,
                    k as int,
                ).push(fbv));
                assert(self.canonical_blockchain@ =~= (canon0 + spec_mark_finalized(
                    f,
                    k as int,
                )).push(fbv));
                assert((canon0 + spec_mark_finalized(f, k as int)).push(fbv) =~= canon0
                    + spec_mark_finalized(f, k as int + 1));
            }
            k = k + 1;
        }
        proof {
            assert(self.canonical_blockchain@ == canon0 + fin);
        }
        // Remove finalized transactions from the unconfirmed pool.
        let mut new_pool: Vec<Tx> = Vec::new();
        let mut i: usize = 0;
        while i < self.unconfirmed_txs.len()
            invariant
                i <= self.unconfirmed_txs@.len(),
                txs_view(self.unconfirmed_txs@) == s0.pool,
                txs_view(new_pool@) == spec_keep_pool(s0.pool, fin, i as int),
                2 < run,
                run <= flen,
                fork@ == f,
                flen as int == f.len(),
                fin == spec_mark_finalized(f, run as int - 1),
            decreases self.unconfirmed_txs@.len() - i,
        {
            let t = &self.unconfirmed_txs[i];
            proof {
                assert(t@ == s0.pool[i as int]);
            }
            if !Self::tx_in_chain_prefix(&fork, run - 1, t) {
                new_pool.push(Tx { payload: crate::tx::clone_bytes(&t.payload) });
                proof {
                    assert(txs_view(new_pool@) =~= spec_keep_pool(s0.pool, fin, i as int)
                        + seq![s0.pool[i as int]]);
                }
            } else {
                proof {
                    assert(txs_view(new_pool@) =~= spec_keep_pool(s0.pool, fin, i as int)
                        + Seq::<Seq<u8>>::empty());
                }
            }
            i = i + 1;
        }
        self.unconfirmed_txs = new_pool;
        // The new canonical tail.
        let clen = self.canonical_blockchain.blocks.len();
        proof {
            assert(clen as int == (canon0 + fin).len());
            assert(fin.len() > 0);
        }
        let tail = &self.canonical_blockchain.blocks[clen - 1];
        proof {
            assert(tail@ == (canon0 + fin).last());
        }
        let th = tail.hash_value();
        let tail_sl = tail.sl;
        let ghost tailv = (canon0 + fin).last();
        proof {
            assert(th == spec_block_hash(tailv));
            assert(tail_sl == tailv.sl);
        }
        // The source fork keeps only the unfinalized remainder.
        let mut rest_blocks: Vec<Block> = Vec::new();
        let mut k2: usize = run - 1;
        while k2 < flen
            invariant
                run - 1 <= k2 <= flen,
                2 < run,
                run <= flen,
                fork@ == f,
                flen as int == f.len(),
                blocks_view(rest_blocks@) == f.subrange(run as int - 1, k2 as int),
            decreases flen - k2,
        {
            rest_blocks.push(fork.blocks[k2].deep_clone());
            proof {
                assert(f.subrange(run as int - 1, k2 as int + 1) =~= f.subrange(
                    run as int - 1,
                    k2 as int,
                ).push(f[k2 as int]));
                assert(blocks_view(rest_blocks@) =~= f.subrange(run as int - 1, k2 as int).push(
                    f[k2 as int],
                ));
            }
            k2 = k2 + 1;
        }
        let rest = Blockchain { blocks: rest_blocks };
        proof {
            assert(rest@ =~= f.skip(run as int - 1));
        }
        let ghost restv = rest@;
        self.node_blockchains.insert(ci, rest);
        let ghost forks1 = s0.forks.update(ci as int, f.skip(run as int - 1));
        proof {
            assert(self.node_blockchains@ =~= mid_forks.insert(ci as int, self.node_blockchains@[ci as int]));
            assert forall|j: int| 0 <= j < self.node_blockchains@.len() implies chains_view(
                self.node_blockchains@,
            )[j] == forks1[j] by {
                assert(chains_view(self.node_blockchains@)[j] == self.node_blockchains@[j]@);
                if j < ci as int {
                    assert(self.node_blockchains@[j] == mid_forks[j]);
                    assert(mid_forks[j]@ == s0.forks[j]);
                } else if j == ci as int {
                    assert(self.node_blockchains@[j]@ == restv);
                } else {
                    assert(self.node_blockchains@[j] == mid_forks[j - 1]);
                    assert(mid_forks[j - 1]@ == s0.forks[j]);
                }
            }
            assert(chains_view(self.node_blockchains@) =~= forks1);
        }
        // Drop forks that no longer chain from the canonical tail.
        let mut kept: Vec<Blockchain> = Vec::new();
        let mut i2: usize = 0;
        while i2 < self.node_blockchains.len()
            invariant
                i2 <= self.node_blockchains@.len(),
                chains_view(self.node_blockchains@) == forks1,
                forall|j: int| 0 <= j < forks1.len() ==> forks1[j].len() >= 1,
                chains_view(kept@) == spec_keep_forks(forks1, th, tail_sl, i2 as int),
                forall|j: int| 0 <= j < kept@.len() ==> kept@[j]@.len() >= 1,
            decreases self.node_blockchains@.len() - i2,
        {
            let g = &self.node_blockchains[i2];
            proof {
                assert(g@ == forks1[i2 as int]);
                assert(g@.len() >= 1);
            }
            if g.blocks[0].st == th && g.blocks[0].sl > tail_sl {
                kept.push(g.deep_clone());
                proof {
                    assert(fork_survives(forks1[i2 as int], th, tail_sl));
                    assert(chains_view(kept@) =~= spec_keep_forks(forks1, th, tail_sl, i2 as int)
                        + seq![forks1[i2 as int]]);
                }
            } else {
                proof {
                    assert(!fork_survives(forks1[i2 as int], th, tail_sl));
                    assert(chains_view(kept@) =~= spec_keep_forks(forks1, th, tail_sl, i2 as int)
                        + Seq::<Seq<BlockV>>::empty());
                }
            }
            i2 = i2 + 1;
        }
        self.node_blockchains = kept;
        // Purge orphan votes at or below the finalized height.
        let mut kept_orphans: Vec<Vote> = Vec::new();
        let mut i3: usize = 0;
        while i3 < self.orphan_votes.len()
            invariant
                i3 <= self.orphan_votes@.len(),
                votes_view(self.orphan_votes@) == s0.orphans,
                votes_view(kept_orphans@) == spec_keep_orphans(s0.orphans, tail_sl, i3 as int),
            decreases self.orphan_votes@.len() - i3,
        {
            let v = &self.orphan_votes[i3];
            proof {
                assert(v@ == s0.orphans[i3 as int]);
            }
            if v.block.sl > tail_sl {
                kept_orphans.push(v.deep_clone());
                proof {
                    assert(votes_view(kept_orphans@) =~= spec_keep_orphans(
                        s0.orphans,
                        tail_sl,
                        i3 as int,
                    ) + seq![s0.orphans[i3 as int]]);
                }
            } else {
                proof {
                    assert(votes_view(kept_orphans@) =~= spec_keep_orphans(
                        s0.orphans,
                        tail_sl,
                        i3 as int,
                    ) + Seq::<VoteV>::empty());
                }
            }
            i3 = i3 + 1;
        }
        self.orphan_votes = kept_orphans;
        proof {
            lemma_lead_run_bounds(f, f.len() as int);
            assert(self@ =~~= spec_finalize(s0, ci as int));
            assert forall|j: int| 0 <= j < self@.canonical.len() implies self@.canonical[j].notarized by {
                if j < canon0.len() {
                    assert(canon0[j].notarized);
                } else {
                    assert(fin[j - canon0.len()].notarized);
                }
            }
        }
    }

    /// Records a vote: verifies the voter's signature, buffers the vote
    /// when its block is unknown, rejects duplicates and unknown voters,
    /// otherwise appends it to the block's vote set, marks the voter
    /// active, notarizes the block on quorum and runs finalization on the
    /// owning fork.  Returns whether any state changed.
    #[verifier::rlimit(80)]
    pub fn receive_vote(&mut self, vote: &Vote) -> (r: Result<bool, ConsensusError>)
        requires
            wf(old(self)@),
            old(self)@.forks.len() <= i64::MAX,
        ensures
            wf(final(self)@),
            match r {
                Ok(changed) => spec_verify(
                    vote@.node_public_key,
                    enc_proposal(vote@.block),
                    vote@.vote,
                ) && (final(self)@, changed) == spec_receive_vote(old(self)@, vote@),
                Err(e) => e == ConsensusError::InvalidSignature && !spec_verify(
                    vote@.node_public_key,
                    enc_proposal(vote@.block),
                    vote@.vote,
                ) && final(self)@ == old(self)@,
            },
    {
        let ghost v = vote@;
        let mut encoded_block: Vec<u8> = Vec::new();
        encode_proposal(&vote.block, &mut encoded_block);
        if !vote.vote.verify(vote.node_public_key, &encoded_block) {
            proof {
                assert(self@ =~~= old(self)@);
            }
            return Err(ConsensusError::InvalidSignature);
        }
        self.zero_participants_check();
        let ghost s1 = self@;
        let n = self.participants.len();
        proof {
            assert(n as int == s1.participants.len());
        }
        let found = self.find_block(&vote.block);
        match found {
            None => {
                if contains_vote(&self.orphan_votes, vote) {
                    proof {
                        assert((self@, false) == spec_receive_vote(old(self)@, v));
                    }
                    return Ok(false);
                }
                self.orphan_votes.push(vote.deep_clone());
                proof {
                    assert(votes_view(self.orphan_votes@) =~= s1.orphans.push(v));
                    assert(self@ =~~= (StateV { orphans: s1.orphans.push(v), ..s1 }));
                }
                return Ok(false);
            },
            Some((ci64, bi)) => {
                let ghost ci = ci64 as int;
                let ghost b = chain_at(s1, ci)[bi as int];
                let nlen0 = self.node_blockchains.len();
                proof {
                    assert(s1.forks.len() == nlen0 as int);
                }
                // Reject a duplicate of an already-recorded vote.
                let dup: bool;
                if ci64 == -1 {
                    let blkref = &self.canonical_blockchain.blocks[bi];
                    proof {
                        assert(blkref@ == b);
                        assert(b.votes == votes_view(blkref.metadata.sm.votes@));
                    }
                    dup = contains_vote(&blkref.metadata.sm.votes, vote);
                } else {
                    proof {
                        assert((ci64 as usize) as int == ci);
                    }
                    let blkref = &self.node_blockchains[ci64 as usize].blocks[bi];
                    proof {
                        assert(self.node_blockchains@[ci]@ == s1.forks[ci]);
                        assert(blkref@ == b);
                        assert(b.votes == votes_view(blkref.metadata.sm.votes@));
                    }
                    dup = contains_vote(&blkref.metadata.sm.votes, vote);
                }
                proof {
                    assert(dup == vote_in(b.votes, v));
                }
                if dup {
                    proof {
                        assert(vote_in(b.votes, v));
                        assert((self@, false) == spec_receive_vote(old(self)@, v));
                    }
                    return Ok(false);
                }
                // Reject a vote from an unknown participant.
                let pi = match find_participant_index(&self.participants, vote.id) {
                    None => {
                        proof {
                            assert(!has_participant(s1.participants, v.id));
                            assert((self@, false) == spec_receive_vote(old(self)@, v));
                        }
                        return Ok(false);
                    },
                    Some(pi) => pi,
                };
                proof {
                    assert(has_participant(s1.participants, v.id));
                }
                // Record the vote on the block, notarizing on quorum.
                let quorum: bool;
                let ghost b1 = BlockV {
                    votes: b.votes.push(v),
                    notarized: b.notarized || (!b.notarized && (b.votes.len() + 1) as int
                        > spec_quorum_threshold(n as int)),
                    ..b
                };
                if ci64 == -1 {
                    let mut blk = self.canonical_blockchain.blocks.remove(bi);
                    proof {
                        assert(blk@ == b);
                    }
                    blk.metadata.sm.votes.push(vote.deep_clone());
                    quorum = !blk.metadata.sm.notarized && (blk.metadata.sm.votes.len() as u128)
                        > 2 * (n as u128) / 3;
                    proof {
                        assert(votes_view(blk.metadata.sm.votes@) =~= b.votes.push(v));
                        assert(quorum == (!b.notarized && (b.votes.len() + 1) as int
                            > spec_quorum_threshold(n as int)));
                        assert(!quorum) by {
                            assert(b.notarized);
                        }
                    }
                    let ghost blkv = blk@;
                    self.canonical_blockchain.blocks.insert(bi, blk);
                    proof {
                        assert(blkv =~~= b1);
                        assert(self.canonical_blockchain@ =~= s1.canonical.update(bi as int, b1));
                        assert(self@ =~~= spec_set_block(s1, ci, bi as int, b1));
                    }
                } else {
                    let cidx = ci64 as usize;
                    let nlen = self.node_blockchains.len();
                    proof {
                        assert(s1.forks.len() == nlen as int);
                        assert(cidx as int == ci);
                    }
                    let ghost ol = self.node_blockchains@;
                    let mut chain = self.node_blockchains.remove(cidx);
                    let mut blk = chain.blocks.remove(bi);
                    proof {
                        assert(blk@ == b);
                    }
                    blk.metadata.sm.votes.push(vote.deep_clone());
                    quorum = !blk.metadata.sm.notarized && (blk.metadata.sm.votes.len() as u128)
                        > 2 * (n as u128) / 3;
                    proof {
                        assert(votes_view(blk.metadata.sm.votes@) =~= b.votes.push(v));
                        assert(quorum == (!b.notarized && (b.votes.len() + 1) as int
                            > spec_quorum_threshold(n as int)));
                    }
                    if quorum {
                        blk.metadata.sm.notarized = true;
                    }
                    let ghost blkv = blk@;
                    chain.blocks.insert(bi, blk);
                    let ghost chv = chain@;
                    self.node_blockchains.insert(cidx, chain);
                    proof {
                        assert(blkv =~~= b1);
                        assert(chv =~= s1.forks[ci].update(bi as int, b1));
                        assert(self.node_blockchains@ =~= ol.update(
                            cidx as int,
                            self.node_blockchains@[cidx as int],
                        ));
                        assert(self.node_blockchains@[cidx as int]@ == chv);
                        assert forall|j: int|
                            0 <= j < self.node_blockchains@.len() implies chains_view(
                            self.node_blockchains@,
                        )[j] == s1.forks.update(ci, s1.forks[ci].update(bi as int, b1))[j] by {
                            assert(chains_view(self.node_blockchains@)[j]
                                == self.node_blockchains@[j]@);
                            if j != ci {
                                assert(self.node_blockchains@[j] == ol[j]);
                                assert(chains_view(ol)[j] == ol[j]@);
                            }
                        }
                        assert(self@.forks =~= s1.forks.update(
                            ci,
                            s1.forks[ci].update(bi as int, b1),
                        ));
                        assert(self@ =~~= spec_set_block(s1, ci, bi as int, b1));
                    }
                }
                let ghost s2 = spec_set_block(s1, ci, bi as int, b1);
                // Mark the voter active at the block's slot.
                let pv = self.participants[pi];
                let p2 = Participant { voted: Some(vote.block.sl), ..pv };
                self.participants.remove(pi);
                self.participants.insert(pi, p2);
                proof {
                    assert forall|j: int|
                        0 <= j < self.participants@.len() implies self.participants@[j]
                        == spec_update_voted(s2.participants, v.id, v.block.sl)[j] by {
                        if j != pi as int {
                            assert(s1.participants[j].id != v.id);
                        }
                    }
                    assert(self.participants@ =~= spec_update_voted(
                        s2.participants,
                        v.id,
                        v.block.sl,
                    ));
                    assert(self@ =~~= (StateV {
                        participants: spec_update_voted(s2.participants, v.id, v.block.sl),
                        ..s2
                    }));
                    assert(sorted_by_id(self@.participants));
                    assert forall|j: int|
                        0 <= j < self@.canonical.len() implies self@.canonical[j].notarized by {
                        if ci == -1 && j == bi as int {
                            assert(b.notarized);
                        } else {
                            assert(self@.canonical[j] == s1.canonical[j]);
                        }
                    }
                    assert forall|j: int|
                        0 <= j < self@.forks.len() implies self@.forks[j].len() >= 1 by {
                        if ci != -1 && j == ci {
                            assert(self@.forks[j].len() == s1.forks[j].len());
                        }
                    }
                    assert(wf(self@));
                }
                if quorum {
                    proof {
                        assert(ci != -1) by {
                            if ci == -1 {
                                assert(b.notarized);
                            }
                        }
                        assert(0 <= ci64 as int && (ci64 as int) < self@.forks.len());
                    }
                    self.check_blockchain_finalization(ci64);
                    proof {
                        assert((self@, true) == spec_receive_vote(old(self)@, v));
                    }
                    return Ok(true);
                }
                proof {
                    assert((self@, true) == spec_receive_vote(old(self)@, v));
                }
                Ok(true)
            },
        }
    }

    /// The epoch leader at time `now`, computed without committing the
    /// bootstrap admission: used to validate a proposal's sender before
    /// any state changes.
    fn peek_epoch_leader(&self, now: i64) -> (r: u64)
        requires
            sorted_by_id(self@.participants),
            self@.participants.len() + self@.pending.len() > 0,
        ensures
            r == spec_epoch_leader(
                spec_epoch(self@.genesis_time, now),
                spec_zero_check(self@).participants,
            ),
    {
        let epoch = current_epoch_at(self.genesis_time, now);
        let h = crate::hashing::hash_u64(epoch);
        if self.participants.len() == 0 {
            let mut parts: Vec<Participant> = Vec::new();
            proof {
                assert(parts@ =~= self@.participants);
                lemma_admit_sorted(parts@, self@.pending, self@.pending.len() as int);
                lemma_admit_len(parts@, self@.pending, self@.pending.len() as int);
            }
            admit_participants(&mut parts, &self.pending_participants);
            proof {
                assert(parts@ == spec_zero_check(self@).participants);
            }
            let n = parts.len() as u64;
            let pos = (h % n) as usize;
            parts[pos].id
        } else {
            proof {
                assert(spec_zero_check(self@) == self@);
            }
            let n = self.participants.len() as u64;
            let pos = (h % n) as usize;
            self.participants[pos].id
        }
    }

    /// Handles an incoming proposal: rejects it unless it comes from the
    /// epoch leader at time `now` with a valid signature over its
    /// identity triple, then votes on it.  A rejected proposal leaves
    /// the state untouched.
    pub fn receive_proposed_block_at(
        &mut self,
        proposed_block: &BlockProposal,
        leader: bool,
        now: i64,
    ) -> (r: Result<Option<Vote>, ConsensusError>)
        requires
            wf(old(self)@),
            old(self)@.forks.len() < i64::MAX,
            old(self)@.participants.len() + old(self)@.pending.len() > 0,
        ensures
            wf(final(self)@),
            proposed_block@.id != spec_epoch_leader(
                spec_epoch(old(self)@.genesis_time, now),
                spec_zero_check(old(self)@).participants,
            ) ==> r == Err::<Option<Vote>, ConsensusError>(ConsensusError::InvalidLeader)
                && final(self)@ == old(self)@,
            proposed_block@.id == spec_epoch_leader(
                spec_epoch(old(self)@.genesis_time, now),
                spec_zero_check(old(self)@).participants,
            ) && !spec_verify(
                proposed_block@.public_key,
                enc_header(proposed_block@.st, proposed_block@.sl, proposed_block@.txs),
                proposed_block@.signature,
            ) ==> r == Err::<Option<Vote>, ConsensusError>(ConsensusError::InvalidSignature)
                && final(self)@ == old(self)@,
            proposed_block@.id == spec_epoch_leader(
                spec_epoch(old(self)@.genesis_time, now),
                spec_zero_check(old(self)@).participants,
            ) && spec_verify(
                proposed_block@.public_key,
                enc_header(proposed_block@.st, proposed_block@.sl, proposed_block@.txs),
                proposed_block@.signature,
            ) ==> match r {
                Ok(Some(v)) => (final(self)@, Some(v@)) == spec_vote_block(
                    old(self)@,
                    proposed_block@,
                    leader,
                ),
                Ok(None) => (final(self)@, None::<VoteV>) == spec_vote_block(
                    old(self)@,
                    proposed_block@,
                    leader,
                ),
                Err(_) => false,
            },
    {
        let expected = self.peek_epoch_leader(now);
        if proposed_block.id != expected {
            proof {
                assert(self@ =~~= old(self)@);
            }
            return Err(ConsensusError::InvalidLeader);
        }
        let mut encoded_block: Vec<u8> = Vec::new();
        encode_header(proposed_block.st, proposed_block.sl, &proposed_block.txs, &mut encoded_block);
        if !proposed_block.signature.verify(proposed_block.public_key, &encoded_block) {
            proof {
                assert(self@ =~~= old(self)@);
            }
            return Err(ConsensusError::InvalidSignature);
        }
        self.vote_block(proposed_block, leader)
    }

    /// Handles an incoming proposal at the wall-clock epoch.
    pub fn receive_proposed_block(&mut self, proposed_block: &BlockProposal, leader: bool) -> (r:
        Result<Option<Vote>, ConsensusError>)
        requires
            wf(old(self)@),
            old(self)@.forks.len() < i64::MAX,
            old(self)@.participants.len() + old(self)@.pending.len() > 0,
        ensures
            wf(final(self)@),
            match r {
                Ok(Some(v)) => (final(self)@, Some(v@)) == spec_vote_block(
                    old(self)@,
                    proposed_block@,
                    leader,
                ),
                Ok(None) => (final(self)@, None::<VoteV>) == spec_vote_block(
                    old(self)@,
                    proposed_block@,
                    leader,
                ),
                Err(_) => final(self)@ == old(self)@,
            },
    {
        let now = unix_now();
        self.receive_proposed_block_at(proposed_block, leader, now)
    }

    /// The epoch-boundary refresh at time `now`: admits every pending
    /// participant, then evicts those inactive since before the previous
    /// epoch (clamped to zero at epoch zero).
    pub fn refresh_participants_at(&mut self, now: i64)
        requires
            sorted_by_id(old(self)@.participants),
        ensures
            final(self)@ == spec_refresh(old(self)@, now),
            sorted_by_id(final(self)@.participants),
    {
        proof {
            lemma_admit_sorted(
                self@.participants,
                self@.pending,
                self@.pending.len() as int,
            );
        }
        admit_participants(&mut self.participants, &self.pending_participants);
        self.pending_participants = Vec::new();
        let ghost parts1 = self.participants@;
        let epoch = current_epoch_at(self.genesis_time, now);
        let prev: u64 = if epoch >= 1 {
            epoch - 1
        } else {
            0
        };
        let mut kept: Vec<Participant> = Vec::new();
        let mut i: usize = 0;
        while i < self.participants.len()
            invariant
                i <= self.participants@.len(),
                parts1 == self.participants@,
                kept@ == spec_keep_active(parts1, prev, i as int),
            decreases self.participants@.len() - i,
        {
            let p = self.participants[i];
            let active = match p.voted {
                Some(e) => e >= prev,
                None => p.joined >= prev,
            };
            proof {
                assert(active == is_active(parts1[i as int], prev));
            }
            if active {
                kept.push(p);
                proof {
                    assert(kept@ =~= spec_keep_active(parts1, prev, i as int) + seq![parts1[i as int]]);
                }
            } else {
                proof {
                    assert(kept@ =~= spec_keep_active(parts1, prev, i as int)
                        + Seq::<Participant>::empty());
                }
            }
            i = i + 1;
        }
        self.participants = kept;
        proof {
            lemma_keep_active_sorted(parts1, prev, parts1.len() as int);
            assert(self@ =~~= spec_refresh(old(self)@, now));
        }
    }

    /// The epoch-boundary refresh at the wall-clock epoch.
    pub fn refresh_participants(&mut self)
        requires
            sorted_by_id(old(self)@.participants),
        ensures
            sorted_by_id(final(self)@.participants),
            exists|now: i64| final(self)@ == spec_refresh(old(self)@, now),
    {
        let now = unix_now();
        self.refresh_participants_at(now);
        proof {
            assert(self@ == spec_refresh(old(self)@, now));
        }
    }
}

/// The qualifying fork index of the scan stays within bounds.
pub proof fn lemma_lnc_bounds(forks: Seq<Seq<BlockV>>, n: int)
    requires
        0 <= n <= forks.len(),
    ensures
        spec_lnc(forks, n).0 == -1 || (0 <= spec_lnc(forks, n).0 < n && spec_lnc(forks, n).1
            == forks[spec_lnc(forks, n).0].len()),
    decreases n,
{
    if n > 0 {
        lemma_lnc_bounds(forks, n - 1);
    }
}

} // verus!
