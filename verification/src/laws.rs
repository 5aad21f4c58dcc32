//! The protocol's guarantees, stated and proved over the transition
//! specifications of the consensus state.

use vstd::prelude::*;
use crate::block::{BlockV, PropV, spec_block_hash};
use crate::blockchain::notarized_except_last;
use crate::participant::Participant;
use crate::state::{
    StateV, wf, spec_zero_check, spec_epoch_leader, spec_vote_block, spec_receive_vote,
    spec_finalize, spec_find_block, spec_find_ext, spec_candidate, spec_moved_orphans,
    spec_kept_orphans, spec_keep_orphans, spec_keep_forks, spec_set_block, spec_quorum_threshold,
    chain_at, prop_match, fork_survives, lead_run, spec_mark_finalized, has_participant,
    lemma_lead_run_bounds, lemma_find_ext_bounds,
};
use crate::vote::{VoteV, vote_in};

verus! {

/// Two nodes holding identical active-participant snapshots compute the
/// same leader for the same epoch.
pub proof fn lemma_epoch_leader_deterministic(
    epoch: u64,
    a: Seq<Participant>,
    b: Seq<Participant>,
)
    requires
        a == b,
        a.len() > 0,
    ensures
        spec_epoch_leader(epoch, a) == spec_epoch_leader(epoch, b),
{
}

/// A vote is only ever produced for a block whose whole ancestry on its
/// fork is notarized: voting never builds on unnotarized history.
pub proof fn lemma_vote_only_on_notarized_ancestry(s: StateV, p: PropV, leader: bool)
    requires
        wf(s),
        spec_vote_block(s, p, leader).1 is Some,
    ensures
        exists|fi: int|
            0 <= fi < spec_vote_block(s, p, leader).0.forks.len() && spec_vote_block(
                s,
                p,
                leader,
            ).0.forks[fi].last() == spec_candidate(spec_zero_check(s), p) && notarized_except_last(
                #[trigger] spec_vote_block(s, p, leader).0.forks[fi],
            ),
{
    let s1 = spec_zero_check(s);
    let s2 = StateV { orphans: spec_kept_orphans(s1.orphans, p, s1.orphans.len() as int), ..s1 };
    let idx = spec_find_ext(s2.forks, s2.canonical, p.st, p.sl, leader);
    let s3 = spec_vote_block(s, p, leader).0;
    lemma_find_ext_bounds(s2.forks, p.st, p.sl, leader, s2.forks.len() as int);
    if idx == -1 {
        let fi = s3.forks.len() - 1;
        assert(s3.forks[fi as int].last() == spec_candidate(s1, p));
        assert(notarized_except_last(s3.forks[fi as int]));
    } else {
        let fi = idx;
        assert(s3.forks[fi].last() == spec_candidate(s1, p));
        assert(notarized_except_last(s3.forks[fi]));
    }
}

/// Notarization triggers exactly at the quorum boundary: with the new
/// vote recorded, the block is notarized if and only if its distinct
/// vote count strictly exceeds two thirds (rounded down) of the active
/// participant count — one vote fewer never triggers it.
pub proof fn lemma_notarization_threshold(s: StateV, v: VoteV)
    requires
        wf(s),
        spec_find_block(
            spec_zero_check(s).forks,
            spec_zero_check(s).canonical,
            v.block,
        ) is Some,
        ({
            let s1 = spec_zero_check(s);
            let (ci, bi) = spec_find_block(s1.forks, s1.canonical, v.block).unwrap();
            let b = chain_at(s1, ci)[bi];
            !vote_in(b.votes, v) && !b.notarized && has_participant(s1.participants, v.id)
        }),
    ensures
        spec_receive_vote(s, v).1 == true,
        ({
            let s1 = spec_zero_check(s);
            let n = s1.participants.len() as int;
            let (ci, bi) = spec_find_block(s1.forks, s1.canonical, v.block).unwrap();
            let b = chain_at(s1, ci)[bi];
            let b1 = BlockV {
                votes: b.votes.push(v),
                notarized: b.notarized || (!b.notarized && (b.votes.len() + 1) as int
                    > spec_quorum_threshold(n)),
                ..b
            };
            b1.notarized <==> b1.votes.len() > spec_quorum_threshold(n)
        }),
{
}

/// Finalization commits exactly one block fewer than the run of
/// consecutive notarized blocks at the fork's head when that run is at
/// least three, and commits nothing otherwise.
pub proof fn lemma_finalization_commit_count(s: StateV, ci: int)
    requires
        wf(s),
        0 <= ci < s.forks.len(),
    ensures
        ({
            let f = s.forks[ci];
            let run = lead_run(f, f.len() as int);
            (run > 2 ==> spec_finalize(s, ci).canonical.len() == s.canonical.len() + run - 1)
                && (run <= 2 ==> spec_finalize(s, ci) == s)
        }),
{
    let f = s.forks[ci];
    let run = lead_run(f, f.len() as int);
    lemma_lead_run_bounds(f, f.len() as int);
    if run > 2 {
        assert(f.len() > 2);
        assert(spec_mark_finalized(f, run - 1).len() == run - 1);
    }
}

/// After finalization, every surviving fork chains from the new
/// canonical tail, and the canonical chain itself is untouched by the
/// pruning: it is exactly the old chain plus the committed run.
pub proof fn lemma_finalize_prunes_stale_forks(s: StateV, ci: int)
    requires
        wf(s),
        0 <= ci < s.forks.len(),
        lead_run(s.forks[ci], s.forks[ci].len() as int) > 2,
    ensures
        ({
            let f = s.forks[ci];
            let run = lead_run(f, f.len() as int);
            let s2 = spec_finalize(s, ci);
            let tail = s2.canonical.last();
            let th = spec_block_hash(tail);
            s2.canonical == s.canonical + spec_mark_finalized(f, run - 1) && forall|j: int|
                0 <= j < s2.forks.len() ==> fork_survives(#[trigger] s2.forks[j], th, tail.sl)
        }),
{
    let f = s.forks[ci];
    let run = lead_run(f, f.len() as int);
    lemma_lead_run_bounds(f, f.len() as int);
    let s2 = spec_finalize(s, ci);
    let tail = s2.canonical.last();
    let th = spec_block_hash(tail);
    let forks1 = s.forks.update(ci, f.skip(run - 1));
    lemma_keep_forks_survive(forks1, th, tail.sl, forks1.len() as int);
}

/// Every fork kept by the pruning scan chains from the canonical tail.
pub proof fn lemma_keep_forks_survive(forks: Seq<Seq<BlockV>>, th: u64, sl: u64, n: int)
    requires
        0 <= n <= forks.len(),
    ensures
        forall|j: int|
            0 <= j < spec_keep_forks(forks, th, sl, n).len() ==> fork_survives(
                #[trigger] spec_keep_forks(forks, th, sl, n)[j],
                th,
                sl,
            ),
    decreases n,
{
    if n > 0 {
        lemma_keep_forks_survive(forks, th, sl, n - 1);
        let prev = spec_keep_forks(forks, th, sl, n - 1);
        let cur = spec_keep_forks(forks, th, sl, n);
        assert forall|j: int| 0 <= j < cur.len() implies fork_survives(cur[j], th, sl) by {
            if j < prev.len() {
                assert(cur[j] == prev[j]);
            } else {
                assert(cur[j] == forks[n - 1]);
            }
        }
    }
}

/// Every orphan vote that references the accepted proposal is attached
/// to the materialized candidate, every other is kept, and none that
/// references it stays buffered.
pub proof fn lemma_orphan_votes_replayed(s: StateV, p: PropV, leader: bool)
    requires
        wf(s),
    ensures
        ({
            let s1 = spec_zero_check(s);
            let cand = spec_candidate(s1, p);
            let kept = spec_vote_block(s, p, leader).0.orphans;
            (forall|k: int|
                0 <= k < s1.orphans.len() && prop_match(#[trigger] s1.orphans[k].block, p)
                    ==> cand.votes.contains(s1.orphans[k])) && (forall|j: int|
                0 <= j < cand.votes.len() ==> prop_match(
                    (#[trigger] cand.votes[j]).block,
                    p,
                )) && (spec_find_ext(
                s1.forks,
                s1.canonical,
                p.st,
                p.sl,
                leader,
            ) != -2 ==> forall|j: int|
                0 <= j < kept.len() ==> !prop_match((#[trigger] kept[j]).block, p))
        }),
{
    let s1 = spec_zero_check(s);
    lemma_moved_orphans_members(s1.orphans, p, s1.orphans.len() as int);
    lemma_kept_orphans_members(s1.orphans, p, s1.orphans.len() as int);
}

/// The moved-orphan scan collects exactly the matching votes.
pub proof fn lemma_moved_orphans_members(os: Seq<VoteV>, p: PropV, n: int)
    requires
        0 <= n <= os.len(),
    ensures
        forall|j: int|
            0 <= j < spec_moved_orphans(os, p, n).len() ==> prop_match(
                (#[trigger] spec_moved_orphans(os, p, n)[j]).block,
                p,
            ),
        forall|k: int|
            0 <= k < n && prop_match(#[trigger] os[k].block, p) ==> spec_moved_orphans(
                os,
                p,
                n,
            ).contains(os[k]),
    decreases n,
{
    if n > 0 {
        lemma_moved_orphans_members(os, p, n - 1);
        let prev = spec_moved_orphans(os, p, n - 1);
        let cur = spec_moved_orphans(os, p, n);
        assert forall|k: int|
            0 <= k < n && prop_match(#[trigger] os[k].block, p) implies cur.contains(os[k]) by {
            if k < n - 1 {
                let i = choose|i: int| 0 <= i < prev.len() && prev[i] == os[k];
                assert(cur[i] == os[k]);
            } else {
                assert(cur[cur.len() - 1] == os[k]);
            }
        }
    }
}

/// The kept-orphan scan collects exactly the non-matching votes.
pub proof fn lemma_kept_orphans_members(os: Seq<VoteV>, p: PropV, n: int)
    requires
        0 <= n <= os.len(),
    ensures
        forall|j: int|
            0 <= j < spec_kept_orphans(os, p, n).len() ==> !prop_match(
                (#[trigger] spec_kept_orphans(os, p, n)[j]).block,
                p,
            ),
    decreases n,
{
    if n > 0 {
        lemma_kept_orphans_members(os, p, n - 1);
        let prev = spec_kept_orphans(os, p, n - 1);
        let cur = spec_kept_orphans(os, p, n);
        assert forall|j: int| 0 <= j < cur.len() implies !prop_match(cur[j].block, p) by {
            if j < prev.len() {
                assert(cur[j] == prev[j]);
            } else {
                assert(cur[j] == os[n - 1]);
            }
        }
    }
}

/// Finalization purges exactly the orphan votes at or below the new
/// canonical tail's slot: every kept orphan sits above it, and every
/// orphan above it is kept.
pub proof fn lemma_orphans_purged_at_finalization(s: StateV, ci: int)
    requires
        wf(s),
        0 <= ci < s.forks.len(),
        lead_run(s.forks[ci], s.forks[ci].len() as int) > 2,
    ensures
        ({
            let s2 = spec_finalize(s, ci);
            let tail_sl = s2.canonical.last().sl;
            (forall|j: int| 0 <= j < s2.orphans.len() ==> (#[trigger] s2.orphans[j]).block.sl
                > tail_sl) && (forall|k: int|
                0 <= k < s.orphans.len() && (#[trigger] s.orphans[k]).block.sl > tail_sl
                    ==> s2.orphans.contains(s.orphans[k]))
        }),
{
    let f = s.forks[ci];
    let run = lead_run(f, f.len() as int);
    lemma_lead_run_bounds(f, f.len() as int);
    let s2 = spec_finalize(s, ci);
    let tail_sl = s2.canonical.last().sl;
    lemma_keep_orphans_members(s.orphans, tail_sl, s.orphans.len() as int);
}

/// The purge scan keeps exactly the orphans above the finalized height.
pub proof fn lemma_keep_orphans_members(os: Seq<VoteV>, sl: u64, n: int)
    requires
        0 <= n <= os.len(),
    ensures
        forall|j: int|
            0 <= j < spec_keep_orphans(os, sl, n).len() ==> (#[trigger] spec_keep_orphans(
                os,
                sl,
                n,
            )[j]).block.sl > sl,
        forall|k: int|
            0 <= k < n && (#[trigger] os[k]).block.sl > sl ==> spec_keep_orphans(
                os,
                sl,
                n,
            ).contains(os[k]),
    decreases n,
{
    if n > 0 {
        lemma_keep_orphans_members(os, sl, n - 1);
        let prev = spec_keep_orphans(os, sl, n - 1);
        let cur = spec_keep_orphans(os, sl, n);
        assert forall|k: int|
            0 <= k < n && (#[trigger] os[k]).block.sl > sl implies cur.contains(os[k]) by {
            if k < n - 1 {
                let i = choose|i: int| 0 <= i < prev.len() && prev[i] == os[k];
                assert(cur[i] == os[k]);
            } else {
                assert(cur[cur.len() - 1] == os[k]);
            }
        }
    }
}

} // verus!
