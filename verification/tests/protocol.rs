//! End-to-end protocol scenarios: proposing, voting, notarization,
//! finalization, orphan votes and leader election.

use streamlet::block::{Block, BlockProposal, encode_header, encode_proposal, proposal_eq_block};
use streamlet::crypto::{PublicKey, SecretKey};
use streamlet::participant::Participant;
use streamlet::state::State;
use streamlet::tx::Tx;
use streamlet::util::Timestamp;
use streamlet::vote::Vote;

fn genesis_block() -> Block {
    let mut b = Block::new(0, 0, Vec::new(), Vec::new(), Vec::new(), Vec::new(), Vec::new());
    b.metadata.sm.notarized = true;
    b.metadata.sm.finalized = true;
    b
}

/// Four nodes with each other's public keys registered on every state.
fn four_nodes() -> Vec<State> {
    let mut states: Vec<State> = Vec::new();
    for id in 0..4u64 {
        states.push(State::new(id, Timestamp(0), genesis_block()));
    }
    let participants: Vec<Participant> =
        (0..4).map(|i| Participant::new(i as u64, states[i].public_key, 0)).collect();
    for st in states.iter_mut() {
        for p in participants.iter() {
            assert!(st.append_participant(*p));
        }
        st.zero_participants_check();
    }
    states
}

fn make_proposal(proposer: &State, st: u64, sl: u64, txs: Vec<Tx>) -> BlockProposal {
    let mut encoded: Vec<u8> = Vec::new();
    encode_header(st, sl, &txs, &mut encoded);
    let signature = proposer.secret_key.sign(&encoded);
    BlockProposal::new(proposer.public_key, signature, proposer.id, st, sl, txs)
}

fn make_vote(voter: &State, proposal: &BlockProposal) -> Vote {
    let mut encoded: Vec<u8> = Vec::new();
    encode_proposal(proposal, &mut encoded);
    let signature = voter.secret_key.sign(&encoded);
    Vote::new(voter.public_key, signature, proposal.deep_clone(), voter.id)
}

#[test]
fn epoch_clock_basics() {
    let st = State::new(9, Timestamp(1000), genesis_block());
    assert_eq!(st.current_epoch_at(1000), 0);
    assert_eq!(st.current_epoch_at(1119), 0);
    assert_eq!(st.current_epoch_at(1120), 1);
    assert_eq!(st.current_epoch_at(1360), 3);
    // Clock before genesis clamps to epoch zero.
    assert_eq!(st.current_epoch_at(500), 0);
    assert_eq!(st.seconds_until_next_epoch_at(1000), 120);
    assert_eq!(st.seconds_until_next_epoch_at(1119), 1);
    assert_eq!(st.seconds_until_next_epoch_at(1120), 120);
}

#[test]
fn leader_election_is_deterministic() {
    let mut states = four_nodes();
    let now = 120;
    let leaders: Vec<u64> = states.iter_mut().map(|s| s.get_epoch_leader_at(now)).collect();
    assert!(leaders.iter().all(|l| *l == leaders[0]));
    assert!(leaders[0] < 4);
    // A different epoch is allowed to elect a different leader, but the
    // choice again agrees across nodes.
    let later: Vec<u64> = states.iter_mut().map(|s| s.get_epoch_leader_at(360)).collect();
    assert!(later.iter().all(|l| *l == later[0]));
}

#[test]
fn append_tx_deduplicates() {
    let mut st = State::new(0, Timestamp(0), genesis_block());
    let tx = Tx::new(vec![1, 2, 3]);
    assert!(st.append_tx(tx.clone()));
    assert!(!st.append_tx(tx.clone()));
    assert_eq!(st.unconfirmed_txs.len(), 1);
}

#[test]
fn append_participant_deduplicates() {
    let mut st = State::new(0, Timestamp(0), genesis_block());
    let p = Participant::new(7, PublicKey { key: 42 }, 0);
    assert!(st.append_participant(p));
    assert!(!st.append_participant(p));
    assert_eq!(st.pending_participants.len(), 1);
}

#[test]
fn proposal_from_wrong_leader_is_rejected() {
    let mut states = four_nodes();
    let now = 120;
    let leader = states[0].get_epoch_leader_at(now);
    let wrong = ((leader + 1) % 4) as usize;
    let st_hash = states[wrong].canonical_blockchain.blocks[0].hash_value();
    let prop = make_proposal(&states[wrong], st_hash, 1, Vec::new());
    let r = states[0].receive_proposed_block_at(&prop, false, now);
    assert!(matches!(r, Err(streamlet::state::ConsensusError::InvalidLeader)));
    assert_eq!(states[0].node_blockchains.len(), 0);
}

#[test]
fn proposal_with_bad_signature_is_rejected() {
    let mut states = four_nodes();
    let now = 120;
    let leader = states[0].get_epoch_leader_at(now) as usize;
    let st_hash = states[0].canonical_blockchain.blocks[0].hash_value();
    let mut prop = make_proposal(&states[leader], st_hash, 1, Vec::new());
    prop.signature.tag = prop.signature.tag.wrapping_add(1);
    let r = states[0].receive_proposed_block_at(&prop, false, now);
    assert!(matches!(r, Err(streamlet::state::ConsensusError::InvalidSignature)));
    assert_eq!(states[0].node_blockchains.len(), 0);
}

#[test]
fn vote_with_bad_signature_is_rejected() {
    let mut states = four_nodes();
    let st_hash = states[0].canonical_blockchain.blocks[0].hash_value();
    let prop = make_proposal(&states[0], st_hash, 1, Vec::new());
    let mut vote = make_vote(&states[1], &prop);
    vote.vote.tag = vote.vote.tag.wrapping_add(1);
    let r = states[0].receive_vote(&vote);
    assert_eq!(r, Err(streamlet::state::ConsensusError::InvalidSignature));
}

#[test]
fn proposal_extending_nothing_is_dropped() {
    let mut states = four_nodes();
    let now = 120;
    let leader = states[0].get_epoch_leader_at(now) as usize;
    // A parent hash that matches no tracked tail.
    let prop = make_proposal(&states[leader], 0xdeadbeef, 1, Vec::new());
    let r = states[0].receive_proposed_block_at(&prop, false, now);
    assert!(matches!(r, Ok(None)));
    assert_eq!(states[0].node_blockchains.len(), 0);
}

/// The full happy path: a proposal at slot 1 notarizes with three of
/// four votes (threshold two), and after slots 2 and 3 notarize in turn
/// the first two blocks finalize into the canonical chain.
#[test]
fn propose_vote_notarize_finalize() {
    let mut states = four_nodes();
    let tx1 = Tx::new(vec![0xaa]);

    // Epoch 1: the leader proposes block A carrying tx1.
    let now1 = 120;
    let leader1 = states[0].get_epoch_leader_at(now1) as usize;
    for st in states.iter_mut() {
        st.append_tx(tx1.clone());
    }
    let prop_a = states[leader1].propose_block_at(now1).unwrap().unwrap();
    assert_eq!(prop_a.sl, 1);
    assert_eq!(prop_a.txs.len(), 1);

    // Every node receives A and votes for it.
    let mut votes_a: Vec<Vote> = Vec::new();
    for (i, st) in states.iter_mut().enumerate() {
        let r = st.receive_proposed_block_at(&prop_a, i == leader1, now1).unwrap();
        votes_a.push(r.unwrap());
    }
    // Three distinct votes: one more than the threshold of two.
    for st in states.iter_mut() {
        assert!(st.receive_vote(&votes_a[0]).unwrap());
        assert!(!st.node_blockchains[0].blocks[0].metadata.sm.notarized);
        assert!(st.receive_vote(&votes_a[1]).unwrap());
        // Two votes equal the threshold exactly: not notarized yet.
        assert!(!st.node_blockchains[0].blocks[0].metadata.sm.notarized);
        assert!(st.receive_vote(&votes_a[2]).unwrap());
        // Three votes exceed it: notarized.
        assert!(st.node_blockchains[0].blocks[0].metadata.sm.notarized);
        // A redundant vote changes nothing.
        assert!(!st.receive_vote(&votes_a[2]).unwrap());
    }
    // No finalization yet: the run of notarized blocks is too short.
    assert_eq!(states[0].canonical_blockchain.blocks.len(), 1);

    // Epoch 2: block B extends A.
    let now2 = 240;
    let leader2 = states[0].get_epoch_leader_at(now2) as usize;
    let hash_a = states[0].node_blockchains[0].blocks[0].hash_value();
    let prop_b = make_proposal(&states[leader2], hash_a, 2, Vec::new());
    let mut votes_b: Vec<Vote> = Vec::new();
    for (i, st) in states.iter_mut().enumerate() {
        let r = st.receive_proposed_block_at(&prop_b, i == leader2, now2).unwrap();
        votes_b.push(r.unwrap());
    }
    for st in states.iter_mut() {
        for v in votes_b.iter().take(3) {
            st.receive_vote(v).unwrap();
        }
        assert!(st.node_blockchains[0].blocks[1].metadata.sm.notarized);
    }
    assert_eq!(states[0].canonical_blockchain.blocks.len(), 1);

    // Epoch 3: block C extends B; its notarization finalizes A and B.
    let now3 = 360;
    let leader3 = states[0].get_epoch_leader_at(now3) as usize;
    let hash_b = states[0].node_blockchains[0].blocks[1].hash_value();
    let prop_c = make_proposal(&states[leader3], hash_b, 3, Vec::new());
    let mut votes_c: Vec<Vote> = Vec::new();
    for (i, st) in states.iter_mut().enumerate() {
        let r = st.receive_proposed_block_at(&prop_c, i == leader3, now3).unwrap();
        votes_c.push(r.unwrap());
    }
    for st in states.iter_mut() {
        for v in votes_c.iter().take(3) {
            st.receive_vote(v).unwrap();
        }
        // Run of three notarized blocks: all but the last commit.
        assert_eq!(st.canonical_blockchain.blocks.len(), 3);
        assert!(st.canonical_blockchain.blocks[1].metadata.sm.finalized);
        assert!(st.canonical_blockchain.blocks[2].metadata.sm.finalized);
        assert_eq!(st.canonical_blockchain.blocks[1].sl, 1);
        assert_eq!(st.canonical_blockchain.blocks[2].sl, 2);
        // The source fork keeps only the unfinalized remainder, C.
        assert_eq!(st.node_blockchains.len(), 1);
        assert_eq!(st.node_blockchains[0].blocks.len(), 1);
        assert_eq!(st.node_blockchains[0].blocks[0].sl, 3);
        // tx1 was committed with A and left the unconfirmed pool.
        assert_eq!(st.unconfirmed_txs.len(), 0);
    }
}

/// A vote that arrives before its block is buffered, replayed when the
/// block arrives, and counted toward its quorum.
#[test]
fn orphan_vote_is_buffered_and_replayed() {
    let mut states = four_nodes();
    let now = 120;
    let leader = states[0].get_epoch_leader_at(now) as usize;
    let genesis_hash = states[0].canonical_blockchain.blocks[0].hash_value();
    let prop_b = make_proposal(&states[leader], genesis_hash, 1, Vec::new());

    // Node 1's vote reaches node 0 before the proposal itself.
    let early_vote = make_vote(&states[1], &prop_b);
    let changed = states[0].receive_vote(&early_vote).unwrap();
    assert!(!changed);
    assert_eq!(states[0].orphan_votes.len(), 1);

    // A duplicate orphan is not buffered twice.
    let early_again = make_vote(&states[1], &prop_b);
    assert!(!states[0].receive_vote(&early_again).unwrap());
    assert_eq!(states[0].orphan_votes.len(), 1);

    // When the proposal arrives, the buffered vote is attached.
    let r = states[0].receive_proposed_block_at(&prop_b, false, now).unwrap();
    assert!(r.is_some());
    assert_eq!(states[0].orphan_votes.len(), 0);
    assert_eq!(states[0].node_blockchains[0].blocks[0].metadata.sm.votes.len(), 1);
    assert!(proposal_eq_block(&prop_b, &states[0].node_blockchains[0].blocks[0]));

    // Two more votes reach the quorum of three, counting the orphan.
    let v2 = make_vote(&states[2], &prop_b);
    let v3 = make_vote(&states[3], &prop_b);
    assert!(states[0].receive_vote(&v2).unwrap());
    assert!(!states[0].node_blockchains[0].blocks[0].metadata.sm.notarized);
    assert!(states[0].receive_vote(&v3).unwrap());
    assert!(states[0].node_blockchains[0].blocks[0].metadata.sm.notarized);
}

#[test]
fn refresh_evicts_inactive_participants() {
    let mut st = State::new(0, Timestamp(0), genesis_block());
    let keep = Participant {
        id: 1,
        public_key: PublicKey { key: 1 },
        joined: 0,
        voted: Some(2),
    };
    let stale = Participant {
        id: 2,
        public_key: PublicKey { key: 2 },
        joined: 0,
        voted: Some(0),
    };
    let fresh_joiner = Participant {
        id: 3,
        public_key: PublicKey { key: 3 },
        joined: 3,
        voted: None,
    };
    let old_joiner = Participant {
        id: 4,
        public_key: PublicKey { key: 4 },
        joined: 0,
        voted: None,
    };
    for p in [keep, stale, fresh_joiner, old_joiner] {
        st.append_participant(p);
    }
    // Epoch 3: the previous epoch is 2.
    st.refresh_participants_at(3 * 120);
    let ids: Vec<u64> = st.participants.iter().map(|p| p.id).collect();
    assert_eq!(ids, vec![1, 3]);
    assert_eq!(st.pending_participants.len(), 0);
}

#[test]
fn get_unproposed_txs_skips_fork_contents() {
    let mut states = four_nodes();
    let now = 120;
    let leader = states[0].get_epoch_leader_at(now) as usize;
    let tx_in_block = Tx::new(vec![1]);
    let tx_free = Tx::new(vec![2]);
    states[0].append_tx(tx_in_block.clone());
    let genesis_hash = states[0].canonical_blockchain.blocks[0].hash_value();
    let prop = make_proposal(&states[leader], genesis_hash, 1, vec![tx_in_block.clone()]);
    states[0].receive_proposed_block_at(&prop, false, now).unwrap();
    states[0].append_tx(tx_free.clone());
    let unproposed = states[0].get_unproposed_txs();
    assert_eq!(unproposed.len(), 1);
    assert_eq!(unproposed[0].payload, vec![2]);
}

#[test]
fn hashing_matches_reference_values() {
    assert_eq!(streamlet::hashing::hash_u64(0), 0xa8c7f832281a39c5);
    assert_eq!(streamlet::hashing::hash_u64(1), 0x89cd31291d2aefa4);
}

#[test]
fn signature_verifies_and_rejects_tampering() {
    let sk = SecretKey { key: 0x1234 };
    let pk = PublicKey::from_secret(sk);
    let msg = vec![1, 2, 3];
    let sig = sk.sign(&msg);
    assert!(sig.verify(pk, &msg));
    let other = vec![1, 2, 4];
    assert!(!sig.verify(pk, &other));
    let wrong_pk = PublicKey::from_secret(SecretKey { key: 0x9999 });
    assert!(!sig.verify(wrong_pk, &msg));
}
