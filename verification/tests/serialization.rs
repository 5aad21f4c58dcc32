//! The byte codec round-trips on real states, and the persistence
//! adapter stores and restores them through a real key-value store.

use streamlet::block::{Block, encode_header, encode_proposal, BlockProposal};
use streamlet::contract::{MoneyFunction, MoneyTransferUpdate, encode_transfer_update, decode_update, deserialize};
use streamlet::participant::Participant;
use streamlet::serial::{encode_state, decode_state};
use streamlet::state::{State, ConsensusError};
use streamlet::tx::Tx;
use streamlet::util::Timestamp;
use streamlet::vote::Vote;

fn genesis_block() -> Block {
    let mut b = Block::new(0, 0, Vec::new(), Vec::new(), Vec::new(), Vec::new(), Vec::new());
    b.metadata.sm.notarized = true;
    b.metadata.sm.finalized = true;
    b
}

fn make_proposal(proposer: &State, st: u64, sl: u64, txs: Vec<Tx>) -> BlockProposal {
    let mut encoded: Vec<u8> = Vec::new();
    encode_header(st, sl, &txs, &mut encoded);
    let signature = proposer.secret_key.sign(&encoded);
    BlockProposal::new(proposer.public_key, signature, proposer.id, st, sl, txs)
}

fn make_vote(voter: &State, proposal: &BlockProposal) -> Vote {
    let mut encoded: Vec<u8> = Vec::new();
    encode_proposal(proposal, &mut encoded);
    let signature = voter.secret_key.sign(&encoded);
    Vote::new(voter.public_key, signature, proposal.deep_clone(), voter.id)
}

/// A state with a fork, a pool, an orphan vote and participants, so the
/// round trip covers every collection.
fn busy_state() -> State {
    let mut st = State::new(5, Timestamp(1234), genesis_block());
    for i in 0..3u64 {
        st.append_participant(Participant::new(i, st.public_key, 0));
    }
    st.zero_participants_check();
    st.append_tx(Tx::new(vec![9, 9, 9]));
    let genesis_hash = st.canonical_blockchain.blocks[0].hash_value();
    let prop = make_proposal(&st, genesis_hash, 1, vec![Tx::new(vec![7])]);
    st.vote_block(&prop, true).unwrap();
    // An orphan vote for a block nobody has seen.
    let unseen = make_proposal(&st, 0x1111, 9, Vec::new());
    let orphan = make_vote(&st, &unseen);
    st.receive_vote(&orphan).unwrap();
    st
}

fn assert_states_equal(a: &State, b: &State) {
    assert_eq!(a.id, b.id);
    assert_eq!(a.genesis_time, b.genesis_time);
    assert_eq!(a.secret_key, b.secret_key);
    assert_eq!(a.public_key, b.public_key);
    assert_eq!(a.canonical_blockchain.blocks.len(), b.canonical_blockchain.blocks.len());
    assert_eq!(a.node_blockchains.len(), b.node_blockchains.len());
    for (ca, cb) in a.node_blockchains.iter().zip(b.node_blockchains.iter()) {
        assert_eq!(ca.blocks.len(), cb.blocks.len());
        for (ba, bb) in ca.blocks.iter().zip(cb.blocks.iter()) {
            assert_eq!(ba.st, bb.st);
            assert_eq!(ba.sl, bb.sl);
            assert_eq!(ba.metadata.sm.notarized, bb.metadata.sm.notarized);
            assert_eq!(ba.metadata.sm.finalized, bb.metadata.sm.finalized);
            assert_eq!(ba.metadata.sm.votes.len(), bb.metadata.sm.votes.len());
            for (va, vb) in ba.metadata.sm.votes.iter().zip(bb.metadata.sm.votes.iter()) {
                assert!(va.same_as(vb));
            }
            for (ta, tb) in ba.txs.iter().zip(bb.txs.iter()) {
                assert!(ta.same_as(tb));
            }
        }
    }
    assert_eq!(a.unconfirmed_txs.len(), b.unconfirmed_txs.len());
    for (ta, tb) in a.unconfirmed_txs.iter().zip(b.unconfirmed_txs.iter()) {
        assert!(ta.same_as(tb));
    }
    assert_eq!(a.orphan_votes.len(), b.orphan_votes.len());
    for (va, vb) in a.orphan_votes.iter().zip(b.orphan_votes.iter()) {
        assert!(va.same_as(vb));
    }
    assert_eq!(a.participants.len(), b.participants.len());
    for (pa, pb) in a.participants.iter().zip(b.participants.iter()) {
        assert!(pa.same_as(pb));
    }
    assert_eq!(a.pending_participants.len(), b.pending_participants.len());
}

#[test]
fn state_codec_round_trips() {
    let st = busy_state();
    let mut bytes: Vec<u8> = Vec::new();
    encode_state(&st, &mut bytes);
    let (decoded, consumed) = decode_state(&bytes, 0).expect("state decodes");
    assert_eq!(consumed, bytes.len());
    assert_states_equal(&st, &decoded);
}

#[test]
fn truncated_state_bytes_are_rejected() {
    let st = busy_state();
    let mut bytes: Vec<u8> = Vec::new();
    encode_state(&st, &mut bytes);
    bytes.truncate(bytes.len() - 1);
    assert!(decode_state(&bytes, 0).is_none());
}

#[test]
fn save_and_load_round_trips_through_store() {
    let db = sled::Config::new().temporary(true).open().expect("store opens");
    let st = busy_state();
    st.save(&db).expect("state saves");
    let loaded = State::load_or_create(st.genesis_time.0, st.id, &db).expect("state loads");
    assert_states_equal(&st, &loaded);
}

#[test]
fn load_or_create_synthesizes_genesis() {
    let db = sled::Config::new().temporary(true).open().expect("store opens");
    // An identifier nothing was stored under.
    let st = State::load_or_create(777, 0xfeed, &db).expect("fresh state");
    assert_eq!(st.id, 0xfeed);
    assert_eq!(st.genesis_time, Timestamp(777));
    assert_eq!(st.canonical_blockchain.blocks.len(), 1);
    assert!(st.canonical_blockchain.blocks[0].metadata.sm.notarized);
    assert!(st.canonical_blockchain.blocks[0].metadata.sm.finalized);
    assert_eq!(st.canonical_blockchain.blocks[0].sl, 0);
    assert!(st.unconfirmed_txs.is_empty());
    assert!(st.participants.is_empty());
    // The fresh state was persisted: a second load returns it.
    let again = State::load_or_create(777, 0xfeed, &db).expect("reloaded state");
    assert_eq!(again.public_key, st.public_key);
}

#[test]
fn corrupt_store_bytes_report_decode_failure() {
    let db = sled::Config::new().temporary(true).open().expect("store opens");
    let tree = db.open_tree(b"_state").expect("tree opens");
    let id: u64 = 0xbad;
    tree.insert(id.to_le_bytes().to_vec(), vec![1, 2, 3]).expect("insert");
    let r = State::load_or_create(0, id, &db);
    assert!(matches!(r, Err(ConsensusError::DecodeFailure)));
}

#[test]
fn money_function_selector_round_trips() {
    assert_eq!(MoneyFunction::from_byte(0), Some(MoneyFunction::Transfer));
    assert_eq!(MoneyFunction::from_byte(1), None);
    assert_eq!(MoneyFunction::from_byte(0xff), None);
    assert_eq!(MoneyFunction::Transfer.to_byte(), 0);
    let update_data = encode_transfer_update(&MoneyTransferUpdate {});
    assert_eq!(decode_update(&update_data), Some(MoneyFunction::Transfer));
    assert_eq!(decode_update(&Vec::new()), None);
}

#[test]
fn instruction_payload_parses() {
    // Length-prefixed payload: 3 bytes.
    let mut input: Vec<u8> = vec![3, 0, 0, 0, 0, 0, 0, 0];
    input.extend_from_slice(&[0xca, 0xfe, 0x42]);
    assert_eq!(deserialize(&input), Some(vec![0xca, 0xfe, 0x42]));
    // A length that overruns the buffer is rejected.
    let short: Vec<u8> = vec![9, 0, 0, 0, 0, 0, 0, 0, 1];
    assert_eq!(deserialize(&short), None);
}
