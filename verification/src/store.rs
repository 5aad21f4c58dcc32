//! Persistence of the whole consensus state against an external
//! key-value store, keyed by the node's identifier.

use vstd::prelude::*;
use crate::block::Block;
use crate::serial::{encode_state, decode_state, enc_state, sdec_state};
use crate::state::{State, ConsensusError, wf};
use crate::codec::{enc_u64, encode_u64};
use crate::tx::Tx;
use crate::util::Timestamp;

verus! {

#[verifier::external_type_specification]
#[verifier::external_body]
pub struct ExSledDb(sled::Db);

#[verifier::external_type_specification]
#[verifier::external_body]
pub struct ExSledTree(sled::Tree);

/// Relies on `sled::Db::open_tree`: opens (or creates) the named keyspace.
/// The result depends on the store on disk, so nothing is promised of it.
#[verifier::external_body]
fn store_open(db: &sled::Db, name: &Vec<u8>) -> Option<sled::Tree> {
    match db.open_tree(name) {
        Ok(tree) => Some(tree),
        Err(_) => None,
    }
}

/// Relies on `sled::Tree::insert`: upserts the value under the key.
/// Reports success; the store's contents are not modelled.
#[verifier::external_body]
fn store_insert(tree: &sled::Tree, key: &Vec<u8>, value: &Vec<u8>) -> bool {
    tree.insert(&key[..], &value[..]).is_ok()
}

/// Relies on `sled::Tree::get`: looks the key up.  The outer `None`
/// reports a store error; the value read depends on what is on disk, so
/// nothing is promised of it.
#[verifier::external_body]
fn store_get(tree: &sled::Tree, key: &Vec<u8>) -> Option<Option<Vec<u8>>> {
    match tree.get(&key[..]) {
        Ok(Some(v)) => Some(Some(v.to_vec())),
        Ok(None) => Some(None),
        Err(_) => None,
    }
}

/// The keyspace the consensus state lives in.
fn state_tree_name() -> (r: Vec<u8>) {
    let mut name: Vec<u8> = Vec::new();
    name.push(0x5f);
    name.push(0x73);
    name.push(0x74);
    name.push(0x61);
    name.push(0x74);
    name.push(0x65);
    name
}

impl State {
    /// Serializes this state and upserts it into the store under the
    /// node's identifier.  A store refusal is reported, never swallowed.
    pub fn save(&self, db: &sled::Db) -> (r: Result<(), ConsensusError>)
        ensures
            r is Err ==> r == Err::<(), ConsensusError>(ConsensusError::StoreFailure),
    {
        let tree = match store_open(db, &state_tree_name()) {
            Some(tree) => tree,
            None => {
                return Err(ConsensusError::StoreFailure);
            },
        };
        let mut serialized: Vec<u8> = Vec::new();
        encode_state(self, &mut serialized);
        let mut key: Vec<u8> = Vec::new();
        encode_u64(self.id, &mut key);
        if store_insert(&tree, &key, &serialized) {
            Ok(())
        } else {
            Err(ConsensusError::StoreFailure)
        }
    }

    /// Loads the state stored under `id`, or synthesizes and persists a
    /// genesis state when none is stored.  Whatever comes back decodes
    /// from bytes the codec accepts, or is the fresh genesis state.
    pub fn load_or_create(genesis: i64, id: u64, db: &sled::Db) -> (r: Result<
        State,
        ConsensusError,
    >)
        ensures
            match r {
                Ok(st) => (exists|bytes: Seq<u8>, c: int|
                    sdec_state(bytes) == Some((st@, c))) || (st@.id == id && st@.genesis_time
                    == genesis && wf(st@)),
                Err(e) => e == ConsensusError::StoreFailure || e == ConsensusError::DecodeFailure,
            },
    {
        let tree = match store_open(db, &state_tree_name()) {
            Some(tree) => tree,
            None => {
                return Err(ConsensusError::StoreFailure);
            },
        };
        let mut key: Vec<u8> = Vec::new();
        encode_u64(id, &mut key);
        match store_get(&tree, &key) {
            None => Err(ConsensusError::StoreFailure),
            Some(Some(found)) => {
                match decode_state(&found, 0) {
                    Some((st, _consumed)) => {
                        proof {
                            assert(found@.skip(0) =~= found@);
                        }
                        Ok(st)
                    },
                    None => Err(ConsensusError::DecodeFailure),
                }
            },
            Some(None) => Self::reset(genesis, id, db),
        }
    }

    /// Builds a fresh genesis state — an empty, notarized and finalized
    /// genesis block at slot zero — persists and returns it.
    pub fn reset(genesis: i64, id: u64, db: &sled::Db) -> (r: Result<State, ConsensusError>)
        ensures
            match r {
                Ok(st) => st@.id == id && st@.genesis_time == genesis && wf(st@)
                    && st@.canonical.len() == 1 && st@.canonical[0].notarized
                    && st@.canonical[0].finalized && st@.canonical[0].sl == 0
                    && st@.canonical[0].txs.len() == 0 && st@.forks.len() == 0 && st@.pool.len()
                    == 0 && st@.orphans.len() == 0 && st@.participants.len() == 0
                    && st@.pending.len() == 0,
                Err(e) => e == ConsensusError::StoreFailure,
            },
    {
        let txs: Vec<Tx> = Vec::new();
        let mut genesis_block = Block::new(
            0,
            0,
            txs,
            Vec::new(),
            Vec::new(),
            Vec::new(),
            Vec::new(),
        );
        genesis_block.metadata.sm.notarized = true;
        genesis_block.metadata.sm.finalized = true;
        let genesis_time = Timestamp(genesis);
        let state = Self::new(id, genesis_time, genesis_block);
        match state.save(db) {
            Ok(()) => Ok(state),
            Err(e) => Err(e),
        }
    }
}

} // verus!
