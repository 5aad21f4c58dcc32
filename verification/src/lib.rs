//! A Streamlet-style consensus library: epoch-based leader election, block
//! proposal, quorum voting, notarization and finalization over a set of
//! tracked forks, with a canonical byte codec and persistence of the whole
//! node state.

pub mod block;
pub mod blockchain;
pub mod codec;
pub mod contract;
pub mod crypto;
pub mod hashing;
pub mod laws;
pub mod participant;
pub mod serial;
pub mod state;
pub mod store;
pub mod tx;
pub mod util;
pub mod vote;
