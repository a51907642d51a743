//! Consensus graph core of a multi-threaded blockchain node: hashes, keys and
//! signatures, the block wire format, ledger entries, slots, and the graph
//! state with its cliques and finality rules.

pub mod base58;
pub mod bytes;
pub mod hash;
pub mod text;
pub mod signature;
pub mod error;
pub mod serialization;
pub mod slot;
pub mod time;
pub mod codec;
pub mod address;
pub mod block_id;
pub mod endorsement;
pub mod amount;
pub mod operation;
pub mod block;
pub mod id_set;
pub mod id_map;
pub mod config;
pub mod graph;
pub mod state;
pub mod links;
pub mod bootstrap;
pub mod worker;
pub mod cliques;
pub mod engine;
pub mod finality;
pub mod compat;
pub mod driver;
pub mod laws;
pub mod audit;
pub mod bootstrap_codec;
pub mod export;
pub mod datastore;
pub mod ledger_entry;
