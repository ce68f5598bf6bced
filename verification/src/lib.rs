//! Verified core of a Honey Badger BFT blockchain node: the token/HTLC ledger,
//! validator-set voting, MPC request registry, key-generation message ordering,
//! peer registries, gossip routing decisions and justification accounting.

pub mod assoc;
pub mod blocks;
pub mod byte_order;
pub mod config;
pub mod consensus;
pub mod crypto;
pub mod gossip;
pub mod htlc;
pub mod import_changes;
pub mod keygen;
pub mod keygen_peers;
pub mod keygen_results;
pub mod known_cache;
pub mod mpc;
pub mod mpc_messages;
pub mod node_peers;
pub mod peerid;
pub mod peers;
pub mod persistence;
pub mod routing;
pub mod signer;
pub mod storage_keys;
pub mod validators;
