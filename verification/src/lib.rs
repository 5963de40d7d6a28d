//! TaoStorage: content-addressed data units (Yin / Yang / Qi), erasure-coded
//! shard groups, the Qi lifecycle decision rules, storage proofs, community
//! contracts, reputation and invitation bookkeeping, version history, search
//! and the query language, the tag index's key format and tag cloud,
//! backups, the tool server's replies, the browser node's store and the wire
//! framing used between nodes.

pub mod error;
pub mod unit;
pub mod qi;
pub mod rules;
pub mod digest;
pub mod clock;
pub mod entropy;
pub mod bytes;
pub mod erasure;
pub mod group;
pub mod sorting;
pub mod metadata;
pub mod reputation;
pub mod balance;
pub mod contract;
pub mod storage_challenge;
pub mod encrypt;
pub mod homomorphic;
pub mod zk_proof;
pub mod bls;
pub mod keyed;
pub mod rewards;
pub mod invite;
pub mod dht;
pub mod obfuscation;
pub mod protocol;
pub mod history;
pub mod invite_records;
pub mod search;
pub mod api;
pub mod backup;
pub mod mcp;
pub mod wasm_runtime;
pub mod query;
pub mod tag_keys;
pub mod browser;
pub mod paths;
