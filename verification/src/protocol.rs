use vstd::prelude::*;

verus! {

/// Messages spread over the gossip channel.
#[derive(Debug, Clone)]
pub enum TaoMessage {
    StoreRequest { request_id: u64, data: Vec<u8>, target_replicas: u8 },
    StoreResponse { request_id: u64, accepted: bool, node_id: String },
    RetrieveRequest { request_id: u64, content_hash: [u8; 32] },
    RetrieveResponse { request_id: u64, data: Option<Vec<u8>> },
    Ping { nonce: u64 },
    Pong { nonce: u64, healthy: bool },
    Challenge { challenge: Vec<u8> },
    ChallengeResponse { proof: Vec<u8> },
    QiGossip { data: Vec<u8> },
    /// A request for one shard of a content hash.
    NeedShard { content_hash: [u8; 32], shard_index: usize },
}

/// A point-to-point request.
#[derive(Debug, Clone)]
pub enum TaoRequest {
    /// Store a shard.
    Store(TaoStorePayload),
    /// Fetch a shard.
    Retrieve(TaoRetrievePayload),
}

/// A point-to-point response.
#[derive(Debug, Clone)]
pub enum TaoResponse {
    /// A shard was (or was not) stored.
    StoreAck(TaoStoreAck),
    /// A fetched shard.
    RetrieveData(TaoRetrieveData),
}

/// A shard to store.
#[derive(Debug, Clone)]
pub struct TaoStorePayload {
    pub content_hash: [u8; 32],
    pub shard_index: usize,
    pub shard_data: Vec<u8>,
}

/// The answer to a store request.
#[derive(Debug, Clone)]
pub struct TaoStoreAck {
    pub accepted: bool,
    pub stored_hash: String,
}

/// A shard to fetch.
#[derive(Debug, Clone)]
pub struct TaoRetrievePayload {
    pub content_hash: [u8; 32],
    pub shard_index: usize,
}

/// The answer to a fetch request.
#[derive(Debug, Clone)]
pub struct TaoRetrieveData {
    pub found: bool,
    pub shard_data: Vec<u8>,
}

/// Name of the point-to-point storage protocol.
pub const PROTOCOL_NAME: &'static str = "/tao/storage/1.0.0";

} // verus!
