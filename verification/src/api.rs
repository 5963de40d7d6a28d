use vstd::prelude::*;
use crate::digest::spec_bs58;
use crate::search::{spec_utf8_lossy, tag_texts, utf8_lossy};
use crate::unit::{DataUnit, Hexagram};

verus! {

/// Results a search returns when no limit is given.
pub const DEFAULT_SEARCH_LIMIT: usize = 20;

/// Body of a write request.
#[derive(Debug, Clone)]
pub struct PutRequest {
    pub key: String,
    pub value: String,
    pub tags: Vec<String>,
}

/// Answer to a write: the new unit's id and its key.
#[derive(Debug, Clone)]
pub struct PutResponse {
    pub id: String,
    pub key: String,
}

/// A stored unit as returned to clients.
#[derive(Debug, Clone)]
pub struct GetResponse {
    pub id: String,
    pub key: String,
    pub value: String,
    pub tags: Vec<String>,
    pub heat: u8,
    pub hexagram: String,
    pub created_at: u64,
}

/// Body of a delete request: by key, or by id when one is given.
#[derive(Debug, Clone)]
pub struct DeleteRequest {
    pub key: String,
    pub id: Option<String>,
}

/// Answer to a delete: how many units went.
#[derive(Debug, Clone)]
pub struct DeleteResponse {
    pub deleted: usize,
}

/// Query of a search request.
#[derive(Debug, Clone)]
pub struct SearchParams {
    pub q: String,
    pub limit: usize,
}

/// Query of a by-tag request.
#[derive(Debug, Clone)]
pub struct TagQuery {
    pub tags: Option<Vec<String>>,
    pub all_mode: bool,
}

impl Default for TagQuery {
    fn default() -> (q: Self)
        ensures
            q.tags is None,
            !q.all_mode,
    {
        Self { tags: None, all_mode: false }
    }
}

/// Answer to a health check.
#[derive(Debug, Clone)]
pub struct HealthResponse {
    pub status: String,
    pub node_id: String,
    pub api_port: u16,
    pub p2p: String,
    pub objects: usize,
    pub peers: usize,
    pub uptime_secs: u64,
    pub version: String,
}

/// State of the background service.
#[derive(Debug, Clone)]
pub struct StatusResponse {
    pub running: bool,
    pub pid: Option<u32>,
    pub node_id: Option<String>,
    pub data_dir: Option<String>,
    pub api_port: Option<u16>,
    pub peers: Option<usize>,
    pub objects: Option<usize>,
    pub uptime_secs: Option<u64>,
}

/// The search limit used when a request gives none.
pub fn default_limit() -> (n: usize)
    ensures
        n == DEFAULT_SEARCH_LIMIT,
{
    DEFAULT_SEARCH_LIMIT
}

/// The name of a hexagram, as its variant is written.
pub open spec fn hexagram_name(h: Hexagram) -> Seq<char> {
    match h {
        Hexagram::Zhun => "Zhun"@,
        Hexagram::Jiji => "Jiji"@,
        Hexagram::Tai => "Tai"@,
        Hexagram::Pi => "Pi"@,
        Hexagram::Bo => "Bo"@,
        Hexagram::Kun => "Kun"@,
    }
}

/// The name of a hexagram.
pub fn hexagram_label(h: Hexagram) -> (s: &'static str)
    ensures
        s@ == hexagram_name(h),
{
    match h {
        Hexagram::Zhun => "Zhun",
        Hexagram::Jiji => "Jiji",
        Hexagram::Tai => "Tai",
        Hexagram::Pi => "Pi",
        Hexagram::Bo => "Bo",
        Hexagram::Kun => "Kun",
    }
}

/// The client view of a unit: its id, key, payload as text, tags, heat,
/// hexagram name and creation time.
pub fn to_resp(u: DataUnit) -> (r: GetResponse)
    ensures
        r.id@ == spec_bs58(u.yin.content_hash@),
        r.key@ == u.yang.name@,
        r.value@ == spec_utf8_lossy(u.yin.payload@),
        tag_texts(r.tags@) == tag_texts(u.yang.tags@),
        r.heat == u.yang.heat,
        r.hexagram@ == hexagram_name(u.qi.hexagram),
        r.created_at == u.yang.created_at,
{
    let id = u.id();
    let value = utf8_lossy(u.yin.payload.as_slice());
    let hexagram = String::from_str(hexagram_label(u.qi.hexagram));
    GetResponse {
        id,
        key: u.yang.name,
        value,
        tags: u.yang.tags,
        heat: u.yang.heat,
        hexagram,
        created_at: u.yang.created_at,
    }
}

} // verus!
