use vstd::prelude::*;
use crate::clock::now_secs;
use crate::digest::{bs58_encode, sha256, spec_bs58, spec_sha256};
use crate::bytes::bytes_equal;

verus! {

/// Lifecycle stage of a data unit (a reduced mapping of the hexagrams).
#[derive(Debug, Clone, Copy, PartialEq, Eq, Structural)]
pub enum Hexagram {
    /// Just written.
    Zhun,
    /// Standard protection reached.
    Jiji,
    /// Hot data, frequently accessed.
    Tai,
    /// Cold data, compressed.
    Pi,
    /// Redundancy too low, urgent rebuild.
    Bo,
    /// Archived.
    Kun,
}

/// Qi: the dynamic state that drives lifecycle decisions.
#[derive(Debug, Clone)]
pub struct Qi {
    pub hexagram: Hexagram,
    pub replica_count: u8,
    pub target_replicas: u8,
    pub ec_data_shards: u8,
    pub ec_parity_shards: u8,
    pub last_health_check: u64,
    pub owner: [u8; 32],
}

/// Yin: the payload, addressed by its content hash.
#[derive(Debug, Clone)]
pub struct Yin {
    pub payload: Vec<u8>,
    pub content_hash: [u8; 32],
}

/// Yang: metadata, index labels and access heat.
#[derive(Debug, Clone)]
pub struct Yang {
    pub name: String,
    pub created_at: u64,
    pub last_accessed: u64,
    pub access_count: u64,
    /// 0 = cold, 255 = hot.
    pub heat: u8,
    pub tags: Vec<String>,
}

/// A data unit: payload (Yin), metadata (Yang) and lifecycle state (Qi).
#[derive(Debug, Clone)]
pub struct DataUnit {
    pub yin: Yin,
    pub yang: Yang,
    pub qi: Qi,
}

/// `a - b`, or 0 when `b` exceeds `a`.
pub open spec fn saturating_sub(a: int, b: int) -> int {
    if a >= b {
        a - b
    } else {
        0
    }
}

pub open spec fn min_int(a: int, b: int) -> int {
    if a <= b {
        a
    } else {
        b
    }
}

/// Heat after an access: the access count (capped at 255) less one per full
/// hour since creation (the age capped at 255), never below zero.
pub open spec fn spec_heat(access_count: u64, created_at: u64, now: u64) -> u8 {
    saturating_sub(
        min_int(access_count as int, 255),
        min_int(saturating_sub(now as int, created_at as int) / 3600, 255),
    ) as u8
}

impl DataUnit {
    /// The freshly written unit: the given payload, name and owner, addressed by
    /// the SHA-256 of the payload, all clocks at `now`, no accesses, no tags, at
    /// the Zhun stage with one of three target replicas and a 6+2 erasure code.
    pub open spec fn is_fresh(&self, payload: Seq<u8>, name: Seq<char>, owner: Seq<u8>, now: u64) -> bool {
        &&& self.yin.payload@ == payload
        &&& self.yin.content_hash@ == spec_sha256(payload)
        &&& self.yang.name@ == name
        &&& self.yang.created_at == now
        &&& self.yang.last_accessed == now
        &&& self.yang.access_count == 0
        &&& self.yang.heat == 0
        &&& self.yang.tags@.len() == 0
        &&& self.qi.hexagram == Hexagram::Zhun
        &&& self.qi.replica_count == 1
        &&& self.qi.target_replicas == 3
        &&& self.qi.ec_data_shards == 6
        &&& self.qi.ec_parity_shards == 2
        &&& self.qi.last_health_check == now
        &&& self.qi.owner@ == owner
    }

    /// Creates a new unit from raw data, stamped with the current time.
    pub fn new(payload: Vec<u8>, name: String, owner: [u8; 32]) -> (unit: Self)
        ensures
            exists|now: u64| unit.is_fresh(payload@, name@, owner@, now),
    {
        let now = now_secs();
        Self::new_at(payload, name, owner, now)
    }

    /// Creates a new unit from raw data, stamped with the time `now`.
    pub fn new_at(payload: Vec<u8>, name: String, owner: [u8; 32], now: u64) -> (unit: Self)
        ensures
            unit.is_fresh(payload@, name@, owner@, now),
    {
        let content_hash = sha256(payload.as_slice());
        Self {
            yin: Yin { payload, content_hash },
            yang: Yang {
                name,
                created_at: now,
                last_accessed: now,
                access_count: 0,
                heat: 0,
                tags: Vec::new(),
            },
            qi: Qi {
                hexagram: Hexagram::Zhun,
                replica_count: 1,
                target_replicas: 3,
                ec_data_shards: 6,
                ec_parity_shards: 2,
                last_health_check: now,
                owner,
            },
        }
    }

    /// The content-addressed identifier: the Base58 text of the content hash.
    pub fn id(&self) -> (id: String)
        ensures
            id@ == spec_bs58(self.yin.content_hash@),
    {
        bs58_encode(self.yin.content_hash.as_slice())
    }

    /// Records an access at the current time and updates the heat.
    pub fn touch(&mut self)
        requires
            old(self).yang.access_count < u64::MAX,
        ensures
            exists|now: u64| final(self).is_touched_from(*old(self), now),
    {
        let now = now_secs();
        self.touch_at(now);
    }

    /// `self` is `prev` after an access at time `now`: only the last access
    /// time, the access count and the heat change.
    pub open spec fn is_touched_from(&self, prev: DataUnit, now: u64) -> bool {
        &&& self.yin == prev.yin
        &&& self.qi == prev.qi
        &&& self.yang.name == prev.yang.name
        &&& self.yang.tags == prev.yang.tags
        &&& self.yang.created_at == prev.yang.created_at
        &&& self.yang.last_accessed == now
        &&& self.yang.access_count == prev.yang.access_count + 1
        &&& self.yang.heat == spec_heat(self.yang.access_count, prev.yang.created_at, now)
    }

    /// Records an access at time `now` and updates the heat.
    pub fn touch_at(&mut self, now: u64)
        requires
            old(self).yang.access_count < u64::MAX,
        ensures
            final(self).is_touched_from(*old(self), now),
    {
        self.yang.last_accessed = now;
        self.yang.access_count = self.yang.access_count + 1;
        let capped: u64 = if self.yang.access_count < 255 { self.yang.access_count } else { 255 };
        let heat = capped as u8;
        let age = now.saturating_sub(self.yang.created_at) / 3600;
        let capped_age: u64 = if age < 255 { age } else { 255 };
        self.yang.heat = heat.saturating_sub(capped_age as u8);
    }

    /// Integrity check: the SHA-256 of the payload equals the content hash.
    pub fn verify(&self) -> (ok: bool)
        ensures
            ok == (spec_sha256(self.yin.payload@) == self.yin.content_hash@),
    {
        let actual = sha256(self.yin.payload.as_slice());
        bytes_equal(actual.as_slice(), self.yin.content_hash.as_slice())
    }
}

/// A unit as written passes the integrity check: its content hash is the
/// SHA-256 of its payload.
pub proof fn lemma_fresh_unit_verifies(u: DataUnit, payload: Seq<u8>, name: Seq<char>, owner: Seq<u8>, now: u64)
    requires
        u.is_fresh(payload, name, owner, now),
    ensures
        spec_sha256(u.yin.payload@) == u.yin.content_hash@,
{
}

/// Content addressing: units written with the same payload have the same
/// content hash, and so the same identifier, whatever their names, owners
/// and times.
pub proof fn lemma_same_payload_same_address(
    a: DataUnit,
    b: DataUnit,
    payload: Seq<u8>,
    name_a: Seq<char>,
    name_b: Seq<char>,
    owner_a: Seq<u8>,
    owner_b: Seq<u8>,
    now_a: u64,
    now_b: u64,
)
    requires
        a.is_fresh(payload, name_a, owner_a, now_a),
        b.is_fresh(payload, name_b, owner_b, now_b),
    ensures
        a.yin.content_hash@ == b.yin.content_hash@,
        spec_bs58(a.yin.content_hash@) == spec_bs58(b.yin.content_hash@),
{
}

/// An access leaves the payload and content hash alone, so the integrity
/// check answers as before.
pub proof fn lemma_touch_keeps_integrity(prev: DataUnit, next: DataUnit, now: u64)
    requires
        next.is_touched_from(prev, now),
    ensures
        next.yin == prev.yin,
        (spec_sha256(next.yin.payload@) == next.yin.content_hash@) == (spec_sha256(prev.yin.payload@)
            == prev.yin.content_hash@),
{
}

} // verus!
