use vstd::prelude::*;
use crate::bytes::{append_bytes, str_equal};
use crate::digest::{sha256, spec_sha256};
use crate::keyed::{lookup_keyed, lemma_keyed_update, lemma_index_of_unique};
use vstd::string::StringSliceAdditionalSpecFns;

verus! {

/// The type of a Kademlia record key.
#[verifier::external_type_specification]
#[verifier::external_body]
pub struct ExRecordKey(libp2p::kad::RecordKey);

/// The record key holding a copy of `bytes` (`libp2p::kad::RecordKey::new`);
/// a fixed function of the bytes.
pub uninterp spec fn spec_record_key(bytes: Seq<u8>) -> libp2p::kad::RecordKey;

/// `libp2p::kad::RecordKey::new`: a record key holding a copy of the bytes,
/// the named `spec_record_key` of them. What is inside the key is not
/// stated: the type is opaque here.
#[verifier::external_body]
fn record_key(bytes: &[u8; 32]) -> (k: libp2p::kad::RecordKey)
    ensures
        k == spec_record_key(bytes@),
{
    libp2p::kad::RecordKey::new(bytes)
}

/// What a name is hashed under: "tao:name:" followed by the name.
pub open spec fn name_seed(name: Seq<u8>) -> Seq<u8> {
    NAME_PREFIX@ + name
}

/// The bytes of "tao:name:".
pub const NAME_PREFIX: [u8; 9] = [116, 97, 111, 58, 110, 97, 109, 101, 58];

/// A name-to-content registration as kept in the DHT.
#[derive(Debug, Clone)]
pub struct DhtEntry {
    pub content_hash: [u8; 32],
    pub data_shards: u8,
    pub parity_shards: u8,
    pub registrar: String,
}

/// Bridge between human-readable names and content hashes on the Kademlia
/// DHT, with a local cache of resolved names.
pub struct TaoDht {
    name_cache: Vec<(String, [u8; 32])>,
}

/// The cached names, in order.
pub open spec fn cache_keys(s: Seq<(String, [u8; 32])>) -> Seq<Seq<char>> {
    s.map_values(|p: (String, [u8; 32])| p.0@)
}

impl TaoDht {
    pub closed spec fn cache(&self) -> Seq<(String, [u8; 32])> {
        self.name_cache@
    }

    /// Each name is cached at most once.
    pub open spec fn wf(&self) -> bool {
        cache_keys(self.cache()).no_duplicates()
    }

    /// The content hash cached for `name`, if any.
    pub open spec fn cached(&self, name: Seq<char>) -> Option<Seq<u8>> {
        match lookup_keyed(self.cache(), cache_keys(self.cache()), name) {
            Some(p) => Some(p.1@),
            None => None,
        }
    }

    /// An empty cache.
    pub fn new() -> (d: Self)
        ensures
            d.wf(),
            forall|name: Seq<char>| #[trigger] d.cached(name) is None,
    {
        let d = Self { name_cache: Vec::new() };
        assert(cache_keys(d.name_cache@) =~= Seq::<Seq<char>>::empty());
        d
    }

    /// The 32 bytes a name is registered under: SHA-256 of "tao:name:" and
    /// the name.
    pub fn name_key_bytes(name: &str) -> (k: [u8; 32])
        ensures
            k@ == spec_sha256(name_seed(name.spec_bytes())),
    {
        let prefix = NAME_PREFIX;
        let mut seed: Vec<u8> = Vec::new();
        append_bytes(&mut seed, &prefix);
        append_bytes(&mut seed, name.as_bytes());
        sha256(seed.as_slice())
    }

    /// The DHT key a name is registered under: the record key of
    /// `name_key_bytes`.
    pub fn name_key(name: &str) -> (k: libp2p::kad::RecordKey)
        ensures
            k == spec_record_key(spec_sha256(name_seed(name.spec_bytes()))),
    {
        let bytes = Self::name_key_bytes(name);
        record_key(&bytes)
    }

    /// The DHT key of a content hash: the record key of the hash itself.
    pub fn content_key(content_hash: &[u8; 32]) -> (k: libp2p::kad::RecordKey)
        ensures
            k == spec_record_key(content_hash@),
    {
        record_key(content_hash)
    }

    /// Caches `content_hash` as what `name` resolves to, replacing an
    /// earlier entry for the name.
    pub fn cache_name(&mut self, name: &str, content_hash: &[u8; 32])
        requires
            old(self).wf(),
        ensures
            final(self).wf(),
            final(self).cached(name@) == Some(content_hash@),
            forall|o: Seq<char>| o != name@ ==> #[trigger] final(self).cached(o) == old(self).cached(o),
    {
        let ghost before = self.name_cache@;
        let ghost idx: int;
        match self.index_of_name(name) {
            Some(i) => {
                proof {
                    idx = i as int;
                }
                self.name_cache.set(i, (String::from_str(name), *content_hash));
            },
            None => {
                proof {
                    idx = before.len() as int;
                }
                self.name_cache.push((String::from_str(name), *content_hash));
            },
        }
        proof {
            let kb = cache_keys(before);
            let ka = cache_keys(self.name_cache@);
            lemma_keyed_update(before, self.name_cache@, kb, ka, idx, name@);
            assert forall|o: Seq<char>| o != name@ implies #[trigger] self.cached(o) == old(self).cached(o) by {
                assert(lookup_keyed(self.name_cache@, ka, o) == lookup_keyed(before, kb, o));
            }
        }
    }

    /// Position of the entry for `name`.
    fn index_of_name(&self, name: &str) -> (r: Option<usize>)
        ensures
            match r {
                Some(i) => i < self.name_cache@.len() && self.name_cache@[i as int].0@ == name@,
                None => !cache_keys(self.name_cache@).contains(name@),
            },
    {
        let mut i: usize = 0;
        while i < self.name_cache.len()
            invariant
                i <= self.name_cache@.len(),
                forall|j: int| 0 <= j < i ==> self.name_cache@[j].0@ != name@,
            decreases self.name_cache@.len() - i,
        {
            if str_equal(self.name_cache[i].0.as_str(), name) {
                return Some(i);
            }
            i = i + 1;
        }
        proof {
            if cache_keys(self.name_cache@).contains(name@) {
                let j = cache_keys(self.name_cache@).index_of(name@);
                assert(self.name_cache@[j].0@ == name@);
            }
        }
        None
    }

    /// The content hash cached for `name`, if any.
    pub fn resolve_cached(&self, name: &str) -> (r: Option<&[u8; 32]>)
        requires
            self.wf(),
        ensures
            match r {
                Some(h) => self.cached(name@) == Some(h@),
                None => self.cached(name@) is None,
            },
    {
        match self.index_of_name(name) {
            Some(i) => {
                proof {
                    lemma_index_of_unique(cache_keys(self.name_cache@), i as int);
                }
                Some(&self.name_cache[i].1)
            },
            None => None,
        }
    }
}

impl Default for TaoDht {
    fn default() -> (d: Self)
        ensures
            d.wf(),
            forall|name: Seq<char>| #[trigger] d.cached(name) is None,
    {
        Self::new()
    }
}

} // verus!
