use vstd::prelude::*;
use vstd::string::StringSliceAdditionalSpecFns;
use vstd::utf8::encode_utf8;
use crate::bytes::{copy_bytes, str_equal};
use crate::clock::now_secs;
use crate::digest::{bs58_encode, hex_decode, hex_encode, sha256, spec_bs58, spec_hex, spec_hex_decode, spec_sha256};
use crate::entropy::thread_rng_next_u32;
use crate::mcp::{joined, joined_lower_tags, lower_all};
use crate::search::{copy_strings, has_sub, lowercase, spec_lowercase, spec_utf8_lossy, tag_texts, text_contains, utf8_lossy};
use crate::tag_keys::{lemma_text_lt_total, lemma_text_lt_trans, text_less, text_lt};

pub use crate::unit::Hexagram;

verus! {

/// Yin as the browser node keeps it: the payload and its hexadecimal
/// content hash.
#[derive(Debug, Clone)]
pub struct Yin {
    pub payload: Vec<u8>,
    /// Lower-case hexadecimal SHA-256 of the payload.
    pub content_hash: String,
}

/// Yang as the browser node keeps it.
#[derive(Debug, Clone)]
pub struct Yang {
    pub name: String,
    pub created_at: u64,
    pub tags: Vec<String>,
    pub heat: u8,
}

/// Qi as the browser node keeps it.
#[derive(Debug, Clone)]
pub struct Qi {
    pub hexagram: Hexagram,
    pub replica_count: u8,
}

/// A data unit held by the browser node.
#[derive(Debug, Clone)]
pub struct DataUnit {
    pub yin: Yin,
    pub yang: Yang,
    pub qi: Qi,
}

/// The lower-case hexadecimal SHA-256 of some bytes.
pub open spec fn hash_text(payload: Seq<u8>) -> Seq<char> {
    spec_hex(spec_sha256(payload))
}

impl DataUnit {
    /// A new unit holding `payload` under `name`, created at `now`: addressed
    /// by `hash_text`, no tags, cold, at the Zhun stage with one replica.
    pub fn new_at(payload: Vec<u8>, name: String, now: u64) -> (u: Self)
        ensures
            u.yin.payload@ == payload@,
            u.yin.content_hash@ == hash_text(payload@),
            u.yang.name@ == name@,
            u.yang.created_at == now,
            u.yang.tags@.len() == 0,
            u.yang.heat == 0,
            u.qi.hexagram == Hexagram::Zhun,
            u.qi.replica_count == 1,
    {
        let digest = sha256(payload.as_slice());
        let content_hash = hex_encode(&digest);
        Self {
            yin: Yin { payload, content_hash },
            yang: Yang { name, created_at: now, tags: Vec::new(), heat: 0 },
            qi: Qi { hexagram: Hexagram::Zhun, replica_count: 1 },
        }
    }

    /// A new unit created now, by the system clock (see `new_at`).
    pub fn new(payload: Vec<u8>, name: String) -> (u: Self)
        ensures
            u.yin.payload@ == payload@,
            u.yin.content_hash@ == hash_text(payload@),
            u.yang.name@ == name@,
            u.yang.tags@.len() == 0,
            u.yang.heat == 0,
            u.qi.hexagram == Hexagram::Zhun,
            u.qi.replica_count == 1,
    {
        let now = now_secs();
        Self::new_at(payload, name, now)
    }

    /// The identifier: the Base58 text of the bytes the content hash
    /// spells in hexadecimal (of no bytes when it is not hexadecimal).
    pub fn id(&self) -> (id: String)
        ensures
            id@ == spec_bs58(
                match spec_hex_decode(encode_utf8(self.yin.content_hash@)) {
                    Some(b) => b,
                    None => Seq::empty(),
                },
            ),
    {
        let bytes = match hex_decode(self.yin.content_hash.as_str()) {
            Some(b) => b,
            None => Vec::new(),
        };
        bs58_encode(bytes.as_slice())
    }

    /// Integrity check: the content hash is the hash text of the payload.
    pub fn verify(&self) -> (ok: bool)
        ensures
            ok == (hash_text(self.yin.payload@) == self.yin.content_hash@),
    {
        let digest = sha256(self.yin.payload.as_slice());
        let text = hex_encode(&digest);
        str_equal(text.as_str(), self.yin.content_hash.as_str())
    }
}

/// The lower-case hexadecimal SHA-256 of the bytes of `data`.
pub fn sha256_hex(data: &str) -> (h: String)
    ensures
        h@ == hash_text(data.spec_bytes()),
{
    let digest = sha256(data.as_bytes());
    hex_encode(&digest)
}

/// Whether `hash` is the hash text of the bytes of `payload`.
pub fn verify_content(payload: &str, hash: &str) -> (ok: bool)
    ensures
        ok == (hash_text(payload.spec_bytes()) == hash@),
{
    let actual = sha256_hex(payload);
    str_equal(actual.as_str(), hash)
}

/// The big-endian bytes of a 32-bit number.
pub open spec fn be_bytes(n: u32) -> Seq<u8> {
    seq![(n / 0x1000000) as u8, ((n / 0x10000) % 0x100) as u8, ((n / 0x100) % 0x100) as u8, (n % 0x100) as u8]
}

/// A node identifier: "tao-" and a random 32-bit number as eight
/// lower-case hexadecimal digits.
pub fn generate_node_id() -> (id: String)
    ensures
        exists|n: u32| id@ == "tao-"@ + #[trigger] spec_hex(be_bytes(n)),
{
    let n = thread_rng_next_u32();
    let bytes: [u8; 4] = [(n / 0x1000000) as u8, ((n / 0x10000) % 0x100) as u8, ((n / 0x100) % 0x100) as u8, (n % 0x100) as u8];
    assert(bytes@ =~= be_bytes(n));
    let digits = hex_encode(&bytes);
    let mut id = String::from_str("tao-");
    id.append(digits.as_str());
    proof {
        reveal_strlit("tao-");
    }
    id
}

/// The browser node: its identifier, the units it holds (in the order they
/// arrived), the peers it knows and whether it reached a signalling server.
pub struct TaoBrowserNode {
    node_id: String,
    storage: Vec<DataUnit>,
    peers: Vec<String>,
    connected: bool,
}

/// One line of the node's listing.
#[derive(Debug, Clone)]
pub struct ListEntry {
    pub key: String,
    pub tags: Vec<String>,
    pub heat: u8,
    pub hexagram: String,
    pub id: String,
}

/// One search result.
#[derive(Debug, Clone)]
pub struct SearchEntry {
    pub key: String,
    pub value: String,
    pub tags: Vec<String>,
}

/// The node's statistics.
#[derive(Debug, Clone)]
pub struct NodeStats {
    pub node_id: String,
    pub objects: usize,
    pub peers: usize,
    pub connected: bool,
    pub tags: Vec<String>,
}

/// Whether unit `u` answers the lower-case query `q`: its name, its value
/// or its tags joined by spaces contain it, each in lower case.
pub open spec fn browser_matches(u: DataUnit, q: Seq<char>) -> bool {
    has_sub(spec_lowercase(u.yang.name@), q) || has_sub(spec_lowercase(spec_utf8_lossy(u.yin.payload@)), q)
        || has_sub(joined(lower_all(tag_texts(u.yang.tags@))), q)
}

/// The units answering the lower-case query `q`, in order.
pub open spec fn matching_units(units: Seq<DataUnit>, q: Seq<char>) -> Seq<DataUnit> {
    units.filter(|u: DataUnit| browser_matches(u, q))
}

/// Every tag of every unit, unit by unit.
pub open spec fn all_tags(units: Seq<DataUnit>) -> Seq<Seq<char>>
    decreases units.len(),
{
    if units.len() == 0 {
        Seq::empty()
    } else {
        all_tags(units.drop_last()) + tag_texts(units.last().yang.tags@)
    }
}

/// `s` is in strictly increasing string order (so without repeats).
pub open spec fn strictly_sorted(s: Seq<Seq<char>>) -> bool {
    forall|i: int, j: int| 0 <= i < j < s.len() ==> text_lt(#[trigger] s[i], #[trigger] s[j])
}

impl TaoBrowserNode {
    pub closed spec fn spec_node_id(&self) -> Seq<char> {
        self.node_id@
    }

    pub closed spec fn units(&self) -> Seq<DataUnit> {
        self.storage@
    }

    pub closed spec fn peer_count(&self) -> nat {
        self.peers@.len()
    }

    pub closed spec fn is_connected(&self) -> bool {
        self.connected
    }

    /// A new node with no units and no peers, not connected. Its identifier
    /// is "tao-browser-" and a random number below one, truncated to a whole
    /// number and written as four hexadecimal digits: always
    /// "tao-browser-0000".
    pub fn new() -> (n: Self)
        ensures
            n.spec_node_id() == "tao-browser-0000"@,
            n.units().len() == 0,
            n.peer_count() == 0,
            !n.is_connected(),
    {
        Self { node_id: String::from_str("tao-browser-0000"), storage: Vec::new(), peers: Vec::new(), connected: false }
    }

    /// The node's identifier.
    pub fn get_node_id(&self) -> (id: String)
        ensures
            id@ == self.spec_node_id(),
    {
        self.node_id.clone()
    }

    /// Stores `value` under `key` with `tags`, created at `now`; returns the
    /// new unit's identifier.
    pub fn put_at(&mut self, key: String, value: String, tags: Vec<String>, now: u64) -> (id: String)
        ensures
            final(self).units().len() == old(self).units().len() + 1,
            final(self).units().drop_last() == old(self).units(),
            ({
                let u = final(self).units().last();
                &&& u.yin.payload@ == encode_utf8(value@)
                &&& u.yin.content_hash@ == hash_text(u.yin.payload@)
                &&& u.yang.name@ == key@
                &&& u.yang.tags@ == tags@
                &&& u.yang.created_at == now
                &&& u.yang.heat == 0
                &&& u.qi.hexagram == Hexagram::Zhun
                &&& u.qi.replica_count == 1
            }),
            id@ == spec_bs58(spec_sha256(encode_utf8(value@))),
            final(self).spec_node_id() == old(self).spec_node_id(),
            final(self).peer_count() == old(self).peer_count(),
            final(self).is_connected() == old(self).is_connected(),
    {
        let payload = copy_bytes(value.as_str().as_bytes());
        let mut unit = DataUnit::new_at(payload, key, now);
        unit.yang.tags = tags;
        proof {
            crate::digest::lemma_hex_roundtrip(spec_sha256(encode_utf8(value@)));
        }
        let id = unit.id();
        self.storage.push(unit);
        id
    }

    /// Stores `value` under `key` with `tags`, created now by the system
    /// clock (see `put_at`); returns the new unit's identifier.
    pub fn put(&mut self, key: String, value: String, tags: Vec<String>) -> (id: String)
        ensures
            final(self).units().len() == old(self).units().len() + 1,
            final(self).units().drop_last() == old(self).units(),
            ({
                let u = final(self).units().last();
                &&& u.yin.payload@ == encode_utf8(value@)
                &&& u.yin.content_hash@ == hash_text(u.yin.payload@)
                &&& u.yang.name@ == key@
                &&& u.yang.tags@ == tags@
                &&& u.yang.heat == 0
                &&& u.qi.hexagram == Hexagram::Zhun
                &&& u.qi.replica_count == 1
            }),
            id@ == spec_bs58(spec_sha256(encode_utf8(value@))),
            final(self).spec_node_id() == old(self).spec_node_id(),
            final(self).peer_count() == old(self).peer_count(),
            final(self).is_connected() == old(self).is_connected(),
    {
        let now = now_secs();
        self.put_at(key, value, tags, now)
    }

    /// The first unit named `key`, or the message "Key '{key}' 未找到".
    pub fn get(&self, key: &str) -> (r: Result<&DataUnit, String>)
        ensures
            match r {
                Ok(u) => exists|i: int|
                    0 <= i < self.units().len() && self.units()[i] == *u && u.yang.name@ == key@ && forall|j: int|
                        0 <= j < i ==> (#[trigger] self.units()[j]).yang.name@ != key@,
                Err(m) => (forall|j: int| 0 <= j < self.units().len() ==> (#[trigger] self.units()[j]).yang.name@
                    != key@) && m@ == "Key '"@ + key@ + "' 未找到"@,
            },
    {
        let mut i: usize = 0;
        while i < self.storage.len()
            invariant
                i <= self.storage@.len(),
                forall|j: int| 0 <= j < i ==> (#[trigger] self.storage@[j]).yang.name@ != key@,
            decreases self.storage@.len() - i,
        {
            if str_equal(self.storage[i].yang.name.as_str(), key) {
                return Ok(&self.storage[i]);
            }
            i = i + 1;
        }
        let mut m = String::from_str("Key '");
        m.append(key);
        m.append("' 未找到");
        Err(m)
    }

    /// One listing line per unit, in order: its key, tags, heat, stage name
    /// and identifier.
    pub fn list(&self) -> (entries: Vec<ListEntry>)
        ensures
            entries@.len() == self.units().len(),
            forall|i: int|
                0 <= i < entries@.len() ==> {
                    let u = #[trigger] self.units()[i];
                    let e = entries@[i];
                    &&& e.key@ == u.yang.name@
                    &&& tag_texts(e.tags@) == tag_texts(u.yang.tags@)
                    &&& e.heat == u.yang.heat
                    &&& e.hexagram@ == crate::api::hexagram_name(u.qi.hexagram)
                    &&& e.id@ == spec_bs58(
                        match spec_hex_decode(encode_utf8(u.yin.content_hash@)) {
                            Some(b) => b,
                            None => Seq::empty(),
                        },
                    )
                },
    {
        let mut entries: Vec<ListEntry> = Vec::new();
        let mut i: usize = 0;
        while i < self.storage.len()
            invariant
                i <= self.storage@.len(),
                entries@.len() == i,
                forall|t: int|
                    0 <= t < i ==> {
                        let u = #[trigger] self.storage@[t];
                        let e = entries@[t];
                        &&& e.key@ == u.yang.name@
                        &&& tag_texts(e.tags@) == tag_texts(u.yang.tags@)
                        &&& e.heat == u.yang.heat
                        &&& e.hexagram@ == crate::api::hexagram_name(u.qi.hexagram)
                        &&& e.id@ == spec_bs58(
                            match spec_hex_decode(encode_utf8(u.yin.content_hash@)) {
                                Some(b) => b,
                                None => Seq::empty(),
                            },
                        )
                    },
            decreases self.storage@.len() - i,
        {
            let u = &self.storage[i];
            entries.push(
                ListEntry {
                    key: u.yang.name.clone(),
                    tags: copy_strings(&u.yang.tags),
                    heat: u.yang.heat,
                    hexagram: String::from_str(crate::api::hexagram_label(u.qi.hexagram)),
                    id: u.id(),
                },
            );
            i = i + 1;
        }
        entries
    }

    /// The units whose name, value or tags contain `query`, ignoring case
    /// (see `browser_matches`), in order, each with its key, value text and
    /// tags.
    pub fn search(&self, query: &str) -> (found: Vec<SearchEntry>)
        ensures
            ({
                let m = matching_units(self.units(), spec_lowercase(query@));
                &&& found@.len() == m.len()
                &&& forall|i: int|
                    0 <= i < found@.len() ==> (#[trigger] found@[i]).key@ == m[i].yang.name@ && found@[i].value@
                        == spec_utf8_lossy(m[i].yin.payload@) && tag_texts(found@[i].tags@) == tag_texts(
                        m[i].yang.tags@,
                    )
            }),
    {
        let q = lowercase(query);
        let ghost pred = |u: DataUnit| browser_matches(u, q@);
        let mut found: Vec<SearchEntry> = Vec::new();
        let mut i: usize = 0;
        while i < self.storage.len()
            invariant
                i <= self.storage@.len(),
                pred == (|u: DataUnit| browser_matches(u, q@)),
                found@.len() == self.storage@.take(i as int).filter(pred).len(),
                forall|t: int|
                    0 <= t < found@.len() ==> {
                        let m = self.storage@.take(i as int).filter(pred);
                        &&& (#[trigger] found@[t]).key@ == m[t].yang.name@
                        &&& found@[t].value@ == spec_utf8_lossy(m[t].yin.payload@)
                        &&& tag_texts(found@[t].tags@) == tag_texts(m[t].yang.tags@)
                    },
            decreases self.storage@.len() - i,
        {
            let u = &self.storage[i];
            let name = lowercase(u.yang.name.as_str());
            let value = utf8_lossy(u.yin.payload.as_slice());
            let lower_value = lowercase(value.as_str());
            let tags = joined_lower_tags(&u.yang.tags);
            let hit = text_contains(name.as_str(), q.as_str()) || text_contains(lower_value.as_str(), q.as_str())
                || text_contains(tags.as_str(), q.as_str());
            let ghost before = self.storage@.take(i as int).filter(pred);
            proof {
                reveal_with_fuel(Seq::filter, 1);
                assert(self.storage@.take(i + 1).drop_last() =~= self.storage@.take(i as int));
                assert(self.storage@.take(i + 1).last() == *u);
            }
            if hit {
                let entry = SearchEntry { key: u.yang.name.clone(), value, tags: copy_strings(&u.yang.tags) };
                found.push(entry);
                assert(self.storage@.take(i + 1).filter(pred) == before.push(*u));
            } else {
                assert(self.storage@.take(i + 1).filter(pred) == before);
            }
            i = i + 1;
        }
        assert(self.storage@.take(self.storage@.len() as int) =~= self.storage@);
        found
    }


    /// Every tag the node's units carry, each once, in string order.
    pub fn get_all_tags(&self) -> (tags: Vec<String>)
        ensures
            strictly_sorted(tag_texts(tags@)),
            forall|t: Seq<char>| #[trigger] tag_texts(tags@).contains(t) <==> all_tags(self.units()).contains(t),
    {
        let mut out: Vec<String> = Vec::new();
        let mut i: usize = 0;
        while i < self.storage.len()
            invariant
                i <= self.storage@.len(),
                strictly_sorted(tag_texts(out@)),
                forall|t: Seq<char>|
                    #[trigger] tag_texts(out@).contains(t) <==> all_tags(self.storage@.take(i as int)).contains(t),
            decreases self.storage@.len() - i,
        {
            let tags = &self.storage[i].yang.tags;
            let ghost base = all_tags(self.storage@.take(i as int));
            let mut j: usize = 0;
            while j < tags.len()
                invariant
                    j <= tags@.len(),
                    strictly_sorted(tag_texts(out@)),
                    forall|t: Seq<char>|
                        #[trigger] tag_texts(out@).contains(t) <==> (base + tag_texts(tags@.take(j as int))).contains(
                            t,
                        ),
                decreases tags@.len() - j,
            {
                let ghost prev = base + tag_texts(tags@.take(j as int));
                insert_unique(&mut out, tags[j].clone());
                proof {
                    let next = base + tag_texts(tags@.take(j + 1));
                    assert(next =~= prev.push(tags@[j as int]@));
                    lemma_push_contains(prev, tags@[j as int]@);
                }
                j = j + 1;
            }
            proof {
                assert(tags@.take(tags@.len() as int) =~= tags@);
                assert(self.storage@.take(i + 1).drop_last() =~= self.storage@.take(i as int));
                assert(self.storage@.take(i + 1).last() == self.storage@[i as int]);
                assert(all_tags(self.storage@.take(i + 1)) == base + tag_texts(tags@));
            }
            i = i + 1;
        }
        assert(self.storage@.take(self.storage@.len() as int) =~= self.storage@);
        out
    }

    /// The node's statistics: its identifier, how many units and peers it
    /// has, whether it is connected, and its tags (see `get_all_tags`).
    pub fn stats(&self) -> (st: NodeStats)
        ensures
            st.node_id@ == self.spec_node_id(),
            st.objects == self.units().len(),
            st.peers == self.peer_count(),
            st.connected == self.is_connected(),
            strictly_sorted(tag_texts(st.tags@)),
            forall|t: Seq<char>| #[trigger] tag_texts(st.tags@).contains(t) <==> all_tags(self.units()).contains(t),
    {
        NodeStats {
            node_id: self.node_id.clone(),
            objects: self.storage.len(),
            peers: self.peers.len(),
            connected: self.connected,
            tags: self.get_all_tags(),
        }
    }

    /// Appends the units of an imported backup; returns how many there were.
    pub fn import_units(&mut self, units: Vec<DataUnit>) -> (count: usize)
        ensures
            count == units@.len(),
            final(self).units() == old(self).units() + units@,
            final(self).spec_node_id() == old(self).spec_node_id(),
            final(self).peer_count() == old(self).peer_count(),
            final(self).is_connected() == old(self).is_connected(),
    {
        let count = units.len();
        let mut units = units;
        self.storage.append(&mut units);
        count
    }

    /// Records that the node reached a signalling server.
    pub fn mark_connected(&mut self)
        ensures
            final(self).is_connected(),
            final(self).units() == old(self).units(),
            final(self).spec_node_id() == old(self).spec_node_id(),
            final(self).peer_count() == old(self).peer_count(),
    {
        self.connected = true;
    }

}

proof fn lemma_push_contains(s: Seq<Seq<char>>, x: Seq<char>)
    ensures
        forall|t: Seq<char>| #[trigger] s.push(x).contains(t) <==> s.contains(t) || t == x,
{
    assert forall|t: Seq<char>| #[trigger] s.push(x).contains(t) implies s.contains(t) || t == x by {
        let i = choose|i: int| 0 <= i < s.push(x).len() && s.push(x)[i] == t;
        if i < s.len() {
            assert(s[i] == t);
        }
    }
    assert forall|t: Seq<char>| s.contains(t) || t == x implies #[trigger] s.push(x).contains(t) by {
        if s.contains(t) {
            let i = choose|i: int| 0 <= i < s.len() && s[i] == t;
            assert(s.push(x)[i] == t);
        } else {
            assert(s.push(x)[s.len() as int] == t);
        }
    }
}

/// Puts `t` into the strictly sorted list `out` unless it is there already.
fn insert_unique(out: &mut Vec<String>, t: String)
    requires
        strictly_sorted(tag_texts(old(out)@)),
    ensures
        strictly_sorted(tag_texts(final(out)@)),
        forall|x: Seq<char>|
            #[trigger] tag_texts(final(out)@).contains(x) <==> tag_texts(old(out)@).contains(x) || x == t@,
{
    let ghost v = tag_texts(out@);
    let mut pos: usize = 0;
    while pos < out.len() && text_less(out[pos].as_str(), t.as_str())
        invariant
            v == tag_texts(out@),
            pos <= out@.len(),
            forall|a: int| 0 <= a < pos ==> text_lt(#[trigger] v[a], t@),
        decreases out@.len() - pos,
    {
        pos = pos + 1;
    }
    if pos < out.len() && str_equal(out[pos].as_str(), t.as_str()) {
        proof {
            assert(v[pos as int] == t@);
            assert forall|x: Seq<char>| #[trigger] v.contains(x) || x == t@ implies v.contains(x) by {}
        }
        return;
    }
    proof {
        if pos < v.len() {
            lemma_text_lt_total(v[pos as int], t@);
            assert(text_lt(t@, v[pos as int]));
            assert forall|b: int| pos < b < v.len() implies text_lt(t@, #[trigger] v[b]) by {
                lemma_text_lt_trans(t@, v[pos as int], v[b]);
            }
        }
    }
    let ghost tt = t@;
    out.insert(pos, t);
    proof {
        let w = tag_texts(out@);
        assert(w =~= v.insert(pos as int, tt));
        assert forall|a: int| 0 <= a < pos implies #[trigger] w[a] == v[a] by {}
        assert forall|a: int| pos <= a < v.len() implies #[trigger] w[a + 1] == v[a] by {}
        assert forall|a: int, b: int| 0 <= a < b < w.len() implies text_lt(#[trigger] w[a], #[trigger] w[b]) by {
            if b < pos {
                assert(w[a] == v[a] && w[b] == v[b]);
            } else if b == pos {
                assert(w[a] == v[a]);
            } else if a < pos {
                assert(w[a] == v[a] && w[b] == v[b - 1]);
                lemma_text_lt_trans(v[a], tt, v[b - 1]);
            } else if a == pos {
                assert(w[b] == v[b - 1]);
            } else {
                assert(w[a] == v[a - 1] && w[b] == v[b - 1]);
            }
        }
        assert forall|x: Seq<char>| #[trigger] w.contains(x) <==> v.contains(x) || x == tt by {
            if w.contains(x) {
                let a = choose|a: int| 0 <= a < w.len() && w[a] == x;
                if a < pos {
                    assert(v[a] == x);
                } else if a > pos {
                    assert(v[a - 1] == x);
                }
            }
            if v.contains(x) {
                let a = choose|a: int| 0 <= a < v.len() && v[a] == x;
                if a < pos {
                    assert(w[a] == x);
                } else {
                    assert(w[a + 1] == x);
                }
            }
            if x == tt {
                assert(w[pos as int] == x);
            }
        }
    }
}

} // verus!
