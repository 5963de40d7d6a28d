use vstd::prelude::*;
use vstd::string::StringSliceAdditionalSpecFns;
use vstd::utf8::encode_utf8;
use crate::bytes::{copy_bytes, str_equal};
use crate::digest::{hex_decode, hex_encode, sha256, spec_hex, spec_hex_decode, spec_sha256};
use crate::search::{copy_strings, spec_utf8_lossy, tag_texts, utf8_lossy};
use crate::sorting::{sort_desc, stable_sort_desc};
use crate::unit::DataUnit;

verus! {

/// Store statistics.
#[derive(Debug, Clone)]
pub struct StoreStats {
    pub total_items: usize,
    pub unique_keys: usize,
    pub total_tags: usize,
    /// Keys by number of units, most first.
    pub top_keys: Vec<(String, usize)>,
    /// Tags by number of units, most first.
    pub top_tags: Vec<(String, usize)>,
}

/// One unit in a backup.
#[derive(Debug, Clone)]
pub struct BackupItem {
    pub id: String,
    pub key: String,
    pub value: String,
    pub tags: Vec<String>,
    pub created_at: u64,
    pub updated_at: u64,
}

/// A backup document.
#[derive(Debug, Clone)]
pub struct BackupData {
    pub version: String,
    pub exported_at: u64,
    pub stats: BackupStats,
    pub data: BackupItems,
}

/// Totals recorded in a backup.
#[derive(Debug, Clone)]
pub struct BackupStats {
    pub total_items: usize,
    pub unique_keys: usize,
    pub total_tags: usize,
}

/// The units of a backup and their tags.
#[derive(Debug, Clone)]
pub struct BackupItems {
    pub items: Vec<BackupItem>,
    pub tags: Vec<BackupTag>,
}

/// One tag of one unit in a backup.
#[derive(Debug, Clone)]
pub struct BackupTag {
    pub item_id: String,
    pub tag: String,
}

/// What an import did.
#[derive(Debug, Clone)]
pub struct ImportResult {
    pub imported: usize,
    pub skipped: usize,
}

/// The distinct texts of `s`, in order of first appearance.
pub open spec fn distinct(s: Seq<Seq<char>>) -> Seq<Seq<char>>
    decreases s.len(),
{
    if s.len() == 0 {
        Seq::empty()
    } else {
        let d = distinct(s.drop_last());
        if d.contains(s.last()) {
            d
        } else {
            d.push(s.last())
        }
    }
}

/// How often `x` occurs in `s`.
pub open spec fn occurrences(s: Seq<Seq<char>>, x: Seq<char>) -> nat
    decreases s.len(),
{
    if s.len() == 0 {
        0
    } else {
        occurrences(s.drop_last(), x) + if s.last() == x {
            1nat
        } else {
            0nat
        }
    }
}

/// Each distinct text of `s` with how often it occurs, in order of first
/// appearance.
pub open spec fn counted(s: Seq<Seq<char>>) -> Seq<(Seq<char>, nat)> {
    distinct(s).map_values(|x: Seq<char>| (x, occurrences(s, x)))
}

proof fn lemma_occurrences_bound(s: Seq<Seq<char>>, x: Seq<char>)
    ensures
        occurrences(s, x) <= s.len(),
        !s.contains(x) ==> occurrences(s, x) == 0,
    decreases s.len(),
{
    if s.len() > 0 {
        lemma_occurrences_bound(s.drop_last(), x);
        if !s.contains(x) {
            assert(!s.drop_last().contains(x)) by {
                if s.drop_last().contains(x) {
                    let i = choose|i: int| 0 <= i < s.drop_last().len() && s.drop_last()[i] == x;
                    assert(s[i] == x);
                }
            }
            assert(s[s.len() - 1] != x);
        }
    }
}

pub proof fn lemma_distinct_members(s: Seq<Seq<char>>)
    ensures
        distinct(s).no_duplicates(),
        forall|x: Seq<char>| #[trigger] distinct(s).contains(x) <==> s.contains(x),
    decreases s.len(),
{
    if s.len() > 0 {
        let t = s.drop_last();
        lemma_distinct_members(t);
        let d = distinct(t);
        assert forall|x: Seq<char>| #[trigger] distinct(s).contains(x) <==> s.contains(x) by {
            if s.contains(x) {
                let i = choose|i: int| 0 <= i < s.len() && s[i] == x;
                if i < s.len() - 1 {
                    assert(t[i] == x);
                    assert(t.contains(x));
                }
            }
            if t.contains(x) {
                let i = choose|i: int| 0 <= i < t.len() && t[i] == x;
                assert(s[i] == x);
            }
            if !d.contains(s.last()) {
                if d.push(s.last()).contains(x) {
                    let j = choose|j: int| 0 <= j < d.push(s.last()).len() && d.push(s.last())[j] == x;
                    if j < d.len() {
                        assert(d[j] == x);
                    }
                }
                if x == s.last() {
                    assert(d.push(s.last())[d.len() as int] == x);
                }
                if d.contains(x) {
                    let j = choose|j: int| 0 <= j < d.len() && d[j] == x;
                    assert(d.push(s.last())[j] == x);
                }
            }
            assert(s[s.len() - 1] == s.last());
        }
    }
}

/// Position of the entry named `name`, if any.
fn find_count(counts: &Vec<(String, usize)>, name: &str) -> (r: Option<usize>)
    ensures
        match r {
            Some(j) => j < counts@.len() && counts@[j as int].0@ == name@,
            None => forall|t: int| 0 <= t < counts@.len() ==> counts@[t].0@ != name@,
        },
{
    let mut j: usize = 0;
    while j < counts.len()
        invariant
            j <= counts@.len(),
            forall|t: int| 0 <= t < j ==> counts@[t].0@ != name@,
        decreases counts@.len() - j,
    {
        if str_equal(counts[j].0.as_str(), name) {
            return Some(j);
        }
        j = j + 1;
    }
    None
}

/// Each distinct name with how often it occurs, in order of first appearance.
pub fn count_names(names: &Vec<String>) -> (counts: Vec<(String, usize)>)
    ensures
        counts@.len() == counted(tag_texts(names@)).len(),
        forall|i: int|
            0 <= i < counts@.len() ==> (#[trigger] counts@[i]).0@ == counted(tag_texts(names@))[i].0
                && counts@[i].1 == counted(tag_texts(names@))[i].1,
{
    let mut counts: Vec<(String, usize)> = Vec::new();
    let mut i: usize = 0;
    while i < names.len()
        invariant
            i <= names@.len(),
            counts@.len() == distinct(tag_texts(names@.take(i as int))).len(),
            forall|j: int|
                0 <= j < counts@.len() ==> (#[trigger] counts@[j]).0@ == distinct(tag_texts(names@.take(i as int)))[j]
                    && counts@[j].1 == occurrences(tag_texts(names@.take(i as int)), counts@[j].0@),
        decreases names@.len() - i,
    {
        let ghost prev = tag_texts(names@.take(i as int));
        let ghost next = tag_texts(names@.take(i + 1));
        let ghost x = names@[i as int]@;
        let ghost c0 = counts@;
        proof {
            assert(next.drop_last() =~= prev);
            assert(next.last() == x);
            lemma_distinct_members(prev);
            lemma_occurrences_bound(prev, x);
        }
        match find_count(&counts, names[i].as_str()) {
            Some(j) => {
                proof {
                    assert(distinct(prev)[j as int] == x);
                    assert(distinct(prev).contains(x));
                }
                let entry = &mut counts[j];
                entry.1 = entry.1 + 1;
                proof {
                    assert(distinct(next) == distinct(prev));
                    assert forall|t: int| 0 <= t < counts@.len() implies (#[trigger] counts@[t]).0@ == distinct(next)[t]
                        && counts@[t].1 == occurrences(next, counts@[t].0@) by {
                        if t != j {
                            assert(counts@[t] == c0[t]);
                        }
                    }
                }
            },
            None => {
                proof {
                    assert(!distinct(prev).contains(x)) by {
                        if distinct(prev).contains(x) {
                            let t = choose|t: int| 0 <= t < distinct(prev).len() && distinct(prev)[t] == x;
                            assert(c0[t].0@ == x);
                        }
                    }
                    assert(!prev.contains(x));
                }
                counts.push((names[i].clone(), 1));
                proof {
                    assert(distinct(next) == distinct(prev).push(x));
                    assert forall|t: int| 0 <= t < counts@.len() implies (#[trigger] counts@[t]).0@ == distinct(next)[t]
                        && counts@[t].1 == occurrences(next, counts@[t].0@) by {
                        if t < c0.len() {
                            assert(counts@[t] == c0[t]);
                            assert(c0[t].0@ != x);
                        }
                    }
                }
            },
        }
        i = i + 1;
    }
    proof {
        assert(names@.take(names@.len() as int) =~= names@);
    }
    counts
}

/// The names of the units, in order.
pub open spec fn unit_names(units: Seq<DataUnit>) -> Seq<Seq<char>> {
    units.map_values(|u: DataUnit| u.yang.name@)
}

/// All tags of the units, unit by unit.
pub open spec fn unit_tags(units: Seq<DataUnit>) -> Seq<Seq<char>>
    decreases units.len(),
{
    if units.len() == 0 {
        Seq::empty()
    } else {
        unit_tags(units.drop_last()) + tag_texts(units.last().yang.tags@)
    }
}

/// Name counts keyed by count, with their positions.
pub open spec fn count_keyed(c: Seq<(Seq<char>, nat)>) -> Seq<(u64, usize)> {
    Seq::new(c.len(), |i: int| (c[i].1 as u64, i as usize))
}

/// Statistics over `units`: how many there are, how many distinct names,
/// how many tags in all, the `top_n` most frequent names (most first; equal
/// counts in order of first appearance), and the first `top_n` entries of the
/// tag cloud.
pub fn collect_stats(units: &Vec<DataUnit>, tag_cloud: &Vec<(String, usize)>, top_n: usize) -> (stats: StoreStats)
    requires
        unit_tags(units@).len() <= usize::MAX,
    ensures
        stats.total_items == units@.len(),
        stats.unique_keys == distinct(unit_names(units@)).len(),
        stats.total_tags == unit_tags(units@).len(),
        ({
            let c = counted(unit_names(units@));
            let order = sort_desc(count_keyed(c));
            let n = if top_n < c.len() { top_n as int } else { c.len() as int };
            &&& stats.top_keys@.len() == n
            &&& forall|t: int|
                0 <= t < n ==> (#[trigger] stats.top_keys@[t]).0@ == c[order[t].1 as int].0 && stats.top_keys@[t].1
                    == c[order[t].1 as int].1
        }),
        stats.top_tags@.len() == if top_n < tag_cloud@.len() { top_n as int } else { tag_cloud@.len() as int },
        forall|t: int|
            0 <= t < stats.top_tags@.len() ==> (#[trigger] stats.top_tags@[t]).0@ == tag_cloud@[t].0@
                && stats.top_tags@[t].1 == tag_cloud@[t].1,
{
    let mut names: Vec<String> = Vec::new();
    let mut total_tags: usize = 0;
    let mut i: usize = 0;
    while i < units.len()
        invariant
            i <= units@.len(),
            unit_tags(units@).len() <= usize::MAX,
            names@.len() == i,
            tag_texts(names@) == unit_names(units@.take(i as int)),
            total_tags == unit_tags(units@.take(i as int)).len(),
        decreases units@.len() - i,
    {
        proof {
            assert(units@.take(i + 1).drop_last() =~= units@.take(i as int));
            lemma_unit_tags_prefix(units@, i as int + 1);
        }
        let ghost prev = names@;
        names.push(units[i].yang.name.clone());
        total_tags = total_tags + units[i].yang.tags.len();
        proof {
            assert forall|k: int| 0 <= k < i + 1 implies #[trigger] tag_texts(names@)[k] == unit_names(
                units@.take(i + 1),
            )[k] by {
                if k < i {
                    assert(names@[k] == prev[k]);
                    assert(tag_texts(prev)[k] == unit_names(units@.take(i as int))[k]);
                }
            }
            assert(tag_texts(names@) =~= unit_names(units@.take(i + 1)));
        }
        i = i + 1;
    }
    proof {
        assert(units@.take(units@.len() as int) =~= units@);
    }
    let counts = count_names(&names);
    let ghost c = counted(unit_names(units@));
    proof {
        lemma_distinct_members(unit_names(units@));
    }
    let mut keyed: Vec<(u64, usize)> = Vec::new();
    let mut j: usize = 0;
    while j < counts.len()
        invariant
            j <= counts@.len(),
            counts@.len() == c.len(),
            keyed@ == count_keyed(c).take(j as int),
            forall|t: int| 0 <= t < counts@.len() ==> (#[trigger] counts@[t]).1 == c[t].1,
        decreases counts@.len() - j,
    {
        keyed.push((counts[j].1 as u64, j));
        j = j + 1;
        assert(keyed@ =~= count_keyed(c).take(j as int));
    }
    assert(keyed@ =~= count_keyed(c));
    let sorted = stable_sort_desc(keyed);
    let ghost order = sort_desc(count_keyed(c));
    proof {
        lemma_count_order(c, counts.len());
    }
    let limit = if top_n < sorted.len() { top_n } else { sorted.len() };
    let mut top_keys: Vec<(String, usize)> = Vec::new();
    let mut t: usize = 0;
    while t < limit
        invariant
            limit <= sorted@.len(),
            sorted@ == order,
            order.len() == c.len(),
            counts@.len() == c.len(),
            forall|u: int| 0 <= u < c.len() ==> (#[trigger] counts@[u]).0@ == c[u].0 && counts@[u].1 == c[u].1,
            forall|u: int| 0 <= u < order.len() ==> (#[trigger] order[u]).1 < c.len(),
            t <= limit,
            top_keys@.len() == t,
            forall|u: int|
                0 <= u < t ==> (#[trigger] top_keys@[u]).0@ == c[order[u].1 as int].0 && top_keys@[u].1
                    == c[order[u].1 as int].1,
        decreases limit - t,
    {
        let k = sorted[t].1;
        top_keys.push((counts[k].0.clone(), counts[k].1));
        t = t + 1;
    }
    let tag_limit = if top_n < tag_cloud.len() { top_n } else { tag_cloud.len() };
    let mut top_tags: Vec<(String, usize)> = Vec::new();
    let mut u: usize = 0;
    while u < tag_limit
        invariant
            tag_limit <= tag_cloud@.len(),
            u <= tag_limit,
            top_tags@.len() == u,
            forall|w: int|
                0 <= w < u ==> (#[trigger] top_tags@[w]).0@ == tag_cloud@[w].0@ && top_tags@[w].1 == tag_cloud@[w].1,
        decreases tag_limit - u,
    {
        top_tags.push((tag_cloud[u].0.clone(), tag_cloud[u].1));
        u = u + 1;
    }
    StoreStats { total_items: units.len(), unique_keys: counts.len(), total_tags, top_keys, top_tags }
}

/// The tags of a prefix are a prefix of all tags.
proof fn lemma_unit_tags_prefix(units: Seq<DataUnit>, i: int)
    requires
        0 <= i <= units.len(),
    ensures
        unit_tags(units.take(i)).len() <= unit_tags(units).len(),
    decreases units.len() - i,
{
    if i < units.len() {
        lemma_unit_tags_prefix(units, i + 1);
        assert(units.take(i + 1).drop_last() =~= units.take(i));
    } else {
        assert(units.take(i) =~= units);
    }
}

/// Sorting the counts keeps every position in range.
proof fn lemma_count_order(c: Seq<(Seq<char>, nat)>, n: usize)
    requires
        n == c.len(),
    ensures
        sort_desc(count_keyed(c)).len() == c.len(),
        forall|u: int|
            0 <= u < sort_desc(count_keyed(c)).len() ==> (#[trigger] sort_desc(count_keyed(c))[u]).1 < c.len(),
{
    crate::sorting::lemma_sort_desc_members(count_keyed(c));
    assert forall|u: int|
        0 <= u < sort_desc(count_keyed(c)).len() implies (#[trigger] sort_desc(count_keyed(c))[u]).1 < c.len() by {
        let k = count_keyed(c);
        assert(k.contains(sort_desc(k)[u]));
        let i = choose|i: int| 0 <= i < k.len() && k[i] == sort_desc(k)[u];
        assert(k[i].1 == i as usize);
    }
}

/// Version written into backups.
pub const BACKUP_VERSION: &'static str = "0.2.0";

/// `item` is the backup entry of `u`.
pub open spec fn item_of(item: BackupItem, u: DataUnit) -> bool {
    &&& item.id@ == spec_hex(u.yin.content_hash@)
    &&& item.key@ == u.yang.name@
    &&& item.value@ == spec_utf8_lossy(u.yin.payload@)
    &&& tag_texts(item.tags@) == tag_texts(u.yang.tags@)
    &&& item.created_at == u.yang.created_at
    &&& item.updated_at == u.yang.last_accessed
}

/// Every (unit id, tag) pair, unit by unit.
pub open spec fn tag_pairs(units: Seq<DataUnit>) -> Seq<(Seq<char>, Seq<char>)>
    decreases units.len(),
{
    if units.len() == 0 {
        Seq::empty()
    } else {
        let u = units.last();
        tag_pairs(units.drop_last()) + tag_texts(u.yang.tags@).map_values(
            |t: Seq<char>| (spec_hex(u.yin.content_hash@), t),
        )
    }
}

/// The entries of a backup of `units`: one item per unit, and one tag entry
/// per tag of each unit.
pub fn backup_items(units: &Vec<DataUnit>) -> (b: BackupItems)
    ensures
        b.items@.len() == units@.len(),
        forall|i: int| 0 <= i < units@.len() ==> item_of(#[trigger] b.items@[i], units@[i]),
        b.tags@.len() == tag_pairs(units@).len(),
        forall|i: int|
            0 <= i < b.tags@.len() ==> (#[trigger] b.tags@[i]).item_id@ == tag_pairs(units@)[i].0 && b.tags@[i].tag@
                == tag_pairs(units@)[i].1,
{
    let mut items: Vec<BackupItem> = Vec::new();
    let mut tags: Vec<BackupTag> = Vec::new();
    let mut i: usize = 0;
    while i < units.len()
        invariant
            i <= units@.len(),
            items@.len() == i,
            forall|k: int| 0 <= k < i ==> item_of(#[trigger] items@[k], units@[k]),
            tags@.len() == tag_pairs(units@.take(i as int)).len(),
            forall|k: int|
                0 <= k < tags@.len() ==> (#[trigger] tags@[k]).item_id@ == tag_pairs(units@.take(i as int))[k].0
                    && tags@[k].tag@ == tag_pairs(units@.take(i as int))[k].1,
        decreases units@.len() - i,
    {
        let u = &units[i];
        let id = hex_encode(&u.yin.content_hash);
        let ghost t0 = tags@;
        let ghost base = tag_pairs(units@.take(i as int));
        let ghost ut = tag_texts(u.yang.tags@);
        let mut k: usize = 0;
        while k < u.yang.tags.len()
            invariant
                k <= u.yang.tags@.len(),
                ut == tag_texts(u.yang.tags@),
                id@ == spec_hex(u.yin.content_hash@),
                tags@.len() == base.len() + k,
                forall|w: int| 0 <= w < base.len() ==> #[trigger] tags@[w] == t0[w],
                t0.len() == base.len(),
                forall|w: int|
                    0 <= w < k ==> (#[trigger] tags@[base.len() + w]).item_id@ == spec_hex(u.yin.content_hash@)
                        && tags@[base.len() + w].tag@ == ut[w],
            decreases u.yang.tags@.len() - k,
        {
            tags.push(BackupTag { item_id: id.clone(), tag: u.yang.tags[k].clone() });
            k = k + 1;
        }
        proof {
            let next = tag_pairs(units@.take(i + 1));
            assert(units@.take(i + 1).drop_last() =~= units@.take(i as int));
            assert(units@.take(i + 1).last() == units@[i as int]);
            assert(next == base + ut.map_values(|t: Seq<char>| (spec_hex(u.yin.content_hash@), t)));
            assert forall|w: int| 0 <= w < tags@.len() implies (#[trigger] tags@[w]).item_id@ == next[w].0
                && tags@[w].tag@ == next[w].1 by {
                if w >= base.len() {
                    let j = w - base.len();
                    assert(tags@[base.len() + j] == tags@[w]);
                }
            }
        }
        items.push(
            BackupItem {
                id,
                key: u.yang.name.clone(),
                value: utf8_lossy(u.yin.payload.as_slice()),
                tags: copy_strings(&u.yang.tags),
                created_at: u.yang.created_at,
                updated_at: u.yang.last_accessed,
            },
        );
        i = i + 1;
    }
    proof {
        assert(units@.take(units@.len() as int) =~= units@);
    }
    BackupItems { items, tags }
}

/// The content hash an imported item is stored under: its id read as
/// hexadecimal when that gives 32 bytes, else the SHA-256 of its value.
pub open spec fn import_hash(item: BackupItem) -> Seq<u8> {
    match spec_hex_decode(encode_utf8(item.id@)) {
        Some(b) => if b.len() == 32 {
            b
        } else {
            spec_sha256(encode_utf8(item.value@))
        },
        None => spec_sha256(encode_utf8(item.value@)),
    }
}

/// `u` is the unit the backup item `item` becomes at time `now`: its value
/// as the payload, its key, tags and times, owned by nobody, stored under
/// `import_hash`.
pub open spec fn imported_from(u: DataUnit, item: BackupItem, now: u64) -> bool {
    &&& u.yin.payload@ == encode_utf8(item.value@)
    &&& u.yin.content_hash@ == import_hash(item)
    &&& u.yang.name@ == item.key@
    &&& tag_texts(u.yang.tags@) == tag_texts(item.tags@)
    &&& u.yang.created_at == item.created_at
    &&& u.yang.last_accessed == item.updated_at
    &&& u.yang.access_count == 0
    &&& u.yang.heat == 0
    &&& u.qi.hexagram == crate::unit::Hexagram::Zhun
    &&& u.qi.last_health_check == now
    &&& forall|i: int| 0 <= i < 32 ==> u.qi.owner@[i] == 0
}

/// A backup restores what it saved: importing the backup entry of a unit
/// gives a unit under the same content hash, with the same key, tags and
/// times, and the bytes of the value text it was saved with.
pub proof fn lemma_backup_roundtrip(u: DataUnit, item: BackupItem, v: DataUnit, now: u64)
    requires
        item_of(item, u),
        imported_from(v, item, now),
    ensures
        v.yin.content_hash@ == u.yin.content_hash@,
        v.yang.name@ == u.yang.name@,
        tag_texts(v.yang.tags@) == tag_texts(u.yang.tags@),
        v.yang.created_at == u.yang.created_at,
        v.yang.last_accessed == u.yang.last_accessed,
        v.yin.payload@ == encode_utf8(spec_utf8_lossy(u.yin.payload@)),
{
    crate::digest::lemma_hex_roundtrip(u.yin.content_hash@);
    assert(u.yin.content_hash@.len() == 32);
}

/// The unit an imported backup item becomes at time `now`: its value as the
/// payload, its key, tags and times, owned by nobody, stored under
/// `import_hash`.
pub fn import_unit(item: &BackupItem, now: u64) -> (u: DataUnit)
    ensures
        imported_from(u, *item, now),
{
    let payload = copy_bytes(item.value.as_str().as_bytes());
    let content_hash: [u8; 32] = match hex_decode(item.id.as_str()) {
        Some(bytes) => {
            if bytes.len() == 32 {
                let mut arr = [0u8; 32];
                let mut k: usize = 0;
                while k < 32
                    invariant
                        k <= 32,
                        bytes@.len() == 32,
                        forall|w: int| 0 <= w < k ==> arr@[w] == bytes@[w],
                    decreases 32 - k,
                {
                    arr[k] = bytes[k];
                    k = k + 1;
                }
                assert(arr@ =~= bytes@);
                arr
            } else {
                sha256(payload.as_slice())
            }
        },
        None => sha256(payload.as_slice()),
    };
    let mut u = DataUnit::new_at(payload, item.key.clone(), [0u8; 32], now);
    u.yin.content_hash = content_hash;
    u.yang.tags = copy_strings(&item.tags);
    u.yang.created_at = item.created_at;
    u.yang.last_accessed = item.updated_at;
    u
}

/// The texts of the lists, one after the other.
pub open spec fn flatten_texts(sets: Seq<Seq<Seq<char>>>) -> Seq<Seq<char>>
    decreases sets.len(),
{
    if sets.len() == 0 {
        Seq::empty()
    } else {
        flatten_texts(sets.drop_last()) + sets.last()
    }
}

/// The texts of a list of lists of strings.
pub open spec fn nested_texts(sets: Seq<Vec<String>>) -> Seq<Seq<Seq<char>>> {
    sets.map_values(|v: Vec<String>| tag_texts(v@))
}

/// Hashes in every one of the per-tag lists (AND): those of the first list
/// that every other list holds, in the first list's order; none for no lists.
pub open spec fn all_of(sets: Seq<Seq<Seq<char>>>) -> Seq<Seq<char>> {
    if sets.len() == 0 {
        Seq::empty()
    } else {
        sets[0].filter(|h: Seq<char>| forall|k: int| 1 <= k < sets.len() ==> #[trigger] sets[k].contains(h))
    }
}

/// Whether `h` is one of `set`.
fn texts_contain(set: &Vec<String>, h: &str) -> (r: bool)
    ensures
        r == tag_texts(set@).contains(h@),
{
    let mut i: usize = 0;
    while i < set.len()
        invariant
            i <= set@.len(),
            forall|j: int| 0 <= j < i ==> set@[j]@ != h@,
        decreases set@.len() - i,
    {
        if str_equal(set[i].as_str(), h) {
            assert(tag_texts(set@)[i as int] == h@);
            return true;
        }
        i = i + 1;
    }
    proof {
        if tag_texts(set@).contains(h@) {
            let j = choose|j: int| 0 <= j < tag_texts(set@).len() && tag_texts(set@)[j] == h@;
            assert(set@[j]@ == h@);
        }
    }
    false
}

/// The hashes in every one of the per-tag lists (AND query).
pub fn tags_all(sets: &Vec<Vec<String>>) -> (r: Vec<String>)
    ensures
        tag_texts(r@) == all_of(nested_texts(sets@)),
{
    let mut r: Vec<String> = Vec::new();
    if sets.len() == 0 {
        assert(tag_texts(r@) =~= Seq::<Seq<char>>::empty());
        return r;
    }
    let ghost n = nested_texts(sets@);
    let ghost pred = |h: Seq<char>| forall|k: int| 1 <= k < n.len() ==> #[trigger] n[k].contains(h);
    let first = &sets[0];
    let mut i: usize = 0;
    while i < first.len()
        invariant
            i <= first@.len(),
            n == nested_texts(sets@),
            sets@.len() >= 1,
            *first == sets@[0],
            pred == (|h: Seq<char>| forall|k: int| 1 <= k < n.len() ==> #[trigger] n[k].contains(h)),
            tag_texts(r@) == tag_texts(first@).take(i as int).filter(pred),
        decreases first@.len() - i,
    {
        let h = first[i].as_str();
        let mut keep = true;
        let mut k: usize = 1;
        while k < sets.len()
            invariant
                1 <= k <= sets@.len(),
                n == nested_texts(sets@),
                keep == forall|j: int| 1 <= j < k ==> #[trigger] n[j].contains(h@),
            decreases sets@.len() - k,
        {
            let present = texts_contain(&sets[k], h);
            assert(n[k as int] == tag_texts(sets@[k as int]@));
            if !present {
                keep = false;
            }
            k = k + 1;
        }
        let ghost prev = r@;
        proof {
            assert(tag_texts(first@).take(i + 1).drop_last() =~= tag_texts(first@).take(i as int));
            assert(tag_texts(first@).take(i + 1).last() == h@);
            reveal_with_fuel(Seq::filter, 1);
            assert(keep == pred(h@));
        }
        if keep {
            r.push(first[i].clone());
            assert(tag_texts(r@) =~= tag_texts(prev).push(h@));
        } else {
            assert(tag_texts(r@) =~= tag_texts(prev));
        }
        i = i + 1;
    }
    proof {
        assert(tag_texts(first@).take(first@.len() as int) =~= tag_texts(first@));
        assert(n[0] == tag_texts(first@));
    }
    r
}

/// The texts of `s` without repeats, each at its first appearance.
pub open spec fn dedup_first(s: Seq<Seq<char>>) -> Seq<Seq<char>> {
    distinct(s)
}

/// The hashes in any of the per-tag lists (OR query), each once, in order of
/// first appearance.
pub fn tags_any(sets: &Vec<Vec<String>>) -> (r: Vec<String>)
    ensures
        tag_texts(r@) == dedup_first(flatten_texts(nested_texts(sets@))),
{
    let mut r: Vec<String> = Vec::new();
    let ghost n = nested_texts(sets@);
    let mut i: usize = 0;
    assert(tag_texts(r@) =~= distinct(flatten_texts(n.take(0))));
    while i < sets.len()
        invariant
            i <= sets@.len(),
            n == nested_texts(sets@),
            tag_texts(r@) == distinct(flatten_texts(n.take(i as int))),
        decreases sets@.len() - i,
    {
        let set = &sets[i];
        let ghost base = flatten_texts(n.take(i as int));
        let mut j: usize = 0;
        proof {
            assert(base + tag_texts(set@).take(0) =~= base);
        }
        while j < set.len()
            invariant
                j <= set@.len(),
                *set == sets@[i as int],
                base == flatten_texts(n.take(i as int)),
                tag_texts(r@) == distinct(base + tag_texts(set@).take(j as int)),
            decreases set@.len() - j,
        {
            let h = set[j].as_str();
            let ghost cur = base + tag_texts(set@).take(j as int);
            let ghost next = base + tag_texts(set@).take(j + 1);
            proof {
                assert(next.drop_last() =~= cur);
                assert(next.last() == h@);
                lemma_distinct_members(cur);
            }
            let seen = texts_contain(&r, h);
            let ghost prev = r@;
            if !seen {
                r.push(set[j].clone());
                assert(tag_texts(r@) =~= tag_texts(prev).push(h@));
            }
            j = j + 1;
        }
        proof {
            assert(tag_texts(set@).take(set@.len() as int) =~= tag_texts(set@));
            assert(n.take(i + 1).drop_last() =~= n.take(i as int));
            assert(n.take(i + 1).last() == tag_texts(set@));
        }
        i = i + 1;
    }
    proof {
        assert(n.take(sets@.len() as int) =~= n);
    }
    r
}

} // verus!
