use vstd::prelude::*;
use crate::bytes::str_equal;
use crate::clock::now_secs;
use crate::keyed::{lookup_keyed, lemma_keyed_update, lemma_index_of_unique};
use vstd::string::StrSliceExecFns;
use crate::query::{find_char_from, lemma_find_char_bounds};
use crate::search::chars_of;

verus! {

/// Most versions kept per key; the oldest are dropped beyond it.
pub const MAX_VERSIONS: usize = 100;

/// One recorded version of a key's value.
#[derive(Debug, Clone)]
pub struct VersionRecord {
    pub version: u64,
    pub key: String,
    pub value: String,
    pub tags: Vec<String>,
    pub timestamp: u64,
    /// "put", "update", "delete" or "rollback".
    pub operation: String,
}

/// The texts of a list of strings.
pub open spec fn texts(s: Seq<String>) -> Seq<Seq<char>> {
    s.map_values(|x: String| x@)
}

/// A version record with the given fields.
pub open spec fn record_is(
    r: VersionRecord,
    version: u64,
    key: Seq<char>,
    value: Seq<char>,
    tags: Seq<Seq<char>>,
    timestamp: u64,
    operation: Seq<char>,
) -> bool {
    &&& r.version == version
    &&& r.key@ == key
    &&& r.value@ == value
    &&& texts(r.tags@) == tags
    &&& r.timestamp == timestamp
    &&& r.operation@ == operation
}

/// The number a new version takes after history `h`: one past the last
/// version kept, or 1 when nothing is kept.
pub open spec fn next_version(h: Seq<VersionRecord>) -> u64 {
    if h.len() == 0 {
        1
    } else {
        (h.last().version + 1) as u64
    }
}

/// Versions rise strictly along `h`, so none occurs twice.
pub open spec fn versions_increasing(h: Seq<VersionRecord>) -> bool {
    forall|i: int, j: int| 0 <= i < j < h.len() ==> (#[trigger] h[i]).version < (#[trigger] h[j]).version
}

/// Where versions rise strictly, a version number names at most one record.
pub proof fn lemma_increasing_versions_unique(h: Seq<VersionRecord>, i: int, j: int)
    requires
        versions_increasing(h),
        0 <= i < h.len(),
        0 <= j < h.len(),
        h[i].version == h[j].version,
    ensures
        i == j,
{
    if i < j {
        assert(h[i].version < h[j].version);
    } else if j < i {
        assert(h[j].version < h[i].version);
    }
}

/// The version history of every key.
#[derive(Debug, Clone)]
pub struct VersionStore {
    /// Each key with its versions, oldest first; one entry per key.
    pub versions: Vec<(String, Vec<VersionRecord>)>,
}

/// The keys, in order.
pub open spec fn version_keys(s: Seq<(String, Vec<VersionRecord>)>) -> Seq<Seq<char>> {
    s.map_values(|p: (String, Vec<VersionRecord>)| p.0@)
}

/// A copy of a list of strings.
fn clone_strings(s: &[String]) -> (v: Vec<String>)
    ensures
        texts(v@) == texts(s@),
{
    let mut v: Vec<String> = Vec::new();
    let mut i: usize = 0;
    while i < s.len()
        invariant
            i <= s@.len(),
            texts(v@) == texts(s@.take(i as int)),
        decreases s@.len() - i,
    {
        let c = s[i].clone();
        assert(c@ == s@[i as int]@);
        let ghost prev = v@;
        v.push(c);
        assert(texts(v@) =~= texts(prev).push(c@));
        assert(texts(s@.take(i + 1)) =~= texts(s@.take(i as int)).push(s@[i as int]@));
        i = i + 1;
    }
    assert(s@.take(s@.len() as int) =~= s@);
    v
}

impl VersionStore {
    /// One entry per key, and at most `MAX_VERSIONS` versions each.
    pub open spec fn wf(&self) -> bool {
        &&& version_keys(self.versions@).no_duplicates()
        &&& forall|i: int| 0 <= i < self.versions@.len() ==> (#[trigger] self.versions@[i]).1@.len() <= MAX_VERSIONS
    }

    /// Every key's versions rise strictly, so a version number names at
    /// most one record of a key.
    pub open spec fn all_versions_increasing(&self) -> bool {
        forall|k: Seq<char>| #[trigger] versions_increasing(self.history(k))
    }

    /// The versions kept for `key`, oldest first; empty for an unknown key.
    pub open spec fn history(&self, key: Seq<char>) -> Seq<VersionRecord> {
        match lookup_keyed(self.versions@, version_keys(self.versions@), key) {
            Some(p) => p.1@,
            None => Seq::empty(),
        }
    }

    /// An empty store.
    pub fn new() -> (s: Self)
        ensures
            s.wf(),
            forall|k: Seq<char>| #[trigger] s.history(k).len() == 0,
            s.all_versions_increasing(),
    {
        let s = Self { versions: Vec::new() };
        assert(version_keys(s.versions@) =~= Seq::<Seq<char>>::empty());
        s
    }

    /// Position of the entry for `key`.
    fn index_of_key(&self, key: &str) -> (r: Option<usize>)
        ensures
            match r {
                Some(i) => i < self.versions@.len() && self.versions@[i as int].0@ == key@,
                None => !version_keys(self.versions@).contains(key@),
            },
    {
        let mut i: usize = 0;
        while i < self.versions.len()
            invariant
                i <= self.versions@.len(),
                forall|j: int| 0 <= j < i ==> self.versions@[j].0@ != key@,
            decreases self.versions@.len() - i,
        {
            if str_equal(self.versions[i].0.as_str(), key) {
                return Some(i);
            }
            i = i + 1;
        }
        proof {
            if version_keys(self.versions@).contains(key@) {
                let j = version_keys(self.versions@).index_of(key@);
                assert(self.versions@[j].0@ == key@);
            }
        }
        None
    }

    /// Records a new version of `key` at time `now`, numbered one past the
    /// last version kept (1 for the first); beyond `MAX_VERSIONS` the oldest
    /// is dropped. Versions that rise strictly keep rising, so a version
    /// number names at most one record.
    pub fn add_version_at(&mut self, key: &str, value: &str, tags: &[String], op: &str, now: u64)
        requires
            old(self).wf(),
            old(self).history(key@).len() > 0 ==> old(self).history(key@).last().version < u64::MAX,
        ensures
            final(self).wf(),
            ({
                let h = old(self).history(key@);
                let h2 = final(self).history(key@);
                &&& record_is(h2.last(), next_version(h), key@, value@, texts(tags@), now, op@)
                &&& (versions_increasing(h) ==> versions_increasing(h2))
                &&& if h.len() < MAX_VERSIONS {
                    h2.len() == h.len() + 1 && h2.drop_last() == h
                } else {
                    h2.len() == h.len() && h2.drop_last() == h.drop_first()
                }
            }),
            forall|k: Seq<char>| k != key@ ==> #[trigger] final(self).history(k) == old(self).history(k),
            old(self).all_versions_increasing() ==> final(self).all_versions_increasing(),
    {
        let ghost before = self.versions@;
        let ghost h = self.history(key@);
        let record_key = String::from_str(key);
        let record_value = String::from_str(value);
        let record_tags = clone_strings(tags);
        let record_op = String::from_str(op);
        let slot = self.index_of_key(key);
        let ghost idx: int = match slot {
            Some(i) => i as int,
            None => before.len() as int,
        };
        let mut entry: Vec<VersionRecord> = match slot {
            Some(i) => {
                proof {
                    lemma_index_of_unique(version_keys(self.versions@), i as int);
                }
                let mut taken: Vec<VersionRecord> = Vec::new();
                std::mem::swap(&mut taken, &mut self.versions[i].1);
                taken
            },
            None => Vec::new(),
        };
        assert(entry@ == h);
        let version: u64 = if entry.len() == 0 {
            1
        } else {
            entry[entry.len() - 1].version + 1
        };
        entry.push(
            VersionRecord {
                version,
                key: record_key,
                value: record_value,
                tags: record_tags,
                timestamp: now,
                operation: record_op,
            },
        );
        if entry.len() > MAX_VERSIONS {
            entry.remove(0);
        }
        let ghost h2 = entry@;
        proof {
            if h.len() >= MAX_VERSIONS {
                assert(h2.drop_last() =~= h.drop_first());
            } else {
                assert(h2.drop_last() =~= h);
            }
            if versions_increasing(h) {
                let h1 = h.push(h2.last());
                assert forall|i: int, j: int| 0 <= i < j < h1.len() implies h1[i].version < h1[j].version by {
                    if j == h.len() && i < h.len() - 1 {
                        assert(h[i].version < h[h.len() - 1].version);
                    }
                }
                if h.len() >= MAX_VERSIONS {
                    assert(h2 =~= h1.drop_first());
                    assert forall|i: int, j: int| 0 <= i < j < h2.len() implies h2[i].version < h2[j].version by {
                        assert(h2[i] == h1[i + 1] && h2[j] == h1[j + 1]);
                    }
                } else {
                    assert(h2 =~= h1);
                }
            }
        }
        match slot {
            Some(i) => {
                self.versions.set(i, (String::from_str(key), entry));
            },
            None => {
                self.versions.push((String::from_str(key), entry));
            },
        }
        proof {
            let kb = version_keys(before);
            let ka = version_keys(self.versions@);
            lemma_keyed_update(before, self.versions@, kb, ka, idx, key@);
            assert forall|k: Seq<char>| k != key@ implies #[trigger] self.history(k) == old(self).history(k) by {
                assert(lookup_keyed(self.versions@, ka, k) == lookup_keyed(before, kb, k));
            }
            if old(self).all_versions_increasing() {
                assert(versions_increasing(h));
                assert forall|k: Seq<char>| #[trigger] versions_increasing(self.history(k)) by {
                    if k != key@ {
                        assert(self.history(k) == old(self).history(k));
                        assert(versions_increasing(old(self).history(k)));
                    }
                }
            }
            assert forall|i: int| 0 <= i < self.versions@.len() implies (#[trigger] self.versions@[i]).1@.len()
                <= MAX_VERSIONS by {
                if i != idx {
                    assert(self.versions@[i] == before[i]);
                }
            }
        }
    }

    /// Records a new version of `key` at the time of the system clock.
    pub fn add_version(&mut self, key: &str, value: &str, tags: &[String], op: &str)
        requires
            old(self).wf(),
            old(self).history(key@).len() > 0 ==> old(self).history(key@).last().version < u64::MAX,
        ensures
            final(self).wf(),
            ({
                let h = old(self).history(key@);
                let h2 = final(self).history(key@);
                &&& exists|now: u64|
                    #[trigger] record_is(h2.last(), next_version(h), key@, value@, texts(tags@), now, op@)
                &&& (versions_increasing(h) ==> versions_increasing(h2))
                &&& if h.len() < MAX_VERSIONS {
                    h2.len() == h.len() + 1 && h2.drop_last() == h
                } else {
                    h2.len() == h.len() && h2.drop_last() == h.drop_first()
                }
            }),
            forall|k: Seq<char>| k != key@ ==> #[trigger] final(self).history(k) == old(self).history(k),
            old(self).all_versions_increasing() ==> final(self).all_versions_increasing(),
    {
        let now = now_secs();
        self.add_version_at(key, value, tags, op, now);
    }

    /// The versions kept for `key`, oldest first.
    pub fn get_history(&self, key: &str) -> (h: Vec<&VersionRecord>)
        requires
            self.wf(),
        ensures
            h@.len() == self.history(key@).len(),
            forall|i: int| 0 <= i < h@.len() ==> *(#[trigger] h@[i]) == self.history(key@)[i],
    {
        let mut out: Vec<&VersionRecord> = Vec::new();
        match self.index_of_key(key) {
            Some(k) => {
                proof {
                    lemma_index_of_unique(version_keys(self.versions@), k as int);
                }
                let records = &self.versions[k].1;
                let mut i: usize = 0;
                while i < records.len()
                    invariant
                        i <= records@.len(),
                        out@.len() == i,
                        forall|j: int| 0 <= j < i ==> *(#[trigger] out@[j]) == records@[j],
                    decreases records@.len() - i,
                {
                    out.push(&records[i]);
                    i = i + 1;
                }
            },
            None => {},
        }
        out
    }

    /// The first kept version of `key` numbered `version`, if any.
    pub fn get_version(&self, key: &str, version: u64) -> (r: Option<&VersionRecord>)
        requires
            self.wf(),
        ensures
            match r {
                Some(rec) => exists|i: int|
                    0 <= i < self.history(key@).len() && self.history(key@)[i] == *rec && rec.version == version
                        && forall|j: int| 0 <= j < i ==> (#[trigger] self.history(key@)[j]).version != version,
                None => forall|i: int|
                    0 <= i < self.history(key@).len() ==> (#[trigger] self.history(key@)[i]).version != version,
            },
    {
        match self.index_of_key(key) {
            Some(k) => {
                proof {
                    lemma_index_of_unique(version_keys(self.versions@), k as int);
                }
                let records = &self.versions[k].1;
                let mut i: usize = 0;
                while i < records.len()
                    invariant
                        i <= records@.len(),
                        records@ == self.history(key@),
                        forall|j: int| 0 <= j < i ==> (#[trigger] records@[j]).version != version,
                    decreases records@.len() - i,
                {
                    if records[i].version == version {
                        return Some(&records[i]);
                    }
                    i = i + 1;
                }
                None
            },
            None => None,
        }
    }
}

impl Default for VersionStore {
    fn default() -> (s: Self)
        ensures
            s.wf(),
            forall|k: Seq<char>| #[trigger] s.history(k).len() == 0,
            s.all_versions_increasing(),
    {
        Self::new()
    }
}

/// A key never keeps more than `MAX_VERSIONS` versions, however many are
/// added.
pub proof fn lemma_history_bounded(store: VersionStore, key: Seq<char>)
    requires
        store.wf(),
    ensures
        store.history(key).len() <= MAX_VERSIONS,
{
    let ks = version_keys(store.versions@);
    if ks.contains(key) {
        let i = ks.index_of(key);
        assert(store.versions@[i].1@.len() <= MAX_VERSIONS);
    }
}

/// The lines of a text (`str::lines`): split after each `\n`, a `\r`
/// right before a `\n` dropped with it; a final line ending adds no empty
/// line, and an empty text has no lines.
pub open spec fn text_lines(s: Seq<char>) -> Seq<Seq<char>>
    decreases s.len(),
{
    if s.len() == 0 {
        Seq::empty()
    } else {
        match find_char_from(s, '\n', 0) {
            Some(k) => {
                let l = s.take(k);
                let line = if k > 0 && l.last() == '\r' { l.drop_last() } else { l };
                if 0 <= k < s.len() {
                    seq![line] + text_lines(s.skip(k + 1))
                } else {
                    seq![line]
                }
            },
            None => seq![s],
        }
    }
}

/// Line `i` of `ls`, or the empty text past the end.
pub open spec fn line_or_empty(ls: Seq<Seq<char>>, i: int) -> Seq<char> {
    if 0 <= i < ls.len() {
        ls[i]
    } else {
        Seq::empty()
    }
}

/// The differing lines of `a` and `b` from line `i` on, up to line `n`:
/// each as its 1-based number with the old and the new text.
pub open spec fn diffs_from(a: Seq<Seq<char>>, b: Seq<Seq<char>>, i: int, n: int) -> Seq<(int, Seq<char>, Seq<char>)>
    decreases n - i,
{
    if i >= n {
        Seq::empty()
    } else if line_or_empty(a, i) != line_or_empty(b, i) {
        seq![(i + 1, line_or_empty(a, i), line_or_empty(b, i))] + diffs_from(a, b, i + 1, n)
    } else {
        diffs_from(a, b, i + 1, n)
    }
}

/// The line-by-line differences of two texts: for each line number up to
/// the longer text's line count where the lines differ (a missing line
/// reads as empty), the number and both lines.
pub open spec fn line_diffs(v1: Seq<char>, v2: Seq<char>) -> Seq<(int, Seq<char>, Seq<char>)> {
    let a = text_lines(v1);
    let b = text_lines(v2);
    diffs_from(a, b, 0, if a.len() >= b.len() { a.len() as int } else { b.len() as int })
}

/// Each line of `d` with its old and new text exchanged.
pub open spec fn swap_sides(d: Seq<(int, Seq<char>, Seq<char>)>) -> Seq<(int, Seq<char>, Seq<char>)> {
    d.map_values(|e: (int, Seq<char>, Seq<char>)| (e.0, e.2, e.1))
}

proof fn lemma_diffs_from_exact(a: Seq<Seq<char>>, b: Seq<Seq<char>>, i: int, n: int)
    requires
        0 <= i,
    ensures
        forall|j: int|
            i <= j < n && line_or_empty(a, j) != line_or_empty(b, j) ==> #[trigger] diffs_from(a, b, i, n).contains(
                (j + 1, line_or_empty(a, j), line_or_empty(b, j)),
            ),
        forall|t: int|
            0 <= t < diffs_from(a, b, i, n).len() ==> {
                let e = #[trigger] diffs_from(a, b, i, n)[t];
                &&& i + 1 <= e.0 <= n
                &&& e.1 == line_or_empty(a, e.0 - 1)
                &&& e.2 == line_or_empty(b, e.0 - 1)
                &&& e.1 != e.2
            },
        diffs_from(b, a, i, n) == swap_sides(diffs_from(a, b, i, n)),
    decreases n - i,
{
    if i < n {
        lemma_diffs_from_exact(a, b, i + 1, n);
        let rest = diffs_from(a, b, i + 1, n);
        let d = diffs_from(a, b, i, n);
        if line_or_empty(a, i) != line_or_empty(b, i) {
            let head = (i + 1, line_or_empty(a, i), line_or_empty(b, i));
            assert(d == seq![head] + rest);
            assert forall|j: int|
                i <= j < n && line_or_empty(a, j) != line_or_empty(b, j) implies #[trigger] d.contains(
                (j + 1, line_or_empty(a, j), line_or_empty(b, j)),
            ) by {
                if j == i {
                    assert(d[0] == head);
                } else {
                    assert(rest.contains((j + 1, line_or_empty(a, j), line_or_empty(b, j))));
                    let t = choose|t: int| 0 <= t < rest.len() && rest[t] == (j + 1, line_or_empty(a, j), line_or_empty(b, j));
                    assert(d[t + 1] == rest[t]);
                }
            }
            assert forall|t: int| 0 <= t < d.len() implies {
                let e = #[trigger] d[t];
                &&& i + 1 <= e.0 <= n
                &&& e.1 == line_or_empty(a, e.0 - 1)
                &&& e.2 == line_or_empty(b, e.0 - 1)
                &&& e.1 != e.2
            } by {
                if t > 0 {
                    assert(d[t] == rest[t - 1]);
                }
            }
            assert(swap_sides(d) =~= seq![(i + 1, line_or_empty(b, i), line_or_empty(a, i))] + swap_sides(rest));
        } else {
            assert(d == rest);
            assert forall|t: int| 0 <= t < d.len() implies {
                let e = #[trigger] d[t];
                &&& i + 1 <= e.0 <= n
                &&& e.1 == line_or_empty(a, e.0 - 1)
                &&& e.2 == line_or_empty(b, e.0 - 1)
                &&& e.1 != e.2
            } by {
                assert(d[t] == rest[t]);
            }
        }
    } else {
        assert(swap_sides(diffs_from(a, b, i, n)) =~= Seq::<(int, Seq<char>, Seq<char>)>::empty());
    }
}

/// The line diff reports every line, up to the longer text's line count,
/// where the two texts differ (a missing line reading as empty), and only
/// those, each with its 1-based number and both texts; diffing the other
/// way round exchanges the two texts of each entry.
pub proof fn lemma_line_diff_reports_every_change(v1: Seq<char>, v2: Seq<char>)
    ensures
        ({
            let a = text_lines(v1);
            let b = text_lines(v2);
            let n = if a.len() >= b.len() { a.len() as int } else { b.len() as int };
            &&& forall|j: int|
                0 <= j < n && line_or_empty(a, j) != line_or_empty(b, j) ==> #[trigger] line_diffs(v1, v2).contains(
                    (j + 1, line_or_empty(a, j), line_or_empty(b, j)),
                )
            &&& forall|t: int|
                0 <= t < line_diffs(v1, v2).len() ==> {
                    let e = #[trigger] line_diffs(v1, v2)[t];
                    &&& 1 <= e.0 <= n
                    &&& e.1 == line_or_empty(a, e.0 - 1)
                    &&& e.2 == line_or_empty(b, e.0 - 1)
                    &&& e.1 != e.2
                }
            &&& line_diffs(v2, v1) == swap_sides(line_diffs(v1, v2))
        }),
{
    let a = text_lines(v1);
    let b = text_lines(v2);
    let n = if a.len() >= b.len() { a.len() as int } else { b.len() as int };
    lemma_diffs_from_exact(a, b, 0, n);
    assert(line_diffs(v1, v2) == diffs_from(a, b, 0, n));
    assert(line_diffs(v2, v1) == diffs_from(b, a, 0, n));
}

/// The lines of `text`.
pub fn lines_of(text: &str) -> (ls: Vec<String>)
    ensures
        ls@.len() == text_lines(text@).len(),
        forall|i: int| 0 <= i < ls@.len() ==> #[trigger] ls@[i]@ == text_lines(text@)[i],
{
    let v = chars_of(text);
    let n = v.len();
    let mut out: Vec<String> = Vec::new();
    let mut start: usize = 0;
    proof {
        assert(text@.skip(0) =~= text@);
    }
    while start < n
        invariant
            v@ == text@,
            n == v@.len(),
            start <= n,
            text_lines(text@) == out@.map_values(|x: String| x@) + text_lines(text@.skip(start as int)),
        decreases n - start,
    {
        let ghost t = text@.skip(start as int);
        let mut k: usize = start;
        while k < n && v[k] != '\n'
            invariant
                v@ == text@,
                n == v@.len(),
                start <= k <= n,
                t == text@.skip(start as int),
                forall|j: int| start <= j < k ==> v@[j] != '\n',
                find_char_from(t, '\n', k - start) == find_char_from(t, '\n', 0),
            decreases n - k,
        {
            k = k + 1;
        }
        let end = if k > start && v[k - 1] == '\r' && k < n { k - 1 } else { k };
        let line = text.substring_char(start, end).to_owned();
        proof {
            let kk = (k - start) as int;
            if k < n {
                assert(find_char_from(t, '\n', 0) == Some(kk));
                assert(t.take(kk) =~= text@.subrange(start as int, k as int));
                assert(t.skip(kk + 1) =~= text@.skip(k + 1));
                if k > start && v@[k - 1] == '\r' {
                    assert(t.take(kk).drop_last() =~= text@.subrange(start as int, end as int));
                }
            } else {
                assert(find_char_from(t, '\n', kk) is None);
                assert(t =~= text@.subrange(start as int, n as int));
            }
        }
        let ghost before = out@;
        out.push(line);
        proof {
            assert(out@.map_values(|x: String| x@) =~= before.map_values(|x: String| x@).push(line@));
            if k < n {
                assert(text_lines(t) == seq![line@] + text_lines(text@.skip(k + 1)));
            } else {
                assert(text_lines(t) == seq![line@]);
                assert(text@.skip(n as int) =~= Seq::<char>::empty());
            }
        }
        start = if k < n { k + 1 } else { n };
    }
    proof {
        assert(text@.skip(n as int) =~= Seq::<char>::empty());
        assert(text_lines(text@) =~= out@.map_values(|x: String| x@));
    }
    out
}

/// The texts of a list of line differences.
pub open spec fn diff_view(d: Seq<(usize, String, String)>) -> Seq<(int, Seq<char>, Seq<char>)> {
    d.map_values(|x: (usize, String, String)| (x.0 as int, x.1@, x.2@))
}

/// The line-by-line differences of two texts (see `line_diffs`).
pub fn line_diff(v1: &str, v2: &str) -> (d: Vec<(usize, String, String)>)
    ensures
        diff_view(d@) == line_diffs(v1@, v2@),
{
    let a = lines_of(v1);
    let b = lines_of(v2);
    let ghost la = text_lines(v1@);
    let ghost lb = text_lines(v2@);
    let n = if a.len() >= b.len() { a.len() } else { b.len() };
    let mut d: Vec<(usize, String, String)> = Vec::new();
    let mut i: usize = 0;
    while i < n
        invariant
            a@.len() == la.len(),
            b@.len() == lb.len(),
            forall|j: int| 0 <= j < a@.len() ==> #[trigger] a@[j]@ == la[j],
            forall|j: int| 0 <= j < b@.len() ==> #[trigger] b@[j]@ == lb[j],
            n == if la.len() >= lb.len() { la.len() } else { lb.len() },
            i <= n,
            diffs_from(la, lb, 0, n as int) == diff_view(d@) + diffs_from(la, lb, i as int, n as int),
        decreases n - i,
    {
        let l1 = if i < a.len() { a[i].clone() } else { String::new() };
        let l2 = if i < b.len() { b[i].clone() } else { String::new() };
        assert(l1@ == line_or_empty(la, i as int));
        assert(l2@ == line_or_empty(lb, i as int));
        let ghost before = d@;
        if !str_equal(l1.as_str(), l2.as_str()) {
            d.push((i + 1, l1, l2));
            assert(diff_view(d@) =~= diff_view(before).push(((i + 1) as int, line_or_empty(la, i as int), line_or_empty(lb, i as int))));
            assert(diff_view(d@) + diffs_from(la, lb, i + 1, n as int) =~= diff_view(before) + diffs_from(la, lb, i as int, n as int));
        }
        i = i + 1;
    }
    assert(diff_view(d@) + diffs_from(la, lb, n as int, n as int) =~= diff_view(d@));
    d
}

} // verus!
