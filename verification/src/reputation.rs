use vstd::prelude::*;
use crate::bytes::str_equal;
use crate::clock::now_secs;

verus! {

/// Reputation of one node.
#[derive(Debug, Clone)]
pub struct ReputationEntry {
    pub node_id: String,
    pub score: i8,
    pub successes: u64,
    pub failures: u64,
    pub last_seen: u64,
}

/// Index of the first entry for `id`, or the length when there is none.
pub open spec fn find_entry(s: Seq<ReputationEntry>, id: Seq<char>) -> nat
    decreases s.len(),
{
    if s.len() == 0 {
        0
    } else if s[0].node_id@ == id {
        0
    } else {
        1 + find_entry(s.drop_first(), id)
    }
}

pub proof fn lemma_find_entry(s: Seq<ReputationEntry>, id: Seq<char>)
    ensures
        find_entry(s, id) <= s.len(),
        find_entry(s, id) < s.len() ==> s[find_entry(s, id) as int].node_id@ == id,
        forall|j: int| 0 <= j < find_entry(s, id) ==> s[j].node_id@ != id,
    decreases s.len(),
{
    if s.len() > 0 && s[0].node_id@ != id {
        lemma_find_entry(s.drop_first(), id);
        assert forall|j: int| 0 <= j < find_entry(s, id) implies s[j].node_id@ != id by {
            if j > 0 {
                assert(s[j] == s.drop_first()[j - 1]);
            }
        }
    }
}

/// Reputation table: +1 per success, -2 per failure, always within [-100, 100].
pub struct ReputationTable {
    entries: Vec<ReputationEntry>,
}

/// `after` is `before` with the entry at `idx` (appended when `idx` is the
/// length) replaced and every other entry unchanged.
pub open spec fn changed_only_at(before: Seq<ReputationEntry>, after: Seq<ReputationEntry>, idx: nat) -> bool {
    &&& idx <= before.len()
    &&& after.len() == if idx < before.len() { before.len() } else { before.len() + 1 }
    &&& forall|j: int| 0 <= j < before.len() && j != idx ==> after[j] == before[j]
}

impl ReputationTable {
    pub closed spec fn entry_seq(&self) -> Seq<ReputationEntry> {
        self.entries@
    }

    /// Every score lies in [-100, 100].
    pub open spec fn wf(&self) -> bool {
        &&& forall|j: int| 0 <= j < self.entry_seq().len() ==> -100 <= (#[trigger] self.entry_seq()[j]).score <= 100
        &&& forall|a: int, b: int|
            0 <= a < b < self.entry_seq().len() ==> (#[trigger] self.entry_seq()[a]).node_id@ != (
            #[trigger] self.entry_seq()[b]).node_id@
    }

    /// Score, successes, failures and last-seen time of `id`; all zero for an
    /// unknown node.
    pub open spec fn base(&self, id: Seq<char>) -> (i8, u64, u64, u64) {
        match self.lookup(id) {
            Some(e) => (e.score, e.successes, e.failures, e.last_seen),
            None => (0, 0, 0, 0),
        }
    }

    /// The entry for `id`, if any.
    pub open spec fn lookup(&self, id: Seq<char>) -> Option<ReputationEntry> {
        lookup_in(self.entry_seq(), id)
    }

    /// The score of `id`: 0 for an unknown node.
    pub open spec fn spec_score(&self, id: Seq<char>) -> i8 {
        match self.lookup(id) {
            Some(e) => e.score,
            None => 0,
        }
    }

    /// An empty table.
    pub fn new() -> (t: Self)
        ensures
            t.entry_seq() == Seq::<ReputationEntry>::empty(),
            t.wf(),
    {
        Self { entries: Vec::new() }
    }

    /// The entry for `node_id`, created with zero score and counters when absent.
    pub fn get_or_create(&mut self, node_id: &str) -> (e: &mut ReputationEntry)
        ensures
            ({
                let idx = find_entry(old(self).entry_seq(), node_id@);
                &&& changed_only_at(old(self).entry_seq(), final(self).entry_seq(), idx)
                &&& final(self).entry_seq()[idx as int] == *final(e)
                &&& idx < old(self).entry_seq().len() ==> *e == old(self).entry_seq()[idx as int]
                &&& idx == old(self).entry_seq().len() ==> (e.node_id@ == node_id@ && e.score == 0 && e.successes
                    == 0 && e.failures == 0 && e.last_seen == 0)
            }),
    {
        proof {
            lemma_find_entry(self.entries@, node_id@);
        }
        let idx = self.index_of(node_id);
        if idx == self.entries.len() {
            self.entries.push(
                ReputationEntry {
                    node_id: String::from_str(node_id),
                    score: 0,
                    successes: 0,
                    failures: 0,
                    last_seen: 0,
                },
            );
        }
        &mut self.entries[idx]
    }

    /// Index of the first entry for `node_id`, or the length when none.
    fn index_of(&self, node_id: &str) -> (i: usize)
        ensures
            i == find_entry(self.entries@, node_id@),
    {
        let mut i: usize = 0;
        proof {
            lemma_find_entry(self.entries@, node_id@);
        }
        while i < self.entries.len()
            invariant
                i <= self.entries@.len(),
                forall|j: int| 0 <= j < i ==> self.entries@[j].node_id@ != node_id@,
                find_entry(self.entries@, node_id@) <= self.entries@.len(),
                find_entry(self.entries@, node_id@) < self.entries@.len() ==> self.entries@[find_entry(
                    self.entries@,
                    node_id@,
                ) as int].node_id@ == node_id@,
                forall|j: int| 0 <= j < find_entry(self.entries@, node_id@) ==> self.entries@[j].node_id@ != node_id@,
            decreases self.entries@.len() - i,
        {
            if str_equal(self.entries[i].node_id.as_str(), node_id) {
                return i;
            }
            i = i + 1;
        }
        i
    }

    /// A success: one more success, score up by one (at most 100).
    pub fn reward(&mut self, node_id: &str)
        requires
            old(self).wf(),
            old(self).base(node_id@).1 < u64::MAX,
        ensures
            final(self).wf(),
            ({
                let b = old(self).base(node_id@);
                final(self).lookup(node_id@) matches Some(e) && entry_is(
                    e,
                    node_id@,
                    (if b.0 + 1 > 100 { 100 } else { (b.0 + 1) as i8 }, (b.1 + 1) as u64, b.2, b.3),
                )
            }),
            forall|o: Seq<char>| o != node_id@ ==> #[trigger] final(self).lookup(o) == old(self).lookup(o),
    {
        let ghost before = self.entries@;
        proof {
            lemma_find_entry(before, node_id@);
        }
        let entry = self.get_or_create(node_id);
        entry.successes = entry.successes + 1;
        let raised: i8 = entry.score + 1;
        entry.score = if raised < 100 { raised } else { 100 };
        proof {
            self.lemma_after_update(before, node_id@);
        }
    }

    /// A failure: one more failure, score down by two (at least -100).
    pub fn penalize(&mut self, node_id: &str)
        requires
            old(self).wf(),
            old(self).base(node_id@).2 < u64::MAX,
        ensures
            final(self).wf(),
            ({
                let b = old(self).base(node_id@);
                final(self).lookup(node_id@) matches Some(e) && entry_is(
                    e,
                    node_id@,
                    (if b.0 - 2 < -100 { -100i8 } else { (b.0 - 2) as i8 }, b.1, (b.2 + 1) as u64, b.3),
                )
            }),
            forall|o: Seq<char>| o != node_id@ ==> #[trigger] final(self).lookup(o) == old(self).lookup(o),
    {
        let ghost before = self.entries@;
        proof {
            lemma_find_entry(before, node_id@);
        }
        let entry = self.get_or_create(node_id);
        entry.failures = entry.failures + 1;
        let lowered: i8 = entry.score - 2;
        entry.score = if lowered > -100 { lowered } else { -100 };
        proof {
            self.lemma_after_update(before, node_id@);
        }
    }

    /// Records that `node_id` was seen at `now` (seconds since the epoch).
    pub fn touch_at(&mut self, node_id: &str, now: u64)
        requires
            old(self).wf(),
        ensures
            final(self).wf(),
            ({
                let b = old(self).base(node_id@);
                final(self).lookup(node_id@) matches Some(e) && entry_is(e, node_id@, (b.0, b.1, b.2, now))
            }),
            forall|o: Seq<char>| o != node_id@ ==> #[trigger] final(self).lookup(o) == old(self).lookup(o),
    {
        let ghost before = self.entries@;
        proof {
            lemma_find_entry(before, node_id@);
        }
        let entry = self.get_or_create(node_id);
        entry.last_seen = now;
        proof {
            self.lemma_after_update(before, node_id@);
        }
    }

    /// Records that `node_id` was seen now, by the system clock.
    pub fn touch(&mut self, node_id: &str)
        requires
            old(self).wf(),
        ensures
            final(self).wf(),
            ({
                let b = old(self).base(node_id@);
                final(self).lookup(node_id@) matches Some(e) && e.node_id@ == node_id@ && e.score == b.0
                    && e.successes == b.1 && e.failures == b.2
            }),
            forall|o: Seq<char>| o != node_id@ ==> #[trigger] final(self).lookup(o) == old(self).lookup(o),
    {
        let now = now_secs();
        self.touch_at(node_id, now);
    }

    /// The score of `node_id`, 0 when it is unknown.
    pub fn score(&self, node_id: &str) -> (s: i8)
        ensures
            s == self.spec_score(node_id@),
    {
        proof {
            lemma_find_entry(self.entries@, node_id@);
        }
        let idx = self.index_of(node_id);
        if idx < self.entries.len() {
            self.entries[idx].score
        } else {
            0
        }
    }

    /// A node is trusted while its score is not negative.
    pub fn is_trusted(&self, node_id: &str) -> (t: bool)
        ensures
            t == (self.spec_score(node_id@) >= 0),
    {
        self.score(node_id) >= 0
    }

    /// Every entry, each node once.
    pub fn all_entries(&self) -> (v: Vec<&ReputationEntry>)
        ensures
            v@.len() == self.entry_seq().len(),
            forall|j: int| 0 <= j < v@.len() ==> *v@[j] == self.entry_seq()[j],
    {
        let mut v: Vec<&ReputationEntry> = Vec::new();
        let mut i: usize = 0;
        while i < self.entries.len()
            invariant
                i <= self.entries@.len(),
                v@.len() == i,
                forall|j: int| 0 <= j < i ==> *v@[j] == self.entries@[j],
            decreases self.entries@.len() - i,
        {
            v.push(&self.entries[i]);
            i = i + 1;
        }
        v
    }

    /// After `get_or_create(id)` and an update of the returned entry that
    /// kept its name and a score in range: the table is well formed, the
    /// entry for `id` sits where it was (or at the end), and every other
    /// node's entry is unchanged.
    proof fn lemma_after_update(&self, before: Seq<ReputationEntry>, id: Seq<char>)
        requires
            ({
                let idx = find_entry(before, id);
                &&& forall|j: int| 0 <= j < before.len() ==> -100 <= (#[trigger] before[j]).score <= 100
                &&& forall|a: int, b: int| 0 <= a < b < before.len() ==> (#[trigger] before[a]).node_id@ != (#[trigger] before[b]).node_id@
                &&& changed_only_at(before, self.entries@, idx)
                &&& self.entries@[idx as int].node_id@ == id
                &&& -100 <= self.entries@[idx as int].score <= 100
            }),
        ensures
            self.wf(),
            find_entry(self.entry_seq(), id) == find_entry(before, id),
            forall|o: Seq<char>| o != id ==> #[trigger] lookup_in(self.entry_seq(), o) == lookup_in(before, o),
    {
        let after = self.entries@;
        let idx = find_entry(before, id);
        lemma_find_entry(before, id);
        assert forall|a: int, b: int| 0 <= a < b < after.len() implies (#[trigger] after[a]).node_id@ != (
        #[trigger] after[b]).node_id@ by {
            if a == idx {
                assert(after[b] == before[b]);
            } else if b == idx {
                assert(after[a] == before[a]);
            } else {
                assert(after[a] == before[a]);
                assert(after[b] == before[b]);
            }
        }
        assert forall|j: int| 0 <= j < after.len() implies -100 <= (#[trigger] after[j]).score <= 100 by {
            if j != idx {
                assert(after[j] == before[j]);
            }
        }
        lemma_find_unique(after, id, idx);
        assert forall|o: Seq<char>| o != id implies #[trigger] lookup_in(self.entry_seq(), o) == lookup_in(before, o) by {
            lemma_find_entry(before, o);
            let k = find_entry(before, o);
            if k < before.len() {
                assert(k != idx);
                assert(after[k as int] == before[k as int]);
                assert forall|j: int| 0 <= j < k implies after[j].node_id@ != o by {
                    if j != idx {
                        assert(after[j] == before[j]);
                    }
                }
                lemma_find_unique(after, o, k);
            } else {
                assert forall|j: int| 0 <= j < after.len() implies after[j].node_id@ != o by {
                    if j != idx {
                        assert(after[j] == before[j]);
                    }
                }
                lemma_find_unique(after, o, after.len());
            }
        }
    }
}

/// The first entry named `id` in `s`, if any.
pub open spec fn lookup_in(s: Seq<ReputationEntry>, id: Seq<char>) -> Option<ReputationEntry> {
    let i = find_entry(s, id);
    if i < s.len() {
        Some(s[i as int])
    } else {
        None
    }
}

/// A score, successes, failures and last-seen time: the fields of an entry
/// besides its name.
pub open spec fn entry_is(e: ReputationEntry, id: Seq<char>, f: (i8, u64, u64, u64)) -> bool {
    &&& e.node_id@ == id
    &&& e.score == f.0
    &&& e.successes == f.1
    &&& e.failures == f.2
    &&& e.last_seen == f.3
}

/// `k` is where `id` is first found (or the length when it is absent) exactly
/// when no entry before `k` has that name and the entry at `k` has it.
pub proof fn lemma_find_unique(s: Seq<ReputationEntry>, id: Seq<char>, k: nat)
    requires
        k <= s.len(),
        forall|j: int| 0 <= j < k ==> s[j].node_id@ != id,
        k < s.len() ==> s[k as int].node_id@ == id,
    ensures
        find_entry(s, id) == k,
{
    lemma_find_entry(s, id);
    let f = find_entry(s, id);
    if f < k {
        assert(s[f as int].node_id@ == id);
    }
}

impl Default for ReputationTable {
    fn default() -> (t: Self)
        ensures
            t.entry_seq() == Seq::<ReputationEntry>::empty(),
    {
        Self::new()
    }
}

} // verus!
