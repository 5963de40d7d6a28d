use vstd::prelude::*;
use crate::bytes::str_equal;
use crate::sorting::{sort_desc, stable_sort_desc};
use crate::unit::Yang;

verus! {

/// Whether a tag list holds the tag `tag`.
pub open spec fn has_tag(tags: Seq<String>, tag: Seq<char>) -> bool {
    exists|i: int| 0 <= i < tags.len() && tags[i]@ == tag
}

/// Index of the first entry named `name`, or the length when none is.
pub open spec fn first_named(s: Seq<Yang>, name: Seq<char>) -> nat
    decreases s.len(),
{
    if s.len() == 0 {
        0
    } else if s[0].name@ == name {
        0
    } else {
        1 + first_named(s.drop_first(), name)
    }
}

/// The entries paired with their heat, in index order.
pub open spec fn heat_keyed(s: Seq<Yang>) -> Seq<(u64, Yang)> {
    s.map_values(|y: Yang| (y.heat as u64, y))
}

pub open spec fn deref_all(s: Seq<&Yang>) -> Seq<Yang> {
    s.map_values(|y: &Yang| *y)
}

/// Whether any tag in the list equals `tag`.
pub fn tags_contain(tags: &Vec<String>, tag: &str) -> (found: bool)
    ensures
        found == has_tag(tags@, tag@),
{
    let mut i: usize = 0;
    while i < tags.len()
        invariant
            i <= tags@.len(),
            forall|j: int| 0 <= j < i ==> tags@[j]@ != tag@,
        decreases tags@.len() - i,
    {
        if str_equal(tags[i].as_str(), tag) {
            return true;
        }
        i = i + 1;
    }
    false
}

/// The name layer: metadata entries looked up by logical name or tag.
pub struct NameIndex {
    entries: Vec<Yang>,
}

impl NameIndex {
    pub closed spec fn entries(&self) -> Seq<Yang> {
        self.entries@
    }

    pub fn new() -> (idx: Self)
        ensures
            idx.entries() == Seq::<Yang>::empty(),
    {
        Self { entries: Vec::new() }
    }

    pub fn insert(&mut self, yang: Yang)
        ensures
            final(self).entries() == old(self).entries().push(yang),
    {
        self.entries.push(yang);
    }

    /// The first entry named `name`.
    pub fn find_by_name(&self, name: &str) -> (found: Option<&Yang>)
        ensures
            first_named(self.entries(), name@) < self.entries().len() ==> found == Some(
                &self.entries()[first_named(self.entries(), name@) as int],
            ),
            first_named(self.entries(), name@) >= self.entries().len() ==> found is None,
    {
        let mut i: usize = 0;
        assert(self.entries@.subrange(0, self.entries@.len() as int) =~= self.entries@);
        while i < self.entries.len()
            invariant
                i <= self.entries@.len(),
                first_named(self.entries@, name@) == i + first_named(
                    self.entries@.subrange(i as int, self.entries@.len() as int),
                    name@,
                ),
            decreases self.entries@.len() - i,
        {
            let ghost rest = self.entries@.subrange(i as int, self.entries@.len() as int);
            if str_equal(self.entries[i].name.as_str(), name) {
                assert(rest[0] == self.entries@[i as int]);
                return Some(&self.entries[i]);
            }
            assert(rest.drop_first() =~= self.entries@.subrange(i as int + 1, self.entries@.len() as int));
            i = i + 1;
        }
        None
    }

    /// The entries that carry `tag`, in insertion order.
    pub fn find_by_tag(&self, tag: &str) -> (found: Vec<&Yang>)
        ensures
            deref_all(found@) == self.entries().filter(|y: Yang| has_tag(y.tags@, tag@)),
    {
        let ghost pred = |y: Yang| has_tag(y.tags@, tag@);
        let mut found: Vec<&Yang> = Vec::new();
        let mut i: usize = 0;
        while i < self.entries.len()
            invariant
                i <= self.entries@.len(),
                pred == (|y: Yang| has_tag(y.tags@, tag@)),
                deref_all(found@) == self.entries@.take(i as int).filter(pred),
            decreases self.entries@.len() - i,
        {
            proof {
                reveal_with_fuel(Seq::filter, 1);
                assert(self.entries@.take(i as int + 1).drop_last() =~= self.entries@.take(i as int));
            }
            if tags_contain(&self.entries[i].tags, tag) {
                found.push(&self.entries[i]);
                assert(deref_all(found@) =~= self.entries@.take(i as int + 1).filter(pred));
            } else {
                assert(deref_all(found@) =~= self.entries@.take(i as int + 1).filter(pred));
            }
            i = i + 1;
        }
        assert(self.entries@.take(self.entries@.len() as int) =~= self.entries@);
        found
    }

    /// The `n` hottest entries, hottest first; entries of equal heat keep
    /// their insertion order.
    pub fn hottest(&self, n: usize) -> (top: Vec<&Yang>)
        ensures
            deref_all(top@) == sort_desc(heat_keyed(self.entries())).map_values(|p: (u64, Yang)| p.1).take(
                if n < self.entries().len() { n as int } else { self.entries().len() as int },
            ),
    {
        let mut keyed: Vec<(u64, &Yang)> = Vec::new();
        let mut i: usize = 0;
        while i < self.entries.len()
            invariant
                i <= self.entries@.len(),
                keyed@.len() == i,
                forall|j: int| 0 <= j < i ==> (#[trigger] keyed@[j]).0 == self.entries@[j].heat as u64 && *keyed@[j].1
                    == self.entries@[j],
            decreases self.entries@.len() - i,
        {
            keyed.push((self.entries[i].heat as u64, &self.entries[i]));
            i = i + 1;
        }
        let sorted = stable_sort_desc(keyed);
        let ghost target = sort_desc(heat_keyed(self.entries@));
        proof {
            lemma_sort_desc_deref(keyed@, heat_keyed(self.entries@));
            crate::sorting::lemma_sort_desc_is_desc(heat_keyed(self.entries@));
        }
        let limit = if n < sorted.len() { n } else { sorted.len() };
        let mut top: Vec<&Yang> = Vec::new();
        let mut j: usize = 0;
        while j < limit
            invariant
                limit <= sorted@.len(),
                j <= limit,
                top@.len() == j,
                sorted@.len() == target.len(),
                forall|t: int| 0 <= t < sorted@.len() ==> *(#[trigger] sorted@[t]).1 == target[t].1,
                forall|t: int| 0 <= t < j ==> *(#[trigger] top@[t]) == target[t].1,
            decreases limit - j,
        {
            top.push(sorted[j].1);
            j = j + 1;
        }
        assert(deref_all(top@) =~= target.map_values(|p: (u64, Yang)| p.1).take(limit as int));
        top
    }
}

/// Sorting entries keyed by reference orders them as sorting the entries
/// themselves does.
proof fn lemma_sort_desc_deref(a: Seq<(u64, &Yang)>, b: Seq<(u64, Yang)>)
    requires
        a.len() == b.len(),
        forall|j: int| 0 <= j < a.len() ==> (#[trigger] a[j]).0 == b[j].0 && *a[j].1 == b[j].1,
    ensures
        sort_desc(a).len() == sort_desc(b).len(),
        forall|t: int| 0 <= t < sort_desc(a).len() ==> (#[trigger] sort_desc(a)[t]).0 == sort_desc(b)[t].0 && *sort_desc(a)[t].1 == sort_desc(b)[t].1,
    decreases a.len(),
{
    if a.len() > 0 {
        let da = a.drop_last();
        let db = b.drop_last();
        assert forall|j: int| 0 <= j < da.len() implies (#[trigger] da[j]).0 == db[j].0 && *da[j].1 == db[j].1 by {
            assert(da[j] == a[j]);
            assert(db[j] == b[j]);
        }
        lemma_sort_desc_deref(da, db);
        let ra = sort_desc(da);
        let rb = sort_desc(db);
        lemma_insert_position_same(ra, rb, a.last().0);
        crate::sorting::lemma_insert_position_bound(ra, a.last().0);
        let p = crate::sorting::insert_position(ra, a.last().0);
        assert(a.last() == a[a.len() - 1]);
        assert(b.last() == b[b.len() - 1]);
        assert(sort_desc(a) == ra.insert(p as int, a.last()));
        assert(sort_desc(b) == rb.insert(p as int, b.last()));
        assert forall|t: int| 0 <= t < sort_desc(a).len() implies (#[trigger] sort_desc(a)[t]).0 == sort_desc(b)[t].0
            && *sort_desc(a)[t].1 == sort_desc(b)[t].1 by {
            if t < p {
                assert(sort_desc(a)[t] == ra[t]);
                assert(sort_desc(b)[t] == rb[t]);
            } else if t > p {
                assert(sort_desc(a)[t] == ra[t - 1]);
                assert(sort_desc(b)[t] == rb[t - 1]);
            }
        }
    }
}

proof fn lemma_insert_position_same(ra: Seq<(u64, &Yang)>, rb: Seq<(u64, Yang)>, key: u64)
    requires
        ra.len() == rb.len(),
        forall|j: int| 0 <= j < ra.len() ==> (#[trigger] ra[j]).0 == rb[j].0,
    ensures
        crate::sorting::insert_position(ra, key) == crate::sorting::insert_position(rb, key),
    decreases ra.len(),
{
    if ra.len() > 0 {
        let ta = ra.drop_first();
        let tb = rb.drop_first();
        assert forall|j: int| 0 <= j < ta.len() implies (#[trigger] ta[j]).0 == tb[j].0 by {
            assert(ta[j] == ra[j + 1]);
            assert(tb[j] == rb[j + 1]);
        }
        lemma_insert_position_same(ta, tb, key);
    }
}

impl Default for NameIndex {
    fn default() -> (idx: Self)
        ensures
            idx.entries() == Seq::<Yang>::empty(),
    {
        Self::new()
    }
}

} // verus!
