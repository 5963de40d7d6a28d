use vstd::prelude::*;

verus! {

/// The position at which an entry with key `key` joins a list ordered by
/// descending key: after every leading entry whose key is at least `key`.
pub open spec fn insert_position<T>(r: Seq<(u64, T)>, key: u64) -> nat
    decreases r.len(),
{
    if r.len() == 0 {
        0
    } else if r[0].0 < key {
        0
    } else {
        1 + insert_position(r.drop_first(), key)
    }
}

/// Stable ordering by descending key: entries are taken in order and each is
/// placed after every entry already placed whose key is at least its own, so
/// entries with equal keys keep their original order.
pub open spec fn sort_desc<T>(s: Seq<(u64, T)>) -> Seq<(u64, T)>
    decreases s.len(),
{
    if s.len() == 0 {
        Seq::empty()
    } else {
        let r = sort_desc(s.drop_last());
        r.insert(insert_position(r, s.last().0) as int, s.last())
    }
}

/// Keys are in descending order.
pub open spec fn is_desc<T>(r: Seq<(u64, T)>) -> bool {
    forall|i: int, j: int| 0 <= i < j < r.len() ==> r[i].0 >= r[j].0
}

proof fn lemma_insert_position_prefix<T>(r: Seq<(u64, T)>, key: u64, i: int)
    requires
        0 <= i <= r.len(),
        forall|j: int| 0 <= j < i ==> r[j].0 >= key,
    ensures
        insert_position(r, key) == i + insert_position(r.subrange(i, r.len() as int), key),
    decreases i,
{
    if i > 0 {
        let t = r.drop_first();
        assert forall|j: int| 0 <= j < i - 1 implies t[j].0 >= key by {
            assert(t[j] == r[j + 1]);
        }
        lemma_insert_position_prefix(t, key, i - 1);
        assert(t.subrange(i - 1, t.len() as int) =~= r.subrange(i, r.len() as int));
    } else {
        assert(r.subrange(0, r.len() as int) =~= r);
    }
}

pub proof fn lemma_insert_position_bound<T>(r: Seq<(u64, T)>, key: u64)
    ensures
        insert_position(r, key) <= r.len(),
        forall|j: int| 0 <= j < insert_position(r, key) ==> r[j].0 >= key,
        insert_position(r, key) < r.len() ==> r[insert_position(r, key) as int].0 < key,
    decreases r.len(),
{
    if r.len() > 0 && r[0].0 >= key {
        let t = r.drop_first();
        lemma_insert_position_bound(t, key);
        assert forall|j: int| 0 <= j < insert_position(r, key) implies r[j].0 >= key by {
            if j > 0 {
                assert(r[j] == t[j - 1]);
            }
        }
    }
}

/// Every stable descending ordering is in descending order.
pub proof fn lemma_sort_desc_is_desc<T>(s: Seq<(u64, T)>)
    ensures
        is_desc(sort_desc(s)),
        sort_desc(s).len() == s.len(),
    decreases s.len(),
{
    if s.len() > 0 {
        let r = sort_desc(s.drop_last());
        lemma_sort_desc_is_desc(s.drop_last());
        let x = s.last();
        let p = insert_position(r, x.0);
        lemma_insert_position_bound(r, x.0);
        let q = r.insert(p as int, x);
        assert forall|i: int, j: int| 0 <= i < j < q.len() implies q[i].0 >= q[j].0 by {
            if j < p {
            } else if j == p {
                assert(q[i] == r[i]);
            } else if i < p {
                assert(q[j] == r[j - 1]);
                assert(r[i].0 >= r[j - 1].0);
            } else if i == p {
                assert(q[j] == r[j - 1]);
                assert(r[p as int].0 < x.0);
                assert(r[p as int].0 >= r[j - 1].0);
            } else {
                assert(q[i] == r[i - 1]);
                assert(q[j] == r[j - 1]);
            }
        }
    }
}

/// Sorting keeps the length, and every sorted entry is one of the entries.
pub proof fn lemma_sort_desc_members<T>(s: Seq<(u64, T)>)
    ensures
        sort_desc(s).len() == s.len(),
        forall|t: int| 0 <= t < sort_desc(s).len() ==> s.contains(#[trigger] sort_desc(s)[t]),
    decreases s.len(),
{
    if s.len() > 0 {
        let d = s.drop_last();
        lemma_sort_desc_members(d);
        let r = sort_desc(d);
        lemma_insert_position_bound(r, s.last().0);
        let p = insert_position(r, s.last().0) as int;
        let q = sort_desc(s);
        assert forall|t: int| 0 <= t < q.len() implies s.contains(#[trigger] q[t]) by {
            if t < p {
                assert(q[t] == r[t]);
                let i = choose|i: int| 0 <= i < d.len() && d[i] == r[t];
                assert(s[i] == d[i]);
            } else if t == p {
                assert(s[s.len() - 1] == s.last());
            } else {
                assert(q[t] == r[t - 1]);
                let i = choose|i: int| 0 <= i < d.len() && d[i] == r[t - 1];
                assert(s[i] == d[i]);
            }
        }
    }
}

/// Sorting rearranges the entries: every entry occurs as often after as
/// before.
pub proof fn lemma_sort_desc_permutes<T>(s: Seq<(u64, T)>)
    ensures
        sort_desc(s).to_multiset() == s.to_multiset(),
    decreases s.len(),
{
    broadcast use vstd::seq_lib::to_multiset_insert, vstd::seq_lib::to_multiset_build;

    if s.len() == 0 {
        assert(sort_desc(s) =~= s);
    } else {
        let d = s.drop_last();
        lemma_sort_desc_permutes(d);
        let r = sort_desc(d);
        lemma_insert_position_bound(r, s.last().0);
        assert(d.push(s.last()) =~= s);
    }
}

/// A position in the descending order that holds entry `i` of `keyed`.
pub open spec fn rank_of(keyed: Seq<(u64, usize)>, i: int) -> int {
    choose|t: int| 0 <= t < sort_desc(keyed).len() && sort_desc(keyed)[t] == keyed[i]
}

/// Where each entry carries its own position, the descending order lists
/// every position exactly once, with its key.
pub proof fn lemma_sort_desc_ranks_positions(keyed: Seq<(u64, usize)>)
    requires
        keyed.len() <= usize::MAX,
        forall|i: int| 0 <= i < keyed.len() ==> (#[trigger] keyed[i]).1 == i,
    ensures
        sort_desc(keyed).len() == keyed.len(),
        forall|a: int, b: int|
            0 <= a < b < sort_desc(keyed).len() ==> (#[trigger] sort_desc(keyed)[a]).1 != (#[trigger] sort_desc(
                keyed,
            )[b]).1,
        forall|i: int|
            0 <= i < keyed.len() ==> 0 <= #[trigger] rank_of(keyed, i) < sort_desc(keyed).len() && sort_desc(
                keyed,
            )[rank_of(keyed, i)] == keyed[i],
{
    broadcast use vstd::seq_lib::to_multiset_contains;

    let order = sort_desc(keyed);
    lemma_sort_desc_permutes(keyed);
    lemma_sort_desc_members(keyed);
    assert(keyed.no_duplicates()) by {
        assert forall|i: int, j: int| 0 <= i < keyed.len() && 0 <= j < keyed.len() && i != j implies keyed[i]
            != keyed[j] by {
            assert(keyed[i].1 == i && keyed[j].1 == j);
        }
    }
    keyed.lemma_multiset_has_no_duplicates();
    order.lemma_multiset_has_no_duplicates_conv();
    assert forall|a: int, b: int| 0 <= a < b < order.len() implies (#[trigger] order[a]).1 != (#[trigger] order[b]).1 by {
        assert(keyed.contains(order[a]));
        assert(keyed.contains(order[b]));
        let i = choose|i: int| 0 <= i < keyed.len() && keyed[i] == order[a];
        let j = choose|j: int| 0 <= j < keyed.len() && keyed[j] == order[b];
        if order[a].1 == order[b].1 {
            assert(keyed[i].1 == i && keyed[j].1 == j);
            assert(order[a] == order[b]);
        }
    }
    assert forall|i: int| 0 <= i < keyed.len() implies 0 <= #[trigger] rank_of(keyed, i) < sort_desc(keyed).len()
        && sort_desc(keyed)[rank_of(keyed, i)] == keyed[i] by {
        assert(keyed.contains(keyed[i]));
        assert(keyed.to_multiset().count(keyed[i]) > 0);
        assert(order.contains(keyed[i]));
    }
}

/// Orders `(key, item)` entries by descending key, keeping the original order
/// among equal keys.
pub fn stable_sort_desc<T>(v: Vec<(u64, T)>) -> (r: Vec<(u64, T)>)
    ensures
        r@ == sort_desc(v@),
{
    let ghost orig = v@;
    assert(orig.len() == v.len());
    let mut rest = v;
    let mut result: Vec<(u64, T)> = Vec::new();
    let mut done: usize = 0;
    while rest.len() > 0
        invariant
            done <= orig.len(),
            orig.len() <= usize::MAX,
            rest@ == orig.subrange(done as int, orig.len() as int),
            result@ == sort_desc(orig.take(done as int)),
        decreases rest@.len(),
    {
        assert(done < orig.len());
        let e = rest.remove(0);
        let key = e.0;
        let mut i: usize = 0;
        while i < result.len() && result[i].0 >= key
            invariant
                i <= result@.len(),
                forall|j: int| 0 <= j < i ==> result@[j].0 >= key,
            decreases result@.len() - i,
        {
            i = i + 1;
        }
        proof {
            lemma_insert_position_prefix(result@, key, i as int);
            if i < result@.len() {
                assert(result@.subrange(i as int, result@.len() as int)[0] == result@[i as int]);
            }
            assert(orig.take(done as int + 1).drop_last() =~= orig.take(done as int));
            assert(orig.take(done as int + 1).last() == e);
        }
        result.insert(i, e);
        done = done + 1;
        assert(rest@ =~= orig.subrange(done as int, orig.len() as int));
    }
    assert(orig.take(orig.len() as int) =~= orig);
    result
}

} // verus!
