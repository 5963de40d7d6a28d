use vstd::prelude::*;

verus! {

/// The item of `s` whose key (by the parallel key sequence `ks`) is `k`, if
/// any. With distinct keys there is at most one.
pub open spec fn lookup_keyed<T>(s: Seq<T>, ks: Seq<Seq<char>>, k: Seq<char>) -> Option<T> {
    if ks.contains(k) {
        Some(s[ks.index_of(k)])
    } else {
        None
    }
}

/// With distinct keys, a position holding `k` is the position `index_of`
/// names.
pub proof fn lemma_index_of_unique(ks: Seq<Seq<char>>, i: int)
    requires
        ks.no_duplicates(),
        0 <= i < ks.len(),
    ensures
        ks.contains(ks[i]),
        ks.index_of(ks[i]) == i,
{
    assert(ks[i] == ks[i]);
    let j = ks.index_of(ks[i]);
    assert(ks[j] == ks[i]);
}

/// Replacing the item at `idx` (keeping its key `k`), or appending an item
/// with a new key `k` when `idx` is the length: keys stay distinct, `k` is
/// found at `idx`, and every other key finds the item it found before.
pub proof fn lemma_keyed_update<T>(
    before: Seq<T>,
    after: Seq<T>,
    kb: Seq<Seq<char>>,
    ka: Seq<Seq<char>>,
    idx: int,
    k: Seq<char>,
)
    requires
        kb.len() == before.len(),
        ka.len() == after.len(),
        kb.no_duplicates(),
        0 <= idx <= before.len(),
        after.len() == if idx < before.len() { before.len() } else { before.len() + 1 },
        forall|j: int| 0 <= j < before.len() && j != idx ==> after[j] == before[j] && ka[j] == kb[j],
        ka[idx] == k,
        idx < before.len() ==> kb[idx] == k,
        idx == before.len() ==> !kb.contains(k),
    ensures
        ka.no_duplicates(),
        ka.contains(k),
        ka.index_of(k) == idx,
        forall|o: Seq<char>|
            o != k ==> #[trigger] lookup_keyed(after, ka, o) == lookup_keyed(before, kb, o),
{
    assert forall|a: int, b: int| 0 <= a < ka.len() && 0 <= b < ka.len() && a != b implies ka[a] != ka[b] by {
        if a == idx {
            if idx < before.len() {
            } else {
                assert(kb[b] == ka[b]);
            }
        } else if b == idx {
            if idx < before.len() {
            } else {
                assert(kb[a] == ka[a]);
            }
        }
    }
    lemma_index_of_unique(ka, idx);
    assert forall|o: Seq<char>| o != k implies #[trigger] lookup_keyed(after, ka, o) == lookup_keyed(before, kb, o) by {
        if kb.contains(o) {
            let j = kb.index_of(o);
            assert(j != idx);
            assert(ka[j] == o);
            lemma_index_of_unique(ka, j);
        }
        if ka.contains(o) {
            let i = ka.index_of(o);
            assert(i != idx);
            assert(kb[i] == o);
        }
    }
}

} // verus!
