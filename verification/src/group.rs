use vstd::prelude::*;
use std::collections::HashMap;
use crate::bytes::copy_bytes;
use crate::erasure::{count_true, decode_input, decode_outcome, decode_reaches_codec, decoded_bytes, first_present_len, rs_reconstruct_ok, decode_within_bounds, encoded, first_some, holds_pieces_of, lemma_first_present_is_first_given, lemma_first_some_here, lemma_first_some_skip, shard_size, some_size, pairs_view, ShardView, holds_encoding_of, is_encoding_of, lemma_encoding_decodes, pair_flags, ErasureEncoder, Shard};
use crate::digest::{spec_hex, spec_sha256};
use crate::error::{TaoError, TaoResult};
use crate::unit::DataUnit;

verus! {

broadcast use vstd::std_specs::hash::group_hash_axioms;

/// How many of the slots `0..total` the list names.
pub open spec fn available_count(available: Seq<usize>, total: nat) -> nat {
    count_true(Seq::new(total, |i: int| available.contains(i as usize)))
}

/// An erasure-coded group: every shard of one data unit's payload, and the
/// node each shard has been placed on.
pub struct ErasureGroup {
    pub content_hash: [u8; 32],
    encoder: ErasureEncoder,
    shard_placement: HashMap<usize, String>,
    local_shards: Vec<Shard>,
    payload: Ghost<Seq<u8>>,
}

impl Shard {
    /// A field-by-field copy.
    pub fn duplicate(&self) -> (s: Shard)
        ensures
            s.original_len == self.original_len,
            s.index == self.index,
            s.data_count == self.data_count,
            s.parity_count == self.parity_count,
            s.original_hash == self.original_hash,
            s.data@ == self.data@,
    {
        Shard {
            original_len: self.original_len,
            index: self.index,
            data_count: self.data_count,
            parity_count: self.parity_count,
            original_hash: self.original_hash,
            data: copy_bytes(self.data.as_slice()),
        }
    }
}

impl ErasureGroup {
    /// The payload whose shards the group holds.
    pub closed spec fn payload(&self) -> Seq<u8> {
        self.payload@
    }

    pub closed spec fn data_count(&self) -> nat {
        self.encoder.data_count()
    }

    pub closed spec fn parity_count(&self) -> nat {
        self.encoder.parity_count()
    }

    /// The placement: shard index to node id.
    pub closed spec fn placement(&self) -> Map<usize, String> {
        self.shard_placement@
    }

    /// The content hash of the unit the group was built from.
    pub closed spec fn hash(&self) -> [u8; 32] {
        self.content_hash
    }

    /// The shards held.
    pub closed spec fn shards(&self) -> Seq<Shard> {
        self.local_shards@
    }

    /// The group holds exactly the encoding of a non-empty payload.
    pub closed spec fn wf(&self) -> bool {
        &&& self.encoder.wf()
        &&& self.payload@.len() > 0
        &&& is_encoding_of(self.local_shards@, self.payload@, self.encoder.data_count(), self.encoder.parity_count())
    }

    /// Erasure-codes the payload of `unit` into `data_shards + parity_shards` shards.
    pub fn from_unit(unit: &DataUnit, data_shards: usize, parity_shards: usize) -> (r: TaoResult<Self>)
        requires
            0 < data_shards,
            0 < parity_shards,
            data_shards + parity_shards <= 256,
            unit.yin.payload@.len() + data_shards <= usize::MAX,
        ensures
            unit.yin.payload@.len() == 0 ==> r matches Err(TaoError::QiState(_)),
            unit.yin.payload@.len() > 0 ==> (r matches Ok(g) && g.wf() && g.payload() == unit.yin.payload@
                && g.hash() == unit.yin.content_hash && g.data_count() == data_shards && g.parity_count()
                == parity_shards && g.placement() == Map::<usize, String>::empty() && is_encoding_of(
                g.shards(),
                unit.yin.payload@,
                data_shards as nat,
                parity_shards as nat,
            )),
    {
        let encoder = ErasureEncoder::new(data_shards, parity_shards);
        let shards = encoder.encode(unit.yin.payload.as_slice())?;
        Ok(Self {
            content_hash: unit.yin.content_hash,
            encoder,
            shard_placement: HashMap::new(),
            local_shards: shards,
            payload: Ghost(unit.yin.payload@),
        })
    }

    pub fn total_shards(&self) -> (n: usize)
        requires
            self.wf(),
        ensures
            n == self.data_count() + self.parity_count(),
            n == self.shards().len(),
    {
        self.local_shards.len()
    }

    pub fn data_shards(&self) -> (k: usize)
        ensures
            k == self.data_count(),
    {
        self.encoder.data_shards()
    }

    pub fn parity_shards(&self) -> (m: usize)
        ensures
            m == self.parity_count(),
    {
        self.encoder.parity_shards()
    }

    /// The shard at `index`, if there is one.
    pub fn get_shard(&self, index: usize) -> (s: Option<&Shard>)
        ensures
            index < self.shards().len() ==> s == Some(&self.shards()[index as int]),
            index >= self.shards().len() ==> s is None,
    {
        if index < self.local_shards.len() {
            Some(&self.local_shards[index])
        } else {
            None
        }
    }

    /// Records that shard `index` lives on node `node_id`.
    pub fn place_shard(&mut self, index: usize, node_id: &str)
        requires
            old(self).wf(),
        ensures
            final(self).wf(),
            final(self).placement() == old(self).placement().insert(index, final(self).placement()[index]),
            final(self).placement()[index]@ == node_id@,
            final(self).payload() == old(self).payload(),
            final(self).shards() == old(self).shards(),
            final(self).data_count() == old(self).data_count(),
            final(self).parity_count() == old(self).parity_count(),
            final(self).hash() == old(self).hash(),
    {
        self.shard_placement.insert(index, String::from_str(node_id));
    }

    /// The node that shard `index` was placed on, if any.
    pub fn shard_node(&self, index: usize) -> (node: Option<&str>)
        ensures
            self.placement().contains_key(index) ==> (node matches Some(n) && n@ == self.placement()[index]@),
            !self.placement().contains_key(index) ==> node is None,
    {
        match self.shard_placement.get(&index) {
            Some(s) => Some(s.as_str()),
            None => None,
        }
    }

    /// The whole placement map.
    pub fn placement_map(&self) -> (m: &HashMap<usize, String>)
        ensures
            m@ == self.placement(),
    {
        &self.shard_placement
    }

    /// Recovers the payload from the shards whose indices are listed as
    /// available; succeeds exactly when at least `k` of the slots are listed.
    pub fn reconstruct(&self, available_indices: &[usize]) -> (r: TaoResult<Vec<u8>>)
        requires
            self.wf(),
        ensures
            available_count(available_indices@, self.data_count() + self.parity_count()) >= self.data_count()
                ==> (r matches Ok(v) && v@ == self.payload()),
            available_count(available_indices@, self.data_count() + self.parity_count()) < self.data_count()
                ==> r == Err::<Vec<u8>, TaoError>(
                TaoError::InsufficientFragments {
                    have: available_count(available_indices@, self.data_count() + self.parity_count()) as usize,
                    need: self.data_count() as usize,
                },
            ),
    {
        let total = self.local_shards.len();
        let ghost k = self.encoder.data_count();
        let ghost m = self.encoder.parity_count();
        let ghost flags = Seq::new(total as nat, |i: int| available_indices@.contains(i as usize));
        let mut pairs: Vec<(Option<Shard>, bool)> = Vec::new();
        let mut i: usize = 0;
        while i < total
            invariant
                self.wf(),
                total == self.local_shards@.len(),
                total == k + m,
                k == self.encoder.data_count(),
                m == self.encoder.parity_count(),
                flags == Seq::new(total as nat, |j: int| available_indices@.contains(j as usize)),
                i <= total,
                pairs@.len() == i,
                forall|j: int|
                    0 <= j < i ==> (#[trigger] pairs@[j]).1 == flags[j] && (pairs@[j].0 matches Some(s)
                        && s.original_len == self.local_shards@[j].original_len && s.original_hash
                        == self.local_shards@[j].original_hash && s.data@ == self.local_shards@[j].data@),
            decreases total - i,
        {
            let present = contains_index(available_indices, i);
            pairs.push((Some(self.local_shards[i].duplicate()), present));
            i = i + 1;
        }
        proof {
            let pv = pairs_view(pairs@);
            assert(pair_flags(pv) =~= flags);
            let d = self.payload@;
            if available_count(available_indices@, k + m) >= k {
                assert(holds_encoding_of(pv, d, k, m));
                lemma_encoding_decodes(k, m, pv, d);
            } else {
                assert(decode_within_bounds(k, m, pv));
            }
        }
        self.encoder.decode(pairs.as_slice())
    }
}

/// The number of filled slots.
pub open spec fn filled_count(shard_data: Seq<Option<Vec<u8>>>) -> nat {
    count_true(shard_data.map_values(|d: Option<Vec<u8>>| d is Some))
}

/// The shards a distributed reconstruction hands to decoding: each filled
/// slot as a present shard labelled with the group's hash and payload length
/// `len`, each empty slot as a missing one.
pub open spec fn distributed_pairs(
    shard_data: Seq<Option<Vec<u8>>>,
    k: nat,
    m: nat,
    hash: [u8; 32],
    len: nat,
) -> Seq<(Option<ShardView>, bool)> {
    Seq::new(
        shard_data.len(),
        |i: int|
            (
                match shard_data[i] {
                    Some(d) => Some(
                        ShardView {
                            original_len: len,
                            index: i as nat,
                            data_count: k,
                            parity_count: m,
                            original_hash: hash@,
                            data: d@,
                        },
                    ),
                    None => None,
                },
                shard_data[i] is Some,
            ),
    )
}

impl ErasureGroup {
    /// The pairs a distributed reconstruction of this group decodes.
    pub open spec fn finish_pairs(&self, shard_data: Seq<Option<Vec<u8>>>) -> Seq<(Option<ShardView>, bool)> {
        distributed_pairs(shard_data, self.data_count(), self.parity_count(), self.hash(), self.payload().len())
    }

    /// Every filled slot holds this group's own shard of that index.
    pub open spec fn holds_own_shards(&self, shard_data: Seq<Option<Vec<u8>>>) -> bool {
        &&& shard_data.len() == self.shards().len()
        &&& forall|i: int|
            0 <= i < shard_data.len() && (#[trigger] shard_data[i]) is Some ==> shard_data[i].unwrap()@
                == self.shards()[i].data@
    }

    /// The fetched shards are too short to hold the payload: decoding would
    /// cut the joined data shards past their end.
    pub open spec fn finish_too_short(&self, shard_data: Seq<Option<Vec<u8>>>) -> bool {
        let w = some_size(self.finish_pairs(shard_data));
        &&& filled_count(shard_data) >= self.data_count()
        &&& w > 0
        &&& self.payload().len() > self.data_count() * w
    }

    /// First step of a distributed reconstruction: one slot per shard, filled
    /// with the locally held shards whose indices are listed.
    pub fn distributed_start(&self, available_indices: &[usize]) -> (shard_data: Vec<Option<Vec<u8>>>)
        requires
            self.wf(),
        ensures
            shard_data@.len() == self.shards().len(),
            forall|i: int|
                0 <= i < shard_data@.len() ==> ((#[trigger] shard_data@[i]) is Some <==> available_indices@.contains(
                    i as usize,
                )),
            forall|i: int|
                0 <= i < shard_data@.len() && (#[trigger] shard_data@[i]) is Some ==> shard_data@[i].unwrap()@
                    == self.shards()[i].data@,
    {
        let total = self.local_shards.len();
        let mut shard_data: Vec<Option<Vec<u8>>> = Vec::new();
        let mut i: usize = 0;
        while i < total
            invariant
                total == self.local_shards@.len(),
                i <= total,
                shard_data@.len() == i,
                forall|j: int|
                    0 <= j < i ==> ((#[trigger] shard_data@[j]) is Some <==> available_indices@.contains(j as usize)),
                forall|j: int|
                    0 <= j < i && (#[trigger] shard_data@[j]) is Some ==> shard_data@[j].unwrap()@
                        == self.local_shards@[j].data@,
            decreases total - i,
        {
            if contains_index(available_indices, i) {
                shard_data.push(Some(copy_bytes(self.local_shards[i].data.as_slice())));
            } else {
                shard_data.push(None);
            }
            i = i + 1;
        }
        shard_data
    }

    /// Decision step of a distributed reconstruction: while fewer than `k`
    /// slots are filled, the first empty slot at or after `from` to fetch
    /// next; `None` once enough are filled or no empty slot is left.
    pub fn distributed_next(&self, shard_data: &Vec<Option<Vec<u8>>>, from: usize) -> (next: Option<usize>)
        ensures
            filled_count(shard_data@) >= self.data_count() ==> next is None,
            filled_count(shard_data@) < self.data_count() ==> match next {
                Some(i) => from <= i < shard_data@.len() && shard_data@[i as int] is None && forall|j: int|
                    from <= j < i ==> (#[trigger] shard_data@[j]) is Some,
                None => forall|j: int| from <= j < shard_data@.len() ==> (#[trigger] shard_data@[j]) is Some,
            },
    {
        let k = self.encoder.data_shards();
        let filled = count_filled(shard_data);
        if filled >= k {
            return None;
        }
        let mut i = from;
        while i < shard_data.len()
            invariant
                from <= i,
                filled_count(shard_data@) < self.data_count(),
                forall|j: int| from <= j < i && j < shard_data@.len() ==> (#[trigger] shard_data@[j]) is Some,
            decreases shard_data@.len() - i,
        {
            if shard_data[i].is_none() {
                return Some(i);
            }
            i = i + 1;
        }
        None
    }

    /// Records the outcome of fetching slot `index`: a fetched shard fills
    /// the slot, a failed fetch leaves it empty.
    pub fn distributed_record(shard_data: &mut Vec<Option<Vec<u8>>>, index: usize, fetched: Option<Vec<u8>>)
        requires
            index < old(shard_data)@.len(),
        ensures
            fetched is Some ==> final(shard_data)@ == old(shard_data)@.update(index as int, fetched),
            fetched is None ==> final(shard_data)@ == old(shard_data)@,
    {
        if fetched.is_some() {
            shard_data.set(index, fetched);
        }
    }

    /// Last step of a distributed reconstruction: decodes the filled slots
    /// with a fresh codec of the group's shape, each labelled with the
    /// group's hash and payload length. Shards too short for that length are
    /// refused ("shard size mismatch"); otherwise the outcome is that of
    /// decoding (see `decode_outcome`). Slots filled with the group's own
    /// shards, at least `k` of them, give back the payload, or a hash
    /// mismatch when the group's hash is not that of its payload.
    pub fn distributed_finish(&self, shard_data: &Vec<Option<Vec<u8>>>) -> (r: TaoResult<Vec<u8>>)
        requires
            self.wf(),
            shard_data@.len() == self.shards().len(),
        ensures
            self.finish_too_short(shard_data@) ==> (r matches Err(TaoError::QiState(msg)) && msg@
                == "shard size mismatch"@),
            !self.finish_too_short(shard_data@) ==> decode_outcome(
                self.data_count(),
                self.parity_count(),
                self.finish_pairs(shard_data@),
                r,
            ),
            filled_count(shard_data@) >= self.data_count() && self.holds_own_shards(shard_data@) ==> if self.hash()@
                == spec_sha256(self.payload()) {
                r matches Ok(v) && v@ == self.payload()
            } else {
                r matches Err(TaoError::HashMismatch { expected: e, actual: a }) && e@ == spec_hex(self.hash()@)
                    && a@ == spec_hex(spec_sha256(self.payload()))
            },
    {
        let total = shard_data.len();
        let k = self.encoder.data_shards();
        let m = self.encoder.parity_shards();
        let payload_len = self.local_shards[0].original_len;
        let ghost pairs_spec = self.finish_pairs(shard_data@);
        let mut pairs: Vec<(Option<Shard>, bool)> = Vec::new();
        let mut i: usize = 0;
        while i < total
            invariant
                total == shard_data@.len(),
                k == self.encoder.data_count(),
                m == self.encoder.parity_count(),
                payload_len == self.payload().len(),
                pairs_spec == self.finish_pairs(shard_data@),
                i <= total,
                pairs@.len() == i,
                forall|j: int| 0 <= j < i ==> pairs_view(pairs@)[j] == pairs_spec[j],
            decreases total - i,
        {
            let shard = match &shard_data[i] {
                Some(data) => Some(
                    Shard {
                        original_len: payload_len,
                        index: i,
                        data_count: k,
                        parity_count: m,
                        original_hash: self.content_hash,
                        data: copy_bytes(data.as_slice()),
                    },
                ),
                None => None,
            };
            let present = shard_data[i].is_some();
            pairs.push((shard, present));
            i = i + 1;
        }
        assert(pairs_view(pairs@) =~= pairs_spec);
        assert(pair_flags(pairs_spec) =~= shard_data@.map_values(|d: Option<Vec<u8>>| d is Some));
        let present_total = count_filled(shard_data);
        if present_total < k {
            return Err(TaoError::InsufficientFragments { have: present_total, need: k });
        }
        let w = first_given_len(&pairs);
        proof {
            assert forall|j: int| 0 <= j < pairs_spec.len() implies ((#[trigger] pairs_spec[j]).1
                <==> pairs_spec[j].0 is Some) by {}
            lemma_first_present_is_first_given(pairs_spec);
            lemma_first_some_labelled(pairs_spec, self.content_hash@, self.payload().len());
            assert(w == some_size(pairs_spec));
            if filled_count(shard_data@) >= self.data_count() && self.holds_own_shards(shard_data@) {
                let d = self.payload();
                assert forall|j: int| 0 <= j < k + m implies ((#[trigger] pairs_spec[j]).1 ==> pairs_spec[j].0 is Some)
                    && (pairs_spec[j].0 matches Some(sv) ==> (sv.original_len == d.len() && sv.data == encoded(
                    d,
                    k as nat,
                    m as nat,
                )[j] && sv.data.len() == shard_size(d.len(), k as nat))) by {
                    if shard_data@[j] is Some {
                        assert(self.local_shards@[j].data@ == encoded(d, k as nat, m as nat)[j]);
                    }
                }
                assert(holds_pieces_of(pairs_spec, d, k as nat, m as nat));
                lemma_encoding_decodes(k as nat, m as nat, pairs_spec, d);
                assert(d.len() <= k * w) by {
                    lemma_shard_size_fits(d.len(), k as nat);
                }
                let f = first_some(pairs_spec).unwrap();
                let j = choose|j: int| 0 <= j < pairs_spec.len() && pairs_spec[j].0 == Some(f);
                assert(f.original_hash == self.content_hash@);
                if self.content_hash@ == spec_sha256(d) {
                    assert forall|j: int| 0 <= j < k + m implies ((#[trigger] pairs_spec[j]).0 matches Some(sv)
                        ==> sv.original_hash == spec_sha256(d)) by {}
                    assert(holds_encoding_of(pairs_spec, d, k as nat, m as nat));
                }
            }
            assert((k as u128) * (w as u128) <= 256 * 0xffff_ffff_ffff_ffffu128) by (nonlinear_arith)
                requires
                    k <= 256,
                    w <= 0xffff_ffff_ffff_ffffu64,
            ;
        }
        if w > 0 && (payload_len as u128) > (k as u128) * (w as u128) {
            return Err(TaoError::QiState(String::from_str("shard size mismatch")));
        }
        let encoder = ErasureEncoder::new(k, m);
        encoder.decode(pairs.as_slice())
    }
}

/// `len` bytes fit in `k` shards of the size they are split into.
proof fn lemma_shard_size_fits(len: nat, k: nat)
    requires
        k > 0,
    ensures
        len <= k * shard_size(len, k),
{
    let a = (len + k - 1) as int;
    vstd::arithmetic::div_mod::lemma_fundamental_div_mod(a, k as int);
    vstd::arithmetic::div_mod::lemma_mod_pos_bound(a, k as int);
}

/// The length of the first given shard's bytes (0 when none is given).
fn first_given_len(pairs: &Vec<(Option<Shard>, bool)>) -> (w: usize)
    ensures
        w == some_size(pairs_view(pairs@)),
{
    let ghost pv = pairs_view(pairs@);
    let n = pairs.len();
    let mut i: usize = 0;
    assert(pv.subrange(0, n as int) =~= pv);
    while i < n
        invariant
            pv == pairs_view(pairs@),
            n == pv.len(),
            i <= n,
            first_some(pv) == first_some(pv.subrange(i as int, n as int)),
        decreases n - i,
    {
        match &pairs[i].0 {
            Some(s) => {
                proof {
                    lemma_first_some_here(pv, i as int);
                }
                return s.data.len();
            },
            None => {
                proof {
                    lemma_first_some_skip(pv, i as int);
                }
            },
        }
        i = i + 1;
    }
    assert(pv.subrange(n as int, n as int).len() == 0);
    0
}

/// Where every given shard records length `len` and hash `h`, so does the
/// first one.
proof fn lemma_first_some_labelled(p: Seq<(Option<ShardView>, bool)>, h: Seq<u8>, len: nat)
    requires
        forall|i: int|
            0 <= i < p.len() && (#[trigger] p[i]).0 is Some ==> p[i].0.unwrap().original_len == len
                && p[i].0.unwrap().original_hash == h,
    ensures
        first_some(p) matches Some(s) ==> s.original_len == len && s.original_hash == h,
    decreases p.len(),
{
    if p.len() > 0 && p[0].0 is None {
        let t = p.drop_first();
        assert forall|i: int| 0 <= i < t.len() && (#[trigger] t[i]).0 is Some implies t[i].0.unwrap().original_len
            == len && t[i].0.unwrap().original_hash == h by {
            assert(t[i] == p[i + 1]);
        }
        lemma_first_some_labelled(t, h, len);
    }
}

/// Counts the filled slots.
fn count_filled(shard_data: &Vec<Option<Vec<u8>>>) -> (n: usize)
    ensures
        n == filled_count(shard_data@),
{
    let ghost flags = shard_data@.map_values(|d: Option<Vec<u8>>| d is Some);
    let mut n: usize = 0;
    let mut i: usize = 0;
    while i < shard_data.len()
        invariant
            flags == shard_data@.map_values(|d: Option<Vec<u8>>| d is Some),
            i <= shard_data@.len(),
            n <= i,
            n == count_true(flags.take(i as int)),
        decreases shard_data@.len() - i,
    {
        assert(flags.take(i as int + 1).drop_last() =~= flags.take(i as int));
        if shard_data[i].is_some() {
            n = n + 1;
        }
        i = i + 1;
    }
    assert(flags.take(shard_data@.len() as int) =~= flags);
    n
}

/// Whether `i` occurs in `list`.
fn contains_index(list: &[usize], i: usize) -> (found: bool)
    ensures
        found == list@.contains(i),
{
    let mut j: usize = 0;
    while j < list.len()
        invariant
            j <= list@.len(),
            forall|t: int| 0 <= t < j ==> list@[t] != i,
        decreases list@.len() - j,
    {
        if list[j] == i {
            return true;
        }
        j = j + 1;
    }
    false
}

/// Data shards of the code that shards fetched from peers are decoded with.
pub const FETCHED_DATA_SHARDS: usize = 6;
/// Parity shards of the code that shards fetched from peers are decoded with.
pub const FETCHED_PARITY_SHARDS: usize = 2;

/// The first position from `from` on in `collected` holding a shard with
/// index `i`.
pub open spec fn first_with_index(collected: Seq<(usize, Vec<u8>)>, i: int, from: int) -> Option<int>
    decreases collected.len() - from,
{
    if from < 0 || from >= collected.len() {
        None
    } else if collected[from].0 == i {
        Some(from)
    } else {
        first_with_index(collected, i, from + 1)
    }
}


/// Slot `i` of the input decoded from fetched shards: the first fetched
/// shard with index `i`, recorded with original length `len` and the content
/// hash `h`; absent when none was fetched.
pub open spec fn fetched_slot(h: [u8; 32], collected: Seq<(usize, Vec<u8>)>, i: int, len: nat) -> (Option<ShardView>, bool) {
    match first_with_index(collected, i, 0) {
        Some(j) => (
            Some(
                ShardView {
                    original_len: len,
                    index: i as nat,
                    data_count: FETCHED_DATA_SHARDS as nat,
                    parity_count: FETCHED_PARITY_SHARDS as nat,
                    original_hash: h@,
                    data: collected[j].1@,
                },
            ),
            true,
        ),
        None => (None, false),
    }
}

/// The input decoded from fetched shards, labelled with original length
/// `len`: one slot per shard of the code.
pub open spec fn fetched_input(h: [u8; 32], collected: Seq<(usize, Vec<u8>)>, len: nat) -> Seq<(Option<ShardView>, bool)> {
    Seq::new((FETCHED_DATA_SHARDS + FETCHED_PARITY_SHARDS) as nat, |i: int| fetched_slot(h, collected, i, len))
}

/// The shard width of the fetched shards: that of the first fetched slot.
pub open spec fn fetched_width(h: [u8; 32], collected: Seq<(usize, Vec<u8>)>) -> nat {
    some_size(fetched_input(h, collected, 0))
}

/// The longest payload the fetched data shards can hold.
pub open spec fn fetched_top(h: [u8; 32], collected: Seq<(usize, Vec<u8>)>) -> int {
    FETCHED_DATA_SHARDS * fetched_width(h, collected)
}

/// Decoding the fetched slots labelled with length `len` gives bytes whose
/// SHA-256 is the content hash.
pub open spec fn fetched_ok(h: [u8; 32], collected: Seq<(usize, Vec<u8>)>, len: nat) -> bool {
    let p = fetched_input(h, collected, len);
    let k = FETCHED_DATA_SHARDS as nat;
    let m = FETCHED_PARITY_SHARDS as nat;
    &&& decode_reaches_codec(k, m, p)
    &&& rs_reconstruct_ok(k, m, decode_input(p))
    &&& spec_sha256(decoded_bytes(k, m, p)) == h@
}

/// A payload cut from the joined data shards: its length is one of the
/// `FETCHED_DATA_SHARDS` lengths ending at `fetched_top`.
pub open spec fn fetched_candidate(h: [u8; 32], collected: Seq<(usize, Vec<u8>)>, j: int) -> bool {
    0 <= j < FETCHED_DATA_SHARDS && j <= fetched_top(h, collected)
}

/// The length label does not change what decoding hands to the codec.
proof fn lemma_fetched_label(h: [u8; 32], collected: Seq<(usize, Vec<u8>)>, len: nat)
    ensures
        some_size(fetched_input(h, collected, len)) == fetched_width(h, collected),
        decode_input(fetched_input(h, collected, len)) == decode_input(fetched_input(h, collected, 0)),
        pair_flags(fetched_input(h, collected, len)) == pair_flags(fetched_input(h, collected, 0)),
        first_present_len(decode_input(fetched_input(h, collected, len))) == fetched_width(h, collected),
        first_some(fetched_input(h, collected, len)) matches Some(f) ==> f.original_len == len && f.original_hash
            == h@,
{
    let p = fetched_input(h, collected, len);
    let q = fetched_input(h, collected, 0);
    lemma_first_some_data(p, q);
    assert(decode_input(p) =~= decode_input(q));
    assert(pair_flags(p) =~= pair_flags(q));
    assert forall|i: int| 0 <= i < p.len() implies ((#[trigger] p[i]).1 <==> p[i].0 is Some) by {}
    lemma_first_present_is_first_given(p);
    lemma_first_some_labelled(p, h@, len);
}

/// Two inputs that give the same slots the same bytes start with the same
/// shard width.
proof fn lemma_first_some_data(p: Seq<(Option<ShardView>, bool)>, q: Seq<(Option<ShardView>, bool)>)
    requires
        p.len() == q.len(),
        forall|i: int|
            0 <= i < p.len() ==> ((#[trigger] p[i]).0 is Some <==> q[i].0 is Some) && (p[i].0 is Some
                ==> p[i].0.unwrap().data == q[i].0.unwrap().data),
    ensures
        some_size(p) == some_size(q),
    decreases p.len(),
{
    if p.len() > 0 && p[0].0 is None {
        let pt = p.drop_first();
        let qt = q.drop_first();
        assert forall|i: int| 0 <= i < pt.len() implies ((#[trigger] pt[i]).0 is Some <==> qt[i].0 is Some) && (
        pt[i].0 is Some ==> pt[i].0.unwrap().data == qt[i].0.unwrap().data) by {
            assert(pt[i] == p[i + 1] && qt[i] == q[i + 1]);
        }
        lemma_first_some_data(pt, qt);
    }
}

/// The fetched slots, labelled with original length `len`.
fn fetched_pairs(content_hash: [u8; 32], collected: &Vec<(usize, Vec<u8>)>, len: usize) -> (pairs: Vec<(Option<Shard>, bool)>)
    ensures
        pairs_view(pairs@) == fetched_input(content_hash, collected@, len as nat),
{
    let total = FETCHED_DATA_SHARDS + FETCHED_PARITY_SHARDS;
    let ghost input = fetched_input(content_hash, collected@, len as nat);
    let mut pairs: Vec<(Option<Shard>, bool)> = Vec::new();
    let mut si: usize = 0;
    while si < total
        invariant
            total == FETCHED_DATA_SHARDS + FETCHED_PARITY_SHARDS,
            input == fetched_input(content_hash, collected@, len as nat),
            si <= total,
            pairs@.len() == si,
            forall|t: int| 0 <= t < si ==> pairs_view(pairs@)[t] == input[t],
        decreases total - si,
    {
        let mut j: usize = 0;
        while j < collected.len() && collected[j].0 != si
            invariant
                j <= collected@.len(),
                first_with_index(collected@, si as int, j as int) == first_with_index(collected@, si as int, 0),
            decreases collected@.len() - j,
        {
            j = j + 1;
        }
        let shard = if j < collected.len() {
            Some(
                Shard {
                    original_len: len,
                    index: si,
                    data_count: FETCHED_DATA_SHARDS,
                    parity_count: FETCHED_PARITY_SHARDS,
                    original_hash: content_hash,
                    data: copy_bytes(collected[j].1.as_slice()),
                },
            )
        } else {
            None
        };
        let present = j < collected.len();
        pairs.push((shard, present));
        si = si + 1;
    }
    assert(pairs_view(pairs@) =~= input);
    pairs
}

/// Reconstruction from the shards `(index, bytes)` fetched so far for the
/// content hash `content_hash`. Fetched shards do not say how long the
/// payload was, only that it ends within the last `FETCHED_DATA_SHARDS`
/// bytes of the joined data shards: nothing is done until as many shards as
/// the code has data shards were collected; then those lengths are tried
/// from the longest down, and the first whose bytes have the content hash
/// is returned. When none does, the outcome of decoding at the longest is
/// returned (an error). Shards so wide that the longest length overflows are
/// refused ("shard size mismatch"). Fetched shards of the encoding of a
/// payload with this content hash, at least six of them, decode.
pub fn decode_fetched(content_hash: [u8; 32], collected: &Vec<(usize, Vec<u8>)>) -> (r: Option<TaoResult<Vec<u8>>>)
    ensures
        match r {
            None => collected@.len() < FETCHED_DATA_SHARDS,
            Some(res) => {
                &&& collected@.len() >= FETCHED_DATA_SHARDS
                &&& fetched_top(content_hash, collected@) > usize::MAX ==> (res matches Err(TaoError::QiState(msg))
                    && msg@ == "shard size mismatch"@)
                &&& fetched_top(content_hash, collected@) <= usize::MAX ==> match res {
                    Ok(v) => exists|j: int|
                        #[trigger] fetched_candidate(content_hash, collected@, j) && fetched_ok(
                            content_hash,
                            collected@,
                            (fetched_top(content_hash, collected@) - j) as nat,
                        ) && v@ == decoded_bytes(
                            FETCHED_DATA_SHARDS as nat,
                            FETCHED_PARITY_SHARDS as nat,
                            fetched_input(content_hash, collected@, (fetched_top(content_hash, collected@) - j) as nat),
                        ) && forall|j2: int|
                            0 <= j2 < j ==> !#[trigger] fetched_ok(
                                content_hash,
                                collected@,
                                (fetched_top(content_hash, collected@) - j2) as nat,
                            ),
                    Err(_) => decode_outcome(
                        FETCHED_DATA_SHARDS as nat,
                        FETCHED_PARITY_SHARDS as nat,
                        fetched_input(content_hash, collected@, fetched_top(content_hash, collected@) as nat),
                        res,
                    ) && forall|j: int|
                        #[trigger] fetched_candidate(content_hash, collected@, j) ==> !fetched_ok(
                            content_hash,
                            collected@,
                            (fetched_top(content_hash, collected@) - j) as nat,
                        ),
                }
                &&& forall|d: Seq<u8>|
                    #[trigger] holds_pieces_of(
                        fetched_input(content_hash, collected@, d.len()),
                        d,
                        FETCHED_DATA_SHARDS as nat,
                        FETCHED_PARITY_SHARDS as nat,
                    ) && d.len() + FETCHED_DATA_SHARDS <= usize::MAX && spec_sha256(d) == content_hash@ ==> res is Ok
            },
        },
{
    if collected.len() < FETCHED_DATA_SHARDS {
        return None;
    }
    let ghost c = collected@;
    let ghost h = content_hash;
    let k = FETCHED_DATA_SHARDS;
    let m = FETCHED_PARITY_SHARDS;
    let probe = fetched_pairs(content_hash, collected, 0);
    let w = first_given_len(&probe);
    proof {
        assert(w == fetched_width(h, c));
        assert forall|d: Seq<u8>| #[trigger] holds_pieces_of(fetched_input(h, c, d.len()), d, k as nat, m as nat)
            implies fetched_top(h, c) - (FETCHED_DATA_SHARDS - 1) <= d.len() <= fetched_top(h, c) by {
            lemma_encoding_decodes(k as nat, m as nat, fetched_input(h, c, d.len()), d);
            lemma_fetched_label(h, c, d.len());
            lemma_shard_size_window(d.len(), k as nat);
        }
    }
    if w > usize::MAX / FETCHED_DATA_SHARDS {
        proof {
            assert(fetched_top(h, c) > usize::MAX) by (nonlinear_arith)
                requires
                    w > usize::MAX / 6,
                    fetched_top(h, c) == 6 * w,
            ;
            assert forall|d: Seq<u8>| #[trigger] holds_pieces_of(fetched_input(h, c, d.len()), d, k as nat, m as nat)
                && d.len() + FETCHED_DATA_SHARDS <= usize::MAX implies false by {
                lemma_encoding_decodes(k as nat, m as nat, fetched_input(h, c, d.len()), d);
                lemma_fetched_label(h, c, d.len());
                lemma_shard_size_window(d.len(), k as nat);
            }
        }
        return Some(Err(TaoError::QiState(String::from_str("shard size mismatch"))));
    }
    let top = FETCHED_DATA_SHARDS * w;
    let encoder = ErasureEncoder::new(k, m);
    let mut j: usize = 0;
    while j < FETCHED_DATA_SHARDS && j <= top
        invariant
            c == collected@,
            h == content_hash,
            k == FETCHED_DATA_SHARDS,
            m == FETCHED_PARITY_SHARDS,
            encoder.wf(),
            encoder.data_count() == k,
            encoder.parity_count() == m,
            top == fetched_top(h, c),
            w == fetched_width(h, c),
            top == FETCHED_DATA_SHARDS * w,
            collected@.len() >= FETCHED_DATA_SHARDS,
            j <= FETCHED_DATA_SHARDS,
            j <= top + 1,
            forall|j2: int| 0 <= j2 < j ==> !#[trigger] fetched_ok(h, c, (top - j2) as nat),
            forall|d: Seq<u8>|
                #[trigger] holds_pieces_of(fetched_input(h, c, d.len()), d, k as nat, m as nat) ==> top
                    - (FETCHED_DATA_SHARDS - 1) <= d.len() <= top,
            forall|d: Seq<u8>|
                #[trigger] holds_pieces_of(fetched_input(h, c, d.len()), d, k as nat, m as nat) && spec_sha256(d)
                    == h@ ==> d.len() <= top - j,
        decreases FETCHED_DATA_SHARDS - j,
    {
        let len = top - j;
        let pairs = fetched_pairs(content_hash, collected, len);
        proof {
            lemma_fetched_label(h, c, len as nat);
            let p = fetched_input(h, c, len as nat);
            assert forall|i: int| 0 <= i < p.len() implies ((#[trigger] p[i]).1 <==> p[i].0 is Some) by {}
            assert(len <= k * w);
        }
        let res = encoder.decode(pairs.as_slice());
        if res.is_ok() {
            proof {
                assert(fetched_candidate(h, c, j as int));
                assert(fetched_ok(h, c, (top - j) as nat));
                assert(top <= usize::MAX);
                let v = res.unwrap();
                assert(v@ == decoded_bytes(k as nat, m as nat, fetched_input(h, c, (top - j) as nat)));
            }
            return Some(res);
        }
        proof {
            let p = fetched_input(h, c, len as nat);
            assert(!fetched_ok(h, c, (top - j) as nat));
            assert forall|d: Seq<u8>| #[trigger] holds_pieces_of(fetched_input(h, c, d.len()), d, k as nat, m as nat)
                && spec_sha256(d) == h@ implies d.len() <= top - j - 1 by {
                if d.len() == len {
                    assert(holds_pieces_of(p, d, k as nat, m as nat));
                    assert(false);
                }
            }
        }
        j = j + 1;
    }
    let pairs = fetched_pairs(content_hash, collected, top);
    proof {
        lemma_fetched_label(h, c, top as nat);
        let p = fetched_input(h, c, top as nat);
        assert forall|i: int| 0 <= i < p.len() implies ((#[trigger] p[i]).1 <==> p[i].0 is Some) by {}
    }
    let res = encoder.decode(pairs.as_slice());
    proof {
        if res is Ok {
            assert(fetched_ok(h, c, (top - 0) as nat));
            assert(false);
        }
        assert forall|j2: int| #[trigger] fetched_candidate(h, c, j2) implies !fetched_ok(h, c, (top - j2) as nat) by {}
    }
    Some(res)
}

/// A payload of `len` bytes split into `k` shards of the size it is split
/// into ends within the last `k` bytes of those shards.
proof fn lemma_shard_size_window(len: nat, k: nat)
    requires
        k > 0,
    ensures
        k * shard_size(len, k) - (k - 1) <= len <= k * shard_size(len, k),
{
    let a = (len + k - 1) as int;
    vstd::arithmetic::div_mod::lemma_fundamental_div_mod(a, k as int);
    vstd::arithmetic::div_mod::lemma_mod_pos_bound(a, k as int);
}

} // verus!
