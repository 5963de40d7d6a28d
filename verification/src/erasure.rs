use vstd::prelude::*;
use reed_solomon_erasure::galois_8;
use crate::bytes::{bytes_equal, copy_bytes, zeros};
use crate::digest::{hex_encode, sha256, spec_hex, spec_sha256};
use crate::error::{TaoError, TaoResult};

verus! {

#[verifier::external_type_specification]
#[verifier::external_body]
pub struct ExReedSolomonError(reed_solomon_erasure::Error);

/// The parity shards that the GF(2^8) Reed-Solomon code with `data_shards`
/// data shards and `parity_shards` parity shards computes from `data`. The
/// code's matrix depends on the two counts alone, so this is a fixed function
/// of its arguments.
pub uninterp spec fn spec_rs_parity(data_shards: nat, parity_shards: nat, data: Seq<Seq<u8>>) -> Seq<Seq<u8>>;

/// The shards that the same code's reconstruction leaves behind for a set of
/// shards each marked present or missing.
pub uninterp spec fn spec_rs_reconstruct(
    data_shards: nat,
    parity_shards: nat,
    shards: Seq<(Seq<u8>, bool)>,
) -> Seq<Seq<u8>>;

/// A full code word: the data shards followed by their parity shards.
pub open spec fn codeword(k: nat, m: nat, data: Seq<Seq<u8>>) -> Seq<Seq<u8>> {
    data + spec_rs_parity(k, m, data)
}

pub open spec fn byte_views(s: Seq<Vec<u8>>) -> Seq<Seq<u8>> {
    s.map_values(|v: Vec<u8>| v@)
}

pub open spec fn flagged_views(s: Seq<(Vec<u8>, bool)>) -> Seq<(Seq<u8>, bool)> {
    s.map_values(|p: (Vec<u8>, bool)| (p.0@, p.1))
}

/// The number of `true` entries.
pub open spec fn count_true(flags: Seq<bool>) -> nat
    decreases flags.len(),
{
    if flags.len() == 0 {
        0
    } else {
        (if flags.last() { 1nat } else { 0nat }) + count_true(flags.drop_last())
    }
}

pub open spec fn present_flags(s: Seq<(Seq<u8>, bool)>) -> Seq<bool> {
    s.map_values(|p: (Seq<u8>, bool)| p.1)
}

/// Length of the first shard marked present (0 when none is).
pub open spec fn first_present_len(s: Seq<(Seq<u8>, bool)>) -> nat
    decreases s.len(),
{
    if s.len() == 0 {
        0
    } else if s[0].1 {
        s[0].0.len()
    } else {
        first_present_len(s.drop_first())
    }
}

/// When the Reed-Solomon reconstruction succeeds, as its source decides:
/// every present shard is non-empty and of one common length, and either all
/// shards are present, or at least `k` are and every missing slot already has
/// that length.
pub open spec fn rs_reconstruct_ok(k: nat, m: nat, s: Seq<(Seq<u8>, bool)>) -> bool {
    let len = first_present_len(s);
    &&& s.len() == k + m
    &&& forall|i: int| 0 <= i < s.len() && s[i].1 ==> s[i].0.len() == len
    &&& (count_true(present_flags(s)) > 0 ==> len > 0)
    &&& (count_true(present_flags(s)) == k + m || (count_true(present_flags(s)) >= k && forall|i: int|
        0 <= i < s.len() && !s[i].1 ==> s[i].0.len() == len))
}

/// `reed_solomon_erasure::galois_8::ReedSolomon::encode` on a codec built with
/// `ReedSolomon::new(k, m)`: the shard-size checks of its source (the first
/// shard must be non-empty), the data shards left as they are, and the parity
/// slots overwritten with the parity of the data shards.
#[verifier::external_body]
fn rs_encode(k: usize, m: usize, shards: &mut Vec<Vec<u8>>) -> (r: Result<(), reed_solomon_erasure::Error>)
    requires
        0 < k,
        0 < m,
        k + m <= 256,
        old(shards)@.len() == k + m,
        forall|i: int| 0 <= i < k + m ==> (#[trigger] old(shards)@[i])@.len() == old(shards)@[0]@.len(),
    ensures
        r is Ok <==> old(shards)@[0]@.len() > 0,
        r is Err ==> final(shards)@ == old(shards)@,
        r is Ok ==> final(shards)@.len() == k + m,
        r is Ok ==> forall|i: int| 0 <= i < k + m ==> final(shards)@[i]@.len() == old(shards)@[i]@.len(),
        r is Ok ==> forall|i: int| 0 <= i < k ==> final(shards)@[i]@ == old(shards)@[i]@,
        r is Ok ==> spec_rs_parity(k as nat, m as nat, byte_views(old(shards)@).take(k as int)).len() == m,
        r is Ok ==> forall|j: int| 0 <= j < m ==> final(shards)@[k + j]@ == spec_rs_parity(
            k as nat,
            m as nat,
            byte_views(old(shards)@).take(k as int),
        )[j],
{
    galois_8::ReedSolomon::new(k, m).unwrap().encode(shards)
}

/// `reed_solomon_erasure::galois_8::ReedSolomon::reconstruct` on a codec built
/// with `ReedSolomon::new(k, m)`, over `(shard, present)` pairs. As its source
/// shows: it succeeds exactly under `rs_reconstruct_ok`; on failure nothing is
/// touched; on success the flags and the present shards stay, every shard has
/// the common length, the result is the named reconstruction, and — the point
/// of a maximum-distance-separable code — when the present shards are those of
/// a code word, every shard afterwards is that code word's.
#[verifier::external_body]
fn rs_reconstruct(k: usize, m: usize, shards: &mut Vec<(Vec<u8>, bool)>) -> (r: Result<(), reed_solomon_erasure::Error>)
    requires
        0 < k,
        0 < m,
        k + m <= 256,
        old(shards)@.len() == k + m,
    ensures
        r is Ok <==> rs_reconstruct_ok(k as nat, m as nat, flagged_views(old(shards)@)),
        r is Err ==> final(shards)@ == old(shards)@,
        r is Ok ==> final(shards)@.len() == k + m,
        r is Ok ==> forall|i: int|
            0 <= i < k + m ==> (#[trigger] final(shards)@[i]).1 == old(shards)@[i].1
                && final(shards)@[i].0@.len() == first_present_len(flagged_views(old(shards)@)),
        r is Ok ==> forall|i: int|
            0 <= i < k + m && old(shards)@[i].1 ==> (#[trigger] final(shards)@[i]).0@ == old(shards)@[i].0@,
        r is Ok ==> flagged_views(final(shards)@).map_values(|p: (Seq<u8>, bool)| p.0) == spec_rs_reconstruct(
            k as nat,
            m as nat,
            flagged_views(old(shards)@),
        ),
        r is Ok ==> forall|data: Seq<Seq<u8>>|
            #![trigger codeword(k as nat, m as nat, data)]
            data.len() == k && (forall|j: int| 0 <= j < k ==> data[j].len() == first_present_len(flagged_views(old(shards)@)))
                && (forall|i: int| 0 <= i < k + m && old(shards)@[i].1 ==> old(shards)@[i].0@ == codeword(k as nat, m as nat, data)[i])
                ==> forall|i: int| 0 <= i < k + m ==> final(shards)@[i].0@ == codeword(k as nat, m as nat, data)[i],
{
    galois_8::ReedSolomon::new(k, m).unwrap().reconstruct(shards)
}

/// `Display` of a `reed_solomon_erasure::Error`: its message text. Nothing is
/// promised of the text.
#[verifier::external_body]
fn rs_error_text(e: &reed_solomon_erasure::Error) -> String {
    e.to_string()
}

/// An erasure-coded shard.
#[derive(Debug, Clone)]
pub struct Shard {
    pub original_len: usize,
    pub index: usize,
    pub data_count: usize,
    pub parity_count: usize,
    pub original_hash: [u8; 32],
    pub data: Vec<u8>,
}

/// What a shard says, as plain values.
pub struct ShardView {
    pub original_len: nat,
    pub index: nat,
    pub data_count: nat,
    pub parity_count: nat,
    pub original_hash: Seq<u8>,
    pub data: Seq<u8>,
}

impl View for Shard {
    type V = ShardView;

    open spec fn view(&self) -> ShardView {
        ShardView {
            original_len: self.original_len as nat,
            index: self.index as nat,
            data_count: self.data_count as nat,
            parity_count: self.parity_count as nat,
            original_hash: self.original_hash@,
            data: self.data@,
        }
    }
}

/// The `(shard, present)` pairs handed to decoding, as plain values.
pub open spec fn pairs_view(pairs: Seq<(Option<Shard>, bool)>) -> Seq<(Option<ShardView>, bool)> {
    pairs.map_values(
        |p: (Option<Shard>, bool)|
            (
                match p.0 {
                    Some(s) => Some(s@),
                    None => None,
                },
                p.1,
            ),
    )
}

/// Size of each data shard for `len` bytes split into `k` shards.
pub open spec fn shard_size(len: nat, k: nat) -> nat {
    ((len + k - 1) / (k as int)) as nat
}

/// The data followed by zero padding up to `k` whole shards.
pub open spec fn padded(data: Seq<u8>, k: nat) -> Seq<u8> {
    data + Seq::new((shard_size(data.len(), k) * k - data.len()) as nat, |i: int| 0u8)
}

/// The first `j` consecutive pieces of `s` bytes of `p`.
pub open spec fn pieces_of(p: Seq<u8>, s: nat, j: nat) -> Seq<Seq<u8>> {
    Seq::new(j, |i: int| p.subrange(i * s, (i + 1) * s))
}

/// The `k` data shards of `data`.
pub open spec fn data_pieces(data: Seq<u8>, k: nat) -> Seq<Seq<u8>> {
    pieces_of(padded(data, k), shard_size(data.len(), k), k)
}

/// The full encoding of `data`: its data shards and their parity shards.
pub open spec fn encoded(data: Seq<u8>, k: nat, m: nat) -> Seq<Seq<u8>> {
    codeword(k, m, data_pieces(data, k))
}

/// `shards` is exactly the encoding of `data` with `k` data and `m` parity shards.
pub open spec fn is_encoding_of(shards: Seq<Shard>, data: Seq<u8>, k: nat, m: nat) -> bool {
    &&& shards.len() == k + m
    &&& forall|i: int|
        0 <= i < k + m ==> {
            &&& (#[trigger] shards[i]).original_len == data.len()
            &&& shards[i].index == i
            &&& shards[i].data_count == k
            &&& shards[i].parity_count == m
            &&& shards[i].original_hash@ == spec_sha256(data)
            &&& shards[i].data@ == encoded(data, k, m)[i]
            &&& shards[i].data@.len() == shard_size(data.len(), k)
        }
}

pub open spec fn pair_flags(pairs: Seq<(Option<ShardView>, bool)>) -> Seq<bool> {
    pairs.map_values(|p: (Option<ShardView>, bool)| p.1)
}

/// The first shard that is given at all, present or not.
pub open spec fn first_some(pairs: Seq<(Option<ShardView>, bool)>) -> Option<ShardView>
    decreases pairs.len(),
{
    if pairs.len() == 0 {
        None
    } else {
        match pairs[0].0 {
            Some(s) => Some(s),
            None => first_some(pairs.drop_first()),
        }
    }
}

/// The shard size that decoding works with: that of the first given shard.
pub open spec fn some_size(pairs: Seq<(Option<ShardView>, bool)>) -> nat {
    match first_some(pairs) {
        Some(s) => s.data.len(),
        None => 0,
    }
}

/// What decoding hands to the codec: each given shard's bytes (zeros of the
/// working size for a missing one) with its presence flag.
pub open spec fn decode_input(pairs: Seq<(Option<ShardView>, bool)>) -> Seq<(Seq<u8>, bool)> {
    Seq::new(
        pairs.len(),
        |i: int|
            (
                match pairs[i].0 {
                    Some(s) => s.data,
                    None => Seq::new(some_size(pairs), |j: int| 0u8),
                },
                pairs[i].1,
            ),
    )
}

/// Decoding gets as far as the codec: the shape matches, enough shards are
/// present, and the first given shard is non-empty.
pub open spec fn decode_reaches_codec(k: nat, m: nat, pairs: Seq<(Option<ShardView>, bool)>) -> bool {
    &&& pairs.len() == k + m
    &&& count_true(pair_flags(pairs)) >= k
    &&& some_size(pairs) > 0
}

/// The bytes decoding recovers: the reconstructed data shards joined, cut to
/// the original length recorded in the first given shard.
pub open spec fn decoded_bytes(k: nat, m: nat, pairs: Seq<(Option<ShardView>, bool)>) -> Seq<u8> {
    spec_rs_reconstruct(k, m, decode_input(pairs)).take(k as int).flatten().take(
        first_some(pairs).unwrap().original_len as int,
    )
}

/// The recorded original length fits in the reconstructed data shards.
pub open spec fn decode_within_bounds(k: nat, m: nat, pairs: Seq<(Option<ShardView>, bool)>) -> bool {
    decode_reaches_codec(k, m, pairs) && rs_reconstruct_ok(k, m, decode_input(pairs))
        ==> first_some(pairs).unwrap().original_len <= k * first_present_len(decode_input(pairs))
}

proof fn lemma_shard_size(len: nat, k: nat)
    requires
        k > 0,
    ensures
        len <= shard_size(len, k) * k,
        shard_size(len, k) * k <= len + k - 1,
        len > 0 ==> shard_size(len, k) > 0,
        len == 0 ==> shard_size(len, k) == 0,
{
    let a = (len + k - 1) as int;
    vstd::arithmetic::div_mod::lemma_fundamental_div_mod(a, k as int);
    vstd::arithmetic::div_mod::lemma_mod_pos_bound(a, k as int);
    vstd::arithmetic::mul::lemma_mul_is_commutative(k as int, a / (k as int));
    if len == 0 {
        vstd::arithmetic::div_mod::lemma_basic_div(a, k as int);
    }
}

proof fn lemma_piece_bounds(i: int, s: nat, k: nat)
    requires
        0 <= i < k,
    ensures
        0 <= i * s,
        i * s + s == (i + 1) * s,
        (i + 1) * s <= s * k,
{
    assert(0 <= i * s) by (nonlinear_arith)
        requires
            0 <= i,
    ;
    assert(i * s + s == (i + 1) * s) by (nonlinear_arith);
    assert((i + 1) * s <= s * k) by (nonlinear_arith)
        requires
            0 <= i < k,
    ;
}

proof fn lemma_count_true_step(flags: Seq<bool>, i: int)
    requires
        0 <= i < flags.len(),
    ensures
        count_true(flags.take(i + 1)) == count_true(flags.take(i)) + (if flags[i] { 1nat } else { 0nat }),
{
    assert(flags.take(i + 1).drop_last() =~= flags.take(i));
}

pub(crate) proof fn lemma_first_some_skip(pairs: Seq<(Option<ShardView>, bool)>, i: int)
    requires
        0 <= i < pairs.len(),
        pairs[i].0 is None,
    ensures
        first_some(pairs.subrange(i, pairs.len() as int)) == first_some(pairs.subrange(i + 1, pairs.len() as int)),
{
    assert(pairs.subrange(i, pairs.len() as int).drop_first() =~= pairs.subrange(i + 1, pairs.len() as int));
}

pub(crate) proof fn lemma_first_some_here(pairs: Seq<(Option<ShardView>, bool)>, i: int)
    requires
        0 <= i < pairs.len(),
        pairs[i].0 is Some,
    ensures
        first_some(pairs.subrange(i, pairs.len() as int)) == pairs[i].0,
{
    assert(pairs.subrange(i, pairs.len() as int)[0] == pairs[i]);
}

/// `pairs` hands decoding shards of the encoding of `data` that record its
/// length: every present slot holds one, a missing slot holds one or none,
/// and at least `k` are present.
pub open spec fn holds_pieces_of(pairs: Seq<(Option<ShardView>, bool)>, data: Seq<u8>, k: nat, m: nat) -> bool {
    &&& data.len() > 0
    &&& pairs.len() == k + m
    &&& count_true(pair_flags(pairs)) >= k
    &&& forall|i: int|
        0 <= i < k + m ==> ((#[trigger] pairs[i]).1 ==> pairs[i].0 is Some) && (pairs[i].0 matches Some(s) ==> (
        s.original_len == data.len() && s.data == encoded(data, k, m)[i] && s.data.len() == shard_size(
            data.len(),
            k,
        )))
}

/// As `holds_pieces_of`, with every given shard labelled with the SHA-256
/// of `data`.
pub open spec fn holds_encoding_of(pairs: Seq<(Option<ShardView>, bool)>, data: Seq<u8>, k: nat, m: nat) -> bool {
    &&& holds_pieces_of(pairs, data, k, m)
    &&& forall|i: int| 0 <= i < k + m ==> ((#[trigger] pairs[i]).0 matches Some(s) ==> s.original_hash == spec_sha256(data))
}

/// The first given shard is one of the given shards.
proof fn lemma_first_some_given(pairs: Seq<(Option<ShardView>, bool)>, w: int)
    requires
        0 <= w < pairs.len(),
        pairs[w].0 is Some,
    ensures
        exists|j: int| 0 <= j < pairs.len() && pairs[j].0 is Some && first_some(pairs) == pairs[j].0,
    decreases pairs.len(),
{
    if pairs[0].0 is Some {
        assert(first_some(pairs) == pairs[0].0);
    } else {
        let t = pairs.drop_first();
        assert(t[w - 1] == pairs[w]);
        lemma_first_some_given(t, w - 1);
        let j = choose|j: int| 0 <= j < t.len() && t[j].0 is Some && first_some(t) == t[j].0;
        assert(pairs[j + 1] == t[j]);
    }
}

/// From slot `i` on, the first present shard that decoding sees is the first
/// given one, where exactly the given shards are present.
proof fn lemma_first_present_from(pairs: Seq<(Option<ShardView>, bool)>, i: int)
    requires
        0 <= i <= pairs.len(),
        forall|j: int| 0 <= j < pairs.len() ==> ((#[trigger] pairs[j]).1 <==> pairs[j].0 is Some),
    ensures
        first_present_len(decode_input(pairs).subrange(i, pairs.len() as int)) == match first_some(
            pairs.subrange(i, pairs.len() as int),
        ) {
            Some(s) => s.data.len(),
            None => 0,
        },
    decreases pairs.len() - i,
{
    let t = decode_input(pairs);
    let n = pairs.len() as int;
    if i == n {
        assert(t.subrange(n, n).len() == 0);
        assert(pairs.subrange(n, n).len() == 0);
    } else {
        lemma_first_present_from(pairs, i + 1);
        assert(t.subrange(i, n).drop_first() =~= t.subrange(i + 1, n));
        assert(t.subrange(i, n)[0] == t[i]);
        if pairs[i].0 is Some {
            lemma_first_some_here(pairs, i);
        } else {
            lemma_first_some_skip(pairs, i);
        }
    }
}

/// Where exactly the given shards are present, the first present shard that
/// decoding sees is the first given one.
pub(crate) proof fn lemma_first_present_is_first_given(pairs: Seq<(Option<ShardView>, bool)>)
    requires
        forall|i: int| 0 <= i < pairs.len() ==> ((#[trigger] pairs[i]).1 <==> pairs[i].0 is Some),
    ensures
        first_present_len(decode_input(pairs)) == some_size(pairs),
{
    lemma_first_present_from(pairs, 0);
    assert(decode_input(pairs).subrange(0, pairs.len() as int) =~= decode_input(pairs));
    assert(pairs.subrange(0, pairs.len() as int) =~= pairs);
}

proof fn lemma_flatten_pieces(p: Seq<u8>, s: nat, j: nat)
    requires
        j * s <= p.len(),
    ensures
        pieces_of(p, s, j).flatten() =~= p.subrange(0, (j * s) as int),
    decreases j,
{
    if j > 0 {
        let jm = (j - 1) as nat;
        assert(jm * s + s == j * s) by (nonlinear_arith)
            requires
                jm == j - 1,
        ;
        assert(0 <= jm * s) by (nonlinear_arith);
        lemma_flatten_pieces(p, s, jm);
        let a = pieces_of(p, s, jm);
        let b = pieces_of(p, s, j);
        assert(((jm as int) + 1) * s == j * s) by (nonlinear_arith)
            requires
                jm == j - 1,
        ;
        assert(b =~= a.push(p.subrange((jm * s) as int, (j * s) as int)));
        a.lemma_flatten_push(p.subrange((jm * s) as int, (j * s) as int));
        assert(p.subrange(0, (jm * s) as int) + p.subrange((jm * s) as int, (j * s) as int) =~= p.subrange(0, (j * s) as int));
        assert(b.flatten() == a.flatten() + p.subrange((jm * s) as int, (j * s) as int));
    } else {
        assert(j * s == 0) by (nonlinear_arith)
            requires
                j == 0,
        ;
        assert(pieces_of(p, s, j).len() == 0);
    }
}

proof fn lemma_count_true_witness(f: Seq<bool>)
    requires
        count_true(f) > 0,
    ensures
        exists|i: int| 0 <= i < f.len() && f[i],
    decreases f.len(),
{
    if !f.last() {
        lemma_count_true_witness(f.drop_last());
        let i = choose|i: int| 0 <= i < f.drop_last().len() && f.drop_last()[i];
        assert(f[i]);
    } else {
        assert(f[f.len() - 1]);
    }
}

proof fn lemma_first_present_len_uniform(s: Seq<(Seq<u8>, bool)>, len: nat)
    requires
        forall|i: int| 0 <= i < s.len() ==> (#[trigger] s[i]).0.len() == len,
        exists|i: int| 0 <= i < s.len() && (#[trigger] s[i]).1,
    ensures
        first_present_len(s) == len,
    decreases s.len(),
{
    if !s[0].1 {
        let t = s.drop_first();
        let i = choose|i: int| 0 <= i < s.len() && (#[trigger] s[i]).1;
        assert(t[i - 1] == s[i]);
        assert forall|j: int| 0 <= j < t.len() implies (#[trigger] t[j]).0.len() == len by {
            assert(t[j] == s[j + 1]);
        }
        lemma_first_present_len_uniform(t, len);
    }
}

/// Decoding reaches the codec for every set of pairs that holds pieces of
/// the encoding of some bytes, and the recorded length then fits.
pub proof fn lemma_encoding_decodes(k: nat, m: nat, pairs: Seq<(Option<ShardView>, bool)>, data: Seq<u8>)
    requires
        0 < k,
        0 < m,
        holds_pieces_of(pairs, data, k, m),
    ensures
        first_some(pairs) matches Some(f) && f.original_len == data.len() && exists|j: int|
            0 <= j < pairs.len() && pairs[j].0 == Some(f),
        some_size(pairs) == shard_size(data.len(), k),
        first_present_len(decode_input(pairs)) == shard_size(data.len(), k),
        decode_reaches_codec(k, m, pairs),
        rs_reconstruct_ok(k, m, decode_input(pairs)),
        decode_within_bounds(k, m, pairs),
{
    let s = shard_size(data.len(), k);
    lemma_shard_size(data.len(), k);
    let input = decode_input(pairs);
    assert(present_flags(input) =~= pair_flags(pairs));
    lemma_count_true_witness(pair_flags(pairs));
    let w = choose|i: int| 0 <= i < pair_flags(pairs).len() && pair_flags(pairs)[i];
    assert(pairs[w].1);
    lemma_first_some_given(pairs, w);
    let j = choose|j: int| 0 <= j < pairs.len() && pairs[j].0 is Some && first_some(pairs) == pairs[j].0;
    assert(pairs[j].0 matches Some(_));
    assert(input[w].1);
    assert forall|i: int| 0 <= i < input.len() implies (#[trigger] input[i]).0.len() == s by {
        if pairs[i].0 is Some {
            assert(pairs[i].0 matches Some(_));
        }
    }
    lemma_first_present_len_uniform(input, s);
}

/// What decoding `pairs` with a codec of `k` data and `m` parity shards
/// gives: too few slots or too few present shards are refused with their
/// counts; an empty first shard with "empty shards"; a failed reconstruction
/// with a state error; otherwise the reconstructed data shards joined and cut
/// to the recorded length, refused when their SHA-256 differs from the
/// recorded one. Slots holding an encoding of some bytes give those bytes.
pub open spec fn decode_outcome(k: nat, m: nat, pairs: Seq<(Option<ShardView>, bool)>, r: TaoResult<Vec<u8>>) -> bool {
    &&& pairs.len() != k + m ==> r == Err::<Vec<u8>, TaoError>(
        TaoError::InsufficientFragments { have: pairs.len() as usize, need: (k + m) as usize },
    )
    &&& pairs.len() == k + m && count_true(pair_flags(pairs)) < k ==> r == Err::<Vec<u8>, TaoError>(
        TaoError::InsufficientFragments { have: count_true(pair_flags(pairs)) as usize, need: k as usize },
    )
    &&& pairs.len() == k + m && count_true(pair_flags(pairs)) >= k && some_size(pairs) == 0 ==> (r matches Err(
        TaoError::QiState(msg),
    ) && msg@ == "empty shards"@)
    &&& decode_reaches_codec(k, m, pairs) && !rs_reconstruct_ok(k, m, decode_input(pairs)) ==> (r matches Err(
        TaoError::QiState(_),
    ))
    &&& decode_reaches_codec(k, m, pairs) && rs_reconstruct_ok(k, m, decode_input(pairs)) ==> {
        let bytes = decoded_bytes(k, m, pairs);
        let expected = first_some(pairs).unwrap().original_hash;
        if spec_sha256(bytes) == expected {
            (r matches Ok(v) && v@ == bytes)
        } else {
            (r matches Err(TaoError::HashMismatch { expected: e, actual: a }) && e@ == spec_hex(expected) && a@
                == spec_hex(spec_sha256(bytes)))
        }
    }
    &&& forall|data: Seq<u8>|
        #[trigger] holds_pieces_of(pairs, data, k, m) ==> decode_reaches_codec(k, m, pairs) && rs_reconstruct_ok(
            k,
            m,
            decode_input(pairs),
        ) && decoded_bytes(k, m, pairs) == data
    &&& forall|data: Seq<u8>| #[trigger] holds_encoding_of(pairs, data, k, m) ==> (r matches Ok(v) && v@ == data)
}

/// Decoding inverts encoding: given the shards of the encoding of non-empty
/// `data`, at least `k` of them marked present and the others given or not,
/// decoding gives back `data`.
pub proof fn lemma_decode_inverts_encode(
    k: nat,
    m: nat,
    shards: Seq<Shard>,
    data: Seq<u8>,
    pairs: Seq<(Option<ShardView>, bool)>,
    r: TaoResult<Vec<u8>>,
)
    requires
        is_encoding_of(shards, data, k, m),
        data.len() > 0,
        pairs.len() == k + m,
        count_true(pair_flags(pairs)) >= k,
        forall|i: int|
            0 <= i < k + m ==> ((#[trigger] pairs[i]).1 ==> pairs[i].0 is Some) && (pairs[i].0 is Some
                ==> pairs[i].0 == Some(shards[i]@)),
        decode_outcome(k, m, pairs, r),
    ensures
        r matches Ok(v) && v@ == data,
{
    assert forall|i: int| 0 <= i < k + m implies ((#[trigger] pairs[i]).1 ==> pairs[i].0 is Some) && (
    pairs[i].0 matches Some(s) ==> (s.original_len == data.len() && s.data == encoded(data, k, m)[i]
        && s.data.len() == shard_size(data.len(), k))) by {
        if pairs[i].0 is Some {
            assert(shards[i]@.data == shards[i].data@);
        }
    }
    assert(holds_pieces_of(pairs, data, k, m));
    assert forall|i: int| 0 <= i < k + m implies ((#[trigger] pairs[i]).0 matches Some(s) ==> s.original_hash
        == spec_sha256(data)) by {}
    assert(holds_encoding_of(pairs, data, k, m));
}

/// Reed-Solomon encoder over GF(2^8) with a fixed shape.
pub struct ErasureEncoder {
    data_shards: usize,
    parity_shards: usize,
}

impl ErasureEncoder {
    pub closed spec fn data_count(&self) -> nat {
        self.data_shards as nat
    }

    pub closed spec fn parity_count(&self) -> nat {
        self.parity_shards as nat
    }

    /// The shape the codec accepts: at least one data and one parity shard,
    /// at most 256 in all.
    pub open spec fn wf(&self) -> bool {
        &&& 0 < self.data_count()
        &&& 0 < self.parity_count()
        &&& self.data_count() + self.parity_count() <= 256
    }

    /// A codec with `data_shards` data shards and `parity_shards` parity shards.
    pub fn new(data_shards: usize, parity_shards: usize) -> (enc: Self)
        requires
            0 < data_shards,
            0 < parity_shards,
            data_shards + parity_shards <= 256,
        ensures
            enc.wf(),
            enc.data_count() == data_shards,
            enc.parity_count() == parity_shards,
    {
        Self { data_shards, parity_shards }
    }

    pub fn data_shards(&self) -> (k: usize)
        ensures
            k == self.data_count(),
    {
        self.data_shards
    }

    pub fn parity_shards(&self) -> (m: usize)
        ensures
            m == self.parity_count(),
    {
        self.parity_shards
    }

    /// Splits `data` into `k` zero-padded data shards, adds `m` parity shards,
    /// and labels each with the original length and SHA-256 of `data`.
    pub fn encode(&self, data: &[u8]) -> (r: TaoResult<Vec<Shard>>)
        requires
            self.wf(),
            data@.len() + self.data_count() <= usize::MAX,
        ensures
            data@.len() == 0 ==> r matches Err(TaoError::QiState(_)),
            data@.len() > 0 ==> (r matches Ok(shards) && is_encoding_of(
                shards@,
                data@,
                self.data_count(),
                self.parity_count(),
            )),
    {
        let k = self.data_shards;
        let m = self.parity_shards;
        let original_len = data.len();
        let original_hash = sha256(data);
        let size = (data.len() + k - 1) / k;
        proof {
            lemma_shard_size(data@.len(), k as nat);
        }
        let padded_len = size * k;
        let mut buf = copy_bytes(data);
        while buf.len() < padded_len
            invariant
                data@.len() <= buf@.len() <= padded_len,
                padded_len == size * k,
                buf@ == data@ + Seq::new((buf@.len() - data@.len()) as nat, |i: int| 0u8),
            decreases padded_len - buf@.len(),
        {
            buf.push(0u8);
            assert(buf@ =~= data@ + Seq::new((buf@.len() - data@.len()) as nat, |i: int| 0u8));
        }
        assert(buf@ =~= padded(data@, k as nat));
        let ghost pieces = data_pieces(data@, k as nat);
        let mut shards: Vec<Vec<u8>> = Vec::new();
        let mut i: usize = 0;
        while i < k
            invariant
                i <= k,
                0 < k,
                buf@ == padded(data@, k as nat),
                buf@.len() == size * k,
                padded_len == size * k,
                size == shard_size(data@.len(), k as nat),
                pieces == data_pieces(data@, k as nat),
                shards@.len() == i,
                forall|j: int| 0 <= j < i ==> (#[trigger] shards@[j])@ == pieces[j],
                forall|j: int| 0 <= j < i ==> (#[trigger] shards@[j])@.len() == size,
            decreases k - i,
        {
            proof {
                lemma_piece_bounds(i as int, size as nat, k as nat);
            }
            let piece = copy_bytes(vstd::slice::slice_subrange(buf.as_slice(), i * size, (i + 1) * size));
            shards.push(piece);
            i = i + 1;
        }
        let mut j: usize = 0;
        while j < m
            invariant
                j <= m,
                shards@.len() == k + j,
                forall|t: int| 0 <= t < k ==> (#[trigger] shards@[t])@ == pieces[t],
                forall|t: int| 0 <= t < k + j ==> (#[trigger] shards@[t])@.len() == size,
            decreases m - j,
        {
            shards.push(zeros(size));
            j = j + 1;
        }
        let ghost before = shards@;
        assert(byte_views(before).take(k as int) =~= pieces);
        match rs_encode(k, m, &mut shards) {
            Err(e) => {
                return Err(TaoError::QiState(rs_error_text(&e)));
            },
            Ok(()) => {},
        }
        let ghost code = encoded(data@, k as nat, m as nat);
        assert forall|t: int| 0 <= t < k + m implies (#[trigger] shards@[t])@ == code[t] by {
            if t < k {
                assert(code[t] == pieces[t]);
            } else {
                assert(code[t] == spec_rs_parity(k as nat, m as nat, pieces)[t - k]);
                assert(shards@[k + (t - k)]@ == spec_rs_parity(k as nat, m as nat, byte_views(before).take(k as int))[t - k]);
            }
        }
        let mut result: Vec<Shard> = Vec::new();
        let total = k + m;
        let mut t: usize = 0;
        while t < total
            invariant
                total == k + m,
                t <= total,
                shards@.len() == total,
                result@.len() == t,
                original_len == data@.len(),
                original_hash@ == spec_sha256(data@),
                forall|u: int| 0 <= u < total ==> (#[trigger] shards@[u])@ == code[u],
                forall|u: int| 0 <= u < total ==> (#[trigger] shards@[u])@.len() == size,
                size == shard_size(data@.len(), k as nat),
                code == encoded(data@, k as nat, m as nat),
                forall|u: int|
                    0 <= u < t ==> {
                        &&& (#[trigger] result@[u]).original_len == data@.len()
                        &&& result@[u].index == u
                        &&& result@[u].data_count == k
                        &&& result@[u].parity_count == m
                        &&& result@[u].original_hash@ == spec_sha256(data@)
                        &&& result@[u].data@ == code[u]
                        &&& result@[u].data@.len() == shard_size(data@.len(), k as nat)
                    },
            decreases total - t,
        {
            let piece = copy_bytes(shards[t].as_slice());
            result.push(
                Shard {
                    original_len,
                    index: t,
                    data_count: k,
                    parity_count: m,
                    original_hash,
                    data: piece,
                },
            );
            t = t + 1;
        }
        Ok(result)
    }

    /// Recovers the original bytes from `(shard, present)` pairs, one per
    /// shard slot: checks the shape and the number of present shards,
    /// reconstructs the missing shards, joins the data shards, cuts them to
    /// the recorded length, and checks the recorded SHA-256.
    pub fn decode(&self, shard_pairs: &[(Option<Shard>, bool)]) -> (r: TaoResult<Vec<u8>>)
        requires
            self.wf(),
            decode_within_bounds(self.data_count(), self.parity_count(), pairs_view(shard_pairs@)),
        ensures
            decode_outcome(self.data_count(), self.parity_count(), pairs_view(shard_pairs@), r),
    {
        let k = self.data_shards;
        let m = self.parity_shards;
        let ghost pairs = pairs_view(shard_pairs@);
        proof {
            assert forall|d: Seq<u8>| #[trigger] holds_pieces_of(pairs, d, k as nat, m as nat) implies (
            first_some(pairs).unwrap().original_len == d.len() && some_size(pairs) > 0 && rs_reconstruct_ok(
                k as nat,
                m as nat,
                decode_input(pairs),
            ) && first_present_len(decode_input(pairs)) == shard_size(d.len(), k as nat)) by {
                lemma_encoding_decodes(k as nat, m as nat, pairs, d);
                lemma_shard_size(d.len(), k as nat);
            }
            assert forall|d: Seq<u8>| #[trigger] holds_encoding_of(pairs, d, k as nat, m as nat) implies
                first_some(pairs).unwrap().original_hash == spec_sha256(d) by {
                lemma_encoding_decodes(k as nat, m as nat, pairs, d);
                let j = choose|j: int| 0 <= j < pairs.len() && pairs[j].0 == first_some(pairs);
                assert(pairs[j].0 matches Some(_));
            }
        }
        let n = shard_pairs.len();
        if n != k + m {
            return Err(TaoError::InsufficientFragments { have: n, need: k + m });
        }
        let mut present_count: usize = 0;
        let mut i: usize = 0;
        while i < n
            invariant
                pairs == pairs_view(shard_pairs@),
                pairs.len() == shard_pairs@.len(),
                n == pairs.len(),
                i <= n,
                present_count <= i,
                present_count == count_true(pair_flags(pairs).take(i as int)),
            decreases n - i,
        {
            proof {
                lemma_count_true_step(pair_flags(pairs), i as int);
            }
            if shard_pairs[i].1 {
                present_count = present_count + 1;
            }
            i = i + 1;
        }
        assert(pair_flags(pairs).take(n as int) =~= pair_flags(pairs));
        if present_count < k {
            return Err(TaoError::InsufficientFragments { have: present_count, need: k });
        }
        // The first given shard supplies the working size, the original
        // length and the expected hash.
        let mut work_size: usize = 0;
        let mut original_len: usize = 0;
        let mut expected_hash: [u8; 32] = [0u8; 32];
        let mut found = false;
        let mut i: usize = 0;
        assert(pairs.subrange(0, n as int) =~= pairs);
        while i < n && !found
            invariant
                pairs == pairs_view(shard_pairs@),
                pairs.len() == shard_pairs@.len(),
                n == pairs.len(),
                i <= n,
                !found ==> first_some(pairs) == first_some(pairs.subrange(i as int, n as int)),
                found ==> (first_some(pairs) matches Some(s) && s.data.len() == work_size
                    && s.original_len == original_len && s.original_hash == expected_hash@),
                !found ==> work_size == 0,
            decreases n - i,
        {
            match &shard_pairs[i].0 {
                Some(s) => {
                    proof {
                        lemma_first_some_here(pairs, i as int);
                    }
                    work_size = s.data.len();
                    original_len = s.original_len;
                    expected_hash = s.original_hash;
                    found = true;
                },
                None => {
                    proof {
                        lemma_first_some_skip(pairs, i as int);
                    }
                },
            }
            i = i + 1;
        }
        if !found {
            assert(pairs.subrange(n as int, n as int).len() == 0);
        }
        assert(work_size == some_size(pairs));
        if work_size == 0 {
            return Err(TaoError::QiState(String::from_str("empty shards")));
        }
        let ghost input = decode_input(pairs);
        let mut raw: Vec<(Vec<u8>, bool)> = Vec::new();
        let mut i: usize = 0;
        while i < n
            invariant
                pairs == pairs_view(shard_pairs@),
                pairs.len() == shard_pairs@.len(),
                n == pairs.len(),
                i <= n,
                work_size == some_size(pairs),
                input == decode_input(pairs),
                raw@.len() == i,
                forall|j: int| 0 <= j < i ==> flagged_views(raw@)[j] == input[j],
            decreases n - i,
        {
            let data = match &shard_pairs[i].0 {
                Some(s) => copy_bytes(s.data.as_slice()),
                None => zeros(work_size),
            };
            raw.push((data, shard_pairs[i].1));
            i = i + 1;
        }
        assert(flagged_views(raw@) =~= input);
        let ghost before = raw@;
        match rs_reconstruct(k, m, &mut raw) {
            Err(e) => {
                return Err(TaoError::QiState(rs_error_text(&e)));
            },
            Ok(()) => {},
        }
        let ghost recon = spec_rs_reconstruct(k as nat, m as nat, input);
        let ghost len = first_present_len(input);
        assert(flagged_views(raw@).map_values(|p: (Seq<u8>, bool)| p.0) == recon);
        let mut full: Vec<u8> = Vec::new();
        let mut i: usize = 0;
        while i < k
            invariant
                i <= k,
                k + m == raw@.len(),
                flagged_views(raw@).map_values(|p: (Seq<u8>, bool)| p.0) == recon,
                forall|j: int| 0 <= j < k + m ==> (#[trigger] raw@[j]).0@.len() == len,
                full@ == recon.take(i as int).flatten(),
                full@.len() == i * len,
                original_len <= k * len,
            decreases k - i,
        {
            proof {
                assert(recon[i as int] == raw@[i as int].0@);
                assert(recon.take(i as int + 1) =~= recon.take(i as int).push(recon[i as int]));
                recon.take(i as int).lemma_flatten_push(recon[i as int]);
                assert((i + 1) * len == i * len + len) by (nonlinear_arith);
            }
            full.extend_from_slice(raw[i].0.as_slice());
            i = i + 1;
        }
        let result = copy_bytes(vstd::slice::slice_subrange(full.as_slice(), 0, original_len));
        assert(result@ =~= decoded_bytes(k as nat, m as nat, pairs));
        proof {
            assert forall|d: Seq<u8>| #[trigger] holds_pieces_of(pairs, d, k as nat, m as nat) implies result@
                == d by {
                let sz = shard_size(d.len(), k as nat);
                let pieces = data_pieces(d, k as nat);
                let word = codeword(k as nat, m as nat, pieces);
                assert(word == encoded(d, k as nat, m as nat));
                lemma_shard_size(d.len(), k as nat);
                assert(padded(d, k as nat).len() == sz * k);
                assert forall|j: int| 0 <= j < k as int implies (#[trigger] pieces[j]).len() == first_present_len(
                    flagged_views(before),
                ) by {
                    lemma_piece_bounds(j, sz, k as nat);
                    assert(sz * k == (k as int) * sz) by (nonlinear_arith);
                }
                assert forall|i: int| 0 <= i < (k + m) as int && before[i].1 implies before[i].0@ == word[i] by {
                    assert(flagged_views(before)[i] == input[i]);
                    assert(pairs[i].1);
                    assert(pairs[i].0 matches Some(_));
                }
                assert(forall|i: int| 0 <= i < (k + m) as int ==> raw@[i].0@ == word[i]);
                assert(recon.take(k as int) =~= pieces) by {
                    assert forall|j: int| 0 <= j < k as int implies recon[j] == pieces[j] by {
                        assert(recon[j] == raw@[j].0@);
                        assert(word[j] == pieces[j]);
                    }
                }
                lemma_shard_size(d.len(), k as nat);
                let p = padded(d, k as nat);
                assert(k * sz == sz * k) by (nonlinear_arith);
                lemma_flatten_pieces(p, sz, k as nat);
                assert(p.subrange(0, (k * sz) as int) =~= p);
                assert(p.take(d.len() as int) =~= d);
            }
        }
        let recovered_hash = sha256(result.as_slice());
        if !bytes_equal(recovered_hash.as_slice(), expected_hash.as_slice()) {
            return Err(
                TaoError::HashMismatch {
                    expected: hex_encode(expected_hash.as_slice()),
                    actual: hex_encode(recovered_hash.as_slice()),
                },
            );
        }
        Ok(result)
    }
}

} // verus!
