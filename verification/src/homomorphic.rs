use vstd::prelude::*;

verus! {

/// Computation on encrypted integers: values are encrypted, added and
/// multiplied as ciphertexts, and decrypted again.
pub trait HomomorphicEngine: Send + Sync {
    /// Encrypts an integer.
    fn encrypt_int(&self, value: i64) -> Vec<u8>;

    /// The encryption of the sum of two encrypted integers.
    fn add(&self, a: &[u8], b: &[u8]) -> Vec<u8>;

    /// The encryption of the product of two encrypted integers.
    fn multiply(&self, a: &[u8], b: &[u8]) -> Vec<u8>;

    /// Decrypts an integer.
    fn decrypt_int(&self, ciphertext: &[u8]) -> i64;
}

/// Tag byte that starts every ciphertext of the mock engine.
pub const MOCK_TAG: u8 = 0xFE;

/// 256 to the power `n`.
pub open spec fn pow256(n: nat) -> nat
    decreases n,
{
    if n == 0 {
        1
    } else {
        256 * pow256((n - 1) as nat)
    }
}

/// The `n` low bytes of `x`, least significant first.
pub open spec fn le_encode(x: nat, n: nat) -> Seq<u8>
    decreases n,
{
    if n == 0 {
        Seq::empty()
    } else {
        seq![(x % 256) as u8] + le_encode(x / 256, (n - 1) as nat)
    }
}

/// The number whose bytes, least significant first, are `b`.
pub open spec fn le_value(b: Seq<u8>) -> nat
    decreases b.len(),
{
    if b.len() == 0 {
        0
    } else {
        b[0] as nat + 256 * le_value(b.drop_first())
    }
}

/// The two's-complement bit pattern of `v`, as a number below 2^64.
pub open spec fn unsigned_of(v: i64) -> nat {
    if v >= 0 {
        v as nat
    } else {
        (v + 0x1_0000_0000_0000_0000) as nat
    }
}

/// The signed value of a 64-bit two's-complement bit pattern.
pub open spec fn signed_of(x: nat) -> int {
    if x < 0x8000_0000_0000_0000 {
        x as int
    } else {
        x - 0x1_0000_0000_0000_0000
    }
}

/// The mock ciphertext of `v`: the tag byte, then the eight little-endian
/// bytes of `v`.
pub open spec fn mock_encode(v: i64) -> Seq<u8> {
    seq![MOCK_TAG] + le_encode(unsigned_of(v), 8)
}

/// The eight bytes after the tag, zero where the ciphertext is shorter.
pub open spec fn mock_payload(ct: Seq<u8>) -> Seq<u8> {
    Seq::new(8, |i: int| if 1 + i < ct.len() { ct[1 + i] } else { 0u8 })
}

/// The integer a mock ciphertext holds: 0 unless it starts with the tag,
/// else the little-endian value of the (zero-padded) eight bytes after it.
pub open spec fn mock_decode(ct: Seq<u8>) -> i64 {
    if ct.len() == 0 || ct[0] != MOCK_TAG {
        0
    } else {
        signed_of(le_value(mock_payload(ct))) as i64
    }
}

/// A stand-in engine that keeps the integer in plain view behind a tag byte.
pub struct MockHomomorphicEngine;

impl HomomorphicEngine for MockHomomorphicEngine {
    fn encrypt_int(&self, value: i64) -> (ct: Vec<u8>)
        ensures
            ct@ == mock_encode(value),
    {
        encode_i64(value)
    }

    /// The encryption of the sum; the sum wraps around at the ends of `i64`.
    fn add(&self, a: &[u8], b: &[u8]) -> (ct: Vec<u8>)
        ensures
            ct@ == mock_encode(mock_decode(a@).wrapping_add(mock_decode(b@))),
    {
        let va = decode_i64(a);
        let vb = decode_i64(b);
        encode_i64(va.wrapping_add(vb))
    }

    /// The encryption of the product; it wraps around at the ends of `i64`.
    fn multiply(&self, a: &[u8], b: &[u8]) -> (ct: Vec<u8>)
        ensures
            ct@ == mock_encode(mock_decode(a@).wrapping_mul(mock_decode(b@))),
    {
        let va = decode_i64(a);
        let vb = decode_i64(b);
        encode_i64(va.wrapping_mul(vb))
    }

    fn decrypt_int(&self, ciphertext: &[u8]) -> (v: i64)
        ensures
            v == mock_decode(ciphertext@),
    {
        decode_i64(ciphertext)
    }
}

/// The mock ciphertext of `value`.
fn encode_i64(value: i64) -> (ct: Vec<u8>)
    ensures
        ct@ == mock_encode(value),
{
    let uv: u64 = if value >= 0 {
        value as u64
    } else {
        ((value + i64::MAX + 1) as u64) + 9223372036854775808u64
    };
    assert(uv == unsigned_of(value));
    let mut out: Vec<u8> = Vec::new();
    out.push(MOCK_TAG);
    let mut x: u64 = uv;
    let mut i: usize = 0;
    while i < 8
        invariant
            i <= 8,
            mock_encode(value) == out@ + le_encode(x as nat, (8 - i) as nat),
        decreases 8 - i,
    {
        let ghost rest = le_encode(x as nat, (8 - i) as nat);
        assert(rest == seq![(x % 256) as u8] + le_encode((x / 256) as nat, (8 - i - 1) as nat));
        let ghost before = out@;
        out.push((x % 256) as u8);
        x = x / 256;
        i = i + 1;
        assert(before + rest =~= out@ + le_encode(x as nat, (8 - i) as nat));
    }
    assert(le_encode(x as nat, 0) =~= Seq::<u8>::empty());
    assert(out@ =~= out@ + Seq::<u8>::empty());
    out
}

/// The integer a mock ciphertext holds.
fn decode_i64(ct: &[u8]) -> (v: i64)
    ensures
        v == mock_decode(ct@),
{
    if ct.len() == 0 || ct[0] != MOCK_TAG {
        return 0;
    }
    let mut bytes: [u8; 8] = [0u8; 8];
    let mut i: usize = 0;
    while i < 8
        invariant
            i <= 8,
            ct@.len() >= 1,
            forall|j: int| 0 <= j < i ==> bytes@[j] == mock_payload(ct@)[j],
        decreases 8 - i,
    {
        if i + 1 < ct.len() {
            bytes[i] = ct[i + 1];
        } else {
            bytes[i] = 0;
        }
        i = i + 1;
    }
    assert(bytes@ =~= mock_payload(ct@));
    let mut acc: u64 = 0;
    let mut k: usize = 8;
    proof {
        assert(bytes@.subrange(8, 8) =~= Seq::<u8>::empty());
    }
    while k > 0
        invariant
            k <= 8,
            bytes@.len() == 8,
            acc == le_value(bytes@.subrange(k as int, 8)),
            acc < pow256((8 - k) as nat),
        decreases k,
    {
        proof {
            lemma_pow256_bound((9 - k) as nat);
            let p = pow256((8 - k) as nat);
            assert(pow256((9 - k) as nat) == 256 * p);
            let b = bytes@[k - 1];
            assert(acc * 256 + b < 256 * p) by (nonlinear_arith)
                requires
                    acc < p,
                    b < 256,
            ;
            assert(bytes@.subrange(k - 1, 8).drop_first() =~= bytes@.subrange(k as int, 8));
        }
        acc = acc * 256 + bytes[k - 1] as u64;
        k = k - 1;
    }
    assert(bytes@.subrange(0, 8) =~= bytes@);
    if acc < 9223372036854775808u64 {
        acc as i64
    } else {
        ((acc - 9223372036854775808u64) as i64) + i64::MIN
    }
}

/// 256^n is at most 2^64 for n up to 8.
proof fn lemma_pow256_bound(n: nat)
    requires
        n <= 8,
    ensures
        pow256(n) <= 0x1_0000_0000_0000_0000,
        pow256(n) > 0,
    decreases n,
{
    reveal_with_fuel(pow256, 9);
    if n > 0 {
        lemma_pow256_bound((n - 1) as nat);
    }
}

/// The low `n` bytes of `x` read back give `x` modulo 256^n.
pub proof fn lemma_le_roundtrip(x: nat, n: nat)
    ensures
        le_encode(x, n).len() == n,
        le_value(le_encode(x, n)) == x % pow256(n),
    decreases n,
{
    if n > 0 {
        lemma_le_roundtrip(x / 256, (n - 1) as nat);
        let e = le_encode(x, n);
        assert(e.drop_first() =~= le_encode(x / 256, (n - 1) as nat));
        lemma_pow256_positive((n - 1) as nat);
        vstd::arithmetic::div_mod::lemma_mod_breakdown(x as int, 256, pow256((n - 1) as nat) as int);
    }
}

proof fn lemma_pow256_positive(n: nat)
    ensures
        pow256(n) > 0,
    decreases n,
{
    if n > 0 {
        lemma_pow256_positive((n - 1) as nat);
    }
}

/// Decrypting the mock encryption of `v` gives `v` back.
pub proof fn lemma_mock_roundtrip(v: i64)
    ensures
        mock_decode(mock_encode(v)) == v,
{
    let x = unsigned_of(v);
    lemma_le_roundtrip(x, 8);
    assert(pow256(8) == 0x1_0000_0000_0000_0000) by {
        reveal_with_fuel(pow256, 9);
    }
    vstd::arithmetic::div_mod::lemma_small_mod(x, pow256(8));
    assert(mock_payload(mock_encode(v)) =~= le_encode(x, 8));
    assert(le_value(mock_payload(mock_encode(v))) == x);
}

/// Adding two mock ciphertexts and decrypting gives the (wrapping) sum of
/// the integers they hold.
pub proof fn lemma_mock_add_homomorphic(a: i64, b: i64)
    ensures
        mock_decode(mock_encode(mock_decode(mock_encode(a)).wrapping_add(mock_decode(mock_encode(b))))) == a.wrapping_add(b),
{
    lemma_mock_roundtrip(a);
    lemma_mock_roundtrip(b);
    lemma_mock_roundtrip(a.wrapping_add(b));
}

/// Multiplying two mock ciphertexts and decrypting gives the (wrapping)
/// product of the integers they hold.
pub proof fn lemma_mock_multiply_homomorphic(a: i64, b: i64)
    ensures
        mock_decode(mock_encode(mock_decode(mock_encode(a)).wrapping_mul(mock_decode(mock_encode(b))))) == a.wrapping_mul(b),
{
    lemma_mock_roundtrip(a);
    lemma_mock_roundtrip(b);
    lemma_mock_roundtrip(a.wrapping_mul(b));
}

} // verus!
