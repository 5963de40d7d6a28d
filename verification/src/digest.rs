use vstd::prelude::*;
use sha2::Digest;
use vstd::string::StringSliceAdditionalSpecFns;
use vstd::utf8::{encode_utf8, is_ascii_chars};

verus! {

/// The SHA-256 digest of a byte sequence. SHA-256 is a fixed, deterministic
/// function of its input; its value is not written out here.
pub uninterp spec fn spec_sha256(data: Seq<u8>) -> Seq<u8>;

/// The Base58 (Bitcoin alphabet) text of a byte sequence; a fixed,
/// deterministic function of the bytes.
pub uninterp spec fn spec_bs58(data: Seq<u8>) -> Seq<char>;

/// The lower-case hexadecimal digit for a nibble.
pub open spec fn hex_digit(n: int) -> char {
    if n < 10 {
        (48 + n) as char
    } else {
        (87 + n) as char
    }
}

/// Lower-case hexadecimal text of a byte sequence: two digits per byte, high
/// nibble first.
pub open spec fn spec_hex(data: Seq<u8>) -> Seq<char>
    decreases data.len(),
{
    if data.len() == 0 {
        Seq::empty()
    } else {
        seq![hex_digit(data[0] as int / 16), hex_digit(data[0] as int % 16)] + spec_hex(data.drop_first())
    }
}

/// Hexadecimal text has two digits per byte.
pub proof fn lemma_hex_len(data: Seq<u8>)
    ensures
        spec_hex(data).len() == 2 * data.len(),
    decreases data.len(),
{
    if data.len() > 0 {
        lemma_hex_len(data.drop_first());
    }
}

/// The value of one hexadecimal digit byte (either case), if it is one.
pub open spec fn hex_value(c: u8) -> Option<u8> {
    if 48 <= c <= 57 {
        Some((c - 48) as u8)
    } else if 97 <= c <= 102 {
        Some((c - 87) as u8)
    } else if 65 <= c <= 70 {
        Some((c - 55) as u8)
    } else {
        None
    }
}

/// Decoding of hexadecimal text given as bytes: `None` for an odd length or a
/// byte that is not a hexadecimal digit.
pub open spec fn spec_hex_decode(s: Seq<u8>) -> Option<Seq<u8>>
    decreases s.len(),
{
    if s.len() % 2 != 0 {
        None
    } else if s.len() == 0 {
        Some(Seq::empty())
    } else {
        match (hex_value(s[0]), hex_value(s[1]), spec_hex_decode(s.subrange(2, s.len() as int))) {
            (Some(hi), Some(lo), Some(rest)) => Some(seq![(hi * 16 + lo) as u8] + rest),
            _ => None,
        }
    }
}

/// `sha2::Sha256::digest`: the SHA-256 digest of `data`, taken here as the
/// named function `spec_sha256` of the bytes.
#[verifier::external_body]
pub(crate) fn sha256(data: &[u8]) -> (digest: [u8; 32])
    ensures
        digest@ == spec_sha256(data@),
{
    sha2::Sha256::digest(data).into()
}

/// `hex::encode`: lower-case hexadecimal text, two digits per byte, as the
/// crate documents.
#[verifier::external_body]
pub(crate) fn hex_encode(data: &[u8]) -> (text: String)
    ensures
        text@ == spec_hex(data@),
{
    hex::encode(data)
}

/// `hex::decode`: the bytes of hexadecimal text (either case); an error for
/// an odd length or a non-digit byte, as the crate's source shows.
#[verifier::external_body]
pub(crate) fn hex_decode(text: &str) -> (bytes: Option<Vec<u8>>)
    ensures
        match bytes {
            Some(b) => spec_hex_decode(text.spec_bytes()) == Some(b@),
            None => spec_hex_decode(text.spec_bytes()) is None,
        },
{
    hex::decode(text).ok()
}

/// `bs58::encode(..).into_string()`: the Base58 text of the bytes, taken as
/// the named function `spec_bs58`.
#[verifier::external_body]
pub(crate) fn bs58_encode(data: &[u8]) -> (text: String)
    ensures
        text@ == spec_bs58(data@),
{
    bs58::encode(data).into_string()
}

/// A content hash written as hexadecimal text: `None` unless the text
/// decodes to exactly 32 bytes.
pub fn hash_from_hex(text: &str) -> (r: Option<[u8; 32]>)
    ensures
        match r {
            Some(h) => spec_hex_decode(text.spec_bytes()) == Some(h@),
            None => !(spec_hex_decode(text.spec_bytes()) matches Some(b) && b.len() == 32),
        },
{
    let bytes = match hex_decode(text) {
        Some(b) => b,
        None => {
            return None;
        },
    };
    if bytes.len() != 32 {
        return None;
    }
    let mut arr = [0u8; 32];
    let mut i: usize = 0;
    while i < 32
        invariant
            bytes@.len() == 32,
            i <= 32,
            forall|j: int| 0 <= j < i ==> arr@[j] == bytes@[j],
        decreases 32 - i,
    {
        arr[i] = bytes[i];
        i = i + 1;
    }
    assert(arr@ =~= bytes@);
    Some(arr)
}

/// The bytes of the hexadecimal text of `d`.
pub open spec fn hex_text_bytes(d: Seq<u8>) -> Seq<u8>
    decreases d.len(),
{
    if d.len() == 0 {
        Seq::empty()
    } else {
        seq![hex_digit(d[0] as int / 16) as u8, hex_digit(d[0] as int % 16) as u8] + hex_text_bytes(d.drop_first())
    }
}

proof fn lemma_hex_text_bytes(d: Seq<u8>)
    ensures
        is_ascii_chars(spec_hex(d)),
        encode_utf8(spec_hex(d)) == hex_text_bytes(d),
    decreases d.len(),
{
    if d.len() > 0 {
        lemma_hex_text_bytes(d.drop_first());
        let h = spec_hex(d);
        let t = spec_hex(d.drop_first());
        let hi = d[0] as int / 16;
        let lo = d[0] as int % 16;
        assert(0 <= hi < 16 && 0 <= lo < 16);
        assert(h == seq![hex_digit(hi), hex_digit(lo)] + t);
        assert forall|i: int| 0 <= i < h.len() implies '\0' <= #[trigger] h[i] <= '\u{7f}' by {
            if i >= 2 {
                assert(h[i] == t[i - 2]);
            }
        }
        vstd::utf8::is_ascii_chars_encode_utf8(h);
        vstd::utf8::is_ascii_chars_encode_utf8(t);
        assert(encode_utf8(h) =~= hex_text_bytes(d)) by {
            assert forall|i: int| 0 <= i < h.len() implies #[trigger] encode_utf8(h)[i] == hex_text_bytes(d)[i] by {
                if i >= 2 {
                    assert(h[i] == t[i - 2]);
                    assert(hex_text_bytes(d)[i] == hex_text_bytes(d.drop_first())[i - 2]);
                }
            }
        }
    }
}

proof fn lemma_hex_decode_text_bytes(d: Seq<u8>)
    ensures
        spec_hex_decode(hex_text_bytes(d)) == Some(d),
        hex_text_bytes(d).len() == 2 * d.len(),
    decreases d.len(),
{
    if d.len() > 0 {
        let rest = d.drop_first();
        lemma_hex_decode_text_bytes(rest);
        let b = hex_text_bytes(d);
        let x = d[0];
        let hi = x as int / 16;
        let lo = x as int % 16;
        assert(b.subrange(2, b.len() as int) =~= hex_text_bytes(rest));
        assert(hex_value(b[0]) == Some(hi as u8));
        assert(hex_value(b[1]) == Some(lo as u8));
        assert((hi * 16 + lo) as u8 == x) by (nonlinear_arith)
            requires
                hi == x as int / 16,
                lo == x as int % 16,
        ;
        assert(seq![x] + rest =~= d);
    } else {
        assert(hex_text_bytes(d) =~= Seq::<u8>::empty());
    }
}

/// Hexadecimal text decodes back to the bytes it was written from.
pub proof fn lemma_hex_roundtrip(d: Seq<u8>)
    ensures
        spec_hex_decode(encode_utf8(spec_hex(d))) == Some(d),
{
    lemma_hex_text_bytes(d);
    lemma_hex_decode_text_bytes(d);
}

} // verus!
