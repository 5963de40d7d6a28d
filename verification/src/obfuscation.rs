use vstd::prelude::*;
use crate::bytes::append_bytes;
use crate::entropy::{thread_rng_bytes, thread_rng_next_u32};

verus! {

/// Length of the frame header: the mask type and the payload length.
pub const HEADER_LEN: usize = 3;

/// An obfuscated frame:
/// `[mask type: 1 byte] [payload length: u16 little-endian] [payload, bytes reversed] [padding]`.
pub struct ObfuscatedFrame {
    pub mask_type: u8,
    pub payload: Vec<u8>,
}

/// The frame for `raw` with the given mask type and padding: the length field
/// holds the payload length modulo 2^16.
pub open spec fn frame_of(raw: Seq<u8>, mask_type: u8, padding: Seq<u8>) -> Seq<u8> {
    seq![mask_type, (raw.len() % 256) as u8, ((raw.len() / 256) % 256) as u8] + raw.reverse() + padding
}

/// What `unwrap` reads from a frame: `None` when the header is cut short or
/// the frame is shorter than its length field says, else the payload with
/// its bytes put back in order.
pub open spec fn unframe(frame: Seq<u8>) -> Option<Seq<u8>> {
    if frame.len() < HEADER_LEN {
        None
    } else {
        let n = frame[1] as int + 256 * frame[2] as int;
        if frame.len() < HEADER_LEN + n {
            None
        } else {
            Some(frame.subrange(HEADER_LEN as int, HEADER_LEN + n).reverse())
        }
    }
}

impl ObfuscatedFrame {
    /// Wraps `raw` with the given mask type and padding.
    pub fn wrap_with(raw: &[u8], mask_type: u8, padding: &[u8]) -> (frame: Vec<u8>)
        ensures
            frame@ == frame_of(raw@, mask_type, padding@),
    {
        let mut reversed: Vec<u8> = Vec::new();
        let mut i: usize = raw.len();
        while i > 0
            invariant
                i <= raw@.len(),
                reversed@ == raw@.subrange(i as int, raw@.len() as int).reverse(),
            decreases i,
        {
            i = i - 1;
            reversed.push(raw[i]);
            assert(reversed@ =~= raw@.subrange(i as int, raw@.len() as int).reverse());
        }
        assert(raw@.subrange(0, raw@.len() as int) =~= raw@);
        let len: usize = raw.len();
        let mut frame: Vec<u8> = Vec::new();
        frame.push(mask_type);
        frame.push((len % 256) as u8);
        frame.push(((len / 256) % 256) as u8);
        append_bytes(&mut frame, reversed.as_slice());
        append_bytes(&mut frame, padding);
        assert(frame@ =~= frame_of(raw@, mask_type, padding@));
        frame
    }

    /// Wraps `raw` with a random mask type (0 to 3) and 0 to 255 random
    /// padding bytes.
    pub fn wrap(raw: &[u8]) -> (frame: Vec<u8>)
        ensures
            exists|mask_type: u8, padding: Seq<u8>|
                mask_type < 4 && padding.len() < 256 && frame@ == frame_of(raw@, mask_type, padding),
    {
        let mask_type = (thread_rng_next_u32() % 4) as u8;
        let padding_len = (thread_rng_next_u32() % 256) as usize;
        let padding = thread_rng_bytes(padding_len);
        let frame = Self::wrap_with(raw, mask_type, padding.as_slice());
        assert(frame@ == frame_of(raw@, mask_type, padding@));
        frame
    }

    /// The payload of a frame, or `None` when the frame is too short for its
    /// header or its length field.
    pub fn unwrap(frame: &[u8]) -> (payload: Option<Vec<u8>>)
        ensures
            match payload {
                Some(p) => unframe(frame@) == Some(p@),
                None => unframe(frame@) is None,
            },
    {
        if frame.len() < HEADER_LEN {
            return None;
        }
        let n: usize = frame[1] as usize + 256 * (frame[2] as usize);
        if frame.len() - HEADER_LEN < n {
            return None;
        }
        let mut payload: Vec<u8> = Vec::new();
        let mut i: usize = HEADER_LEN + n;
        while i > HEADER_LEN
            invariant
                HEADER_LEN <= i <= HEADER_LEN + n,
                HEADER_LEN + n <= frame@.len(),
                payload@ == frame@.subrange(i as int, HEADER_LEN + n).reverse(),
            decreases i,
        {
            i = i - 1;
            payload.push(frame[i]);
            assert(payload@ =~= frame@.subrange(i as int, HEADER_LEN + n).reverse());
        }
        Some(payload)
    }
}

/// Unwrapping a frame made from a payload of at most 65535 bytes gives the
/// payload back, whatever the mask type and padding.
pub proof fn lemma_unwrap_wrap(raw: Seq<u8>, mask_type: u8, padding: Seq<u8>)
    requires
        raw.len() <= 65535,
    ensures
        unframe(frame_of(raw, mask_type, padding)) == Some(raw),
{
    let f = frame_of(raw, mask_type, padding);
    let n = raw.len() as int;
    assert(f[1] as int + 256 * f[2] as int == n);
    assert(f.subrange(HEADER_LEN as int, HEADER_LEN + n) =~= raw.reverse());
    assert(raw.reverse().reverse() =~= raw);
}

} // verus!
