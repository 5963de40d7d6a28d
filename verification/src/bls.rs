use vstd::prelude::*;

verus! {

/// An aggregate BLS signature (96 bytes). Only a placeholder value exists so
/// far; signing, aggregation and verification are not provided.
pub struct BlsSignature(pub [u8; 96]);

impl BlsSignature {
    /// The all-zero signature.
    pub fn placeholder() -> (s: Self)
        ensures
            forall|i: int| 0 <= i < 96 ==> s.0@[i] == 0,
    {
        Self([0u8; 96])
    }
}

} // verus!
