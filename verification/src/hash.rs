//! Blake2s digests in the two widths the protocol uses: 16 bytes for pieces,
//! 24 bytes for files and boxes.

use blake2::Digest;
use vstd::prelude::*;

verus! {

/// The 16-byte Blake2s digest of a byte sequence, as the `blake2` crate
/// computes it.  The digest is a function of the input bytes alone.
pub uninterp spec fn blake2s16_of(data: Seq<u8>) -> Seq<u8>;

/// The 24-byte Blake2s digest of a byte sequence, as the `blake2` crate
/// computes it.  The digest is a function of the input bytes alone.
pub uninterp spec fn blake2s24_of(data: Seq<u8>) -> Seq<u8>;

/// Relies on `blake2::Blake2s::<U16>::digest`: a 16-byte digest determined by
/// the input bytes alone.
#[verifier::external_body]
pub(crate) fn blake2s16(data: &[u8]) -> (r: [u8; 16])
    ensures
        r@ == blake2s16_of(data@),
        r@.len() == 16,
{
    let d = blake2::Blake2s::<blake2::digest::consts::U16>::digest(data);
    d.into()
}

/// Relies on `blake2::Blake2s::<U24>::digest`: a 24-byte digest determined by
/// the input bytes alone.
#[verifier::external_body]
pub(crate) fn blake2s24(data: &[u8]) -> (r: [u8; 24])
    ensures
        r@ == blake2s24_of(data@),
        r@.len() == 24,
{
    let d = blake2::Blake2s::<blake2::digest::consts::U24>::digest(data);
    d.into()
}

/// Byte-for-byte equality of two 16-byte digests.
pub fn hash16_eq(a: &[u8; 16], b: &[u8; 16]) -> (r: bool)
    ensures
        r == (a@ == b@),
{
    let mut i: usize = 0;
    while i < 16
        invariant
            i <= 16,
            forall|j: int| 0 <= j < i ==> a@[j] == b@[j],
        decreases 16 - i,
    {
        if a[i] != b[i] {
            assert(a@ != b@);
            return false;
        }
        i += 1;
    }
    assert(a@ =~= b@);
    true
}

/// Byte-for-byte equality of two 24-byte digests.
pub fn hash24_eq(a: &[u8; 24], b: &[u8; 24]) -> (r: bool)
    ensures
        r == (a@ == b@),
{
    let mut i: usize = 0;
    while i < 24
        invariant
            i <= 24,
            forall|j: int| 0 <= j < i ==> a@[j] == b@[j],
        decreases 24 - i,
    {
        if a[i] != b[i] {
            assert(a@ != b@);
            return false;
        }
        i += 1;
    }
    assert(a@ =~= b@);
    true
}

} // verus!
