//! A writable memory map treated as a byte store.
//!
//! The `memmap2` crate owns the mapping itself; this module names the bytes
//! the map currently holds and gates every read and write through a bounds
//! checked call, so the rest of the library can reason about the store as a
//! plain byte sequence.

use vstd::prelude::*;

verus! {

#[verifier::external_type_specification]
#[verifier::external_body]
pub struct ExMmapMut(memmap2::MmapMut);

/// The bytes a writable memory map currently holds, in order.
pub uninterp spec fn mmap_bytes(m: memmap2::MmapMut) -> Seq<u8>;

/// Relies on `<MmapMut as Deref>::deref` and `<[u8]>::len`: the map presents
/// a byte slice of fixed length.
#[verifier::external_body]
pub(crate) fn mmap_len(m: &memmap2::MmapMut) -> (n: usize)
    ensures
        n == mmap_bytes(*m).len(),
{
    m.len()
}

/// Relies on `<MmapMut as Deref>::deref`: reading a range of the mapped
/// slice yields the bytes the map holds there.
#[verifier::external_body]
pub(crate) fn mmap_read(m: &memmap2::MmapMut, start: usize, end: usize) -> (r: Vec<u8>)
    requires
        start <= end <= mmap_bytes(*m).len(),
    ensures
        r@ == mmap_bytes(*m).subrange(start as int, end as int),
{
    m[start..end].to_vec()
}

/// Relies on `<MmapMut as DerefMut>::deref_mut` and
/// `<[u8]>::copy_from_slice`: writing a range of the mapped slice replaces
/// exactly those bytes and no others.
#[verifier::external_body]
pub(crate) fn mmap_write(m: &mut memmap2::MmapMut, offset: usize, data: &[u8])
    requires
        offset + data@.len() <= mmap_bytes(*old(m)).len(),
    ensures
        mmap_bytes(*final(m)) == mmap_bytes(*old(m)).subrange(
            0,
            offset as int,
        ) + data@ + mmap_bytes(*old(m)).subrange(
            offset + data@.len(),
            mmap_bytes(*old(m)).len() as int,
        ),
{
    m[offset..offset + data.len()].copy_from_slice(data);
}

/// Relies on `MmapMut::flush`: asks the OS to write the mapped bytes back to
/// the underlying file; the bytes the map holds do not change.  The result
/// reports whether the flush succeeded.
#[verifier::external_body]
pub(crate) fn mmap_flush(m: &memmap2::MmapMut) -> (ok: bool)
{
    m.flush().is_ok()
}

} // verus!
