//! Byte-level access to a sample file, either held in memory or
//! memory-mapped from disk.

use vstd::prelude::*;

verus! {

/// The bytes that a read-only memory map exposes.  `memmap2::Mmap`
/// dereferences to a fixed `[u8]` region; this names that region's
/// contents, which depend on the map value alone as long as the
/// underlying file is not modified while mapped (the crate documents
/// concurrent modification as undefined).
pub uninterp spec fn mmap_bytes(m: &memmap2::Mmap) -> Seq<u8>;

#[verifier::external_type_specification]
#[verifier::external_body]
pub struct ExMmap(memmap2::Mmap);

/// Relies on `memmap2::Mmap::len`: the length in bytes of the mapped region.
#[verifier::external_body]
fn mmap_len(m: &memmap2::Mmap) -> (n: usize)
    ensures
        n == mmap_bytes(m).len(),
{
    m.len()
}

/// Relies on `<memmap2::Mmap as core::ops::Deref>::deref`, which exposes
/// the mapped region as a `[u8]`: indexing it yields the byte at `i`.
#[verifier::external_body]
fn mmap_byte(m: &memmap2::Mmap, i: usize) -> (b: u8)
    requires
        i < mmap_bytes(m).len(),
    ensures
        b == mmap_bytes(m)[i as int],
{
    m[i]
}

/// A source of raw sample-file bytes: either an owned buffer or a
/// read-only memory map of the file.
pub enum ByteSource {
    Mem(Vec<u8>),
    Mapped(memmap2::Mmap),
}

impl View for ByteSource {
    type V = Seq<u8>;

    open spec fn view(&self) -> Seq<u8> {
        match self {
            ByteSource::Mem(v) => v@,
            ByteSource::Mapped(m) => mmap_bytes(m),
        }
    }
}

impl ByteSource {
    /// Total number of bytes available.
    pub fn len(&self) -> (n: usize)
        ensures
            n == self@.len(),
    {
        match self {
            ByteSource::Mem(v) => v.len(),
            ByteSource::Mapped(m) => mmap_len(m),
        }
    }

    /// The byte at index `i`.
    pub fn byte_at(&self, i: usize) -> (b: u8)
        requires
            i < self@.len(),
        ensures
            b == self@[i as int],
    {
        match self {
            ByteSource::Mem(v) => v[i],
            ByteSource::Mapped(m) => mmap_byte(m, i),
        }
    }
}

} // verus!
