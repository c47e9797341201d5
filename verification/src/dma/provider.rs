//! What every backend of each layer offers.
use vstd::prelude::*;

verus! {

/// A storage backend: reads raw bytes from disk into host memory.
pub trait StorageProvider {
    /// Human-readable name of the backend.
    fn name(&self) -> &'static str;

    /// Whether the backend can be used on this machine.
    fn is_available(&self) -> bool;
}

/// A region of host memory ready for DMA.
pub trait PinnedBuffer {
    /// The bytes of the region.
    fn as_slice(&self) -> &[u8];

    /// Size of the region in bytes.
    fn len(&self) -> usize;
}

/// A memory backend: allocates host memory for DMA transfers.
pub trait MemoryProvider {
    fn name(&self) -> &'static str;

    fn is_available(&self) -> bool;
}

} // verus!
