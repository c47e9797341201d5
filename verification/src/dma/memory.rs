//! Host memory layer: HugePages, then mlock-pinned, then the standard allocator.
use vstd::prelude::*;
use super::provider::{MemoryProvider, PinnedBuffer};

verus! {

/// Whether a filesystem path exists; the answer depends on this machine.
#[verifier::external_body]
fn path_exists(p: &str) -> (r: bool) {
    std::path::Path::new(p).exists()
}

/// Memory in 2 MiB pages (`/dev/hugepages`).
pub struct HugePagesMemoryBackend;

/// Memory from the standard allocator: never fails, not pinned.
pub struct StandardMemoryBackend;

/// A plain heap buffer.
pub struct StandardBuffer {
    pub data: Vec<u8>,
}

impl HugePagesMemoryBackend {
    /// HugePages are usable when `/dev/hugepages` or `/sys/kernel/mm/hugepages` exists.
    pub fn probe() -> (r: bool) {
        path_exists("/dev/hugepages") || path_exists("/sys/kernel/mm/hugepages")
    }
}

impl MemoryProvider for HugePagesMemoryBackend {
    fn name(&self) -> (r: &'static str)
        ensures
            r@ == "hugepages-2mb"@,
    {
        "hugepages-2mb"
    }

    fn is_available(&self) -> bool {
        Self::probe()
    }
}

impl MemoryProvider for StandardMemoryBackend {
    fn name(&self) -> (r: &'static str)
        ensures
            r@ == "standard-allocator"@,
    {
        "standard-allocator"
    }

    fn is_available(&self) -> (r: bool)
        ensures
            r,
    {
        true
    }
}

impl StandardMemoryBackend {
    /// A zeroed buffer of `size` bytes.
    pub fn allocate(&self, size: usize) -> (r: StandardBuffer)
        ensures
            r.data@ == Seq::new(size as nat, |i: int| 0u8),
    {
        let mut data: Vec<u8> = Vec::new();
        let mut i: usize = 0;
        while i < size
            invariant
                i <= size,
                data@ == Seq::new(i as nat, |k: int| 0u8),
            decreases size - i,
        {
            data.push(0u8);
            i = i + 1;
            proof {
                assert(data@ =~= Seq::new(i as nat, |k: int| 0u8));
            }
        }
        StandardBuffer { data }
    }
}

impl PinnedBuffer for StandardBuffer {
    fn as_slice(&self) -> (r: &[u8])
        ensures
            r@ == self.data@,
    {
        self.data.as_slice()
    }

    fn len(&self) -> (r: usize)
        ensures
            r == self.data@.len(),
    {
        self.data.len()
    }
}

/// A memory backend of this layer.
pub enum MemoryBackend {
    HugePages(HugePagesMemoryBackend),
    /// mlock-pinned memory (set up outside this library).
    Pinned,
    Standard(StandardMemoryBackend),
}

/// HugePages when available, else pinned memory when `pinned_available`, else standard.
pub open spec fn select_memory(hugepages: bool, pinned_available: bool) -> MemoryBackend {
    if hugepages {
        MemoryBackend::HugePages(HugePagesMemoryBackend)
    } else if pinned_available {
        MemoryBackend::Pinned
    } else {
        MemoryBackend::Standard(StandardMemoryBackend)
    }
}

/// The backend chosen when HugePages are (`hugepages`) or are not present and mlock
/// does (`pinned_available`) or does not work (see `select_memory`).
pub fn choose_memory(hugepages: bool, pinned_available: bool) -> (r: MemoryBackend)
    ensures
        r == select_memory(hugepages, pinned_available),
{
    if hugepages {
        MemoryBackend::HugePages(HugePagesMemoryBackend)
    } else if pinned_available {
        MemoryBackend::Pinned
    } else {
        MemoryBackend::Standard(StandardMemoryBackend)
    }
}

/// The first available of HugePages, pinned memory and the standard allocator;
/// whether mlock works here is told by `pinned_available`. Whether HugePages are
/// present is probed on this machine, so the result is stated for either answer.
pub fn best_available(pinned_available: bool) -> (r: MemoryBackend)
    ensures
        exists|hugepages: bool| r == select_memory(hugepages, pinned_available),
{
    let hugepages = HugePagesMemoryBackend.is_available();
    choose_memory(hugepages, pinned_available)
}

} // verus!
