//! Storage layer: SPDK, then io_uring, then plain file reads.
use vstd::prelude::*;
use super::provider::StorageProvider;

verus! {

/// User-space NVMe access through SPDK (root and HugePages needed).
pub struct SpdkStorageBackend;

/// Linux io_uring reads (kernel 5.1 and later); `on_linux` tells whether this build
/// runs on Linux, as the caller knows from its target.
pub struct IoUringStorageBackend {
    pub on_linux: bool,
}

/// Plain `std::fs` reads: always available.
pub struct NativeStorageBackend;

impl IoUringStorageBackend {
    /// io_uring is taken to be present on Linux (5.1 or later) and absent elsewhere.
    pub fn probe(on_linux: bool) -> (r: bool)
        ensures
            r == on_linux,
    {
        on_linux
    }
}

impl SpdkStorageBackend {
    /// Name of the backend. Whether it can be used (HugePages and root privileges) is
    /// decided outside this library and handed to `best_available`.
    pub fn name(&self) -> (r: &'static str)
        ensures
            r@ == "spdk-nvme"@,
    {
        "spdk-nvme"
    }
}

impl StorageProvider for IoUringStorageBackend {
    fn name(&self) -> (r: &'static str)
        ensures
            r@ == "io_uring"@,
    {
        "io_uring"
    }

    fn is_available(&self) -> (r: bool)
        ensures
            r == self.on_linux,
    {
        Self::probe(self.on_linux)
    }
}

impl StorageProvider for NativeStorageBackend {
    fn name(&self) -> (r: &'static str)
        ensures
            r@ == "native-fs"@,
    {
        "native-fs"
    }

    fn is_available(&self) -> (r: bool)
        ensures
            r,
    {
        true
    }
}

/// A storage backend of this layer.
pub enum StorageBackend {
    Spdk(SpdkStorageBackend),
    IoUring(IoUringStorageBackend),
    Native(NativeStorageBackend),
}

/// The backend chosen on a Linux target (`on_linux`) or elsewhere, when SPDK's
/// needs (HugePages and root) are met (`spdk_available`) or not.
pub open spec fn select_storage(on_linux: bool, spdk_available: bool) -> StorageBackend {
    if on_linux && spdk_available {
        StorageBackend::Spdk(SpdkStorageBackend)
    } else if on_linux {
        StorageBackend::IoUring(IoUringStorageBackend { on_linux })
    } else {
        StorageBackend::Native(NativeStorageBackend)
    }
}

/// The first available of SPDK, io_uring and native reads. SPDK and io_uring exist
/// only on Linux (`on_linux`); whether SPDK can be used there (HugePages and root) is
/// told by `spdk_available`.
pub fn best_available(on_linux: bool, spdk_available: bool) -> (r: StorageBackend)
    ensures
        r == select_storage(on_linux, spdk_available),
{
    if on_linux && spdk_available {
        return StorageBackend::Spdk(SpdkStorageBackend);
    }
    let io_uring = IoUringStorageBackend { on_linux };
    if io_uring.probe_available() {
        return StorageBackend::IoUring(io_uring);
    }
    StorageBackend::Native(NativeStorageBackend)
}

impl IoUringStorageBackend {
    fn probe_available(&self) -> (r: bool)
        ensures
            r == self.on_linux,
    {
        Self::probe(self.on_linux)
    }
}

/// Where a read goes: a file (io_uring and native reads), or a raw NVMe device and
/// a block address (SPDK).
pub enum StorageSource {
    File(String),
    RawDevice(String, u64),
}

/// Why a backend cannot serve a read.
#[derive(Clone, Copy, Debug, PartialEq, Eq)]
pub enum StorageReadError {
    /// SPDK reads raw devices, not files.
    NeedsRawDevice,
    /// The SPDK bindings are not linked into this build.
    SpdkNotLinked,
}

/// The path a backend reads from `source`: SPDK serves no read (it needs a raw device,
/// and its bindings are not linked); io_uring and native reads open the source's path.
pub open spec fn spec_read_path(backend: StorageBackend, source: StorageSource) -> Result<Seq<char>, StorageReadError> {
    match backend {
        StorageBackend::Spdk(_) => match source {
            StorageSource::File(_) => Err(StorageReadError::NeedsRawDevice),
            StorageSource::RawDevice(_, _) => Err(StorageReadError::SpdkNotLinked),
        },
        _ => match source {
            StorageSource::File(p) => Ok(p@),
            StorageSource::RawDevice(p, _) => Ok(p@),
        },
    }
}

/// The path to open for a read from `source` with `backend` (see `spec_read_path`).
pub fn read_path(backend: &StorageBackend, source: &StorageSource) -> (r: Result<String, StorageReadError>)
    ensures
        match (r, spec_read_path(*backend, *source)) {
            (Ok(p), Ok(q)) => p@ == q,
            (Err(e), Err(f)) => e == f,
            _ => false,
        },
{
    match backend {
        StorageBackend::Spdk(_) => match source {
            StorageSource::File(_) => Err(StorageReadError::NeedsRawDevice),
            StorageSource::RawDevice(_, _) => Err(StorageReadError::SpdkNotLinked),
        },
        _ => match source {
            StorageSource::File(p) => Ok(p.clone()),
            StorageSource::RawDevice(p, _) => Ok(p.clone()),
        },
    }
}

} // verus!
