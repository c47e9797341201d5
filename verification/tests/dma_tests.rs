use zen_engine::dma::gpu::{self, GpuBackend, VulkanTransferBackend};
use zen_engine::dma::memory::{self, MemoryBackend, StandardMemoryBackend};
use zen_engine::dma::provider::{PinnedBuffer, StorageProvider};
use zen_engine::dma::storage::{
    self, read_path, IoUringStorageBackend, NativeStorageBackend, SpdkStorageBackend, StorageBackend, StorageReadError,
    StorageSource,
};
use zen_engine::dma::pipeline::{ChunkStream, ZenDmaEngine, DMA_CHUNK_SIZE};

#[test]
fn gpu_layer_prefers_wgpu_without_vulkan() {
    assert!(!VulkanTransferBackend::probe());
    assert!(matches!(gpu::best_available(), GpuBackend::Wgpu(_)));
}

#[test]
fn storage_layer_order() {
    assert!(matches!(storage::best_available(true, true), StorageBackend::Spdk(_)));
    assert!(matches!(storage::best_available(true, false), StorageBackend::IoUring(_)));
    assert!(matches!(storage::best_available(false, true), StorageBackend::Native(_)));
    assert!(matches!(storage::best_available(false, false), StorageBackend::Native(_)));
    assert_eq!(IoUringStorageBackend { on_linux: true }.name(), "io_uring");
    assert!(IoUringStorageBackend::probe(true));
    assert!(!IoUringStorageBackend::probe(false));
    assert!(!IoUringStorageBackend { on_linux: false }.is_available());
    assert!(NativeStorageBackend.is_available());
}

#[test]
fn memory_layer() {
    let buf = StandardMemoryBackend.allocate(16);
    assert_eq!(buf.len(), 16);
    assert!(buf.as_slice().iter().all(|&b| b == 0));
    let chosen = memory::best_available(false);
    assert!(!matches!(chosen, MemoryBackend::Pinned));
}

#[test]
fn pipeline_picks_each_layer() {
    let e = ZenDmaEngine::auto_detect(true, true, false);
    assert_eq!(e.chunk_size, DMA_CHUNK_SIZE);
    assert!(matches!(e.storage, StorageBackend::Spdk(_)));
    assert!(matches!(e.gpu, GpuBackend::Wgpu(_)));
    let e = ZenDmaEngine::auto_detect(true, false, true);
    assert!(matches!(e.storage, StorageBackend::IoUring(_)));
    let e = ZenDmaEngine::auto_detect(false, true, true);
    assert!(matches!(e.storage, StorageBackend::Native(_)));
}

#[test]
fn file_streams_in_chunks() {
    let mut s = ChunkStream::new(10, 4);
    assert_eq!(s.next_chunk(), Some((0, 4)));
    s.advance(4);
    assert_eq!(s.next_chunk(), Some((4, 4)));
    s.advance(3);
    assert_eq!(s.next_chunk(), Some((7, 3)));
    s.advance(3);
    assert_eq!(s.offset(), 10);
    assert_eq!(s.next_chunk(), None);
}

#[test]
fn empty_read_ends_the_stream() {
    let mut s = ChunkStream::new(10, 4);
    s.advance(0);
    assert_eq!(s.next_chunk(), None);
    assert_eq!(s.offset(), 0);
    assert_eq!(ChunkStream::new(0, 4).next_chunk(), None);
}

#[test]
fn memory_choice_follows_the_probes() {
    assert!(matches!(memory::choose_memory(true, true), MemoryBackend::HugePages(_)));
    assert!(matches!(memory::choose_memory(true, false), MemoryBackend::HugePages(_)));
    assert!(matches!(memory::choose_memory(false, true), MemoryBackend::Pinned));
    assert!(matches!(memory::choose_memory(false, false), MemoryBackend::Standard(_)));
}

#[test]
fn read_path_by_backend() {
    let file = StorageSource::File("/data/x.csv".to_string());
    let raw = StorageSource::RawDevice("/dev/nvme0n1".to_string(), 7);
    let native = StorageBackend::Native(NativeStorageBackend);
    let spdk = StorageBackend::Spdk(SpdkStorageBackend);
    assert_eq!(read_path(&native, &file), Ok("/data/x.csv".to_string()));
    assert_eq!(read_path(&native, &raw), Ok("/dev/nvme0n1".to_string()));
    assert_eq!(read_path(&spdk, &file), Err(StorageReadError::NeedsRawDevice));
    assert_eq!(read_path(&spdk, &raw), Err(StorageReadError::SpdkNotLinked));
}
