//! A configured DMA pipeline, and the plan by which a file streams through it chunk
//! by chunk: which range to read next, and where the stream stands after each read.
use vstd::prelude::*;
use super::storage::{self, StorageBackend};
use super::memory::{self, MemoryBackend, select_memory};
use super::gpu::{self, GpuBackend};

verus! {

/// Bytes per streamed chunk: 256 MiB.
pub const DMA_CHUNK_SIZE: usize = 268435456;

/// The three layers chosen for this machine and the streaming chunk size.
pub struct ZenDmaEngine {
    pub storage: StorageBackend,
    pub memory: MemoryBackend,
    pub gpu: GpuBackend,
    pub chunk_size: usize,
}

impl ZenDmaEngine {
    /// The best backend of each layer (SPDK on Linux when `spdk_available`, io_uring
    /// on other Linux machines, native reads elsewhere; pinned memory when HugePages
    /// are absent and `pinned_available`) with 256 MiB chunks.
    pub fn auto_detect(on_linux: bool, spdk_available: bool, pinned_available: bool) -> (r: Self)
        ensures
            r.chunk_size == DMA_CHUNK_SIZE,
            r.storage == storage::select_storage(on_linux, spdk_available),
            exists|hugepages: bool| r.memory == select_memory(hugepages, pinned_available),
            r.gpu is Wgpu,
    {
        ZenDmaEngine {
            storage: storage::best_available(on_linux, spdk_available),
            memory: memory::best_available(pinned_available),
            gpu: gpu::best_available(),
            chunk_size: DMA_CHUNK_SIZE,
        }
    }
}

/// A file of `file_size` bytes streaming in chunks of at most `chunk_size` bytes:
/// `offset` bytes are through, and `done` once a read returned nothing.
pub struct ChunkStream {
    file_size: u64,
    offset: u64,
    chunk_size: usize,
    done: bool,
}

pub struct ChunkStreamView {
    pub file_size: u64,
    pub offset: u64,
    pub chunk_size: usize,
    pub done: bool,
}

impl View for ChunkStream {
    type V = ChunkStreamView;

    closed spec fn view(&self) -> ChunkStreamView {
        ChunkStreamView {
            file_size: self.file_size,
            offset: self.offset,
            chunk_size: self.chunk_size,
            done: self.done,
        }
    }
}

/// The range to read next: from the offset reached, the rest of the file but no
/// more than one chunk; nothing once the stream is done or the file is through.
pub open spec fn spec_next_chunk(v: ChunkStreamView) -> Option<(u64, usize)> {
    if v.done || v.offset >= v.file_size {
        None
    } else {
        let rest = v.file_size - v.offset;
        Some((v.offset, if rest < v.chunk_size { rest as usize } else { v.chunk_size }))
    }
}

impl ChunkStream {
    pub closed spec fn wf(&self) -> bool {
        self.offset <= self.file_size
    }

    /// A stream at the start of the file.
    pub fn new(file_size: u64, chunk_size: usize) -> (r: Self)
        ensures
            r.wf(),
            r@ == (ChunkStreamView { file_size, offset: 0, chunk_size, done: false }),
    {
        ChunkStream { file_size, offset: 0, chunk_size, done: false }
    }

    /// Bytes streamed so far.
    pub fn offset(&self) -> (r: u64)
        ensures
            r == self@.offset,
    {
        self.offset
    }

    /// The next range to read (see `spec_next_chunk`).
    pub fn next_chunk(&self) -> (r: Option<(u64, usize)>)
        requires
            self.wf(),
        ensures
            r == spec_next_chunk(self@),
            r matches Some((o, n)) ==> o + n <= self@.file_size,
    {
        if self.done || self.offset >= self.file_size {
            return None;
        }
        let rest = self.file_size - self.offset;
        let n = if rest < self.chunk_size as u64 {
            rest as usize
        } else {
            self.chunk_size
        };
        Some((self.offset, n))
    }

    /// Records a read of the chunk `next_chunk` gave: an empty read ends the stream,
    /// else the offset moves past the bytes read.
    pub fn advance(&mut self, bytes_read: usize)
        requires
            old(self).wf(),
            spec_next_chunk(old(self)@) matches Some((o, n)) && bytes_read <= n,
        ensures
            final(self).wf(),
            final(self)@.file_size == old(self)@.file_size,
            final(self)@.chunk_size == old(self)@.chunk_size,
            bytes_read == 0 ==> final(self)@.done && final(self)@.offset == old(self)@.offset,
            bytes_read > 0 ==> !final(self)@.done && final(self)@.offset == old(self)@.offset + bytes_read,
    {
        if bytes_read == 0 {
            self.done = true;
        } else {
            self.offset = self.offset + bytes_read as u64;
        }
    }
}

} // verus!
