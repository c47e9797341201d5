//! ZenDMA: picks, per layer, the best transfer backend this machine offers:
//! storage (SPDK, io_uring, native), pinned host memory (HugePages, mlock,
//! standard) and GPU upload (Vulkan zero-copy, WGPU, CPU only).
pub mod provider;
pub mod storage;
pub mod memory;
pub mod gpu;
pub mod pipeline;
