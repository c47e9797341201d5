//! GPU upload layer: Vulkan zero-copy, then WGPU, then CPU only.
use vstd::prelude::*;

verus! {

/// Vulkan upload through `VK_EXT_external_memory_host` (zero-copy).
pub struct VulkanTransferBackend;

/// Upload with `wgpu`'s `write_buffer` (one copy, portable).
pub struct WgpuTransferBackend;

/// No GPU: data stays in host memory for the CPU.
pub struct CpuTransferBackend;

impl VulkanTransferBackend {
    /// Whether the Vulkan extension can be used; no Vulkan bindings are linked, so never.
    pub fn probe() -> (r: bool)
        ensures
            !r,
    {
        false
    }

    pub fn name(&self) -> (r: &'static str)
        ensures
            r@ == "vulkan-external-memory-host"@,
    {
        "vulkan-external-memory-host"
    }

    pub fn is_available(&self) -> (r: bool)
        ensures
            !r,
    {
        Self::probe()
    }
}

impl WgpuTransferBackend {
    pub fn name(&self) -> (r: &'static str)
        ensures
            r@ == "wgpu-standard"@,
    {
        "wgpu-standard"
    }

    /// `wgpu` is always compiled in; a GPU is assumed present.
    pub fn is_available(&self) -> (r: bool)
        ensures
            r,
    {
        true
    }
}

impl CpuTransferBackend {
    pub fn name(&self) -> (r: &'static str)
        ensures
            r@ == "cpu-only"@,
    {
        "cpu-only"
    }

    pub fn is_available(&self) -> (r: bool)
        ensures
            r,
    {
        true
    }
}

/// A GPU upload backend.
pub enum GpuBackend {
    Vulkan(VulkanTransferBackend),
    Wgpu(WgpuTransferBackend),
    Cpu(CpuTransferBackend),
}

/// The first available of Vulkan, WGPU and CPU-only.
pub fn best_available() -> (r: GpuBackend)
    ensures
        r is Wgpu,
{
    let vk = VulkanTransferBackend;
    if vk.is_available() {
        return GpuBackend::Vulkan(vk);
    }
    let wgpu = WgpuTransferBackend;
    if wgpu.is_available() {
        return GpuBackend::Wgpu(wgpu);
    }
    GpuBackend::Cpu(CpuTransferBackend)
}

} // verus!
