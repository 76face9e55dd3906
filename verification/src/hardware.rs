//! What the host offers a model: GPU class and memory sizes.
//!
//! Sizes are decimal gigabytes carried as integer billionths (see
//! [`crate::num`]), so `8 GB` is `8_000_000_000`.

use vstd::prelude::*;

verus! {

/// One billion: a whole gigabyte in billionths.
pub const NANO: i128 = 1_000_000_000;

/// The largest size, in billionths of a gigabyte, that a profile may hold.
pub const MAX_NANO_GB: i128 = 1_000_000_000_000_000_000_000_000_000_000;

#[derive(Debug, Clone, Copy, PartialEq, Eq, Structural)]
pub enum GpuType {
    Nvidia,
    Amd,
    Apple,
    NoGpu,
}

/// A host as the resolver sees it. Sizes are in billionths of a gigabyte.
#[derive(Debug, Clone, Copy, PartialEq, Eq, Structural)]
pub struct HardwareProfile {
    pub vram_nano_gb: Option<i128>,
    pub ram_nano_gb: i128,
    pub disk_free_nano_gb: i128,
    pub gpu_type: GpuType,
}

impl HardwareProfile {
    /// Every size lies within `±MAX_NANO_GB`.
    pub open spec fn wf(self) -> bool {
        &&& -MAX_NANO_GB <= self.ram_nano_gb <= MAX_NANO_GB
        &&& -MAX_NANO_GB <= self.disk_free_nano_gb <= MAX_NANO_GB
        &&& (self.vram_nano_gb matches Some(v) ==> -MAX_NANO_GB <= v <= MAX_NANO_GB)
    }
}

/// Whether the GPU shares its memory with the system: Apple silicon, and
/// hosts with no GPU at all.
pub open spec fn spec_is_unified(gpu: GpuType) -> bool {
    gpu == GpuType::Apple || gpu == GpuType::NoGpu
}

pub fn is_unified_memory(hw: &HardwareProfile) -> (r: bool)
    ensures
        r == spec_is_unified(hw.gpu_type),
{
    match hw.gpu_type {
        GpuType::Apple | GpuType::NoGpu => true,
        _ => false,
    }
}

/// The key under which a manifest's `headroom_gb` block names a GPU class.
pub open spec fn spec_gpu_key(gpu: GpuType) -> Seq<char> {
    match gpu {
        GpuType::Apple => "apple"@,
        GpuType::NoGpu => "none"@,
        GpuType::Nvidia => "nvidia"@,
        GpuType::Amd => "amd"@,
    }
}

pub fn gpu_key(gpu: GpuType) -> (r: &'static str)
    ensures
        r@ == spec_gpu_key(gpu),
{
    match gpu {
        GpuType::Apple => "apple",
        GpuType::NoGpu => "none",
        GpuType::Nvidia => "nvidia",
        GpuType::Amd => "amd",
    }
}

/// Memory left for the OS and the companion models when a manifest says
/// nothing: 5 GB on Apple, 2 GB without a GPU, 1 GB beside a discrete card.
pub open spec fn spec_default_headroom(gpu: GpuType) -> int {
    match gpu {
        GpuType::Apple => 5 * NANO,
        GpuType::NoGpu => 2 * NANO,
        GpuType::Nvidia | GpuType::Amd => 1 * NANO,
    }
}

pub fn default_headroom_nano_gb(gpu: GpuType) -> (r: i128)
    ensures
        r == spec_default_headroom(gpu),
{
    match gpu {
        GpuType::Apple => 5 * NANO,
        GpuType::NoGpu => 2 * NANO,
        GpuType::Nvidia | GpuType::Amd => NANO,
    }
}

} // verus!
