//! Drive capacity: total, used and free bytes, plus the filesystem's name
//! and cluster size. The figures come from the operating system's own
//! volume query, never from summing a scan: a scan root is often only part
//! of a volume, and even a whole-volume scan undercounts "used".

use vstd::prelude::*;

verus! {

/// Capacity figures of one volume.
#[derive(Clone, Debug, PartialEq, Eq)]
pub struct VolumeInfo {
    pub label: String,
    pub filesystem: String,
    pub total_bytes: u64,
    pub free_bytes: u64,
    pub cluster_bytes: u32,
}

/// Used bytes: total minus free, or 0 when free exceeds total.
pub open spec fn used_of(total: u64, free: u64) -> u64 {
    if free <= total {
        (total - free) as u64
    } else {
        0
    }
}

impl VolumeInfo {
    /// Total minus free; a volume reporting more free than total space
    /// (bad input) reads as 0 used rather than wrapping around.
    pub fn used_bytes(&self) -> (u: u64)
        ensures
            u == used_of(self.total_bytes, self.free_bytes),
    {
        self.total_bytes.saturating_sub(self.free_bytes)
    }
}

} // verus!
