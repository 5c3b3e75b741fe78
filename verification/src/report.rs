//! Assembly of the memory snapshot an agent submits: byte counts scaled up
//! from the sampler's kibibyte counters, with the sampler's "available"
//! falling back to "free" where the platform reports none.

use vstd::prelude::*;
use crate::data::{MachineStatus, MemoryStatus};

verus! {

/// A kibibyte counter as a byte count, saturating at the top of the range
/// rather than wrapping.
pub open spec fn spec_kib_bytes(kb: u64) -> u64 {
    if kb * 1024 <= u64::MAX {
        (kb * 1024) as u64
    } else {
        u64::MAX
    }
}

/// Scales a kibibyte counter to bytes, saturating instead of overflowing.
pub fn kib_bytes(kb: u64) -> (r: u64)
    ensures
        r == spec_kib_bytes(kb),
{
    if kb <= u64::MAX / 1024 {
        kb * 1024
    } else {
        u64::MAX
    }
}

/// Builds the report an agent submits from the sampler's kibibyte counters.
/// The agent never sets a timestamp: the collector stamps at receipt.
pub fn build_report(
    name: String,
    total_kb: u64,
    free_kb: u64,
    avail_kb: u64,
    swap_total_kb: u64,
    swap_free_kb: u64,
) -> (r: MachineStatus)
    ensures
        r.timestamp is None,
        r.name == name,
        r.memory.total_memory == spec_kib_bytes(total_kb),
        r.memory.free_memory == spec_kib_bytes(free_kb),
        r.memory.available_memory == spec_kib_bytes(
            if avail_kb != 0 {
                avail_kb
            } else {
                free_kb
            },
        ),
        r.memory.total_swap == spec_kib_bytes(swap_total_kb),
        r.memory.free_swap == spec_kib_bytes(swap_free_kb),
{
    let available_kb = if avail_kb != 0 {
        avail_kb
    } else {
        free_kb
    };
    MachineStatus {
        timestamp: None,
        name,
        memory: MemoryStatus {
            total_memory: kib_bytes(total_kb),
            free_memory: kib_bytes(free_kb),
            available_memory: kib_bytes(available_kb),
            total_swap: kib_bytes(swap_total_kb),
            free_swap: kib_bytes(swap_free_kb),
        },
    }
}

} // verus!
