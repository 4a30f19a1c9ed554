pub mod addr;
pub mod pmm;
pub mod vmm;
pub mod heap;

use vstd::prelude::*;
use crate::mm::pmm::PmmStats;
use crate::mm::heap::HeapStats;
use crate::mm::vmm::VmmStats;

verus! {

/// Memory figures of the whole kernel, drawn from the physical memory,
/// heap and virtual memory snapshots.
#[derive(Debug, Clone, Copy, Default)]
pub struct MemoryStats {
    /// Physical pages in all.
    pub total_pages: usize,
    /// Free physical pages.
    pub free_pages: usize,
    /// Allocated physical pages.
    pub used_pages: usize,
    /// Heap objects handed out.
    pub heap_objects: usize,
    /// Heap bytes in use.
    pub heap_bytes: usize,
    /// Page faults taken.
    pub page_faults: u64,
    /// Pages mapped on demand.
    pub demand_pages: u64,
    /// Copy-on-write breaks.
    pub cow_breaks: u64,
    /// Pages swapped out and not yet back.
    pub swapped_pages: usize,
}

/// The summary of the three snapshots.
pub fn stats(p: &PmmStats, h: &HeapStats, v: &VmmStats) -> (r: MemoryStats)
    ensures
        r == (MemoryStats {
            total_pages: p.total_pages,
            free_pages: p.free_pages,
            used_pages: p.used_pages,
            heap_objects: h.objects,
            heap_bytes: h.bytes_in_use,
            page_faults: v.page_faults,
            demand_pages: v.demand_pages,
            cow_breaks: v.cow_breaks,
            swapped_pages: v.swapped_pages,
        }),
{
    MemoryStats {
        total_pages: p.total_pages,
        free_pages: p.free_pages,
        used_pages: p.used_pages,
        heap_objects: h.objects,
        heap_bytes: h.bytes_in_use,
        page_faults: v.page_faults,
        demand_pages: v.demand_pages,
        cow_breaks: v.cow_breaks,
        swapped_pages: v.swapped_pages,
    }
}

} // verus!
