pub mod vma;
pub mod layout;
pub mod page_table;
pub mod swap;
pub mod mapping;
pub mod cow;
mod space;
mod manager;

pub use space::{
    account_fault, decide_fault, fault_action_for, fault_counted, find_free_range, find_vma, find_vma_range, mmap_anon,
    page_count, perms_to_flags, stats, vma_snapshot, FaultAction, MmapError, PageFaultResult, VmmStats,
    VMM_PAGE,
};
pub use manager::{
    area_at, fault_action, fault_effect, fault_page, handle_page_fault, lemma_map_unmap_roundtrip,
    lemma_swap_out_in_roundtrip, meets_area, mmap_anon_eager, mprotect, munmap, swap_in_effect, swap_out_page, swapped_out,
    zero_stats, VmmState,
};
