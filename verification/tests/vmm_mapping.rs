use axis_core::mm::heap::provider::{FakeProvider, PageProvider, FAKE_POOL_BASE};
use axis_core::mm::vmm::cow::{break_cow, cow_share, is_cow, mark_cow, CowError};
use axis_core::mm::vmm::mapping::{is_mapped, map_anon, map_phys, unmap_range, update_range, MappingError};
use axis_core::mm::vmm::page_table::{
    phys_to_direct, MappingFlags, PageMapper, PageTableError, SoftPageTable, PTE_COW, PTE_NO_EXECUTE, PTE_PRESENT,
    PTE_USER, PTE_WRITABLE,
};
use axis_core::mm::vmm::swap::MemorySwapStore;
use axis_core::mm::vmm::vma::{VmaFlags, VmaPerm};
use axis_core::mm::vmm::{
    find_vma, handle_page_fault, mmap_anon_eager, mprotect, munmap, swap_out_page, MmapError, PageFaultResult,
    VmmState,
};

const BASE: usize = 0x40_0000;

fn rw() -> MappingFlags {
    MappingFlags::read_write()
}

#[test]
fn map_anon_maps_every_page() {
    let mut pt = SoftPageTable::new();
    let mut frames = FakeProvider::new(8);
    assert_eq!(map_anon(&mut pt, &mut frames, BASE, 3, rw()), Ok(()));
    assert_eq!(pt.mapped_count(), 3);
    for i in 0..3 {
        assert!(is_mapped(&pt, BASE + i * 4096 + 17));
        assert_eq!(pt.pte_flags(BASE + i * 4096), Some(rw()));
    }
    assert!(!is_mapped(&pt, BASE + 3 * 4096));
    assert_eq!(frames.free_count(), 5);
    assert_eq!(pt.translate(BASE + 5), Some(FAKE_POOL_BASE as u64 + 5));
}

#[test]
fn map_anon_refuses_misaligned_address() {
    let mut pt = SoftPageTable::new();
    let mut frames = FakeProvider::new(2);
    assert_eq!(map_anon(&mut pt, &mut frames, BASE + 1, 1, rw()), Err(MappingError::Invalid));
    assert_eq!(pt.mapped_count(), 0);
}

#[test]
fn map_anon_is_all_or_nothing() {
    let mut pt = SoftPageTable::new();
    let mut frames = FakeProvider::new(4);
    assert_eq!(map_anon(&mut pt, &mut frames, BASE + 2 * 4096, 1, rw()), Ok(()));
    // The third page of the run is mapped already: the two before it are undone.
    assert_eq!(map_anon(&mut pt, &mut frames, BASE, 4, rw()), Err(MappingError::AlreadyMapped));
    assert_eq!(pt.mapped_count(), 1);
    assert!(!is_mapped(&pt, BASE));
    assert_eq!(frames.free_count(), 3);
    // Frames run out after two pages: both are undone and given back.
    let mut few = FakeProvider::new(2);
    let mut pt2 = SoftPageTable::new();
    assert_eq!(map_anon(&mut pt2, &mut few, BASE, 3, rw()), Err(MappingError::OutOfMemory));
    assert_eq!(pt2.mapped_count(), 0);
    assert_eq!(few.free_count(), 2);
}

#[test]
fn map_phys_unmap_and_update() {
    let mut pt = SoftPageTable::new();
    assert_eq!(map_phys(&mut pt, BASE, 0x8000_0000, 2, rw()), Ok(()));
    assert_eq!(pt.translate(BASE + 4096 + 3), Some(0x8000_1003));
    assert_eq!(map_phys(&mut pt, BASE, 0x8000_0001, 1, rw()), Err(MappingError::Invalid));
    assert_eq!(map_phys(&mut pt, BASE + 4096, 0x9000_0000, 2, rw()), Err(MappingError::AlreadyMapped));
    assert_eq!(update_range(&mut pt, BASE + 10, 2, MappingFlags::read_only()), Ok(()));
    assert_eq!(pt.pte_flags(BASE + 4096), Some(MappingFlags::read_only()));
    assert_eq!(pt.translate(BASE), Some(0x8000_0000));
    assert_eq!(update_range(&mut pt, BASE, 3, rw()), Err(MappingError::NotMapped));
    let mut frames = FakeProvider::new(1);
    assert_eq!(unmap_range(&mut pt, &mut frames, BASE, 3, false), Err(MappingError::NotMapped));
    assert_eq!(pt.mapped_count(), 0);
    assert_eq!(unmap_range(&mut pt, &mut frames, BASE, 1, false), Err(MappingError::NotMapped));
}

#[test]
fn unmap_range_gives_anonymous_frames_back() {
    let mut pt = SoftPageTable::new();
    let mut frames = FakeProvider::new(4);
    assert_eq!(map_anon(&mut pt, &mut frames, BASE, 2, rw()), Ok(()));
    assert_eq!(frames.free_count(), 2);
    assert_eq!(unmap_range(&mut pt, &mut frames, BASE, 2, true), Ok(()));
    assert_eq!(frames.free_count(), 4);
    assert_eq!(pt.mapped_count(), 0);
}

#[test]
fn cow_share_and_break() {
    let mut pt = SoftPageTable::new();
    let mut frames = FakeProvider::new(4);
    assert_eq!(map_anon(&mut pt, &mut frames, BASE, 1, rw()), Ok(()));
    let shared = pt.translate(BASE).unwrap();
    let mut page = vec![0u8; 4096];
    page[0] = 0xAB;
    page[4095] = 0xCD;
    pt.write_frame(shared, &page);
    let child = BASE + 0x10_0000;
    assert_eq!(cow_share(&mut pt, BASE, child, rw()), Ok(()));
    assert_eq!(pt.translate(child), Some(shared));
    assert!(is_cow(&pt, BASE) && is_cow(&pt, child));
    assert_eq!(pt.pte_flags(child), Some(rw().to_cow()));
    assert_eq!(break_cow(&mut pt, &mut frames, child + 8, rw()), Ok(()));
    let private = pt.translate(child).unwrap();
    assert_ne!(private, shared);
    assert!(!is_cow(&pt, child));
    assert_eq!(pt.pte_flags(child), Some(rw()));
    assert_eq!(pt.read_frame(private), page);
    assert_eq!(pt.translate(BASE), Some(shared));
    assert!(is_cow(&pt, BASE));
}

#[test]
fn cow_errors() {
    let mut pt = SoftPageTable::new();
    let mut frames = FakeProvider::new(1);
    assert_eq!(mark_cow(&mut pt, BASE, rw()), Err(CowError::NotMapped));
    assert_eq!(cow_share(&mut pt, BASE, BASE + 4096, rw()), Err(CowError::NotMapped));
    assert_eq!(break_cow(&mut pt, &mut frames, BASE, rw()), Err(CowError::NotMapped));
    assert_eq!(map_anon(&mut pt, &mut frames, BASE, 1, rw()), Ok(()));
    assert_eq!(mark_cow(&mut pt, BASE, rw()), Ok(()));
    assert_eq!(pt.pte_flags(BASE), Some(rw().to_cow()));
    // Sharing a page with itself: the target is mapped already.
    assert_eq!(cow_share(&mut pt, BASE, BASE, rw()), Err(CowError::OutOfMemory));
    // No frame left for the private copy.
    assert_eq!(break_cow(&mut pt, &mut frames, BASE, rw()), Err(CowError::OutOfMemory));
    assert!(is_cow(&pt, BASE));
}

#[test]
fn page_flags_bits_roundtrip() {
    let f = MappingFlags::user_read_write();
    assert_eq!(f.to_page_flags(), PTE_PRESENT | PTE_WRITABLE | PTE_USER | PTE_NO_EXECUTE);
    assert_eq!(MappingFlags::read_execute().to_page_flags(), PTE_PRESENT);
    assert_eq!(MappingFlags::from_page_flags(PTE_PRESENT | PTE_COW | PTE_NO_EXECUTE), MappingFlags::read_only().to_cow());
    for f in [MappingFlags::none(), MappingFlags::read_only(), rw(), MappingFlags::read_execute(), f.to_cow()] {
        assert_eq!(MappingFlags::from_page_flags(f.to_page_flags()), f);
    }
    assert_eq!(phys_to_direct(0x1000, 0xFFFF_8000_0000_0000), 0xFFFF_8000_0000_1000);
}

#[test]
fn mapping_errors_convert() {
    assert_eq!(MappingError::from(PageTableError::AlreadyMapped), MappingError::AlreadyMapped);
    assert_eq!(MappingError::from(PageTableError::OutOfMemory), MappingError::OutOfMemory);
    assert_eq!(MappingError::from(PageTableError::NotMapped), MappingError::NotMapped);
    assert_eq!(MmapError::from(MappingError::OutOfMemory), MmapError::OutOfMemory);
    assert_eq!(MmapError::from(MappingError::AlreadyMapped), MmapError::Overlap);
    assert_eq!(MmapError::from(MappingError::NotMapped), MmapError::Invalid);
    assert_eq!(MmapError::from(MappingError::Invalid), MmapError::Invalid);
}

#[test]
fn eager_map_protect_unmap() {
    let mut store_pages = FakeProvider::new(4);
    let store = MemorySwapStore::new(4, &mut store_pages);
    let mut vm = VmmState::new(SoftPageTable::new(), store);
    let mut frames = FakeProvider::new(8);
    let rw_perm = VmaPerm::read_write();
    assert_eq!(mmap_anon_eager(&mut vm, &mut frames, BASE + 1, 4096, rw_perm, VmaFlags::empty()), Err(MmapError::Invalid));
    assert_eq!(mmap_anon_eager(&mut vm, &mut frames, BASE, 0x3000, rw_perm, VmaFlags::empty()), Ok(()));
    assert_eq!(vm.mapper.mapped_count(), 3);
    assert_eq!(find_vma(&vm.vmas, BASE + 0x2000).unwrap().end, BASE + 0x3000);
    assert_eq!(mmap_anon_eager(&mut vm, &mut frames, BASE + 0x1000, 0x1000, rw_perm, VmaFlags::empty()), Err(MmapError::Overlap));
    assert_eq!(mprotect(&mut vm, BASE, 0x3000, VmaPerm::read()), Ok(()));
    assert_eq!(vm.mapper.pte_flags(BASE + 0x1000).map(|f| f.writable), Some(false));
    assert!(!find_vma(&vm.vmas, BASE).unwrap().perms.write);
    assert_eq!(mprotect(&mut vm, BASE, 0x1000, VmaPerm::read_write()), Err(MmapError::Invalid));
    assert_eq!(vm.mapper.pte_flags(BASE).map(|f| f.writable), Some(false));
    assert_eq!(munmap(&mut vm, &mut frames, BASE, 0x3000), Ok(()));
    assert_eq!(vm.mapper.mapped_count(), 0);
    assert!(find_vma(&vm.vmas, BASE).is_none());
    assert_eq!(frames.free_count(), 8);
}

#[test]
fn faults_demand_map_and_cow() {
    let mut store_pages = FakeProvider::new(4);
    let store = MemorySwapStore::new(4, &mut store_pages);
    let mut vm = VmmState::new(SoftPageTable::new(), store);
    let mut frames = FakeProvider::new(8);
    let ro = VmaPerm::read();
    // No area: unresolved.
    assert_eq!(handle_page_fault(&mut vm, &mut frames, BASE as u64, 0), PageFaultResult::Unresolved);
    let anon = VmaFlags { anonymous: true, ..VmaFlags::empty() };
    vm.vmas.insert(axis_core::mm::vmm::vma::Vma { start: BASE, end: BASE + 0x2000, perms: ro, flags: anon }).unwrap();
    // A read of a missing page inside the area is mapped on demand.
    assert_eq!(handle_page_fault(&mut vm, &mut frames, BASE as u64 + 0x123, 0), PageFaultResult::Resolved);
    assert!(is_mapped(&vm.mapper, BASE));
    // A write to a read-only area is refused.
    assert_eq!(handle_page_fault(&mut vm, &mut frames, BASE as u64 + 0x1000, 2), PageFaultResult::Unresolved);
    // A write to a present copy-on-write page gets a private copy.
    assert_eq!(mark_cow(&mut vm.mapper, BASE, rw()), Ok(()));
    let before = vm.mapper.translate(BASE).unwrap();
    assert_eq!(handle_page_fault(&mut vm, &mut frames, BASE as u64, 3), PageFaultResult::Resolved);
    assert_ne!(vm.mapper.translate(BASE).unwrap(), before);
    assert!(!is_cow(&vm.mapper, BASE));
    let s = vm.stats;
    assert_eq!((s.page_faults, s.resolved, s.unresolved, s.demand_pages, s.cow_breaks), (4, 2, 2, 1, 1));
}

#[test]
fn swap_out_then_fault_back_in() {
    let mut store_pages = FakeProvider::new(4);
    let store = MemorySwapStore::new(4, &mut store_pages);
    let mut vm = VmmState::new(SoftPageTable::new(), store);
    let mut frames = FakeProvider::new(8);
    assert_eq!(mmap_anon_eager(&mut vm, &mut frames, BASE, 0x1000, VmaPerm::read_write(), VmaFlags::empty()), Ok(()));
    let frame = vm.mapper.translate(BASE).unwrap();
    let mut page = vec![7u8; 4096];
    page[100] = 1;
    vm.mapper.write_frame(frame, &page);
    assert!(swap_out_page(&mut vm, &mut frames, BASE));
    assert!(!is_mapped(&vm.mapper, BASE));
    assert!(vm.swap.is_swapped(BASE));
    assert!(!swap_out_page(&mut vm, &mut frames, BASE));
    assert!(!swap_out_page(&mut vm, &mut frames, BASE + 0x5000));
    assert_eq!(handle_page_fault(&mut vm, &mut frames, BASE as u64 + 4, 0), PageFaultResult::Resolved);
    let back = vm.mapper.translate(BASE).unwrap();
    assert_eq!(vm.mapper.read_frame(back), page);
    assert!(!vm.swap.is_swapped(BASE));
    assert_eq!((vm.stats.swap_outs, vm.stats.swap_ins), (1, 1));
}
