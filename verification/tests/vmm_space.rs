use axis_core::mm::vmm::layout::{is_kernel_addr, is_user_addr, USER_BASE, USER_STACK_TOP};
use axis_core::mm::heap::provider::FakeProvider;
use axis_core::mm::vmm::page_table::{MappingFlags, SoftPageTable};
use axis_core::mm::vmm::swap::{MemorySwapStore, SwapManager};
use axis_core::mm::vmm::vma::{Vma, VmaFlags, VmaManager, VmaPerm};
use axis_core::mm::vmm::{
    account_fault, decide_fault, find_vma, find_vma_range, mmap_anon, mprotect, munmap, page_count, stats,
    vma_snapshot, FaultAction, MmapError, PageFaultResult, VmmState, VmmStats,
};

const KBASE: usize = 0xFFFF_8000_0000_0000;
const KHEAP: usize = 0xFFFF_8800_0000_0000;

#[test]
fn mmap_first_fit_and_errors() {
    let mut m = VmaManager::new();
    let rw = VmaPerm::read_write();
    let a = mmap_anon(&mut m, None, 0x2000, rw, VmaFlags::empty(), KBASE, KHEAP).unwrap();
    assert_eq!(a, USER_BASE as usize);
    let b = mmap_anon(&mut m, None, 0x1000, rw, VmaFlags::empty(), KBASE, KHEAP).unwrap();
    assert_eq!(b, USER_BASE as usize + 0x2000);
    assert_eq!(mmap_anon(&mut m, None, 0x1001, rw, VmaFlags::empty(), KBASE, KHEAP), Err(MmapError::Invalid));
    assert_eq!(mmap_anon(&mut m, None, 0, rw, VmaFlags::empty(), KBASE, KHEAP), Err(MmapError::Invalid));
    let k = mmap_anon(&mut m, Some(KBASE), 0x1000, rw, VmaFlags::empty(), KBASE, KHEAP).unwrap();
    assert_eq!(k, KBASE);
    assert_eq!(m.count(), 3);
    assert_eq!(find_vma(&m, b + 0x10).unwrap().start, b);
    assert!(find_vma_range(&m, a + 0x1000, 0x3000).is_some());
}

#[test]
fn munmap_and_mprotect() {
    let mut store_pages = FakeProvider::new(1);
    let mut vm = VmmState::new(SoftPageTable::new(), MemorySwapStore::new(1, &mut store_pages));
    let mut frames = FakeProvider::new(1);
    let rw = VmaPerm::read_write();
    let a = mmap_anon(&mut vm.vmas, None, 0x4000, rw, VmaFlags::empty(), KBASE, KHEAP).unwrap();
    assert_eq!(mprotect(&mut vm, a, 0x4000, VmaPerm::read()), Ok(()));
    assert!(!find_vma(&vm.vmas, a).unwrap().perms.write);
    assert_eq!(mprotect(&mut vm, a, 0x1000, VmaPerm::read()), Err(MmapError::Invalid));
    assert_eq!(munmap(&mut vm, &mut frames, a + 1, 0x1000), Err(MmapError::Invalid));
    assert_eq!(munmap(&mut vm, &mut frames, a + 0x1000, 0x1000), Ok(()));
    let m = &vm.vmas;
    assert_eq!(m.count(), 2);
    assert!(find_vma(m, a + 0x1800).is_none());
    assert_eq!(page_count(1), 1);
    assert_eq!(page_count(4096), 1);
    assert_eq!(page_count(4097), 2);
    let snap = vma_snapshot(m);
    assert_eq!(snap, vec![(a, a + 0x1000, "other"), (a + 0x2000, a + 0x4000, "other")]);
}

#[test]
fn fault_decisions() {
    let anon = VmaFlags { anonymous: true, ..VmaFlags::empty() };
    let v = Vma { start: 0x1000, end: 0x2000, perms: VmaPerm::read(), flags: anon };
    let file = Vma { flags: VmaFlags::empty(), ..v };
    assert_eq!(decide_fault(0, false, false, Some(file)), FaultAction::Unresolved);
    let ro = MappingFlags { present: true, writable: false, executable: false, user: false, cow: false, global: false };
    assert_eq!(decide_fault(0, true, false, Some(v)), FaultAction::SwapIn(ro));
    assert_eq!(decide_fault(0, true, false, None), FaultAction::SwapIn(MappingFlags::none()));
    assert_eq!(decide_fault(3, false, true, Some(v)), FaultAction::BreakCow(ro));
    assert_eq!(decide_fault(3, false, true, None), FaultAction::Unresolved);
    assert_eq!(decide_fault(0, false, false, Some(v)), FaultAction::DemandMap(ro));
    assert_eq!(decide_fault(2, false, false, Some(v)), FaultAction::Unresolved);
    assert_eq!(decide_fault(0, false, false, None), FaultAction::Unresolved);
    assert_eq!(decide_fault(1, false, false, Some(v)), FaultAction::Unresolved);
    let mut s = VmmStats::default();
    assert_eq!(account_fault(&mut s, FaultAction::DemandMap(ro), true), PageFaultResult::Resolved);
    assert_eq!(account_fault(&mut s, FaultAction::BreakCow(ro), false), PageFaultResult::Unresolved);
    assert_eq!(account_fault(&mut s, FaultAction::Unresolved, true), PageFaultResult::Unresolved);
    assert_eq!((s.page_faults, s.resolved, s.unresolved, s.demand_pages, s.cow_breaks), (3, 1, 2, 1, 0));
    assert_eq!(stats(&s, &SwapManager::new()).swapped_pages, 0);
}

#[test]
fn address_halves() {
    assert!(is_user_addr(USER_STACK_TOP));
    assert!(!is_kernel_addr(USER_STACK_TOP));
    assert!(is_kernel_addr(USER_STACK_TOP + 1));
    assert!(!is_user_addr(0xFFFF_8000_0000_0000));
    assert_eq!(MappingFlags::user_read_write().to_cow(), MappingFlags { present: true, writable: false, executable: false, user: true, cow: true, global: false });
}
