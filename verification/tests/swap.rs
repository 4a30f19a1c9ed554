use axis_core::mm::heap::provider::{FakeProvider, PageProvider};
use axis_core::mm::vmm::swap::{MemorySwapStore, SwapError, SwapManager, SwapStore};

fn buf() -> [u8; 4096] {
    [0u8; 4096]
}

#[test]
fn test_memory_store_roundtrip() {
    let mut provider = FakeProvider::new(8);
    let mut store = MemorySwapStore::new(4, &mut provider);
    assert_eq!(store.capacity(), 4);
    assert_eq!(store.used(), 0);
    let s0 = store.alloc_slot().expect("slot0");
    let s1 = store.alloc_slot().expect("slot1");
    assert_ne!(s0, s1);
    let mut data = buf();
    for (i, b) in data.iter_mut().enumerate() {
        *b = (i % 251) as u8;
    }
    store.write_page(s0, &data);
    assert_eq!(store.used(), 2);
    let mut out = buf();
    store.read_page(s0, &mut out);
    assert_eq!(data, out, "写入与读出必须一致");
    store.free_slot(s1);
    let s2 = store.alloc_slot().expect("reuse slot");
    assert_eq!(s2, s1);
    assert_eq!(store.used(), 2);
}

#[test]
fn test_manager_out_in() {
    let mut provider = FakeProvider::new(8);
    let mut store = MemorySwapStore::new(8, &mut provider);
    let mut mgr = SwapManager::new();
    let page = 0x1000_0000usize;
    let mut data = buf();
    for (i, b) in data.iter_mut().enumerate() {
        *b = (i & 0xFF) as u8;
    }
    mgr.swap_out(&mut store, page, &data).expect("out");
    assert!(mgr.is_swapped(page));
    assert_eq!(mgr.swapped_pages(), 1);
    assert_eq!(mgr.swap_out(&mut store, page, &data).unwrap_err(), SwapError::AlreadySwapped);
    let mut back = buf();
    mgr.swap_in(&mut store, page, &mut back).expect("in");
    assert_eq!(data, back);
    assert!(!mgr.is_swapped(page));
    assert_eq!(mgr.swapped_pages(), 0);
    assert_eq!(mgr.swap_in(&mut store, 0x2000, &mut back).unwrap_err(), SwapError::NotSwapped);
}

#[test]
fn test_store_exhaust() {
    let mut provider = FakeProvider::new(2);
    let mut store = MemorySwapStore::new(2, &mut provider);
    let mut mgr = SwapManager::new();
    let data = buf();
    assert!(mgr.swap_out(&mut store, 0x1000, &data).is_ok());
    assert!(mgr.swap_out(&mut store, 0x2000, &data).is_ok());
    assert_eq!(mgr.swap_out(&mut store, 0x3000, &data).unwrap_err(), SwapError::NoSlot);
    let mut back = buf();
    mgr.swap_in(&mut store, 0x1000, &mut back).unwrap();
    assert!(mgr.swap_out(&mut store, 0x3000, &data).is_ok());
}

#[test]
fn swap_store_limited_by_provider() {
    let mut provider = FakeProvider::new(1);
    let mut store = MemorySwapStore::new(4, &mut provider);
    assert!(store.alloc_slot().is_some());
    assert!(store.alloc_slot().is_none());
}

#[test]
fn fake_provider_blocks_are_aligned_and_reused() {
    let mut p = FakeProvider::new(8);
    let a = p.alloc_pages(0).unwrap();
    let b = p.alloc_pages(1).unwrap();
    assert_eq!((b - a) % 8192, 0);
    assert_eq!(p.free_count(), 5);
    p.free_pages(1, b);
    assert_eq!(p.free_count(), 7);
    assert_eq!(p.alloc_pages(1), Some(b));
    assert_eq!(p.alloc_pages(4), None);
    assert_eq!(p.capacity(), 8);
}

#[test]
fn record_slot_cases() {
    let mut provider = FakeProvider::new(4);
    let mut store = MemorySwapStore::new(4, &mut provider);
    let mut mgr = SwapManager::new();
    let mut data = buf();
    data[7] = 0x5A;
    assert_eq!(mgr.record_slot(&mut store, 0x1000, &data, None), Err(SwapError::NoSlot));
    assert_eq!(mgr.swapped_pages(), 0);
    let s = store.alloc_slot().unwrap();
    assert_eq!(mgr.record_slot(&mut store, 0x1000, &data, Some(s)), Ok(()));
    assert!(mgr.is_swapped(0x1000));
    let mut back = buf();
    mgr.swap_in(&mut store, 0x1000, &mut back).unwrap();
    assert_eq!(back[7], 0x5A);
}

#[test]
fn swap_out_without_provider_page_is_no_slot() {
    let mut provider = FakeProvider::new(0);
    let mut store = MemorySwapStore::new(4, &mut provider);
    let mut mgr = SwapManager::new();
    assert_eq!(store.alloc_slot(), None);
    assert_eq!(mgr.swap_out(&mut store, 0x1000, &buf()).unwrap_err(), SwapError::NoSlot);
    assert!(!mgr.is_swapped(0x1000));
}

#[test]
fn swap_round_trip_with_others_between() {
    let mut provider = FakeProvider::new(8);
    let mut store = MemorySwapStore::new(8, &mut provider);
    let mut mgr = SwapManager::new();
    let mut a = buf();
    a[0] = 1;
    a[4095] = 2;
    let mut b = buf();
    b[1] = 9;
    mgr.swap_out(&mut store, 0xA000, &a).unwrap();
    mgr.swap_out(&mut store, 0xB000, &b).unwrap();
    let mut back = buf();
    mgr.swap_in(&mut store, 0xB000, &mut back).unwrap();
    assert_eq!(back, b);
    mgr.swap_out(&mut store, 0xC000, &b).unwrap();
    mgr.swap_in(&mut store, 0xA000, &mut back).unwrap();
    assert_eq!(back, a);
}
