use axis_core::mm::pmm::buddy::BuddyAllocator;
use axis_core::mm::pmm::buddy_math::next_pow2;

fn build(real: usize, reserve: &[usize], finalize: bool) -> BuddyAllocator {
    let mut b = BuddyAllocator::new(real);
    for &leaf in reserve {
        b.mark_reserved(0, leaf);
    }
    if finalize {
        b.finalize();
    }
    b
}

fn make_buddy(real: usize) -> BuddyAllocator {
    build(real, &[], true)
}

#[test]
fn test_needed_bytes_sane() {
    assert_eq!(BuddyAllocator::needed_bytes(0), BuddyAllocator::needed_bytes(1));
    assert!(BuddyAllocator::needed_bytes(1000) >= BuddyAllocator::needed_bytes(512));
    assert!(BuddyAllocator::needed_bytes(65536) > BuddyAllocator::needed_bytes(5));
}

#[test]
fn test_next_pow2() {
    assert_eq!(next_pow2(0), 1);
    assert_eq!(next_pow2(1), 1);
    assert_eq!(next_pow2(2), 2);
    assert_eq!(next_pow2(3), 4);
    assert_eq!(next_pow2(5), 8);
    assert_eq!(next_pow2(4096), 4096);
}

#[test]
fn test_alloc_free_basic() {
    let mut b = make_buddy(64);
    assert_eq!(b.free_pages(), 64);
    assert_eq!(b.used_pages(), 0);
    let l0 = b.alloc_block(0).expect("alloc0");
    let l1 = b.alloc_block(0).expect("alloc1");
    assert_ne!(l0, l1);
    assert_eq!(b.free_pages(), 62);
    b.free(0, l0);
    b.free(0, l1);
    assert_eq!(b.free_pages(), 64, "释放后应完全恢复");
    assert_eq!(b.used_pages(), 0);
}

#[test]
fn test_alloc_order_and_split() {
    let mut b = make_buddy(256);
    let l = b.alloc_block(1).expect("order1");
    assert_eq!(l % 2, 0, "order-1 块必须 2 页对齐");
    assert_eq!(b.free_pages(), 254);
    let l2 = b.alloc_block(2).expect("order2");
    assert_eq!(l2 % 4, 0);
    let occ = b.occupancy();
    for i in l..l + 2 {
        assert!(occ[i]);
    }
    for i in l2..l2 + 4 {
        assert!(occ[i]);
    }
    b.free(2, l2);
    assert_eq!(b.free_pages(), 254);
    assert!(!b.occupancy()[l2..l2 + 4].iter().any(|&x| x));
}

#[test]
fn test_merge_across_levels() {
    let mut b = make_buddy(64);
    let l = b.alloc_block(4).expect("order4");
    assert_eq!(b.free_pages(), 48);
    b.free(4, l);
    assert_eq!(b.free_pages(), 64, "整块归还后应可恢复原状");
    let mut pages = vec![];
    for _ in 0..16 {
        pages.push(b.alloc_block(0).unwrap());
    }
    for p in pages.iter() {
        b.free(0, *p);
    }
    assert_eq!(b.free_pages(), 64);
    assert_eq!(b.used_pages(), 0);
}

#[test]
fn test_reserved_never_allocated() {
    let mut b = build(128, &(32..48).collect::<Vec<_>>(), true);
    assert_eq!(b.reserved_pages(), 16);
    assert_eq!(b.free_pages(), 112);
    let mut got = vec![];
    while let Some(l) = b.alloc_block(0) {
        got.push(l);
    }
    assert_eq!(got.len(), 112);
    for &l in &got {
        assert!(!(32..48).contains(&l), "分配到预留区");
    }
    assert!(b.occupancy()[32..48].iter().all(|&x| x));
}

#[test]
fn test_holes_never_returned() {
    let mut b = make_buddy(5);
    let mut got = vec![];
    while let Some(l) = b.alloc_block(0) {
        got.push(l);
    }
    let mut sorted = got.clone();
    sorted.sort();
    assert_eq!(sorted, vec![0, 1, 2, 3, 4], "只能给出真实 5 页");
    assert_eq!(b.alloc_block(0), None);
    assert_eq!(b.alloc_block(1), None);
    for &l in &got {
        b.free(0, l);
    }
    assert_eq!(b.free_pages(), 5);
}

#[test]
fn test_oom_when_exhausted() {
    let mut b = make_buddy(4);
    let _a = b.alloc_block(0).unwrap();
    let _b = b.alloc_block(0).unwrap();
    let _c = b.alloc_block(0).unwrap();
    let d = b.alloc_block(0).unwrap();
    assert_eq!(b.alloc_block(0), None, "4 页全部分配后应 OOM");
    assert_eq!(b.alloc_block(2), None);
    b.free(0, d ^ 1);
    assert_eq!(b.alloc_block(1), None, "只释放一页无法凑出连续两页");
    b.free(0, d);
    let merged = b.alloc_block(1);
    assert!(merged.is_some(), "相邻两页释放后可合并为 order-1");
    b.free(1, merged.unwrap());
    assert_eq!(b.free_pages(), 2);
    b.free(0, 0);
    b.free(0, 1);
    assert_eq!(b.free_pages(), 4, "全部归还后完全恢复");
}

#[test]
fn test_big_alloc_split_reuse() {
    let mut b = make_buddy(8);
    let a = b.alloc_block(1).unwrap();
    assert_eq!(a, 0);
    let c = b.alloc_block(1).unwrap();
    assert_eq!(c, 2);
    let _d = b.alloc_block(1).unwrap();
    let _e = b.alloc_block(1).unwrap();
    assert_eq!(b.alloc_block(1), None, "4 块 order-1 全部分配后应 OOM");
    b.free(1, a);
    b.free(1, c);
    let merged = b.alloc_block(2).unwrap();
    assert_eq!(merged, 0, "合并得到的 4 页块应从 0 开始");
    b.free(2, merged);
    assert_eq!(b.free_pages(), 4, "剩两块 order-1（[4..8)）空闲");
}

#[test]
fn test_random_stress() {
    let real = 2048;
    let mut b = make_buddy(real);
    let mut ptrs: Vec<(usize, usize)> = vec![];
    let mut rng = 0x1234_5678u64;
    let mut rand = move || {
        rng ^= rng << 13;
        rng ^= rng >> 7;
        rng ^= rng << 17;
        rng
    };
    for _ in 0..20_000 {
        if (rand() & 1) == 0 || ptrs.is_empty() {
            let order = (rand() as usize) % 6;
            if let Some(l) = b.alloc_block(order) {
                ptrs.push((l, order));
            }
        } else {
            let i = (rand() as usize) % ptrs.len();
            let (l, o) = ptrs.swap_remove(i);
            b.free(o, l);
        }
    }
    for (l, o) in ptrs.drain(..) {
        b.free(o, l);
    }
    assert_eq!(b.free_pages(), real, "压力测试后必须完全恢复");
    assert_eq!(b.used_pages(), 0);
}

#[test]
fn test_occpancy_no_overlap_during_stress() {
    let real = 512;
    let mut b = make_buddy(real);
    let mut ptrs: Vec<(usize, usize)> = vec![];
    let mut rng = 0xDEAD_BEEFu64;
    let mut rand = move || {
        rng ^= rng << 13;
        rng ^= rng >> 7;
        rng ^= rng << 17;
        rng
    };
    for _ in 0..8000 {
        if (rand() & 1) == 0 || ptrs.is_empty() {
            let order = (rand() as usize) % 5;
            if let Some(l) = b.alloc_block(order) {
                ptrs.push((l, order));
            }
        } else {
            let i = (rand() as usize) % ptrs.len();
            let (l, o) = ptrs.swap_remove(i);
            b.free(o, l);
        }
    }
    let occ = b.occupancy();
    let mut running = 0usize;
    for &x in occ.iter() {
        running += x as usize;
    }
    assert_eq!(running, b.used_pages());
}

#[test]
fn buddy_alloc_then_free_restores_free_lists_shape() {
    let mut b = make_buddy(16);
    let before = b.occupancy();
    let l = b.alloc_block(2).unwrap();
    assert_eq!(l, 0);
    b.free(2, l);
    assert_eq!(b.occupancy(), before);
    assert_eq!(b.alloc_block(4), Some(0));
}

#[test]
fn buddy_alloc_beyond_max_order_fails() {
    let mut b = make_buddy(16);
    assert_eq!(b.max_order(), 4);
    assert_eq!(b.alloc_block(5), None);
    assert_eq!(b.free_pages(), 16);
}

#[test]
fn buddy_pages_add_up() {
    let mut b = build(100, &[3, 40], true);
    let sum = |b: &BuddyAllocator| b.free_pages() + b.used_pages() + b.reserved_pages();
    assert_eq!(sum(&b), 100);
    let x = b.alloc_block(2).unwrap();
    let y = b.alloc_block(0).unwrap();
    assert_eq!(sum(&b), 100);
    b.free(2, x);
    assert_eq!(sum(&b), 100);
    b.free(0, y);
    assert_eq!(sum(&b), 100);
    assert_eq!(b.used_pages(), 0);
    assert_eq!(b.reserved_pages(), 2);
}

#[test]
fn buddy_all_freed_is_whole_block() {
    let mut b = make_buddy(64);
    let x = b.alloc_block(0).unwrap();
    let y = b.alloc_block(3).unwrap();
    let z = b.alloc_block(1).unwrap();
    b.free(3, y);
    b.free(0, x);
    b.free(1, z);
    assert_eq!(b.free_pages(), 64);
    assert_eq!(b.alloc_block(6), Some(0));
}
