use axis_core::mm::heap::kmalloc::{ilog2_ceil, ilog2_floor, Kmalloc, KERNEL_PAGE_SIZE};
use axis_core::mm::heap::provider::FakeProvider;
use axis_core::mm::heap::slab_cache::{CacheSet, USER_CACHE_START};
use axis_core::mm::heap::slub::{align_up, SlabCache, FREE_END, POISON_BYTE};
use axis_core::mm::heap::stats;
use std::collections::VecDeque;

fn page_size() -> usize {
    4096
}

#[test]
fn test_basic_alloc_free() {
    let mut provider = FakeProvider::new(8);
    let mut cache = SlabCache::uninit();
    cache.init(0, "test-64", 64, 8, page_size());

    let a = cache.allocate(&mut provider);
    assert!(a != 0);
    let b = cache.allocate(&mut provider);
    assert!(b != 0);
    assert_ne!(a, b);
    assert_eq!(cache.objs_allocated(), 2);

    assert!(cache.free(&mut provider, a));
    assert!(cache.free(&mut provider, b));
    assert_eq!(cache.objs_allocated(), 0);
    assert_eq!(cache.slab_pages(), 0);
    assert_eq!(provider.free_count(), 8);
}

#[test]
fn test_object_alignment() {
    let mut provider = FakeProvider::new(4);
    let mut cache = SlabCache::uninit();
    cache.init(1, "align-16", 12, 16, page_size());
    assert_eq!(cache.stride(), 16);

    let ptrs: Vec<usize> = (0..20).map(|_| cache.allocate(&mut provider)).collect();
    for p in ptrs {
        assert_eq!(p % 16, 0, "objects must be 16-byte aligned");
    }
}

#[test]
fn test_poison_detects_use_after_free() {
    let mut provider = FakeProvider::new(4);
    let mut cache = SlabCache::uninit();
    cache.init(2, "poison", 32, 8, page_size());
    let a = cache.allocate(&mut provider);
    let keep = cache.allocate(&mut provider);
    assert!(cache.free(&mut provider, a));
    let bytes = cache.object_bytes(a).expect("a is a free object");
    assert_eq!(bytes.len(), 32);
    assert!(bytes[4..].iter().all(|&b| b == POISON_BYTE), "a freed object must carry poison");
    assert!(cache.free(&mut provider, keep));
}

#[test]
fn test_exhaust_provider() {
    let mut provider = FakeProvider::new(1);
    let mut cache = SlabCache::uninit();
    cache.init(3, "small", 8, 8, page_size());
    let mut got = 0;
    while cache.allocate(&mut provider) != 0 {
        got += 1;
    }
    assert!(got >= 500, "one page holds at least 500 objects of 8 bytes, got {got}");
    assert_eq!(cache.slab_pages(), 1);
    assert_eq!(cache.allocate(&mut provider), 0);
}

#[test]
fn test_free_wrong_ptr_rejected() {
    let mut provider = FakeProvider::new(4);
    let mut cache = SlabCache::uninit();
    cache.init(4, "reject", 16, 8, page_size());
    let a = cache.allocate(&mut provider);
    assert!(!cache.free(&mut provider, a + 1));
    assert!(cache.free(&mut provider, a));
    assert!(!cache.free(&mut provider, a), "a double free is refused");
}

#[test]
fn test_roundtrip_stress() {
    let mut provider = FakeProvider::new(16);
    let mut cache = SlabCache::uninit();
    cache.init(5, "stress", 32, 8, page_size());

    let mut live: Vec<usize> = vec![];
    let mut rng = 0xABCD_EF01u64;
    let mut rand = move || {
        rng ^= rng << 13;
        rng ^= rng >> 7;
        rng ^= rng << 17;
        rng
    };

    for _ in 0..10_000 {
        if (rand() & 1) == 0 || live.is_empty() {
            let p = cache.allocate(&mut provider);
            if p != 0 {
                live.push(p);
            }
        } else {
            let i = (rand() as usize) % live.len();
            let p = live.swap_remove(i);
            assert!(cache.free(&mut provider, p));
        }
    }
    for p in live {
        assert!(cache.free(&mut provider, p));
    }
    assert_eq!(cache.objs_allocated(), 0);
    assert_eq!(cache.slab_pages(), 0, "no slab page may be left after the stress run");
}

#[test]
fn test_create_destroy() {
    let mut set = CacheSet::uninit();
    assert!(!set.cache_exists(2));
    assert!(set.create_at(2, "tmp", 12, 8, 4096));
    assert!(set.cache_exists(2));
    assert_eq!(set.name(2), "tmp");
    assert!(!set.create_at(2, "dup", 12, 8, 4096));
    let id = set.create("user-cache", 48, 8, 4096).expect("auto slot");
    assert!(id >= USER_CACHE_START);
    let mut provider = FakeProvider::new(2);
    let p = set.alloc_object(id, &mut provider);
    assert!(p != 0);
    assert!(!set.destroy(id), "a cache with live objects cannot be destroyed");
    assert!(set.free_object(id, &mut provider, p));
    assert!(set.destroy(id));
    assert!(!set.cache_exists(id));
}

#[test]
fn test_alloc_roundtrip_across_caches() {
    let mut set = CacheSet::uninit();
    set.create_at(0, "a", 16, 8, 4096);
    set.create_at(1, "b", 64, 8, 4096);
    let mut provider = FakeProvider::new(4);
    let pa = set.alloc_object(0, &mut provider);
    let pb = set.alloc_object(1, &mut provider);
    assert!(pa != 0 && pb != 0);
    assert!(set.free_object(1, &mut provider, pb));
    assert!(set.free_object(0, &mut provider, pa));
    assert_eq!(set.alloc_object(99, &mut provider), 0);
    assert!(!set.free_object(99, &mut provider, pa));
}

#[test]
fn test_bucket_select() {
    assert_eq!(Kmalloc::bucket_for(0), Some(0));
    assert_eq!(Kmalloc::bucket_for(7), Some(0));
    assert_eq!(Kmalloc::bucket_for(9), Some(1));
    assert_eq!(Kmalloc::bucket_for(2048), Some(8));
    assert_eq!(Kmalloc::bucket_for(2049), None);
    assert_eq!(Kmalloc::bucket_for(8192), None);
}

#[test]
fn test_basic_kmalloc_kfree() {
    let mut provider = FakeProvider::new(8);
    let mut k = Kmalloc::uninit();
    k.ensure_buckets();
    let a = k.kmalloc(32, &mut provider);
    let b = k.kmalloc(100, &mut provider);
    assert!(a != 0);
    assert!(b != 0);
    assert_eq!(k.direct_used(), 0);
    assert!(k.kfree(a, &mut provider));
    assert!(k.kfree(b, &mut provider));
    assert_eq!(k.total_objects(), 0);
}

#[test]
fn test_alignment_buckets() {
    let mut provider = FakeProvider::new(8);
    let mut k = Kmalloc::uninit();
    k.ensure_buckets();
    for &size in &[8usize, 16, 24, 64, 128, 1024] {
        let p = k.kmalloc(size, &mut provider);
        assert!(p != 0, "size {size} failed");
        assert_eq!(p % 8, 0, "size {size} must be at least 8-byte aligned");
        assert!(k.kfree(p, &mut provider));
    }
}

#[test]
fn test_direct_large_and_overalign() {
    let mut provider = FakeProvider::new(64);
    let mut k = Kmalloc::uninit();
    k.ensure_buckets();

    let big = k.kmalloc(5000, &mut provider);
    assert!(big != 0);
    assert!(big % KERNEL_PAGE_SIZE == 0, "a page block starts on a page");
    assert!(k.kfree(big, &mut provider));

    let al = k.kmalloc_aligned(24, 16, &mut provider);
    assert!(al != 0);
    assert_eq!(al % 16, 0);
    assert!(k.kfree(al, &mut provider));

    let huge_align = k.kmalloc_aligned(100, 4096, &mut provider);
    assert!(huge_align != 0);
    assert_eq!(huge_align % 4096, 0);
    assert!(k.kfree(huge_align, &mut provider));
    assert_eq!(k.direct_used(), 0);
}

#[test]
fn test_interleave_2048_rounds() {
    let mut provider = FakeProvider::new(16);
    let mut k = Kmalloc::uninit();
    k.ensure_buckets();
    for _ in 0..300 {
        let a = k.kmalloc(2048, &mut provider);
        let b = k.kmalloc(2048, &mut provider);
        assert!(a != 0 && b != 0);
        assert!(k.kfree(a, &mut provider));
        assert!(k.kfree(b, &mut provider));
    }
    assert_eq!(k.total_objects(), 0);
    assert_eq!(provider.free_count(), provider.capacity());
}

#[test]
fn test_interleave_mixed_sizes() {
    let mut provider = FakeProvider::new(8);
    let mut k = Kmalloc::uninit();
    k.ensure_buckets();
    for i in 0..2000u32 {
        let p = k.kmalloc((2000 + (i % 200)) as usize % 3000 + 100, &mut provider);
        assert!(p != 0);
        assert!(k.kfree(p, &mut provider));
    }
    assert_eq!(k.total_objects(), 0);
    assert_eq!(provider.free_count(), provider.capacity());
}

#[test]
fn test_interleave_with_direct() {
    let mut provider = FakeProvider::new(16);
    let mut k = Kmalloc::uninit();
    k.ensure_buckets();
    let mut live: Vec<usize> = Vec::new();
    for i in 0..50_000u32 {
        let size = match i % 5 {
            0 => 2048,
            1 => 3000,
            2 => 100,
            3 => 8192,
            _ => 24,
        };
        let align = if i % 3 == 0 { 16 } else { 8 };
        if i % 4 == 0 && !live.is_empty() {
            let p = live.pop().unwrap();
            assert!(k.kfree(p, &mut provider), "free({}) failed", i);
        } else {
            let p = k.kmalloc_aligned(size, align, &mut provider);
            if p != 0 {
                live.push(p);
            }
        }
    }
    for p in live {
        assert!(k.kfree(p, &mut provider));
    }
    assert_eq!(k.total_objects(), 0);
    assert_eq!(provider.free_count(), provider.capacity());
}

#[test]
fn test_kfree_bad_ptr() {
    let mut provider = FakeProvider::new(8);
    let mut k = Kmalloc::uninit();
    k.ensure_buckets();
    assert!(!k.kfree(0, &mut provider));
}

#[test]
fn test_random_stress_no_leak() {
    let mut provider = FakeProvider::new(64);
    let mut k = Kmalloc::uninit();
    k.ensure_buckets();

    let mut live: VecDeque<usize> = VecDeque::new();
    let mut rng = 0x1234_5678_9ABC_DEF0u64;
    let mut rand = move || {
        rng ^= rng << 13;
        rng ^= rng >> 7;
        rng ^= rng << 17;
        rng
    };

    for _ in 0..50_000 {
        if (rand() & 1) == 0 || live.is_empty() {
            let size = (rand() as usize) % 9000 + 1;
            let p = if (rand() & 1) == 0 {
                k.kmalloc(size, &mut provider)
            } else {
                k.kmalloc_aligned(size, 1usize << ((rand() as usize) % 6), &mut provider)
            };
            if p != 0 {
                live.push_back(p);
            }
        } else {
            let idx = (rand() as usize) % live.len();
            let p = live.remove(idx).unwrap();
            assert!(k.kfree(p, &mut provider), "free failed");
        }
    }
    for p in live {
        assert!(k.kfree(p, &mut provider));
    }
    assert_eq!(k.total_objects(), 0, "no object may be left after the stress run");
    assert_eq!(provider.free_count(), provider.capacity());
}

// ---- further cases ----

#[test]
fn test_align_up_values() {
    assert_eq!(align_up(0, 8), 0);
    assert_eq!(align_up(1, 8), 8);
    assert_eq!(align_up(48, 32), 64);
    assert_eq!(align_up(4096, 4096), 4096);
    assert_eq!(align_up(13, 5), 15);
}

#[test]
fn test_ilog2_values() {
    assert_eq!(ilog2_ceil(0), 0);
    assert_eq!(ilog2_ceil(1), 0);
    assert_eq!(ilog2_ceil(3), 2);
    assert_eq!(ilog2_ceil(4), 2);
    assert_eq!(ilog2_ceil(5), 3);
    assert_eq!(ilog2_floor(0), 0);
    assert_eq!(ilog2_floor(5), 2);
    assert_eq!(ilog2_floor(8), 3);
}

#[test]
fn test_cache_geometry() {
    let mut cache = SlabCache::uninit();
    cache.init(6, "geo", 8, 8, 4096);
    assert_eq!(cache.stride(), 8);
    assert!(cache.is_valid());
    assert_eq!(cache.name(), "geo");
    let mut provider = FakeProvider::new(2);
    let a = cache.allocate(&mut provider);
    // The first object sits right after the 48-byte header of the first page.
    assert_eq!(a, 0x10_0000 + 48);
    assert_eq!(cache.page_of(a), 0x10_0000);
    let b = cache.allocate(&mut provider);
    assert_eq!(b, a + 8);
}

#[test]
fn test_freed_object_links_next_free() {
    let mut provider = FakeProvider::new(2);
    let mut cache = SlabCache::uninit();
    cache.init(7, "link", 16, 8, 4096);
    let a = cache.allocate(&mut provider);
    let b = cache.allocate(&mut provider);
    let c = cache.allocate(&mut provider);
    assert!(cache.object_bytes(b).is_none(), "a live object has no freed contents");
    assert!(cache.free(&mut provider, b));
    // b now heads the free list; its link is the next untouched slot, 3.
    let bytes = cache.object_bytes(b).unwrap();
    assert_eq!(&bytes[0..4], &[3, 0, 0, 0]);
    assert!(cache.free(&mut provider, a));
    let bytes = cache.object_bytes(a).unwrap();
    assert_eq!(&bytes[0..4], &[1, 0, 0, 0]);
    assert!(cache.free(&mut provider, c));
    assert_eq!(cache.slab_pages(), 0);
    let _ = FREE_END;
}

#[test]
fn test_full_slab_moves_back_to_partial() {
    let mut provider = FakeProvider::new(4);
    let mut cache = SlabCache::uninit();
    cache.init(8, "big", 2048, 8, 4096);
    // One 2048-byte object per page: the header pushes the second one out.
    let a = cache.allocate(&mut provider);
    let b = cache.allocate(&mut provider);
    assert_eq!(cache.slab_pages(), 2);
    assert_eq!(provider.free_count(), 2);
    assert!(cache.free(&mut provider, a));
    assert_eq!(cache.slab_pages(), 1);
    assert_eq!(provider.free_count(), 3);
    assert!(cache.free(&mut provider, b));
    assert_eq!(provider.free_count(), 4);
}

#[test]
fn test_kmalloc_size_zero_and_direct_table_full() {
    let mut provider = FakeProvider::new(128);
    let mut k = Kmalloc::uninit();
    k.ensure_buckets();
    assert_eq!(k.kmalloc(0, &mut provider), 0);
    let mut blocks = Vec::new();
    for _ in 0..32 {
        let p = k.kmalloc(3000, &mut provider);
        assert!(p != 0);
        blocks.push(p);
    }
    assert_eq!(k.direct_used(), 32);
    // The table is full: the block is handed back and nothing is recorded.
    let before = provider.free_count();
    assert_eq!(k.kmalloc(3000, &mut provider), 0);
    assert_eq!(provider.free_count(), before);
    for p in blocks {
        assert!(k.kfree(p, &mut provider));
    }
    assert_eq!(provider.free_count(), provider.capacity());
}

#[test]
fn test_kfree_unknown_and_before_buckets() {
    let mut provider = FakeProvider::new(8);
    let mut k = Kmalloc::uninit();
    assert!(!k.is_ready());
    // Before the buckets exist small requests get nothing.
    assert_eq!(k.kmalloc(32, &mut provider), 0);
    k.ensure_buckets();
    assert!(k.is_ready());
    assert!(!k.kfree(0x7777_0000, &mut provider));
    let p = k.kmalloc(64, &mut provider);
    assert!(k.kfree(p, &mut provider));
    assert!(!k.kfree(p, &mut provider), "a double kfree is refused");
}

#[test]
fn test_heap_stats_counts() {
    let mut provider = FakeProvider::new(16);
    let mut k = Kmalloc::uninit();
    let s0 = stats(&k);
    assert_eq!(s0.objects, 0);
    assert_eq!(s0.bucket_objects, vec![0; 9]);
    k.ensure_buckets();
    let a = k.kmalloc(8, &mut provider);
    let b = k.kmalloc(100, &mut provider);
    let c = k.kmalloc(5000, &mut provider);
    let s = stats(&k);
    assert_eq!(s.objects, 3);
    assert_eq!(s.direct_objects, 1);
    assert_eq!(s.slab_pages, 2);
    assert_eq!(s.bucket_objects[0], 1);
    assert_eq!(s.bucket_objects[4], 1);
    assert_eq!(s.bytes_in_use, 8 + 128);
    assert!(k.kfree(a, &mut provider));
    assert!(k.kfree(b, &mut provider));
    assert!(k.kfree(c, &mut provider));
    assert_eq!(stats(&k).objects, 0);
}

#[test]
fn stride_is_a_power_of_two() {
    let mut c = SlabCache::uninit();
    c.init(2, "odd-24", 24, 8, page_size());
    assert_eq!(c.stride(), 32);
    let mut d = SlabCache::uninit();
    d.init(3, "tiny", 1, 1, page_size());
    assert_eq!(d.stride(), 8);
    let mut e = SlabCache::uninit();
    e.init(4, "wide-align", 40, 64, page_size());
    assert_eq!(e.stride(), 64);
}

#[test]
fn slab_page_returns_after_round_trip() {
    let mut provider = FakeProvider::new(4);
    let mut cache = SlabCache::uninit();
    cache.init(5, "trip", 128, 8, page_size());
    let a = cache.allocate(&mut provider);
    assert!(a != 0);
    assert_eq!(provider.free_count(), 3);
    assert!(cache.free(&mut provider, a));
    assert_eq!(provider.free_count(), 4);
}

#[test]
fn kmalloc_block_returns_after_round_trip() {
    let mut provider = FakeProvider::new(16);
    let mut k = Kmalloc::uninit();
    k.ensure_buckets();
    let p = k.kmalloc_aligned(8192, 4096, &mut provider);
    assert!(p != 0);
    // 8192 bytes plus a guard page round up to a block of four pages.
    assert_eq!(provider.free_count(), 12);
    assert!(k.kfree(p, &mut provider));
    assert_eq!(provider.free_count(), 16);
}

#[test]
fn heap_pages_all_return_after_mixed_use() {
    let mut provider = FakeProvider::new(64);
    let mut k = Kmalloc::uninit();
    k.ensure_buckets();
    let sizes = [8usize, 100, 2048, 3000, 64, 9000, 512, 8];
    let ptrs: Vec<usize> = sizes.iter().map(|&s| k.kmalloc(s, &mut provider)).collect();
    assert!(ptrs.iter().all(|&p| p != 0));
    assert!(provider.free_count() < 64);
    for &p in ptrs.iter().rev() {
        assert!(k.kfree(p, &mut provider));
    }
    assert_eq!(k.total_objects(), 0);
    assert_eq!(provider.free_count(), 64);
}

#[test]
fn heap_room_is_reported() {
    let mut k = Kmalloc::uninit();
    k.ensure_buckets();
    assert!(k.has_room());
    let mut cache = SlabCache::uninit();
    cache.init(6, "room", 32, 8, page_size());
    assert!(cache.has_room());
}
