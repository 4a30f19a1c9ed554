pub mod provider;
pub mod slub;
pub mod slab_cache;
pub mod kmalloc;

use vstd::prelude::*;
use crate::mm::heap::slab_cache::{CacheSet, MAX_CACHES};
use crate::mm::heap::kmalloc::{Kmalloc, KMALLOC_BUCKET_COUNT};

verus! {

/// A snapshot of the heap's counters.
#[derive(Debug, Clone)]
pub struct HeapStats {
    /// Objects handed out: bucket and cache objects plus page blocks.
    pub objects: usize,
    /// Slab pages held by all caches.
    pub slab_pages: usize,
    /// Objects handed out by each size bucket.
    pub bucket_objects: Vec<usize>,
    /// Live page-block allocations.
    pub direct_objects: usize,
    /// Bytes taken by cache objects, counted by stride.
    pub bytes_in_use: usize,
}

/// Slab pages held by the caches in use among the first `i` slots.
pub open spec fn cache_pages(set: CacheSet, i: nat) -> nat
    decreases i,
{
    if i == 0 {
        0
    } else {
        cache_pages(set, (i - 1) as nat) + if set.spec_slots()[i - 1] { set.spec_caches()[i - 1].spec_slabs() } else { 0 }
    }
}

/// Bytes taken by the objects of the caches in use among the first `i`
/// slots, each object counted by its stride.
pub open spec fn cache_bytes(set: CacheSet, i: nat) -> nat
    decreases i,
{
    if i == 0 {
        0
    } else {
        cache_bytes(set, (i - 1) as nat) + if set.spec_slots()[i - 1] {
            set.spec_caches()[i - 1].spec_allocated() * set.spec_caches()[i - 1].spec_stride()
        } else {
            0
        }
    }
}

/// Whether the heap's counters all fit in a machine word.
pub open spec fn stats_fit(k: Kmalloc) -> bool {
    &&& k.spec_total() <= usize::MAX
    &&& cache_pages(k.spec_set(), MAX_CACHES as nat) <= usize::MAX
    &&& cache_bytes(k.spec_set(), MAX_CACHES as nat) <= usize::MAX
}

proof fn lemma_cache_sums_mono(set: CacheSet, i: nat, j: nat)
    requires
        i <= j,
    ensures
        cache_pages(set, i) <= cache_pages(set, j),
        cache_bytes(set, i) <= cache_bytes(set, j),
    decreases j,
{
    if i < j {
        lemma_cache_sums_mono(set, i, (j - 1) as nat);
        let c = set.spec_caches()[j - 1];
        assert(c.spec_allocated() * c.spec_stride() >= 0) by (nonlinear_arith);
    }
}

/// The heap's counters: all zero before the buckets are in place;
/// otherwise the object total, the page-block count, and per cache in use
/// its slab pages and bytes, and per size bucket its objects.
pub fn stats(k: &Kmalloc) -> (r: HeapStats)
    requires
        k.wf(),
        stats_fit(*k),
    ensures
        !k.spec_ready() ==> r.objects == 0 && r.slab_pages == 0 && r.direct_objects == 0 && r.bytes_in_use == 0
            && r.bucket_objects@ == Seq::new(KMALLOC_BUCKET_COUNT as nat, |i: int| 0usize),
        k.spec_ready() ==> {
            &&& r.objects == k.spec_total()
            &&& r.direct_objects == k.spec_direct_used()
            &&& r.slab_pages == cache_pages(k.spec_set(), MAX_CACHES as nat)
            &&& r.bytes_in_use == cache_bytes(k.spec_set(), MAX_CACHES as nat)
            &&& r.bucket_objects@.len() == KMALLOC_BUCKET_COUNT
            &&& forall|i: int| 0 <= i < KMALLOC_BUCKET_COUNT ==> #[trigger] r.bucket_objects@[i]
                == if k.spec_set().spec_slots()[i] { k.spec_set().spec_caches()[i].spec_allocated() } else { 0 }
        },
{
    let mut buckets: Vec<usize> = Vec::new();
    let mut b: usize = 0;
    while b < KMALLOC_BUCKET_COUNT
        invariant
            b <= KMALLOC_BUCKET_COUNT,
            buckets@ == Seq::new(b as nat, |i: int| 0usize),
        decreases KMALLOC_BUCKET_COUNT - b,
    {
        buckets.push(0);
        b = b + 1;
        assert(buckets@ =~= Seq::new(b as nat, |i: int| 0usize));
    }
    if !k.is_ready() {
        return HeapStats { objects: 0, slab_pages: 0, bucket_objects: buckets, direct_objects: 0, bytes_in_use: 0 };
    }
    let objects = k.total_objects();
    let direct_objects = k.direct_used();
    let set = k.cache_set();
    let mut pages: usize = 0;
    let mut bytes: usize = 0;
    let mut i: usize = 0;
    while i < MAX_CACHES
        invariant
            i <= MAX_CACHES,
            set.wf(),
            *set == k.spec_set(),
            stats_fit(*k),
            pages == cache_pages(*set, i as nat),
            bytes == cache_bytes(*set, i as nat),
            buckets@.len() == KMALLOC_BUCKET_COUNT,
            forall|j: int| 0 <= j < KMALLOC_BUCKET_COUNT ==> #[trigger] buckets@[j]
                == if j < i && set.spec_slots()[j] { set.spec_caches()[j].spec_allocated() } else { 0 },
        decreases MAX_CACHES - i,
    {
        proof {
            lemma_cache_sums_mono(*set, (i + 1) as nat, MAX_CACHES as nat);
        }
        if set.cache_exists(i) {
            let c = set.get(i);
            pages = pages + c.slab_pages();
            bytes = bytes + c.objs_allocated() * c.stride();
            if i < KMALLOC_BUCKET_COUNT {
                buckets.set(i, c.objs_allocated());
            }
        }
        i = i + 1;
    }
    HeapStats { objects, slab_pages: pages, bucket_objects: buckets, direct_objects, bytes_in_use: bytes }
}

} // verus!
