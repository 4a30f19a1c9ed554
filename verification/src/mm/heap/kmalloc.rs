use vstd::prelude::*;
use vstd::arithmetic::power2::{pow2, lemma2_to64};
use vstd::arithmetic::div_mod::{lemma_fundamental_div_mod, lemma_mod_multiples_basic};
use crate::mm::pmm::buddy_math::{ceil_log2, floor_log2, lemma_floor_log2_pow2, lemma_ceil_log2, log2_floor, order_pages, count_true,
    lemma_count_update, lemma_count_le_len, lemma_pow2_fits};
use crate::mm::pmm::buddy_spec::psz;
use crate::mm::heap::provider::{PageProvider, page_block_ok, block_pages};
use crate::mm::heap::slub::{alloc_room, round_up, init_ok, stride_for, page_mask, align_up};
use crate::mm::heap::slab_cache::{CacheSet, MAX_CACHES, page_owner, set_alloc_outcome, set_free_outcome, only_cache_changed};
use crate::mm::heap::slub::{alloc_ledger, free_ledger, slab_pages, freed_page, free_returns_page, lemma_allocate_pages,
    lemma_free_pages, all_slabs, pages_distinct, holds_page, lemma_holds_page_witness, lemma_allocate_holds_page, lemma_allocate_free_roundtrip};

verus! {

/// Page size of the kernel heap.
pub const KERNEL_PAGE_SIZE: usize = 4096;

/// Number of kmalloc size buckets.
pub const KMALLOC_BUCKET_COUNT: usize = 9;

/// Largest size served from a bucket; larger requests get whole pages.
pub const DIRECT_LIMIT: usize = 2048;

/// Alignment every bucket guarantees; stricter requests get whole pages.
pub const BUCKET_ALIGN: usize = 8;

/// Number of page-block allocations that can be live at once.
pub const DIRECT_MAX: usize = 32;

/// Object size of bucket `i`: 8 bytes doubled `i` times, up to 2048.
pub open spec fn bucket_size(i: nat) -> nat {
    if i == 0 {
        8
    } else if i == 1 {
        16
    } else if i == 2 {
        32
    } else if i == 3 {
        64
    } else if i == 4 {
        128
    } else if i == 5 {
        256
    } else if i == 6 {
        512
    } else if i == 7 {
        1024
    } else {
        2048
    }
}

/// The smallest bucket that holds `size` bytes, if any does.
pub open spec fn bucket_index(size: nat) -> Option<nat> {
    if size > DIRECT_LIMIT {
        None
    } else if size <= 8 {
        Some(0)
    } else if size <= 16 {
        Some(1)
    } else if size <= 32 {
        Some(2)
    } else if size <= 64 {
        Some(3)
    } else if size <= 128 {
        Some(4)
    } else if size <= 256 {
        Some(5)
    } else if size <= 512 {
        Some(6)
    } else if size <= 1024 {
        Some(7)
    } else {
        Some(8)
    }
}

/// The buckets double from 8 bytes: bucket `i` holds objects of `2^(i+3)`
/// bytes, the last one 2048.
pub proof fn lemma_bucket_sizes(i: nat)
    requires
        i < KMALLOC_BUCKET_COUNT,
    ensures
        bucket_size(i) == pow2(i + 3),
        bucket_size((KMALLOC_BUCKET_COUNT - 1) as nat) == DIRECT_LIMIT,
{
    lemma2_to64();
}

/// A size gets the smallest bucket that holds it: for a size of at most
/// `DIRECT_LIMIT` bytes the chosen bucket's objects have at least that
/// many bytes and the bucket below it (if any) fewer; larger sizes get no
/// bucket.
pub proof fn lemma_bucket_index_smallest(size: nat)
    ensures
        size > DIRECT_LIMIT <==> bucket_index(size) is None,
        bucket_index(size) matches Some(i) ==> i < KMALLOC_BUCKET_COUNT && size <= bucket_size(i)
            && (i == 0 || bucket_size((i - 1) as nat) < size),
{
}

/// Object size of bucket `i`.
fn bucket_bytes(i: usize) -> (r: usize)
    requires
        i < KMALLOC_BUCKET_COUNT,
    ensures
        r == bucket_size(i as nat),
{
    if i == 0 {
        8
    } else if i == 1 {
        16
    } else if i == 2 {
        32
    } else if i == 3 {
        64
    } else if i == 4 {
        128
    } else if i == 5 {
        256
    } else if i == 6 {
        512
    } else if i == 7 {
        1024
    } else {
        2048
    }
}

/// The name of the bucket for objects of `size` bytes: `kmalloc-` and the
/// size, in kibibytes from 1024 on; sizes that are no bucket's get the
/// largest bucket's name.
pub open spec fn bucket_label(size: usize) -> Seq<char> {
    if size == 8 {
        "kmalloc-8"@
    } else if size == 16 {
        "kmalloc-16"@
    } else if size == 32 {
        "kmalloc-32"@
    } else if size == 64 {
        "kmalloc-64"@
    } else if size == 128 {
        "kmalloc-128"@
    } else if size == 256 {
        "kmalloc-256"@
    } else if size == 512 {
        "kmalloc-512"@
    } else if size == 1024 {
        "kmalloc-1k"@
    } else {
        "kmalloc-2k"@
    }
}

/// Name of the bucket for objects of `size` bytes.
fn bucket_name(size: usize) -> (r: &'static str)
    ensures
        r@ == bucket_label(size),
{
    proof {
        reveal_strlit("kmalloc-8");
        reveal_strlit("kmalloc-16");
        reveal_strlit("kmalloc-32");
        reveal_strlit("kmalloc-64");
        reveal_strlit("kmalloc-128");
        reveal_strlit("kmalloc-256");
        reveal_strlit("kmalloc-512");
        reveal_strlit("kmalloc-1k");
        reveal_strlit("kmalloc-2k");
    }
    if size == 8 {
        "kmalloc-8"
    } else if size == 16 {
        "kmalloc-16"
    } else if size == 32 {
        "kmalloc-32"
    } else if size == 64 {
        "kmalloc-64"
    } else if size == 128 {
        "kmalloc-128"
    } else if size == 256 {
        "kmalloc-256"
    } else if size == 512 {
        "kmalloc-512"
    } else if size == 1024 {
        "kmalloc-1k"
    } else {
        "kmalloc-2k"
    }
}

/// `ceil(log2(n))`, 0 for `n <= 1`.
pub fn ilog2_ceil(n: usize) -> (r: usize)
    requires
        n < usize::MAX,
    ensures
        r == ceil_log2(n as nat),
{
    let mut v = if n == 0 { 1 } else { n };
    let mut log: usize = 0;
    while v > 1
        invariant
            ceil_log2(n as nat) == log + ceil_log2(v as nat),
            v < usize::MAX,
            log <= n,
            v >= 1,
            log + v <= n + 1,
        decreases v,
    {
        v = (v + 1) / 2;
        log = log + 1;
    }
    log
}

/// `floor(log2(n))`, 0 for `n <= 1`.
pub fn ilog2_floor(n: usize) -> (r: usize)
    ensures
        r == floor_log2(n as nat),
{
    log2_floor(n)
}

/// One page-block allocation: the address handed out, the block it lies
/// in, the block's page count, and whether the entry is live.
#[derive(Clone, Copy)]
pub struct DirectEntry {
    pub start: usize,
    pub base: usize,
    pub pages: usize,
    pub used: bool,
}

/// The live flags of a table.
pub open spec fn used_flags(t: Seq<DirectEntry>) -> Seq<bool> {
    t.map_values(|e: DirectEntry| e.used)
}

/// The first entry of `t` that is not live.
pub open spec fn first_unused(t: Seq<DirectEntry>) -> Option<int> {
    if exists|k: int| 0 <= k < t.len() && !(#[trigger] t[k]).used {
        Some(choose|k: int| 0 <= k < t.len() && !(#[trigger] t[k]).used
            && forall|j: int| 0 <= j < k ==> (#[trigger] t[j]).used)
    } else {
        None
    }
}

/// The first live entry of `t` for address `start`.
pub open spec fn entry_of(t: Seq<DirectEntry>, start: usize) -> Option<int> {
    if exists|k: int| 0 <= k < t.len() && (#[trigger] t[k]).used && t[k].start == start {
        Some(choose|k: int| 0 <= k < t.len() && (#[trigger] t[k]).used && t[k].start == start
            && forall|j: int| 0 <= j < k ==> !((#[trigger] t[j]).used && t[j].start == start))
    } else {
        None
    }
}

/// Records a page-block allocation in the first free entry; false when
/// every entry is live.
fn table_insert(t: &mut Vec<DirectEntry>, start: usize, base: usize, pages: usize) -> (r: bool)
    ensures
        r == first_unused(old(t)@) is Some,
        r ==> final(t)@ == old(t)@.update(first_unused(old(t)@)->0,
            DirectEntry { start: start, base: base, pages: pages, used: true }),
        !r ==> final(t)@ == old(t)@,
{
    let mut k: usize = 0;
    while k < t.len()
        invariant
            k <= t@.len(),
            t@ == old(t)@,
            forall|j: int| 0 <= j < k ==> (#[trigger] t@[j]).used,
        decreases t@.len() - k,
    {
        if !t[k].used {
            proof {
                let s = t@;
                let c = choose|q: int| 0 <= q < s.len() && !(#[trigger] s[q]).used
                    && forall|j: int| 0 <= j < q ==> (#[trigger] s[j]).used;
                assert(!s[k as int].used);
                if c < k {
                    assert(s[c].used);
                } else if c > k {
                    assert(s[k as int].used);
                }
            }
            t.set(k, DirectEntry { start, base, pages, used: true });
            return true;
        }
        k = k + 1;
    }
    false
}

/// Takes the live entry for `start` out of the table, returning its block
/// base and page count.
fn table_remove(t: &mut Vec<DirectEntry>, start: usize) -> (r: Option<(usize, usize)>)
    ensures
        match entry_of(old(t)@, start) {
            None => r is None && final(t)@ == old(t)@,
            Some(k) => r == Some((old(t)@[k].base, old(t)@[k].pages))
                && final(t)@ == old(t)@.update(k, DirectEntry { used: false, ..old(t)@[k] }),
        },
{
    let mut k: usize = 0;
    while k < t.len()
        invariant
            k <= t@.len(),
            t@ == old(t)@,
            forall|j: int| 0 <= j < k ==> !((#[trigger] t@[j]).used && t@[j].start == start),
        decreases t@.len() - k,
    {
        if t[k].used && t[k].start == start {
            proof {
                let s = t@;
                let c = choose|q: int| 0 <= q < s.len() && (#[trigger] s[q]).used && s[q].start == start
                    && forall|j: int| 0 <= j < q ==> !((#[trigger] s[j]).used && s[j].start == start);
                assert(s[k as int].used && s[k as int].start == start);
                if c < k {
                    assert(!(s[c].used && s[c].start == start));
                } else if c > k {
                    assert(!(s[k as int].used && s[k as int].start == start));
                }
            }
            let e = t[k];
            t.set(k, DirectEntry { used: false, ..e });
            return Some((e.base, e.pages));
        }
        k = k + 1;
    }
    None
}

/// The order of the page block a direct allocation of `size` bytes takes:
/// the size rounded up to whole pages, plus one page of room for aligning.
pub open spec fn direct_order(size: usize) -> nat {
    ceil_log2((round_up(size as nat, 4096) + 4096) / 4096)
}

/// Bucket `i` as `ensure_buckets` sets it up: a cache in use for objects
/// of `bucket_size(i)` bytes, 8-aligned, on 4096-byte pages.
pub open spec fn bucket_ok(set: CacheSet, i: int) -> bool {
    &&& set.spec_slots()[i]
    &&& set.spec_caches()[i].spec_stride() == bucket_size(i as nat)
    &&& set.spec_caches()[i].spec_page_size() == 4096
    &&& set.spec_caches()[i].spec_align() == 8
}

/// Every bucket as `ensure_buckets` sets it up.
pub open spec fn buckets_ok(set: CacheSet) -> bool {
    forall|i: int| 0 <= i < KMALLOC_BUCKET_COUNT ==> #[trigger] bucket_ok(set, i)
}

/// Objects handed out by the caches in use among the first `i` slots.
pub open spec fn cache_objects(set: CacheSet, i: nat) -> nat
    decreases i,
{
    if i == 0 {
        0
    } else {
        cache_objects(set, (i - 1) as nat) + if set.spec_slots()[i - 1] {
            set.spec_caches()[i - 1].spec_allocated()
        } else {
            0
        }
    }
}

/// The kmalloc state: the cache registry with its size buckets, and the
/// table of page-block allocations.
pub struct Kmalloc {
    set: CacheSet,
    direct: Vec<DirectEntry>,
    buckets_ready: bool,
    direct_used: usize,
}

/// Two kmalloc states that are the same.
pub open spec fn same_kmalloc(a: Kmalloc, b: Kmalloc) -> bool {
    &&& b.spec_set() == a.spec_set()
    &&& b.spec_direct() == a.spec_direct()
    &&& b.spec_ready() == a.spec_ready()
    &&& b.spec_direct_used() == a.spec_direct_used()
}

/// What a page-block allocation of `size` bytes aligned to `align` does:
/// either nothing, returning 0 (no block, no free table entry, or no room
/// for the object in the block), or it records in the first free table
/// entry a block of `2^direct_order(size)` pages and returns the first
/// `align`-aligned address of the block.
pub open spec fn direct_outcome(old: Kmalloc, new: Kmalloc, size: usize, align: usize, r: usize) -> bool {
    ||| r == 0 && same_kmalloc(old, new)
    ||| {
        let k = first_unused(old.spec_direct())->0;
        let e = new.spec_direct()[k];
        &&& r != 0
        &&& first_unused(old.spec_direct()) is Some
        &&& new.spec_direct() == old.spec_direct().update(k, e)
        &&& e.start == r && e.used
        &&& e.pages == psz(direct_order(size))
        &&& page_block_ok(e.base, direct_order(size) as usize)
        &&& r == round_up(e.base as nat, align as nat)
        &&& r + size <= e.base + e.pages * 4096
        &&& new.spec_set() == old.spec_set()
        &&& new.spec_ready() == old.spec_ready()
        &&& new.spec_direct_used() == old.spec_direct_used() + 1
    }
}

/// How a page-block allocation moves a provider's ledger from `held0` to
/// `held1`, where `can` is whether the provider could supply the block: the
/// block handed out joins the held set, a failed attempt leaves it as it
/// was, and with a free table entry and an alignment that divides the page
/// size the attempt fails only when no block can be had.
pub open spec fn direct_ledger(old: Kmalloc, new: Kmalloc, size: usize, align: usize, can: bool, held0: Set<int>,
    held1: Set<int>, r: usize) -> bool {
    let order = direct_order(size) as usize;
    &&& r == 0 ==> held1 == held0
    &&& r != 0 ==> {
        let e = new.spec_direct()[first_unused(old.spec_direct())->0];
        &&& block_pages(e.base, order).disjoint(held0)
        &&& held1 == held0 + block_pages(e.base, order)
    }
    &&& can && first_unused(old.spec_direct()) is Some && align > 0 && KERNEL_PAGE_SIZE % align == 0 ==> r != 0
}

/// What `kmalloc_aligned` does to a provider's ledger: the cache's ledger
/// move for a bucket object, the page-block one otherwise.
pub open spec fn kmalloc_ledger(old: Kmalloc, new: Kmalloc, size: usize, align: usize, can_page: bool,
    can_block: bool, held0: Set<int>, held1: Set<int>, r: usize) -> bool {
    let a: usize = if align == 0 { 1 } else { align };
    if size == 0 {
        held1 == held0
    } else if a <= BUCKET_ALIGN && bucket_index(size as nat) is Some {
        let i = bucket_index(size as nat)->0 as usize;
        if old.spec_set().spec_exists(i) {
            alloc_ledger(old.spec_set().spec_caches()[i as int], can_page, held0, held1, r)
        } else {
            held1 == held0
        }
    } else {
        direct_ledger(old, new, size, a, can_block, held0, held1, r)
    }
}

/// What `kfree` does to a provider's ledger: the owning cache's ledger move
/// for a slab object; for a page block held by the provider, the block
/// leaves the held set.
pub open spec fn kfree_ledger(old: Kmalloc, ptr: usize, held0: Set<int>, held1: Set<int>) -> bool {
    let page = page_mask(ptr, KERNEL_PAGE_SIZE);
    ptr != 0 ==> match page_owner(old.spec_set(), page) {
        Some(id) => free_ledger(old.spec_set().spec_caches()[id], ptr, held0, held1),
        None => match entry_of(old.spec_direct(), ptr) {
            Some(k) => {
                let e = old.spec_direct()[k];
                let b = block_pages(e.base, floor_log2(e.pages as nat) as usize);
                floor_log2(e.pages as nat) < usize::BITS && b <= held0 ==> held1 == held0 - b
            },
            None => held1 == held0,
        },
    }
}

/// A page-aligned address is aligned to every divisor of the page size.
proof fn lemma_divides_page(base: int, align: int)
    requires
        base >= 0,
        base % 4096 == 0,
        align > 0,
        4096int % align == 0,
    ensures
        base % align == 0,
{
    let q = base / 4096;
    let t = 4096int / align;
    lemma_fundamental_div_mod(base, 4096);
    lemma_fundamental_div_mod(4096, align);
    assert(base == (t * q) * align) by (nonlinear_arith)
        requires
            base == 4096 * q,
            4096int == align * t;
    lemma_mod_multiples_basic(t * q, align);
}

/// What `kmalloc_aligned` does: nothing for size 0; a bucket object for
/// sizes up to `DIRECT_LIMIT` with an alignment up to `BUCKET_ALIGN` (an
/// alignment of 0 counts as 1); a page block otherwise.
pub open spec fn kmalloc_outcome(old: Kmalloc, new: Kmalloc, size: usize, align: usize, r: usize) -> bool {
    let a: usize = if align == 0 { 1 } else { align };
    if size == 0 {
        r == 0 && same_kmalloc(old, new)
    } else if a <= BUCKET_ALIGN && bucket_index(size as nat) is Some {
        &&& set_alloc_outcome(old.spec_set(), new.spec_set(), bucket_index(size as nat)->0 as usize, r)
        &&& new.spec_direct() == old.spec_direct()
        &&& new.spec_ready() == old.spec_ready()
        &&& new.spec_direct_used() == old.spec_direct_used()
    } else {
        direct_outcome(old, new, size, a, r)
    }
}

/// What `kfree` does: nothing, returning false, for a null pointer; for a
/// pointer on a slab page, what the owning cache's `free` does; for the
/// start of a page-block allocation, retiring its table entry; nothing,
/// returning false, otherwise.
pub open spec fn kfree_outcome(old: Kmalloc, new: Kmalloc, ptr: usize, r: bool) -> bool {
    let page = page_mask(ptr, KERNEL_PAGE_SIZE);
    if ptr == 0 {
        !r && same_kmalloc(old, new)
    } else {
        match page_owner(old.spec_set(), page) {
            Some(id) => {
                &&& set_free_outcome(old.spec_set(), new.spec_set(), id as usize, ptr, r)
                &&& new.spec_direct() == old.spec_direct()
                &&& new.spec_ready() == old.spec_ready()
                &&& new.spec_direct_used() == old.spec_direct_used()
            },
            None => match entry_of(old.spec_direct(), ptr) {
                Some(k) => {
                    &&& r
                    &&& new.spec_direct() == old.spec_direct().update(k, DirectEntry { used: false, ..old.spec_direct()[k] })
                    &&& new.spec_direct_used() == old.spec_direct_used() - 1
                    &&& new.spec_set() == old.spec_set()
                    &&& new.spec_ready() == old.spec_ready()
                },
                None => !r && same_kmalloc(old, new),
            },
        }
    }
}

impl Kmalloc {
    pub closed spec fn spec_set(&self) -> CacheSet {
        self.set
    }

    /// The page-block table.
    pub closed spec fn spec_direct(&self) -> Seq<DirectEntry> {
        self.direct@
    }

    pub closed spec fn spec_ready(&self) -> bool {
        self.buckets_ready
    }

    /// Live page-block allocations.
    pub closed spec fn spec_direct_used(&self) -> nat {
        self.direct_used as nat
    }

    /// The state's invariant: a sound registry, a full-size table whose live
    /// entries are counted, and the buckets in place once ready.
    pub open spec fn wf(&self) -> bool {
        &&& self.spec_set().wf()
        &&& self.spec_direct().len() == DIRECT_MAX
        &&& self.spec_direct_used() == count_true(used_flags(self.spec_direct()))
        &&& self.spec_ready() ==> buckets_ok(self.spec_set())
    }

    /// Room in every cache's counters for one more allocation and free.
    pub open spec fn room(&self) -> bool {
        forall|i: int| 0 <= i < MAX_CACHES ==> {
            &&& alloc_room(#[trigger] self.spec_set().spec_caches()[i])
            &&& self.spec_set().spec_caches()[i].spec_counters().1 < u64::MAX
        }
    }

    /// Objects handed out: bucket and cache objects plus page blocks.
    pub open spec fn spec_total(&self) -> nat {
        cache_objects(self.spec_set(), MAX_CACHES as nat) + self.spec_direct_used()
    }

    /// A state with no cache and no page block yet.
    pub fn uninit() -> (r: Self)
        ensures
            r.wf(),
            !r.spec_ready(),
            r.spec_direct_used() == 0,
            r.spec_set().spec_slots() == Seq::new(MAX_CACHES as nat, |i: int| false),
            forall|k: int| 0 <= k < DIRECT_MAX ==> !(#[trigger] r.spec_direct()[k]).used,
    {
        let set = CacheSet::uninit();
        let mut direct: Vec<DirectEntry> = Vec::new();
        let mut i: usize = 0;
        while i < DIRECT_MAX
            invariant
                i <= DIRECT_MAX,
                direct@.len() == i,
                forall|k: int| 0 <= k < i ==> !(#[trigger] direct@[k]).used,
                count_true(used_flags(direct@)) == 0,
            decreases DIRECT_MAX - i,
        {
            let ghost before = direct@;
            direct.push(DirectEntry { start: 0, base: 0, pages: 0, used: false });
            proof {
                assert(used_flags(direct@) =~= used_flags(before).push(false));
                crate::mm::pmm::buddy_math::lemma_count_push(used_flags(before), false);
            }
            i = i + 1;
        }
        Kmalloc { set, direct, buckets_ready: false, direct_used: 0 }
    }

    /// Creates the size buckets in slots 0 to 8, once.
    pub fn ensure_buckets(&mut self)
        requires
            old(self).wf(),
            old(self).spec_ready() || forall|i: int| 0 <= i < KMALLOC_BUCKET_COUNT ==> !#[trigger] old(self).spec_set().spec_slots()[i],
        ensures
            final(self).wf(),
            final(self).spec_ready(),
            buckets_ok(final(self).spec_set()),
            final(self).spec_direct() == old(self).spec_direct(),
            final(self).spec_direct_used() == old(self).spec_direct_used(),
            old(self).spec_ready() ==> final(self).spec_set() == old(self).spec_set(),
            !old(self).spec_ready() ==> forall|i: int| 0 <= i < KMALLOC_BUCKET_COUNT ==>
                (#[trigger] final(self).spec_set().spec_caches()[i]).spec_allocated() == 0,
            !old(self).spec_ready() ==> forall|i: int| KMALLOC_BUCKET_COUNT <= i < MAX_CACHES ==>
                (#[trigger] final(self).spec_set().spec_caches()[i]) == old(self).spec_set().spec_caches()[i]
                && final(self).spec_set().spec_slots()[i] == old(self).spec_set().spec_slots()[i],
    {
        if self.buckets_ready {
            return;
        }
        let mut i: usize = 0;
        while i < KMALLOC_BUCKET_COUNT
            invariant
                i <= KMALLOC_BUCKET_COUNT,
                self.set.wf(),
                self.direct@ == old(self).direct@,
                self.direct_used == old(self).direct_used,
                !self.buckets_ready,
                forall|j: int| i <= j < KMALLOC_BUCKET_COUNT ==> !#[trigger] self.set.spec_slots()[j],
                forall|j: int| 0 <= j < i ==> #[trigger] bucket_ok(self.set, j)
                    && self.set.spec_caches()[j].spec_allocated() == 0,
                forall|j: int| KMALLOC_BUCKET_COUNT <= j < MAX_CACHES ==>
                    (#[trigger] self.set.spec_caches()[j]) == old(self).set.spec_caches()[j]
                    && self.set.spec_slots()[j] == old(self).set.spec_slots()[j],
            decreases KMALLOC_BUCKET_COUNT - i,
        {
            let size = bucket_bytes(i);
            proof {
                lemma_bucket_init_ok(i as nat);
            }
            let ghost s0 = self.set;
            assert(!s0.spec_slots()[i as int]);
            let ok = self.set.create_at(i, bucket_name(size), size, BUCKET_ALIGN, KERNEL_PAGE_SIZE);
            proof {
                assert(ok);
                assert(self.set.spec_slots() == s0.spec_slots().update(i as int, true));
                assert forall|j: int| i + 1 <= j < KMALLOC_BUCKET_COUNT implies !#[trigger] self.set.spec_slots()[j] by {
                    assert(!s0.spec_slots()[j]);
                }
                assert forall|j: int| 0 <= j < i + 1 implies #[trigger] bucket_ok(self.set, j)
                    && self.set.spec_caches()[j].spec_allocated() == 0 by {
                    if j < i {
                        assert(bucket_ok(s0, j));
                        assert(self.set.spec_caches()[j] == s0.spec_caches()[j]);
                    }
                }
                assert forall|j: int| KMALLOC_BUCKET_COUNT <= j < MAX_CACHES implies
                    (#[trigger] self.set.spec_caches()[j]) == old(self).set.spec_caches()[j]
                    && self.set.spec_slots()[j] == old(self).set.spec_slots()[j] by {
                    assert(self.set.spec_caches()[j] == s0.spec_caches()[j]);
                }
            }
            i = i + 1;
        }
        assert forall|j: int| 0 <= j < KMALLOC_BUCKET_COUNT implies
            (#[trigger] self.set.spec_caches()[j]).spec_allocated() == 0 by {
            assert(bucket_ok(self.set, j));
        }
        self.buckets_ready = true;
    }

    /// The bucket that holds `size` bytes, or `None` above `DIRECT_LIMIT`.
    pub fn bucket_for(size: usize) -> (r: Option<usize>)
        ensures
            r matches Some(i) ==> bucket_index(size as nat) == Some(i as nat) && i < KMALLOC_BUCKET_COUNT,
            r is None ==> bucket_index(size as nat) is None,
            r matches Some(i) ==> size <= bucket_size(i as nat) && (i == 0 || bucket_size((i - 1) as nat) < size),
            r is None <==> size > DIRECT_LIMIT,
    {
        if size > DIRECT_LIMIT {
            return None;
        }
        let mut i: usize = 0;
        while i < KMALLOC_BUCKET_COUNT
            invariant
                i <= KMALLOC_BUCKET_COUNT,
                size <= DIRECT_LIMIT,
                forall|j: nat| j < i ==> size > #[trigger] bucket_size(j),
            decreases KMALLOC_BUCKET_COUNT - i,
        {
            if size <= bucket_bytes(i) {
                proof {
                    if i > 0 {
                        assert(size > bucket_size((i - 1) as nat));
                    }
                }
                return Some(i);
            }
            i = i + 1;
        }
        proof {
            assert(size > bucket_size(8));
        }
        None
    }

    /// Whether the buckets are in place.
    pub fn is_ready(&self) -> (r: bool)
        ensures
            r == self.spec_ready(),
    {
        self.buckets_ready
    }

    /// `size` bytes, 8-aligned; 0 when nothing can be handed out.
    pub fn kmalloc<P: PageProvider>(&mut self, size: usize, provider: &mut P) -> (r: usize)
        requires
            old(self).wf(),
            old(self).room(),
            size <= usize::MAX - 2 * KERNEL_PAGE_SIZE,
        ensures
            final(self).wf(),
            kmalloc_outcome(*old(self), *final(self), size, BUCKET_ALIGN, r),
            P::keeps_ledger() ==> kmalloc_ledger(*old(self), *final(self), size, BUCKET_ALIGN, old(provider).can_supply(0),
                old(provider).can_supply(direct_order(size) as usize), old(provider).held(), final(provider).held(), r),
    {
        self.kmalloc_aligned(size, BUCKET_ALIGN, provider)
    }

    /// `size` bytes aligned to `align`: from the smallest bucket that holds
    /// `size` when the alignment is at most `BUCKET_ALIGN`, else from a
    /// fresh page block; 0 when nothing can be handed out.
    pub fn kmalloc_aligned<P: PageProvider>(&mut self, size: usize, align: usize, provider: &mut P) -> (r: usize)
        requires
            old(self).wf(),
            old(self).room(),
            size <= usize::MAX - 2 * KERNEL_PAGE_SIZE,
        ensures
            final(self).wf(),
            kmalloc_outcome(*old(self), *final(self), size, align, r),
            P::keeps_ledger() ==> kmalloc_ledger(*old(self), *final(self), size, align, old(provider).can_supply(0),
                old(provider).can_supply(direct_order(size) as usize), old(provider).held(), final(provider).held(), r),
    {
        if size == 0 {
            return 0;
        }
        let align = if align == 0 { 1 } else { align };
        if align <= BUCKET_ALIGN {
            match Kmalloc::bucket_for(size) {
                Some(bucket) => {
                    return self.alloc_in_bucket(bucket, provider);
                },
                None => {},
            }
        }
        self.direct_alloc(size, align, provider)
    }

    /// An object of bucket `bucket`.
    fn alloc_in_bucket<P: PageProvider>(&mut self, bucket: usize, provider: &mut P) -> (r: usize)
        requires
            old(self).wf(),
            old(self).room(),
            bucket < KMALLOC_BUCKET_COUNT,
        ensures
            final(self).wf(),
            set_alloc_outcome(old(self).spec_set(), final(self).spec_set(), bucket, r),
            final(self).spec_direct() == old(self).spec_direct(),
            final(self).spec_ready() == old(self).spec_ready(),
            final(self).spec_direct_used() == old(self).spec_direct_used(),
            P::keeps_ledger() && old(self).spec_set().spec_exists(bucket) ==> alloc_ledger(
                old(self).spec_set().spec_caches()[bucket as int], old(provider).can_supply(0), old(provider).held(),
                final(provider).held(), r),
            !old(self).spec_set().spec_exists(bucket) ==> *final(provider) == *old(provider),
    {
        let r = self.set.alloc_object(bucket, provider);
        proof {
            lemma_buckets_kept(old(self).spec_set(), self.spec_set(), bucket, r);
        }
        r
    }

    /// A page block of `2^direct_order(size)` pages holding `size` bytes
    /// from its first `align`-aligned address.
    fn direct_alloc<P: PageProvider>(&mut self, size: usize, align: usize, provider: &mut P) -> (r: usize)
        requires
            old(self).wf(),
            size <= usize::MAX - 2 * KERNEL_PAGE_SIZE,
            align > 0,
        ensures
            final(self).wf(),
            direct_outcome(*old(self), *final(self), size, align, r),
            P::keeps_ledger() ==> direct_ledger(*old(self), *final(self), size, align,
                old(provider).can_supply(direct_order(size) as usize), old(provider).held(), final(provider).held(), r),
    {
        let needed = align_up(size, KERNEL_PAGE_SIZE) + KERNEL_PAGE_SIZE;
        let ghost m = needed / 4096;
        proof {
            assert(m >= 1);
            lemma_ceil_log2(m as nat);
            lemma_pow2_fits(ceil_log2(m as nat));
        }
        let order = ilog2_ceil(needed / KERNEL_PAGE_SIZE);
        let pages = order_pages(order);
        assert(order == direct_order(size));
        let ghost held0 = provider.held();
        let base = match provider.alloc_pages(order) {
            Some(b) => b,
            None => {
                return 0;
            },
        };
        let ghost blk = block_pages(base, order);
        proof {
            if P::keeps_ledger() {
                assert(provider.held().difference(blk) =~= held0);
            }
            if KERNEL_PAGE_SIZE % align == 0 {
                lemma_divides_page(base as int, align as int);
            }
        }
        proof {
            assert(pow2(order as nat) == psz(order as nat));
            assert(pages * 4096 >= needed) by (nonlinear_arith)
                requires
                    pages >= m,
                    m == needed / 4096,
                    needed % 4096 == 0;
        }
        let end = base + pages * KERNEL_PAGE_SIZE;
        let start = if base % align == 0 {
            base
        } else if base <= usize::MAX - (align - base % align) {
            base + (align - base % align)
        } else {
            provider.free_pages(order, base);
            return 0;
        };
        if start > end - size {
            provider.free_pages(order, base);
            return 0;
        }
        let ghost t0 = self.direct@;
        if !table_insert(&mut self.direct, start, base, pages) {
            provider.free_pages(order, base);
            return 0;
        }
        proof {
            let k = first_unused(t0)->0;
            let c = choose|q: int| 0 <= q < t0.len() && !(#[trigger] t0[q]).used
                && forall|j: int| 0 <= j < q ==> (#[trigger] t0[j]).used;
            assert(0 <= k < t0.len() && !t0[k].used);
            assert(used_flags(self.direct@) =~= used_flags(t0).update(k, true));
            lemma_count_update(used_flags(t0), k, true);
            lemma_count_le_len(used_flags(t0));
        }
        self.direct_used = self.direct_used + 1;
        start
    }

    /// `size` bytes, 8-aligned, meant to be handed out zeroed; the same
    /// allocation as `kmalloc`.
    pub fn kmalloc_zeroed<P: PageProvider>(&mut self, size: usize, provider: &mut P) -> (r: usize)
        requires
            old(self).wf(),
            old(self).room(),
            size <= usize::MAX - 2 * KERNEL_PAGE_SIZE,
        ensures
            final(self).wf(),
            kmalloc_outcome(*old(self), *final(self), size, BUCKET_ALIGN, r),
            P::keeps_ledger() ==> kmalloc_ledger(*old(self), *final(self), size, BUCKET_ALIGN, old(provider).can_supply(0),
                old(provider).can_supply(direct_order(size) as usize), old(provider).held(), final(provider).held(), r),
    {
        self.kmalloc(size, provider)
    }

    /// `size` bytes aligned to `align`, meant to be handed out zeroed; the
    /// same allocation as `kmalloc_aligned`.
    pub fn kmalloc_zeroed_with_align<P: PageProvider>(&mut self, size: usize, align: usize, provider: &mut P) -> (r: usize)
        requires
            old(self).wf(),
            old(self).room(),
            size <= usize::MAX - 2 * KERNEL_PAGE_SIZE,
        ensures
            final(self).wf(),
            kmalloc_outcome(*old(self), *final(self), size, align, r),
            P::keeps_ledger() ==> kmalloc_ledger(*old(self), *final(self), size, align, old(provider).can_supply(0),
                old(provider).can_supply(direct_order(size) as usize), old(provider).held(), final(provider).held(), r),
    {
        self.kmalloc_aligned(size, align, provider)
    }

    /// Takes back what `kmalloc` handed out at `ptr`, without being told its
    /// size: an object on a slab page goes back to the cache that owns the
    /// page, a page block back to `provider`. Returns whether `ptr` was
    /// recognised.
    pub fn kfree<P: PageProvider>(&mut self, ptr: usize, provider: &mut P) -> (r: bool)
        requires
            old(self).wf(),
            old(self).room(),
        ensures
            final(self).wf(),
            kfree_outcome(*old(self), *final(self), ptr, r),
            !r ==> *final(provider) == *old(provider),
            P::keeps_ledger() ==> kfree_ledger(*old(self), ptr, old(provider).held(), final(provider).held()),
    {
        if ptr == 0 {
            return false;
        }
        let page = ptr & !(KERNEL_PAGE_SIZE - 1);
        match self.set.owner_of(page) {
            Some(id) => {
                let r = self.set.free_object(id, provider, ptr);
                proof {
                    lemma_buckets_kept_free(old(self).spec_set(), self.spec_set(), id, ptr, r);
                }
                return r;
            },
            None => {},
        }
        let ghost t0 = self.direct@;
        match table_remove(&mut self.direct, ptr) {
            Some((base, pages)) => {
                provider.free_pages(ilog2_floor(pages), base);
                proof {
                    let k = entry_of(t0, ptr)->0;
                    let c = choose|q: int| 0 <= q < t0.len() && (#[trigger] t0[q]).used && t0[q].start == ptr
                        && forall|j: int| 0 <= j < q ==> !((#[trigger] t0[j]).used && t0[j].start == ptr);
                    assert(0 <= k < t0.len() && t0[k].used);
                    assert(used_flags(self.direct@) =~= used_flags(t0).update(k, false));
                    lemma_count_update(used_flags(t0), k, false);
                }
                self.direct_used = self.direct_used - 1;
                true
            },
            None => false,
        }
    }

    /// The cache registry.
    pub fn cache_set(&self) -> (r: &CacheSet)
        ensures
            *r == self.spec_set(),
    {
        &self.set
    }

    /// The cache registry, to change.
    pub fn cache_set_mut(&mut self) -> (r: &mut CacheSet)
        ensures
            *r == old(self).spec_set(),
            final(self).spec_set() == *final(r),
            final(self).spec_direct() == old(self).spec_direct(),
            final(self).spec_ready() == old(self).spec_ready(),
            final(self).spec_direct_used() == old(self).spec_direct_used(),
    {
        &mut self.set
    }

    /// Whether every cache's counters have room for one more allocation and
    /// one more free: what a caller tests before `kmalloc` and `kfree`.
    pub fn has_room(&self) -> (r: bool)
        requires
            self.wf(),
        ensures
            r == self.room(),
    {
        let mut i: usize = 0;
        while i < MAX_CACHES
            invariant
                i <= MAX_CACHES,
                self.wf(),
                forall|j: int| 0 <= j < i ==> {
                    &&& alloc_room(#[trigger] self.spec_set().spec_caches()[j])
                    &&& self.spec_set().spec_caches()[j].spec_counters().1 < u64::MAX
                },
            decreases MAX_CACHES - i,
        {
            if !self.set.get(i).has_room() {
                return false;
            }
            i = i + 1;
        }
        true
    }

    /// Live page-block allocations.
    pub fn direct_used(&self) -> (r: usize)
        ensures
            r == self.spec_direct_used(),
    {
        self.direct_used
    }

    /// Objects handed out: bucket and cache objects plus page blocks.
    pub fn total_objects(&self) -> (r: usize)
        requires
            self.wf(),
            self.spec_total() <= usize::MAX,
        ensures
            r == self.spec_total(),
    {
        let mut sum: usize = 0;
        let mut i: usize = 0;
        while i < MAX_CACHES
            invariant
                i <= MAX_CACHES,
                self.wf(),
                sum == cache_objects(self.spec_set(), i as nat),
                self.spec_total() <= usize::MAX,
            decreases MAX_CACHES - i,
        {
            proof {
                lemma_cache_objects_mono(self.spec_set(), (i + 1) as nat, MAX_CACHES as nat);
            }
            if self.set.cache_exists(i) {
                sum = sum + self.set.get(i).objs_allocated();
            }
            i = i + 1;
        }
        sum + self.direct_used
    }
}

/// The first `i` slots never count more than the first `j >= i`.
pub proof fn lemma_cache_objects_mono(set: CacheSet, i: nat, j: nat)
    requires
        i <= j,
    ensures
        cache_objects(set, i) <= cache_objects(set, j),
    decreases j,
{
    if i < j {
        lemma_cache_objects_mono(set, i, (j - 1) as nat);
    }
}

/// The size buckets can be set up on 4096-byte pages with 8-byte alignment.
proof fn lemma_bucket_init_ok(i: nat)
    requires
        i < KMALLOC_BUCKET_COUNT,
    ensures
        init_ok(bucket_size(i) as usize, BUCKET_ALIGN, KERNEL_PAGE_SIZE),
        stride_for(bucket_size(i) as usize, BUCKET_ALIGN) == bucket_size(i),
{
    let k: nat = i + 3;
    lemma_ceil_log2_pow2(k);
    lemma2_to64();
    assert(pow2(k) == bucket_size(i));
}

/// The exponent of a power of two is its `ceil_log2`.
proof fn lemma_ceil_log2_pow2(k: nat)
    ensures
        ceil_log2(pow2(k)) == k,
    decreases k,
{
    lemma2_to64();
    if k > 0 {
        lemma_ceil_log2_pow2((k - 1) as nat);
        vstd::arithmetic::power2::lemma_pow2_unfold(k);
        vstd::arithmetic::power2::lemma_pow2_pos((k - 1) as nat);
        let m = pow2((k - 1) as nat);
        assert((2 * m + 1) / 2 == m);
    }
}

/// Changing one cache, keeping its parameters and the slots, keeps the
/// buckets in place.
proof fn lemma_buckets_kept_one(old: CacheSet, new: CacheSet, id: usize)
    requires
        old.wf(),
        new == old || crate::mm::heap::slab_cache::only_cache_changed(old, new, id, new.spec_caches()[id as int]),
        id < MAX_CACHES,
    ensures
        buckets_ok(old) ==> buckets_ok(new),
{
    if buckets_ok(old) {
        assert(new.spec_slots() == old.spec_slots());
        assert forall|i: int| 0 <= i < KMALLOC_BUCKET_COUNT implies #[trigger] bucket_ok(new, i) by {
            assert(bucket_ok(old, i));
        }
    }
}

/// Allocating from a cache keeps the buckets in place.
proof fn lemma_buckets_kept(old: CacheSet, new: CacheSet, id: usize, r: usize)
    requires
        old.wf(),
        set_alloc_outcome(old, new, id, r),
    ensures
        buckets_ok(old) ==> buckets_ok(new),
{
    if old.spec_exists(id) {
        lemma_buckets_kept_one(old, new, id);
    }
}

/// Freeing into a cache keeps the buckets in place.
proof fn lemma_buckets_kept_free(old: CacheSet, new: CacheSet, id: usize, ptr: usize, r: bool)
    requires
        old.wf(),
        set_free_outcome(old, new, id, ptr, r),
    ensures
        buckets_ok(old) ==> buckets_ok(new),
{
    if old.spec_exists(id) {
        lemma_buckets_kept_one(old, new, id);
    }
}

/// The first `i` slots count no object only when each cache in use among
/// them has none.
proof fn lemma_cache_objects_zero(set: CacheSet, i: nat)
    requires
        cache_objects(set, i) == 0,
    ensures
        forall|j: int| 0 <= j < i && set.spec_slots()[j] ==> (#[trigger] set.spec_caches()[j]).spec_allocated() == 0,
    decreases i,
{
    if i > 0 {
        lemma_cache_objects_zero(set, (i - 1) as nat);
    }
}

/// A table whose live flags count zero has no live entry.
proof fn lemma_count_zero(s: Seq<bool>)
    requires
        count_true(s) == 0,
    ensures
        forall|k: int| 0 <= k < s.len() ==> !#[trigger] s[k],
    decreases s.len(),
{
    if s.len() > 0 {
        lemma_count_zero(s.drop_last());
        assert forall|k: int| 0 <= k < s.len() implies !#[trigger] s[k] by {
            if k < s.len() - 1 {
                assert(s[k] == s.drop_last()[k]);
            }
        }
    }
}

/// With no object handed out, the heap holds nothing: no cache keeps a
/// slab page and no page block is live.
pub proof fn lemma_empty_heap_holds_nothing(k: Kmalloc)
    requires
        k.wf(),
        k.spec_total() == 0,
    ensures
        forall|i: int| 0 <= i < MAX_CACHES ==> (#[trigger] k.spec_set().spec_caches()[i]).spec_slabs() == 0,
        forall|j: int| 0 <= j < DIRECT_MAX ==> !(#[trigger] k.spec_direct()[j]).used,
{
    let set = k.spec_set();
    lemma_cache_objects_zero(set, MAX_CACHES as nat);
    assert forall|i: int| 0 <= i < MAX_CACHES implies (#[trigger] set.spec_caches()[i]).spec_slabs() == 0 by {
        if set.spec_slots()[i] {
            crate::mm::heap::slub::lemma_no_objects_no_pages(set.spec_caches()[i]);
        }
    }
    lemma_count_zero(used_flags(k.spec_direct()));
    assert forall|j: int| 0 <= j < DIRECT_MAX implies !(#[trigger] k.spec_direct()[j]).used by {
        assert(used_flags(k.spec_direct())[j] == k.spec_direct()[j].used);
    }
}

/// No two slabs of the caches in use share a page.
pub open spec fn heap_pages_distinct(set: CacheSet) -> bool {
    &&& forall|i: int| 0 <= i < MAX_CACHES && set.spec_slots()[i] ==> pages_distinct(#[trigger] set.spec_caches()[i])
    &&& forall|i: int, j: int, x: int, y: int|
        0 <= i < j < MAX_CACHES && set.spec_slots()[i] && set.spec_slots()[j]
        && 0 <= x < all_slabs(set.spec_caches()[i]).len() && 0 <= y < all_slabs(set.spec_caches()[j]).len()
        ==> (#[trigger] all_slabs(set.spec_caches()[i])[x]).0 != (#[trigger] all_slabs(set.spec_caches()[j])[y]).0
}

/// The caches' lists and counts agree slot by slot.
pub open spec fn same_caches(a: CacheSet, b: CacheSet) -> bool {
    &&& b.spec_slots() == a.spec_slots()
    &&& forall|i: int| 0 <= i < MAX_CACHES ==> {
        &&& (#[trigger] b.spec_caches()[i]).spec_partial() == a.spec_caches()[i].spec_partial()
        &&& b.spec_caches()[i].spec_full() == a.spec_caches()[i].spec_full()
        &&& b.spec_caches()[i].spec_slabs() == a.spec_caches()[i].spec_slabs()
        &&& b.spec_caches()[i].spec_allocated() == a.spec_caches()[i].spec_allocated()
    }
}

/// `kfree` takes back what `kmalloc` just handed out from a size bucket,
/// and the caches' lists and counts are as before, provided no two slabs
/// share a page.
pub proof fn lemma_kmalloc_kfree_bucket(a: Kmalloc, b: Kmalloc, c: Kmalloc, size: usize, align: usize, r: usize, ok: bool)
    requires
        a.wf(),
        a.spec_ready(),
        a.room(),
        0 < size <= DIRECT_LIMIT,
        align <= BUCKET_ALIGN,
        kmalloc_outcome(a, b, size, align, r),
        r != 0,
        b.wf(),
        heap_pages_distinct(b.spec_set()),
        kfree_outcome(b, c, r, ok),
    ensures
        ok,
        same_caches(a.spec_set(), c.spec_set()),
        c.spec_direct() == a.spec_direct(),
        c.spec_direct_used() == a.spec_direct_used(),
{
    let bi = bucket_index(size as nat)->0;
    let sa = a.spec_set();
    let sb = b.spec_set();
    let sc = c.spec_set();
    assert(bi < KMALLOC_BUCKET_COUNT);
    assert(bucket_ok(sa, bi as int));
    assert(sa.spec_exists(bi as usize));
    let ca = sa.spec_caches()[bi as int];
    let cb = sb.spec_caches()[bi as int];
    assert(only_cache_changed(sa, sb, bi as usize, cb));
    assert(ca.wf());
    lemma_allocate_holds_page(ca, cb, r);
    let p = page_mask(r, 4096usize);
    let x = choose|x: int| 0 <= x < all_slabs(cb).len() && (#[trigger] all_slabs(cb)[x]).0 == p;
    assert(holds_page(cb, p)) by {
        let bp = cb.spec_partial();
        let bf = cb.spec_full();
        if x < bp.len() {
            assert(all_slabs(cb)[x] == bp[x]);
            assert(exists|k: int| 0 <= k < bp.len() && (#[trigger] bp[k]).0 == p);
        } else {
            assert(all_slabs(cb)[x] == bf[x - bp.len()]);
            assert(exists|k: int| 0 <= k < bf.len() && (#[trigger] bf[k]).0 == p);
        }
    }
    assert(sb.spec_slots()[bi as int]);
    assert(forall|j: int| 0 <= j < bi ==> !(sb.spec_slots()[j] && holds_page(#[trigger] sb.spec_caches()[j], p))) by {
        assert forall|j: int| 0 <= j < bi implies !(sb.spec_slots()[j] && holds_page(#[trigger] sb.spec_caches()[j], p)) by {
            if sb.spec_slots()[j] && holds_page(sb.spec_caches()[j], p) {
                lemma_holds_page_witness(sb.spec_caches()[j], p);
                let y = choose|y: int| 0 <= y < all_slabs(sb.spec_caches()[j]).len()
                    && (#[trigger] all_slabs(sb.spec_caches()[j])[y]).0 == p;
                assert(all_slabs(sb.spec_caches()[j])[y].0 != all_slabs(sb.spec_caches()[bi as int])[x].0);
            }
        }
    }
    let owner = page_owner(sb, p);
    assert(exists|i: int| 0 <= i < MAX_CACHES && sb.spec_slots()[i] && holds_page(#[trigger] sb.spec_caches()[i], p)) by {
        assert(holds_page(sb.spec_caches()[bi as int], p));
    }
    let o = owner->0;
    assert(o == bi as int) by {
        if o < bi {
        } else if o > bi {
            assert(holds_page(sb.spec_caches()[bi as int], p));
        }
    }
    assert(set_free_outcome(sb, sc, bi as usize, r, ok));
    let cc = sc.spec_caches()[bi as int];
    assert(pages_distinct(cb));
    lemma_allocate_free_roundtrip(ca, cb, cc, r, ok);
    assert forall|i: int| 0 <= i < MAX_CACHES implies {
        &&& (#[trigger] sc.spec_caches()[i]).spec_partial() == sa.spec_caches()[i].spec_partial()
        &&& sc.spec_caches()[i].spec_full() == sa.spec_caches()[i].spec_full()
        &&& sc.spec_caches()[i].spec_slabs() == sa.spec_caches()[i].spec_slabs()
        &&& sc.spec_caches()[i].spec_allocated() == sa.spec_caches()[i].spec_allocated()
    } by {
        if i != bi {
            assert(sc.spec_caches()[i] == sb.spec_caches()[i]);
            assert(sb.spec_caches()[i] == sa.spec_caches()[i]);
        }
    }
}

/// `kfree` takes back what `kmalloc` just handed out as a page block, and
/// the caches and the live table entries are as before, provided no cache
/// holds the block's page and no other live block starts at the same
/// address.
pub proof fn lemma_kmalloc_kfree_direct(a: Kmalloc, b: Kmalloc, c: Kmalloc, size: usize, align: usize, r: usize, ok: bool)
    requires
        a.wf(),
        size > 0,
        !((if align == 0 { 1 } else { align }) <= BUCKET_ALIGN && bucket_index(size as nat) is Some),
        kmalloc_outcome(a, b, size, align, r),
        r != 0,
        entry_of(a.spec_direct(), r) is None,
        page_owner(b.spec_set(), page_mask(r, KERNEL_PAGE_SIZE)) is None,
        kfree_outcome(b, c, r, ok),
    ensures
        ok,
        c.spec_set() == a.spec_set(),
        used_flags(c.spec_direct()) == used_flags(a.spec_direct()),
        forall|j: int| 0 <= j < a.spec_direct().len() && (#[trigger] a.spec_direct()[j]).used
            ==> c.spec_direct()[j] == a.spec_direct()[j],
        c.spec_direct_used() == a.spec_direct_used(),
{
    let ta = a.spec_direct();
    let tb = b.spec_direct();
    let k = first_unused(ta)->0;
    let kk = choose|q: int| 0 <= q < ta.len() && !(#[trigger] ta[q]).used
        && forall|j: int| 0 <= j < q ==> (#[trigger] ta[j]).used;
    assert(0 <= k < ta.len() && !ta[k].used);
    assert(tb[k].used && tb[k].start == r);
    assert(exists|q: int| 0 <= q < tb.len() && (#[trigger] tb[q]).used && tb[q].start == r);
    let e = entry_of(tb, r)->0;
    assert(e == k) by {
        if e < k {
            assert(tb[e] == ta[e]);
        } else if e > k {
            assert(tb[k].used && tb[k].start == r);
        }
    }
    assert(used_flags(c.spec_direct()) =~= used_flags(ta));
    assert forall|j: int| 0 <= j < ta.len() && (#[trigger] ta[j]).used implies c.spec_direct()[j] == ta[j] by {
        assert(j != k);
    }
}


/// A page block `kmalloc` takes goes back when `kfree` takes the pointer
/// back: where `kmalloc_aligned` handed out `r` from a page block, moving
/// the provider's ledger from `h0` to `h1`, and `kfree` of `r` moved it from
/// `h1` to `h2`, each as its contract states, the ledger is `h0` again.
pub proof fn lemma_kmalloc_kfree_direct_ledger(a: Kmalloc, b: Kmalloc, c: Kmalloc, size: usize, align: usize, r: usize,
    ok: bool, can: bool, h0: Set<int>, h1: Set<int>, h2: Set<int>)
    requires
        a.wf(),
        size > 0,
        align > 0,
        !(align <= BUCKET_ALIGN && bucket_index(size as nat) is Some),
        kmalloc_outcome(a, b, size, align, r),
        r != 0,
        entry_of(a.spec_direct(), r) is None,
        page_owner(b.spec_set(), page_mask(r, KERNEL_PAGE_SIZE)) is None,
        kfree_outcome(b, c, r, ok),
        direct_ledger(a, b, size, align, can, h0, h1, r),
        kfree_ledger(b, r, h1, h2),
    ensures
        h2 == h0,
{
    lemma_kmalloc_kfree_direct(a, b, c, size, align, r, ok);
    let ta = a.spec_direct();
    let tb = b.spec_direct();
    let k = first_unused(ta)->0;
    let kk = choose|q: int| 0 <= q < ta.len() && !(#[trigger] ta[q]).used
        && forall|j: int| 0 <= j < q ==> (#[trigger] ta[j]).used;
    assert(0 <= k < ta.len() && !ta[k].used);
    assert(tb[k].used && tb[k].start == r);
    assert(exists|q: int| 0 <= q < tb.len() && (#[trigger] tb[q]).used && tb[q].start == r);
    let e = entry_of(tb, r)->0;
    assert(e == k) by {
        if e < k {
            assert(tb[e] == ta[e]);
        } else if e > k {
            assert(tb[k].used && tb[k].start == r);
        }
    }
    let o = direct_order(size);
    lemma_floor_log2_pow2(o);
    assert(tb[k].pages == psz(o));
    assert(floor_log2(tb[k].pages as nat) == o);
    if o >= usize::BITS {
        lemma2_to64();
        if o > usize::BITS {
            vstd::arithmetic::power2::lemma_pow2_strictly_increases(usize::BITS as nat, o);
        }
        assert(pow2(usize::BITS as nat) > usize::MAX);
        assert(false);
    }
    let blk = block_pages(tb[k].base, o as usize);
    assert(h1 == h0 + blk);
    assert(h2 == h1 - blk);
    assert(h2 =~= h0);
}


/// The pages of the page block of table entry `e`.
pub open spec fn entry_block(e: DirectEntry) -> Set<int> {
    block_pages(e.base, floor_log2(e.pages as nat) as usize)
}

/// Whether page `p` carries a slab of some cache in use.
pub open spec fn on_slab(set: CacheSet, p: int) -> bool {
    exists|i: int| 0 <= i < MAX_CACHES && set.spec_slots()[i] && #[trigger] slab_pages(set.spec_caches()[i]).count(p) > 0
}

/// Whether page `p` lies in a live page block of table `t`.
pub open spec fn in_block(t: Seq<DirectEntry>, p: int) -> bool {
    exists|j: int| 0 <= j < t.len() && t[j].used && #[trigger] entry_block(t[j]).contains(p)
}

/// A provider's ledger `held` accounts for the heap: every slab page and
/// every page of a live page block is held, no page carries two slabs or
/// lies in two blocks or in a block and under a slab, and what the ledger
/// holds besides is exactly `rest`.
pub open spec fn heap_accounted(k: Kmalloc, held: Set<int>, rest: Set<int>) -> bool {
    let set = k.spec_set();
    let t = k.spec_direct();
    &&& forall|i: int, p: int| 0 <= i < MAX_CACHES && set.spec_slots()[i]
        ==> #[trigger] slab_pages(set.spec_caches()[i]).count(p) <= 1
    &&& forall|i: int, j: int, p: int| 0 <= i < MAX_CACHES && 0 <= j < MAX_CACHES && i != j
        && set.spec_slots()[i] && set.spec_slots()[j]
        ==> !(#[trigger] slab_pages(set.spec_caches()[i]).count(p) > 0
            && #[trigger] slab_pages(set.spec_caches()[j]).count(p) > 0)
    &&& forall|a: int, b: int, p: int| 0 <= a < t.len() && 0 <= b < t.len() && a != b && t[a].used && t[b].used
        ==> !(#[trigger] entry_block(t[a]).contains(p) && #[trigger] entry_block(t[b]).contains(p))
    &&& forall|j: int, p: int| 0 <= j < t.len() && t[j].used && #[trigger] entry_block(t[j]).contains(p)
        ==> !on_slab(set, p)
    &&& forall|j: int| 0 <= j < t.len() && (#[trigger] t[j]).used ==> floor_log2(t[j].pages as nat) < usize::BITS
    &&& forall|p: int| #[trigger] on_slab(set, p) ==> held.contains(p)
    &&& forall|p: int| #[trigger] in_block(t, p) ==> held.contains(p)
    &&& rest == Set::new(|p: int| held.contains(p) && !on_slab(set, p) && !in_block(t, p))
}

/// A heap that holds no object holds no page: where the ledger `held`
/// accounts for a heap with nothing handed out, with `rest` besides, the
/// ledger holds exactly `rest`, so every page the heap took went back.
pub proof fn lemma_empty_heap_returned_all(k: Kmalloc, held: Set<int>, rest: Set<int>)
    requires
        k.wf(),
        k.spec_total() == 0,
        heap_accounted(k, held, rest),
    ensures
        held == rest,
{
    broadcast use vstd::seq_lib::group_to_multiset_ensures, vstd::multiset::group_multiset_axioms;
    lemma_empty_heap_holds_nothing(k);
    let set = k.spec_set();
    assert forall|p: int| !#[trigger] on_slab(set, p) by {
        if on_slab(set, p) {
            let i = choose|i: int| 0 <= i < MAX_CACHES && set.spec_slots()[i]
                && #[trigger] slab_pages(set.spec_caches()[i]).count(p) > 0;
            let c = set.spec_caches()[i];
            assert(c.spec_slabs() == 0);
            assert(crate::mm::heap::slub::pages_of(c.spec_partial()) =~= Seq::<int>::empty());
            assert(crate::mm::heap::slub::pages_of(c.spec_full()) =~= Seq::<int>::empty());
            assert(slab_pages(c) =~= vstd::multiset::Multiset::<int>::empty());
        }
    }
    assert forall|p: int| !#[trigger] in_block(k.spec_direct(), p) by {
    }
    assert(held =~= rest);
}


/// Replacing the cache in slot `id` by one on the same pages, or on the
/// same pages and one page `pg` the ledger did not hold, keeps the account
/// with the ledger grown by that page.
proof fn lemma_cache_change_account(a: Kmalloc, b: Kmalloc, id: int, grown: bool, pg: int, h0: Set<int>,
    h1: Set<int>, rest: Set<int>)
    requires
        heap_accounted(a, h0, rest),
        0 <= id < MAX_CACHES,
        a.spec_set().spec_slots()[id],
        b.spec_set().spec_slots() == a.spec_set().spec_slots(),
        b.spec_set().spec_caches() == a.spec_set().spec_caches().update(id, b.spec_set().spec_caches()[id]),
        a.spec_set().spec_caches().len() == MAX_CACHES,
        b.spec_direct() == a.spec_direct(),
        !grown ==> slab_pages(b.spec_set().spec_caches()[id]) == slab_pages(a.spec_set().spec_caches()[id])
            && h1 == h0,
        grown ==> slab_pages(b.spec_set().spec_caches()[id]) == slab_pages(a.spec_set().spec_caches()[id]).insert(pg)
            && !h0.contains(pg) && h1 == h0.insert(pg),
    ensures
        heap_accounted(b, h1, rest),
{
    broadcast use vstd::multiset::group_multiset_axioms;
    let sa = a.spec_set();
    let sb = b.spec_set();
    let t = a.spec_direct();
    assert forall|i: int| 0 <= i < MAX_CACHES && i != id implies #[trigger] sb.spec_caches()[i] == sa.spec_caches()[i] by {
    }
    assert forall|p: int| #[trigger] on_slab(sb, p) <==> (on_slab(sa, p) || (grown && p == pg)) by {
        if on_slab(sb, p) {
            let i = choose|i: int| 0 <= i < MAX_CACHES && sb.spec_slots()[i]
                && #[trigger] slab_pages(sb.spec_caches()[i]).count(p) > 0;
            if i != id {
                assert(slab_pages(sa.spec_caches()[i]).count(p) > 0);
            } else if !(grown && p == pg) {
                assert(slab_pages(sa.spec_caches()[id]).count(p) > 0);
            }
        }
        if on_slab(sa, p) {
            let i = choose|i: int| 0 <= i < MAX_CACHES && sa.spec_slots()[i]
                && #[trigger] slab_pages(sa.spec_caches()[i]).count(p) > 0;
            if i != id {
                assert(slab_pages(sb.spec_caches()[i]).count(p) > 0);
            } else {
                assert(slab_pages(sb.spec_caches()[id]).count(p) > 0);
            }
        }
        if grown && p == pg {
            assert(slab_pages(sb.spec_caches()[id]).count(p) > 0);
        }
    }
    if grown {
        assert(!on_slab(sa, pg));
        assert(!in_block(t, pg));
        assert forall|i: int| 0 <= i < MAX_CACHES && sa.spec_slots()[i] implies
            #[trigger] slab_pages(sa.spec_caches()[i]).count(pg) == 0 by {
        }
    }
    assert forall|i: int, p: int| 0 <= i < MAX_CACHES && sb.spec_slots()[i]
        implies #[trigger] slab_pages(sb.spec_caches()[i]).count(p) <= 1 by {
        if i != id {
            assert(sb.spec_caches()[i] == sa.spec_caches()[i]);
        }
    }
    assert forall|i: int, j: int, p: int| 0 <= i < MAX_CACHES && 0 <= j < MAX_CACHES && i != j
        && sb.spec_slots()[i] && sb.spec_slots()[j]
        implies !(#[trigger] slab_pages(sb.spec_caches()[i]).count(p) > 0
            && #[trigger] slab_pages(sb.spec_caches()[j]).count(p) > 0) by {
        if i != id {
            assert(sb.spec_caches()[i] == sa.spec_caches()[i]);
        }
        if j != id {
            assert(sb.spec_caches()[j] == sa.spec_caches()[j]);
        }
        if grown && p == pg {
            if i != id {
                assert(slab_pages(sa.spec_caches()[i]).count(pg) == 0);
            }
            if j != id {
                assert(slab_pages(sa.spec_caches()[j]).count(pg) == 0);
            }
        }
    }
    assert forall|j: int, p: int| 0 <= j < t.len() && t[j].used && #[trigger] entry_block(t[j]).contains(p)
        implies !on_slab(sb, p) by {
        assert(in_block(t, p));
        if grown && p == pg {
            assert(h0.contains(p));
        }
    }
    assert(rest =~= Set::new(|p: int| h1.contains(p) && !on_slab(sb, p) && !in_block(t, p)));
}


/// Replacing the cache in slot `id` by one without the page `pg` it was on,
/// with the ledger shrunk by that page, keeps the account.
proof fn lemma_cache_shrink_account(a: Kmalloc, b: Kmalloc, id: int, pg: int, h0: Set<int>, h1: Set<int>,
    rest: Set<int>)
    requires
        heap_accounted(a, h0, rest),
        0 <= id < MAX_CACHES,
        a.spec_set().spec_slots()[id],
        b.spec_set().spec_slots() == a.spec_set().spec_slots(),
        b.spec_set().spec_caches() == a.spec_set().spec_caches().update(id, b.spec_set().spec_caches()[id]),
        a.spec_set().spec_caches().len() == MAX_CACHES,
        b.spec_direct() == a.spec_direct(),
        slab_pages(a.spec_set().spec_caches()[id]).count(pg) >= 1,
        slab_pages(b.spec_set().spec_caches()[id]) == slab_pages(a.spec_set().spec_caches()[id]).remove(pg),
        h1 == h0.remove(pg),
    ensures
        heap_accounted(b, h1, rest),
{
    broadcast use vstd::multiset::group_multiset_axioms;
    let sa = a.spec_set();
    let sb = b.spec_set();
    let t = a.spec_direct();
    let ca = sa.spec_caches()[id];
    assert(slab_pages(ca).count(pg) == 1);
    assert(on_slab(sa, pg));
    assert(!in_block(t, pg)) by {
        if in_block(t, pg) {
            let j = choose|j: int| 0 <= j < t.len() && t[j].used && #[trigger] entry_block(t[j]).contains(pg);
        }
    }
    assert forall|i: int| 0 <= i < MAX_CACHES && i != id implies #[trigger] sb.spec_caches()[i] == sa.spec_caches()[i] by {
    }
    assert forall|i: int| 0 <= i < MAX_CACHES && i != id && sa.spec_slots()[i] implies
        #[trigger] slab_pages(sa.spec_caches()[i]).count(pg) == 0 by {
    }
    assert forall|p: int| #[trigger] on_slab(sb, p) <==> (on_slab(sa, p) && p != pg) by {
        if on_slab(sb, p) {
            let i = choose|i: int| 0 <= i < MAX_CACHES && sb.spec_slots()[i]
                && #[trigger] slab_pages(sb.spec_caches()[i]).count(p) > 0;
            if i != id {
                assert(slab_pages(sa.spec_caches()[i]).count(p) > 0);
            } else {
                assert(slab_pages(sa.spec_caches()[id]).count(p) > 0);
            }
        }
        if on_slab(sa, p) && p != pg {
            let i = choose|i: int| 0 <= i < MAX_CACHES && sa.spec_slots()[i]
                && #[trigger] slab_pages(sa.spec_caches()[i]).count(p) > 0;
            if i != id {
                assert(slab_pages(sb.spec_caches()[i]).count(p) > 0);
            } else {
                assert(slab_pages(sb.spec_caches()[id]).count(p) > 0);
            }
        }
    }
    assert forall|i: int, p: int| 0 <= i < MAX_CACHES && sb.spec_slots()[i]
        implies #[trigger] slab_pages(sb.spec_caches()[i]).count(p) <= 1 by {
        if i != id {
            assert(sb.spec_caches()[i] == sa.spec_caches()[i]);
        }
    }
    assert forall|i: int, j: int, p: int| 0 <= i < MAX_CACHES && 0 <= j < MAX_CACHES && i != j
        && sb.spec_slots()[i] && sb.spec_slots()[j]
        implies !(#[trigger] slab_pages(sb.spec_caches()[i]).count(p) > 0
            && #[trigger] slab_pages(sb.spec_caches()[j]).count(p) > 0) by {
        if i != id {
            assert(sb.spec_caches()[i] == sa.spec_caches()[i]);
        }
        if j != id {
            assert(sb.spec_caches()[j] == sa.spec_caches()[j]);
        }
    }
    assert forall|j: int, p: int| 0 <= j < t.len() && t[j].used && #[trigger] entry_block(t[j]).contains(p)
        implies !on_slab(sb, p) by {
    }
    assert forall|p: int| #[trigger] on_slab(sb, p) implies h1.contains(p) by {
    }
    assert forall|p: int| #[trigger] in_block(t, p) implies h1.contains(p) by {
        assert(h0.contains(p));
    }
    assert(rest =~= Set::new(|p: int| h1.contains(p) && !on_slab(sb, p) && !in_block(t, p)));
}


/// Recording a live block whose pages the ledger gained, none held before,
/// in a free table entry keeps the account.
proof fn lemma_block_add_account(a: Kmalloc, b: Kmalloc, k: int, e: DirectEntry, h0: Set<int>, h1: Set<int>,
    rest: Set<int>)
    requires
        heap_accounted(a, h0, rest),
        b.spec_set() == a.spec_set(),
        0 <= k < a.spec_direct().len(),
        !a.spec_direct()[k].used,
        e.used,
        b.spec_direct() == a.spec_direct().update(k, e),
        floor_log2(e.pages as nat) < usize::BITS,
        entry_block(e).disjoint(h0),
        h1 == h0 + entry_block(e),
    ensures
        heap_accounted(b, h1, rest),
{
    let set = a.spec_set();
    let ta = a.spec_direct();
    let tb = b.spec_direct();
    let blk = entry_block(e);
    assert forall|p: int| #[trigger] in_block(tb, p) <==> (in_block(ta, p) || blk.contains(p)) by {
        if in_block(tb, p) {
            let j = choose|j: int| 0 <= j < tb.len() && tb[j].used && #[trigger] entry_block(tb[j]).contains(p);
            if j != k {
                assert(entry_block(ta[j]).contains(p));
            }
        }
        if in_block(ta, p) {
            let j = choose|j: int| 0 <= j < ta.len() && ta[j].used && #[trigger] entry_block(ta[j]).contains(p);
            assert(j != k);
            assert(entry_block(tb[j]).contains(p));
        }
        if blk.contains(p) {
            assert(entry_block(tb[k]).contains(p));
        }
    }
    assert forall|x: int, y: int, p: int| 0 <= x < tb.len() && 0 <= y < tb.len() && x != y && tb[x].used && tb[y].used
        implies !(#[trigger] entry_block(tb[x]).contains(p) && #[trigger] entry_block(tb[y]).contains(p)) by {
        if x == k && entry_block(tb[y]).contains(p) {
            assert(in_block(ta, p));
        }
        if y == k && entry_block(tb[x]).contains(p) {
            assert(in_block(ta, p));
        }
    }
    assert forall|j: int, p: int| 0 <= j < tb.len() && tb[j].used && #[trigger] entry_block(tb[j]).contains(p)
        implies !on_slab(set, p) by {
        if j == k && on_slab(set, p) {
            assert(h0.contains(p));
        }
    }
    assert forall|j: int| 0 <= j < tb.len() && (#[trigger] tb[j]).used implies floor_log2(tb[j].pages as nat) < usize::BITS by {
        if j != k {
            assert(tb[j] == ta[j]);
        }
    }
    assert(rest =~= Set::new(|p: int| h1.contains(p) && !on_slab(set, p) && !in_block(tb, p)));
}

/// Retiring a live table entry, with the ledger shrunk by its block, keeps
/// the account.
proof fn lemma_block_remove_account(a: Kmalloc, b: Kmalloc, k: int, h0: Set<int>, h1: Set<int>, rest: Set<int>)
    requires
        heap_accounted(a, h0, rest),
        b.spec_set() == a.spec_set(),
        0 <= k < a.spec_direct().len(),
        a.spec_direct()[k].used,
        b.spec_direct() == a.spec_direct().update(k, DirectEntry { used: false, ..a.spec_direct()[k] }),
        h1 == h0 - entry_block(a.spec_direct()[k]),
    ensures
        heap_accounted(b, h1, rest),
{
    let set = a.spec_set();
    let ta = a.spec_direct();
    let tb = b.spec_direct();
    let blk = entry_block(ta[k]);
    assert forall|p: int| #[trigger] in_block(tb, p) <==> (in_block(ta, p) && !blk.contains(p)) by {
        if in_block(tb, p) {
            let j = choose|j: int| 0 <= j < tb.len() && tb[j].used && #[trigger] entry_block(tb[j]).contains(p);
            assert(j != k);
            assert(entry_block(ta[j]).contains(p));
        }
        if in_block(ta, p) && !blk.contains(p) {
            let j = choose|j: int| 0 <= j < ta.len() && ta[j].used && #[trigger] entry_block(ta[j]).contains(p);
            assert(j != k);
            assert(entry_block(tb[j]).contains(p));
        }
    }
    assert forall|x: int, y: int, p: int| 0 <= x < tb.len() && 0 <= y < tb.len() && x != y && tb[x].used && tb[y].used
        implies !(#[trigger] entry_block(tb[x]).contains(p) && #[trigger] entry_block(tb[y]).contains(p)) by {
        assert(tb[x] == ta[x] && tb[y] == ta[y]);
    }
    assert forall|j: int, p: int| 0 <= j < tb.len() && tb[j].used && #[trigger] entry_block(tb[j]).contains(p)
        implies !on_slab(set, p) by {
        assert(tb[j] == ta[j]);
    }
    assert forall|j: int| 0 <= j < tb.len() && (#[trigger] tb[j]).used implies floor_log2(tb[j].pages as nat) < usize::BITS by {
        assert(tb[j] == ta[j]);
    }
    assert forall|p: int| #[trigger] on_slab(set, p) implies h1.contains(p) by {
        assert(h0.contains(p));
        if blk.contains(p) {
            assert(entry_block(ta[k]).contains(p));
        }
    }
    assert(rest =~= Set::new(|p: int| h1.contains(p) && !on_slab(set, p) && !in_block(tb, p)));
}


/// Allocation keeps the ledger's account of the heap: where
/// `kmalloc_aligned` took `a` to `b` and moved the provider's ledger from
/// `h0` to `h1`, as its contract states, and `h0` accounted for `a` with
/// `rest` besides, `h1` accounts for `b` with the same `rest`.
pub proof fn lemma_kmalloc_keeps_account(a: Kmalloc, b: Kmalloc, size: usize, align: usize, r: usize, can_page: bool,
    can_block: bool, h0: Set<int>, h1: Set<int>, rest: Set<int>)
    requires
        a.wf(),
        kmalloc_outcome(a, b, size, align, r),
        kmalloc_ledger(a, b, size, align, can_page, can_block, h0, h1, r),
        heap_accounted(a, h0, rest),
    ensures
        heap_accounted(b, h1, rest),
{
    let al: usize = if align == 0 { 1 } else { align };
    let sa = a.spec_set();
    let sb = b.spec_set();
    if size == 0 {
        assert(heap_accounted(b, h1, rest));
    } else if al <= BUCKET_ALIGN && bucket_index(size as nat) is Some {
        let i = bucket_index(size as nat)->0 as usize;
        if !sa.spec_exists(i) {
            assert(heap_accounted(b, h1, rest));
        } else {
            let ca = sa.spec_caches()[i as int];
            let cb = sb.spec_caches()[i as int];
            assert(ca.wf() && ca.spec_valid());
            lemma_allocate_pages(ca, cb, r);
            if ca.spec_per_slab() > 0 && ca.spec_partial().len() == 0 && r != 0 {
                let page = (r - ca.spec_offset()) as usize;
                crate::mm::heap::provider::lemma_single_page_block(page);
                assert(block_pages(page, 0).contains(page as int));
                assert(!h0.contains(page as int));
                assert(h1 =~= h0.insert(page as int));
                lemma_cache_change_account(a, b, i as int, true, page as int, h0, h1, rest);
            } else {
                lemma_cache_change_account(a, b, i as int, false, 0, h0, h1, rest);
            }
        }
    } else {
        if r == 0 {
            assert(heap_accounted(b, h1, rest));
        } else {
            let ta = a.spec_direct();
            let k = first_unused(ta)->0;
            let kk = choose|q: int| 0 <= q < ta.len() && !(#[trigger] ta[q]).used
                && forall|j: int| 0 <= j < q ==> (#[trigger] ta[j]).used;
            assert(0 <= k < ta.len() && !ta[k].used);
            let e = b.spec_direct()[k];
            let o = direct_order(size);
            lemma_floor_log2_pow2(o);
            assert(floor_log2(e.pages as nat) == o);
            if o >= usize::BITS {
                lemma2_to64();
                if o > usize::BITS {
                    vstd::arithmetic::power2::lemma_pow2_strictly_increases(usize::BITS as nat, o);
                }
                assert(pow2(usize::BITS as nat) > usize::MAX);
                assert(false);
            }
            assert(entry_block(e) == block_pages(e.base, o as usize));
            lemma_block_add_account(a, b, k, e, h0, h1, rest);
        }
    }
}


/// Freeing keeps the ledger's account of the heap: where `kfree` took `b`
/// to `c` and moved the provider's ledger from `h1` to `h2`, as its
/// contract states, and `h1` accounted for `b` with `rest` besides, `h2`
/// accounts for `c` with the same `rest`.
pub proof fn lemma_kfree_keeps_account(b: Kmalloc, c: Kmalloc, ptr: usize, ok: bool, h1: Set<int>, h2: Set<int>,
    rest: Set<int>)
    requires
        b.wf(),
        kfree_outcome(b, c, ptr, ok),
        kfree_ledger(b, ptr, h1, h2),
        !ok ==> h2 == h1,
        heap_accounted(b, h1, rest),
    ensures
        heap_accounted(c, h2, rest),
{
    let sb = b.spec_set();
    let page = page_mask(ptr, KERNEL_PAGE_SIZE);
    if ptr == 0 {
        assert(heap_accounted(c, h2, rest));
    } else {
        match page_owner(sb, page) {
            Some(id) => {
                let kk = choose|i: int| 0 <= i < MAX_CACHES && sb.spec_slots()[i] && holds_page(#[trigger] sb.spec_caches()[i], page)
                    && forall|j: int| 0 <= j < i ==> !(sb.spec_slots()[j] && holds_page(#[trigger] sb.spec_caches()[j], page));
                assert(0 <= id < MAX_CACHES && sb.spec_slots()[id]);
                assert(sb.spec_exists(id as usize));
                let cb = sb.spec_caches()[id];
                let cc = c.spec_set().spec_caches()[id];
                assert(cb.wf() && cb.spec_valid());
                lemma_free_pages(cb, cc, ptr, ok);
                if free_returns_page(cb, ptr) {
                    let pg = freed_page(cb, ptr);
                    crate::mm::heap::provider::lemma_single_page_block(pg);
                    assert(on_slab(sb, pg as int));
                    assert(h1.contains(pg as int));
                    assert(h2 =~= h1.remove(pg as int));
                    lemma_cache_shrink_account(b, c, id, pg as int, h1, h2, rest);
                } else {
                    lemma_cache_change_account(b, c, id, false, 0, h1, h2, rest);
                }
            },
            None => match entry_of(b.spec_direct(), ptr) {
                Some(k) => {
                    let t = b.spec_direct();
                    let kk = choose|q: int| 0 <= q < t.len() && (#[trigger] t[q]).used && t[q].start == ptr
                        && forall|j: int| 0 <= j < q ==> !((#[trigger] t[j]).used && t[j].start == ptr);
                    assert(0 <= k < t.len() && t[k].used);
                    let blk = entry_block(t[k]);
                    assert forall|p: int| blk.contains(p) implies #[trigger] h1.contains(p) by {
                        assert(entry_block(t[k]).contains(p));
                        assert(in_block(t, p));
                    }
                    lemma_block_remove_account(b, c, k, h1, h2, rest);
                },
                None => {
                    assert(heap_accounted(c, h2, rest));
                },
            },
        }
    }
}


/// A heap with nothing handed out holds no page, so any ledger accounts
/// for it with everything it holds besides.
pub proof fn lemma_empty_heap_accounted(k: Kmalloc, held: Set<int>)
    requires
        k.wf(),
        k.spec_total() == 0,
    ensures
        heap_accounted(k, held, held),
{
    broadcast use vstd::seq_lib::group_to_multiset_ensures, vstd::multiset::group_multiset_axioms;
    lemma_empty_heap_holds_nothing(k);
    let set = k.spec_set();
    assert forall|i: int| 0 <= i < MAX_CACHES implies #[trigger] slab_pages(set.spec_caches()[i])
        =~= vstd::multiset::Multiset::<int>::empty() by {
        let c = set.spec_caches()[i];
        assert(c.spec_slabs() == 0);
        assert(crate::mm::heap::slub::pages_of(c.spec_partial()) =~= Seq::<int>::empty());
        assert(crate::mm::heap::slub::pages_of(c.spec_full()) =~= Seq::<int>::empty());
    }
    assert forall|p: int| !#[trigger] on_slab(set, p) by {
        if on_slab(set, p) {
            let i = choose|i: int| 0 <= i < MAX_CACHES && set.spec_slots()[i]
                && #[trigger] slab_pages(set.spec_caches()[i]).count(p) > 0;
            assert(slab_pages(set.spec_caches()[i]) =~= vstd::multiset::Multiset::<int>::empty());
        }
    }
    assert forall|p: int| !#[trigger] in_block(k.spec_direct(), p) by {
    }
    assert(held =~= Set::new(|p: int| held.contains(p) && !on_slab(set, p) && !in_block(k.spec_direct(), p)));
}


/// One step of a heap's history with the provider's ledger going from
/// `h0` to `h1`, as the contracts state it: a `kmalloc_aligned` (or
/// `kmalloc`) of some size and alignment, or a `kfree` of some pointer.
pub open spec fn heap_step(a: Kmalloc, b: Kmalloc, h0: Set<int>, h1: Set<int>) -> bool {
    &&& a.wf()
    &&& b.wf()
    &&& {
        ||| exists|size: usize, align: usize, r: usize, can_page: bool, can_block: bool|
            kmalloc_outcome(a, b, size, align, r)
            && #[trigger] kmalloc_ledger(a, b, size, align, can_page, can_block, h0, h1, r)
        ||| exists|ptr: usize, ok: bool| #[trigger] kfree_outcome(a, b, ptr, ok) && kfree_ledger(a, ptr, h0, h1)
            && (!ok ==> h1 == h0)
    }
}

/// Every state of a history of allocations and frees that starts from a
/// heap with nothing handed out is accounted for by the ledger, with what
/// the ledger held at the start besides.
pub proof fn lemma_heap_history_accounted(ks: Seq<Kmalloc>, hs: Seq<Set<int>>)
    requires
        ks.len() >= 1,
        hs.len() == ks.len(),
        ks[0].wf(),
        ks[0].spec_total() == 0,
        forall|i: int| 0 <= i < ks.len() - 1 ==> #[trigger] heap_step(ks[i], ks[i + 1], hs[i], hs[i + 1]),
    ensures
        forall|i: int| 0 <= i < ks.len() ==> #[trigger] heap_accounted(ks[i], hs[i], hs[0]),
    decreases ks.len(),
{
    if ks.len() == 1 {
        lemma_empty_heap_accounted(ks[0], hs[0]);
    } else {
        let n = ks.len() - 1;
        let pk = ks.subrange(0, n);
        let ph = hs.subrange(0, n);
        assert forall|i: int| 0 <= i < pk.len() - 1 implies #[trigger] heap_step(pk[i], pk[i + 1], ph[i], ph[i + 1]) by {
            assert(heap_step(ks[i], ks[i + 1], hs[i], hs[i + 1]));
        }
        lemma_heap_history_accounted(pk, ph);
        assert(heap_accounted(ks[n - 1], hs[n - 1], hs[0])) by {
            assert(pk[n - 1] == ks[n - 1] && ph[n - 1] == hs[n - 1] && ph[0] == hs[0]);
        }
        let j = n - 1;
        assert(heap_step(ks[j], ks[j + 1], hs[j], hs[j + 1]));
        let a = ks[n - 1];
        let b = ks[n];
        assert(heap_step(a, b, hs[n - 1], hs[n]));
        if exists|size: usize, align: usize, r: usize, can_page: bool, can_block: bool|
            kmalloc_outcome(a, b, size, align, r)
            && #[trigger] kmalloc_ledger(a, b, size, align, can_page, can_block, hs[n - 1], hs[n], r) {
            let (size, align, r, cp, cb) = choose|size: usize, align: usize, r: usize, can_page: bool, can_block: bool|
                kmalloc_outcome(a, b, size, align, r)
                && #[trigger] kmalloc_ledger(a, b, size, align, can_page, can_block, hs[n - 1], hs[n], r);
            lemma_kmalloc_keeps_account(a, b, size, align, r, cp, cb, hs[n - 1], hs[n], hs[0]);
        } else {
            let (ptr, ok) = choose|ptr: usize, ok: bool| #[trigger] kfree_outcome(a, b, ptr, ok)
                && kfree_ledger(a, ptr, hs[n - 1], hs[n]) && (!ok ==> hs[n] == hs[n - 1]);
            lemma_kfree_keeps_account(a, b, ptr, ok, hs[n - 1], hs[n], hs[0]);
        }
        assert(heap_accounted(b, hs[n], hs[0]));
        assert forall|i: int| 0 <= i < ks.len() implies #[trigger] heap_accounted(ks[i], hs[i], hs[0]) by {
            if i < n {
                assert(pk[i] == ks[i] && ph[i] == hs[i] && ph[0] == hs[0]);
                assert(heap_accounted(pk[i], ph[i], ph[0]));
            }
        }
    }
}

/// The heap leaks no page: over any history of allocations and frees from
/// a heap with nothing handed out, once nothing is handed out again the
/// provider's ledger holds exactly what it held at the start.
pub proof fn lemma_heap_history_no_leak(ks: Seq<Kmalloc>, hs: Seq<Set<int>>)
    requires
        ks.len() >= 1,
        hs.len() == ks.len(),
        ks[0].wf(),
        ks[0].spec_total() == 0,
        forall|i: int| 0 <= i < ks.len() - 1 ==> #[trigger] heap_step(ks[i], ks[i + 1], hs[i], hs[i + 1]),
        ks.last().wf(),
        ks.last().spec_total() == 0,
    ensures
        hs.last() == hs[0],
{
    lemma_heap_history_accounted(ks, hs);
    assert(heap_accounted(ks[ks.len() - 1], hs[ks.len() - 1], hs[0]));
    lemma_empty_heap_returned_all(ks.last(), hs.last(), hs[0]);
}

} // verus!
