use vstd::prelude::*;
use crate::mm::pmm::buddy::{BuddyAllocator, BuddyView, first_nonempty, set_range, split_lists, merge_order, merge_lists};
use crate::mm::pmm::buddy_math::count_true;
use crate::mm::pmm::buddy_spec::{aligned, psz};
use crate::mm::pmm::watermark::{PressureCounters, Watermark, WatermarkLevel, wm_min};

verus! {

/// Kind of memory zone.
#[derive(Debug, Clone, Copy, PartialEq, Eq, Structural)]
pub enum ZoneType {
    /// Below 16 MiB, for ISA DMA.
    Dma,
    /// Ordinary memory.
    Normal,
    /// High memory.
    High,
}

impl ZoneType {
    /// Short name of the zone type.
    pub fn name(self) -> (r: &'static str)
        ensures
            r@ == (match self {
                ZoneType::Dma => "DMA"@,
                ZoneType::Normal => "Normal"@,
                ZoneType::High => "High"@,
            }),
    {
        match self {
            ZoneType::Dma => "DMA",
            ZoneType::Normal => "Normal",
            ZoneType::High => "High",
        }
    }
}

/// Allocation flags (a bit set).
#[derive(Debug, Clone, Copy, PartialEq, Eq, Structural)]
pub struct GfpFlags(pub u8);

impl GfpFlags {
    /// No flag.
    pub fn none() -> (r: Self)
        ensures
            r.0 == 0,
    {
        GfpFlags(0)
    }

    /// Prefer the DMA zone (bit 0).
    pub fn dma() -> (r: Self)
        ensures
            r.0 == 1,
    {
        GfpFlags(1)
    }

    /// Below the `min` watermark, trigger reclaim and go on instead of
    /// failing (bit 1).
    pub fn may_reclaim() -> (r: Self)
        ensures
            r.0 == 2,
    {
        GfpFlags(2)
    }

    /// No flag.
    pub fn empty() -> (r: Self)
        ensures
            r.0 == 0,
    {
        GfpFlags(0)
    }

    /// Union of the two flag sets.
    pub fn with(self, other: Self) -> (r: Self)
        ensures
            r.0 == self.0 | other.0,
    {
        GfpFlags(self.0 | other.0)
    }

    /// Whether every flag of `other` is set.
    pub fn contains(self, other: Self) -> (r: bool)
        ensures
            r == (self.0 & other.0 == other.0),
    {
        self.0 & other.0 == other.0
    }
}

/// A contiguous range of physical pages `[start_pfn, end_pfn)` managed by
/// its own buddy allocator, with watermarks and pressure counters.
pub struct Zone {
    ty: ZoneType,
    start_pfn: usize,
    end_pfn: usize,
    buddy: BuddyAllocator,
    watermark: Watermark,
    pressure: PressureCounters,
    ready: bool,
}

/// Whether every pressure counter can still be incremented.
pub open spec fn counters_room(c: PressureCounters) -> bool {
    &&& c.alloc_requests < u64::MAX
    &&& c.free_requests < u64::MAX
    &&& c.water_failures < u64::MAX
    &&& c.oom < u64::MAX
    &&& c.reclaim_tripped < u64::MAX
}

impl Zone {
    /// Zone type.
    pub closed spec fn spec_ty(&self) -> ZoneType {
        self.ty
    }

    /// First page frame number.
    pub closed spec fn spec_start(&self) -> nat {
        self.start_pfn as nat
    }

    /// One past the last page frame number.
    pub closed spec fn spec_end(&self) -> nat {
        self.end_pfn as nat
    }

    /// State of the zone's buddy allocator (pages relative to the start).
    pub closed spec fn spec_buddy(&self) -> BuddyView {
        self.buddy@
    }

    /// Watermarks.
    pub closed spec fn spec_watermark(&self) -> Watermark {
        self.watermark
    }

    /// Pressure counters.
    pub closed spec fn spec_pressure(&self) -> PressureCounters {
        self.pressure
    }

    /// Whether the zone has been finalized.
    pub closed spec fn spec_ready(&self) -> bool {
        self.ready
    }

    /// Free pages.
    pub open spec fn spec_free(&self) -> nat {
        count_true(self.spec_buddy().free)
    }

    /// The zone's invariant.
    pub closed spec fn wf(&self) -> bool {
        &&& self.buddy.wf()
        &&& self.start_pfn <= self.end_pfn
        &&& self.buddy@.real == self.end_pfn - self.start_pfn
        &&& self.watermark.spec_total() == self.end_pfn - self.start_pfn
        &&& self.watermark.spec_min() == wm_min((self.end_pfn - self.start_pfn) as nat)
        &&& (self.ready ==> self.buddy@.linked)
    }

    /// Whether an allocation of `order` with `flags` succeeds in this state.
    pub open spec fn can_alloc(&self, order: usize, flags: GfpFlags) -> bool {
        let b = self.spec_buddy();
        &&& self.spec_ready()
        &&& order <= b.max
        &&& b.real > 0
        &&& first_nonempty(b.lists, order as nat, b.max) is Some
    }

    /// What the invariant says of the zone's shape.
    pub proof fn lemma_zone_shape(&self)
        requires
            self.wf(),
        ensures
            self.spec_start() <= self.spec_end() <= usize::MAX,
            self.spec_buddy().real == self.spec_end() - self.spec_start(),
            self.spec_buddy().free.len() == self.spec_buddy().real,
            self.spec_buddy().max < usize::BITS,
            self.spec_ready() ==> self.spec_buddy().linked,
    {
        self.buddy.lemma_view_shape();
    }

    /// An empty, unready Normal zone.
    pub fn uninit() -> (r: Self)
        ensures
            r.wf(),
            r.spec_ty() == ZoneType::Normal,
            r.spec_start() == 0,
            r.spec_end() == 0,
            !r.spec_ready(),
            BuddyAllocator::fresh(r.spec_buddy(), 0),
    {
        Zone {
            ty: ZoneType::Normal,
            start_pfn: 0,
            end_pfn: 0,
            buddy: BuddyAllocator::uninit(),
            watermark: Watermark::new(0),
            pressure: PressureCounters::empty(),
            ready: false,
        }
    }

    /// Zone of type `ty` over `[start_pfn, end_pfn)`, every page free, not
    /// ready until `finalize`.
    pub fn new(ty: ZoneType, start_pfn: usize, end_pfn: usize) -> (r: Self)
        requires
            start_pfn <= end_pfn,
            end_pfn - start_pfn <= usize::MAX / 2 + 1,
        ensures
            r.wf(),
            r.spec_ty() == ty,
            r.spec_start() == start_pfn,
            r.spec_end() == end_pfn,
            !r.spec_ready(),
            BuddyAllocator::fresh(r.spec_buddy(), (end_pfn - start_pfn) as nat),
            r.spec_watermark().spec_min() == wm_min((end_pfn - start_pfn) as nat),
            crate::mm::pmm::watermark::counters_zero(r.spec_pressure()),
    {
        let pages = end_pfn - start_pfn;
        Zone {
            ty,
            start_pfn,
            end_pfn,
            buddy: BuddyAllocator::new(pages),
            watermark: Watermark::new(pages),
            pressure: PressureCounters::empty(),
            ready: false,
        }
    }

    /// Reserves `pages` pages from `start_pfn` on, one page at a time. The
    /// free lists are relinked by the next `finalize`.
    pub fn reserve(&mut self, start_pfn: usize, pages: usize)
        requires
            old(self).wf(),
            start_pfn >= old(self).spec_start(),
            start_pfn + pages <= old(self).spec_end(),
            forall|x: int| start_pfn - old(self).spec_start() <= x < start_pfn - old(self).spec_start() + pages
                ==> #[trigger] old(self).spec_buddy().free[x],
            old(self).spec_buddy().reserved + pages <= usize::MAX,
        ensures
            final(self).wf(),
            final(self).spec_ty() == old(self).spec_ty(),
            final(self).spec_start() == old(self).spec_start(),
            final(self).spec_end() == old(self).spec_end(),
            final(self).spec_pressure() == old(self).spec_pressure(),
            final(self).spec_watermark() == old(self).spec_watermark(),
            !final(self).spec_ready() || pages == 0,
            final(self).spec_ready() == (old(self).spec_ready() && pages == 0),
            ({
                let leaf = start_pfn - old(self).spec_start();
                final(self).spec_buddy() == if pages == 0 { old(self).spec_buddy() } else {
                    BuddyView {
                        free: set_range(old(self).spec_buddy().free, leaf, leaf + pages, false),
                        lists: Seq::new(old(self).spec_buddy().max + 1, |o: int| Seq::<usize>::empty()),
                        linked: false,
                        reserved: (old(self).spec_buddy().reserved + pages) as nat,
                        ..old(self).spec_buddy()
                    }
                }
            }),
    {
        let leaf = start_pfn - self.start_pfn;
        let ghost b0 = self.buddy@;
        let mut i: usize = 0;
        while i < pages
            invariant
                self.buddy.wf(),
                self.start_pfn <= self.end_pfn,
                self.start_pfn == old(self).start_pfn,
                self.end_pfn == old(self).end_pfn,
                self.ty == old(self).ty,
                self.watermark == old(self).watermark,
                self.pressure == old(self).pressure,
                self.ready == old(self).ready,
                leaf + pages <= b0.real,
                self.buddy@.real == b0.real,
                b0.reserved + pages <= usize::MAX,
                i <= pages,
                i == 0 ==> self.buddy@ == b0,
                i > 0 ==> self.buddy@ == (BuddyView {
                    free: set_range(b0.free, leaf as int, leaf + i, false),
                    lists: Seq::new(b0.max + 1, |o: int| Seq::<usize>::empty()),
                    linked: false,
                    reserved: (b0.reserved + i) as nat,
                    ..b0
                }),
                forall|x: int| leaf + i <= x < leaf + pages ==> #[trigger] self.buddy@.free[x],
            decreases pages - i,
        {
            proof {
                self.buddy.lemma_view_shape();
                assert(self.buddy@.free[leaf + i]);
                assert(psz(0) == 1) by {
                    vstd::arithmetic::power2::lemma2_to64();
                }
                assert(aligned((leaf + i) as int, 0));
            }
            self.buddy.mark_reserved(0, leaf + i);
            i = i + 1;
            proof {
                assert(self.buddy@.free =~= set_range(b0.free, leaf as int, leaf + i, false));
            }
        }
        if pages > 0 {
            self.ready = false;
        }
    }

    /// Links the free lists; the zone becomes ready.
    pub fn finalize(&mut self)
        requires
            old(self).wf(),
        ensures
            final(self).wf(),
            final(self).spec_ready(),
            final(self).spec_ty() == old(self).spec_ty(),
            final(self).spec_start() == old(self).spec_start(),
            final(self).spec_end() == old(self).spec_end(),
            final(self).spec_pressure() == old(self).spec_pressure(),
            final(self).spec_watermark() == old(self).spec_watermark(),
            final(self).spec_buddy() == (BuddyView {
                lists: crate::mm::pmm::buddy_lists::linked_lists(old(self).spec_buddy().free, old(self).spec_buddy().max),
                linked: true,
                ..old(self).spec_buddy()
            }),
    {
        self.buddy.finalize();
        self.ready = true;
    }

    /// Zone type.
    pub fn ty(&self) -> (r: ZoneType)
        ensures
            r == self.spec_ty(),
    {
        self.ty
    }

    /// First page frame number.
    pub fn start_pfn(&self) -> (r: usize)
        ensures
            r == self.spec_start(),
    {
        self.start_pfn
    }

    /// One past the last page frame number.
    pub fn end_pfn(&self) -> (r: usize)
        ensures
            r == self.spec_end(),
    {
        self.end_pfn
    }

    /// Pages in the zone.
    pub fn total_pages(&self) -> (r: usize)
        requires
            self.wf(),
        ensures
            r == self.spec_end() - self.spec_start(),
    {
        self.end_pfn - self.start_pfn
    }

    /// Free pages.
    pub fn free_pages(&self) -> (r: usize)
        requires
            self.wf(),
        ensures
            r == self.spec_free(),
    {
        self.buddy.free_pages()
    }

    /// Pages counted as allocated.
    pub fn used_pages(&self) -> (r: usize)
        ensures
            r == self.spec_buddy().used,
    {
        self.buddy.used_pages()
    }

    /// Pages reserved.
    pub fn reserved_pages(&self) -> (r: usize)
        ensures
            r == self.spec_buddy().reserved,
    {
        self.buddy.reserved_pages()
    }

    /// Largest order.
    pub fn max_order(&self) -> (r: usize)
        ensures
            r == self.spec_buddy().max,
    {
        self.buddy.max_order()
    }

    /// Watermarks.
    pub fn watermark(&self) -> (r: &Watermark)
        ensures
            *r == self.spec_watermark(),
    {
        &self.watermark
    }

    /// Pressure counters.
    pub fn pressure(&self) -> (r: &PressureCounters)
        ensures
            *r == self.spec_pressure(),
    {
        &self.pressure
    }

    /// Pressure counters, for changing them.
    pub fn pressure_mut(&mut self) -> (r: &mut PressureCounters)
        ensures
            *r == old(self).spec_pressure(),
            final(self).spec_pressure() == *final(r),
            final(self).spec_buddy() == old(self).spec_buddy(),
            final(self).spec_ready() == old(self).spec_ready(),
            final(self).spec_start() == old(self).spec_start(),
            final(self).spec_end() == old(self).spec_end(),
            final(self).spec_ty() == old(self).spec_ty(),
            final(self).spec_watermark() == old(self).spec_watermark(),
            old(self).wf() ==> final(self).wf(),
    {
        &mut self.pressure
    }

    /// Whether the zone is ready.
    pub fn is_ready(&self) -> (r: bool)
        ensures
            r == self.spec_ready(),
    {
        self.ready
    }

    /// Allocates `2^order` pages and returns the first page frame number.
    ///
    /// Fails (and counts an OOM) when the zone is not ready. Below the `min`
    /// watermark the request still goes to the buddy allocator, which is
    /// the best that can be done without background reclaim; the pressure
    /// is only counted: a watermark failure, and with `MAY_RECLAIM` a
    /// reclaim. A buddy failure counts an OOM.
    pub fn alloc_block(&mut self, order: usize, flags: GfpFlags) -> (r: Option<usize>)
        requires
            old(self).wf(),
            counters_room(old(self).spec_pressure()),
        ensures
            final(self).wf(),
            final(self).spec_ty() == old(self).spec_ty(),
            final(self).spec_start() == old(self).spec_start(),
            final(self).spec_end() == old(self).spec_end(),
            final(self).spec_ready() == old(self).spec_ready(),
            final(self).spec_watermark() == old(self).spec_watermark(),
            r is Some <==> old(self).can_alloc(order, flags),
            r is None ==> final(self).spec_buddy() == old(self).spec_buddy(),
            r matches Some(pfn) ==> ({
                let b = old(self).spec_buddy();
                let found = first_nonempty(b.lists, order as nat, b.max)->0;
                let leaf = b.lists[found as int].last();
                &&& pfn == old(self).spec_start() + leaf
                &&& aligned(leaf as int, order as nat)
                &&& leaf + psz(order as nat) <= b.real
                &&& final(self).spec_buddy() == (BuddyView {
                    free: set_range(b.free, leaf as int, leaf + psz(order as nat), false),
                    lists: split_lists(b.lists, leaf as int, found, order as nat),
                    used: (b.used + psz(order as nat)) as nat,
                    ..b
                })
            }),
            ({
                let p = old(self).spec_pressure();
                let q = final(self).spec_pressure();
                let below = old(self).spec_free() < old(self).spec_watermark().spec_min();
                let reclaim = flags.0 & 2 == 2;
                &&& q.free_requests == p.free_requests
                &&& q.alloc_requests == if old(self).spec_ready() { p.alloc_requests + 1 } else { p.alloc_requests as int }
                &&& q.water_failures == if old(self).spec_ready() && below { p.water_failures + 1 } else { p.water_failures as int }
                &&& q.reclaim_tripped == if old(self).spec_ready() && below && reclaim { p.reclaim_tripped + 1 } else { p.reclaim_tripped as int }
                &&& q.oom == if r is None { p.oom + 1 } else { p.oom as int }
            }),
    {
        if !self.ready {
            self.pressure.note_oom();
            return None;
        }
        self.pressure.note_alloc();
        let free = self.buddy.free_pages();
        if self.watermark.below(free, WatermarkLevel::Min) {
            self.pressure.note_water_fail();
            if flags.contains(GfpFlags::may_reclaim()) {
                self.pressure.note_reclaim();
            }
        }
        match self.buddy.alloc_block(order) {
            Some(leaf) => {
                proof {
                    crate::mm::pmm::buddy_spec::lemma_psz_pos(order as nat);
                    old(self).buddy.lemma_view_shape();
                }
                Some(self.start_pfn + leaf)
            },
            None => {
                self.pressure.note_oom();
                None
            },
        }
    }

    /// Returns the `2^order` pages at `pfn`, merging with free buddies.
    pub fn free(&mut self, pfn: usize, order: usize)
        requires
            old(self).wf(),
            old(self).spec_buddy().linked,
            old(self).spec_pressure().free_requests < u64::MAX,
            pfn >= old(self).spec_start(),
            order <= old(self).spec_buddy().max,
            aligned(pfn - old(self).spec_start(), order as nat),
            pfn - old(self).spec_start() + psz(order as nat) <= old(self).spec_buddy().real,
            forall|x: int| pfn - old(self).spec_start() <= x < pfn - old(self).spec_start() + psz(order as nat)
                ==> !#[trigger] old(self).spec_buddy().free[x],
        ensures
            final(self).wf(),
            final(self).spec_ty() == old(self).spec_ty(),
            final(self).spec_start() == old(self).spec_start(),
            final(self).spec_end() == old(self).spec_end(),
            final(self).spec_ready() == old(self).spec_ready(),
            final(self).spec_watermark() == old(self).spec_watermark(),
            final(self).spec_pressure() == (PressureCounters {
                free_requests: (old(self).spec_pressure().free_requests + 1) as u64,
                ..old(self).spec_pressure()
            }),
            ({
                let b = old(self).spec_buddy();
                let leaf = pfn - old(self).spec_start();
                let nf = set_range(b.free, leaf, leaf + psz(order as nat), true);
                let top = merge_order(nf, leaf, order as nat, b.max);
                final(self).spec_buddy() == (BuddyView {
                    free: nf,
                    lists: merge_lists(b.lists, leaf, order as nat, top),
                    used: if b.used >= psz(order as nat) { (b.used - psz(order as nat)) as nat } else { 0 },
                    ..b
                })
            }),
    {
        let leaf = pfn - self.start_pfn;
        self.buddy.free(order, leaf);
        self.pressure.note_free();
    }

    /// Watermark level of the current free page count.
    pub fn level(&self) -> (r: WatermarkLevel)
        requires
            self.wf(),
        ensures
            r == (if self.spec_free() >= self.spec_watermark().spec_high() {
                WatermarkLevel::High
            } else if self.spec_free() >= self.spec_watermark().spec_low() {
                WatermarkLevel::Low
            } else {
                WatermarkLevel::Min
            }),
    {
        self.watermark.level_of(self.buddy.free_pages())
    }
}

} // verus!
