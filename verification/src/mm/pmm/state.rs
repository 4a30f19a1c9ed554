use vstd::prelude::*;
use crate::error::{KernelError, KernelResult};
use crate::mm::addr::{MemoryRegion, MemoryRegionType, align_up, align_up_spec, align_up_fits};
use crate::mm::pmm::buddy::{BuddyAllocator, BuddyView, needed_bytes_spec};
use crate::mm::pmm::buddy_lists::linked_lists;
use crate::mm::pmm::frame::{FrameMeta, FrameOwner, FrameState};
use crate::mm::pmm::layout::{
    ZoneDesc, collect_usable, split_zones, usable_spans, zone_descs, starts_fit, pages_before,
    MAX_ZONES, PMM_PAGE,
};
use crate::mm::pmm::numa::NumaTopology;
use crate::mm::pmm::zone::{GfpFlags, Zone, ZoneType};

verus! {

/// Bytes of page-frame metadata per page.
pub const FRAME_META_BYTES: u64 = 2;

/// Bytes (page-aligned) of buddy bookkeeping for a zone of `pages` pages.
pub open spec fn arena_len(pages: nat) -> nat {
    align_up_spec(needed_bytes_spec(pages) as u64, 4096) as nat
}

/// Bytes (page-aligned) of frame metadata for `total` pages.
pub open spec fn frames_len(total: nat) -> nat {
    align_up_spec((total * 2) as u64, 4096) as nat
}

/// Pages of zone `d`.
pub open spec fn desc_pages(d: ZoneDesc) -> nat {
    (d.2 - d.1) as nat
}

/// Where the bookkeeping of the first `k` zones ends, carving down from `top`.
pub open spec fn cursor_at(d: Seq<ZoneDesc>, top: int, k: nat) -> int
    decreases k,
{
    if k == 0 || k > d.len() {
        top
    } else {
        cursor_at(d, top, (k - 1) as nat) - arena_len(desc_pages(d[k - 1]))
    }
}

/// End address of zone `d` once capped at the metadata address `limit`.
pub open spec fn capped_addr(d: ZoneDesc, limit: int) -> int {
    let end_addr = d.2 * 4096;
    if end_addr < limit { end_addr } else { limit }
}

/// End page frame number of zone `d` once capped at `limit`.
pub open spec fn capped_end(d: ZoneDesc, limit: int) -> nat {
    (capped_addr(d, limit) / 4096) as nat
}

/// Lowest address of the metadata carved from `top` for zones `d`: the
/// buddy bookkeeping of every zone, then the frame metadata table below it.
pub open spec fn meta_base(d: Seq<ZoneDesc>, top: int) -> int {
    cursor_at(d, top, d.len()) - frames_len(pages_before(d, d.len()))
}

/// Whether the computation for `regions` stays within the machine's
/// integers: addresses fit in `usize`, at most eight zones, bookkeeping
/// sizes fit, and the carving from the top of memory does not run below 0.
pub open spec fn layout_fits(regions: Seq<MemoryRegion>) -> bool {
    &&& starts_fit(regions)
    &&& forall|i: int| 0 <= i < regions.len() && (#[trigger] regions[i]).ty == MemoryRegionType::Usable
        ==> regions[i].end <= usize::MAX
    &&& (match usable_spans(regions) {
        None => true,
        Some(sp) => sp.len() > 0 ==> {
        let d = zone_descs(sp);
        let top = sp.last().1 as int;
        &&& d.len() <= 8
        &&& forall|i: int| 0 <= i < d.len() ==> {
            &&& (#[trigger] d[i]).1 <= d[i].2
            &&& d[i].2 * 4096 <= usize::MAX
            &&& needed_bytes_spec(desc_pages(d[i])) + 4095 <= usize::MAX
            &&& needed_bytes_spec(desc_pages(d[i])) + 4095 <= u64::MAX
            &&& desc_pages(d[i]) <= usize::MAX / 2 + 1
        }
        &&& pages_before(d, d.len()) * 2 + 4095 <= u64::MAX
        &&& pages_before(d, d.len()) <= usize::MAX
        &&& cursor_at(d, top, d.len()) - frames_len(pages_before(d, d.len())) >= 0
        },
    })
}

/// `needed_bytes_spec(pages)`, computed wide enough never to overflow.
fn needed_bytes_wide(pages: usize) -> (r: u128)
    requires
        pages <= usize::MAX / 2 + 1,
    ensures
        r as int == needed_bytes_spec(pages as nat),
        r <= 48 * (usize::MAX as int) + 8,
{
    let t = crate::mm::pmm::buddy_math::next_pow2(pages);
    let max_order = crate::mm::pmm::buddy_math::log2_floor(t);
    proof {
        crate::mm::pmm::buddy_math::lemma_floor_log2_pow2(crate::mm::pmm::buddy_math::ceil_log2(pages as nat));
    }
    let tw = t as u128;
    let mw = max_order as u128;
    2 * tw * 4 + 2 * (2 * tw * 8) + (mw + 1) * 8
}

/// Whether `layout_fits(regions)` holds: what a caller tests before
/// `init_with_regions`.
pub fn layout_within_limits(regions: &[MemoryRegion]) -> (r: bool)
    ensures
        r == layout_fits(regions@),
{
    let mut i: usize = 0;
    while i < regions.len()
        invariant
            i <= regions@.len(),
            forall|j: int| 0 <= j < i && (#[trigger] regions@[j]).ty == MemoryRegionType::Usable
                && regions@[j].start < regions@[j].end ==> align_up_fits(regions@[j].start, 4096),
            forall|j: int| 0 <= j < i && (#[trigger] regions@[j]).ty == MemoryRegionType::Usable
                ==> regions@[j].end <= usize::MAX,
        decreases regions@.len() - i,
    {
        let r = regions[i];
        if r.ty == MemoryRegionType::Usable {
            if r.start < r.end && r.start > u64::MAX - 4095 {
                return false;
            }
            if r.end as u128 > usize::MAX as u128 {
                return false;
            }
        }
        i = i + 1;
    }
    assert(starts_fit(regions@));
    let spans = match collect_usable(regions) {
        Some(s) => s,
        None => return true,
    };
    if spans.len() == 0 {
        return true;
    }
    let ghost sp = spans@;
    let descs = split_zones(&spans);
    let ghost d = descs@;
    let n = descs.len();
    if n > 8 {
        return false;
    }
    let top: u64 = spans[spans.len() - 1].1;
    let ghost topi = top as int;
    let mut k: usize = 0;
    let mut total: u128 = 0;
    let mut cursor: i128 = top as i128;
    while k < n
        invariant
            n == d.len(),
            n <= 8,
            descs@ == d,
            starts_fit(regions@),
            forall|j: int| 0 <= j < regions@.len() && (#[trigger] regions@[j]).ty == MemoryRegionType::Usable
                ==> regions@[j].end <= usize::MAX,
            usable_spans(regions@) == Some(sp),
            sp.len() > 0,
            d == zone_descs(sp),
            topi == sp.last().1 as int,
            k <= n,
            total as int == pages_before(d, k as nat),
            cursor as int == cursor_at(d, topi, k as nat),
            total <= k * (u64::MAX as int),
            topi - k * (u64::MAX as int + 1) <= cursor <= topi,
            0 <= topi <= u64::MAX,
            forall|j: int| 0 <= j < k ==> {
                &&& (#[trigger] d[j]).1 <= d[j].2
                &&& d[j].2 * 4096 <= usize::MAX
                &&& needed_bytes_spec(desc_pages(d[j])) + 4095 <= usize::MAX
                &&& needed_bytes_spec(desc_pages(d[j])) + 4095 <= u64::MAX
                &&& desc_pages(d[j]) <= usize::MAX / 2 + 1
            },
        decreases n - k,
    {
        let (ty, s, e) = descs[k];
        assert(d[k as int] == (ty, s, e));
        if s > e {
            return false;
        }
        if e as u128 * 4096 > usize::MAX as u128 {
            return false;
        }
        let pages_w: u64 = e - s;
        if pages_w as u128 > (usize::MAX / 2 + 1) as u128 {
            return false;
        }
        let pages = pages_w as usize;
        let need = needed_bytes_wide(pages);
        if need + 4095 > usize::MAX as u128 || need + 4095 > u64::MAX as u128 {
            return false;
        }
        let need_al = align_up(need as u64, PMM_PAGE);
        proof {
            assert(arena_len(desc_pages(d[k as int])) == need_al);
        }
        total = total + pages_w as u128;
        cursor = cursor - need_al as i128;
        k = k + 1;
    }
    if total * 2 + 4095 > u64::MAX as u128 || total > usize::MAX as u128 {
        return false;
    }
    let frames_al = align_up((total * 2) as u64, PMM_PAGE);
    assert(frames_al == frames_len(pages_before(d, n as nat)));
    cursor - (frames_al as i128) >= 0
}

/// Physical memory manager: the zones, their positions in the frame
/// metadata table, and the table.
pub struct PmmState {
    zones: Vec<Zone>,
    zone_base: Vec<usize>,
    frames: Option<Vec<FrameMeta>>,
    frames_base_pfn: usize,
    topology: NumaTopology,
    page_size: usize,
}

impl PmmState {
    /// The zones.
    pub closed spec fn spec_zones(&self) -> Seq<Zone> {
        self.zones@
    }

    /// Index of each zone's first frame in the metadata table.
    pub closed spec fn spec_bases(&self) -> Seq<usize> {
        self.zone_base@
    }

    /// The frame metadata table (empty before initialization).
    pub closed spec fn spec_frames(&self) -> Seq<FrameMeta> {
        match self.frames {
            Some(f) => f@,
            None => Seq::empty(),
        }
    }

    /// Whether the metadata table exists.
    pub closed spec fn has_frames(&self) -> bool {
        self.frames is Some
    }

    /// The NUMA topology.
    pub closed spec fn spec_topology(&self) -> NumaTopology {
        self.topology
    }

    /// First page frame number the metadata table describes.
    pub closed spec fn spec_frames_base_pfn(&self) -> usize {
        self.frames_base_pfn
    }

    /// The state's invariant.
    pub closed spec fn wf(&self) -> bool {
        &&& self.page_size == 4096
        &&& self.zones@.len() <= MAX_ZONES
        &&& self.zone_base@.len() == self.zones@.len()
        &&& forall|i: int| 0 <= i < self.zones@.len() ==> (#[trigger] self.zones@[i]).wf()
        &&& forall|i: int| 0 <= i < self.zones@.len() ==> (#[trigger] self.zones@[i]).spec_end() * 4096 <= u64::MAX
        &&& forall|i: int| 0 <= i < self.zones@.len() ==> #[trigger] self.zone_base@[i]
            + self.zones@[i].spec_end() - self.zones@[i].spec_start() <= usize::MAX
    }

    /// No zones, no metadata.
    pub fn uninit() -> (r: Self)
        ensures
            r.wf(),
            r.spec_zones().len() == 0,
            !r.has_frames(),
    {
        let none: &'static [usize] = &[];
        PmmState {
            zones: Vec::new(),
            zone_base: Vec::new(),
            frames: None,
            frames_base_pfn: 0,
            topology: NumaTopology::single_node(none),
            page_size: 4096,
        }
    }

    /// The zones.
    pub fn zones(&self) -> (r: &[Zone])
        ensures
            r@ == self.spec_zones(),
    {
        self.zones.as_slice()
    }

    /// The zones, for changing them.
    pub fn zones_mut(&mut self) -> (r: &mut [Zone])
        ensures
            r@ == old(self).spec_zones(),
            final(self).spec_zones() == final(r)@,
            final(self).spec_bases() == old(self).spec_bases(),
            final(self).spec_frames() == old(self).spec_frames(),
    {
        self.zones.as_mut_slice()
    }

    /// The NUMA topology.
    pub fn topology(&self) -> (r: &NumaTopology)
        ensures
            *r == self.spec_topology(),
    {
        &self.topology
    }

    /// The frame metadata table, once initialized.
    pub fn frames(&self) -> (r: Option<&[FrameMeta]>)
        ensures
            r is Some == self.has_frames(),
            r matches Some(f) ==> f@ == self.spec_frames(),
    {
        match &self.frames {
            Some(f) => Some(f.as_slice()),
            None => None,
        }
    }

    /// Number of zones.
    pub fn zone_count(&self) -> (r: usize)
        ensures
            r == self.spec_zones().len(),
    {
        self.zones.len()
    }

    /// First page frame number the metadata table describes.
    pub fn frames_base_pfn(&self) -> (r: usize)
        ensures
            r == self.spec_frames_base_pfn(),
    {
        self.frames_base_pfn
    }
}

/// Sum of the page counts of the first `k` zones of `zs`.
pub open spec fn total_of(zs: Seq<Zone>, k: nat) -> nat
    decreases k,
{
    if k == 0 || k > zs.len() { 0 } else { total_of(zs, (k - 1) as nat) + (zs[k - 1].spec_end() - zs[k - 1].spec_start()) as nat }
}

/// Sum of the free page counts of the first `k` zones of `zs`.
pub open spec fn free_of(zs: Seq<Zone>, k: nat) -> nat
    decreases k,
{
    if k == 0 || k > zs.len() { 0 } else { free_of(zs, (k - 1) as nat) + zs[k - 1].spec_free() }
}

impl PmmState {
    /// Pages of all zones together.
    pub fn total_pages(&self) -> (r: usize)
        requires
            self.wf(),
            total_of(self.spec_zones(), self.spec_zones().len()) <= usize::MAX,
        ensures
            r == total_of(self.spec_zones(), self.spec_zones().len()),
    {
        let mut sum: usize = 0;
        let mut i: usize = 0;
        while i < self.zones.len()
            invariant
                self.wf(),
                i <= self.zones@.len(),
                sum == total_of(self.zones@, i as nat),
                total_of(self.zones@, self.zones@.len()) <= usize::MAX,
            decreases self.zones@.len() - i,
        {
            proof {
                lemma_total_mono(self.zones@, (i + 1) as nat, self.zones@.len());
            }
            sum = sum + self.zones[i].total_pages();
            i = i + 1;
        }
        sum
    }

    /// Free pages of all zones together.
    pub fn free_page_count(&self) -> (r: usize)
        requires
            self.wf(),
            free_of(self.spec_zones(), self.spec_zones().len()) <= usize::MAX,
        ensures
            r == free_of(self.spec_zones(), self.spec_zones().len()),
    {
        let mut sum: usize = 0;
        let mut i: usize = 0;
        while i < self.zones.len()
            invariant
                self.wf(),
                i <= self.zones@.len(),
                sum == free_of(self.zones@, i as nat),
                free_of(self.zones@, self.zones@.len()) <= usize::MAX,
            decreases self.zones@.len() - i,
        {
            proof {
                lemma_free_mono(self.zones@, (i + 1) as nat, self.zones@.len());
            }
            sum = sum + self.zones[i].free_pages();
            i = i + 1;
        }
        sum
    }
}

proof fn lemma_total_mono(zs: Seq<Zone>, a: nat, b: nat)
    requires
        a <= b <= zs.len(),
    ensures
        total_of(zs, a) <= total_of(zs, b),
    decreases b - a,
{
    if a < b {
        lemma_total_mono(zs, a, (b - 1) as nat);
    }
}

proof fn lemma_free_mono(zs: Seq<Zone>, a: nat, b: nat)
    requires
        a <= b <= zs.len(),
    ensures
        free_of(zs, a) <= free_of(zs, b),
    decreases b - a,
{
    if a < b {
        lemma_free_mono(zs, a, (b - 1) as nat);
    }
}

/// Indices below `n` of the zones whose "is DMA" equals `dma`, ascending.
pub open spec fn matching(zs: Seq<Zone>, dma: bool, n: nat) -> Seq<int>
    decreases n,
{
    if n == 0 || n > zs.len() {
        Seq::empty()
    } else {
        let prev = matching(zs, dma, (n - 1) as nat);
        if (zs[n - 1].spec_ty() == ZoneType::Dma) == dma { prev.push(n - 1) } else { prev }
    }
}

/// The zones an allocation tries, in order: those of the wanted kind (DMA
/// or not), then the others; nothing when no zone of the wanted kind exists.
pub open spec fn tried(zs: Seq<Zone>, want_dma: bool) -> Seq<int> {
    let d = matching(zs, want_dma, zs.len());
    if d.len() == 0 { Seq::empty() } else { d + matching(zs, !want_dma, zs.len()) }
}

/// `fr` with the frames `[lo, lo + n)` that exist set to `st`, order 0.
pub open spec fn marked(fr: Seq<FrameMeta>, lo: int, n: int, st: FrameState) -> Seq<FrameMeta> {
    Seq::new(fr.len(), |x: int| if lo <= x < lo + n { FrameMeta { state: st, order: 0 } } else { fr[x] })
}

proof fn lemma_matching(zs: Seq<Zone>, dma: bool, n: nat)
    requires
        n <= zs.len(),
    ensures
        forall|a: int| 0 <= a < matching(zs, dma, n).len() ==> 0 <= #[trigger] matching(zs, dma, n)[a] < n
            && (zs[matching(zs, dma, n)[a]].spec_ty() == ZoneType::Dma) == dma,
        forall|a: int, b: int| 0 <= a < b < matching(zs, dma, n).len() ==> #[trigger] matching(zs, dma, n)[a] < #[trigger] matching(zs, dma, n)[b],
        (exists|i: int| 0 <= i < n && (zs[i].spec_ty() == ZoneType::Dma) == dma) ==> matching(zs, dma, n).len() > 0,
    decreases n,
{
    if n > 0 {
        lemma_matching(zs, dma, (n - 1) as nat);
        if exists|i: int| 0 <= i < n && (zs[i].spec_ty() == ZoneType::Dma) == dma {
            let i = choose|i: int| 0 <= i < n && (zs[i].spec_ty() == ZoneType::Dma) == dma;
            if i < n - 1 {
                assert(exists|i: int| 0 <= i < n - 1 && (zs[i].spec_ty() == ZoneType::Dma) == dma);
            }
        }
    }
}

/// The zones tried by an allocation are distinct.
proof fn lemma_tried_distinct(zs: Seq<Zone>, want: bool)
    ensures
        forall|a: int| 0 <= a < tried(zs, want).len() ==> 0 <= #[trigger] tried(zs, want)[a] < zs.len(),
        forall|a: int, b: int| 0 <= a < b < tried(zs, want).len() ==> #[trigger] tried(zs, want)[a] != #[trigger] tried(zs, want)[b],
{
    let n = zs.len();
    lemma_matching(zs, want, n);
    lemma_matching(zs, !want, n);
    let d = matching(zs, want, n);
    let o = matching(zs, !want, n);
    if d.len() > 0 {
        let t = d + o;
        assert forall|a: int, b: int| 0 <= a < b < t.len() implies #[trigger] t[a] != #[trigger] t[b] by {
            if b < d.len() {
                assert(d[a] < d[b]);
            } else if a >= d.len() {
                assert(o[a - d.len()] < o[b - d.len()]);
            } else {
                assert((zs[d[a]].spec_ty() == ZoneType::Dma) == want);
                assert((zs[o[b - d.len()]].spec_ty() == ZoneType::Dma) == !want);
            }
        }
    }
}

/// What a successful allocation in zone `i` of `order` does: `addr` is the
/// first page of the block the zone's buddy hands out, and the block's
/// frames are marked in use by `owner`.
pub open spec fn alloc_effect(old: PmmState, new: PmmState, i: int, order: usize, owner: FrameOwner, addr: u64) -> bool {
    let z = old.spec_zones()[i];
    let b = z.spec_buddy();
    let found = crate::mm::pmm::buddy::first_nonempty(b.lists, order as nat, b.max)->0;
    let leaf = b.lists[found as int].last();
    let size = crate::mm::pmm::buddy_spec::psz(order as nat);
    &&& addr == (z.spec_start() + leaf) * 4096
    &&& new.spec_zones()[i].spec_buddy() == (BuddyView {
        free: crate::mm::pmm::buddy::set_range(b.free, leaf as int, leaf + size, false),
        lists: crate::mm::pmm::buddy::split_lists(b.lists, leaf as int, found, order as nat),
        used: (b.used + size) as nat,
        ..b
    })
    &&& new.spec_frames() == marked(old.spec_frames(), old.spec_bases()[i] + leaf, size, FrameState::Used(owner))
}

/// The zone holding page frame `pfn`: the first whose range contains it.
pub open spec fn zone_of_spec(zs: Seq<Zone>, pfn: nat) -> Option<int> {
    if exists|i: int| 0 <= i < zs.len() && zs[i].spec_start() <= pfn && pfn + 1 <= #[trigger] zs[i].spec_end() {
        Some(choose|i: int| 0 <= i < zs.len() && zs[i].spec_start() <= pfn && pfn + 1 <= #[trigger] zs[i].spec_end()
            && forall|j: int| 0 <= j < i ==> !(zs[j].spec_start() <= pfn && pfn + 1 <= #[trigger] zs[j].spec_end()))
    } else {
        None
    }
}

/// Whether the `2^order` pages at `pfn` form an allocated block of zone `z`.
pub open spec fn block_in_use(z: Zone, pfn: nat, order: usize) -> bool {
    let leaf = pfn - z.spec_start();
    let size = crate::mm::pmm::buddy_spec::psz(order as nat);
    &&& z.spec_buddy().linked
    &&& z.spec_pressure().free_requests < u64::MAX
    &&& pfn >= z.spec_start()
    &&& order <= z.spec_buddy().max
    &&& crate::mm::pmm::buddy_spec::aligned(leaf, order as nat)
    &&& leaf + size <= z.spec_buddy().real
    &&& forall|x: int| leaf <= x < leaf + size ==> !#[trigger] z.spec_buddy().free[x]
}

/// Whether every zone's counters can still move.
pub open spec fn all_counters_room(zs: Seq<Zone>) -> bool {
    forall|i: int| 0 <= i < zs.len() ==> crate::mm::pmm::zone::counters_room(#[trigger] zs[i].spec_pressure())
}

/// Zones keep their kind, range, readiness and watermarks.
pub open spec fn same_shape(a: Seq<Zone>, b: Seq<Zone>) -> bool {
    &&& a.len() == b.len()
    &&& forall|i: int| 0 <= i < a.len() ==> {
        &&& (#[trigger] b[i]).wf()
        &&& b[i].spec_ty() == a[i].spec_ty()
        &&& b[i].spec_start() == a[i].spec_start()
        &&& b[i].spec_end() == a[i].spec_end()
        &&& b[i].spec_ready() == a[i].spec_ready()
        &&& b[i].spec_watermark() == a[i].spec_watermark()
    }
}

impl PmmState {
    fn mark_frames(&mut self, zone: usize, pfn: usize, pages: usize, state: FrameState)
        requires
            old(self).wf(),
            zone < old(self).spec_zones().len(),
            old(self).spec_zones()[zone as int].spec_start() <= pfn,
            pfn - old(self).spec_zones()[zone as int].spec_start() + pages
                <= old(self).spec_zones()[zone as int].spec_end() - old(self).spec_zones()[zone as int].spec_start(),
        ensures
            final(self).wf(),
            final(self).spec_zones() == old(self).spec_zones(),
            final(self).spec_bases() == old(self).spec_bases(),
            final(self).has_frames() == old(self).has_frames(),
            final(self).spec_topology() == old(self).spec_topology(),
            final(self).spec_frames_base_pfn() == old(self).spec_frames_base_pfn(),
            final(self).spec_frames() == marked(old(self).spec_frames(),
                old(self).spec_bases()[zone as int] + (pfn - old(self).spec_zones()[zone as int].spec_start()), pages as int, state),
    {
        let base = self.zone_base[zone] + (pfn - self.zones[zone].start_pfn());
        let ghost fr0 = self.spec_frames();
        match &mut self.frames {
            Some(meta) => {
                let mut t: usize = 0;
                while t < pages
                    invariant
                        t <= pages,
                        base + pages <= usize::MAX,
                        meta@.len() == fr0.len(),
                        forall|x: int| 0 <= x < fr0.len() ==> #[trigger] meta@[x] == if base <= x < base + t {
                            FrameMeta { state: state, order: 0 } } else { fr0[x] },
                    decreases pages - t,
                {
                    if base + t < meta.len() {
                        meta.set(base + t, FrameMeta { state, order: 0 });
                    }
                    t = t + 1;
                }
                assert(meta@ =~= marked(fr0, base as int, pages as int, state));
            },
            None => {
                assert(fr0 =~= marked(fr0, base as int, pages as int, state));
            },
        }
    }

    /// Allocates `2^order` pages for `owner` and returns the physical
    /// address of the first.
    ///
    /// With the DMA flag the DMA zones are tried first and the others after
    /// them; without it the other way round. No zone is tried when none of
    /// the wanted kind exists. Every zone is tried at most once, in index
    /// order within each kind; the first that can serve the request does.
    pub fn alloc_pages(&mut self, order: usize, flags: GfpFlags, owner: FrameOwner) -> (r: Option<u64>)
        requires
            old(self).wf(),
            all_counters_room(old(self).spec_zones()),
        ensures
            final(self).wf(),
            same_shape(old(self).spec_zones(), final(self).spec_zones()),
            final(self).spec_bases() == old(self).spec_bases(),
            final(self).has_frames() == old(self).has_frames(),
            ({
                let scan = tried(old(self).spec_zones(), flags.0 & 1 == 1);
                let ok = |i: int| old(self).spec_zones()[i].can_alloc(order, flags);
                &&& (r is Some <==> exists|k: int| 0 <= k < scan.len() && ok(#[trigger] scan[k]))
                &&& (r is None ==> final(self).spec_frames() == old(self).spec_frames()
                    && forall|j: int| 0 <= j < old(self).spec_zones().len()
                        ==> (#[trigger] final(self).spec_zones()[j]).spec_buddy() == old(self).spec_zones()[j].spec_buddy())
                &&& (r matches Some(addr) ==> exists|k: int| 0 <= k < scan.len() && ok(#[trigger] scan[k])
                    && (forall|k2: int| 0 <= k2 < k ==> !ok(#[trigger] scan[k2]))
                    && alloc_effect(*old(self), *final(self), scan[k], order, owner, addr)
                    && forall|j: int| 0 <= j < old(self).spec_zones().len() && j != scan[k]
                        ==> (#[trigger] final(self).spec_zones()[j]).spec_buddy() == old(self).spec_zones()[j].spec_buddy())
            }),
    {
        let want_dma = flags.contains(GfpFlags::dma());
        assert((flags.0 & 1 == 1) == want_dma);
        let ghost zs0 = self.zones@;
        let n = self.zones.len();
        // The scan order.
        let mut desired: Vec<usize> = Vec::new();
        let mut others: Vec<usize> = Vec::new();
        let mut i: usize = 0;
        while i < n
            invariant
                n == zs0.len(),
                self.zones@ == zs0,
                i <= n,
                desired@.map_values(|x: usize| x as int) == matching(zs0, want_dma, i as nat),
                others@.map_values(|x: usize| x as int) == matching(zs0, !want_dma, i as nat),
            decreases n - i,
        {
            let is_dma = self.zones[i].ty() == ZoneType::Dma;
            if is_dma == want_dma {
                desired.push(i);
            } else {
                others.push(i);
            }
            i = i + 1;
            assert(desired@.map_values(|x: usize| x as int) =~= matching(zs0, want_dma, i as nat));
            assert(others@.map_values(|x: usize| x as int) =~= matching(zs0, !want_dma, i as nat));
        }
        let ghost scan = tried(zs0, want_dma);
        proof {
            lemma_tried_distinct(zs0, want_dma);
        }
        if desired.len() == 0 {
            assert(scan.len() == 0);
            return None;
        }
        let ghost dseq = matching(zs0, want_dma, n as nat);
        let ghost oseq = matching(zs0, !want_dma, n as nat);
        assert(desired@.len() == dseq.len());
        assert forall|a: int| 0 <= a < dseq.len() implies #[trigger] desired@[a] as int == dseq[a] by {
            assert(desired@.map_values(|x: usize| x as int)[a] == dseq[a]);
        }
        assert forall|a: int| 0 <= a < oseq.len() implies #[trigger] others@[a] as int == oseq[a] by {
            assert(others@.map_values(|x: usize| x as int)[a] == oseq[a]);
        }
        assert(others@.len() == oseq.len());
        let mut order_list: Vec<usize> = desired;
        let mut j: usize = 0;
        let ghost dlen = order_list@.len();
        while j < others.len()
            invariant
                j <= others@.len(),
                others@.len() == oseq.len(),
                dlen == dseq.len(),
                order_list@.len() == dlen + j,
                forall|a: int| 0 <= a < dlen ==> #[trigger] order_list@[a] as int == dseq[a],
                forall|a: int| 0 <= a < j ==> #[trigger] order_list@[dlen + a] as int == oseq[a],
                forall|a: int| 0 <= a < oseq.len() ==> #[trigger] others@[a] as int == oseq[a],
            decreases others@.len() - j,
        {
            order_list.push(others[j]);
            j = j + 1;
        }
        assert(dseq.len() > 0);
        assert(scan =~= dseq + oseq);
        assert forall|a: int| 0 <= a < scan.len() implies order_list@[a] as int == #[trigger] scan[a] by {
            if a < dlen {
                assert(order_list@[a] as int == dseq[a]);
            } else {
                assert(order_list@[dlen + (a - dlen)] as int == oseq[a - dlen]);
            }
        }
        assert(order_list@.map_values(|x: usize| x as int) =~= scan);
        let ghost old_self = *self;
        let mut k: usize = 0;
        while k < order_list.len()
            invariant
                order_list@.map_values(|x: usize| x as int) == scan,
                old_self == *old(self),
                want_dma == (flags.0 & 1 == 1),
                scan == tried(zs0, want_dma),
                zs0 == old_self.spec_zones(),
                old_self.wf(),
                all_counters_room(zs0),
                self.wf(),
                k <= scan.len(),
                forall|a: int| 0 <= a < scan.len() ==> 0 <= #[trigger] scan[a] < zs0.len(),
                forall|a: int, b: int| 0 <= a < b < scan.len() ==> #[trigger] scan[a] != #[trigger] scan[b],
                same_shape(zs0, self.spec_zones()),
                self.spec_bases() == old_self.spec_bases(),
                self.has_frames() == old_self.has_frames(),
                self.spec_frames() == old_self.spec_frames(),
                forall|x: int| 0 <= x < zs0.len() ==> (#[trigger] self.spec_zones()[x]).spec_buddy() == zs0[x].spec_buddy(),
                forall|a: int| k <= a < scan.len() ==> (#[trigger] self.spec_zones()[scan[a]]).spec_pressure()
                    == zs0[scan[a]].spec_pressure(),
                forall|a: int| 0 <= a < k ==> !(#[trigger] zs0[scan[a]]).can_alloc(order, flags),
            decreases scan.len() - k,
        {
            let zi = order_list[k];
            assert(zi as int == scan[k as int]);
            if self.zones[zi].is_ready() {
                let ghost before = self.zones@;
                let res = self.zones[zi].alloc_block(order, flags);
                assert(self.zones@.len() == before.len());
                assert forall|x: int| 0 <= x < zs0.len() && x != zi implies #[trigger] self.zones@[x] == before[x] by {}
                assert(same_shape(zs0, self.spec_zones()));
                assert(self.wf()) by {
                    assert forall|x: int| 0 <= x < self.zones@.len() implies (#[trigger] self.zones@[x]).spec_end() * 4096 <= u64::MAX by {
                        assert(self.zones@[x].spec_end() == zs0[x].spec_end());
                    }
                    assert forall|x: int| 0 <= x < self.zones@.len() implies #[trigger] self.zone_base@[x]
                        + self.zones@[x].spec_end() - self.zones@[x].spec_start() <= usize::MAX by {
                        assert(self.zones@[x].spec_end() == zs0[x].spec_end());
                        assert(self.zones@[x].spec_start() == zs0[x].spec_start());
                    }
                }
                match res {
                    Some(pfn) => {
                        let ghost mid = *self;
                        proof {
                            zs0[zi as int].lemma_zone_shape();
                            crate::mm::pmm::buddy_spec::lemma_psz_pos(order as nat);
                            crate::mm::pmm::buddy_math::lemma_pow2_fits(order as nat);
                        }
                        let pages = crate::mm::pmm::buddy_math::order_pages(order);
                        self.mark_frames(zi, pfn, pages, FrameState::Used(owner));
                        let addr = (pfn as u64) * 4096;
                        proof {
                            assert(alloc_effect(old_self, *self, scan[k as int], order, owner, addr));
                        }
                        return Some(addr);
                    },
                    None => {},
                }
            }
            k = k + 1;
        }
        None
    }
}

impl PmmState {
    fn zone_of(&self, pfn: usize) -> (r: Option<usize>)
        requires
            self.wf(),
        ensures
            r is None <==> zone_of_spec(self.spec_zones(), pfn as nat) is None,
            r matches Some(i) ==> zone_of_spec(self.spec_zones(), pfn as nat) == Some(i as int),
    {
        let ghost zs = self.zones@;
        let mut i: usize = 0;
        while i < self.zones.len()
            invariant
                self.wf(),
                zs == self.zones@,
                i <= zs.len(),
                forall|j: int| 0 <= j < i ==> !(zs[j].spec_start() <= pfn && pfn + 1 <= #[trigger] zs[j].spec_end()),
            decreases zs.len() - i,
        {
            let start = self.zones[i].start_pfn();
            let end = self.zones[i].end_pfn();
            if pfn >= start && pfn < end {
                proof {
                    assert(zs[i as int].spec_start() <= pfn && pfn + 1 <= zs[i as int].spec_end());
                    let c = choose|c: int| 0 <= c < zs.len() && zs[c].spec_start() <= pfn && pfn + 1 <= #[trigger] zs[c].spec_end()
                        && forall|j: int| 0 <= j < c ==> !(zs[j].spec_start() <= pfn && pfn + 1 <= #[trigger] zs[j].spec_end());
                    if c < i {
                    } else if c > i {
                        assert(!(zs[i as int].spec_start() <= pfn && pfn + 1 <= zs[i as int].spec_end()));
                    }
                }
                return Some(i);
            }
            i = i + 1;
        }
        None
    }

    /// Returns the `2^order` pages at physical address `phys`: the zone
    /// holding the page takes the block back (merging it with free
    /// buddies) and its frames are marked free. An address outside every
    /// zone is ignored.
    pub fn dealloc_pages(&mut self, phys: u64, order: usize)
        requires
            old(self).wf(),
            phys / 4096 <= usize::MAX,
            zone_of_spec(old(self).spec_zones(), (phys / 4096) as nat) matches Some(i)
                ==> block_in_use(old(self).spec_zones()[i], (phys / 4096) as nat, order),
        ensures
            final(self).wf(),
            same_shape(old(self).spec_zones(), final(self).spec_zones()),
            final(self).spec_bases() == old(self).spec_bases(),
            final(self).has_frames() == old(self).has_frames(),
            ({
                let pfn = (phys / 4096) as nat;
                match zone_of_spec(old(self).spec_zones(), pfn) {
                    None => final(self).spec_zones() == old(self).spec_zones()
                        && final(self).spec_frames() == old(self).spec_frames(),
                    Some(i) => {
                        let z = old(self).spec_zones()[i];
                        let b = z.spec_buddy();
                        let leaf = pfn - z.spec_start();
                        let size = crate::mm::pmm::buddy_spec::psz(order as nat);
                        let nf = crate::mm::pmm::buddy::set_range(b.free, leaf, leaf + size, true);
                        let top = crate::mm::pmm::buddy::merge_order(nf, leaf, order as nat, b.max);
                        &&& final(self).spec_zones()[i].spec_buddy() == (BuddyView {
                            free: nf,
                            lists: crate::mm::pmm::buddy::merge_lists(b.lists, leaf, order as nat, top),
                            used: if b.used >= size { (b.used - size) as nat } else { 0 },
                            ..b
                        })
                        &&& forall|j: int| 0 <= j < old(self).spec_zones().len() && j != i
                            ==> #[trigger] final(self).spec_zones()[j] == old(self).spec_zones()[j]
                        &&& final(self).spec_frames() == marked(old(self).spec_frames(), old(self).spec_bases()[i] + leaf,
                            size, FrameState::Free)
                    },
                }
            }),
    {
        let pfn = (phys / 4096) as usize;
        match self.zone_of(pfn) {
            Some(i) => {
                let ghost before = self.zones@;
                proof {
                    before[i as int].lemma_zone_shape();
                    crate::mm::pmm::buddy_math::lemma_pow2_fits(order as nat);
                }
                self.zones[i].free(pfn, order);
                assert forall|x: int| 0 <= x < before.len() && x != i implies #[trigger] self.zones@[x] == before[x] by {}
                assert(same_shape(before, self.spec_zones()));
                assert(self.wf()) by {
                    assert forall|x: int| 0 <= x < self.zones@.len() implies (#[trigger] self.zones@[x]).spec_end() * 4096 <= u64::MAX by {
                        assert(self.zones@[x].spec_end() == before[x].spec_end());
                    }
                    assert forall|x: int| 0 <= x < self.zones@.len() implies #[trigger] self.zone_base@[x]
                        + self.zones@[x].spec_end() - self.zones@[x].spec_start() <= usize::MAX by {
                        assert(self.zones@[x].spec_end() == before[x].spec_end());
                        assert(self.zones@[x].spec_start() == before[x].spec_start());
                    }
                }
                let pages = crate::mm::pmm::buddy_math::order_pages(order);
                self.mark_frames(i, pfn, pages, FrameState::Free);
            },
            None => {},
        }
    }

    /// Allocates one page (order 0).
    pub fn alloc_page(&mut self, flags: GfpFlags, owner: FrameOwner) -> (r: Option<u64>)
        requires
            old(self).wf(),
            all_counters_room(old(self).spec_zones()),
        ensures
            final(self).wf(),
            same_shape(old(self).spec_zones(), final(self).spec_zones()),
            final(self).spec_bases() == old(self).spec_bases(),
            final(self).has_frames() == old(self).has_frames(),
            ({
                let scan = tried(old(self).spec_zones(), flags.0 & 1 == 1);
                let ok = |i: int| old(self).spec_zones()[i].can_alloc(0, flags);
                &&& (r is Some <==> exists|k: int| 0 <= k < scan.len() && ok(#[trigger] scan[k]))
                &&& (r is None ==> final(self).spec_frames() == old(self).spec_frames()
                    && forall|j: int| 0 <= j < old(self).spec_zones().len()
                        ==> (#[trigger] final(self).spec_zones()[j]).spec_buddy() == old(self).spec_zones()[j].spec_buddy())
                &&& (r matches Some(addr) ==> exists|k: int| 0 <= k < scan.len() && ok(#[trigger] scan[k])
                    && (forall|k2: int| 0 <= k2 < k ==> !ok(#[trigger] scan[k2]))
                    && alloc_effect(*old(self), *final(self), scan[k], 0, owner, addr)
                    && forall|j: int| 0 <= j < old(self).spec_zones().len() && j != scan[k]
                        ==> (#[trigger] final(self).spec_zones()[j]).spec_buddy() == old(self).spec_zones()[j].spec_buddy())
            }),
    {
        self.alloc_pages(0, flags, owner)
    }
}

/// Sum of the capped page counts of the first `k` zones.
pub open spec fn capped_before(d: Seq<ZoneDesc>, limit: int, k: nat) -> nat
    decreases k,
{
    if k == 0 || k > d.len() {
        0
    } else {
        capped_before(d, limit, (k - 1) as nat) + (capped_end(d[k - 1], limit) - d[k - 1].1) as nat
    }
}

/// Whether zone `z` is the finalized zone of type `ty` over
/// `[start, end)`, every page free and linked, no counter moved.
pub open spec fn zone_built(z: Zone, ty: ZoneType, start: nat, end: nat) -> bool {
    let pages = (end - start) as nat;
    let free = Seq::new(pages, |x: int| true);
    let max = crate::mm::pmm::buddy_math::ceil_log2(pages);
    &&& z.wf()
    &&& z.spec_ty() == ty
    &&& z.spec_start() == start
    &&& z.spec_end() == end
    &&& z.spec_ready()
    &&& z.spec_buddy() == (BuddyView { real: pages, max, free, lists: linked_lists(free, max), linked: true, used: 0, reserved: 0 })
    &&& crate::mm::pmm::watermark::counters_zero(z.spec_pressure())
}

proof fn lemma_cursor_mono(d: Seq<ZoneDesc>, top: int, a: nat, b: nat)
    requires
        a <= b <= d.len(),
    ensures
        cursor_at(d, top, b) <= cursor_at(d, top, a),
    decreases b - a,
{
    if a < b {
        lemma_cursor_mono(d, top, a, (b - 1) as nat);
    }
}

proof fn lemma_pages_mono(d: Seq<ZoneDesc>, a: nat, b: nat)
    requires
        a <= b <= d.len(),
    ensures
        pages_before(d, a) <= pages_before(d, b),
    decreases b - a,
{
    if a < b {
        lemma_pages_mono(d, a, (b - 1) as nat);
    }
}

proof fn lemma_capped_le(d: Seq<ZoneDesc>, limit: int, k: nat)
    requires
        k <= d.len(),
        forall|i: int| 0 <= i < d.len() ==> (#[trigger] d[i]).1 <= capped_end(d[i], limit) <= d[i].2,
    ensures
        capped_before(d, limit, k) <= pages_before(d, k),
    decreases k,
{
    if k > 0 {
        lemma_capped_le(d, limit, (k - 1) as nat);
        assert(d[k - 1].1 <= capped_end(d[k - 1], limit) <= d[k - 1].2);
    }
}

/// The outcome of building the physical memory manager for `regions`.
pub open spec fn init_outcome_ok(regions: Seq<MemoryRegion>, st: PmmState) -> bool {
    let sp = usable_spans(regions)->Some_0;
    let d = zone_descs(sp);
    let top = sp.last().1 as int;
    let total = pages_before(d, d.len());
    let fb = meta_base(d, top);
    &&& st.wf()
    &&& st.spec_zones().len() == d.len()
    &&& forall|i: int| 0 <= i < d.len() ==> zone_built(#[trigger] st.spec_zones()[i], d[i].0, d[i].1 as nat,
        capped_end(d[i], fb))
    &&& forall|i: int| 0 <= i < d.len() ==> (#[trigger] st.spec_zones()[i]).spec_end() * 4096 <= fb
    &&& forall|i: int| 0 <= i < d.len() ==> #[trigger] st.spec_bases()[i] == capped_before(d, fb, i as nat)
    &&& st.has_frames()
    &&& st.spec_frames() == Seq::new(total, |x: int| FrameMeta { state: FrameState::Free, order: 0 })
    &&& st.spec_frames_base_pfn() == d[0].1
    &&& st.spec_topology().count == 1
    &&& st.spec_topology().nodes[0].zone_ids@ == Seq::new(d.len(), |i: int| i as usize)
}

/// Builds the physical memory manager from the boot memory map.
///
/// The usable regions are page-aligned and merged (at most eight spans);
/// each span is split at 16 MiB into a DMA and a Normal zone. The buddy
/// bookkeeping of every zone, then the frame metadata table, are carved
/// from the top of the last span downwards; every zone's end is capped at
/// the lowest metadata address, so no zone page lies in the metadata. `InvalidArgument` when there is no usable
/// page or more than eight spans; `OutOfMemory` when the metadata table
/// would reach below the first span or a capped zone would be empty.
pub fn init_with_regions(regions: &[MemoryRegion]) -> (r: KernelResult<PmmState>)
    requires
        layout_fits(regions@),
    ensures
        match usable_spans(regions@) {
            None => r == Err::<PmmState, KernelError>(KernelError::InvalidArgument),
            Some(sp) => {
                let d = zone_descs(sp);
                let top = sp.last().1 as int;
                let total = pages_before(d, d.len());
                let fb = meta_base(d, top);
                if sp.len() == 0 || d.len() == 0 {
                    r == Err::<PmmState, KernelError>(KernelError::InvalidArgument)
                } else if fb < sp[0].0 || (exists|i: int| 0 <= i < d.len()
                    && #[trigger] capped_addr(d[i], fb) <= d[i].1 * 4096) {
                    r == Err::<PmmState, KernelError>(KernelError::OutOfMemory)
                } else {
                    r is Ok && init_outcome_ok(regions@, r->Ok_0)
                }
            },
        },
{
    let spans = match collect_usable(regions) {
        Some(s) => s,
        None => return Err(KernelError::InvalidArgument),
    };
    if spans.len() == 0 {
        return Err(KernelError::InvalidArgument);
    }
    let ghost sp = spans@;
    let descs = split_zones(&spans);
    let n = descs.len();
    if n == 0 {
        return Err(KernelError::InvalidArgument);
    }
    let ghost d = descs@;
    let top: u64 = spans[spans.len() - 1].1;
    let ghost topi = top as int;
    proof {
        lemma_cursor_mono(d, topi, 0, n as nat);
        lemma_pages_mono(d, 0, n as nat);
    }
    // Carve the buddy bookkeeping of every zone from the top down.
    let mut cursor: u64 = top;
    let mut total: u64 = 0;
    let mut i: usize = 0;
    while i < n
        invariant
            n == d.len(),
            descs@ == d,
            layout_fits(regions@),
            usable_spans(regions@) == Some(sp),
            sp.len() > 0,
            d == zone_descs(sp),
            topi == sp.last().1 as int,
            i <= n,
            cursor == cursor_at(d, topi, i as nat),
            total == pages_before(d, i as nat),
            cursor_at(d, topi, n as nat) - frames_len(pages_before(d, n as nat)) >= 0,
        decreases n - i,
    {
        let (ty, s, e) = descs[i];
        let pages: u64 = e - s;
        proof {
            lemma_cursor_mono(d, topi, (i + 1) as nat, n as nat);
            lemma_pages_mono(d, (i + 1) as nat, n as nat);
            assert(d[i as int] == (ty, s, e));
        }
        let need: u64 = BuddyAllocator::needed_bytes(pages as usize) as u64;
        let need_al = align_up(need, PMM_PAGE);
        cursor = cursor - need_al;
        total = total + pages;
        i = i + 1;
    }
    // Then the frame metadata table.
    let frames_al = align_up(total * FRAME_META_BYTES, PMM_PAGE);
    let frames_base = cursor - frames_al;
    if frames_base < spans[0].0 {
        return Err(KernelError::OutOfMemory);
    }
    let ghost fb = frames_base as int;
    assert(fb == meta_base(d, topi));
    // Build every zone, its end capped below the metadata.
    let mut zones: Vec<Zone> = Vec::new();
    let mut bases: Vec<usize> = Vec::new();
    let mut acc: usize = 0;
    let mut k: usize = 0;
    while k < n
        invariant
            n == d.len(),
            n <= 8,
            descs@ == d,
            layout_fits(regions@),
            usable_spans(regions@) == Some(sp),
            sp.len() > 0,
            d == zone_descs(sp),
            topi == sp.last().1 as int,
            total == pages_before(d, n as nat),
            total <= usize::MAX,
            fb == frames_base,
            fb == meta_base(d, topi),
            k <= n,
            zones@.len() == k,
            bases@.len() == k,
            acc == capped_before(d, fb, k as nat),
            acc <= pages_before(d, k as nat),
            forall|j: int| 0 <= j < k ==> d[j].1 * 4096 < #[trigger] capped_addr(d[j], fb),
            forall|j: int| 0 <= j < k ==> d[j].1 <= #[trigger] capped_end(d[j], fb) <= d[j].2,
            forall|j: int| 0 <= j < k ==> zone_built(#[trigger] zones@[j], d[j].0, d[j].1 as nat,
                capped_end(d[j], fb)),
            forall|j: int| 0 <= j < k ==> #[trigger] bases@[j] == capped_before(d, fb, j as nat),
        decreases n - k,
    {
        let (ty, s, e) = descs[k];
        proof {
            assert(d[k as int] == (ty, s, e));
            lemma_pages_mono(d, (k + 1) as nat, n as nat);
        }
        let end_addr: u64 = e * PMM_PAGE;
        let cap: u64 = if end_addr < frames_base { end_addr } else { frames_base };
        if cap <= s * PMM_PAGE {
            proof {
                assert(capped_addr(d[k as int], fb) <= d[k as int].1 * 4096);
            }
            return Err(KernelError::OutOfMemory);
        }
        let capped_ep: u64 = cap / PMM_PAGE;
        let mut z = Zone::new(ty, s as usize, capped_ep as usize);
        z.finalize();
        zones.push(z);
        bases.push(acc);
        acc = acc + (capped_ep - s) as usize;
        k = k + 1;
    }
    proof {
        assert forall|i: int| 0 <= i < d.len() implies !(#[trigger] capped_addr(d[i], fb) <= d[i].1 * 4096) by {
        }
        lemma_capped_le(d, fb, n as nat);
        assert forall|i: int| 0 <= i < n implies #[trigger] bases@[i] + zones@[i].spec_end() - zones@[i].spec_start() <= usize::MAX by {
            lemma_capped_le(d, fb, (i + 1) as nat);
            lemma_pages_mono(d, (i + 1) as nat, n as nat);
        }
    }
    // Frame metadata: every frame free.
    let mut frames: Vec<FrameMeta> = Vec::new();
    let mut f: u64 = 0;
    while f < total
        invariant
            total <= usize::MAX,
            f <= total,
            frames@ == Seq::new(f as nat, |x: int| FrameMeta { state: FrameState::Free, order: 0 }),
        decreases total - f,
    {
        frames.push(FrameMeta::free());
        f = f + 1;
        assert(frames@ =~= Seq::new(f as nat, |x: int| FrameMeta { state: FrameState::Free, order: 0 }));
    }
    let ids: &'static [usize] = &[0, 1, 2, 3, 4, 5, 6, 7];
    let zone_ids = vstd::slice::slice_subrange(ids, 0, n);
    let st = PmmState {
        zones,
        zone_base: bases,
        frames: Some(frames),
        frames_base_pfn: descs[0].1 as usize,
        topology: NumaTopology::single_node(zone_ids),
        page_size: 4096,
    };
    proof {
        assert(st.spec_topology().nodes[0].zone_ids@ =~= Seq::new(d.len(), |i: int| i as usize));
    }
    Ok(st)
}

} // verus!

verus! {

/// One zone's figures in a statistics snapshot.
#[derive(Debug, Clone, Copy)]
pub struct ZoneStat {
    /// Zone kind.
    pub ty: &'static str,
    /// First page frame number.
    pub start_pfn: usize,
    /// One past the last page frame number.
    pub end_pfn: usize,
    /// Pages.
    pub total: usize,
    /// Free pages.
    pub free: usize,
    /// Allocated pages.
    pub used: usize,
    /// Reserved pages.
    pub reserved: usize,
    /// Largest order.
    pub max_order: usize,
    /// Watermark level of the free page count.
    pub level: &'static str,
    /// Allocation requests.
    pub allocs: u64,
    /// Frees.
    pub frees: u64,
    /// Requests that failed for want of memory.
    pub oom: u64,
}

/// A statistics snapshot of the physical memory manager.
#[derive(Debug, Clone)]
pub struct PmmStats {
    /// Per zone figures, `MAX_ZONES` entries, those past `zone_count` empty.
    pub zones: Vec<ZoneStat>,
    /// Number of zones.
    pub zone_count: usize,
    /// Pages of all zones.
    pub total_pages: usize,
    /// Free pages of all zones.
    pub free_pages: usize,
    /// Allocated pages of all zones.
    pub used_pages: usize,
    /// Reserved pages of all zones.
    pub reserved_pages: usize,
}

/// The figures of a zone slot that holds no zone.
pub open spec fn empty_zone_stat(s: ZoneStat) -> bool {
    &&& s.ty@ == ""@
    &&& s.level@ == ""@
    &&& s.start_pfn == 0 && s.end_pfn == 0 && s.total == 0 && s.free == 0
    &&& s.used == 0 && s.reserved == 0 && s.max_order == 0
    &&& s.allocs == 0 && s.frees == 0 && s.oom == 0
}

/// The figures that describe zone `z`.
pub open spec fn zone_stat_of(s: ZoneStat, z: Zone) -> bool {
    &&& s.ty@ == (match z.spec_ty() {
        ZoneType::Dma => "DMA"@,
        ZoneType::Normal => "Normal"@,
        ZoneType::High => "High"@,
    })
    &&& s.start_pfn == z.spec_start()
    &&& s.end_pfn == z.spec_end()
    &&& s.total == z.spec_end() - z.spec_start()
    &&& s.free == z.spec_free()
    &&& s.used == z.spec_buddy().used
    &&& s.reserved == z.spec_buddy().reserved
    &&& s.max_order == z.spec_buddy().max
    &&& s.level@ == (if z.spec_free() >= z.spec_watermark().spec_high() {
        "high"@
    } else if z.spec_free() >= z.spec_watermark().spec_low() {
        "low"@
    } else {
        "min"@
    })
    &&& s.allocs == z.spec_pressure().alloc_requests
    &&& s.frees == z.spec_pressure().free_requests
    &&& s.oom == z.spec_pressure().oom
}

/// Allocated pages of the first `k` zones of `zs`.
pub open spec fn used_of(zs: Seq<Zone>, k: nat) -> nat
    decreases k,
{
    if k == 0 || k > zs.len() { 0 } else { used_of(zs, (k - 1) as nat) + zs[k - 1].spec_buddy().used }
}

/// Reserved pages of the first `k` zones of `zs`.
pub open spec fn reserved_of(zs: Seq<Zone>, k: nat) -> nat
    decreases k,
{
    if k == 0 || k > zs.len() { 0 } else { reserved_of(zs, (k - 1) as nat) + zs[k - 1].spec_buddy().reserved }
}

proof fn lemma_used_reserved_mono(zs: Seq<Zone>, a: nat, b: nat)
    requires
        a <= b <= zs.len(),
    ensures
        used_of(zs, a) <= used_of(zs, b),
        reserved_of(zs, a) <= reserved_of(zs, b),
    decreases b - a,
{
    if a < b {
        lemma_used_reserved_mono(zs, a, (b - 1) as nat);
    }
}

/// An empty zone slot.
fn empty_zone_stat_value() -> (r: ZoneStat)
    ensures
        empty_zone_stat(r),
{
    let r = ZoneStat {
        ty: "",
        start_pfn: 0,
        end_pfn: 0,
        total: 0,
        free: 0,
        used: 0,
        reserved: 0,
        max_order: 0,
        level: "",
        allocs: 0,
        frees: 0,
        oom: 0,
    };
    proof {
        reveal_strlit("");
    }
    r
}

impl Default for PmmStats {
    /// No zones: every figure zero.
    fn default() -> (r: Self)
        ensures
            r.zone_count == 0 && r.total_pages == 0 && r.free_pages == 0 && r.used_pages == 0
                && r.reserved_pages == 0,
            r.zones@.len() == MAX_ZONES,
            forall|i: int| 0 <= i < MAX_ZONES ==> empty_zone_stat(#[trigger] r.zones@[i]),
    {
        let mut zones: Vec<ZoneStat> = Vec::new();
        let mut i: usize = 0;
        while i < MAX_ZONES
            invariant
                i <= MAX_ZONES,
                zones@.len() == i,
                forall|k: int| 0 <= k < i ==> empty_zone_stat(#[trigger] zones@[k]),
            decreases MAX_ZONES - i,
        {
            zones.push(empty_zone_stat_value());
            i = i + 1;
        }
        PmmStats { zones, zone_count: 0, total_pages: 0, free_pages: 0, used_pages: 0, reserved_pages: 0 }
    }
}

/// Whether the page counts of `pm` add up within a machine word.
pub open spec fn stats_fit(pm: PmmState) -> bool {
    let zs = pm.spec_zones();
    &&& total_of(zs, zs.len()) <= usize::MAX
    &&& free_of(zs, zs.len()) <= usize::MAX
    &&& used_of(zs, zs.len()) <= usize::MAX
    &&& reserved_of(zs, zs.len()) <= usize::MAX
}

/// A statistics snapshot of `pm`: the zone count, the page totals of all
/// zones, and each zone's figures.
pub fn stats(pm: &PmmState) -> (r: PmmStats)
    requires
        pm.wf(),
        stats_fit(*pm),
    ensures
        r.zone_count == pm.spec_zones().len(),
        r.total_pages == total_of(pm.spec_zones(), pm.spec_zones().len()),
        r.free_pages == free_of(pm.spec_zones(), pm.spec_zones().len()),
        r.used_pages == used_of(pm.spec_zones(), pm.spec_zones().len()),
        r.reserved_pages == reserved_of(pm.spec_zones(), pm.spec_zones().len()),
        r.zones@.len() == MAX_ZONES,
        forall|i: int| 0 <= i < pm.spec_zones().len() ==> zone_stat_of(#[trigger] r.zones@[i], pm.spec_zones()[i]),
        forall|i: int| pm.spec_zones().len() <= i < MAX_ZONES ==> empty_zone_stat(#[trigger] r.zones@[i]),
{
    let mut s = PmmStats::default();
    s.zone_count = pm.zone_count();
    s.total_pages = pm.total_pages();
    s.free_pages = pm.free_page_count();
    let zones = pm.zones();
    let ghost zs = pm.spec_zones();
    let mut i: usize = 0;
    while i < zones.len()
        invariant
            pm.wf(),
            zones@ == zs,
            zs == pm.spec_zones(),
            stats_fit(*pm),
            i <= zs.len(),
            zs.len() <= MAX_ZONES,
            s.zones@.len() == MAX_ZONES,
            s.zone_count == zs.len(),
            s.total_pages == total_of(zs, zs.len()),
            s.free_pages == free_of(zs, zs.len()),
            s.used_pages == used_of(zs, i as nat),
            s.reserved_pages == reserved_of(zs, i as nat),
            forall|k: int| 0 <= k < i ==> zone_stat_of(#[trigger] s.zones@[k], zs[k]),
            forall|k: int| i <= k < MAX_ZONES ==> empty_zone_stat(#[trigger] s.zones@[k]),
        decreases zs.len() - i,
    {
        let z = &zones[i];
        assert(z.wf());
        proof {
            lemma_used_reserved_mono(zs, (i + 1) as nat, zs.len());
        }
        s.used_pages = s.used_pages + z.used_pages();
        s.reserved_pages = s.reserved_pages + z.reserved_pages();
        let p = z.pressure();
        let stat = ZoneStat {
            ty: z.ty().name(),
            start_pfn: z.start_pfn(),
            end_pfn: z.end_pfn(),
            total: z.total_pages(),
            free: z.free_pages(),
            used: z.used_pages(),
            reserved: z.reserved_pages(),
            max_order: z.max_order(),
            level: z.level().as_str(),
            allocs: p.alloc_requests,
            frees: p.free_requests,
            oom: p.oom,
        };
        s.zones.set(i, stat);
        i = i + 1;
    }
    s
}

} // verus!
