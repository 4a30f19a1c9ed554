use vstd::prelude::*;

use crate::mm::addr::{MemoryRegion, MemoryRegionType, align_up, align_down, align_up_spec, align_down_spec, align_up_fits};
use crate::mm::pmm::zone::ZoneType;

verus! {

/// Largest number of zones.
pub const MAX_ZONES: usize = 8;

/// Upper end of the DMA zone (16 MiB): old ISA devices can only reach
/// memory below it.
pub const DMA_ZONE_LIMIT: u64 = 16777216;

/// Page size used by the physical memory manager.
pub const PMM_PAGE: u64 = 4096;

/// The page-aligned part `[align_up(start), align_down(end))` of a usable,
/// non-empty region, if it holds a whole page.
pub open spec fn page_span(r: MemoryRegion) -> Option<(u64, u64)> {
    if r.ty != MemoryRegionType::Usable || r.start >= r.end {
        None
    } else {
        let s = align_up_spec(r.start, 4096);
        let e = align_down_spec(r.end, 4096);
        if s >= e { None } else { Some((s, e)) }
    }
}

/// Index of the first span of `acc` from `i` on that touches `[s, e]`.
pub open spec fn first_overlap(acc: Seq<(u64, u64)>, s: u64, e: u64, i: nat) -> Option<nat>
    decreases acc.len() - i,
{
    if i >= acc.len() {
        None
    } else if s <= acc[i as int].1 && e >= acc[i as int].0 {
        Some(i)
    } else {
        first_overlap(acc, s, e, i + 1)
    }
}

/// `acc` with `[s, e)` merged into the first span it touches, or appended
/// when it touches none; `None` when a ninth span would be needed.
pub open spec fn merge_span(acc: Seq<(u64, u64)>, s: u64, e: u64) -> Option<Seq<(u64, u64)>> {
    match first_overlap(acc, s, e, 0) {
        Some(i) => {
            let m = acc[i as int];
            Some(acc.update(i as int, (if s < m.0 { s } else { m.0 }, if e > m.1 { e } else { m.1 })))
        },
        None => if acc.len() >= 8 { None } else { Some(acc.push((s, e))) },
    }
}

/// The usable page spans of `regions`, merged in order; `None` when they do
/// not fit in eight spans.
pub open spec fn usable_spans(regions: Seq<MemoryRegion>) -> Option<Seq<(u64, u64)>>
    decreases regions.len(),
{
    if regions.len() == 0 {
        Some(Seq::empty())
    } else {
        match usable_spans(regions.drop_last()) {
            None => None,
            Some(acc) => match page_span(regions.last()) {
                None => Some(acc),
                Some(se) => merge_span(acc, se.0, se.1),
            },
        }
    }
}

/// Whether align_up of every usable, non-empty region's start fits in 64 bits.
pub open spec fn starts_fit(regions: Seq<MemoryRegion>) -> bool {
    forall|i: int| 0 <= i < regions.len() && (#[trigger] regions[i]).ty == MemoryRegionType::Usable
        && regions[i].start < regions[i].end ==> align_up_fits(regions[i].start, 4096)
}

/// A zone to build: type, first page frame number, end page frame number.
pub type ZoneDesc = (ZoneType, u64, u64);

/// The DMA part (below 16 MiB) and the Normal part of the span `[s, e)`.
pub open spec fn zone_parts(s: u64, e: u64) -> Seq<ZoneDesc> {
    let dma_end = if e < DMA_ZONE_LIMIT { e } else { DMA_ZONE_LIMIT };
    let ns = if s > DMA_ZONE_LIMIT { s } else { DMA_ZONE_LIMIT };
    (if s < dma_end { seq![(ZoneType::Dma, s / 4096, dma_end / 4096)] } else { Seq::empty() })
        + (if ns < e { seq![(ZoneType::Normal, ns / 4096, e / 4096)] } else { Seq::empty() })
}

/// The zones of every span, in order.
pub open spec fn zone_descs(spans: Seq<(u64, u64)>) -> Seq<ZoneDesc>
    decreases spans.len(),
{
    if spans.len() == 0 {
        Seq::empty()
    } else {
        zone_descs(spans.drop_last()) + zone_parts(spans.last().0, spans.last().1)
    }
}

/// Sum of the page counts of the first `k` zones.
pub open spec fn pages_before(d: Seq<ZoneDesc>, k: nat) -> nat
    decreases k,
{
    if k == 0 || k > d.len() {
        0
    } else {
        pages_before(d, (k - 1) as nat) + (d[k - 1].2 - d[k - 1].1) as nat
    }
}

fn first_overlap_exec(acc: &Vec<(u64, u64)>, s: u64, e: u64) -> (r: Option<usize>)
    ensures
        r is None <==> first_overlap(acc@, s, e, 0) is None,
        r matches Some(i) ==> first_overlap(acc@, s, e, 0) == Some(i as nat) && i < acc@.len(),
{
    let mut i: usize = 0;
    while i < acc.len()
        invariant
            i <= acc@.len(),
            first_overlap(acc@, s, e, 0) == first_overlap(acc@, s, e, i as nat),
        decreases acc@.len() - i,
    {
        let m = acc[i];
        if s <= m.1 && e >= m.0 {
            return Some(i);
        }
        i = i + 1;
    }
    None
}

/// Merges the usable page spans of `regions` (at most eight); `None` when
/// more would be needed.
pub fn collect_usable(regions: &[MemoryRegion]) -> (r: Option<Vec<(u64, u64)>>)
    requires
        starts_fit(regions@),
    ensures
        usable_spans(regions@) is None ==> r is None,
        usable_spans(regions@) matches Some(sp) ==> r is Some && r->Some_0@ == sp,
{
    let mut acc: Vec<(u64, u64)> = Vec::new();
    let mut i: usize = 0;
    while i < regions.len()
        invariant
            i <= regions@.len(),
            starts_fit(regions@),
            usable_spans(regions@.subrange(0, i as int)) == Some(acc@),
        decreases regions@.len() - i,
    {
        let r = regions[i];
        proof {
            let pre = regions@.subrange(0, i + 1);
            assert(pre.drop_last() =~= regions@.subrange(0, i as int));
            assert(pre.last() == r);
        }
        if r.ty == MemoryRegionType::Usable && !r.is_empty() {
            assert(regions@[i as int] == r);
            let s = align_up(r.start, PMM_PAGE);
            let e = align_down(r.end, PMM_PAGE);
            if s < e {
                match first_overlap_exec(&acc, s, e) {
                    Some(k) => {
                        let m = acc[k];
                        let lo = if s < m.0 { s } else { m.0 };
                        let hi = if e > m.1 { e } else { m.1 };
                        acc.set(k, (lo, hi));
                    },
                    None => {
                        if acc.len() >= MAX_ZONES {
                            proof {
                                lemma_usable_none_stays(regions@, (i + 1) as nat);
                            }
                            return None;
                        }
                        acc.push((s, e));
                    },
                }
            }
        }
        i = i + 1;
    }
    assert(regions@.subrange(0, i as int) =~= regions@);
    Some(acc)
}

proof fn lemma_usable_none_stays(regions: Seq<MemoryRegion>, k: nat)
    requires
        k <= regions.len(),
        usable_spans(regions.subrange(0, k as int)) is None,
    ensures
        usable_spans(regions) is None,
    decreases regions.len() - k,
{
    if k < regions.len() {
        let pre = regions.subrange(0, (k + 1) as int);
        assert(pre.drop_last() =~= regions.subrange(0, k as int));
        lemma_usable_none_stays(regions, k + 1);
    } else {
        assert(regions.subrange(0, k as int) =~= regions);
    }
}

/// The zones (DMA part and Normal part of every span), in order.
pub fn split_zones(spans: &Vec<(u64, u64)>) -> (r: Vec<ZoneDesc>)
    ensures
        r@ == zone_descs(spans@),
{
    let mut out: Vec<ZoneDesc> = Vec::new();
    let mut i: usize = 0;
    while i < spans.len()
        invariant
            i <= spans@.len(),
            out@ == zone_descs(spans@.subrange(0, i as int)),
        decreases spans@.len() - i,
    {
        let (s, e) = spans[i];
        let dma_end = if e < DMA_ZONE_LIMIT { e } else { DMA_ZONE_LIMIT };
        let ghost before = out@;
        if s < dma_end {
            out.push((ZoneType::Dma, s / PMM_PAGE, dma_end / PMM_PAGE));
        }
        let ns = if s > DMA_ZONE_LIMIT { s } else { DMA_ZONE_LIMIT };
        if ns < e {
            out.push((ZoneType::Normal, ns / PMM_PAGE, e / PMM_PAGE));
        }
        proof {
            let pre = spans@.subrange(0, i + 1);
            assert(pre.drop_last() =~= spans@.subrange(0, i as int));
            assert(pre.last() == (s, e));
            assert(out@ =~= before + zone_parts(s, e));
        }
        i = i + 1;
    }
    assert(spans@.subrange(0, i as int) =~= spans@);
    out
}

} // verus!
