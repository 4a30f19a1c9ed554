use axis_core::error::KernelError;
use axis_core::mm::addr::{align_down, align_up, MemoryRegion, MemoryRegionType};
use axis_core::mm::pmm::frame::{FrameOwner, FrameState};
use axis_core::mm::pmm::state::{init_with_regions, layout_within_limits, PmmState};
use axis_core::mm::pmm::zone::{GfpFlags, ZoneType};
use axis_core::mm::pmm::{stats as pmm_stats, PmmStats};
use axis_core::mm::heap::stats as heap_stats;
use axis_core::mm::heap::kmalloc::Kmalloc;
use axis_core::mm::vmm::VmmStats;

const MIB: u64 = 1024 * 1024;

#[test]
fn pmm_init_splits_dma_and_normal() {
    let regions = [
        MemoryRegion::new(0x10_0000, 64 * MIB, MemoryRegionType::Usable),
        MemoryRegion::new(0, 0x10_0000, MemoryRegionType::Reserved),
    ];
    let pm = init_with_regions(&regions).unwrap();
    assert_eq!(pm.zone_count(), 2);
    let zones = pm.zones();
    assert_eq!(zones[0].ty(), ZoneType::Dma);
    assert_eq!(zones[0].start_pfn(), 0x100);
    assert_eq!(zones[0].end_pfn(), 4096);
    assert_eq!(zones[1].ty(), ZoneType::Normal);
    assert_eq!(zones[1].start_pfn(), 4096);
    assert!(zones[1].end_pfn() < 64 * 256);
    assert!(zones.iter().all(|z| z.is_ready()));
    assert_eq!(pm.frames().unwrap().len(), (64 * 256 - 0x100) as usize);
    assert_eq!(pm.frames_base_pfn(), 0x100);
    assert_eq!(pm.topology().node_count(), 1);
}

#[test]
fn pmm_init_errors() {
    let none = [MemoryRegion::new(0, 0x1000, MemoryRegionType::Reserved)];
    assert_eq!(init_with_regions(&none).err(), Some(KernelError::InvalidArgument));
    let tiny = [MemoryRegion::new(0x1000, 0x1800, MemoryRegionType::Usable)];
    assert_eq!(init_with_regions(&tiny).err(), Some(KernelError::InvalidArgument));
    let one_page = [MemoryRegion::new(0x100_0000, 0x100_1000, MemoryRegionType::Usable)];
    assert_eq!(init_with_regions(&one_page).err(), Some(KernelError::OutOfMemory));
}

#[test]
fn pmm_alloc_prefers_kind_and_marks_frames() {
    let regions = [MemoryRegion::new(0x10_0000, 64 * MIB, MemoryRegionType::Usable)];
    let mut pm = init_with_regions(&regions).unwrap();
    let free0 = pm.free_page_count();
    let normal = pm.alloc_pages(0, GfpFlags::none(), FrameOwner::Kernel).unwrap();
    assert!(normal >= 16 * MIB);
    let dma = pm.alloc_pages(1, GfpFlags::dma(), FrameOwner::Device).unwrap();
    assert!(dma < 16 * MIB);
    assert_eq!(dma % 8192, 0);
    assert_eq!(pm.free_page_count(), free0 - 3);
    let idx = (dma / 4096 - 0x100) as usize;
    assert_eq!(pm.frames().unwrap()[idx].state, FrameState::Used(FrameOwner::Device));
    assert_eq!(pm.frames().unwrap()[idx + 1].state, FrameState::Used(FrameOwner::Device));
    pm.dealloc_pages(dma, 1);
    assert_eq!(pm.frames().unwrap()[idx].state, FrameState::Free);
    pm.dealloc_pages(normal, 0);
    assert_eq!(pm.free_page_count(), free0);
    assert_eq!(pm.alloc_page(GfpFlags::none(), FrameOwner::Slab), Some(normal));
}

#[test]
fn pmm_no_zone_of_wanted_kind_gives_none() {
    let regions = [MemoryRegion::new(32 * MIB, 64 * MIB, MemoryRegionType::Usable)];
    let mut pm = init_with_regions(&regions).unwrap();
    assert_eq!(pm.zone_count(), 1);
    assert_eq!(pm.alloc_pages(0, GfpFlags::dma(), FrameOwner::Device), None);
    assert!(pm.alloc_pages(0, GfpFlags::none(), FrameOwner::Device).is_some());
    let empty = PmmState::uninit();
    assert_eq!(empty.zone_count(), 0);
    assert!(empty.frames().is_none());
}

#[test]
fn address_helpers() {
    assert_eq!(align_up(0x1001, 0x1000), 0x2000);
    assert_eq!(align_down(0x1fff, 0x1000), 0x1000);
    let r = MemoryRegion::new(0x3000, 0x1000, MemoryRegionType::Usable);
    assert_eq!(r.start, 0x1000);
    assert_eq!(r.len(), 0x2000);
    assert_eq!(r.page_count(0x1000), 2);
}

#[test]
fn pmm_stats_snapshot() {
    let empty = PmmStats::default();
    assert_eq!(empty.zone_count, 0);
    assert_eq!(empty.zones.len(), 8);
    assert!(empty.zones.iter().all(|z| z.ty == "" && z.total == 0));

    let regions = [MemoryRegion::new(0x10_0000, 64 * MIB, MemoryRegionType::Usable)];
    let mut pm = init_with_regions(&regions).unwrap();
    let p = pm.alloc_pages(2, GfpFlags::none(), FrameOwner::Kernel).unwrap();
    let s = pmm_stats(&pm);
    assert_eq!(s.zone_count, 2);
    assert_eq!(s.total_pages, pm.total_pages());
    assert_eq!(s.free_pages, pm.free_page_count());
    assert_eq!(s.zones[0].ty, "DMA");
    assert_eq!(s.zones[1].ty, "Normal");
    assert_eq!(s.zones[1].used, 4);
    assert_eq!(s.zones[1].allocs, 1);
    assert_eq!(s.used_pages, s.zones[0].used + s.zones[1].used);
    assert_eq!(s.zones[2].total, 0);
    assert_eq!(s.zones[0].level, "high");
    pm.dealloc_pages(p, 2);
    assert_eq!(pmm_stats(&pm).zones[1].frees, 1);
}

#[test]
fn memory_stats_summary() {
    let regions = [MemoryRegion::new(0x10_0000, 64 * MIB, MemoryRegionType::Usable)];
    let pm = init_with_regions(&regions).unwrap();
    let p = pmm_stats(&pm);
    let h = heap_stats(&Kmalloc::uninit());
    let v = VmmStats { page_faults: 7, cow_breaks: 2, demand_pages: 3, swapped_pages: 1, ..VmmStats::default() };
    let m = axis_core::mm::stats(&p, &h, &v);
    assert_eq!(m.total_pages, p.total_pages);
    assert_eq!(m.free_pages, p.free_pages);
    assert_eq!(m.heap_objects, 0);
    assert_eq!(m.page_faults, 7);
    assert_eq!(m.cow_breaks, 2);
    assert_eq!(m.demand_pages, 3);
    assert_eq!(m.swapped_pages, 1);
}

#[test]
fn pmm_zones_end_below_metadata() {
    let regions = [MemoryRegion::new(0x10_0000, 64 * MIB, MemoryRegionType::Usable)];
    let pm = init_with_regions(&regions).unwrap();
    let zones = pm.zones();
    // Top 16384: buddy bookkeeping of 41 + 161 pages, then 8 pages of frame
    // metadata, so the Normal zone stops at page 16174.
    assert_eq!(zones[1].end_pfn(), 16174);
    assert_eq!(zones[0].end_pfn(), 4096);
}

#[test]
fn layout_limits_accept_ordinary_maps() {
    let regions = [
        MemoryRegion::new(0x10_0000, 64 * MIB, MemoryRegionType::Usable),
        MemoryRegion::new(0, 0x10_0000, MemoryRegionType::Reserved),
    ];
    assert!(layout_within_limits(&regions));
    // Seven spans below 16 MiB and one across it: nine zones.
    let mut many: Vec<MemoryRegion> = (0..7u64)
        .map(|i| MemoryRegion::new((1 + 2 * i) * MIB, (2 + 2 * i) * MIB, MemoryRegionType::Usable))
        .collect();
    many.push(MemoryRegion::new(15 * MIB + MIB / 2, 20 * MIB, MemoryRegionType::Usable));
    assert!(!layout_within_limits(&many));
}
