use axis_core::mm::pmm::frame::{owner_index, FrameMeta, FrameOwner, FrameSummary};
use axis_core::mm::pmm::numa::{DistanceMatrix, NodePolicy, NumaNode, NumaTopology, MAX_NODES};
use axis_core::mm::pmm::watermark::{PressureCounters, Watermark, WatermarkLevel};
use axis_core::mm::pmm::zone::{GfpFlags, Zone, ZoneType};

#[test]
fn test_thresholds_monotonic() {
    for pages in [1usize, 10, 100, 1024, 32768, 1_000_000] {
        let w = Watermark::new(pages);
        assert!(w.min() >= 1);
        assert!(w.min() <= w.low());
        assert!(w.low() <= w.high());
        assert_eq!(w.total_pages(), pages);
    }
}

#[test]
fn test_scale_factor() {
    let w = Watermark::new(100);
    assert_eq!(w.min(), 1);
    assert_eq!(w.low(), 2);
    assert_eq!(w.high(), 3);
    let w2 = Watermark::new(1280);
    assert_eq!(w2.min(), 10);
    assert_eq!(w2.low(), 20);
    assert_eq!(w2.high(), 30);
}

#[test]
fn test_below_and_level() {
    let w = Watermark::new(1280);
    assert!(w.below(9, WatermarkLevel::Min));
    assert!(!w.below(10, WatermarkLevel::Min));
    assert!(w.below(19, WatermarkLevel::Low));
    assert!(!w.below(20, WatermarkLevel::Low));
    assert!(w.below(29, WatermarkLevel::High));
    assert!(!w.below(30, WatermarkLevel::High));
    assert_eq!(w.level_of(100), WatermarkLevel::High);
    assert_eq!(w.level_of(25), WatermarkLevel::Low);
    assert_eq!(w.level_of(5), WatermarkLevel::Min);
}

#[test]
fn test_pressure_counters() {
    let mut c = PressureCounters::default();
    c.note_alloc();
    c.note_alloc();
    c.note_free();
    c.note_oom();
    c.note_reclaim();
    assert_eq!(c.alloc_requests, 2);
    assert_eq!(c.free_requests, 1);
    assert_eq!(c.oom, 1);
    assert_eq!(c.reclaim_tripped, 1);
}

#[test]
fn watermark_level_names() {
    assert_eq!(WatermarkLevel::Min.as_str(), "min");
    assert_eq!(WatermarkLevel::Low.as_str(), "low");
    assert_eq!(WatermarkLevel::High.as_str(), "high");
}

#[test]
fn test_summarize_counts() {
    let metas = vec![
        FrameMeta::free(),
        FrameMeta::used(FrameOwner::Kernel, 0),
        FrameMeta::used(FrameOwner::Slab, 1),
        FrameMeta::reserved(),
    ];
    let s = FrameSummary::summarize(&metas);
    assert_eq!(s.total, 4);
    assert_eq!(s.free, 1);
    assert_eq!(s.used, 2);
    assert_eq!(s.reserved, 1);
    assert_eq!(s.by_owner[owner_index(FrameOwner::Kernel)], 1);
    assert_eq!(s.by_owner[owner_index(FrameOwner::Slab)], 1);
    assert!(metas[0].is_free());
    assert_eq!(metas[1].owner(), Some(FrameOwner::Kernel));
}

const ALL_ZONES: [usize; 2] = [0, 1];

#[test]
fn test_single_node_uniform() {
    let topo = NumaTopology::single_node(&ALL_ZONES);
    assert_eq!(topo.node_count(), 1);
    assert!(topo.is_uniform());
    let n = topo.node(0).expect("node0");
    assert_eq!(n.id, 0);
    assert!(!n.is_memoryless());
    assert_eq!(n.first_zone(), Some(0));
    let zones: Vec<usize> = n.iter_zones().copied().collect();
    assert_eq!(zones, vec![0, 1]);
    assert_eq!(topo.distances.distance(0, 0), 1);
}

#[test]
fn test_multi_node_topology() {
    let z0: &'static [usize] = &[0];
    let z1: &'static [usize] = &[1];
    let n0 = NumaNode { id: 0, zone_ids: z0 };
    let n1 = NumaNode { id: 1, zone_ids: z1 };
    let mut nodes = [NumaNode { id: 0, zone_ids: &[] }; MAX_NODES];
    nodes[0] = n0;
    nodes[1] = n1;
    let topo = NumaTopology { nodes, count: 2, distances: DistanceMatrix::uniform(2) };
    assert!(!topo.is_uniform());
    assert_eq!(topo.node(1).unwrap().first_zone(), Some(1));
    assert_ne!(topo.distances.distance(0, 1), u8::MAX);
}

#[test]
fn test_policies_exist() {
    let _ = NodePolicy::default();
    let _ = NodePolicy::Local;
    let _ = NodePolicy::Interleave;
    let _ = NodePolicy::Fixed(2);
}

#[test]
fn numa_distance_outside_nodes_is_max() {
    let d = DistanceMatrix::uniform(2);
    assert_eq!(d.distance(2, 0), 255);
    let topo = NumaTopology::single_node(&ALL_ZONES);
    assert_eq!(topo.iter().count(), 1);
}

fn make_zone(ty: ZoneType, start_pfn: usize, pages: usize) -> Zone {
    let mut z = Zone::new(ty, start_pfn, start_pfn + pages);
    z.finalize();
    z
}

#[test]
fn test_alloc_free_roundtrip() {
    let mut z = make_zone(ZoneType::Normal, 100, 64);
    assert_eq!(z.total_pages(), 64);
    assert_eq!(z.free_pages(), 64);
    let pfn = z.alloc_block(0, GfpFlags::none()).expect("alloc");
    assert_eq!(pfn, 100, "应从区域起始页开始分配");
    assert_eq!(z.free_pages(), 63);
    z.free(pfn, 0);
    assert_eq!(z.free_pages(), 64);
    assert_eq!(z.used_pages(), 0);
}

#[test]
fn test_dma_zone_low_address() {
    let mut z = make_zone(ZoneType::Dma, 0, 512);
    let dma_limit = 4096;
    let first = z.alloc_block(3, GfpFlags::dma()).expect("dma alloc");
    assert!(first < dma_limit);
    assert_eq!(z.ty(), ZoneType::Dma);
    assert_eq!(z.ty().name(), "DMA");
}

#[test]
fn test_exhaust_zone() {
    let mut z = make_zone(ZoneType::Normal, 0, 8);
    let mut pfns = vec![];
    while let Some(p) = z.alloc_block(0, GfpFlags::none()) {
        pfns.push(p);
    }
    assert_eq!(pfns.len(), 8);
    assert_eq!(z.alloc_block(1, GfpFlags::none()), None);
    for p in pfns {
        z.free(p, 0);
    }
    assert_eq!(z.free_pages(), 8);
}

#[test]
fn test_watermark_fail_path() {
    let mut z = make_zone(ZoneType::Normal, 0, 1280);
    let mut pfns = vec![];
    while let Some(p) = z.alloc_block(0, GfpFlags::may_reclaim()) {
        pfns.push(p);
    }
    assert!(z.pressure().reclaim_tripped > 0);
    assert!(z.pressure().water_failures > 0);
    for p in pfns {
        z.free(p, 0);
    }
    assert_eq!(z.free_pages(), 1280);
}

#[test]
fn test_reserve_in_zone() {
    let mut z = make_zone(ZoneType::Normal, 0, 64);
    z.reserve(8, 8);
    z.finalize();
    assert_eq!(z.reserved_pages(), 8);
    let mut got = vec![];
    while let Some(p) = z.alloc_block(0, GfpFlags::none()) {
        got.push(p);
    }
    assert_eq!(got.len(), 56);
    for p in got {
        assert!(!(8..16).contains(&p));
    }
}

#[test]
fn zone_below_min_still_allocates() {
    let mut z = make_zone(ZoneType::Normal, 0, 1280);
    let mut n = 0;
    while z.alloc_block(0, GfpFlags::none()).is_some() {
        n += 1;
    }
    // Below min (10 free pages) the zone goes on; only the pressure is counted.
    assert_eq!(n, 1280);
    assert_eq!(z.free_pages(), 0);
    assert_eq!(z.pressure().water_failures, 10);
    assert_eq!(z.pressure().reclaim_tripped, 0);
    assert_eq!(z.pressure().oom, 1);
}

#[test]
fn zone_not_ready_refuses() {
    let mut z = Zone::new(ZoneType::Normal, 0, 16);
    assert!(!z.is_ready());
    assert_eq!(z.alloc_block(0, GfpFlags::none()), None);
    assert_eq!(z.pressure().oom, 1);
}

#[test]
fn gfp_flags_combine() {
    let f = GfpFlags::dma().with(GfpFlags::may_reclaim());
    assert!(f.contains(GfpFlags::dma()));
    assert!(f.contains(GfpFlags::may_reclaim()));
    assert!(!GfpFlags::none().contains(GfpFlags::dma()));
    assert!(GfpFlags::empty().contains(GfpFlags::none()));
}
