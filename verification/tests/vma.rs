use axis_core::mm::vmm::vma::{Vma, VmaError, VmaFlags, VmaManager, VmaPerm};

fn vma(s: usize, e: usize, write: bool) -> Vma {
    Vma {
        start: s,
        end: e,
        perms: if write { VmaPerm::read_write() } else { VmaPerm::read() },
        flags: VmaFlags::empty(),
    }
}

#[test]
fn test_insert_find() {
    let mut m = VmaManager::new();
    m.insert(vma(0x1000, 0x2000, true)).unwrap();
    m.insert(vma(0x3000, 0x4000, false)).unwrap();
    m.insert(vma(0x2000, 0x3000, false)).unwrap();
    assert_eq!(m.count(), 3);
    assert_eq!(m.find(0x1500).unwrap().start, 0x1000);
    assert_eq!(m.find(0x2500).unwrap().start, 0x2000);
    assert_eq!(m.find(0x3999).unwrap().start, 0x3000);
    assert!(m.find(0x2600).is_some());
    assert_eq!(m.find(0x2600).unwrap().end, 0x3000);
    m.insert(vma(0x5000, 0x6000, false)).unwrap();
    assert_eq!(m.count(), 4);
    assert!(m.find(0x4500).is_none(), "[0x4000,0x5000) 是空洞");
    assert_eq!(m.find(0x5500).unwrap().start, 0x5000);
}

#[test]
fn test_find_at_exact_start() {
    let mut m = VmaManager::new();
    m.insert(vma(0x3000, 0x4000, false)).unwrap();
    m.insert(vma(0x1000, 0x2000, true)).unwrap();
    assert_eq!(m.find(0x1000).unwrap().start, 0x1000);
    assert_eq!(m.find(0x3000).unwrap().start, 0x3000);
    let v = m.find_mut(0x1000).unwrap();
    v.perms = VmaPerm::read_write();
    assert_eq!(m.find(0x1000).unwrap().perms.write, true);
    assert!(m.find(0x2000).is_none());
}

#[test]
fn test_insert_rejects_overlap() {
    let mut m = VmaManager::new();
    m.insert(vma(0x1000, 0x3000, true)).unwrap();
    assert_eq!(m.insert(vma(0x2000, 0x4000, true)).unwrap_err(), VmaError::Overlap);
    assert_eq!(m.insert(vma(0x0000, 0x2000, true)).unwrap_err(), VmaError::Overlap);
    assert_eq!(m.insert(vma(0x1500, 0x2500, true)).unwrap_err(), VmaError::Overlap);
    m.insert(vma(0x3000, 0x4000, false)).unwrap();
    assert_eq!(m.count(), 2);
    assert_eq!(m.insert(vma(0x4000, 0x4000, false)).unwrap_err(), VmaError::Invalid);
}

#[test]
fn test_remove_variants() {
    let mut m = VmaManager::new();
    m.insert(vma(0x1000, 0x5000, true)).unwrap();
    m.remove_range(0x3000, 0x4000);
    assert_eq!(m.count(), 2);
    assert_eq!(m.find(0x2000).unwrap().end, 0x3000);
    assert!(m.find(0x3500).is_none(), "挖掉的部分不应再命中");
    assert_eq!(m.find(0x4500).unwrap().start, 0x4000);
    m.remove_range(0x0000, 0x3000);
    assert_eq!(m.count(), 1);
    assert_eq!(m.get(0).unwrap().start, 0x4000);
    m.remove_range(0x4000, 0x6000);
    assert_eq!(m.count(), 0);
}

#[test]
fn test_remove_middle_split() {
    let mut m = VmaManager::new();
    m.insert(vma(0x1000, 0x5000, true)).unwrap();
    m.remove_range(0x2000, 0x4000);
    assert_eq!(m.count(), 2);
    assert_eq!(m.get(0).unwrap().start, 0x1000);
    assert_eq!(m.get(0).unwrap().end, 0x2000);
    assert_eq!(m.get(1).unwrap().start, 0x4000);
    assert_eq!(m.get(1).unwrap().end, 0x5000);
    m.merge_at(0);
    assert_eq!(m.count(), 2, "有缝隙不得合并");
}

#[test]
fn test_merge_adjacent() {
    let mut m = VmaManager::new();
    m.insert(vma(0x1000, 0x3000, true)).unwrap();
    m.insert(vma(0x3000, 0x5000, true)).unwrap();
    assert_eq!(m.count(), 2);
    m.merge_at(0);
    assert_eq!(m.count(), 1);
    assert_eq!(m.get(0).unwrap().start, 0x1000);
    assert_eq!(m.get(0).unwrap().end, 0x5000);
}

#[test]
fn test_no_merge_across_attrs() {
    let mut m = VmaManager::new();
    m.insert(vma(0x1000, 0x2000, true)).unwrap();
    m.insert(vma(0x2000, 0x3000, false)).unwrap();
    m.merge_at(0);
    m.merge_at(0);
    assert_eq!(m.count(), 2, "权限不同的相邻区域不得合并");
}

#[test]
fn test_find_range_and_usage() {
    let mut m = VmaManager::new();
    m.insert(vma(0x1000, 0x3000, true)).unwrap();
    m.insert(vma(0x5000, 0x9000, true)).unwrap();
    assert_eq!(m.find_range(0x2000, 0x4000).unwrap(), 0);
    assert_eq!(m.find_range(0x4000, 0x5000), None);
    assert_eq!(m.usage_bytes(), 0x2000 + 0x4000);
    assert_eq!(m.count(), 2);
}

#[test]
fn test_stress_random() {
    let mut m = VmaManager::new();
    let mut rng = 0xCAFE_F00Du64;
    let mut rand = move || {
        rng ^= rng << 13;
        rng ^= rng >> 7;
        rng ^= rng << 17;
        rng
    };
    let mut regions: Vec<(usize, usize)> = vec![];
    let mut cursor = 0x1000usize;
    while cursor < 0x100000 {
        let len = 0x1000 + (rand() as usize) % 0x8000;
        regions.push((cursor, cursor + len));
        cursor += len + 0x1000;
    }
    for &(s, e) in &regions {
        m.insert(vma(s, e, true)).unwrap();
    }
    assert_eq!(m.count(), regions.len());
    let mid = regions[regions.len() / 2];
    m.remove_range(mid.0 + 0x1000, mid.1 - 0x1000);
    for w in m.iter().zip(m.iter().skip(1)) {
        assert!(w.0.end <= w.1.start);
    }
}

#[test]
fn vma_merge_chains_both_sides() {
    let mut m = VmaManager::new();
    m.insert(vma(0x1000, 0x2000, true)).unwrap();
    m.insert(vma(0x2000, 0x3000, true)).unwrap();
    m.insert(vma(0x3000, 0x4000, true)).unwrap();
    m.merge_at(1);
    assert_eq!(m.count(), 1);
    assert_eq!(m.get(0).unwrap().start, 0x1000);
    assert_eq!(m.get(0).unwrap().end, 0x4000);
}

#[test]
fn vma_remove_range_leaves_no_area_in_range() {
    let mut m = VmaManager::new();
    m.insert(vma(0x1000, 0x3000, true)).unwrap();
    m.insert(vma(0x4000, 0x8000, false)).unwrap();
    m.remove_range(0x2000, 0x5000);
    for v in m.iter() {
        assert!(!(v.start < 0x5000 && 0x2000 < v.end));
    }
    assert_eq!(m.count(), 2);
    assert_eq!(m.get(0).unwrap().end, 0x2000);
    assert_eq!(m.get(1).unwrap().start, 0x5000);
}
