use vstd::prelude::*;

verus! {

/// Standard page size (bytes).
pub const PAGE_SIZE: usize = 4096;

/// Kind of a memory region.
#[derive(Debug, Clone, Copy, PartialEq, Eq, Structural)]
pub enum MemoryRegionType {
    /// Usable memory (may be handed to the buddy system).
    Usable,
    /// Reserved memory (kernel image, MMIO, ACPI tables, ...).
    Reserved,
    /// Device memory (never handed out as ordinary pages).
    Mmio,
}

/// A contiguous memory region `[start, end)`.
#[derive(Debug, Clone, Copy, PartialEq, Eq, Structural)]
pub struct MemoryRegion {
    /// Start physical address.
    pub start: u64,
    /// End physical address (exclusive).
    pub end: u64,
    /// Region kind.
    pub ty: MemoryRegionType,
}

/// `addr` rounded up with the mask `page_size - 1` (the identity for a zero page size).
pub open spec fn align_up_spec(addr: u64, page_size: u64) -> u64 {
    if page_size == 0 {
        addr
    } else {
        ((addr + (page_size - 1)) as u64) & !((page_size - 1) as u64)
    }
}

/// `addr` rounded down with the mask `page_size - 1` (the identity for a zero page size).
pub open spec fn align_down_spec(addr: u64, page_size: u64) -> u64 {
    if page_size == 0 {
        addr
    } else {
        addr & !((page_size - 1) as u64)
    }
}

/// Whether `align_up(addr, page_size)` can be computed without overflow.
pub open spec fn align_up_fits(addr: u64, page_size: u64) -> bool {
    page_size == 0 || addr + (page_size - 1) <= u64::MAX
}

/// Number of whole pages of `page_size` that fit in `[align_up(start), end)`.
pub open spec fn page_count_spec(start: u64, end: u64, page_size: u64) -> u64 {
    let s = align_up_spec(start, page_size);
    if s >= end {
        0
    } else {
        ((end - s) / (page_size as int)) as u64
    }
}

impl MemoryRegion {
    /// Build a region, swapping `start` and `end` when they come in the wrong order.
    pub fn new(start: u64, end: u64, ty: MemoryRegionType) -> (r: Self)
        ensures
            r.start == (if start <= end { start } else { end }),
            r.end == (if start <= end { end } else { start }),
            r.ty == ty,
            r.start <= r.end,
    {
        let (s, e) = if start <= end { (start, end) } else { (end, start) };
        Self { start: s, end: e, ty }
    }

    /// Length in bytes.
    pub fn len(&self) -> (r: u64)
        requires
            self.start <= self.end,
        ensures
            r == self.end - self.start,
    {
        self.end - self.start
    }

    /// Whether the region holds no byte.
    pub fn is_empty(&self) -> (r: bool)
        ensures
            r == (self.start >= self.end),
    {
        self.start >= self.end
    }

    /// Number of whole pages after aligning the start up to `page_size`.
    pub fn page_count(&self, page_size: u64) -> (r: u64)
        requires
            align_up_fits(self.start, page_size),
            page_size != 0 || align_up_spec(self.start, page_size) >= self.end,
        ensures
            r == page_count_spec(self.start, self.end, page_size),
    {
        let s = align_up(self.start, page_size);
        if s >= self.end {
            0
        } else {
            (self.end - s) / page_size
        }
    }

    /// Intersection with another region (empty, `start >= end`, when they do not overlap).
    pub fn intersect(&self, other: &MemoryRegion) -> (r: MemoryRegion)
        ensures
            r.start == (if self.start > other.start { self.start } else { other.start }),
            r.end == (if self.end < other.end { self.end } else { other.end }),
            r.ty == self.ty,
    {
        let start = if self.start > other.start { self.start } else { other.start };
        let end = if self.end < other.end { self.end } else { other.end };
        MemoryRegion { start, end, ty: self.ty }
    }
}

/// Round `addr` up to a multiple of `page_size` (mask form; identity for a zero page size).
pub fn align_up(addr: u64, page_size: u64) -> (r: u64)
    requires
        align_up_fits(addr, page_size),
    ensures
        r == align_up_spec(addr, page_size),
{
    if page_size == 0 {
        return addr;
    }
    let mask = page_size - 1;
    (addr + mask) & !mask
}

/// Round `addr` down to a multiple of `page_size` (mask form; identity for a zero page size).
pub fn align_down(addr: u64, page_size: u64) -> (r: u64)
    ensures
        r == align_down_spec(addr, page_size),
{
    if page_size == 0 {
        return addr;
    }
    addr & !(page_size - 1)
}

/// Page frame number of a physical address.
pub fn phys_to_pfn(addr: u64, page_size: u64) -> (r: u64)
    requires
        page_size != 0,
    ensures
        r == addr / page_size,
{
    addr / page_size
}

/// Physical address of a page frame number.
pub fn pfn_to_phys(pfn: u64, page_size: u64) -> (r: u64)
    requires
        pfn * page_size <= u64::MAX,
    ensures
        r == pfn * page_size,
{
    pfn * page_size
}

/// For a power-of-two page size, `align_up` gives the least multiple of the
/// page size (its low bits are clear) that is not below `addr`, and `align_down` the greatest one not above it.
pub proof fn lemma_align_pow2(addr: u64, shift: u64)
    requires
        shift < 64,
        align_up_fits(addr, 1u64 << shift),
    ensures
        align_up_spec(addr, 1u64 << shift) & (((1u64 << shift) - 1) as u64) == 0,
        addr <= align_up_spec(addr, 1u64 << shift),
        align_up_spec(addr, 1u64 << shift) - addr < (1u64 << shift),
        align_down_spec(addr, 1u64 << shift) & (((1u64 << shift) - 1) as u64) == 0,
        align_down_spec(addr, 1u64 << shift) <= addr,
        addr - align_down_spec(addr, 1u64 << shift) < (1u64 << shift),
{
    let p: u64 = 1u64 << shift;
    assert(p != 0) by (bit_vector)
        requires p == 1u64 << shift, shift < 64;
    let m: u64 = (p - 1) as u64;
    let s: u64 = (addr + m) as u64;
    assert((s & !m) & m == 0 && addr <= (s & !m) && (s & !m) - addr < p) by (bit_vector)
        requires p == 1u64 << shift, shift < 64, m == p - 1, s == addr + m, addr + m <= 0xffff_ffff_ffff_ffffu64;
    assert((addr & !m) & m == 0 && (addr & !m) <= addr && addr - (addr & !m) < p) by (bit_vector)
        requires p == 1u64 << shift, shift < 64, m == p - 1;
}

} // verus!
