use vstd::prelude::*;
use crate::mm::vmm::layout::{USER_BASE, USER_STACK_BOTTOM};
use crate::mm::vmm::page_table::MappingFlags;
use crate::mm::vmm::swap::SwapManager;
use crate::mm::vmm::vma::{Vma, VmaFlags, VmaManager, VmaPerm, areas_ok, insertion_point};

verus! {

/// Page size of the virtual memory manager.
pub const VMM_PAGE: usize = 4096;

/// Page-fault and swap counters.
#[derive(Debug, Clone, Copy, Default)]
pub struct VmmStats {
    /// Faults taken.
    pub page_faults: u64,
    /// Faults resolved.
    pub resolved: u64,
    /// Faults left unresolved.
    pub unresolved: u64,
    /// Copy-on-write breaks.
    pub cow_breaks: u64,
    /// Pages mapped on demand.
    pub demand_pages: u64,
    /// Pages swapped out.
    pub swap_outs: u64,
    /// Pages swapped in.
    pub swap_ins: u64,
    /// Pages out at the moment.
    pub swapped_pages: usize,
}

/// Error of a mapping request.
#[derive(Debug, Clone, Copy, PartialEq, Eq, Structural)]
pub enum MmapError {
    /// No room.
    OutOfMemory,
    /// The range meets an existing area.
    Overlap,
    /// Bad arguments.
    Invalid,
}

/// Outcome of a page fault.
#[derive(Debug, Clone, Copy, PartialEq, Eq, Structural)]
pub enum PageFaultResult {
    /// The access may be retried.
    Resolved,
    /// The access is illegal.
    Unresolved,
}

/// What to do about a page fault.
#[derive(Debug, Clone, Copy, PartialEq, Eq, Structural)]
pub enum FaultAction {
    /// Read the page back from swap and map it with these attributes.
    SwapIn(MappingFlags),
    /// Copy the shared page and map the copy with these attributes.
    BreakCow(MappingFlags),
    /// Map a fresh zeroed page with these attributes.
    DemandMap(MappingFlags),
    /// Nothing can be done.
    Unresolved,
}

/// Page attributes for an area's permissions.
pub open spec fn flags_of(perms: VmaPerm) -> MappingFlags {
    MappingFlags { present: true, writable: perms.write, executable: perms.execute, user: perms.user, cow: false, global: false }
}

/// Page attributes for an area's permissions: present, not copy-on-write,
/// not global.
pub fn perms_to_flags(perms: &VmaPerm) -> (r: MappingFlags)
    ensures
        r == flags_of(*perms),
{
    MappingFlags { present: true, writable: perms.write, executable: perms.execute, user: perms.user, cow: false, global: false }
}

/// Number of pages that `len` bytes span.
pub fn page_count(len: usize) -> (r: usize)
    requires
        len + 4095 <= usize::MAX,
    ensures
        r == (len + 4095) / 4096,
{
    (len + (VMM_PAGE - 1)) / VMM_PAGE
}

/// The first-fit scan over `vs` from `cursor` for `size` bytes below `end_scan`.
pub open spec fn scan_free(vs: Seq<Vma>, k: nat, cursor: int, size: int, end_scan: int) -> Option<int>
    decreases vs.len() - k,
{
    if k >= vs.len() {
        if cursor + size <= end_scan { Some(cursor) } else { None }
    } else {
        let v = vs[k as int];
        if v.start >= cursor + size {
            Some(cursor)
        } else {
            let step = if v.end > v.start + 4096 { v.end as int } else { v.start + 4096 };
            let c = if cursor > step { cursor } else { step };
            if c >= end_scan { None } else { scan_free(vs, k + 1, c, size, end_scan) }
        }
    }
}

/// Where the scan for a mapping of `size` bytes may end: the kernel heap
/// for a hint in the kernel half, the user stack otherwise.
pub open spec fn scan_end(hint: usize, kernel_base: usize, kernel_heap_start: usize) -> int {
    if hint >= kernel_base { kernel_heap_start as int } else { USER_STACK_BOTTOM as int }
}

/// The lowest place, by first fit from `max(hint, USER_BASE)`, for `size`
/// bytes between the areas, below the end of the scan window.
pub fn find_free_range(vmas: &VmaManager, hint: usize, size: usize, kernel_base: usize, kernel_heap_start: usize) -> (r: Option<usize>)
    requires
        vmas.wf(),
        USER_STACK_BOTTOM <= usize::MAX,
        (if hint > USER_BASE { hint as int } else { USER_BASE as int }) + size <= usize::MAX,
        scan_end(hint, kernel_base, kernel_heap_start) + size <= usize::MAX,
        forall|i: int| 0 <= i < vmas@.len() ==> (#[trigger] vmas@[i]).start + 4096 <= usize::MAX,
    ensures
        r == match scan_free(vmas@, 0, if hint > USER_BASE { hint as int } else { USER_BASE as int }, size as int,
            scan_end(hint, kernel_base, kernel_heap_start)) {
            Some(c) => Some(c as usize),
            None => None::<usize>,
        },
{
    let mut cursor: usize = if hint > USER_BASE as usize { hint } else { USER_BASE as usize };
    let end_scan: usize = if hint >= kernel_base { kernel_heap_start } else { USER_STACK_BOTTOM as usize };
    let ghost c0 = cursor as int;
    let mut k: usize = 0;
    while k < vmas.count()
        invariant
            vmas.wf(),
            k <= vmas@.len(),
            end_scan == scan_end(hint, kernel_base, kernel_heap_start),
            c0 == if hint > USER_BASE { hint as int } else { USER_BASE as int },
            end_scan + size <= usize::MAX,
            cursor + size <= usize::MAX,
            forall|i: int| 0 <= i < vmas@.len() ==> (#[trigger] vmas@[i]).start + 4096 <= usize::MAX,
            scan_free(vmas@, 0, c0, size as int, end_scan as int) == scan_free(vmas@, k as nat, cursor as int, size as int, end_scan as int),
        decreases vmas@.len() - k,
    {
        let v = match vmas.get(k) {
            Some(v) => *v,
            None => Vma { start: 0, end: 0, perms: VmaPerm::none(), flags: VmaFlags::empty() },
        };
        assert(v == vmas@[k as int]);
        if v.start >= cursor + size {
            return Some(cursor);
        }
        let step = if v.end > v.start + VMM_PAGE { v.end } else { v.start + VMM_PAGE };
        if step > cursor {
            cursor = step;
        }
        if cursor >= end_scan {
            return None;
        }
        k = k + 1;
    }
    if cursor + size <= end_scan { Some(cursor) } else { None }
}

/// Reserves `size` bytes (a positive multiple of the page size) of address
/// space with `perms` and `flags`, by first fit from the hint (user base
/// by default), and returns its start. `Invalid` for a bad size,
/// `OutOfMemory` when no room is found, `Overlap` when the area cannot be
/// added.
pub fn mmap_anon(
    vmas: &mut VmaManager,
    hint: Option<usize>,
    size: usize,
    perms: VmaPerm,
    flags: VmaFlags,
    kernel_base: usize,
    kernel_heap_start: usize,
) -> (r: Result<usize, MmapError>)
    requires
        old(vmas).wf(),
        USER_STACK_BOTTOM <= usize::MAX,
        ({
            let h = match hint { Some(h) => h, None => USER_BASE as usize };
            &&& (if h > USER_BASE { h as int } else { USER_BASE as int }) + size <= usize::MAX
            &&& scan_end(h, kernel_base, kernel_heap_start) + size <= usize::MAX
        }),
        forall|i: int| 0 <= i < old(vmas)@.len() ==> (#[trigger] old(vmas)@[i]).start + 4096 <= usize::MAX,
    ensures
        final(vmas).wf(),
        (size == 0 || size % 4096 != 0) ==> r == Err::<usize, MmapError>(MmapError::Invalid) && final(vmas)@ == old(vmas)@,
        !(size == 0 || size % 4096 != 0) ==> ({
            let h = match hint { Some(h) => h, None => USER_BASE as usize };
            let c0 = if h > USER_BASE { h as int } else { USER_BASE as int };
            match scan_free(old(vmas)@, 0, c0, size as int, scan_end(h, kernel_base, kernel_heap_start)) {
                None => r == Err::<usize, MmapError>(MmapError::OutOfMemory) && final(vmas)@ == old(vmas)@,
                Some(a) => {
                    let v = Vma { start: a as usize, end: (a + size) as usize, perms, flags };
                    if exists|i: int| 0 <= i < old(vmas)@.len() && #[trigger] old(vmas)@[i].start < v.end && v.start < old(vmas)@[i].end {
                        r == Err::<usize, MmapError>(MmapError::Overlap) && final(vmas)@ == old(vmas)@
                    } else {
                        r == Ok::<usize, MmapError>(a as usize)
                            && final(vmas)@ == old(vmas)@.insert(insertion_point(old(vmas)@, v.start), v)
                    }
                },
            }
        }),
{
    if size == 0 || size % VMM_PAGE != 0 {
        return Err(MmapError::Invalid);
    }
    let h = match hint {
        Some(h) => h,
        None => USER_BASE as usize,
    };
    let addr = match find_free_range(vmas, h, size, kernel_base, kernel_heap_start) {
        Some(a) => a,
        None => return Err(MmapError::OutOfMemory),
    };
    proof {
        lemma_scan_free_fits(vmas@, 0, if h > USER_BASE { h as int } else { USER_BASE as int }, size as int,
            scan_end(h, kernel_base, kernel_heap_start));
    }
    let vma = Vma { start: addr, end: addr + size, perms, flags };
    match vmas.insert(vma) {
        Ok(()) => Ok(addr),
        Err(_) => Err(MmapError::Overlap),
    }
}

proof fn lemma_scan_free_fits(vs: Seq<Vma>, k: nat, cursor: int, size: int, end_scan: int)
    requires
        cursor >= 0,
        cursor + size <= usize::MAX,
        end_scan + size <= usize::MAX,
        size > 0,
        forall|i: int| 0 <= i < vs.len() ==> (#[trigger] vs[i]).start + 4096 <= usize::MAX,
    ensures
        scan_free(vs, k, cursor, size, end_scan) matches Some(a) ==> 0 <= a && a + size <= usize::MAX,
    decreases vs.len() - k,
{
    if k < vs.len() {
        let v = vs[k as int];
        if !(v.start >= cursor + size) {
            let step = if v.end > v.start + 4096 { v.end as int } else { v.start + 4096 };
            let c = if cursor > step { cursor } else { step };
            if c < end_scan {
                lemma_scan_free_fits(vs, k + 1, c, size, end_scan);
            }
        }
    }
}

/// Sets the permissions of the area that is exactly `[addr, addr + size)`.
/// `Invalid` for a misaligned address, a zero size, or a range that is not
/// exactly one area.
pub(crate) fn protect_area(vmas: &mut VmaManager, addr: usize, size: usize, perms: VmaPerm) -> (r: Result<(), MmapError>)
    requires
        old(vmas).wf(),
        addr + size <= usize::MAX,
    ensures
        final(vmas).wf(),
        r is Err ==> r == Err::<(), MmapError>(MmapError::Invalid) && final(vmas)@ == old(vmas)@,
        (addr % 4096 != 0 || size == 0) ==> r is Err,
        r is Ok <==> !(addr % 4096 != 0 || size == 0) && exists|i: int| 0 <= i < old(vmas)@.len()
            && (#[trigger] old(vmas)@[i]).start == addr && old(vmas)@[i].end == addr + size,
        r is Ok ==> exists|i: int| 0 <= i < old(vmas)@.len() && (#[trigger] old(vmas)@[i]).start == addr
            && old(vmas)@[i].end == addr + size
            && final(vmas)@ == old(vmas)@.update(i, Vma { perms, ..old(vmas)@[i] }),
{
    if addr % VMM_PAGE != 0 || size == 0 {
        return Err(MmapError::Invalid);
    }
    let ghost vs = vmas@;
    match vmas.find_range(addr, addr + size) {
        Some(idx) => {
            match vmas.get(idx) {
                Some(v) => {
                    let v = *v;
                    proof {
                        if exists|i: int| 0 <= i < vs.len() && (#[trigger] vs[i]).start == addr && vs[i].end == addr + size {
                            let i = choose|i: int| 0 <= i < vs.len() && (#[trigger] vs[i]).start == addr && vs[i].end == addr + size;
                            lemma_exact_found(vs, i, addr, size);
                        }
                    }
                    if v.start == addr && v.end == addr + size {
                        match vmas.find_mut(addr) {
                            Some(nv) => {
                                nv.perms = perms;
                            },
                            None => {},
                        }
                        proof {
                            assert(vs[idx as int].start <= addr < vs[idx as int].end);
                        }
                        assert forall|a: int, b: int| 0 <= a < b < vmas@.len() implies (#[trigger] vmas@[a]).end <= (#[trigger] vmas@[b]).start by {
                            assert(vs[a].end <= vs[b].start);
                        }
                        return Ok(());
                    }
                },
                None => {},
            }
        },
        None => {},
    }
    proof {
        assert forall|i: int| 0 <= i < vs.len() implies !((#[trigger] vs[i]).start == addr && vs[i].end == addr + size) by {
            if vs[i].start == addr && vs[i].end == addr + size {
                lemma_exact_found(vs, i, addr, size);
            }
        }
    }
    Err(MmapError::Invalid)
}

/// Whether some area is exactly `[addr, addr + size)`.
pub(crate) fn is_exact_area(vmas: &VmaManager, addr: usize, size: usize) -> (r: bool)
    requires
        vmas.wf(),
        addr + size <= usize::MAX,
        size > 0,
    ensures
        r == exists|i: int| 0 <= i < vmas@.len() && (#[trigger] vmas@[i]).start == addr && vmas@[i].end == addr + size,
{
    let ghost vs = vmas@;
    proof {
        if exists|i: int| 0 <= i < vs.len() && (#[trigger] vs[i]).start == addr && vs[i].end == addr + size {
            let i = choose|i: int| 0 <= i < vs.len() && (#[trigger] vs[i]).start == addr && vs[i].end == addr + size;
            lemma_exact_found(vs, i, addr, size);
        }
    }
    match vmas.find_range(addr, addr + size) {
        Some(idx) => match vmas.get(idx) {
            Some(v) => {
                if v.start == addr && v.end == addr + size {
                    assert(vs[idx as int].start == addr && vs[idx as int].end == addr + size);
                    return true;
                }
            },
            None => {},
        },
        None => {},
    }
    proof {
        assert forall|i: int| 0 <= i < vs.len() implies !((#[trigger] vs[i]).start == addr && vs[i].end == addr + size) by {
            if vs[i].start == addr && vs[i].end == addr + size {
                lemma_exact_found(vs, i, addr, size);
            }
        }
    }
    false
}

/// An area that is exactly `[addr, addr + size)` is the one `find_range`
/// reports for that range.
proof fn lemma_exact_found(vs: Seq<Vma>, i: int, addr: usize, size: usize)
    requires
        areas_ok(vs),
        0 <= i < vs.len(),
        size > 0,
        vs[i].start == addr,
        vs[i].end == addr + size,
    ensures
        insertion_point(vs, addr) == i,
        i > 0 ==> !(vs[i - 1].start < addr + size && addr < vs[i - 1].end),
{
    assert forall|k: int| 0 <= k < i implies (#[trigger] vs[k]).start < addr by {
        assert(vs[k].end <= vs[i].start);
    }
    crate::mm::vmm::vma::lemma_insertion_point(vs, addr, i);
    if i > 0 {
        assert(vs[i - 1].end <= vs[i].start);
    }
}

/// The area holding `addr`, if any.
pub fn find_vma(vmas: &VmaManager, addr: usize) -> (r: Option<Vma>)
    requires
        vmas.wf(),
    ensures
        r is None <==> !(exists|i: int| 0 <= i < vmas@.len() && #[trigger] vmas@[i].start <= addr && addr < vmas@[i].end),
        r matches Some(v) ==> vmas@.contains(v) && v.start <= addr < v.end,
{
    match vmas.find(addr) {
        Some(v) => Some(*v),
        None => None,
    }
}

/// An area meeting `[addr, addr + size)`, if any (see `find_range`).
pub fn find_vma_range(vmas: &VmaManager, addr: usize, size: usize) -> (r: Option<Vma>)
    requires
        vmas.wf(),
        addr + size <= usize::MAX,
    ensures
        size > 0 ==> (r is Some <==> exists|j: int| 0 <= j < vmas@.len() && #[trigger] vmas@[j].start < addr + size && addr < vmas@[j].end),
        r matches Some(v) ==> vmas@.contains(v) && v.start < addr + size && addr < v.end,
{
    match vmas.find_range(addr, addr + size) {
        Some(i) => match vmas.get(i) {
            Some(v) => {
                let v = *v;
                assert(vmas@[i as int] == v);
                Some(v)
            },
            None => None,
        },
        None => None,
    }
}

/// The action for a fault with `error_code` (bit 0: the page was present,
/// bit 1: a write) on a page that is `swapped` out or not, mapped
/// copy-on-write (`cow`) or not, inside the area `vma` if any.
pub open spec fn fault_action_for(error_code: u64, swapped: bool, cow: bool, vma: Option<Vma>) -> FaultAction {
    let write = error_code / 2 % 2 == 1;
    let present = error_code % 2 == 1;
    if swapped {
        FaultAction::SwapIn(match vma { Some(v) => flags_of(v.perms), None => MappingFlags::default_spec() })
    } else if present && write && cow {
        match vma { Some(v) => FaultAction::BreakCow(flags_of(v.perms)), None => FaultAction::Unresolved }
    } else if !present {
        match vma {
            Some(v) => if !v.flags.anonymous || (write && !v.perms.write) {
                FaultAction::Unresolved
            } else {
                FaultAction::DemandMap(flags_of(v.perms))
            },
            None => FaultAction::Unresolved,
        }
    } else {
        FaultAction::Unresolved
    }
}

/// The action a page fault calls for.
///
/// A swapped-out page is read back (mapped with its area's attributes, or
/// default ones outside any area); a write to a present copy-on-write page
/// breaks the sharing; a missing page inside an anonymous area that allows
/// the access is mapped on demand; anything else is unresolved.
pub fn decide_fault(error_code: u64, swapped: bool, cow: bool, vma: Option<Vma>) -> (r: FaultAction)
    ensures
        r == fault_action_for(error_code, swapped, cow, vma),
{
    assert((error_code & 0x2 != 0) == (error_code / 2 % 2 == 1)) by (bit_vector);
    assert((error_code & 0x1 != 0) == (error_code % 2 == 1)) by (bit_vector);
    let write = error_code & 0x2 != 0;
    let present = error_code & 0x1 != 0;
    if swapped {
        let flags = match vma {
            Some(v) => perms_to_flags(&v.perms),
            None => MappingFlags::none(),
        };
        return FaultAction::SwapIn(flags);
    }
    if present && write && cow {
        match vma {
            Some(v) => FaultAction::BreakCow(perms_to_flags(&v.perms)),
            None => FaultAction::Unresolved,
        }
    } else if !present {
        match vma {
            Some(v) => {
                if !v.flags.anonymous || (write && !v.perms.write) {
                    FaultAction::Unresolved
                } else {
                    FaultAction::DemandMap(perms_to_flags(&v.perms))
                }
            },
            None => FaultAction::Unresolved,
        }
    } else {
        FaultAction::Unresolved
    }
}

impl MappingFlags {
    /// All attributes clear.
    pub open spec fn default_spec() -> MappingFlags {
        MappingFlags { present: false, writable: false, executable: false, user: false, cow: false, global: false }
    }
}

/// Whether every counter can still move.
pub open spec fn stats_room(s: VmmStats) -> bool {
    s.page_faults < u64::MAX && s.resolved < u64::MAX && s.unresolved < u64::MAX && s.cow_breaks < u64::MAX
        && s.demand_pages < u64::MAX && s.swap_ins < u64::MAX
}

/// The counters after a fault whose action was `action`, resolved or not.
pub open spec fn fault_counted(s: VmmStats, action: FaultAction, ok: bool) -> VmmStats {
    VmmStats {
        page_faults: (s.page_faults + 1) as u64,
        resolved: if ok { (s.resolved + 1) as u64 } else { s.resolved },
        unresolved: if ok { s.unresolved } else { (s.unresolved + 1) as u64 },
        swap_ins: if ok && action is SwapIn { (s.swap_ins + 1) as u64 } else { s.swap_ins },
        cow_breaks: if ok && action is BreakCow { (s.cow_breaks + 1) as u64 } else { s.cow_breaks },
        demand_pages: if ok && action is DemandMap { (s.demand_pages + 1) as u64 } else { s.demand_pages },
        ..s
    }
}

/// Every fault counted is counted resolved or unresolved: where resolved
/// and unresolved faults add up to the faults taken, they still do after
/// one more fault, which adds one to the faults and, exactly when it was
/// resolved, one to the resolved ones.
pub proof fn lemma_fault_counts_balanced(s: VmmStats, action: FaultAction, ok: bool)
    requires
        stats_room(s),
        s.resolved + s.unresolved == s.page_faults,
    ensures
        fault_counted(s, action, ok).resolved + fault_counted(s, action, ok).unresolved
            == fault_counted(s, action, ok).page_faults,
        fault_counted(s, action, ok).page_faults == s.page_faults + 1,
        ok <==> fault_counted(s, action, ok).resolved == s.resolved + 1,
{
}

/// Over any history of counted faults from counters that balance (as
/// fresh ones do), with room in the counters at every step, resolved and
/// unresolved faults add up to the faults taken in every state.
pub proof fn lemma_fault_history_balanced(ss: Seq<VmmStats>, actions: Seq<FaultAction>, oks: Seq<bool>)
    requires
        ss.len() >= 1,
        actions.len() + 1 == ss.len(),
        oks.len() == actions.len(),
        ss[0].resolved + ss[0].unresolved == ss[0].page_faults,
        forall|i: int| 0 <= i < actions.len() ==> stats_room(#[trigger] ss[i]),
        forall|i: int| 0 <= i < actions.len() ==> #[trigger] ss[i + 1] == fault_counted(ss[i], actions[i], oks[i]),
    ensures
        forall|i: int| 0 <= i < ss.len() ==> (#[trigger] ss[i]).resolved + ss[i].unresolved == ss[i].page_faults,
    decreases ss.len(),
{
    if ss.len() > 1 {
        let n = ss.len() - 1;
        let ps = ss.subrange(0, n);
        let pa = actions.subrange(0, n - 1);
        let po = oks.subrange(0, n - 1);
        assert forall|i: int| 0 <= i < pa.len() implies stats_room(#[trigger] ps[i]) by {
            assert(stats_room(ss[i]));
        }
        assert forall|i: int| 0 <= i < pa.len() implies #[trigger] ps[i + 1] == fault_counted(ps[i], pa[i], po[i]) by {
            assert(ss[i + 1] == fault_counted(ss[i], actions[i], oks[i]));
        }
        lemma_fault_history_balanced(ps, pa, po);
        let j = n - 1;
        assert(ps[j] == ss[j]);
        assert(stats_room(ss[j]));
        assert(ss[j + 1] == fault_counted(ss[j], actions[j], oks[j]));
        lemma_fault_counts_balanced(ss[j], actions[j], oks[j]);
        assert forall|i: int| 0 <= i < ss.len() implies (#[trigger] ss[i]).resolved + ss[i].unresolved == ss[i].page_faults by {
            if i < n {
                assert(ps[i] == ss[i]);
            }
        }
    }
}

/// Counts a fault whose action was `action` and, for an action that does
/// something, whether it `succeeded`; returns the fault's outcome.
pub fn account_fault(stats: &mut VmmStats, action: FaultAction, succeeded: bool) -> (r: PageFaultResult)
    requires
        stats_room(*old(stats)),
    ensures
        ({
            let ok = succeeded && !(action is Unresolved);
            &&& r == if ok { PageFaultResult::Resolved } else { PageFaultResult::Unresolved }
            &&& *final(stats) == fault_counted(*old(stats), action, ok)
        }),
{
    stats.page_faults = stats.page_faults + 1;
    let ok = match action {
        FaultAction::Unresolved => false,
        _ => succeeded,
    };
    if !ok {
        stats.unresolved = stats.unresolved + 1;
        return PageFaultResult::Unresolved;
    }
    match action {
        FaultAction::SwapIn(_) => {
            stats.swap_ins = stats.swap_ins + 1;
        },
        FaultAction::BreakCow(_) => {
            stats.cow_breaks = stats.cow_breaks + 1;
        },
        FaultAction::DemandMap(_) => {
            stats.demand_pages = stats.demand_pages + 1;
        },
        FaultAction::Unresolved => {},
    }
    stats.resolved = stats.resolved + 1;
    PageFaultResult::Resolved
}

/// The counters with the number of pages swapped out now.
pub fn stats(counters: &VmmStats, swap: &SwapManager) -> (r: VmmStats)
    ensures
        r == (VmmStats { swapped_pages: swap.spec_entries().len() as usize, ..*counters }),
{
    let mut s = *counters;
    s.swapped_pages = swap.swapped_pages();
    s
}

/// The kind of an area: stack, heap, anonymous or other.
pub open spec fn vma_kind(f: VmaFlags) -> Seq<char> {
    if f.stack { "stack"@ } else if f.heap { "heap"@ } else if f.anonymous { "anon"@ } else { "other"@ }
}

/// Start, end and kind of every area, in order.
pub fn vma_snapshot(vmas: &VmaManager) -> (r: Vec<(usize, usize, &'static str)>)
    ensures
        r@.len() == vmas@.len(),
        forall|i: int| 0 <= i < r@.len() ==> (#[trigger] r@[i]).0 == vmas@[i].start && r@[i].1 == vmas@[i].end
            && r@[i].2@ == vma_kind(vmas@[i].flags),
{
    let mut out: Vec<(usize, usize, &'static str)> = Vec::new();
    let mut i: usize = 0;
    while i < vmas.count()
        invariant
            i <= vmas@.len(),
            out@.len() == i,
            forall|k: int| 0 <= k < i ==> (#[trigger] out@[k]).0 == vmas@[k].start && out@[k].1 == vmas@[k].end
                && out@[k].2@ == vma_kind(vmas@[k].flags),
        decreases vmas@.len() - i,
    {
        match vmas.get(i) {
            Some(x) => {
                let kind: &'static str = if x.flags.stack {
                    "stack"
                } else if x.flags.heap {
                    "heap"
                } else if x.flags.anonymous {
                    "anon"
                } else {
                    "other"
                };
                proof {
                    reveal_strlit("stack");
                    reveal_strlit("heap");
                    reveal_strlit("anon");
                    reveal_strlit("other");
                }
                out.push((x.start, x.end, kind));
            },
            None => {},
        }
        i = i + 1;
    }
    out
}

} // verus!
