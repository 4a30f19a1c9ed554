use vstd::prelude::*;
use vstd::arithmetic::div_mod::{lemma_fundamental_div_mod, lemma_mod_multiples_basic};
use crate::mm::heap::provider::{PageProvider, block_pages, lemma_single_page_block};
use crate::mm::vmm::cow::{break_cow, is_cow, private_flags_of};
use crate::mm::vmm::mapping::{anon_added, in_run, map_anon, reflagged, run_set, MappingError, run_frames,
    ledger_with_run, Mappings,
    run_frames_distinct, lemma_run_frames_step, lemma_run_frames_monotone};
use crate::mm::vmm::page_table::{MappingFlags, PageMapper};
use crate::mm::vmm::space::{
    account_fault, decide_fault, fault_action_for, fault_counted, find_vma, flags_of, is_exact_area, perms_to_flags, protect_area,
    stats_room, FaultAction, MmapError, PageFaultResult, VmmStats, VMM_PAGE,
};
use crate::mm::vmm::swap::{entry_of, SwapManager, SwapStore, MAX_SWAPPED_PAGES};
use crate::mm::vmm::vma::{Vma, VmaFlags, VmaManager, VmaPerm, areas_ok, insertion_point, without_range};

verus! {

/// The virtual memory of one address space: its page tables, its areas,
/// the pages it has swapped out and where, and its fault counters.
pub struct VmmState<M: PageMapper, S: SwapStore> {
    /// The page tables.
    pub mapper: M,
    /// The areas.
    pub vmas: VmaManager,
    /// The pages swapped out, and their slots.
    pub swap: SwapManager,
    /// Where swapped-out pages are kept.
    pub swap_store: S,
    /// Fault and swap counters.
    pub stats: VmmStats,
}

/// All counters at zero.
pub open spec fn zero_stats() -> VmmStats {
    VmmStats {
        page_faults: 0,
        resolved: 0,
        unresolved: 0,
        cow_breaks: 0,
        demand_pages: 0,
        swap_outs: 0,
        swap_ins: 0,
        swapped_pages: 0,
    }
}

/// Whether `[addr, addr + size)` meets an area of `vs`.
pub open spec fn meets_area(vs: Seq<Vma>, addr: int, end: int) -> bool {
    exists|i: int| 0 <= i < vs.len() && #[trigger] vs[i].start < end && addr < vs[i].end
}

proof fn lemma_aligned_step(addr: int, i: int, size: int)
    requires
        addr % 4096 == 0,
        0 <= i,
        i * 4096 < size,
    ensures
        (addr + i * 4096) % 4096 == 0,
        addr + i * 4096 < addr + size,
        ((addr + i * 4096) - addr) % 4096 == 0,
{
    lemma_mod_multiples_basic(i, 4096);
    lemma_fundamental_div_mod(addr, 4096);
    assert(addr + i * 4096 == (addr / 4096 + i) * 4096) by (nonlinear_arith)
        requires addr == 4096 * (addr / 4096) + addr % 4096, addr % 4096 == 0;
    lemma_mod_multiples_basic(addr / 4096 + i, 4096);
}

proof fn lemma_run_grow_at(base: int, hi: int)
    requires
        0 <= hi,
    ensures
        forall|p: int| #[trigger] in_run(p, base, 0, hi + 1) == (in_run(p, base, 0, hi) || p == base + hi * 4096),
{
    lemma_mod_multiples_basic(hi, 4096);
    assert forall|p: int| #[trigger] in_run(p, base, 0, hi + 1) == (in_run(p, base, 0, hi) || p == base + hi * 4096) by {
        if in_run(p, base, 0, hi + 1) && p != base + hi * 4096 {
            let d = p - base;
            lemma_fundamental_div_mod(d, 4096);
            assert(d < hi * 4096) by (nonlinear_arith)
                requires d == 4096 * (d / 4096), d != hi * 4096, d < hi * 4096 + 4096, d >= 0;
        }
    }
}

impl<M: PageMapper, S: SwapStore> VmmState<M, S> {
    /// Areas in order, and a swap registry that agrees with its store.
    pub open spec fn wf(&self) -> bool {
        &&& self.vmas.wf()
        &&& self.swap.consistent(self.swap_store)
    }

    /// The state of an address space with the page tables `mapper`, no area,
    /// nothing swapped out to `swap_store`, all counters at zero.
    pub fn new(mapper: M, swap_store: S) -> (r: Self)
        requires
            swap_store.inv(),
            swap_store.slot_count() <= u32::MAX,
        ensures
            r.wf(),
            r.mapper == mapper,
            r.swap_store == swap_store,
            r.vmas@ == Seq::<Vma>::empty(),
            r.swap.spec_entries() == Seq::<(usize, usize)>::empty(),
            r.stats == zero_stats(),
    {
        VmmState {
            mapper,
            vmas: VmaManager::new(),
            swap: SwapManager::new(),
            swap_store,
            stats: VmmStats {
                page_faults: 0,
                resolved: 0,
                unresolved: 0,
                cow_breaks: 0,
                demand_pages: 0,
                swap_outs: 0,
                swap_ins: 0,
                swapped_pages: 0,
            },
        }
    }
}

/// Maps `size` bytes at `addr` with fresh frames from `frames` at once and
/// records the area. `Invalid` for a misaligned address or size; an error
/// of the mapping comes back as `OutOfMemory` or `Overlap` with nothing
/// mapped; `Overlap` also where the area meets another one, the pages then
/// staying mapped.
pub fn mmap_anon_eager<M: PageMapper, S: SwapStore, P: PageProvider>(
    vm: &mut VmmState<M, S>,
    frames: &mut P,
    addr: usize,
    size: usize,
    perms: VmaPerm,
    flags: VmaFlags,
) -> (r: Result<(), MmapError>)
    requires
        old(vm).wf(),
        addr + size <= usize::MAX,
    ensures
        final(vm).wf(),
        final(vm).swap == old(vm).swap,
        final(vm).swap_store == old(vm).swap_store,
        final(vm).stats == old(vm).stats,
        (addr % 4096 != 0 || size == 0 || size % 4096 != 0) ==> r == Err::<(), MmapError>(MmapError::Invalid)
            && final(vm).mapper == old(vm).mapper && final(vm).vmas@ == old(vm).vmas@,
        !(addr % 4096 != 0 || size == 0 || size % 4096 != 0) ==> ({
            let pages = (size / 4096) as int;
            let m0 = old(vm).mapper.mappings();
            let m1 = final(vm).mapper.mappings();
            let v = Vma { start: addr, end: (addr + size) as usize, perms, flags };
            match r {
                Ok(()) => anon_added(m0, m1, addr as int, 0, pages, flags_of(perms))
                    && !meets_area(old(vm).vmas@, addr as int, addr + size)
                    && final(vm).vmas@ == old(vm).vmas@.insert(insertion_point(old(vm).vmas@, addr), v),
                Err(MmapError::Overlap) => final(vm).vmas@ == old(vm).vmas@ && (
                    (m1 == m0 && exists|p: usize| in_run(p as int, addr as int, 0, pages) && #[trigger] m0.contains_key(p))
                    || (anon_added(m0, m1, addr as int, 0, pages, flags_of(perms))
                        && meets_area(old(vm).vmas@, addr as int, addr + size))),
                Err(MmapError::OutOfMemory) => m1 == m0 && final(vm).vmas@ == old(vm).vmas@,
                Err(MmapError::Invalid) => false,
            }
        }),
        P::keeps_ledger() && !(addr % 4096 != 0 || size == 0 || size % 4096 != 0) ==> {
            let m1 = final(vm).mapper.mappings();
            &&& m1 == old(vm).mapper.mappings() ==> final(frames).held() == old(frames).held()
            &&& m1 != old(vm).mapper.mappings() ==> ledger_with_run(final(frames).held(), old(frames).held(), m1,
                addr as int, (size / 4096) as int)
        },
{
    if addr % VMM_PAGE != 0 || size == 0 || size % VMM_PAGE != 0 {
        return Err(MmapError::Invalid);
    }
    let pages = size / VMM_PAGE;
    assert(pages * 4096 == size);
    let mflags = perms_to_flags(&perms);
    let ghost m0 = vm.mapper.mappings();
    match map_anon(&mut vm.mapper, frames, addr, pages, mflags) {
        Ok(()) => {
            assert(in_run(addr as int, addr as int, 0, pages as int));
            assert(vm.mapper.mappings().contains_key(addr) && !m0.contains_key(addr));
        },
        Err(e) => {
            return match e {
                MappingError::OutOfMemory => Err(MmapError::OutOfMemory),
                MappingError::AlreadyMapped => Err(MmapError::Overlap),
                _ => Err(MmapError::Invalid),
            };
        },
    }
    let vma = Vma { start: addr, end: addr + size, perms, flags };
    match vm.vmas.insert(vma) {
        Ok(()) => Ok(()),
        Err(_) => Err(MmapError::Overlap),
    }
}

/// Mapping a range at once and unmapping it again leaves the page tables as
/// they were: where `m1` is `m0` with the `size` bytes at `addr` mapped by
/// `mmap_anon_eager`, and `m2` is `m1` after `munmap` of the same range,
/// `m2` is `m0`.
pub proof fn lemma_map_unmap_roundtrip(
    m0: Map<usize, (u64, MappingFlags)>,
    m1: Map<usize, (u64, MappingFlags)>,
    m2: Map<usize, (u64, MappingFlags)>,
    addr: usize,
    size: usize,
    flags: MappingFlags,
)
    requires
        size % 4096 == 0,
        anon_added(m0, m1, addr as int, 0, (size / 4096) as int, flags),
        m2 == m1.remove_keys(run_set(addr as int, 0, (size + 4095) / 4096)),
    ensures
        m2 == m0,
{
    assert((size + 4095) / 4096 == size / 4096);
    assert(m2 =~= m0);
}

/// The frames of a run of one mapped page are its frame.
proof fn lemma_run_frames_single(m: Mappings, base: usize)
    requires
        m.contains_key(base),
    ensures
        run_frames(m, base as int, 1) == set![(m[base].0 as usize) as int],
{
    lemma_run_frames_step(m, base as int, 0);
    assert(run_frames(m, base as int, 0) =~= Set::<int>::empty()) by {
        assert forall|f: int| !#[trigger] run_frames(m, base as int, 0).contains(f) by {
            if run_frames(m, base as int, 0).contains(f) {
                let p = choose|p: usize| #![trigger m[p]] in_run(p as int, base as int, 0, 0) && m.contains_key(p)
                    && f == (m[p].0 as usize) as int;
            }
        }
    }
    assert(run_frames(m, base as int, 1) =~= set![(m[base].0 as usize) as int]);
}

/// Unmaps the pages of `[addr, addr + size)` that are mapped, giving their
/// frames back to `frames`, and releases the areas of
/// `[addr, addr + max(size, page))`. `Invalid` for a misaligned address or
/// a zero size.
pub fn munmap<M: PageMapper, S: SwapStore, P: PageProvider>(
    vm: &mut VmmState<M, S>,
    frames: &mut P,
    addr: usize,
    size: usize,
) -> (r: Result<(), MmapError>)
    requires
        old(vm).wf(),
        addr + (if size > 4096 { size } else { 4096 }) <= usize::MAX,
        size + 4095 <= usize::MAX,
    ensures
        final(vm).wf(),
        final(vm).swap == old(vm).swap,
        final(vm).swap_store == old(vm).swap_store,
        final(vm).stats == old(vm).stats,
        (addr % 4096 != 0 || size == 0) ==> r == Err::<(), MmapError>(MmapError::Invalid)
            && final(vm).mapper == old(vm).mapper && final(vm).vmas@ == old(vm).vmas@,
        !(addr % 4096 != 0 || size == 0) ==> r == Ok::<(), MmapError>(())
            && final(vm).mapper.mappings() == old(vm).mapper.mappings().remove_keys(
                run_set(addr as int, 0, (size + 4095) / 4096))
            && final(vm).vmas@ == without_range(old(vm).vmas@, addr, (addr + if size > 4096 { size } else { 4096 }) as usize),
        ({
            let run = run_frames(old(vm).mapper.mappings(), addr as int, (size + 4095) / 4096);
            P::keeps_ledger() && !(addr % 4096 != 0 || size == 0)
                && run <= old(frames).held()
                && run_frames_distinct(old(vm).mapper.mappings(), addr as int, (size + 4095) / 4096)
                ==> final(frames).held() == old(frames).held() - run
        }),
{
    if addr % VMM_PAGE != 0 || size == 0 {
        return Err(MmapError::Invalid);
    }
    let pages = crate::mm::vmm::space::page_count(size);
    let ghost m0 = vm.mapper.mappings();
    let ghost held0 = frames.held();
    let ghost led = P::keeps_ledger() && run_frames(m0, addr as int, pages as int) <= held0
        && run_frames_distinct(m0, addr as int, pages as int);
    assert(run_frames(m0, addr as int, 0) =~= Set::<int>::empty());
    assert(held0.difference(Set::<int>::empty()) =~= held0);
    assert(m0.remove_keys(run_set(addr as int, 0, 0)) =~= m0);
    let mut i: usize = 0;
    while i < pages
        invariant
            i <= pages,
            pages == (size + 4095) / 4096,
            addr % 4096 == 0,
            addr + size <= usize::MAX,
            old(vm).wf(),
            m0 == old(vm).mapper.mappings(),
            vm.mapper.mappings() == m0.remove_keys(run_set(addr as int, 0, i as int)),
            vm.vmas == old(vm).vmas,
            vm.swap == old(vm).swap,
            vm.swap_store == old(vm).swap_store,
            vm.stats == old(vm).stats,
            led == (P::keeps_ledger() && run_frames(m0, addr as int, pages as int) <= held0
                && run_frames_distinct(m0, addr as int, pages as int)),
            held0 == old(frames).held(),
            led ==> frames.held() == held0.difference(run_frames(m0, addr as int, i as int)),
        decreases pages - i,
    {
        assert(i * 4096 < size) by (nonlinear_arith)
            requires i < pages, pages == (size + 4095) / 4096;
        proof {
            lemma_aligned_step(addr as int, i as int, size as int);
            lemma_run_grow_at(addr as int, i as int);
        }
        let page = addr + i * VMM_PAGE;
        assert(!in_run(page as int, addr as int, 0, i as int));
        proof {
            lemma_run_frames_step(m0, addr as int, i as int);
            lemma_run_frames_monotone(m0, addr as int, (i + 1) as int, pages as int);
        }
        if vm.mapper.translate(page).is_some() {
            match vm.mapper.unmap_page(page) {
                Ok(frame) => {
                    let ghost fp = (frame as usize) as int;
                    let ghost h = frames.held();
                    proof {
                        if led {
                            lemma_single_page_block(frame as usize);
                            assert(m0.contains_key(page));
                            assert(run_frames(m0, addr as int, (i + 1) as int).contains(fp));
                            assert(held0.contains(fp));
                            if run_frames(m0, addr as int, i as int).contains(fp) {
                                let p = choose|p: usize| #![trigger m0[p]] in_run(p as int, addr as int, 0, i as int)
                                    && m0.contains_key(p) && fp == (m0[p].0 as usize) as int;
                                assert(in_run(p as int, addr as int, 0, pages as int));
                                assert(in_run(page as int, addr as int, 0, pages as int));
                                assert(p != page);
                            }
                            assert(h.contains(fp));
                        }
                    }
                    frames.free_page(frame as usize);
                    proof {
                        if led {
                            assert(frames.held() =~= held0.difference(run_frames(m0, addr as int, (i + 1) as int)));
                        }
                    }
                },
                Err(_) => {
                    return Err(MmapError::Invalid);
                },
            }
        }
        assert(vm.mapper.mappings() =~= m0.remove_keys(run_set(addr as int, 0, i + 1)));
        i = i + 1;
    }
    let len = if size > VMM_PAGE { size } else { VMM_PAGE };
    vm.vmas.remove_range(addr, addr + len);
    Ok(())
}

/// Sets the permissions of the area that is exactly `[addr, addr + size)`
/// and gives its mapped pages the attributes of `perms`, page tables and
/// area together. `Invalid`, with nothing changed, for a misaligned address,
/// a zero size, or a range that is not exactly one area; `Invalid` also
/// where a page fails to be mapped again (it is then left unmapped, the
/// pages before it carry the new attributes, and the area keeps its old
/// permissions).
pub fn mprotect<M: PageMapper, S: SwapStore>(
    vm: &mut VmmState<M, S>,
    addr: usize,
    size: usize,
    perms: VmaPerm,
) -> (r: Result<(), MmapError>)
    requires
        old(vm).wf(),
        addr + size <= usize::MAX,
    ensures
        final(vm).wf(),
        final(vm).swap == old(vm).swap,
        final(vm).swap_store == old(vm).swap_store,
        final(vm).stats == old(vm).stats,
        r is Err ==> r == Err::<(), MmapError>(MmapError::Invalid),
        ({
            let m0 = old(vm).mapper.mappings();
            let m1 = final(vm).mapper.mappings();
            let vs = old(vm).vmas@;
            let exact = exists|i: int| 0 <= i < vs.len() && (#[trigger] vs[i]).start == addr && vs[i].end == addr + size;
            let bad = addr % 4096 != 0 || size == 0 || !exact;
            &&& bad ==> r is Err && final(vm).mapper == old(vm).mapper && final(vm).vmas@ == vs
            &&& !bad ==> {
                ||| (r is Ok && m1 == reflagged(m0, addr as int, 0, (size / 4096) as int, flags_of(perms))
                    && exists|i: int| 0 <= i < vs.len() && (#[trigger] vs[i]).start == addr
                        && vs[i].end == addr + size && final(vm).vmas@ == vs.update(i, Vma { perms, ..vs[i] }))
                ||| (r is Err && final(vm).vmas@ == vs && exists|k: int| 0 <= k < size / 4096
                    && m0.contains_key((addr + k * 4096) as usize)
                    && #[trigger] reflagged(m0, addr as int, 0, k, flags_of(perms)).remove((addr + k * 4096) as usize) == m1)
            }
        }),
{
    if addr % VMM_PAGE != 0 || size == 0 {
        return Err(MmapError::Invalid);
    }
    if !is_exact_area(&vm.vmas, addr, size) {
        return Err(MmapError::Invalid);
    }
    let mflags = perms_to_flags(&perms);
    let pages = size / VMM_PAGE;
    let ghost m0 = vm.mapper.mappings();
    assert(reflagged(m0, addr as int, 0, 0, mflags) =~= m0);
    let mut i: usize = 0;
    while i < pages
        invariant
            i <= pages,
            pages == size / 4096,
            addr % 4096 == 0,
            addr + size <= usize::MAX,
            mflags == flags_of(perms),
            old(vm).wf(),
            exists|j: int| 0 <= j < old(vm).vmas@.len() && (#[trigger] old(vm).vmas@[j]).start == addr
                && old(vm).vmas@[j].end == addr + size,
            m0 == old(vm).mapper.mappings(),
            vm.mapper.mappings() == reflagged(m0, addr as int, 0, i as int, mflags),
            vm.vmas == old(vm).vmas,
            vm.swap == old(vm).swap,
            vm.swap_store == old(vm).swap_store,
            vm.stats == old(vm).stats,
        decreases pages - i,
    {
        assert(i * 4096 < size) by (nonlinear_arith)
            requires i < pages, pages == size / 4096;
        proof {
            lemma_aligned_step(addr as int, i as int, size as int);
            lemma_run_grow_at(addr as int, i as int);
        }
        let page = addr + i * VMM_PAGE;
        assert(!in_run(page as int, addr as int, 0, i as int));
        assert(in_run(page as int, addr as int, 0, i + 1));
        if vm.mapper.translate(page).is_some() {
            match vm.mapper.update_flags(page, mflags) {
                Ok(()) => {},
                Err(_) => {
                    assert(vm.mapper.mappings() =~= reflagged(m0, addr as int, 0, i as int, mflags).remove(page));
                    assert(m0.contains_key(page));
                    assert(reflagged(m0, addr as int, 0, i as int, mflags).remove((addr + i * 4096) as usize) == vm.mapper.mappings());
                    return Err(MmapError::Invalid);
                },
            }
        }
        assert(vm.mapper.mappings() =~= reflagged(m0, addr as int, 0, i + 1, mflags));
        i = i + 1;
    }
    protect_area(&mut vm.vmas, addr, size, perms)
}

/// The area of `vs` that holds `addr`, if any.
pub open spec fn area_at(vs: Seq<Vma>, addr: usize) -> Option<Vma> {
    if exists|i: int| 0 <= i < vs.len() && #[trigger] vs[i].start <= addr && addr < vs[i].end {
        Some(vs[choose|i: int| 0 <= i < vs.len() && #[trigger] vs[i].start <= addr && addr < vs[i].end])
    } else {
        None
    }
}

/// Base address of the page that holds the faulting address.
pub open spec fn fault_page(fault_addr: u64) -> usize {
    let a = fault_addr as usize;
    (a - a % 4096) as usize
}

/// The action a fault at `fault_addr` with `error_code` calls for in `vm`.
pub open spec fn fault_action<M: PageMapper, S: SwapStore>(vm: VmmState<M, S>, fault_addr: u64, error_code: u64) -> FaultAction {
    let vaddr = fault_page(fault_addr);
    let swapped = entry_of(vm.swap.spec_entries(), vaddr) is Some;
    let present = error_code % 2 == 1;
    let write = error_code / 2 % 2 == 1;
    let cow = !swapped && present && write && match vm.mapper.mappings().get(vaddr) {
        Some(e) => e.1.cow,
        None => false,
    };
    fault_action_for(error_code, swapped, cow, area_at(vm.vmas@, vaddr))
}

/// What reading the swapped-out page `vaddr` back did: on success the page
/// is mapped with `flags` to a fresh frame that holds the bytes kept in
/// its slot, and its swap entry is gone; on failure nothing is mapped and
/// the entry may be gone.
pub open spec fn swap_in_effect<M: PageMapper, S: SwapStore>(
    v0: VmmState<M, S>,
    v1: VmmState<M, S>,
    vaddr: usize,
    flags: MappingFlags,
    ok: bool,
) -> bool {
    let es = v0.swap.spec_entries();
    let i = entry_of(es, vaddr)->Some_0;
    let m0 = v0.mapper.mappings();
    let m1 = v1.mapper.mappings();
    if ok {
        &&& v1.swap.spec_entries() == es.remove(i)
        &&& !m0.contains_key(vaddr)
        &&& m1.contains_key(vaddr)
        &&& m1 == m0.insert(vaddr, (m1[vaddr].0, flags))
        &&& m1[vaddr].0 % 4096 == 0
        &&& v1.mapper.frame_data(m1[vaddr].0) == v0.swap_store.page_data(es[i].1 as int)
    } else {
        &&& m1 == m0
        &&& (v1.swap.spec_entries() == es || v1.swap.spec_entries() == es.remove(i))
    }
}

/// What carrying out the fault action `a` on the page `vaddr` did to the
/// page tables and the swap registry, `ok` telling whether it succeeded.
pub open spec fn fault_effect<M: PageMapper, S: SwapStore>(
    v0: VmmState<M, S>,
    v1: VmmState<M, S>,
    vaddr: usize,
    a: FaultAction,
    ok: bool,
) -> bool {
    let m0 = v0.mapper.mappings();
    let m1 = v1.mapper.mappings();
    let same_swap = v1.swap.spec_entries() == v0.swap.spec_entries();
    match a {
        FaultAction::Unresolved => m1 == m0 && same_swap,
        FaultAction::DemandMap(f) => same_swap && if ok {
            anon_added(m0, m1, vaddr as int, 0, 1, f)
        } else {
            m1 == m0
        },
        FaultAction::BreakCow(f) => same_swap && m0.contains_key(vaddr) && if ok {
            &&& m1.contains_key(vaddr)
            &&& m1[vaddr].1 == private_flags_of(f)
            &&& m1[vaddr].0 % 4096 == 0
            &&& m1 == m0.insert(vaddr, m1[vaddr])
            &&& v1.mapper.frame_data(m1[vaddr].0) == v0.mapper.frame_data(m0[vaddr].0)
        } else {
            m1 == m0 || m1 == m0.remove(vaddr)
        },
        FaultAction::SwapIn(f) => swap_in_effect(v0, v1, vaddr, f, ok),
    }
}

/// `find_vma` finds the one area that holds the address.
proof fn lemma_area_at(vs: Seq<Vma>, addr: usize, r: Option<Vma>)
    requires
        areas_ok(vs),
        r is None <==> !(exists|i: int| 0 <= i < vs.len() && #[trigger] vs[i].start <= addr && addr < vs[i].end),
        r matches Some(v) ==> vs.contains(v) && v.start <= addr < v.end,
    ensures
        r == area_at(vs, addr),
{
    if let Some(v) = r {
        let j = choose|j: int| 0 <= j < vs.len() && vs[j] == v;
        assert(vs[j].start <= addr && addr < vs[j].end);
        let i = choose|i: int| 0 <= i < vs.len() && #[trigger] vs[i].start <= addr && addr < vs[i].end;
        if i < j {
            assert(vs[i].end <= vs[j].start);
        } else if j < i {
            assert(vs[j].end <= vs[i].start);
        }
    }
}

/// Reads the swapped-out page `vaddr` back into a fresh frame from
/// `frames` and maps it with `flags`.
fn swap_in_page<M: PageMapper, S: SwapStore, P: PageProvider>(
    vm: &mut VmmState<M, S>,
    frames: &mut P,
    vaddr: usize,
    flags: MappingFlags,
) -> (ok: bool)
    requires
        old(vm).wf(),
        vaddr % 4096 == 0,
        entry_of(old(vm).swap.spec_entries(), vaddr) is Some,
    ensures
        final(vm).wf(),
        final(vm).vmas == old(vm).vmas,
        final(vm).stats == old(vm).stats,
        swap_in_effect(*old(vm), *final(vm), vaddr, flags, ok),
        P::keeps_ledger() && !ok ==> final(frames).held() == old(frames).held(),
        P::keeps_ledger() && ok ==> final(frames).held() == old(frames).held().insert(
            (final(vm).mapper.mappings()[vaddr].0 as usize) as int)
            && !old(frames).held().contains((final(vm).mapper.mappings()[vaddr].0 as usize) as int),
{
    let ghost h0 = frames.held();
    let tmp = match frames.alloc_page() {
        Some(a) => a,
        None => return false,
    };
    proof {
        if P::keeps_ledger() {
            lemma_single_page_block(tmp);
            assert(block_pages(tmp, 0).contains(tmp as int));
            assert(!h0.contains(tmp as int));
            assert(frames.held() == h0.insert(tmp as int));
        }
    }
    let mut buf: Vec<u8> = vec![0u8; 4096];
    match vm.swap.swap_in(&mut vm.swap_store, vaddr, buf.as_mut_slice()) {
        Ok(()) => {},
        Err(_) => {
            frames.free_page(tmp);
            proof {
                if P::keeps_ledger() {
                    assert(frames.held() =~= h0);
                }
            }
            return false;
        },
    }
    vm.mapper.write_frame(tmp as u64, buf.as_slice());
    match vm.mapper.map_page(vaddr, tmp as u64, flags) {
        Ok(()) => {
            assert(vm.mapper.mappings()[vaddr].0 == tmp as u64);
            true
        },
        Err(_) => {
            frames.free_page(tmp);
            proof {
                if P::keeps_ledger() {
                    assert(frames.held() =~= h0);
                }
            }
            false
        },
    }
}

/// Resolves a page fault at `fault_addr` with the x86 `error_code` (bit 0:
/// the page was present, bit 1: a write), on the page that holds the
/// address: a swapped-out page is read back, a write to a copy-on-write
/// page gets a private copy, a missing page inside an anonymous area that allows the
/// access is mapped on demand; the fault is counted either way.
pub fn handle_page_fault<M: PageMapper, S: SwapStore, P: PageProvider>(
    vm: &mut VmmState<M, S>,
    frames: &mut P,
    fault_addr: u64,
    error_code: u64,
) -> (r: PageFaultResult)
    requires
        old(vm).wf(),
        stats_room(old(vm).stats),
    ensures
        final(vm).wf(),
        final(vm).vmas == old(vm).vmas,
        ({
            let a = fault_action(*old(vm), fault_addr, error_code);
            let ok = r == PageFaultResult::Resolved;
            &&& ok ==> !(a is Unresolved)
            &&& final(vm).stats == fault_counted(old(vm).stats, a, ok)
            &&& fault_effect(*old(vm), *final(vm), fault_page(fault_addr), a, ok)
        }),
        fault_action(*old(vm), fault_addr, error_code) is Unresolved ==> *final(frames) == *old(frames),
        P::keeps_ledger() && r == PageFaultResult::Unresolved
            && !(fault_action(*old(vm), fault_addr, error_code) is BreakCow)
            ==> final(frames).held() == old(frames).held(),
        ({
            let f = (final(vm).mapper.mappings()[fault_page(fault_addr)].0 as usize) as int;
            P::keeps_ledger() && r == PageFaultResult::Resolved
                ==> !old(frames).held().contains(f) && final(frames).held() == old(frames).held().insert(f)
        }),
{
    let fa = fault_addr as usize;
    let vaddr = fa - fa % VMM_PAGE;
    proof {
        lemma_mod_multiples_basic((fa / 4096) as int, 4096);
        lemma_fundamental_div_mod(fa as int, 4096);
    }
    let swapped = vm.swap.is_swapped(vaddr);
    let present = error_code % 2 == 1;
    let write = error_code / 2 % 2 == 1;
    let cow = !swapped && present && write && is_cow(&vm.mapper, vaddr);
    let vma = find_vma(&vm.vmas, vaddr);
    proof {
        lemma_area_at(vm.vmas@, vaddr, vma);
    }
    let action = decide_fault(error_code, swapped, cow, vma);
    assert(action == fault_action(*old(vm), fault_addr, error_code));
    let ghost v0 = *vm;
    let ghost h0 = frames.held();
    let ok = match action {
        FaultAction::SwapIn(flags) => swap_in_page(vm, frames, vaddr, flags),
        FaultAction::BreakCow(flags) => break_cow(&mut vm.mapper, frames, vaddr, flags).is_ok(),
        FaultAction::DemandMap(flags) => {
            let done = map_anon(&mut vm.mapper, frames, vaddr, 1, flags).is_ok();
            proof {
                if done && P::keeps_ledger() {
                    lemma_run_frames_single(vm.mapper.mappings(), vaddr);
                }
            }
            done
        },
        FaultAction::Unresolved => false,
    };
    account_fault(&mut vm.stats, action, ok)
}

/// What writing the page that holds `addr` out did: the page is unmapped,
/// an entry for `addr` is added last to the registry, its slot holds the
/// bytes of the page's frame, and one more swap-out is counted.
pub open spec fn swapped_out<M: PageMapper, S: SwapStore>(v0: VmmState<M, S>, v1: VmmState<M, S>, addr: usize) -> bool {
    let page = (addr - addr % 4096) as usize;
    let m0 = v0.mapper.mappings();
    let es = v0.swap.spec_entries();
    let es1 = v1.swap.spec_entries();
    &&& m0.contains_key(page)
    &&& entry_of(es, addr) is None
    &&& v1.mapper.mappings() == m0.remove(page)
    &&& es1 == es.push((addr, es1.last().1))
    &&& v1.swap_store.page_data(es1.last().1 as int) == v0.mapper.frame_data(m0[page].0)
    &&& v1.stats == (VmmStats { swap_outs: (v0.stats.swap_outs + 1) as u64, ..v0.stats })
}

/// A page written out to swap and faulted back in holds the bytes it held
/// before: where `v1` is `v0` after `swap_out_page` at the page-aligned
/// `addr`, and `v2` is `v1` after a fault at that page resolved by reading
/// it back, the page is mapped in `v2` to a frame with the same bytes as
/// its frame in `v0`.
pub proof fn lemma_swap_out_in_roundtrip<M: PageMapper, S: SwapStore>(
    v0: VmmState<M, S>,
    v1: VmmState<M, S>,
    v2: VmmState<M, S>,
    addr: usize,
    fault_addr: u64,
    error_code: u64,
)
    requires
        addr % 4096 == 0,
        fault_page(fault_addr) == addr,
        swapped_out(v0, v1, addr),
        fault_effect(v1, v2, addr, fault_action(v1, fault_addr, error_code), true),
    ensures
        v2.mapper.mappings().contains_key(addr),
        v2.mapper.frame_data(v2.mapper.mappings()[addr].0) == v0.mapper.frame_data(v0.mapper.mappings()[addr].0),
        v2.swap.spec_entries() == v0.swap.spec_entries(),
{
    let es = v0.swap.spec_entries();
    let es1 = v1.swap.spec_entries();
    assert(addr - addr % 4096 == addr);
    let n = es.len() as int;
    assert(es1[n].0 == addr);
    assert(entry_of(es1, addr) is Some);
    assert(fault_action(v1, fault_addr, error_code) is SwapIn);
    let i = entry_of(es1, addr)->Some_0;
    if i != n {
        assert(es1[i] == es[i]);
        assert(entry_of(es, addr) is Some);
    }
    assert(es1.remove(n) =~= es);
}

/// Writes the page that holds `addr` out to the swap store, registered
/// under `addr`, then unmaps it and gives its frame back to `frames`. Only
/// a mapped page inside a readable area is written out; false where that
/// does not hold or the swap store takes no more.
pub fn swap_out_page<M: PageMapper, S: SwapStore, P: PageProvider>(
    vm: &mut VmmState<M, S>,
    frames: &mut P,
    addr: usize,
) -> (r: bool)
    requires
        old(vm).wf(),
        old(vm).stats.swap_outs < u64::MAX,
    ensures
        final(vm).wf(),
        final(vm).vmas == old(vm).vmas,
        ({
            let page = (addr - addr % 4096) as usize;
            let m0 = old(vm).mapper.mappings();
            let es = old(vm).swap.spec_entries();
            let readable = area_at(old(vm).vmas@, addr) matches Some(v) && v.perms.read;
            &&& !readable || !m0.contains_key(page) || entry_of(es, addr) is Some || es.len() >= MAX_SWAPPED_PAGES ==> !r
            &&& r ==> swapped_out(*old(vm), *final(vm), addr)
            &&& !r ==> final(vm).mapper == old(vm).mapper && final(vm).swap.spec_entries() == es
                && final(vm).stats == old(vm).stats
        }),
        !r ==> *final(frames) == *old(frames),
        ({
            let page = (addr - addr % 4096) as usize;
            let f = (old(vm).mapper.mappings()[page].0 as usize) as int;
            P::keeps_ledger() && r && old(frames).held().contains(f)
                ==> final(frames).held() == old(frames).held().remove(f)
        }),
{
    let vma = find_vma(&vm.vmas, addr);
    proof {
        lemma_area_at(vm.vmas@, addr, vma);
    }
    let v = match vma {
        Some(v) => v,
        None => return false,
    };
    if !v.perms.read {
        return false;
    }
    let page = addr - addr % VMM_PAGE;
    let phys = match vm.mapper.translate(page) {
        Some(p) => p,
        None => return false,
    };
    proof {
        lemma_mod_multiples_basic((addr / 4096) as int, 4096);
        lemma_fundamental_div_mod(addr as int, 4096);
    }
    let data = vm.mapper.read_frame(phys);
    let ghost es = vm.swap.spec_entries();
    match vm.swap.swap_out(&mut vm.swap_store, addr, data.as_slice()) {
        Ok(()) => {},
        Err(_) => return false,
    }
    assert(vm.swap.spec_entries() =~= es.push((addr, vm.swap.spec_entries().last().1)));
    match vm.mapper.unmap_page(page) {
        Ok(frame) => {
            proof {
                if P::keeps_ledger() {
                    lemma_single_page_block(frame as usize);
                }
            }
            frames.free_page(frame as usize);
            proof {
                if P::keeps_ledger() && old(frames).held().contains((frame as usize) as int) {
                    assert(frames.held() =~= old(frames).held().remove((frame as usize) as int));
                }
            }
        },
        Err(_) => {},
    }
    vm.stats.swap_outs = vm.stats.swap_outs + 1;
    true
}

} // verus!
