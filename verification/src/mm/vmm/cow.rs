use vstd::prelude::*;
use vstd::arithmetic::div_mod::{lemma_fundamental_div_mod, lemma_mod_multiples_basic};
use crate::mm::heap::provider::{PageProvider, lemma_single_page_block};
use crate::mm::vmm::page_table::{page_of, MappingFlags, PageMapper};

verus! {

/// Error of a copy-on-write operation.
#[derive(Debug, Clone, Copy, PartialEq, Eq, Structural)]
pub enum CowError {
    /// The page is not mapped.
    NotMapped,
    /// No frame for the private copy.
    OutOfMemory,
}

/// `flags` made read-only and marked copy-on-write.
pub open spec fn cow_flags_of(flags: MappingFlags) -> MappingFlags {
    MappingFlags { writable: false, cow: true, ..flags }
}

/// `flags` made writable, no longer copy-on-write.
pub open spec fn private_flags_of(flags: MappingFlags) -> MappingFlags {
    MappingFlags { writable: true, cow: false, ..flags }
}

proof fn lemma_page_of_aligned(vaddr: usize)
    ensures
        page_of(vaddr) % 4096 == 0,
        page_of(vaddr) + vaddr % 4096 == vaddr,
{
    lemma_fundamental_div_mod(vaddr as int, 4096);
    lemma_mod_multiples_basic((vaddr / 4096) as int, 4096);
}

/// Marks the page that holds `vaddr` read-only and copy-on-write, keeping
/// the rest of `flags`. Fails where the page is not mapped, and where the
/// page tables fail to map it again (it is then left unmapped).
pub fn mark_cow<M: PageMapper>(mapper: &mut M, vaddr: usize, flags: MappingFlags) -> (r: Result<(), CowError>)
    ensures
        ({
            let page = page_of(vaddr);
            let m0 = old(mapper).mappings();
            match m0.get(page) {
                None => r == Err::<(), CowError>(CowError::NotMapped) && final(mapper).mappings() == m0,
                Some(e) => (r is Ok && final(mapper).mappings() == m0.insert(page, (e.0, cow_flags_of(flags))))
                    || (r == Err::<(), CowError>(CowError::NotMapped) && final(mapper).mappings() == m0.remove(page)),
            }
        }),
{
    let cow_flags = MappingFlags { writable: false, cow: true, ..flags };
    let page = vaddr - vaddr % 4096;
    proof {
        lemma_page_of_aligned(vaddr);
    }
    match mapper.update_flags(page, cow_flags) {
        Ok(()) => Ok(()),
        Err(_) => Err(CowError::NotMapped),
    }
}

/// Maps the page that holds `dst_vaddr` to the frame of the page that holds
/// `src_vaddr`, both read-only and copy-on-write with the rest of `flags`.
pub fn cow_share<M: PageMapper>(
    mapper: &mut M,
    src_vaddr: usize,
    dst_vaddr: usize,
    flags: MappingFlags,
) -> (r: Result<(), CowError>)
    ensures
        ({
            let src = page_of(src_vaddr);
            let dst = page_of(dst_vaddr);
            let m0 = old(mapper).mappings();
            let cf = cow_flags_of(flags);
            match m0.get(src) {
                None => r == Err::<(), CowError>(CowError::NotMapped) && final(mapper).mappings() == m0,
                Some(e) => {
                    let shared = m0.insert(src, (e.0, cf));
                    ||| (r is Ok && !shared.contains_key(dst) && final(mapper).mappings() == shared.insert(dst, (e.0, cf)))
                    ||| (r == Err::<(), CowError>(CowError::OutOfMemory) && final(mapper).mappings() == shared)
                    ||| (r == Err::<(), CowError>(CowError::NotMapped) && final(mapper).mappings() == m0.remove(src))
                },
            }
        }),
{
    let phys = match mapper.translate(src_vaddr) {
        Some(p) => p,
        None => return Err(CowError::NotMapped),
    };
    let frame = phys - phys % 4096;
    proof {
        lemma_page_of_aligned(src_vaddr);
        lemma_page_of_aligned(dst_vaddr);
        let e = old(mapper).mappings()[page_of(src_vaddr)];
        assert(phys == e.0 + src_vaddr % 4096);
    }
    match mark_cow(mapper, src_vaddr, flags) {
        Ok(()) => {},
        Err(e) => return Err(e),
    }
    let cow_flags = MappingFlags { writable: false, cow: true, ..flags };
    let page = dst_vaddr - dst_vaddr % 4096;
    match mapper.map_page(page, frame, cow_flags) {
        Ok(()) => Ok(()),
        Err(_) => Err(CowError::OutOfMemory),
    }
}

/// Gives the page that holds `vaddr` a private, writable copy of its frame
/// in a fresh frame from `frames`, mapped with the rest of `flags`. Where
/// the page tables fail to map the copy, the page is left unmapped and the
/// fresh frame is not given back.
pub fn break_cow<M: PageMapper, P: PageProvider>(
    mapper: &mut M,
    frames: &mut P,
    vaddr: usize,
    flags: MappingFlags,
) -> (r: Result<(), CowError>)
    ensures
        ({
            let page = page_of(vaddr);
            let m0 = old(mapper).mappings();
            let m1 = final(mapper).mappings();
            match m0.get(page) {
                None => r == Err::<(), CowError>(CowError::NotMapped) && m1 == m0,
                Some(e) => {
                    ||| (r is Ok && m1.contains_key(page) && m1[page].1 == private_flags_of(flags)
                        && m1[page].0 % 4096 == 0 && m1 == m0.insert(page, m1[page])
                        && final(mapper).frame_data(m1[page].0) == old(mapper).frame_data(e.0))
                    ||| (r == Err::<(), CowError>(CowError::OutOfMemory) && (m1 == m0 || m1 == m0.remove(page)))
                },
            }
        }),
        old(mapper).mappings().get(page_of(vaddr)) is None ==> *final(frames) == *old(frames),
        P::keeps_ledger() && old(mapper).mappings().contains_key(page_of(vaddr)) ==> {
            let m1 = final(mapper).mappings();
            &&& r is Ok ==> !old(frames).held().contains((m1[page_of(vaddr)].0 as usize) as int)
                && final(frames).held() == old(frames).held().insert((m1[page_of(vaddr)].0 as usize) as int)
            &&& (r is Err && m1 == old(mapper).mappings()) ==> final(frames).held() == old(frames).held()
                && !old(frames).can_supply(0)
            &&& old(frames).can_supply(0) ==> r is Ok || m1 == old(mapper).mappings().remove(page_of(vaddr))
        },
{
    let old_phys = match mapper.translate(vaddr) {
        Some(p) => p,
        None => return Err(CowError::NotMapped),
    };
    let ghost h0 = frames.held();
    let new_phys = match frames.alloc_page() {
        Some(a) => a,
        None => return Err(CowError::OutOfMemory),
    };
    proof {
        lemma_page_of_aligned(vaddr);
        if P::keeps_ledger() {
            lemma_single_page_block(new_phys);
            assert(frames.held() == h0.insert(new_phys as int));
        }
    }
    let old_frame = old_phys - old_phys % 4096;
    mapper.copy_frame(old_frame, new_phys as u64);
    let page = vaddr - vaddr % 4096;
    match mapper.unmap_page(page) {
        Ok(_) => {},
        Err(_) => return Err(CowError::NotMapped),
    }
    let final_flags = MappingFlags { writable: true, cow: false, ..flags };
    match mapper.map_page(page, new_phys as u64, final_flags) {
        Ok(()) => {
            assert(mapper.mappings() =~= old(mapper).mappings().insert(page, mapper.mappings()[page]));
            Ok(())
        },
        Err(_) => Err(CowError::OutOfMemory),
    }
}

/// Whether the page that holds `vaddr` is mapped copy-on-write.
pub fn is_cow<M: PageMapper>(mapper: &M, vaddr: usize) -> (r: bool)
    ensures
        r == (match mapper.mappings().get(page_of(vaddr)) {
            Some(e) => e.1.cow,
            None => false,
        }),
{
    match mapper.pte_flags(vaddr) {
        Some(f) => f.cow,
        None => false,
    }
}

} // verus!
