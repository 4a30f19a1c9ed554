use vstd::prelude::*;
use vstd::arithmetic::div_mod::{lemma_fundamental_div_mod, lemma_mod_multiples_basic};
use crate::mm::heap::provider::{PageProvider, block_pages, lemma_single_page_block};
use crate::mm::vmm::page_table::{page_of, MappingFlags, PageMapper, PageTableError};
use crate::mm::vmm::space::MmapError;

verus! {

/// Error of a request to map or unmap a range of pages.
#[derive(Debug, Clone, Copy, PartialEq, Eq, Structural)]
pub enum MappingError {
    /// No frame for a page or an intermediate table.
    OutOfMemory,
    /// A page of the range is mapped already.
    AlreadyMapped,
    /// A page of the range is not mapped.
    NotMapped,
    /// The request is malformed (an address not page-aligned).
    Invalid,
}

/// The mapping error for a page-table error.
pub open spec fn mapping_error_of(e: PageTableError) -> MappingError {
    match e {
        PageTableError::AlreadyMapped => MappingError::AlreadyMapped,
        PageTableError::OutOfMemory => MappingError::OutOfMemory,
        PageTableError::NotMapped => MappingError::NotMapped,
    }
}

/// The `mmap` error for a mapping error: out of memory stays out of
/// memory, a page mapped already is an overlap, anything else is invalid.
pub open spec fn mmap_error_of(e: MappingError) -> MmapError {
    match e {
        MappingError::OutOfMemory => MmapError::OutOfMemory,
        MappingError::AlreadyMapped => MmapError::Overlap,
        _ => MmapError::Invalid,
    }
}

impl From<PageTableError> for MappingError {
    fn from(e: PageTableError) -> (r: Self) {
        match e {
            PageTableError::AlreadyMapped => MappingError::AlreadyMapped,
            PageTableError::OutOfMemory => MappingError::OutOfMemory,
            PageTableError::NotMapped => MappingError::NotMapped,
        }
    }
}

impl vstd::std_specs::convert::FromSpecImpl<PageTableError> for MappingError {
    open spec fn obeys_from_spec() -> bool {
        true
    }

    open spec fn from_spec(e: PageTableError) -> MappingError {
        mapping_error_of(e)
    }
}

impl From<MappingError> for MmapError {
    fn from(e: MappingError) -> (r: Self) {
        match e {
            MappingError::OutOfMemory => MmapError::OutOfMemory,
            MappingError::AlreadyMapped => MmapError::Overlap,
            _ => MmapError::Invalid,
        }
    }
}

impl vstd::std_specs::convert::FromSpecImpl<MappingError> for MmapError {
    open spec fn obeys_from_spec() -> bool {
        true
    }

    open spec fn from_spec(e: MappingError) -> MmapError {
        mmap_error_of(e)
    }
}

/// The entries of a page table: each mapped page with its frame and attributes.
pub type Mappings = Map<usize, (u64, MappingFlags)>;

/// Whether `p` is one of the pages `lo..hi` of the run of pages that
/// starts at `base`.
pub open spec fn in_run(p: int, base: int, lo: int, hi: int) -> bool {
    &&& base + lo * 4096 <= p < base + hi * 4096
    &&& (p - base) % 4096 == 0
}

/// The pages `lo..hi` of the run that starts at `base`.
pub open spec fn run_set(base: int, lo: int, hi: int) -> Set<usize> {
    Set::new(|p: usize| in_run(p as int, base, lo, hi))
}

/// `new` is `old` with the pages `lo..hi` of the run at `base` added, none
/// of them mapped in `old`, each to some page-aligned frame with `flags`.
pub open spec fn anon_added(old: Mappings, new: Mappings, base: int, lo: int, hi: int, flags: MappingFlags) -> bool {
    &&& forall|p: usize| #[trigger] new.contains_key(p) <==> (old.contains_key(p) || in_run(p as int, base, lo, hi))
    &&& forall|p: usize| #[trigger] old.contains_key(p) ==> !in_run(p as int, base, lo, hi)
    &&& forall|p: usize| #![trigger new[p]] old.contains_key(p) ==> new[p] == old[p]
    &&& forall|p: usize| #![trigger new[p]] in_run(p as int, base, lo, hi) ==> new[p].1 == flags
        && new[p].0 % 4096 == 0 && new[p].0 <= usize::MAX
}

/// The pages `lo..hi` of the run at `base` mapped one to one onto the
/// frames from `phys` on, with `flags`.
pub open spec fn phys_run(base: int, phys: int, lo: int, hi: int, flags: MappingFlags) -> Mappings {
    Map::new(|p: usize| in_run(p as int, base, lo, hi), |p: usize| ((phys + (p - base)) as u64, flags))
}

/// `old` with the pages `lo..hi` of the run at `base` given the attributes
/// `flags`, each keeping its frame.
pub open spec fn reflagged(old: Mappings, base: int, lo: int, hi: int, flags: MappingFlags) -> Mappings {
    Map::new(
        |p: usize| old.contains_key(p),
        |p: usize| if in_run(p as int, base, lo, hi) { (old[p].0, flags) } else { old[p] },
    )
}

/// Whether the pages `0..k` of the run at `base` are all mapped in `m`.
pub open spec fn run_mapped(m: Mappings, base: int, k: int) -> bool {
    forall|p: usize| in_run(p as int, base, 0, k) ==> #[trigger] m.contains_key(p)
}

proof fn lemma_multiple_aligned(base: int, i: int)
    requires
        base % 4096 == 0,
    ensures
        (base + i * 4096) % 4096 == 0,
        (i * 4096) % 4096 == 0,
{
    lemma_mod_multiples_basic(i, 4096);
    lemma_fundamental_div_mod(base, 4096);
    assert(base + i * 4096 == (base / 4096 + i) * 4096) by (nonlinear_arith)
        requires base == 4096 * (base / 4096) + base % 4096, base % 4096 == 0;
    lemma_mod_multiples_basic(base / 4096 + i, 4096);
}

/// A run grows by its next page.
proof fn lemma_run_grow(base: int, lo: int, hi: int)
    requires
        0 <= lo <= hi,
    ensures
        forall|p: int| #[trigger] in_run(p, base, lo, hi + 1) == (in_run(p, base, lo, hi) || p == base + hi * 4096),
{
    lemma_mod_multiples_basic(hi, 4096);
    assert forall|p: int| #[trigger] in_run(p, base, lo, hi + 1) == (in_run(p, base, lo, hi) || p == base + hi * 4096) by {
        if in_run(p, base, lo, hi + 1) && p != base + hi * 4096 {
            let d = p - base;
            lemma_fundamental_div_mod(d, 4096);
            assert(d < hi * 4096) by (nonlinear_arith)
                requires d == 4096 * (d / 4096), d != hi * 4096, d < hi * 4096 + 4096, d >= 0;
        }
    }
}

/// A run loses its first page.
proof fn lemma_run_shrink(base: int, lo: int, hi: int)
    requires
        0 <= lo < hi,
    ensures
        forall|p: int| #[trigger] in_run(p, base, lo, hi) == (in_run(p, base, lo + 1, hi) || p == base + lo * 4096),
{
    lemma_mod_multiples_basic(lo, 4096);
    assert forall|p: int| #[trigger] in_run(p, base, lo, hi) == (in_run(p, base, lo + 1, hi) || p == base + lo * 4096) by {
        if in_run(p, base, lo, hi) && p != base + lo * 4096 {
            let d = p - base;
            lemma_fundamental_div_mod(d, 4096);
            assert(d >= lo * 4096 + 4096) by (nonlinear_arith)
                requires d == 4096 * (d / 4096), d != lo * 4096, d >= lo * 4096;
        }
    }
}

/// The frames, as handed back to a provider, of the pages of `m` among the
/// first `n` pages of the run from `base`.
pub open spec fn run_frames(m: Mappings, base: int, n: int) -> Set<int> {
    Set::new(|f: int| exists|p: usize| #![trigger m[p]] in_run(p as int, base, 0, n) && m.contains_key(p)
        && f == (m[p].0 as usize) as int)
}

/// Whether no two pages of `m` among the first `n` pages of the run from
/// `base` share a frame.
pub open spec fn run_frames_distinct(m: Mappings, base: int, n: int) -> bool {
    forall|p: usize, q: usize| #![trigger m[p], m[q]] in_run(p as int, base, 0, n) && in_run(q as int, base, 0, n)
        && m.contains_key(p) && m.contains_key(q) && p != q ==> (m[p].0 as usize) != (m[q].0 as usize)
}

/// Going one page further along the run adds that page's frame, if mapped.
pub proof fn lemma_run_frames_step(m: Mappings, base: int, i: int)
    requires
        0 <= i,
        0 <= base,
        base + i * 4096 <= usize::MAX,
    ensures
        m.contains_key((base + i * 4096) as usize) ==> run_frames(m, base, i + 1)
            == run_frames(m, base, i).insert((m[(base + i * 4096) as usize].0 as usize) as int),
        !m.contains_key((base + i * 4096) as usize) ==> run_frames(m, base, i + 1) == run_frames(m, base, i),
{
    lemma_run_grow(base, 0, i);
    let page = (base + i * 4096) as usize;
    assert(page as int == base + i * 4096);
    if m.contains_key(page) {
        let fp = (m[page].0 as usize) as int;
        assert forall|f: int| #[trigger] run_frames(m, base, i + 1).contains(f)
            <==> run_frames(m, base, i).insert(fp).contains(f) by {
            if run_frames(m, base, i + 1).contains(f) {
                let p = choose|p: usize| #![trigger m[p]] in_run(p as int, base, 0, i + 1) && m.contains_key(p)
                    && f == (m[p].0 as usize) as int;
                if p != page {
                    assert(in_run(p as int, base, 0, i));
                }
            }
            if run_frames(m, base, i).contains(f) {
                let p = choose|p: usize| #![trigger m[p]] in_run(p as int, base, 0, i) && m.contains_key(p)
                    && f == (m[p].0 as usize) as int;
                assert(in_run(p as int, base, 0, i + 1));
            }
            if f == fp {
                assert(in_run(page as int, base, 0, i + 1));
            }
        }
        assert(run_frames(m, base, i + 1) =~= run_frames(m, base, i).insert(fp));
    } else {
        assert forall|f: int| #[trigger] run_frames(m, base, i + 1).contains(f)
            <==> run_frames(m, base, i).contains(f) by {
            if run_frames(m, base, i + 1).contains(f) {
                let p = choose|p: usize| #![trigger m[p]] in_run(p as int, base, 0, i + 1) && m.contains_key(p)
                    && f == (m[p].0 as usize) as int;
                assert(p != page);
                assert(in_run(p as int, base, 0, i));
            }
            if run_frames(m, base, i).contains(f) {
                let p = choose|p: usize| #![trigger m[p]] in_run(p as int, base, 0, i) && m.contains_key(p)
                    && f == (m[p].0 as usize) as int;
                assert(in_run(p as int, base, 0, i + 1));
            }
        }
        assert(run_frames(m, base, i + 1) =~= run_frames(m, base, i));
    }
}

/// The frames of a shorter stretch of the run are among those of a longer.
pub proof fn lemma_run_frames_monotone(m: Mappings, base: int, i: int, n: int)
    requires
        0 <= i <= n,
    ensures
        run_frames(m, base, i) <= run_frames(m, base, n),
{
    assert forall|f: int| #[trigger] run_frames(m, base, i).contains(f) implies run_frames(m, base, n).contains(f) by {
        let p = choose|p: usize| #![trigger m[p]] in_run(p as int, base, 0, i) && m.contains_key(p)
            && f == (m[p].0 as usize) as int;
        assert(in_run(p as int, base, 0, n));
    }
}

/// Two mappings that agree on the first `n` pages of a run have the same
/// frames there.
pub proof fn lemma_run_frames_agree(m1: Mappings, m2: Mappings, base: int, n: int)
    requires
        forall|p: usize| #![trigger m1.contains_key(p)] #![trigger m2.contains_key(p)] in_run(p as int, base, 0, n)
            ==> (m1.contains_key(p) == m2.contains_key(p) && (m1.contains_key(p) ==> m1[p] == m2[p])),
    ensures
        run_frames(m1, base, n) == run_frames(m2, base, n),
{
    assert forall|f: int| #[trigger] run_frames(m1, base, n).contains(f) <==> run_frames(m2, base, n).contains(f) by {
        if run_frames(m1, base, n).contains(f) {
            let p = choose|p: usize| #![trigger m1[p]] in_run(p as int, base, 0, n) && m1.contains_key(p)
                && f == (m1[p].0 as usize) as int;
            assert(m2.contains_key(p) && m2[p] == m1[p]);
        }
        if run_frames(m2, base, n).contains(f) {
            let p = choose|p: usize| #![trigger m2[p]] in_run(p as int, base, 0, n) && m2.contains_key(p)
                && f == (m2[p].0 as usize) as int;
            assert(m1.contains_key(p) && m1[p] == m2[p]);
        }
    }
    assert(run_frames(m1, base, n) =~= run_frames(m2, base, n));
}

/// Unmapping a page of the run, where no two pages share a frame, removes
/// just its frame.
pub proof fn lemma_run_frames_remove(m: Mappings, base: int, n: int, p: usize)
    requires
        in_run(p as int, base, 0, n),
        m.contains_key(p),
        run_frames_distinct(m, base, n),
    ensures
        run_frames(m.remove(p), base, n) == run_frames(m, base, n).remove((m[p].0 as usize) as int),
        run_frames_distinct(m.remove(p), base, n),
{
    let fp = (m[p].0 as usize) as int;
    let m2 = m.remove(p);
    assert forall|f: int| #[trigger] run_frames(m2, base, n).contains(f)
        <==> run_frames(m, base, n).remove(fp).contains(f) by {
        if run_frames(m2, base, n).contains(f) {
            let q = choose|q: usize| #![trigger m2[q]] in_run(q as int, base, 0, n) && m2.contains_key(q)
                && f == (m2[q].0 as usize) as int;
            assert(m[q] == m2[q]);
            assert((m[q].0 as usize) != (m[p].0 as usize));
        }
        if run_frames(m, base, n).remove(fp).contains(f) {
            let q = choose|q: usize| #![trigger m[q]] in_run(q as int, base, 0, n) && m.contains_key(q)
                && f == (m[q].0 as usize) as int;
            assert(q != p);
            assert(m2.contains_key(q) && m2[q] == m[q]);
        }
    }
    assert(run_frames(m2, base, n) =~= run_frames(m, base, n).remove(fp));
    assert forall|a: usize, b: usize| #![trigger m2[a], m2[b]] in_run(a as int, base, 0, n) && in_run(b as int, base, 0, n)
        && m2.contains_key(a) && m2.contains_key(b) && a != b implies (m2[a].0 as usize) != (m2[b].0 as usize) by {
        assert(m2[a] == m[a] && m2[b] == m[b]);
    }
}

/// A provider ledger `held` that holds exactly `held0` and the frames the
/// pages `0..n` of the run at `base` are mapped to, those frames distinct
/// and none in `held0`.
pub open spec fn ledger_with_run(held: Set<int>, held0: Set<int>, m: Mappings, base: int, n: int) -> bool {
    &&& held == held0 + run_frames(m, base, n)
    &&& run_frames(m, base, n).disjoint(held0)
    &&& run_frames_distinct(m, base, n)
}

/// Frames mapped by `map_anon` go back when the run is unmapped: where
/// `map_anon` left the ledger at `held` over `held0` with the run of `n`
/// pages from `base` mapped in `m`, the run's frames are held, no two
/// pages share one, and giving them back leaves exactly `held0`, which is
/// what `munmap` of the run states it does.
pub proof fn lemma_map_unmap_ledger(held: Set<int>, held0: Set<int>, m: Mappings, base: int, n: int)
    requires
        ledger_with_run(held, held0, m, base, n),
    ensures
        run_frames(m, base, n) <= held,
        run_frames_distinct(m, base, n),
        held - run_frames(m, base, n) == held0,
{
    assert(held - run_frames(m, base, n) =~= held0);
}

/// Unmaps the pages `0..done` of the run at `vaddr` that a caller mapped
/// on top of `m0`, giving their frames back to `frames`.
fn unmap_added<M: PageMapper, P: PageProvider>(
    mapper: &mut M,
    frames: &mut P,
    vaddr: usize,
    done: usize,
    flags: MappingFlags,
    Ghost(m0): Ghost<Mappings>,
    Ghost(held0): Ghost<Set<int>>,
)
    requires
        vaddr + done * 4096 <= usize::MAX,
        vaddr % 4096 == 0,
        anon_added(m0, old(mapper).mappings(), vaddr as int, 0, done as int, flags),
        P::keeps_ledger() ==> ledger_with_run(old(frames).held(), held0, old(mapper).mappings(), vaddr as int, done as int),
    ensures
        final(mapper).mappings() == m0,
        P::keeps_ledger() ==> final(frames).held() == held0,
{
    let mut i: usize = 0;
    while i < done
        invariant
            i <= done,
            vaddr + done * 4096 <= usize::MAX,
            vaddr % 4096 == 0,
            anon_added(m0, mapper.mappings(), vaddr as int, i as int, done as int, flags),
            P::keeps_ledger() ==> ledger_with_run(frames.held(), held0, mapper.mappings(), vaddr as int, done as int),
        decreases done - i,
    {
        let p = vaddr + i * 4096;
        proof {
            lemma_multiple_aligned(vaddr as int, i as int);
            lemma_run_shrink(vaddr as int, i as int, done as int);
            lemma_mod_multiples_basic(i as int, 4096);
        }
        assert(in_run(p as int, vaddr as int, i as int, done as int));
        let ghost mid = mapper.mappings();
        assert(mid.contains_key(p));
        proof {
            if P::keeps_ledger() {
                lemma_run_frames_remove(mid, vaddr as int, done as int, p);
            }
        }
        match mapper.unmap_page(p) {
            Ok(f) => {
                assert(f == mid[p].0);
                let ghost h = frames.held();
                proof {
                    if P::keeps_ledger() {
                        lemma_single_page_block(f as usize);
                        assert(run_frames(mid, vaddr as int, done as int).contains((f as usize) as int));
                    }
                }
                frames.free_page(f as usize);
                proof {
                    if P::keeps_ledger() {
                        let fp = (f as usize) as int;
                        assert(!held0.contains(fp));
                        assert(frames.held() =~= held0 + run_frames(mid, vaddr as int, done as int).remove(fp));
                    }
                }
            },
            Err(_) => {},
        }
        let ghost now = mapper.mappings();
        assert(now == mid.remove(p));
        assert forall|q: usize| #[trigger] now.contains_key(q) <==> (m0.contains_key(q) || in_run(q as int, vaddr as int, i + 1, done as int)) by {
            assert(in_run(q as int, vaddr as int, i as int, done as int) == (in_run(q as int, vaddr as int, i + 1, done as int) || q == p));
        }
        assert forall|q: usize| #![trigger now[q]] m0.contains_key(q) implies now[q] == m0[q] by {
            assert(mid[q] == m0[q]);
        }
        assert forall|q: usize| #[trigger] m0.contains_key(q) implies !in_run(q as int, vaddr as int, i + 1, done as int) by {
            assert(in_run(q as int, vaddr as int, i as int, done as int) == (in_run(q as int, vaddr as int, i + 1, done as int) || q == p));
        }
        assert forall|q: usize| #![trigger now[q]] in_run(q as int, vaddr as int, i + 1, done as int) implies
            now[q].1 == flags && now[q].0 % 4096 == 0 && now[q].0 <= usize::MAX by {
            assert(in_run(q as int, vaddr as int, i as int, done as int));
            assert(mid[q].1 == flags);
        }
        i = i + 1;
    }
    assert(mapper.mappings() =~= m0);
    proof {
        if P::keeps_ledger() {
            assert(run_frames(m0, vaddr as int, done as int) =~= Set::<int>::empty()) by {
                assert forall|f: int| !#[trigger] run_frames(m0, vaddr as int, done as int).contains(f) by {
                    if run_frames(m0, vaddr as int, done as int).contains(f) {
                        let q = choose|q: usize| #![trigger m0[q]] in_run(q as int, vaddr as int, 0, done as int)
                            && m0.contains_key(q) && f == (m0[q].0 as usize) as int;
                        assert(in_run(q as int, vaddr as int, i as int, done as int));
                    }
                }
            }
            assert(frames.held() =~= held0);
        }
    }
}

/// Maps `pages` fresh frames from `frames` at `vaddr` with `flags`, all or
/// nothing: where `frames` runs dry or the page tables refuse a page, every
/// page mapped by this call is unmapped again and its frame given back.
pub fn map_anon<M: PageMapper, P: PageProvider>(
    mapper: &mut M,
    frames: &mut P,
    vaddr: usize,
    pages: usize,
    flags: MappingFlags,
) -> (r: Result<(), MappingError>)
    requires
        vaddr + pages * 4096 <= usize::MAX + 4096,
    ensures
        vaddr % 4096 != 0 ==> r == Err::<(), MappingError>(MappingError::Invalid)
            && final(mapper).mappings() == old(mapper).mappings(),
        vaddr % 4096 == 0 ==> match r {
            Ok(()) => anon_added(old(mapper).mappings(), final(mapper).mappings(), vaddr as int, 0, pages as int, flags),
            Err(MappingError::OutOfMemory) => final(mapper).mappings() == old(mapper).mappings(),
            Err(MappingError::AlreadyMapped) => final(mapper).mappings() == old(mapper).mappings()
                && exists|p: usize| in_run(p as int, vaddr as int, 0, pages as int) && #[trigger] old(mapper).mappings().contains_key(p),
            Err(_) => false,
        },
        P::keeps_ledger() && r is Err ==> final(frames).held() == old(frames).held(),
        P::keeps_ledger() && r is Ok ==> ledger_with_run(final(frames).held(), old(frames).held(),
            final(mapper).mappings(), vaddr as int, pages as int),
{
    if vaddr % 4096 != 0 {
        return Err(MappingError::Invalid);
    }
    let ghost m0 = mapper.mappings();
    let ghost held0 = frames.held();
    proof {
        if P::keeps_ledger() {
            assert(run_frames(m0, vaddr as int, 0) =~= Set::<int>::empty());
            assert(held0 + Set::<int>::empty() =~= held0);
        }
    }
    let mut done: usize = 0;
    while done < pages
        invariant
            done <= pages,
            vaddr + pages * 4096 <= usize::MAX + 4096,
            vaddr % 4096 == 0,
            m0 == old(mapper).mappings(),
            held0 == old(frames).held(),
            anon_added(m0, mapper.mappings(), vaddr as int, 0, done as int, flags),
            P::keeps_ledger() ==> ledger_with_run(frames.held(), held0, mapper.mappings(), vaddr as int, done as int),
        decreases pages - done,
    {
        let ghost h1 = frames.held();
        let phys = match frames.alloc_page() {
            Some(a) => a,
            None => {
                unmap_added(mapper, frames, vaddr, done, flags, Ghost(m0), Ghost(held0));
                return Err(MappingError::OutOfMemory);
            },
        };
        proof {
            if P::keeps_ledger() {
                lemma_single_page_block(phys);
                assert(block_pages(phys, 0).contains(phys as int));
                assert(!h1.contains(phys as int));
                assert(frames.held() == h1 + set![phys as int]);
            }
        }
        let page = vaddr + done * 4096;
        proof {
            lemma_multiple_aligned(vaddr as int, done as int);
            lemma_run_grow(vaddr as int, 0, done as int);
        }
        let ghost before = mapper.mappings();
        match mapper.map_page(page, phys as u64, flags) {
            Ok(()) => {
                let ghost now = mapper.mappings();
                assert(!before.contains_key(page));
                assert forall|p: usize| #[trigger] now.contains_key(p) <==> (m0.contains_key(p) || in_run(p as int, vaddr as int, 0, done + 1)) by {
                    assert(in_run(p as int, vaddr as int, 0, done + 1) == (in_run(p as int, vaddr as int, 0, done as int) || p == page));
                }
                assert forall|p: usize| #![trigger now[p]] m0.contains_key(p) implies now[p] == m0[p] by {
                    assert(before.contains_key(p));
                    assert(before[p] == m0[p]);
                }
                assert forall|p: usize| #[trigger] m0.contains_key(p) implies !in_run(p as int, vaddr as int, 0, done + 1) by {
                    assert(in_run(p as int, vaddr as int, 0, done + 1) == (in_run(p as int, vaddr as int, 0, done as int) || p == page));
                    assert(before.contains_key(p));
                }
                assert forall|p: usize| #![trigger now[p]] in_run(p as int, vaddr as int, 0, done + 1) implies
                    now[p].1 == flags && now[p].0 % 4096 == 0 && now[p].0 <= usize::MAX by {
                    assert(in_run(p as int, vaddr as int, 0, done + 1) == (in_run(p as int, vaddr as int, 0, done as int) || p == page));
                    if p != page {
                        assert(before[p].1 == flags);
                    }
                }
                assert(anon_added(m0, mapper.mappings(), vaddr as int, 0, done + 1, flags));
                proof {
                    if P::keeps_ledger() {
                        let f = (phys as u64 as usize) as int;
                        assert(f == phys as int);
                        lemma_run_frames_agree(before, now, vaddr as int, done as int);
                        lemma_run_frames_step(now, vaddr as int, done as int);
                        assert(now[page].0 == phys as u64);
                        assert(!run_frames(before, vaddr as int, done as int).contains(f));
                        assert(frames.held() =~= held0 + run_frames(now, vaddr as int, done + 1));
                        assert forall|a: usize, b: usize| #![trigger now[a], now[b]] in_run(a as int, vaddr as int, 0, done + 1)
                            && in_run(b as int, vaddr as int, 0, done + 1) && now.contains_key(a) && now.contains_key(b)
                            && a != b implies (now[a].0 as usize) != (now[b].0 as usize) by {
                            if a != page && b != page {
                                assert(in_run(a as int, vaddr as int, 0, done as int));
                                assert(in_run(b as int, vaddr as int, 0, done as int));
                                assert(before[a] == now[a] && before[b] == now[b]);
                            } else if a == page {
                                assert(in_run(b as int, vaddr as int, 0, done as int));
                                assert(before[b] == now[b]);
                                assert(run_frames(before, vaddr as int, done as int).contains((now[b].0 as usize) as int));
                            } else {
                                assert(in_run(a as int, vaddr as int, 0, done as int));
                                assert(before[a] == now[a]);
                                assert(run_frames(before, vaddr as int, done as int).contains((now[a].0 as usize) as int));
                            }
                        }
                    }
                }
            },
            Err(e) => {
                assert(!in_run(page as int, vaddr as int, 0, done as int));
                frames.free_page(phys);
                proof {
                    if P::keeps_ledger() {
                        assert(!h1.contains(phys as int));
                        assert(frames.held() =~= h1);
                    }
                }
                unmap_added(mapper, frames, vaddr, done, flags, Ghost(m0), Ghost(held0));
                assert(in_run(page as int, vaddr as int, 0, pages as int));
                assert(e == PageTableError::AlreadyMapped ==> m0.contains_key(page));
                return match e {
                    PageTableError::AlreadyMapped => Err(MappingError::AlreadyMapped),
                    _ => Err(MappingError::OutOfMemory),
                };
            },
        }
        done = done + 1;
    }
    Ok(())
}

/// Maps the `pages` frames from `phys` on at `vaddr` with `flags`. Where
/// a page is refused the pages mapped before it stay mapped.
pub fn map_phys<M: PageMapper>(
    mapper: &mut M,
    vaddr: usize,
    phys: usize,
    pages: usize,
    flags: MappingFlags,
) -> (r: Result<(), MappingError>)
    requires
        vaddr + pages * 4096 <= usize::MAX + 4096,
        phys + pages * 4096 <= usize::MAX + 4096,
    ensures
        vaddr % 4096 != 0 || phys % 4096 != 0 ==> r == Err::<(), MappingError>(MappingError::Invalid)
            && final(mapper).mappings() == old(mapper).mappings(),
        vaddr % 4096 == 0 && phys % 4096 == 0 ==> match r {
            Ok(()) => (forall|p: usize| in_run(p as int, vaddr as int, 0, pages as int) ==> !#[trigger] old(mapper).mappings().contains_key(p))
                && final(mapper).mappings() == old(mapper).mappings().union_prefer_right(
                    phys_run(vaddr as int, phys as int, 0, pages as int, flags)),
            Err(e) => exists|k: int| 0 <= k < pages
                && (forall|p: usize| in_run(p as int, vaddr as int, 0, k) ==> !#[trigger] old(mapper).mappings().contains_key(p))
                && #[trigger] final(mapper).mappings() == old(mapper).mappings().union_prefer_right(
                    phys_run(vaddr as int, phys as int, 0, k, flags))
                && (e == MappingError::AlreadyMapped) == old(mapper).mappings().contains_key((vaddr + k * 4096) as usize)
                && (e == MappingError::AlreadyMapped || e == MappingError::OutOfMemory),
        },
{
    if vaddr % 4096 != 0 || phys % 4096 != 0 {
        return Err(MappingError::Invalid);
    }
    let ghost m0 = mapper.mappings();
    let mut done: usize = 0;
    assert(m0.union_prefer_right(phys_run(vaddr as int, phys as int, 0, 0, flags)) =~= m0);
    while done < pages
        invariant
            done <= pages,
            vaddr + pages * 4096 <= usize::MAX + 4096,
            phys + pages * 4096 <= usize::MAX + 4096,
            vaddr % 4096 == 0,
            phys % 4096 == 0,
            m0 == old(mapper).mappings(),
            forall|p: usize| in_run(p as int, vaddr as int, 0, done as int) ==> !#[trigger] m0.contains_key(p),
            mapper.mappings() == m0.union_prefer_right(phys_run(vaddr as int, phys as int, 0, done as int, flags)),
        decreases pages - done,
    {
        let page = vaddr + done * 4096;
        let frame = phys + done * 4096;
        proof {
            lemma_multiple_aligned(vaddr as int, done as int);
            lemma_multiple_aligned(phys as int, done as int);
            lemma_run_grow(vaddr as int, 0, done as int);
        }
        assert(!in_run(page as int, vaddr as int, 0, done as int));
        let ghost before = mapper.mappings();
        match mapper.map_page(page, frame as u64, flags) {
            Ok(()) => {
                assert(!m0.contains_key(page));
                assert(mapper.mappings() =~= m0.union_prefer_right(
                    phys_run(vaddr as int, phys as int, 0, done + 1, flags)));
            },
            Err(e) => {
                assert(before.contains_key(page) == m0.contains_key(page));
                let r = match e {
                    PageTableError::AlreadyMapped => MappingError::AlreadyMapped,
                    _ => MappingError::OutOfMemory,
                };
                assert(mapper.mappings() == m0.union_prefer_right(phys_run(vaddr as int, phys as int, 0, done as int, flags)));
                return Err(r);
            },
        }
        done = done + 1;
    }
    Ok(())
}

/// Unmaps the `pages` pages from the page that holds `vaddr`, giving each
/// frame back to `frames` where `anon` says the frames came from there.
/// Stops at the first page that is not mapped.
pub fn unmap_range<M: PageMapper, P: PageProvider>(
    mapper: &mut M,
    frames: &mut P,
    vaddr: usize,
    pages: usize,
    anon: bool,
) -> (r: Result<(), MappingError>)
    requires
        vaddr + pages * 4096 <= usize::MAX + 4096,
    ensures
        ({
            let base = page_of(vaddr) as int;
            match r {
                Ok(()) => run_mapped(old(mapper).mappings(), base, pages as int)
                    && final(mapper).mappings() == old(mapper).mappings().remove_keys(run_set(base, 0, pages as int)),
                Err(e) => e == MappingError::NotMapped && exists|k: int| 0 <= k < pages
                    && run_mapped(old(mapper).mappings(), base, k)
                    && !old(mapper).mappings().contains_key((base + k * 4096) as usize)
                    && #[trigger] final(mapper).mappings() == old(mapper).mappings().remove_keys(run_set(base, 0, k)),
            }
        }),
{
    let base = vaddr - vaddr % 4096;
    proof {
        lemma_mod_multiples_basic((vaddr / 4096) as int, 4096);
        lemma_fundamental_div_mod(vaddr as int, 4096);
    }
    assert(base % 4096 == 0);
    let ghost m0 = mapper.mappings();
    assert(m0.remove_keys(run_set(base as int, 0, 0)) =~= m0);
    let mut i: usize = 0;
    while i < pages
        invariant
            i <= pages,
            base + pages * 4096 <= usize::MAX + 4096,
            base % 4096 == 0,
            base == page_of(vaddr),
            m0 == old(mapper).mappings(),
            run_mapped(m0, base as int, i as int),
            mapper.mappings() == m0.remove_keys(run_set(base as int, 0, i as int)),
        decreases pages - i,
    {
        let page = base + i * 4096;
        proof {
            lemma_multiple_aligned(base as int, i as int);
            lemma_run_grow(base as int, 0, i as int);
        }
        assert(!in_run(page as int, base as int, 0, i as int));
        match mapper.unmap_page(page) {
            Ok(f) => {
                if anon {
                    frames.free_page(f as usize);
                }
                assert(mapper.mappings() =~= m0.remove_keys(run_set(base as int, 0, i + 1)));
            },
            Err(_) => {
                assert(!m0.contains_key(page));
                return Err(MappingError::NotMapped);
            },
        }
        i = i + 1;
    }
    Ok(())
}

/// Gives the `pages` pages from the page that holds `vaddr` the attributes
/// `flags`, each keeping its frame. Stops at the first page that is not
/// mapped, or that the page tables fail to map again (it is then left
/// unmapped).
pub fn update_range<M: PageMapper>(
    mapper: &mut M,
    vaddr: usize,
    pages: usize,
    flags: MappingFlags,
) -> (r: Result<(), MappingError>)
    requires
        vaddr + pages * 4096 <= usize::MAX + 4096,
    ensures
        ({
            let base = page_of(vaddr) as int;
            let m0 = old(mapper).mappings();
            match r {
                Ok(()) => run_mapped(m0, base, pages as int)
                    && final(mapper).mappings() == reflagged(m0, base, 0, pages as int, flags),
                Err(MappingError::NotMapped) => exists|k: int| 0 <= k < pages && run_mapped(m0, base, k)
                    && !m0.contains_key((base + k * 4096) as usize)
                    && #[trigger] final(mapper).mappings() == reflagged(m0, base, 0, k, flags),
                Err(MappingError::OutOfMemory) => exists|k: int| 0 <= k < pages && run_mapped(m0, base, k + 1)
                    && #[trigger] final(mapper).mappings() == reflagged(m0, base, 0, k, flags).remove((base + k * 4096) as usize),
                Err(_) => false,
            }
        }),
{
    let base = vaddr - vaddr % 4096;
    proof {
        lemma_mod_multiples_basic((vaddr / 4096) as int, 4096);
        lemma_fundamental_div_mod(vaddr as int, 4096);
    }
    let ghost m0 = mapper.mappings();
    assert(reflagged(m0, base as int, 0, 0, flags) =~= m0);
    let mut i: usize = 0;
    while i < pages
        invariant
            i <= pages,
            base + pages * 4096 <= usize::MAX + 4096,
            base % 4096 == 0,
            base == page_of(vaddr),
            m0 == old(mapper).mappings(),
            run_mapped(m0, base as int, i as int),
            mapper.mappings() == reflagged(m0, base as int, 0, i as int, flags),
        decreases pages - i,
    {
        let page = base + i * 4096;
        proof {
            lemma_multiple_aligned(base as int, i as int);
            lemma_run_grow(base as int, 0, i as int);
        }
        assert(!in_run(page as int, base as int, 0, i as int));
        assert(in_run(page as int, base as int, 0, i + 1));
        match mapper.update_flags(page, flags) {
            Ok(()) => {
                assert(mapper.mappings() =~= reflagged(m0, base as int, 0, i + 1, flags));
            },
            Err(e) => {
                return match e {
                    PageTableError::NotMapped => Err(MappingError::NotMapped),
                    _ => Err(MappingError::OutOfMemory),
                };
            },
        }
        i = i + 1;
    }
    Ok(())
}

/// Whether the page that holds `vaddr` is mapped.
pub fn is_mapped<M: PageMapper>(mapper: &M, vaddr: usize) -> (r: bool)
    ensures
        r == mapper.mappings().contains_key(page_of(vaddr)),
{
    mapper.translate(vaddr).is_some()
}

} // verus!
