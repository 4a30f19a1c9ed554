use vstd::prelude::*;
use crate::mm::heap::provider::PageProvider;

verus! {

/// Bytes in a page.
pub const SWAP_PAGE_BYTES: usize = 4096;

/// Backing store for swapped-out pages, slot by slot.
pub trait SwapStore {
    /// The store's own invariant.
    spec fn inv(&self) -> bool;

    /// Number of slots.
    spec fn slot_count(&self) -> nat;

    /// Whether a slot holds a page.
    spec fn in_use(&self, slot: int) -> bool;

    /// The bytes of the page in a slot.
    spec fn page_data(&self, slot: int) -> Seq<u8>;

    /// Number of slots.
    fn capacity(&self) -> (r: usize)
        requires
            self.inv(),
        ensures
            r == self.slot_count();

    /// Takes a free slot, if any.
    fn alloc_slot(&mut self) -> (r: Option<usize>)
        requires
            old(self).inv(),
        ensures
            final(self).inv(),
            final(self).slot_count() == old(self).slot_count(),
            r matches Some(s) ==> s < old(self).slot_count() && !old(self).in_use(s as int) && final(self).in_use(s as int),
            forall|t: int| (r is None || r->Some_0 != t) ==> final(self).in_use(t) == old(self).in_use(t)
                && final(self).page_data(t) == old(self).page_data(t);

    /// Releases a slot.
    fn free_slot(&mut self, slot: usize)
        requires
            old(self).inv(),
        ensures
            final(self).inv(),
            final(self).slot_count() == old(self).slot_count(),
            !final(self).in_use(slot as int),
            forall|t: int| t != slot ==> final(self).in_use(t) == old(self).in_use(t)
                && final(self).page_data(t) == old(self).page_data(t);

    /// Stores a page in a slot in use (a free slot is left alone).
    fn write_page(&mut self, slot: usize, src: &[u8])
        requires
            old(self).inv(),
            slot < old(self).slot_count(),
            src@.len() == 4096,
        ensures
            final(self).inv(),
            final(self).slot_count() == old(self).slot_count(),
            forall|t: int| final(self).in_use(t) == old(self).in_use(t),
            old(self).in_use(slot as int) ==> final(self).page_data(slot as int) == src@,
            forall|t: int| t != slot ==> final(self).page_data(t) == old(self).page_data(t);

    /// Copies the page of a slot in use into `dst` (a free slot leaves
    /// `dst` alone).
    fn read_page(&mut self, slot: usize, dst: &mut [u8])
        requires
            old(self).inv(),
            slot < old(self).slot_count(),
            old(dst)@.len() == 4096,
        ensures
            final(self).inv(),
            final(self).slot_count() == old(self).slot_count(),
            forall|t: int| final(self).in_use(t) == old(self).in_use(t) && final(self).page_data(t) == old(self).page_data(t),
            old(self).in_use(slot as int) ==> final(dst)@ == old(self).page_data(slot as int),
            !old(self).in_use(slot as int) ==> final(dst)@ == old(dst)@,
            final(dst)@.len() == old(dst)@.len();
}

/// Number of the first `k` slots that hold a page.
pub open spec fn used_slots<T>(slots: Seq<Option<T>>, k: nat) -> nat
    decreases k,
{
    if k == 0 || k > slots.len() { 0 } else { used_slots(slots, (k - 1) as nat) + if slots[k - 1] is Some { 1nat } else { 0nat } }
}

/// A swap store in pages taken from a page provider.
pub struct MemorySwapStore<'a, P: PageProvider> {
    provider: &'a mut P,
    slots: Vec<Option<(usize, Vec<u8>)>>,
}

impl<'a, P: PageProvider> MemorySwapStore<'a, P> {
    /// The page provider the slots' pages come from.
    pub closed spec fn spec_provider(&self) -> P {
        *self.provider
    }

    /// Number of slots holding a page.
    pub closed spec fn used_count(&self) -> nat {
        used_slots(self.slots@, self.slots@.len())
    }

    /// Number of slots holding a page.
    pub fn used(&self) -> (r: usize)
        ensures
            r == self.used_count(),
    {
        let mut n: usize = 0;
        let mut i: usize = 0;
        while i < self.slots.len()
            invariant
                i <= self.slots@.len(),
                n == used_slots(self.slots@, i as nat),
                n <= i,
            decreases self.slots@.len() - i,
        {
            if self.slots[i].is_some() {
                n = n + 1;
            }
            i = i + 1;
        }
        n
    }

    /// A store of `capacity` empty slots.
    pub fn new(capacity: usize, provider: &'a mut P) -> (r: Self)
        ensures
            r.inv(),
            r.slot_count() == capacity,
            forall|t: int| !r.in_use(t),
    {
        let mut slots: Vec<Option<(usize, Vec<u8>)>> = Vec::new();
        let mut i: usize = 0;
        while i < capacity
            invariant
                i <= capacity,
                slots@.len() == i,
                forall|t: int| 0 <= t < i ==> (#[trigger] slots@[t]) is None,
            decreases capacity - i,
        {
            slots.push(None);
            i = i + 1;
        }
        MemorySwapStore { provider, slots }
    }
}

impl<'a, P: PageProvider> SwapStore for MemorySwapStore<'a, P> {
    closed spec fn inv(&self) -> bool {
        forall|t: int| 0 <= t < self.slots@.len() && (#[trigger] self.slots@[t]) is Some
            ==> self.slots@[t]->Some_0.1@.len() == 4096
    }

    closed spec fn slot_count(&self) -> nat {
        self.slots@.len()
    }

    closed spec fn in_use(&self, slot: int) -> bool {
        0 <= slot < self.slots@.len() && self.slots@[slot] is Some
    }

    closed spec fn page_data(&self, slot: int) -> Seq<u8> {
        if 0 <= slot < self.slots@.len() && self.slots@[slot] is Some {
            self.slots@[slot]->Some_0.1@
        } else {
            Seq::empty()
        }
    }

    fn capacity(&self) -> (r: usize) {
        self.slots.len()
    }

    /// The lowest free slot, holding a page of zeros, once the provider
    /// has given a page for it; `None` when every slot is taken or the
    /// provider has no page.
    fn alloc_slot(&mut self) -> (r: Option<usize>)
        ensures
            r matches Some(s) ==> (forall|t: int| 0 <= t < s ==> old(self).in_use(t))
                && final(self).page_data(s as int) == Seq::new(4096, |k: int| 0u8),
            P::keeps_ledger() ==> (r is None <==> ((forall|t: int| 0 <= t < old(self).slot_count()
                ==> #[trigger] old(self).in_use(t)) || !old(self).spec_provider().can_supply(0))),
    {
        let mut i: usize = 0;
        while i < self.slots.len()
            invariant
                i <= self.slots@.len(),
                forall|t: int| 0 <= t < i ==> (#[trigger] self.slots@[t]) is Some,
                *self == *old(self),
                self.inv(),
            decreases self.slots@.len() - i,
        {
            if self.slots[i].is_none() {
                let ghost p0 = *self.provider;
                assert(p0 == old(self).spec_provider());
                assert(!old(self).in_use(i as int));
                match self.provider.alloc_page() {
                    Some(page) => {
                        let mut data: Vec<u8> = Vec::new();
                        let mut k: usize = 0;
                        while k < SWAP_PAGE_BYTES
                            invariant
                                k <= 4096,
                                data@ == Seq::new(k as nat, |q: int| 0u8),
                            decreases 4096 - k,
                        {
                            data.push(0);
                            k = k + 1;
                            assert(data@ =~= Seq::new(k as nat, |q: int| 0u8));
                        }
                        self.slots.set(i, Some((page, data)));
                        return Some(i);
                    },
                    None => {
                        return None;
                    },
                }
            }
            i = i + 1;
        }
        None
    }

    fn free_slot(&mut self, slot: usize) {
        if slot < self.slots.len() {
            let page = match &self.slots[slot] {
                Some(entry) => Some(entry.0),
                None => None,
            };
            match page {
                Some(p) => {
                    self.slots.set(slot, None);
                    self.provider.free_page(p);
                },
                None => {},
            }
        }
    }

    fn write_page(&mut self, slot: usize, src: &[u8]) {
        if self.slots[slot].is_some() {
            let page = match &self.slots[slot] {
                Some(entry) => entry.0,
                None => 0,
            };
            let mut data: Vec<u8> = Vec::new();
            let mut k: usize = 0;
            while k < SWAP_PAGE_BYTES
                invariant
                    k <= 4096,
                    src@.len() == 4096,
                    data@ == src@.subrange(0, k as int),
                decreases 4096 - k,
            {
                data.push(src[k]);
                k = k + 1;
                assert(data@ =~= src@.subrange(0, k as int));
            }
            assert(src@.subrange(0, 4096) =~= src@);
            self.slots.set(slot, Some((page, data)));
        }
    }

    fn read_page(&mut self, slot: usize, dst: &mut [u8]) {
        match &self.slots[slot] {
            Some(entry) => {
                let data = &entry.1;
                if data.len() == SWAP_PAGE_BYTES {
                    let mut k: usize = 0;
                    while k < SWAP_PAGE_BYTES
                        invariant
                            k <= 4096,
                            dst@.len() == 4096,
                            data@.len() == 4096,
                            forall|q: int| 0 <= q < k ==> dst@[q] == data@[q],
                        decreases 4096 - k,
                    {
                        dst[k] = data[k];
                        k = k + 1;
                    }
                    assert(dst@ =~= data@);
                }
            },
            None => {},
        }
    }
}


/// Swap operation error.
#[derive(Debug, Clone, Copy, PartialEq, Eq, Structural)]
pub enum SwapError {
    /// No free slot.
    NoSlot,
    /// The page is not swapped out.
    NotSwapped,
    /// The page is swapped out already.
    AlreadySwapped,
}

#[derive(Clone, Copy)]
struct SwapEntry {
    page: usize,
    slot: u32,
    used: bool,
}

/// Largest number of pages swapped out at once.
pub const MAX_SWAPPED_PAGES: usize = 1024;

/// Which pages are swapped out, and to which slot.
pub struct SwapManager {
    entries: Vec<SwapEntry>,
}

/// Index of the entry for `page` in `es`, if any.
pub open spec fn entry_of(es: Seq<(usize, usize)>, page: usize) -> Option<int> {
    if exists|i: int| 0 <= i < es.len() && (#[trigger] es[i]).0 == page {
        Some(choose|i: int| 0 <= i < es.len() && (#[trigger] es[i]).0 == page)
    } else {
        None
    }
}

/// A page written out and read back comes back with its bytes, and the
/// registry is as it was: where `swap_out` of `page` with the bytes `src`
/// succeeded, taking the registry from `es0` to `es1` and leaving the store
/// as `st1`, the entry `swap_in` finds for `page` in `es1` is the new last
/// one, its slot in `st1` holds `src`, and removing it gives back `es0`.
pub proof fn lemma_swap_out_in<S: SwapStore>(es0: Seq<(usize, usize)>, es1: Seq<(usize, usize)>, st1: S, page: usize,
    src: Seq<u8>)
    requires
        entry_of(es0, page) is None,
        es1.len() == es0.len() + 1,
        es1.subrange(0, es0.len() as int) == es0,
        es1.last().0 == page,
        st1.page_data(es1.last().1 as int) == src,
    ensures
        entry_of(es1, page) == Some(es0.len() as int),
        st1.page_data(es1[entry_of(es1, page)->Some_0].1 as int) == src,
        es1.remove(entry_of(es1, page)->Some_0) == es0,
{
    let n = es0.len() as int;
    assert(es1[n].0 == page);
    assert forall|i: int| 0 <= i < es1.len() && (#[trigger] es1[i]).0 == page implies i == n by {
        if i < n {
            assert(es1[i] == es0[i]);
        }
    }
    assert(es1.remove(n) =~= es0);
}

/// The bytes `st` holds for page `p` under the registry `es`, when `p` is
/// out.
pub open spec fn swapped_data<S: SwapStore>(es: Seq<(usize, usize)>, st: S, p: usize) -> Option<Seq<u8>> {
    match entry_of(es, p) {
        Some(i) => Some(st.page_data(es[i].1 as int)),
        None => None,
    }
}

/// Every page but `q` that is out under `(es0, st0)` is still out under
/// `(es1, st1)`, with the same bytes.
pub open spec fn keeps_others<S: SwapStore>(es0: Seq<(usize, usize)>, st0: S, es1: Seq<(usize, usize)>, st1: S,
    q: usize) -> bool {
    forall|p: usize| p != q && (#[trigger] swapped_data(es0, st0, p)) is Some
        ==> swapped_data(es1, st1, p) == swapped_data(es0, st0, p)
}

/// No page is registered twice.
pub open spec fn distinct_pages(es: Seq<(usize, usize)>) -> bool {
    forall|i: int, j: int| 0 <= i < j < es.len() ==> (#[trigger] es[i]).0 != (#[trigger] es[j]).0
}

/// In a registry without repeats, the entry of a page is where it stands.
proof fn lemma_entry_at(es: Seq<(usize, usize)>, p: usize, i: int)
    requires
        distinct_pages(es),
        0 <= i < es.len(),
        es[i].0 == p,
    ensures
        entry_of(es, p) == Some(i),
{
    let j = choose|j: int| 0 <= j < es.len() && (#[trigger] es[j]).0 == p;
    if j < i {
        assert(es[j].0 != es[i].0);
    } else if j > i {
        assert(es[i].0 != es[j].0);
    }
}

/// A registry that only grew, by entries for `q`, over a store that kept
/// the bytes of the old entries' slots, keeps every other page.
proof fn lemma_keeps_grown<S: SwapStore>(es0: Seq<(usize, usize)>, st0: S, es1: Seq<(usize, usize)>, st1: S, q: usize)
    requires
        distinct_pages(es1),
        es0.len() <= es1.len(),
        es1.subrange(0, es0.len() as int) == es0,
        forall|t: int| es0.len() <= t < es1.len() ==> (#[trigger] es1[t]).0 == q,
        forall|t: int| 0 <= t < es0.len() ==> st1.page_data(es0[t].1 as int) == st0.page_data(#[trigger] es0[t].1 as int),
    ensures
        keeps_others(es0, st0, es1, st1, q),
{
    assert forall|p: usize| p != q && (#[trigger] swapped_data(es0, st0, p)) is Some
        implies swapped_data(es1, st1, p) == swapped_data(es0, st0, p) by {
        let i = entry_of(es0, p)->Some_0;
        assert(es1[i] == es0[i]);
        lemma_entry_at(es1, p, i);
    }
}

/// A registry that lost the entry `k` of `q`, over a store that kept the
/// bytes of the remaining entries' slots, keeps every other page.
proof fn lemma_keeps_removed<S: SwapStore>(es0: Seq<(usize, usize)>, st0: S, es1: Seq<(usize, usize)>, st1: S, q: usize,
    k: int)
    requires
        distinct_pages(es0),
        0 <= k < es0.len(),
        es0[k].0 == q,
        es1 == es0.remove(k),
        forall|t: int| 0 <= t < es1.len() ==> st1.page_data(es1[t].1 as int) == st0.page_data(#[trigger] es1[t].1 as int),
    ensures
        keeps_others(es0, st0, es1, st1, q),
{
    assert(distinct_pages(es1)) by {
        assert forall|i: int, j: int| 0 <= i < j < es1.len() implies (#[trigger] es1[i]).0 != (#[trigger] es1[j]).0 by {
            let i2 = if i < k { i } else { i + 1 };
            let j2 = if j < k { j } else { j + 1 };
            assert(es1[i] == es0[i2] && es1[j] == es0[j2]);
        }
    }
    assert forall|p: usize| p != q && (#[trigger] swapped_data(es0, st0, p)) is Some
        implies swapped_data(es1, st1, p) == swapped_data(es0, st0, p) by {
        let i = entry_of(es0, p)->Some_0;
        assert(i != k);
        let i1 = if i < k { i } else { i - 1 };
        assert(es1[i1] == es0[i]);
        lemma_entry_at(es1, p, i1);
    }
}

/// A page written out and read back with any other swaps in between
/// comes back with its bytes: where page `page` is out with bytes `d` at
/// the start of a history whose every step keeps the pages other than the
/// one it swaps (`swap_out` and `swap_in` both state so), and no step swaps
/// `page`, `page` is still out with bytes `d` at the end, which `swap_in`
/// hands back.
pub proof fn lemma_swap_history<S: SwapStore>(ess: Seq<Seq<(usize, usize)>>, sts: Seq<S>, qs: Seq<usize>, page: usize,
    d: Seq<u8>)
    requires
        ess.len() >= 1,
        sts.len() == ess.len(),
        qs.len() + 1 == ess.len(),
        swapped_data(ess[0], sts[0], page) == Some(d),
        forall|i: int| 0 <= i < qs.len() ==> #[trigger] qs[i] != page,
        forall|i: int| 0 <= i < qs.len() ==> #[trigger] keeps_others(ess[i], sts[i], ess[i + 1], sts[i + 1], qs[i]),
    ensures
        swapped_data(ess.last(), sts.last(), page) == Some(d),
    decreases ess.len(),
{
    if ess.len() > 1 {
        let n = ess.len() - 1;
        let pe = ess.subrange(0, n);
        let ps = sts.subrange(0, n);
        let pq = qs.subrange(0, n - 1);
        assert forall|i: int| 0 <= i < pq.len() implies #[trigger] keeps_others(pe[i], ps[i], pe[i + 1], ps[i + 1], pq[i]) by {
            assert(keeps_others(ess[i], sts[i], ess[i + 1], sts[i + 1], qs[i]));
        }
        assert forall|i: int| 0 <= i < pq.len() implies #[trigger] pq[i] != page by {
            assert(qs[i] != page);
        }
        assert(pe[0] == ess[0] && ps[0] == sts[0]);
        lemma_swap_history(pe, ps, pq, page, d);
        let j = n - 1;
        assert(keeps_others(ess[j], sts[j], ess[j + 1], sts[j + 1], qs[j]));
        assert(qs[j] != page);
        assert(ess.subrange(0, n).last() == ess[j] && sts.subrange(0, n).last() == sts[j]);
        assert(swapped_data(ess[j], sts[j], page) == Some(d));
    }
}

impl SwapManager {
    /// The swapped-out pages and their slots, oldest first.
    pub closed spec fn spec_entries(&self) -> Seq<(usize, usize)> {
        Seq::new(self.entries@.len(), |i: int| (self.entries@[i].page, self.entries@[i].slot as usize))
    }

    /// The registry of a sound manager names no page twice.
    pub proof fn lemma_distinct(&self)
        requires
            self.wf(),
        ensures
            distinct_pages(self.spec_entries()),
    {
        assert forall|i: int, j: int| 0 <= i < j < self.spec_entries().len()
            implies (#[trigger] self.spec_entries()[i]).0 != (#[trigger] self.spec_entries()[j]).0 by {
            assert(self.entries@[i].page != self.entries@[j].page);
        }
    }

    /// The manager's invariant: distinct pages, at most 1024 of them.
    pub closed spec fn wf(&self) -> bool {
        &&& self.entries@.len() <= MAX_SWAPPED_PAGES
        &&& forall|i: int| 0 <= i < self.entries@.len() ==> (#[trigger] self.entries@[i]).used
        &&& forall|i: int, j: int| 0 <= i < j < self.entries@.len() ==> (#[trigger] self.entries@[i]).page != (#[trigger] self.entries@[j]).page
    }

    /// Whether the manager and `store` agree: every entry's slot exists and
    /// holds a page, no two entries share a slot.
    pub open spec fn consistent<S: SwapStore>(&self, store: S) -> bool {
        &&& self.wf()
        &&& store.inv()
        &&& store.slot_count() <= u32::MAX
        &&& forall|i: int| 0 <= i < self.spec_entries().len() ==> (#[trigger] self.spec_entries()[i]).1 < store.slot_count()
            && store.in_use(self.spec_entries()[i].1 as int)
        &&& forall|i: int, j: int| 0 <= i < j < self.spec_entries().len()
            ==> (#[trigger] self.spec_entries()[i]).1 != (#[trigger] self.spec_entries()[j]).1
    }

    /// No page swapped out.
    pub fn new() -> (r: Self)
        ensures
            r.wf(),
            r.spec_entries() == Seq::<(usize, usize)>::empty(),
    {
        let r = SwapManager { entries: Vec::new() };
        assert(r.spec_entries() =~= Seq::<(usize, usize)>::empty());
        r
    }

    /// Number of pages swapped out.
    pub fn swapped_pages(&self) -> (r: usize)
        ensures
            r == self.spec_entries().len(),
    {
        self.entries.len()
    }

    fn find(&self, page: usize) -> (r: Option<usize>)
        requires
            self.wf(),
        ensures
            r is None <==> entry_of(self.spec_entries(), page) is None,
            r matches Some(i) ==> i < self.spec_entries().len() && self.spec_entries()[i as int].0 == page
                && entry_of(self.spec_entries(), page) == Some(i as int),
    {
        let ghost es = self.spec_entries();
        let mut i: usize = 0;
        while i < self.entries.len()
            invariant
                self.wf(),
                es == self.spec_entries(),
                i <= es.len(),
                forall|k: int| 0 <= k < i ==> (#[trigger] es[k]).0 != page,
            decreases es.len() - i,
        {
            let e = self.entries[i];
            if e.used && e.page == page {
                assert(es[i as int].0 == page);
                proof {
                    let c = choose|c: int| 0 <= c < es.len() && (#[trigger] es[c]).0 == page;
                    if c != i {
                        assert(self.entries@[c].page == self.entries@[i as int].page);
                    }
                }
                return Some(i);
            }
            i = i + 1;
        }
        None
    }

    /// Whether `page` is swapped out.
    pub fn is_swapped(&self, page: usize) -> (r: bool)
        requires
            self.wf(),
        ensures
            r == (entry_of(self.spec_entries(), page) is Some),
    {
        self.find(page).is_some()
    }

    /// Registers `page` in the slot the store handed out for it, if any:
    /// `NoSlot`, with nothing changed, when there is none; when 1024 pages
    /// are out, `NoSlot` with the slot given back (after the page was
    /// written to it); otherwise the page's 4096 bytes `src` go to the slot
    /// and `page` is registered there, last.
    pub fn record_slot<S: SwapStore>(&mut self, store: &mut S, page: usize, src: &[u8], slot: Option<usize>)
        -> (r: Result<(), SwapError>)
        requires
            old(self).consistent(*old(store)),
            src@.len() == 4096,
            entry_of(old(self).spec_entries(), page) is None,
            slot matches Some(s) ==> s < old(store).slot_count() && old(store).in_use(s as int)
                && forall|i: int| 0 <= i < old(self).spec_entries().len() ==> (#[trigger] old(self).spec_entries()[i]).1 != s,
        ensures
            final(self).consistent(*final(store)),
            slot is None ==> r == Err::<(), SwapError>(SwapError::NoSlot)
                && final(self).spec_entries() == old(self).spec_entries() && *final(store) == *old(store),
            slot matches Some(s) ==> old(self).spec_entries().len() >= MAX_SWAPPED_PAGES ==> {
                &&& r == Err::<(), SwapError>(SwapError::NoSlot)
                &&& final(self).spec_entries() == old(self).spec_entries()
                &&& !final(store).in_use(s as int)
                &&& forall|t: int| t != s ==> #[trigger] final(store).in_use(t) == old(store).in_use(t)
                    && final(store).page_data(t) == old(store).page_data(t)
            },
            slot matches Some(s) ==> old(self).spec_entries().len() < MAX_SWAPPED_PAGES ==> {
                &&& r == Ok::<(), SwapError>(())
                &&& final(self).spec_entries() == old(self).spec_entries().push((page, s))
                &&& final(store).page_data(s as int) == src@
                &&& forall|t: int| #[trigger] final(store).in_use(t) == old(store).in_use(t)
                &&& forall|t: int| t != s ==> #[trigger] final(store).page_data(t) == old(store).page_data(t)
            },
    {
        let s = match slot {
            Some(s) => s,
            None => return Err(SwapError::NoSlot),
        };
        store.write_page(s, src);
        if self.entries.len() >= MAX_SWAPPED_PAGES {
            store.free_slot(s);
            return Err(SwapError::NoSlot);
        }
        let ghost before = self.spec_entries();
        self.entries.push(SwapEntry { page, slot: s as u32, used: true });
        assert(self.spec_entries() =~= before.push((page, s)));
        assert forall|i: int, j: int| 0 <= i < j < self.entries@.len() implies (#[trigger] self.entries@[i]).page != (#[trigger] self.entries@[j]).page by {
            if j == self.entries@.len() - 1 {
                assert(before[i].0 != page);
            }
        }
        Ok(())
    }

    /// Writes the page `page` (its 4096 bytes `src`) to a fresh slot of
    /// `store`. `AlreadySwapped`, with the store untouched, exactly when it
    /// is out already; otherwise the slot the store hands out goes to
    /// `record_slot`, so `NoSlot` when the store has no slot or 1024 pages
    /// are out (the slot taken is then given back).
    pub fn swap_out<S: SwapStore>(&mut self, store: &mut S, page: usize, src: &[u8]) -> (r: Result<(), SwapError>)
        requires
            old(self).consistent(*old(store)),
            src@.len() == 4096,
        ensures
            final(self).consistent(*final(store)),
            entry_of(old(self).spec_entries(), page) is Some ==> r == Err::<(), SwapError>(SwapError::AlreadySwapped)
                && final(self).spec_entries() == old(self).spec_entries() && *final(store) == *old(store),
            r == Err::<(), SwapError>(SwapError::AlreadySwapped) ==> entry_of(old(self).spec_entries(), page) is Some,
            entry_of(old(self).spec_entries(), page) is None ==> (r is Ok || r == Err::<(), SwapError>(SwapError::NoSlot)),
            r is Err ==> forall|t: int| #[trigger] final(store).in_use(t) == old(store).in_use(t),
            r is Err ==> final(self).spec_entries() == old(self).spec_entries(),
            old(self).spec_entries().len() >= MAX_SWAPPED_PAGES && entry_of(old(self).spec_entries(), page) is None
                ==> r == Err::<(), SwapError>(SwapError::NoSlot),
            entry_of(old(self).spec_entries(), page) is None
                && (forall|t: int| 0 <= t < old(store).slot_count() ==> #[trigger] old(store).in_use(t))
                ==> r == Err::<(), SwapError>(SwapError::NoSlot),
            r is Ok ==> entry_of(old(self).spec_entries(), page) is None
                && final(self).spec_entries().len() == old(self).spec_entries().len() + 1
                && final(self).spec_entries().subrange(0, old(self).spec_entries().len() as int) == old(self).spec_entries()
                && final(self).spec_entries().last().0 == page
                && !old(store).in_use(final(self).spec_entries().last().1 as int)
                && final(store).page_data(final(self).spec_entries().last().1 as int) == src@,
            r is Ok ==> forall|t: int| t != final(self).spec_entries().last().1
                ==> #[trigger] final(store).in_use(t) == old(store).in_use(t),
            r is Ok ==> forall|t: int| 0 <= t < old(self).spec_entries().len()
                ==> final(store).page_data(old(self).spec_entries()[t].1 as int) == old(store).page_data(#[trigger] old(self).spec_entries()[t].1 as int),
            r is Err ==> forall|t: int| 0 <= t < old(self).spec_entries().len()
                ==> final(store).page_data(old(self).spec_entries()[t].1 as int) == old(store).page_data(#[trigger] old(self).spec_entries()[t].1 as int),
            keeps_others(old(self).spec_entries(), *old(store), final(self).spec_entries(), *final(store), page),
            r is Ok ==> swapped_data(final(self).spec_entries(), *final(store), page) == Some(src@),
    {
        if self.find(page).is_some() {
            return Err(SwapError::AlreadySwapped);
        }
        let ghost es = self.spec_entries();
        let ghost st0 = *store;
        let slot = store.alloc_slot();
        proof {
            if let Some(s) = slot {
                assert forall|i: int| 0 <= i < es.len() implies (#[trigger] es[i]).1 != s by {
                    assert(st0.in_use(es[i].1 as int));
                }
            }
        }
        let r = self.record_slot(store, page, src, slot);
        proof {
            self.lemma_distinct();
            let es1 = self.spec_entries();
            if let Some(s) = slot {
                if es.len() < MAX_SWAPPED_PAGES {
                    assert(es1.subrange(0, es.len() as int) =~= es);
                    lemma_entry_at(es1, page, es.len() as int);
                } else {
                    assert(es1.subrange(0, es.len() as int) =~= es);
                }
            } else {
                assert(es1.subrange(0, es.len() as int) =~= es);
            }
            lemma_keeps_grown(es, st0, es1, *store, page);
        }
        r
    }

    /// Reads the page `page` back from `store` into `dst` and releases its
    /// slot in the store; `NotSwapped`, with the store untouched, when it is
    /// not out.
    pub fn swap_in<S: SwapStore>(&mut self, store: &mut S, page: usize, dst: &mut [u8]) -> (r: Result<(), SwapError>)
        requires
            old(self).consistent(*old(store)),
            old(dst)@.len() == 4096,
        ensures
            final(self).consistent(*final(store)),
            entry_of(old(self).spec_entries(), page) is None ==> r == Err::<(), SwapError>(SwapError::NotSwapped)
                && final(self).spec_entries() == old(self).spec_entries() && final(dst)@ == old(dst)@,
            final(dst)@.len() == old(dst)@.len(),
            entry_of(old(self).spec_entries(), page) is None ==> *final(store) == *old(store),
            entry_of(old(self).spec_entries(), page) matches Some(i) ==> r is Ok
                && !final(store).in_use(old(self).spec_entries()[i].1 as int)
                && (forall|t: int| t != old(self).spec_entries()[i].1 ==> #[trigger] final(store).in_use(t) == old(store).in_use(t))
                && final(dst)@ == old(store).page_data(old(self).spec_entries()[i].1 as int)
                && final(self).spec_entries() == old(self).spec_entries().remove(i),
            forall|t: int| 0 <= t < final(self).spec_entries().len()
                ==> final(store).page_data(final(self).spec_entries()[t].1 as int) == old(store).page_data(#[trigger] final(self).spec_entries()[t].1 as int),
            keeps_others(old(self).spec_entries(), *old(store), final(self).spec_entries(), *final(store), page),
            r is Ok ==> Some(final(dst)@) == swapped_data(old(self).spec_entries(), *old(store), page)
                && swapped_data(final(self).spec_entries(), *final(store), page) is None,
    {
        proof {
            self.lemma_distinct();
        }
        let idx = match self.find(page) {
            Some(i) => i,
            None => return Err(SwapError::NotSwapped),
        };
        let slot = self.entries[idx].slot as usize;
        let ghost before = self.spec_entries();
        store.read_page(slot, dst);
        store.free_slot(slot);
        self.entries.remove(idx);
        assert(self.spec_entries() =~= before.remove(idx as int));
        assert forall|i: int, j: int| 0 <= i < j < self.entries@.len() implies (#[trigger] self.entries@[i]).page != (#[trigger] self.entries@[j]).page by {
            let i2 = if i < idx { i } else { i + 1 };
            let j2 = if j < idx { j } else { j + 1 };
            assert(self.spec_entries()[i] == before[i2] && self.spec_entries()[j] == before[j2]);
        }
        assert forall|t: int| 0 <= t < self.spec_entries().len() implies (#[trigger] self.spec_entries()[t]).1 < store.slot_count()
            && store.in_use(self.spec_entries()[t].1 as int) by {
            let t2 = if t < idx { t } else { t + 1 };
            assert(self.spec_entries()[t] == before[t2]);
        }
        assert forall|a: int, b: int| 0 <= a < b < self.spec_entries().len() implies (#[trigger] self.spec_entries()[a]).1 != (#[trigger] self.spec_entries()[b]).1 by {
            let a2 = if a < idx { a } else { a + 1 };
            let b2 = if b < idx { b } else { b + 1 };
            assert(self.spec_entries()[a] == before[a2] && self.spec_entries()[b] == before[b2]);
        }
        proof {
            lemma_entry_at(before, page, idx as int);
            lemma_keeps_removed(before, *old(store), self.spec_entries(), *store, page, idx as int);
            self.lemma_distinct();
            if entry_of(self.spec_entries(), page) is Some {
                let j = entry_of(self.spec_entries(), page)->Some_0;
                let j2 = if j < idx { j } else { j + 1 };
                assert(self.spec_entries()[j] == before[j2]);
                assert(before[j2].0 == before[idx as int].0);
            }
        }
        Ok(())
    }
}

} // verus!
