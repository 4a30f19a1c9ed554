use vstd::prelude::*;
use crate::mm::heap::provider::PageProvider;
use crate::mm::heap::slub::{
    SlabCache, init_ok, same_params, alloc_room, alloc_outcome, free_outcome, free_returns_page, holds_page,
    alloc_ledger, free_ledger,
    stride_for, round_up, SLAB_HEADER_SIZE,
};

verus! {

/// Number of cache slots: the kmalloc size buckets and some named caches.
pub const MAX_CACHES: usize = 16;

/// First slot of the kmalloc size buckets.
pub const KMALLOC_BASE_ID: u32 = 0;

/// First slot handed out to named caches.
pub const USER_CACHE_START: usize = 10;

/// A fixed registry of slab caches, indexed by cache id.
pub struct CacheSet {
    caches: Vec<SlabCache>,
    slots: Vec<bool>,
    names: Vec<&'static str>,
}

/// The first free slot of `slots` from `USER_CACHE_START` on.
pub open spec fn first_user_slot(slots: Seq<bool>) -> Option<int> {
    if exists|i: int| USER_CACHE_START <= i < MAX_CACHES && !#[trigger] slots[i] {
        Some(choose|i: int| USER_CACHE_START <= i < MAX_CACHES && !#[trigger] slots[i]
            && forall|j: int| USER_CACHE_START <= j < i ==> #[trigger] slots[j])
    } else {
        None
    }
}

/// The first cache in use that holds a slab on `page`.
pub open spec fn page_owner(s: CacheSet, page: usize) -> Option<int> {
    if exists|i: int| 0 <= i < MAX_CACHES && s.spec_slots()[i] && holds_page(#[trigger] s.spec_caches()[i], page) {
        Some(choose|i: int| 0 <= i < MAX_CACHES && s.spec_slots()[i] && holds_page(#[trigger] s.spec_caches()[i], page)
            && forall|j: int| 0 <= j < i ==> !(s.spec_slots()[j] && holds_page(#[trigger] s.spec_caches()[j], page)))
    } else {
        None
    }
}

/// `new` is `old` with only the cache in slot `id` changed, to `c`.
pub open spec fn only_cache_changed(old: CacheSet, new: CacheSet, id: usize, c: SlabCache) -> bool {
    &&& new.spec_slots() == old.spec_slots()
    &&& new.spec_names() == old.spec_names()
    &&& new.spec_caches() == old.spec_caches().update(id as int, c)
    &&& same_params(old.spec_caches()[id as int], c)
}

/// What `alloc_object` does: nothing, returning 0, for a slot that holds
/// no cache; otherwise what the cache's `allocate` does.
pub open spec fn set_alloc_outcome(old: CacheSet, new: CacheSet, id: usize, r: usize) -> bool {
    if old.spec_exists(id) {
        &&& only_cache_changed(old, new, id, new.spec_caches()[id as int])
        &&& alloc_outcome(old.spec_caches()[id as int], new.spec_caches()[id as int], r)
    } else {
        r == 0 && new == old
    }
}

/// What `free_object` does: nothing, returning false, for a slot that
/// holds no cache; otherwise what the cache's `free` does.
pub open spec fn set_free_outcome(old: CacheSet, new: CacheSet, id: usize, ptr: usize, r: bool) -> bool {
    if old.spec_exists(id) {
        &&& only_cache_changed(old, new, id, new.spec_caches()[id as int])
        &&& free_outcome(old.spec_caches()[id as int], new.spec_caches()[id as int], ptr, r)
    } else {
        !r && new == old
    }
}

impl CacheSet {
    /// The caches by id.
    pub closed spec fn spec_caches(&self) -> Seq<SlabCache> {
        self.caches@
    }

    /// Which slots are in use.
    pub closed spec fn spec_slots(&self) -> Seq<bool> {
        self.slots@
    }

    /// The name registered for each slot.
    pub closed spec fn spec_names(&self) -> Seq<&'static str> {
        self.names@
    }

    /// The registry's invariant: one entry per slot, every cache sound,
    /// caches in use set up, caches not in use holding no page.
    pub open spec fn wf(&self) -> bool {
        &&& self.spec_caches().len() == MAX_CACHES
        &&& self.spec_slots().len() == MAX_CACHES
        &&& self.spec_names().len() == MAX_CACHES
        &&& forall|i: int| 0 <= i < MAX_CACHES ==> {
            &&& (#[trigger] self.spec_caches()[i]).wf()
            &&& self.spec_slots()[i] ==> self.spec_caches()[i].spec_valid()
            &&& self.spec_slots()[i] ==> self.spec_caches()[i].spec_id() == i
            &&& !self.spec_slots()[i] ==> self.spec_caches()[i].spec_slabs() == 0
        }
    }

    /// Whether slot `id` holds a cache.
    pub open spec fn spec_exists(&self, id: usize) -> bool {
        id < MAX_CACHES && self.spec_slots()[id as int]
    }

    /// An empty registry.
    pub fn uninit() -> (r: Self)
        ensures
            r.wf(),
            r.spec_slots() == Seq::new(MAX_CACHES as nat, |i: int| false),
            forall|i: int| 0 <= i < MAX_CACHES ==> (#[trigger] r.spec_names()[i])@ == ""@,
            forall|i: int| 0 <= i < MAX_CACHES ==> (#[trigger] r.spec_caches()[i]).spec_allocated() == 0,
    {
        let mut caches: Vec<SlabCache> = Vec::new();
        let mut slots: Vec<bool> = Vec::new();
        let mut names: Vec<&'static str> = Vec::new();
        let mut i: usize = 0;
        while i < MAX_CACHES
            invariant
                i <= MAX_CACHES,
                caches@.len() == i,
                slots@ == Seq::new(i as nat, |k: int| false),
                names@.len() == i,
                forall|k: int| 0 <= k < i ==> (#[trigger] names@[k])@ == ""@,
                forall|k: int| 0 <= k < i ==> {
                    &&& (#[trigger] caches@[k]).wf()
                    &&& caches@[k].spec_slabs() == 0
                    &&& caches@[k].spec_allocated() == 0
                },
            decreases MAX_CACHES - i,
        {
            caches.push(SlabCache::uninit());
            slots.push(false);
            names.push("");
            i = i + 1;
            assert(slots@ =~= Seq::new(i as nat, |k: int| false));
        }
        CacheSet { caches, slots, names }
    }

    /// Sets up a cache in slot `id` for objects of `request_size` bytes
    /// aligned to `align`, on pages of `page_size` bytes. Returns false,
    /// changing nothing, when `id` is out of range or already in use.
    pub fn create_at(&mut self, id: usize, name: &'static str, request_size: usize, align: usize, page_size: usize) -> (r: bool)
        requires
            old(self).wf(),
            init_ok(request_size, align, page_size),
        ensures
            final(self).wf(),
            r == (id < MAX_CACHES && !old(self).spec_slots()[id as int]),
            !r ==> *final(self) == *old(self),
            r ==> {
                let c = final(self).spec_caches()[id as int];
                &&& final(self).spec_slots() == old(self).spec_slots().update(id as int, true)
                &&& final(self).spec_names() == old(self).spec_names().update(id as int, name)
                &&& forall|j: int| 0 <= j < MAX_CACHES && j != id ==> (#[trigger] final(self).spec_caches()[j])
                    == old(self).spec_caches()[j]
                &&& c.spec_valid()
                &&& c.spec_id() == id
                &&& c.spec_name() == name
                &&& c.spec_stride() == stride_for(request_size, align)
                &&& c.spec_align() == if align < 8 { 8 } else { align as nat }
                &&& c.spec_page_size() == page_size
                &&& c.spec_offset() == round_up(SLAB_HEADER_SIZE as nat, stride_for(request_size, align))
                &&& c.spec_per_slab() == (page_size - c.spec_offset()) / (c.spec_stride() as int)
                &&& c.spec_slabs() == 0
                &&& c.spec_allocated() == 0
                &&& c.spec_counters() == old(self).spec_caches()[id as int].spec_counters()
            },
    {
        if id >= MAX_CACHES || self.slots[id] {
            return false;
        }
        let ghost old_caches = self.caches@;
        self.caches[id].init(id as u32, name, request_size, align, page_size);
        self.slots.set(id, true);
        self.names.set(id, name);
        proof {
            assert forall|j: int| 0 <= j < MAX_CACHES && j != id implies (#[trigger] self.spec_caches()[j])
                == old_caches[j] by {}
        }
        true
    }

    /// Sets up a cache in the first free slot from `USER_CACHE_START` on,
    /// and returns that slot; `None`, changing nothing, when all are in use.
    pub fn create(&mut self, name: &'static str, request_size: usize, align: usize, page_size: usize) -> (r: Option<usize>)
        requires
            old(self).wf(),
            init_ok(request_size, align, page_size),
        ensures
            final(self).wf(),
            r matches Some(id) ==> first_user_slot(old(self).spec_slots()) == Some(id as int)
                && final(self).spec_slots() == old(self).spec_slots().update(id as int, true)
                && final(self).spec_names() == old(self).spec_names().update(id as int, name)
                && final(self).spec_caches()[id as int].spec_valid()
                && final(self).spec_caches()[id as int].spec_allocated() == 0,
            r is None ==> first_user_slot(old(self).spec_slots()) is None && *final(self) == *old(self),
    {
        let mut i: usize = USER_CACHE_START;
        while i < MAX_CACHES
            invariant
                USER_CACHE_START <= i <= MAX_CACHES,
                self.wf(),
                *self == *old(self),
                init_ok(request_size, align, page_size),
                forall|j: int| USER_CACHE_START <= j < i ==> #[trigger] self.spec_slots()[j],
            decreases MAX_CACHES - i,
        {
            if !self.slots[i] {
                proof {
                    let s = self.spec_slots();
                    assert(!s[i as int]);
                    let c = choose|k: int| USER_CACHE_START <= k < MAX_CACHES && !#[trigger] s[k]
                        && forall|j: int| USER_CACHE_START <= j < k ==> #[trigger] s[j];
                    if c < i {
                        assert(s[c]);
                    } else if c > i {
                        assert(s[i as int]);
                    }
                }
                let ok = self.create_at(i, name, request_size, align, page_size);
                return Some(i);
            }
            i = i + 1;
        }
        None
    }

    /// Retires the cache in slot `id`. Returns false, changing nothing, when
    /// the slot is out of range or empty, or the cache still has objects
    /// handed out or pages held.
    pub fn destroy(&mut self, id: usize) -> (r: bool)
        requires
            old(self).wf(),
        ensures
            final(self).wf(),
            r == (old(self).spec_exists(id) && old(self).spec_caches()[id as int].spec_allocated() == 0
                && old(self).spec_caches()[id as int].spec_slabs() == 0),
            !r ==> *final(self) == *old(self),
            r ==> final(self).spec_slots() == old(self).spec_slots().update(id as int, false)
                && final(self).spec_names() == old(self).spec_names().update(id as int, "")
                && final(self).spec_caches() == old(self).spec_caches(),
    {
        if id >= MAX_CACHES || !self.slots[id] {
            return false;
        }
        if self.caches[id].objs_allocated() != 0 || self.caches[id].slab_pages() != 0 {
            return false;
        }
        self.slots.set(id, false);
        self.names.set(id, "");
        true
    }

    /// Whether slot `id` holds a cache.
    pub fn cache_exists(&self, id: usize) -> (r: bool)
        requires
            self.wf(),
        ensures
            r == self.spec_exists(id),
    {
        id < MAX_CACHES && self.slots[id]
    }

    /// The name registered for slot `id`, or `"<invalid>"` for a slot that
    /// holds no cache.
    pub fn name(&self, id: usize) -> (r: &'static str)
        requires
            self.wf(),
        ensures
            self.spec_exists(id) ==> r == self.spec_names()[id as int],
            !self.spec_exists(id) ==> r@ == "<invalid>"@,
    {
        if self.cache_exists(id) {
            self.names[id]
        } else {
            "<invalid>"
        }
    }

    /// The cache in slot `id`.
    pub fn get(&self, id: usize) -> (r: &SlabCache)
        requires
            self.wf(),
            id < MAX_CACHES,
        ensures
            *r == self.spec_caches()[id as int],
    {
        &self.caches[id]
    }

    /// Hands out an object of the cache in slot `id`; 0 when the slot holds
    /// no cache.
    pub fn alloc_object<P: PageProvider>(&mut self, id: usize, provider: &mut P) -> (r: usize)
        requires
            old(self).wf(),
            old(self).spec_exists(id) ==> alloc_room(old(self).spec_caches()[id as int]),
        ensures
            final(self).wf(),
            set_alloc_outcome(*old(self), *final(self), id, r),
            !old(self).spec_exists(id) || old(self).spec_caches()[id as int].spec_per_slab() == 0
                || old(self).spec_caches()[id as int].spec_partial().len() > 0 ==> *final(provider) == *old(provider),
            P::keeps_ledger() && old(self).spec_exists(id) ==> alloc_ledger(old(self).spec_caches()[id as int],
                old(provider).can_supply(0), old(provider).held(), final(provider).held(), r),
    {
        if !self.cache_exists(id) {
            return 0;
        }
        let ghost old_caches = self.caches@;
        let r = self.caches[id].allocate(provider);
        proof {
            assert(self.caches@ =~= old_caches.update(id as int, self.caches@[id as int]));
            assert forall|i: int| 0 <= i < MAX_CACHES implies (#[trigger] self.spec_caches()[i]).wf() by {
                if i != id {
                    assert(self.spec_caches()[i] == old_caches[i]);
                }
            }
        }
        r
    }

    /// Takes back the object at `ptr` into the cache in slot `id`; false,
    /// changing nothing, when the slot holds no cache or the cache refuses
    /// the pointer.
    pub fn free_object<P: PageProvider>(&mut self, id: usize, provider: &mut P, ptr: usize) -> (r: bool)
        requires
            old(self).wf(),
            old(self).spec_exists(id) ==> old(self).spec_caches()[id as int].spec_counters().1 < u64::MAX,
        ensures
            final(self).wf(),
            set_free_outcome(*old(self), *final(self), id, ptr, r),
            !old(self).spec_exists(id) || !free_returns_page(old(self).spec_caches()[id as int], ptr)
                ==> *final(provider) == *old(provider),
            P::keeps_ledger() && old(self).spec_exists(id) ==> free_ledger(old(self).spec_caches()[id as int], ptr,
                old(provider).held(), final(provider).held()),
    {
        if !self.cache_exists(id) {
            return false;
        }
        let ghost old_caches = self.caches@;
        let r = self.caches[id].free(provider, ptr);
        proof {
            assert(self.caches@ =~= old_caches.update(id as int, self.caches@[id as int]));
            assert forall|i: int| 0 <= i < MAX_CACHES implies (#[trigger] self.spec_caches()[i]).wf() by {
                if i != id {
                    assert(self.spec_caches()[i] == old_caches[i]);
                }
            }
        }
        r
    }

    /// The slots in use, in increasing order.
    pub fn iter(&self) -> (r: Vec<usize>)
        requires
            self.wf(),
        ensures
            forall|k: int| 0 <= k < r@.len() ==> (#[trigger] r@[k]) < MAX_CACHES && self.spec_slots()[r@[k] as int],
            forall|i: int| 0 <= i < MAX_CACHES && self.spec_slots()[i] ==> r@.contains(i as usize),
            forall|a: int, b: int| 0 <= a < b < r@.len() ==> r@[a] < r@[b],
    {
        let mut out: Vec<usize> = Vec::new();
        let mut i: usize = 0;
        while i < MAX_CACHES
            invariant
                i <= MAX_CACHES,
                self.wf(),
                forall|k: int| 0 <= k < out@.len() ==> (#[trigger] out@[k]) < i && self.spec_slots()[out@[k] as int],
                forall|j: int| 0 <= j < i && self.spec_slots()[j] ==> out@.contains(j as usize),
                forall|a: int, b: int| 0 <= a < b < out@.len() ==> out@[a] < out@[b],
            decreases MAX_CACHES - i,
        {
            if self.slots[i] {
                let ghost before = out@;
                out.push(i);
                proof {
                    assert forall|j: int| 0 <= j < i + 1 && self.spec_slots()[j] implies out@.contains(j as usize) by {
                        if j < i {
                            assert(before.contains(j as usize));
                            let k = choose|k: int| 0 <= k < before.len() && before[k] == j as usize;
                            assert(out@[k] == j as usize);
                        } else {
                            assert(out@[before.len() as int] == i);
                        }
                    }
                }
            }
            i = i + 1;
        }
        out
    }

    /// The first cache in use that holds a slab on `page`.
    pub fn owner_of(&self, page: usize) -> (r: Option<usize>)
        requires
            self.wf(),
        ensures
            r matches Some(id) ==> page_owner(*self, page) == Some(id as int) && id < MAX_CACHES,
            r is None ==> page_owner(*self, page) is None,
    {
        let mut i: usize = 0;
        while i < MAX_CACHES
            invariant
                i <= MAX_CACHES,
                self.wf(),
                forall|j: int| 0 <= j < i ==> !(self.spec_slots()[j] && holds_page(#[trigger] self.spec_caches()[j], page)),
            decreases MAX_CACHES - i,
        {
            if self.slots[i] && self.caches[i].holds_page(page) {
                proof {
                    let s = *self;
                    assert(s.spec_slots()[i as int] && holds_page(s.spec_caches()[i as int], page));
                    let c = choose|k: int| 0 <= k < MAX_CACHES && s.spec_slots()[k] && holds_page(#[trigger] s.spec_caches()[k], page)
                        && forall|j: int| 0 <= j < k ==> !(s.spec_slots()[j] && holds_page(#[trigger] s.spec_caches()[j], page));
                    if c < i {
                        assert(!(s.spec_slots()[c] && holds_page(s.spec_caches()[c], page)));
                    } else if c > i {
                        assert(!(s.spec_slots()[i as int] && holds_page(s.spec_caches()[i as int], page)));
                    }
                }
                return Some(i);
            }
            i = i + 1;
        }
        None
    }
}

} // verus!
