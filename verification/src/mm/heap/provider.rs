use vstd::prelude::*;
use vstd::arithmetic::power2::{pow2, lemma_pow2_pos};
use crate::mm::pmm::buddy_math::{count_true, lemma_count_push, lemma_count_le_len, order_pages};

verus! {

/// Size in bytes of the pages a provider hands out.
pub const PROVIDER_PAGE: usize = 4096;

/// What every block a provider hands out is: a nonzero, page-aligned
/// address whose `2^order` pages fit below the top of the address space.
pub open spec fn page_block_ok(addr: usize, order: usize) -> bool {
    &&& addr > 0
    &&& addr % 4096 == 0
    &&& addr + pow2(order as nat) * 4096 <= usize::MAX
}

/// The addresses of the `2^order` pages of the block at `addr`.
pub open spec fn block_pages(addr: usize, order: usize) -> Set<int> {
    Set::new(|p: int| addr <= p < addr + pow2(order as nat) * 4096 && (p - addr) % 4096 == 0)
}

/// The one page of a block of order 0 is its address.
pub proof fn lemma_single_page_block(a: usize)
    ensures
        block_pages(a, 0) == set![a as int],
{
    assert(pow2(0) == 1) by {
        vstd::arithmetic::power2::lemma2_to64();
    }
    assert(block_pages(a, 0) =~= set![a as int]);
}

/// A source of physical pages for the heap and the swap store.
///
/// A provider may keep a ledger: the set `held` of pages it has handed out
/// and not got back, and `can_supply`, whether a block of an order can be had
/// now. Where `keeps_ledger` holds, the methods below state how they move
/// the ledger; a provider that keeps none promises only the block's shape.
pub trait PageProvider {
    /// Whether this provider keeps the ledger.
    open spec fn keeps_ledger() -> bool {
        false
    }

    /// Pages handed out and not yet returned.
    open spec fn held(&self) -> Set<int> {
        Set::empty()
    }

    /// Whether a block of `2^order` pages can be handed out now.
    open spec fn can_supply(&self, order: usize) -> bool {
        false
    }

    /// One page, or `None` when none is left.
    fn alloc_page(&mut self) -> (r: Option<usize>)
        ensures
            r matches Some(a) ==> page_block_ok(a, 0),
            Self::keeps_ledger() ==> (r is Some <==> old(self).can_supply(0)),
            Self::keeps_ledger() ==> (match r {
                Some(a) => block_pages(a, 0).disjoint(old(self).held())
                    && final(self).held() == old(self).held() + block_pages(a, 0),
                None => final(self).held() == old(self).held(),
            }),
    {
        self.alloc_pages(0)
    }

    /// Returns one page.
    fn free_page(&mut self, page_addr: usize)
        ensures
            Self::keeps_ledger() && block_pages(page_addr, 0) <= old(self).held()
                ==> final(self).held() == old(self).held() - block_pages(page_addr, 0),
    {
        self.free_pages(0, page_addr)
    }

    /// `2^order` contiguous pages, or `None`.
    fn alloc_pages(&mut self, order: usize) -> (r: Option<usize>)
        ensures
            r matches Some(a) ==> page_block_ok(a, order),
            Self::keeps_ledger() ==> (r is Some <==> old(self).can_supply(order)),
            Self::keeps_ledger() ==> (match r {
                Some(a) => block_pages(a, order).disjoint(old(self).held())
                    && final(self).held() == old(self).held() + block_pages(a, order),
                None => final(self).held() == old(self).held(),
            }),
    ;

    /// Returns `2^order` contiguous pages.
    fn free_pages(&mut self, order: usize, page_addr: usize)
        ensures
            Self::keeps_ledger() && order < usize::BITS && block_pages(page_addr, order) <= old(self).held()
                ==> final(self).held() == old(self).held() - block_pages(page_addr, order),
    ;
}

/// Whether the `n` pages from `start` are all free in `used`.
pub open spec fn run_free(used: Seq<bool>, start: int, n: int) -> bool {
    forall|k: int| start <= k < start + n ==> !#[trigger] used[k]
}

/// The first `n`-aligned block start `>= from` whose `n` pages are free.
pub open spec fn first_free_run(used: Seq<bool>, n: nat, from: nat) -> Option<nat>
    decreases used.len() - from,
{
    if n == 0 || from + n > used.len() {
        None
    } else if run_free(used, from as int, n as int) {
        Some(from)
    } else {
        first_free_run(used, n, from + n)
    }
}

/// The addresses of the pages marked in `used`, for a pool from `base` on.
pub open spec fn held_pages(used: Seq<bool>, base: nat) -> Set<int> {
    Set::new(|p: int| base <= p < base + used.len() * 4096 && (p - base) % 4096 == 0 && used[(p - base) / 4096])
}

/// A fixed pool of pages for tests and tools: `capacity` pages from a base
/// address on, handed out as aligned power-of-two blocks, lowest first.
pub struct FakeProvider {
    base: usize,
    cap: usize,
    used: Vec<bool>,
    free: usize,
}

/// Base address of the pool.
pub const FAKE_POOL_BASE: usize = 0x10_0000;

/// `used` with the pages `[start, start + n)` set to `v`.
pub open spec fn set_run(used: Seq<bool>, start: int, n: int, v: bool) -> Seq<bool> {
    Seq::new(used.len(), |k: int| if start <= k < start + n { v } else { used[k] })
}

/// Whether `addr` is the base of an `n`-aligned, fully used block of the
/// pool.
pub open spec fn used_block(used: Seq<bool>, base: nat, addr: int, n: nat) -> bool {
    let start = (addr - base) / 4096;
    &&& addr >= base
    &&& (addr - base) % 4096 == 0
    &&& n > 0
    &&& start % (n as int) == 0
    &&& start + n <= used.len()
    &&& forall|k: int| start <= k < start + n ==> #[trigger] used[k]
}

/// A copy of `used` with the run `[start, start + n)` set to `v`, and how
/// the count of used pages moves.
fn copy_with_run(used: &Vec<bool>, start: usize, n: usize, v: bool) -> (r: Vec<bool>)
    requires
        start + n <= used@.len(),
        forall|k: int| start <= k < start + n ==> #[trigger] used@[k] == !v,
    ensures
        r@ == set_run(used@, start as int, n as int, v),
        v ==> count_true(r@) == count_true(used@) + n,
        !v ==> count_true(r@) + n == count_true(used@),
{
    let mut out: Vec<bool> = Vec::new();
    let mut i: usize = 0;
    while i < used.len()
        invariant
            i <= used@.len(),
            start + n <= used@.len(),
            forall|k: int| start <= k < start + n ==> #[trigger] used@[k] == !v,
            out@ == set_run(used@, start as int, n as int, v).subrange(0, i as int),
            count_true(out@) + (if v { 0int } else { if i <= start { 0int } else if i >= start + n { n as int } else { i - start } })
                == count_true(used@.subrange(0, i as int)) + (if v { if i <= start { 0int } else if i >= start + n { n as int } else { i - start } } else { 0int }),
        decreases used@.len() - i,
    {
        let x = if start <= i && i < start + n { v } else { used[i] };
        proof {
            lemma_count_push(out@, x);
            assert(used@.subrange(0, i + 1) =~= used@.subrange(0, i as int).push(used@[i as int]));
            lemma_count_push(used@.subrange(0, i as int), used@[i as int]);
        }
        out.push(x);
        i = i + 1;
        assert(out@ =~= set_run(used@, start as int, n as int, v).subrange(0, i as int));
    }
    assert(used@.subrange(0, i as int) =~= used@);
    assert(set_run(used@, start as int, n as int, v).subrange(0, i as int) =~= set_run(used@, start as int, n as int, v));
    out
}

impl FakeProvider {
    /// Which pages are taken.
    pub closed spec fn spec_used(&self) -> Seq<bool> {
        self.used@
    }

    /// Base address of the pool.
    pub closed spec fn spec_base(&self) -> nat {
        self.base as nat
    }

    /// Number of free pages.
    pub closed spec fn spec_free(&self) -> nat {
        self.free as nat
    }

    /// The pool's invariant: one flag per page, the free count matches.
    #[verifier::type_invariant]
    closed spec fn pool_ok(&self) -> bool {
        &&& self.used@.len() == self.cap
        &&& self.base == FAKE_POOL_BASE
        &&& self.base + self.cap * 4096 <= usize::MAX
        &&& count_true(self.used@) <= self.cap
        &&& self.free == self.cap - count_true(self.used@)
    }

    /// A pool of `capacity_pages` free pages.
    pub fn new(capacity_pages: usize) -> (r: Self)
        requires
            FAKE_POOL_BASE + capacity_pages * 4096 <= usize::MAX,
        ensures
            r.spec_used() == Seq::new(capacity_pages as nat, |i: int| false),
            r.spec_free() == capacity_pages,
            r.spec_base() == FAKE_POOL_BASE,
    {
        let mut used: Vec<bool> = Vec::new();
        let mut i: usize = 0;
        while i < capacity_pages
            invariant
                i <= capacity_pages,
                used@ == Seq::new(i as nat, |k: int| false),
                count_true(used@) == 0,
            decreases capacity_pages - i,
        {
            proof {
                lemma_count_push(used@, false);
            }
            used.push(false);
            i = i + 1;
            assert(used@ =~= Seq::new(i as nat, |k: int| false));
        }
        FakeProvider { base: FAKE_POOL_BASE, cap: capacity_pages, used, free: capacity_pages }
    }

    /// Number of free pages.
    pub fn free_count(&self) -> (r: usize)
        ensures
            r == self.spec_free(),
            r + count_true(self.spec_used()) == self.spec_used().len(),
    {
        proof {
            use_type_invariant(self);
        }
        self.free
    }

    /// Number of pages in the pool.
    pub fn capacity(&self) -> (r: usize)
        ensures
            r == self.spec_used().len(),
    {
        proof {
            use_type_invariant(self);
        }
        self.cap
    }
}

/// A page lies in the block of `n` pages at `base + start * 4096` exactly when
/// its index from `base` lies in `[start, start + n)`.
proof fn lemma_block_index(base: nat, start: nat, n: nat, a: int, p: int)
    requires
        a == base + start * 4096,
    ensures
        (a <= p < a + n * 4096 && (p - a) % 4096 == 0) <==> (base <= p && (p - base) % 4096 == 0
            && start <= (p - base) / 4096 < start + n),
{
    assert((a <= p < a + n * 4096 && (p - a) % 4096 == 0) <==> (base <= p && (p - base) % 4096 == 0
        && start <= (p - base) / 4096 < start + n)) by (nonlinear_arith)
        requires
            a == base + start * 4096,
    {
        if base <= p && (p - base) % 4096 == 0 {
            let k = (p - base) / 4096;
            assert(p - base == k * 4096);
            assert(p - a == (k - start) * 4096);
        }
        if a <= p && (p - a) % 4096 == 0 {
            let j = (p - a) / 4096;
            assert(p - a == j * 4096);
            assert(p - base == (j + start) * 4096);
        }
    }
}

/// Marking the free run `[start, start + n)` used adds exactly its pages to
/// the held set, and none of them was held before.
proof fn lemma_ledger_take(used: Seq<bool>, base: nat, start: nat, order: usize, a: int)
    requires
        a == base + start * 4096,
        start + pow2(order as nat) <= used.len(),
        run_free(used, start as int, pow2(order as nat) as int),
        0 <= a <= usize::MAX,
    ensures
        block_pages(a as usize, order).disjoint(held_pages(used, base)),
        held_pages(set_run(used, start as int, pow2(order as nat) as int, true), base)
            == held_pages(used, base) + block_pages(a as usize, order),
{
    let n = pow2(order as nat);
    let u2 = set_run(used, start as int, n as int, true);
    assert forall|p: int| block_pages(a as usize, order).contains(p) implies !held_pages(used, base).contains(p) by {
        lemma_block_index(base, start, n, a, p);
        let k = (p - base) / 4096;
        assert(!used[k]);
    }
    assert forall|p: int| held_pages(u2, base).contains(p) <==> (held_pages(used, base) + block_pages(a as usize, order)).contains(p) by {
        lemma_block_index(base, start, n, a, p);
    }
    assert(held_pages(u2, base) =~= held_pages(used, base) + block_pages(a as usize, order));
}

/// Clearing the fully used run `[start, start + n)` removes exactly its pages
/// from the held set.
proof fn lemma_ledger_return(used: Seq<bool>, base: nat, start: nat, order: usize, a: int)
    requires
        a == base + start * 4096,
        start + pow2(order as nat) <= used.len(),
        0 <= a <= usize::MAX,
    ensures
        held_pages(set_run(used, start as int, pow2(order as nat) as int, false), base)
            == held_pages(used, base) - block_pages(a as usize, order),
{
    let n = pow2(order as nat);
    let u2 = set_run(used, start as int, n as int, false);
    assert forall|p: int| held_pages(u2, base).contains(p) <==> (held_pages(used, base) - block_pages(a as usize, order)).contains(p) by {
        lemma_block_index(base, start, n, a, p);
    }
    assert(held_pages(u2, base) =~= held_pages(used, base) - block_pages(a as usize, order));
}

/// A block whose pages are all held is a fully used run of the pool.
proof fn lemma_held_block(used: Seq<bool>, base: nat, order: usize, a: int)
    requires
        block_pages(a as usize, order) <= held_pages(used, base),
        0 <= a <= usize::MAX,
    ensures
        a >= base,
        (a - base) % 4096 == 0,
        (a - base) / 4096 + pow2(order as nat) <= used.len(),
        forall|q: int| (a - base) / 4096 <= q < (a - base) / 4096 + pow2(order as nat) ==> #[trigger] used[q],
{
    let n = pow2(order as nat);
    lemma_pow2_pos(order as nat);
    assert(block_pages(a as usize, order).contains(a));
    assert(held_pages(used, base).contains(a));
    let start = (a - base) / 4096;
    assert(a == base + start * 4096);
    let last = a + (n - 1) * 4096;
    lemma_block_index(base, start as nat, n, a, last);
    assert((last - a) % 4096 == 0) by (nonlinear_arith)
        requires last == a + (n - 1) * 4096;
    assert(block_pages(a as usize, order).contains(last));
    assert(held_pages(used, base).contains(last));
    assert forall|q: int| start <= q < start + n implies #[trigger] used[q] by {
        let p = base + q * 4096;
        lemma_block_index(base, start as nat, n, a, p);
        assert((p - base) % 4096 == 0 && (p - base) / 4096 == q) by (nonlinear_arith)
            requires p == base + q * 4096;
        assert(block_pages(a as usize, order).contains(p));
        assert(held_pages(used, base).contains(p));
    }
}

impl PageProvider for FakeProvider {
    open spec fn keeps_ledger() -> bool {
        true
    }

    /// The pages marked used.
    open spec fn held(&self) -> Set<int> {
        held_pages(self.spec_used(), self.spec_base())
    }

    /// Whether a free, aligned run of `2^order` pages is left.
    open spec fn can_supply(&self, order: usize) -> bool {
        order < usize::BITS && first_free_run(self.spec_used(), pow2(order as nat), 0) is Some
    }

    /// The lowest free, `2^order`-aligned block, marked used.
    fn alloc_pages(&mut self, order: usize) -> (r: Option<usize>)
        ensures
            order < usize::BITS ==> ({
                let n = pow2(order as nat);
                match first_free_run(old(self).spec_used(), n, 0) {
                    None => r is None && final(self).spec_used() == old(self).spec_used(),
                    Some(start) => r == Some((old(self).spec_base() + start * 4096) as usize)
                        && final(self).spec_used() == set_run(old(self).spec_used(), start as int, n as int, true),
                }
            }),
            order >= usize::BITS ==> r is None && final(self).spec_used() == old(self).spec_used(),
    {
        proof {
            use_type_invariant(&*self);
        }
        if order >= usize::BITS as usize {
            return None;
        }
        assert(order < usize::BITS);
        let n = order_pages(order);
        proof {
            lemma_pow2_pos(order as nat);
        }
        let ghost used0 = self.used@;
        let mut start: usize = 0;
        while start < self.cap && n <= self.cap - start
            invariant
                self.used@ == used0,
                self.used@.len() == self.cap,
                self.base == FAKE_POOL_BASE,
                self.base + self.cap * 4096 <= usize::MAX,
                count_true(self.used@) <= self.cap,
                self.free == self.cap - count_true(self.used@),
                *self == *old(self),
                order < usize::BITS,
                n as nat == pow2(order as nat),
                n > 0,
                start <= self.cap,
                first_free_run(used0, n as nat, 0) == first_free_run(used0, n as nat, start as nat),
            decreases self.cap - start,
        {
            let mut all_free = true;
            let mut k: usize = start;
            while k < start + n
                invariant
                    start <= k <= start + n,
                    start + n <= self.cap,
                    self.cap == self.used@.len(),
                    all_free == run_free(self.used@, start as int, k - start),
                decreases start + n - k,
            {
                if self.used[k] {
                    all_free = false;
                }
                k = k + 1;
            }
            if all_free {
                let u = copy_with_run(&self.used, start, n, true);
                proof {
                    lemma_count_le_len(u@);
                }
                assert((start + n) * 4096 <= self.cap * 4096) by (nonlinear_arith)
                    requires start + n <= self.cap;
                assert((start + n) * 4096 == start * 4096 + n * 4096) by (nonlinear_arith);
                assert((FAKE_POOL_BASE + start * 4096) % 4096 == 0) by (nonlinear_arith);
                let addr = self.base + start * 4096;
                proof {
                    lemma_ledger_take(self.used@, self.base as nat, start as nat, order, addr as int);
                }
                *self = FakeProvider { base: self.base, cap: self.cap, used: u, free: self.free - n };
                return Some(addr);
            }
            start = start + n;
        }
        None
    }

    /// Marks the block free again; a block that is not a fully used run of
    /// the pool is ignored.
    fn free_pages(&mut self, order: usize, page_addr: usize)
        ensures
            order < usize::BITS && used_block(old(self).spec_used(), old(self).spec_base(), page_addr as int,
                pow2(order as nat)) ==> final(self).spec_used() == set_run(old(self).spec_used(),
                    (page_addr - old(self).spec_base()) / 4096, pow2(order as nat) as int, false),
    {
        proof {
            use_type_invariant(&*self);
            if order < usize::BITS && block_pages(page_addr, order) <= self.held() {
                lemma_held_block(self.used@, self.base as nat, order, page_addr as int);
            }
        }
        if order >= usize::BITS as usize || page_addr < self.base || (page_addr - self.base) % 4096 != 0 {
            return;
        }
        assert(order < usize::BITS);
        let n = order_pages(order);
        proof {
            lemma_pow2_pos(order as nat);
        }
        let start = (page_addr - self.base) / 4096;
        if start > self.cap || n > self.cap - start {
            return;
        }
        let mut k: usize = start;
        while k < start + n
            invariant
                start <= k <= start + n,
                start + n <= self.cap,
                self.cap == self.used@.len(),
                *self == *old(self),
                start == (page_addr - self.base) / 4096,
                n as nat == pow2(order as nat),
                order < usize::BITS,
                forall|q: int| start <= q < k ==> #[trigger] self.used@[q],
                block_pages(page_addr, order) <= held_pages(self.used@, self.base as nat)
                    ==> forall|q: int| start <= q < start + n ==> #[trigger] self.used@[q],
            decreases start + n - k,
        {
            if !self.used[k] {
                return;
            }
            k = k + 1;
        }
        let u = copy_with_run(&self.used, start, n, false);
        proof {
            assert(page_addr == self.base + start * 4096);
            lemma_ledger_return(self.used@, self.base as nat, start as nat, order, page_addr as int);
        }
        *self = FakeProvider { base: self.base, cap: self.cap, used: u, free: self.free + n };
    }
}

} // verus!
