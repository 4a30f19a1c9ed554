use vstd::prelude::*;
use crate::mm::heap::provider::{PageProvider, page_block_ok, block_pages, lemma_single_page_block, PROVIDER_PAGE};
use vstd::arithmetic::power2::lemma2_to64;
use vstd::multiset::Multiset;
use crate::mm::pmm::buddy_math::{ceil_log2, lemma_ceil_log2, next_pow2};
use crate::mm::pmm::buddy_spec::psz;

verus! {

/// Magic number that marks a slab page ("SLAB").
pub const SLAB_MAGIC: u32 = 0x534C_4142;

/// End marker of a slab's free list.
pub const FREE_END: u32 = 0xFFFF_FFFF;

/// Byte written over a freed object, to expose use after free.
pub const POISON_BYTE: u8 = 0xAB;

/// Size in bytes of the header at the start of every slab page.
pub const SLAB_HEADER_SIZE: usize = 48;

/// `x` rounded up to a multiple of `a`.
pub open spec fn round_up(x: nat, a: nat) -> nat {
    if x % a == 0 {
        x
    } else {
        (x + (a - x % a)) as nat
    }
}

/// Whether rounding `x` up to a multiple of `a` fits in a machine word.
pub open spec fn round_up_fits(x: usize, a: usize) -> bool {
    x % a == 0 || x + (a - x % a) <= usize::MAX
}

/// `x` rounded up to a multiple of `align` (`align > 0`).
pub fn align_up(x: usize, align: usize) -> (r: usize)
    requires
        align > 0,
        round_up_fits(x, align),
    ensures
        r == round_up(x as nat, align as nat),
{
    let rem = x % align;
    if rem == 0 {
        x
    } else {
        x + (align - rem)
    }
}

/// The stride a cache gives objects of `request_size` bytes aligned to
/// `align` (both raised to at least 8): the least power of two not below
/// either, rounded up to a multiple of the alignment, which leaves it as it
/// is for a power-of-two alignment.
pub open spec fn stride_for(request_size: usize, align: usize) -> nat {
    let a = if align < 8 { 8nat } else { align as nat };
    let x = if request_size < 8 { 8nat } else { request_size as nat };
    let m = if x < a { a } else { x };
    round_up(psz(ceil_log2(m)) as nat, a)
}

/// Whether a cache can be set up for objects of `request_size` bytes
/// aligned to `align` on pages of `page_size` bytes: the page, at most a
/// provider page, holds the header rounded up to the stride.
pub open spec fn init_ok(request_size: usize, align: usize, page_size: usize) -> bool {
    &&& round_up(SLAB_HEADER_SIZE as nat, stride_for(request_size, align)) <= page_size
    &&& page_size <= PROVIDER_PAGE
}

/// Rounding a positive `x` up to a multiple of `a` gives at least `x` and
/// at least `a`.
pub proof fn lemma_round_up_bounds(x: nat, a: nat)
    requires
        x > 0,
        a > 0,
    ensures
        round_up(x, a) >= x,
        round_up(x, a) >= a,
        round_up(x, a) % a == 0,
{
    if x % a != 0 {
        assert((x + (a - x % a)) % (a as int) == 0) by (nonlinear_arith)
            requires a > 0;
        assert(x + (a - x % a) >= a) by (nonlinear_arith)
            requires a > 0, x > 0, x % a != 0;
    } else {
        assert(x >= a) by (nonlinear_arith)
            requires a > 0, x > 0, x % a == 0;
    }
}

/// Under `init_ok` the request, the alignment and the stride are at most a
/// provider page.
proof fn lemma_init_bounds(request_size: usize, align: usize, page_size: usize)
    requires
        init_ok(request_size, align, page_size),
    ensures
        request_size <= PROVIDER_PAGE,
        align <= PROVIDER_PAGE,
        stride_for(request_size, align) <= PROVIDER_PAGE,
{
    let a: nat = if align < 8 { 8 } else { align as nat };
    let x: nat = if request_size < 8 { 8 } else { request_size as nat };
    let m: nat = if x < a { a } else { x };
    let st = stride_for(request_size, align);
    lemma_ceil_log2(m);
    lemma_round_up_bounds(psz(ceil_log2(m)) as nat, a);
    lemma_round_up_bounds(SLAB_HEADER_SIZE as nat, st);
}

/// The page base of `addr` for pages of `page_size` bytes.
pub open spec fn page_mask(addr: usize, page_size: usize) -> usize {
    addr & !((page_size - 1) as usize)
}

/// The free stack of a fresh slab of `n` objects: slot 0 is handed out
/// first, then 1, and so on.
pub open spec fn fresh_free(n: nat) -> Seq<u32> {
    Seq::new(n, |i: int| (n - 1 - i) as u32)
}

/// No slot occurs twice.
pub open spec fn distinct(s: Seq<u32>) -> bool {
    forall|i: int, j: int| 0 <= i < j < s.len() ==> s[i] != s[j]
}

/// One slab page: its base address and its free slots, the next one to
/// hand out last.
pub struct Slab {
    page: usize,
    free: Vec<u32>,
}

/// The view of a list of slabs: each page with its free stack.
pub closed spec fn slabs_view(v: Seq<Slab>) -> Seq<(usize, Seq<u32>)> {
    v.map_values(|s: Slab| (s.page, s.free@))
}

/// Objects handed out from a list of slabs of `n` objects each.
pub open spec fn in_use(v: Seq<(usize, Seq<u32>)>, n: nat) -> int
    decreases v.len(),
{
    if v.len() == 0 {
        0
    } else {
        (n - v[0].1.len()) + in_use(v.drop_first(), n)
    }
}

/// Taking slab `i` out of a list takes its objects out of the count.
pub proof fn lemma_in_use_remove(v: Seq<(usize, Seq<u32>)>, i: int, n: nat)
    requires
        0 <= i < v.len(),
    ensures
        in_use(v, n) == in_use(v.remove(i), n) + (n - v[i].1.len()),
    decreases v.len(),
{
    if i == 0 {
        assert(v.remove(0) =~= v.drop_first());
    } else {
        lemma_in_use_remove(v.drop_first(), i - 1, n);
        assert(v.remove(i).drop_first() =~= v.drop_first().remove(i - 1));
        assert(v.remove(i)[0] == v[0]);
    }
}

/// Putting a slab at the front of a list adds its objects to the count.
pub proof fn lemma_in_use_push_front(v: Seq<(usize, Seq<u32>)>, x: (usize, Seq<u32>), n: nat)
    ensures
        in_use(v.insert(0, x), n) == in_use(v, n) + (n - x.1.len()),
{
    assert(v.insert(0, x).drop_first() =~= v);
    assert(v.insert(0, x)[0] == x);
}

/// Replacing slab `i` of a list swaps its objects in the count.
pub proof fn lemma_in_use_update(v: Seq<(usize, Seq<u32>)>, i: int, x: (usize, Seq<u32>), n: nat)
    requires
        0 <= i < v.len(),
    ensures
        in_use(v.update(i, x), n) == in_use(v, n) - (n - v[i].1.len()) + (n - x.1.len()),
{
    lemma_in_use_remove(v, i, n);
    lemma_in_use_remove(v.update(i, x), i, n);
    assert(v.update(i, x).remove(i) =~= v.remove(i));
}

/// Index of the first slab of `v` on `page`.
pub open spec fn find_page(v: Seq<(usize, Seq<u32>)>, page: usize) -> Option<int> {
    if exists|i: int| 0 <= i < v.len() && (#[trigger] v[i]).0 == page {
        Some(choose|i: int| 0 <= i < v.len() && (#[trigger] v[i]).0 == page
            && forall|j: int| 0 <= j < i ==> (#[trigger] v[j]).0 != page)
    } else {
        None
    }
}

/// A slab of a cache with `n` objects per page of `page_size` bytes: a
/// nonzero, page-aligned page that fits, distinct free slots below `n`.
pub open spec fn slab_ok(s: (usize, Seq<u32>), page_size: nat, n: nat) -> bool {
    &&& s.0 > 0
    &&& s.0 % 4096 == 0
    &&& s.0 + page_size <= usize::MAX
    &&& distinct(s.1)
    &&& forall|k: int| 0 <= k < s.1.len() ==> (#[trigger] s.1[k]) < n
}

/// A cache of equally sized objects carved out of whole pages.
///
/// Pages with free objects sit on the partial list, pages with none on the
/// full list; a page whose objects are all free again goes straight back
/// to the page provider.
pub struct SlabCache {
    id: u32,
    name: &'static str,
    stride: usize,
    align: usize,
    page_size: usize,
    objects_offset: usize,
    objs_per_slab: usize,
    partial: Vec<Slab>,
    full: Vec<Slab>,
    slabs: usize,
    objs_allocated: usize,
    valid: bool,
    /// Objects handed out so far.
    pub total_allocs: u64,
    /// Objects taken back so far.
    pub total_frees: u64,
    /// Pages turned into slabs so far.
    pub page_allocs: u64,
}

/// Two caches with the same parameters.
pub open spec fn same_params(a: SlabCache, b: SlabCache) -> bool {
    &&& b.spec_id() == a.spec_id()
    &&& b.spec_name() == a.spec_name()
    &&& b.spec_stride() == a.spec_stride()
    &&& b.spec_align() == a.spec_align()
    &&& b.spec_page_size() == a.spec_page_size()
    &&& b.spec_offset() == a.spec_offset()
    &&& b.spec_per_slab() == a.spec_per_slab()
    &&& b.spec_valid() == a.spec_valid()
}

/// Room in the counters for one more object and one more page.
pub open spec fn alloc_room(c: SlabCache) -> bool {
    &&& c.spec_counters().0 < u64::MAX
    &&& c.spec_counters().2 < u64::MAX
    &&& c.spec_slabs() < usize::MAX
    &&& c.spec_allocated() < usize::MAX
}

/// Lists and counters unchanged.
pub open spec fn same_state(a: SlabCache, b: SlabCache) -> bool {
    &&& b.spec_partial() == a.spec_partial()
    &&& b.spec_full() == a.spec_full()
    &&& b.spec_slabs() == a.spec_slabs()
    &&& b.spec_allocated() == a.spec_allocated()
    &&& b.spec_counters() == a.spec_counters()
}

/// `new` is `old` after one object was taken from the slab on `page`,
/// whose free stack is now `rest`, with `others` the remaining partial
/// slabs: a slab with no free object left moves to the front of the full
/// list, any other goes back to the front of the partial list.
pub open spec fn took_object(old: SlabCache, new: SlabCache, page: usize, rest: Seq<u32>,
    others: Seq<(usize, Seq<u32>)>) -> bool {
    &&& if rest.len() == 0 {
        new.spec_full() == old.spec_full().insert(0, (page, rest)) && new.spec_partial() == others
    } else {
        new.spec_partial() == others.insert(0, (page, rest)) && new.spec_full() == old.spec_full()
    }
    &&& new.spec_allocated() == old.spec_allocated() + 1
}

/// What `allocate` does and returns.
pub open spec fn alloc_outcome(old: SlabCache, new: SlabCache, r: usize) -> bool {
    let n = old.spec_per_slab();
    let (ta, tf, pa) = old.spec_counters();
    if n == 0 {
        r == 0 && same_state(old, new)
    } else if old.spec_partial().len() > 0 {
        let s = old.spec_partial()[0];
        &&& r == old.object_addr(s.0, s.1.last())
        &&& took_object(old, new, s.0, s.1.drop_last(), old.spec_partial().drop_first())
        &&& new.spec_slabs() == old.spec_slabs()
        &&& new.spec_counters() == ((ta + 1) as u64, tf, pa)
    } else {
        ||| r == 0 && same_state(old, new)
        ||| {
            let page = (r - old.spec_offset()) as usize;
            &&& r > 0
            &&& page_block_ok(page, 0)
            &&& r == old.object_addr(page, 0)
            &&& took_object(old, new, page, fresh_free(n).drop_last(), Seq::empty())
            &&& new.spec_slabs() == old.spec_slabs() + 1
            &&& new.spec_counters() == ((ta + 1) as u64, tf, (pa + 1) as u64)
        }
    }
}

/// The slot of the object at `ptr` in the slab on `page`, if `ptr` is the
/// start of one.
pub open spec fn slot_in(c: SlabCache, page: usize, ptr: usize) -> Option<nat> {
    let start = page + c.spec_offset();
    let off = ptr - start;
    if ptr >= start && off % (c.spec_stride() as int) == 0 && off / (c.spec_stride() as int) < c.spec_per_slab() {
        Some((off / (c.spec_stride() as int)) as nat)
    } else {
        None
    }
}

/// The slab of `c` on the page of `ptr`: on the partial list (`true`) or
/// the full list (`false`), and its index there; the partial list is
/// searched first.
pub open spec fn slab_at(c: SlabCache, ptr: usize) -> Option<(bool, int)> {
    let page = page_mask(ptr, c.spec_page_size() as usize);
    match find_page(c.spec_partial(), page) {
        Some(i) => Some((true, i)),
        None => match find_page(c.spec_full(), page) {
            Some(j) => Some((false, j)),
            None => None,
        },
    }
}

/// The slab entry that `slab_at` names.
pub open spec fn slab_entry(c: SlabCache, on_partial: bool, i: int) -> (usize, Seq<u32>) {
    if on_partial {
        c.spec_partial()[i]
    } else {
        c.spec_full()[i]
    }
}

/// What `free` takes back: the slab holding `ptr` and the object's slot,
/// or `None` when `ptr` is null, on no slab of the cache, not the start of
/// an object, or an object that is already free.
#[verifier::opaque]
pub open spec fn free_target(c: SlabCache, ptr: usize) -> Option<(bool, int, nat)> {
    let page = page_mask(ptr, c.spec_page_size() as usize);
    if ptr == 0 {
        None
    } else {
        match slab_at(c, ptr) {
            None => None,
            Some((on_partial, i)) => match slot_in(c, page, ptr) {
                None => None,
                Some(slot) => if slab_entry(c, on_partial, i).1.contains(slot as u32) {
                    None
                } else {
                    Some((on_partial, i, slot))
                },
            },
        }
    }
}

/// Whether freeing `ptr` frees the last object of its slab, so that the
/// page goes back to the provider.
pub open spec fn free_returns_page(c: SlabCache, ptr: usize) -> bool {
    match free_target(c, ptr) {
        None => false,
        Some((on_partial, i, slot)) => slab_entry(c, on_partial, i).1.len() + 1 == c.spec_per_slab(),
    }
}

/// The page of the slab that freeing `ptr` touches.
pub open spec fn freed_page(c: SlabCache, ptr: usize) -> usize {
    match free_target(c, ptr) {
        None => 0,
        Some((on_partial, i, slot)) => slab_entry(c, on_partial, i).0,
    }
}

/// How `allocate` moves a provider's ledger from `held0` to `held1`, where
/// `can` is whether the provider could supply a page: with no partial slab,
/// an object comes exactly when a page can be had, and that page joins the
/// held set; a failed attempt takes nothing, and with a partial slab or no
/// object per page nothing is asked of the provider.
pub open spec fn alloc_ledger(c: SlabCache, can: bool, held0: Set<int>, held1: Set<int>, r: usize) -> bool {
    &&& c.spec_per_slab() == 0 || c.spec_partial().len() > 0 ==> held1 == held0
    &&& c.spec_per_slab() > 0 && c.spec_partial().len() == 0 ==> {
        &&& (r != 0 <==> can)
        &&& r == 0 ==> held1 == held0
        &&& r != 0 ==> block_pages((r - c.spec_offset()) as usize, 0).disjoint(held0)
            && held1 == held0 + block_pages((r - c.spec_offset()) as usize, 0)
    }
}

/// How `free` moves a provider's ledger from `held0` to `held1`: when the
/// freed object empties its slab and the provider holds that page, the page
/// leaves the held set; otherwise the ledger stays as it was.
pub open spec fn free_ledger(c: SlabCache, ptr: usize, held0: Set<int>, held1: Set<int>) -> bool {
    &&& !free_returns_page(c, ptr) ==> held1 == held0
    &&& free_returns_page(c, ptr) && block_pages(freed_page(c, ptr), 0) <= held0
        ==> held1 == held0 - block_pages(freed_page(c, ptr), 0)
}

/// The lists `(p, f)` after slot `slot` goes back to slab `i` of the
/// partial list (`on_partial`) or of the full list, for slabs of `n`
/// objects: the slot goes on top of the slab's free stack; a slab with
/// every object free leaves its list, a full slab moves to the front of the
/// partial list, a partial one stays where it is.
pub open spec fn put_back(p: Seq<(usize, Seq<u32>)>, f: Seq<(usize, Seq<u32>)>, on_partial: bool, i: int,
    slot: u32, n: nat) -> (Seq<(usize, Seq<u32>)>, Seq<(usize, Seq<u32>)>) {
    let s = if on_partial { p[i] } else { f[i] };
    let nf = s.1.push(slot);
    if nf.len() == n {
        if on_partial {
            (p.remove(i), f)
        } else {
            (p, f.remove(i))
        }
    } else if on_partial {
        (p.update(i, (s.0, nf)), f)
    } else {
        (p.insert(0, (s.0, nf)), f.remove(i))
    }
}

/// The partial and full lists after `free` takes back the object that
/// `free_target` names.
pub open spec fn freed_lists(c: SlabCache, ptr: usize) -> (Seq<(usize, Seq<u32>)>, Seq<(usize, Seq<u32>)>) {
    let (on_partial, i, slot) = free_target(c, ptr)->0;
    put_back(c.spec_partial(), c.spec_full(), on_partial, i, slot as u32, c.spec_per_slab())
}

/// What `free` does and returns.
pub open spec fn free_outcome(old: SlabCache, new: SlabCache, ptr: usize, r: bool) -> bool {
    let (ta, tf, pa) = old.spec_counters();
    if free_target(old, ptr) is None {
        !r && same_state(old, new)
    } else {
        &&& r
        &&& new.spec_partial() == freed_lists(old, ptr).0
        &&& new.spec_full() == freed_lists(old, ptr).1
        &&& new.spec_slabs() == old.spec_slabs() - if free_returns_page(old, ptr) { 1int } else { 0int }
        &&& new.spec_allocated() == old.spec_allocated() - 1
        &&& new.spec_counters() == (ta, (tf + 1) as u64, pa)
    }
}

/// The slabs of both lists are sound: partial slabs have some but not all
/// of their `n` objects free, full slabs none.
#[verifier::opaque]
pub open spec fn lists_ok(p: Seq<(usize, Seq<u32>)>, f: Seq<(usize, Seq<u32>)>, ps: nat, n: nat) -> bool {
    &&& forall|i: int| 0 <= i < p.len() ==> {
        &&& slab_ok(#[trigger] p[i], ps, n)
        &&& 0 < p[i].1.len() < n
    }
    &&& forall|i: int| 0 <= i < f.len() ==> {
        &&& slab_ok(#[trigger] f[i], ps, n)
        &&& f[i].1.len() == 0
        &&& n > 0
    }
}

/// A list whose slabs hold at most `n` free objects each counts no
/// negative number of objects.
pub proof fn lemma_in_use_nonneg(v: Seq<(usize, Seq<u32>)>, n: nat)
    requires
        forall|i: int| 0 <= i < v.len() ==> (#[trigger] v[i]).1.len() <= n,
    ensures
        in_use(v, n) >= 0,
    decreases v.len(),
{
    if v.len() > 0 {
        assert(v[0].1.len() <= n);
        assert forall|i: int| 0 <= i < v.drop_first().len() implies (#[trigger] v.drop_first()[i]).1.len() <= n by {
            assert(v.drop_first()[i] == v[i + 1]);
        }
        lemma_in_use_nonneg(v.drop_first(), n);
    }
}

/// Putting a free slot back gives sound lists that count one object less;
/// the slab leaves the lists exactly when all its objects are then free.
pub proof fn lemma_put_back(p: Seq<(usize, Seq<u32>)>, f: Seq<(usize, Seq<u32>)>, on_partial: bool, i: int,
    slot: u32, ps: nat, n: nat)
    requires
        lists_ok(p, f, ps, n),
        0 <= i < if on_partial { p.len() } else { f.len() },
        slot < n,
        !(if on_partial { p[i] } else { f[i] }).1.contains(slot),
    ensures
        ({
            let (p2, f2) = put_back(p, f, on_partial, i, slot, n);
            let s = if on_partial { p[i] } else { f[i] };
            &&& lists_ok(p2, f2, ps, n)
            &&& in_use(p, n) + in_use(f, n) >= 1
            &&& in_use(p2, n) + in_use(f2, n) == in_use(p, n) + in_use(f, n) - 1
            &&& p2.len() + f2.len() == p.len() + f.len() - if s.1.len() + 1 == n { 1int } else { 0int }
        }),
{
    reveal(lists_ok);
    let s = if on_partial { p[i] } else { f[i] };
    let nf = s.1.push(slot);
    let (p2, f2) = put_back(p, f, on_partial, i, slot, n);
    assert(slab_ok(s, ps, n));
    assert(s.1.len() < n);
    assert(distinct(nf)) by {
        assert forall|a: int, b: int| 0 <= a < b < nf.len() implies nf[a] != nf[b] by {
            if b == nf.len() - 1 {
                assert(s.1[a] == nf[a]);
                assert(s.1.contains(s.1[a]));
            }
        }
    }
    assert forall|k: int| 0 <= k < nf.len() implies (#[trigger] nf[k]) < n by {
        if k < s.1.len() {
            assert(nf[k] == s.1[k]);
        }
    }
    assert(slab_ok((s.0, nf), ps, n));
    let qp = if on_partial { i } else { 0 };
    let qf = if on_partial { 0 } else { i };
    if p.len() > 0 {
        assert forall|k: int| 0 <= k < p.remove(qp).len() implies (#[trigger] p.remove(qp)[k]).1.len() <= n by {
            if k < qp {
                assert(p.remove(qp)[k] == p[k]);
            } else {
                assert(p.remove(qp)[k] == p[k + 1]);
            }
        }
        lemma_in_use_nonneg(p.remove(qp), n);
        lemma_in_use_remove(p, qp, n);
    } else {
        assert(p =~= Seq::<(usize, Seq<u32>)>::empty());
    }
    if f.len() > 0 {
        assert forall|k: int| 0 <= k < f.remove(qf).len() implies (#[trigger] f.remove(qf)[k]).1.len() <= n by {
            if k < qf {
                assert(f.remove(qf)[k] == f[k]);
            } else {
                assert(f.remove(qf)[k] == f[k + 1]);
            }
        }
        lemma_in_use_nonneg(f.remove(qf), n);
        lemma_in_use_remove(f, qf, n);
    } else {
        assert(f =~= Seq::<(usize, Seq<u32>)>::empty());
    }
    if nf.len() == n {
        if on_partial {
            assert forall|k: int| 0 <= k < p2.len() implies slab_ok(#[trigger] p2[k], ps, n) && 0 < p2[k].1.len() < n by {
                if k < i {
                    assert(p2[k] == p[k]);
                } else {
                    assert(p2[k] == p[k + 1]);
                }
            }
        } else {
            assert forall|k: int| 0 <= k < f2.len() implies slab_ok(#[trigger] f2[k], ps, n) && f2[k].1.len() == 0 && n > 0 by {
                if k < i {
                    assert(f2[k] == f[k]);
                } else {
                    assert(f2[k] == f[k + 1]);
                }
            }
        }
    } else if on_partial {
        lemma_in_use_update(p, i, (s.0, nf), n);
        assert forall|k: int| 0 <= k < p2.len() implies slab_ok(#[trigger] p2[k], ps, n) && 0 < p2[k].1.len() < n by {
            if k != i {
                assert(p2[k] == p[k]);
            }
        }
    } else {
        lemma_in_use_push_front(p, (s.0, nf), n);
        assert forall|k: int| 0 <= k < p2.len() implies slab_ok(#[trigger] p2[k], ps, n) && 0 < p2[k].1.len() < n by {
            if k > 0 {
                assert(p2[k] == p[k - 1]);
            }
        }
        assert forall|k: int| 0 <= k < f2.len() implies slab_ok(#[trigger] f2[k], ps, n) && f2[k].1.len() == 0 && n > 0 by {
            if k < i {
                assert(f2[k] == f[k]);
            } else {
                assert(f2[k] == f[k + 1]);
            }
        }
    }
}

/// What a freed object holds: the little-endian index of the next free
/// slot of its slab, then poison up to the end of the object.
pub open spec fn freed_bytes(link: u32, stride: nat) -> Seq<u8> {
    seq![(link % 256) as u8, ((link / 256) % 256) as u8, ((link / 65536) % 256) as u8, (link / 16777216) as u8]
        + Seq::new((stride - 4) as nat, |i: int| POISON_BYTE)
}

/// Where `x` sits in a free stack.
pub open spec fn pos_in(s: Seq<u32>, x: u32) -> int {
    choose|k: int| 0 <= k < s.len() && s[k] == x
}

/// In a stack with no repeats, `pos_in` finds the one place of a slot.
pub proof fn lemma_pos_in(s: Seq<u32>, x: u32, k: int)
    requires
        distinct(s),
        0 <= k < s.len(),
        s[k] == x,
    ensures
        pos_in(s, x) == k,
{
    let c = pos_in(s, x);
    assert(s[c] == x);
    if c < k {
        assert(s[c] != s[k]);
    } else if c > k {
        assert(s[k] != s[c]);
    }
}

/// For a free object at `ptr`, the next free slot after it: the one below
/// it on the free stack, or `FREE_END` at the bottom. `None` when `ptr` is
/// not a free object of the cache.
#[verifier::opaque]
pub open spec fn free_link(c: SlabCache, ptr: usize) -> Option<u32> {
    let page = page_mask(ptr, c.spec_page_size() as usize);
    if ptr == 0 {
        None
    } else {
    match slab_at(c, ptr) {
        None => None,
        Some((on_partial, i)) => match slot_in(c, page, ptr) {
            None => None,
            Some(slot) => {
                let st = slab_entry(c, on_partial, i).1;
                if st.contains(slot as u32) {
                    let k = pos_in(st, slot as u32);
                    Some(if k == 0 { FREE_END } else { st[k - 1] })
                } else {
                    None
                }
            },
        },
    }
    }
}

/// Whether one of the slabs of `c` is on `page`.
pub open spec fn holds_page(c: SlabCache, page: usize) -> bool {
    find_page(c.spec_partial(), page) is Some || find_page(c.spec_full(), page) is Some
}

/// The first slab of `v` on `page`.
fn find_slab(v: &Vec<Slab>, page: usize) -> (r: Option<usize>)
    ensures
        r matches Some(i) ==> find_page(slabs_view(v@), page) == Some(i as int) && i < v@.len()
            && slabs_view(v@)[i as int].0 == page,
        r is None ==> find_page(slabs_view(v@), page) is None,
{
    let ghost sv = slabs_view(v@);
    let mut i: usize = 0;
    while i < v.len()
        invariant
            i <= v.len(),
            sv == slabs_view(v@),
            sv.len() == v@.len(),
            forall|j: int| 0 <= j < i ==> (#[trigger] sv[j]).0 != page,
        decreases v.len() - i,
    {
        if v[i].page == page {
            proof {
                assert(sv[i as int].0 == page);
                let c = choose|k: int| 0 <= k < sv.len() && (#[trigger] sv[k]).0 == page
                    && forall|j: int| 0 <= j < k ==> (#[trigger] sv[j]).0 != page;
                if c < i {
                    assert(sv[c].0 != page);
                } else if c > i {
                    assert(sv[i as int].0 != page);
                }
            }
            return Some(i);
        }
        i = i + 1;
    }
    None
}

/// Whether `slot` is on the free stack `v`.
fn has_slot(v: &Vec<u32>, slot: u32) -> (r: bool)
    ensures
        r == v@.contains(slot),
{
    let mut i: usize = 0;
    while i < v.len()
        invariant
            i <= v.len(),
            forall|j: int| 0 <= j < i ==> v@[j] != slot,
        decreases v.len() - i,
    {
        if v[i] == slot {
            return true;
        }
        i = i + 1;
    }
    false
}

impl SlabCache {
    pub closed spec fn spec_id(&self) -> u32 {
        self.id
    }

    pub closed spec fn spec_name(&self) -> &'static str {
        self.name
    }

    pub closed spec fn spec_stride(&self) -> nat {
        self.stride as nat
    }

    pub closed spec fn spec_align(&self) -> nat {
        self.align as nat
    }

    pub closed spec fn spec_page_size(&self) -> nat {
        self.page_size as nat
    }

    /// Offset of the first object in a slab page.
    pub closed spec fn spec_offset(&self) -> nat {
        self.objects_offset as nat
    }

    /// Objects per slab page.
    pub closed spec fn spec_per_slab(&self) -> nat {
        self.objs_per_slab as nat
    }

    /// Slabs with free objects, the next to serve first.
    pub closed spec fn spec_partial(&self) -> Seq<(usize, Seq<u32>)> {
        slabs_view(self.partial@)
    }

    /// Slabs with no free object, the latest to fill first.
    pub closed spec fn spec_full(&self) -> Seq<(usize, Seq<u32>)> {
        slabs_view(self.full@)
    }

    /// Slab pages held.
    pub closed spec fn spec_slabs(&self) -> nat {
        self.slabs as nat
    }

    /// Objects handed out and not yet taken back.
    pub closed spec fn spec_allocated(&self) -> nat {
        self.objs_allocated as nat
    }

    pub closed spec fn spec_valid(&self) -> bool {
        self.valid
    }

    /// The three counters: objects handed out, objects taken back, pages
    /// turned into slabs.
    pub closed spec fn spec_counters(&self) -> (u64, u64, u64) {
        (self.total_allocs, self.total_frees, self.page_allocs)
    }

    /// Address of object `slot` of the slab on `page`.
    pub open spec fn object_addr(&self, page: usize, slot: u32) -> int {
        page + self.spec_offset() + slot * self.spec_stride()
    }

    /// The cache's invariant: its geometry follows from its parameters,
    /// partial slabs have some but not all objects free, full slabs none,
    /// and the counters match the lists.
    pub open spec fn wf(&self) -> bool {
        let n = self.spec_per_slab();
        let ps = self.spec_page_size();
        &&& self.spec_valid() ==> {
            &&& self.spec_align() >= 8
            &&& self.spec_stride() >= 8
            &&& self.spec_stride() % self.spec_align() == 0
            &&& self.spec_offset() == round_up(SLAB_HEADER_SIZE as nat, self.spec_stride())
            &&& self.spec_offset() <= ps
            &&& ps <= PROVIDER_PAGE
            &&& n == (ps - self.spec_offset()) / (self.spec_stride() as int)
        }
        &&& !self.spec_valid() ==> self.spec_partial().len() == 0 && self.spec_full().len() == 0
        &&& lists_ok(self.spec_partial(), self.spec_full(), ps, n)
        &&& self.spec_slabs() == self.spec_partial().len() + self.spec_full().len()
        &&& self.spec_allocated() == in_use(self.spec_partial(), n) + in_use(self.spec_full(), n)
    }

    /// A cache with no parameters yet; it hands out nothing until `init`.
    pub fn uninit() -> (r: Self)
        ensures
            r.wf(),
            !r.spec_valid(),
            r.spec_name()@ == ""@,
            r.spec_stride() == 0,
            r.spec_page_size() == 0,
            r.spec_per_slab() == 0,
            r.spec_slabs() == 0,
            r.spec_allocated() == 0,
            r.spec_counters() == (0u64, 0u64, 0u64),
    {
        let r = SlabCache {
            id: 0,
            name: "",
            stride: 0,
            align: 8,
            page_size: 0,
            objects_offset: 0,
            objs_per_slab: 0,
            partial: Vec::new(),
            full: Vec::new(),
            slabs: 0,
            objs_allocated: 0,
            valid: false,
            total_allocs: 0,
            total_frees: 0,
            page_allocs: 0,
        };
        proof {
            reveal(lists_ok);
            assert(r.spec_partial() =~= Seq::empty());
            assert(r.spec_full() =~= Seq::empty());
        }
        r
    }

    /// Sets the cache's parameters, with no slab yet: objects of
    /// `request_size` bytes aligned to `align` (both raised to at least 8),
    /// on pages of `page_size` bytes.
    pub fn init(&mut self, id: u32, name: &'static str, request_size: usize, align: usize, page_size: usize)
        requires
            init_ok(request_size, align, page_size),
        ensures
            final(self).wf(),
            final(self).spec_valid(),
            final(self).spec_id() == id,
            final(self).spec_name() == name,
            final(self).spec_align() == if align < 8 { 8 } else { align as nat },
            final(self).spec_stride() == stride_for(request_size, align),
            final(self).spec_page_size() == page_size,
            final(self).spec_offset() == round_up(SLAB_HEADER_SIZE as nat, stride_for(request_size, align)),
            final(self).spec_per_slab() == (page_size - final(self).spec_offset()) / (final(self).spec_stride() as int),
            final(self).spec_partial().len() == 0,
            final(self).spec_full().len() == 0,
            final(self).spec_slabs() == 0,
            final(self).spec_allocated() == 0,
            final(self).spec_counters() == old(self).spec_counters(),
    {
        proof {
            lemma_init_bounds(request_size, align, page_size);
        }
        let align = if align < 8 { 8 } else { align };
        let size = if request_size < 8 { 8 } else { request_size };
        let wide = if size < align { align } else { size };
        let pow = next_pow2(wide);
        proof {
            lemma_round_up_bounds(pow as nat, align as nat);
        }
        let stride = align_up(pow, align);
        proof {
            assert(stride % align == 0) by (nonlinear_arith)
                requires
                    align > 0,
                    stride == round_up(pow as nat, align as nat),
            {
                if pow % align != 0 {
                    assert((pow + (align - pow % align)) % (align as int) == 0) by (nonlinear_arith)
                        requires align > 0;
                }
            }
        }
        let objects_offset = align_up(SLAB_HEADER_SIZE, stride);
        let objs_per_slab = (page_size - objects_offset) / stride;
        self.id = id;
        self.name = name;
        self.stride = stride;
        self.align = align;
        self.page_size = page_size;
        self.objects_offset = objects_offset;
        self.objs_per_slab = objs_per_slab;
        self.partial = Vec::new();
        self.full = Vec::new();
        self.slabs = 0;
        self.objs_allocated = 0;
        self.valid = true;
        proof {
            reveal(lists_ok);
            assert(self.spec_partial() =~= Seq::empty());
            assert(self.spec_full() =~= Seq::empty());
        }
    }

    /// Whether the cache has its parameters.
    pub fn is_valid(&self) -> (r: bool)
        ensures
            r == self.spec_valid(),
    {
        self.valid
    }

    /// The cache's name.
    pub fn name(&self) -> (r: &'static str)
        ensures
            r == self.spec_name(),
    {
        self.name
    }

    /// Bytes each object takes in a slab.
    pub fn stride(&self) -> (r: usize)
        ensures
            r == self.spec_stride(),
    {
        self.stride
    }

    /// Whether the cache's counters have room for one more allocation and
    /// one more free.
    pub fn has_room(&self) -> (r: bool)
        ensures
            r == (alloc_room(*self) && self.spec_counters().1 < u64::MAX),
    {
        self.total_allocs < u64::MAX && self.page_allocs < u64::MAX && self.slabs < usize::MAX
            && self.objs_allocated < usize::MAX && self.total_frees < u64::MAX
    }

    /// Objects handed out and not yet taken back.
    pub fn objs_allocated(&self) -> (r: usize)
        ensures
            r == self.spec_allocated(),
    {
        self.objs_allocated
    }

    /// Slab pages held.
    pub fn slab_pages(&self) -> (r: usize)
        ensures
            r == self.spec_slabs(),
    {
        self.slabs
    }

    /// A fresh slab on `page`: every object free, slot 0 first.
    fn fresh_slab(&self, page: usize) -> (r: Slab)
        requires
            self.spec_per_slab() < u32::MAX,
        ensures
            r.page == page,
            r.free@ == fresh_free(self.spec_per_slab()),
    {
        let n = self.objs_per_slab;
        let mut free: Vec<u32> = Vec::new();
        let mut i: usize = 0;
        while i < n
            invariant
                i <= n,
                n == self.spec_per_slab(),
                n < u32::MAX,
                free@ == fresh_free(n as nat).subrange(0, i as int),
            decreases n - i,
        {
            free.push((n - 1 - i) as u32);
            i = i + 1;
            assert(free@ =~= fresh_free(n as nat).subrange(0, i as int));
        }
        assert(free@ =~= fresh_free(n as nat));
        Slab { page, free }
    }

    /// Hands out one object: the next free slot of the first partial slab,
    /// or slot 0 of a fresh page from `provider` when no slab has a free
    /// object. Returns its address, or 0 when the cache holds no object per
    /// page or the provider has no page left.
    pub fn allocate<P: PageProvider>(&mut self, provider: &mut P) -> (r: usize)
        requires
            old(self).wf(),
            old(self).spec_valid(),
            alloc_room(*old(self)),
        ensures
            final(self).wf(),
            same_params(*old(self), *final(self)),
            alloc_outcome(*old(self), *final(self), r),
            old(self).spec_per_slab() == 0 || old(self).spec_partial().len() > 0 ==> *final(provider) == *old(provider),
            P::keeps_ledger() ==> alloc_ledger(*old(self), old(provider).can_supply(0), old(provider).held(),
                final(provider).held(), r),
    {
        let n = self.objs_per_slab;
        if n == 0 {
            return 0;
        }
        let ghost old_self = *self;
        let ghost ps = self.spec_page_size();
        proof {
            reveal(lists_ok);
            assert(n <= ps / 8) by (nonlinear_arith)
                requires
                    n == (ps - self.spec_offset()) / (self.spec_stride() as int),
                    self.spec_stride() >= 8,
                    self.spec_offset() <= ps;
        }
        let fresh = self.partial.len() == 0;
        let mut slab = if fresh {
            match provider.alloc_page() {
                None => {
                    return 0;
                },
                Some(page) => {
                    let sl = self.fresh_slab(page);
                    self.page_allocs = self.page_allocs + 1;
                    self.slabs = self.slabs + 1;
                    sl
                },
            }
        } else {
            proof {
                assert(slab_ok(self.spec_partial()[0], ps, n as nat));
            }
            let sl = self.partial.remove(0);
            proof {
                assert(slabs_view(self.partial@) =~= slabs_view(old_self.partial@).remove(0));
                lemma_in_use_remove(slabs_view(old_self.partial@), 0, n as nat);
            }
            sl
        };
        let ghost before = (slab.page, slab.free@);
        proof {
            if fresh {
                lemma2_to64();
                assert(before.1.len() == n);
                assert(before.1.last() == 0);
                assert(distinct(before.1));
                assert forall|k: int| 0 <= k < before.1.len() implies (#[trigger] before.1[k]) < n by {}
            } else {
                assert(before == slabs_view(old_self.partial@)[0]);
            }
            assert(slab_ok(before, ps, n as nat));
            assert(before.1.len() > 0);
        }
        let slot = slab.free.pop().unwrap();
        proof {
            assert(slot == before.1.last());
            assert(slab.free@ =~= before.1.drop_last());
            assert(slot < n);
            assert(slot as int * self.spec_stride() + self.spec_stride() <= ps - self.spec_offset()) by (nonlinear_arith)
                requires
                    slot < n,
                    n == (ps - self.spec_offset()) / (self.spec_stride() as int),
                    self.spec_stride() > 0,
                    self.spec_offset() <= ps;
        }
        let obj = slab.page + self.objects_offset + slot as usize * self.stride;
        proof {
            if fresh {
                assert(slot == 0);
                assert(slot as usize * self.stride == 0) by (nonlinear_arith)
                    requires slot == 0;
                assert(obj - old_self.spec_offset() == slab.page);
            }
        }
        let ghost after = (slab.page, slab.free@);
        let ghost p0 = self.partial@;
        let ghost f0 = self.full@;
        if slab.free.len() == 0 {
            self.full.insert(0, slab);
            proof {
                assert(slabs_view(self.full@) =~= slabs_view(f0).insert(0, after));
                lemma_in_use_push_front(slabs_view(f0), after, n as nat);
            }
        } else {
            self.partial.insert(0, slab);
            proof {
                assert(slabs_view(self.partial@) =~= slabs_view(p0).insert(0, after));
                lemma_in_use_push_front(slabs_view(p0), after, n as nat);
            }
        }
        self.objs_allocated = self.objs_allocated + 1;
        self.total_allocs = self.total_allocs + 1;
        proof {
            assert forall|k: int| 0 <= k < after.1.len() implies (#[trigger] after.1[k]) < n by {
                assert(after.1[k] == before.1[k]);
            }
            if fresh {
                assert(slabs_view(p0) =~= Seq::<(usize, Seq<u32>)>::empty());
                assert(after.1 =~= fresh_free(n as nat).drop_last());
                assert(obj - old_self.spec_offset() == after.0);
            } else {
                assert(slabs_view(p0) =~= old_self.spec_partial().drop_first());
            }
            assert(took_object(old_self, *self, after.0, after.1,
                if fresh { Seq::empty() } else { old_self.spec_partial().drop_first() }));
        }
        obj
    }

    /// The slot of the object at `ptr` in the slab on `page`.
    fn slot_of(&self, page: usize, ptr: usize) -> (r: Option<usize>)
        requires
            self.wf(),
            self.spec_valid(),
            page + self.spec_page_size() <= usize::MAX,
        ensures
            r matches Some(x) ==> slot_in(*self, page, ptr) == Some(x as nat),
            r is None ==> slot_in(*self, page, ptr) is None,
    {
        let start = page + self.objects_offset;
        if ptr < start {
            return None;
        }
        let off = ptr - start;
        if off % self.stride != 0 {
            return None;
        }
        let i = off / self.stride;
        if i >= self.objs_per_slab {
            return None;
        }
        Some(i)
    }

    /// Finds what `free` would take back for `ptr`.
    fn locate(&self, ptr: usize) -> (r: Option<(bool, usize, usize)>)
        requires
            self.wf(),
            self.spec_valid(),
        ensures
            r matches Some((on_partial, i, slot)) ==> free_target(*self, ptr) == Some((on_partial, i as int, slot as nat))
                && i < (if on_partial { self.spec_partial().len() } else { self.spec_full().len() })
                && slot < self.spec_per_slab()
                && !slab_entry(*self, on_partial, i as int).1.contains(slot as u32),
            r is None ==> free_target(*self, ptr) is None,
    {
        let ghost n = self.spec_per_slab();
        if ptr == 0 {
            proof {
                reveal(free_target);
            }
            return None;
        }
        let page = ptr & !(self.page_size - 1);
        let (on_partial, idx) = match find_slab(&self.partial, page) {
            Some(i) => (true, i),
            None => match find_slab(&self.full, page) {
                Some(j) => (false, j),
                None => {
                    proof {
                        reveal(free_target);
                    }
                    return None;
                },
            },
        };
        let ghost s = slab_entry(*self, on_partial, idx as int);
        assert(slab_ok(s, self.spec_page_size(), n)) by {
            reveal(lists_ok);
        }
        let slot = match self.slot_of(page, ptr) {
            Some(x) => x,
            None => {
                proof {
                    reveal(free_target);
                }
                return None;
            },
        };
        let already = if on_partial {
            has_slot(&self.partial[idx].free, slot as u32)
        } else {
            has_slot(&self.full[idx].free, slot as u32)
        };
        proof {
            if on_partial {
                assert(self.partial@[idx as int].free@ == s.1);
            } else {
                assert(self.full@[idx as int].free@ == s.1);
            }
        }
        if already {
            proof {
                reveal(free_target);
            }
            return None;
        }
        proof {
            reveal(free_target);
        }
        Some((on_partial, idx, slot))
    }

    /// Takes back the object at `ptr`: its slot goes on top of its slab's
    /// free stack; a slab with every object free goes back to `provider`,
    /// a full slab moves to the front of the partial list. Returns false,
    /// changing nothing, when `ptr` is not an object of this cache that is
    /// in use.
    pub fn free<P: PageProvider>(&mut self, provider: &mut P, ptr: usize) -> (r: bool)
        requires
            old(self).wf(),
            old(self).spec_valid(),
            old(self).spec_counters().1 < u64::MAX,
        ensures
            final(self).wf(),
            same_params(*old(self), *final(self)),
            free_outcome(*old(self), *final(self), ptr, r),
            !free_returns_page(*old(self), ptr) ==> *final(provider) == *old(provider),
            P::keeps_ledger() ==> free_ledger(*old(self), ptr, old(provider).held(), final(provider).held()),
    {
        let ghost old_self = *self;
        let ghost n = self.spec_per_slab();
        let (on_partial, idx, slot) = match self.locate(ptr) {
            Some(t) => t,
            None => {
                return false;
            },
        };
        let ghost s = slab_entry(old_self, on_partial, idx as int);
        proof {
            assert(slot < n);
            assert(!s.1.contains(slot as u32));
            lemma_put_back(old_self.spec_partial(), old_self.spec_full(), on_partial, idx as int, slot as u32,
                old_self.spec_page_size(), n);
        }
        let mut slab = if on_partial {
            self.partial.remove(idx)
        } else {
            self.full.remove(idx)
        };
        proof {
            assert((slab.page, slab.free@) == s);
        }
        slab.free.push(slot as u32);
        let ghost nf = slab.free@;
        let ghost p1 = self.partial@;
        let ghost f1 = self.full@;
        if slab.free.len() == self.objs_per_slab {
            provider.free_page(slab.page);
            self.slabs = self.slabs - 1;
        } else if !on_partial {
            self.partial.insert(0, slab);
        } else {
            self.partial.insert(idx, slab);
        }
        proof {
            assert(nf =~= s.1.push(slot as u32));
            let (fp, ff) = put_back(old_self.spec_partial(), old_self.spec_full(), on_partial, idx as int,
                slot as u32, n);
            assert(freed_lists(old_self, ptr) == (fp, ff));
            if nf.len() == n {
                assert(self.partial@ == p1);
            }
            assert(slabs_view(self.partial@) =~= fp);
            assert(slabs_view(self.full@) =~= ff);
        }
        self.objs_allocated = self.objs_allocated - 1;
        self.total_frees = self.total_frees + 1;
        true
    }

    /// The next free slot after the free object at `ptr`.
    fn find_free_link(&self, ptr: usize) -> (r: Option<u32>)
        requires
            self.wf(),
            self.spec_valid(),
        ensures
            r == free_link(*self, ptr),
    {
        let ghost n = self.spec_per_slab();
        if ptr == 0 {
            proof {
                reveal(free_link);
            }
            return None;
        }
        let page = ptr & !(self.page_size - 1);
        let (on_partial, idx) = match find_slab(&self.partial, page) {
            Some(i) => (true, i),
            None => match find_slab(&self.full, page) {
                Some(j) => (false, j),
                None => {
                    proof {
                        reveal(free_link);
                    }
                    return None;
                },
            },
        };
        let ghost s = slab_entry(*self, on_partial, idx as int);
        assert(slab_ok(s, self.spec_page_size(), n)) by {
            reveal(lists_ok);
        }
        let slot = match self.slot_of(page, ptr) {
            Some(x) => x,
            None => {
                proof {
                    reveal(free_link);
                }
                return None;
            },
        };
        let st = if on_partial {
            &self.partial[idx].free
        } else {
            &self.full[idx].free
        };
        proof {
            if on_partial {
                assert(self.partial@[idx as int].free@ == s.1);
            } else {
                assert(self.full@[idx as int].free@ == s.1);
            }
        }
        let mut k: usize = 0;
        while k < st.len() && st[k] != slot as u32
            invariant
                k <= st@.len(),
                forall|j: int| 0 <= j < k ==> st@[j] != slot as u32,
            decreases st@.len() - k,
        {
            k = k + 1;
        }
        if k == st.len() {
            proof {
                reveal(free_link);
            }
            return None;
        }
        let link = if k == 0 { FREE_END } else { st[k - 1] };
        assert(free_link(*self, ptr) == Some(link)) by {
            reveal(free_link);
            assert(st@.contains(slot as u32));
            lemma_pos_in(st@, slot as u32, k as int);
        }
        Some(link)
    }

    /// The bytes of the free object at `ptr`, as freeing left them, or
    /// `None` when `ptr` is not a free object of this cache.
    pub fn object_bytes(&self, ptr: usize) -> (r: Option<Vec<u8>>)
        requires
            self.wf(),
            self.spec_valid(),
        ensures
            match free_link(*self, ptr) {
                None => r is None,
                Some(link) => r matches Some(v) && v@ == freed_bytes(link, self.spec_stride()),
            },
    {
        let link = match self.find_free_link(ptr) {
            Some(l) => l,
            None => {
                return None;
            },
        };
        let mut bytes: Vec<u8> = Vec::new();
        bytes.push((link % 256) as u8);
        bytes.push(((link / 256) % 256) as u8);
        bytes.push(((link / 65536) % 256) as u8);
        bytes.push((link / 16777216) as u8);
        let ghost head = bytes@;
        let mut j: usize = 4;
        while j < self.stride
            invariant
                4 <= j <= self.stride,
                head.len() == 4,
                bytes@ == head + Seq::new((j - 4) as nat, |i: int| POISON_BYTE),
            decreases self.stride - j,
        {
            bytes.push(POISON_BYTE);
            j = j + 1;
            assert(bytes@ =~= head + Seq::new((j - 4) as nat, |i: int| POISON_BYTE));
        }
        proof {
            assert(head =~= seq![(link % 256) as u8, ((link / 256) % 256) as u8, ((link / 65536) % 256) as u8,
                (link / 16777216) as u8]);
        }
        Some(bytes)
    }

    /// Whether one of the cache's slabs is on `page`.
    pub fn holds_page(&self, page: usize) -> (r: bool)
        ensures
            r == holds_page(*self, page),
    {
        find_slab(&self.partial, page).is_some() || find_slab(&self.full, page).is_some()
    }

    /// The page base of `ptr`.
    pub fn page_of(&self, ptr: usize) -> (r: usize)
        requires
            self.spec_page_size() > 0,
        ensures
            r == page_mask(ptr, self.spec_page_size() as usize),
    {
        ptr & !(self.page_size - 1)
    }
}

} // verus!

verus! {

/// A list whose slabs each have fewer than `n` free objects counts at
/// least one object per slab.
proof fn lemma_in_use_ge_len(v: Seq<(usize, Seq<u32>)>, n: nat)
    requires
        forall|i: int| 0 <= i < v.len() ==> (#[trigger] v[i]).1.len() < n,
    ensures
        in_use(v, n) >= v.len(),
    decreases v.len(),
{
    if v.len() > 0 {
        assert(v[0].1.len() < n);
        assert forall|i: int| 0 <= i < v.drop_first().len() implies (#[trigger] v.drop_first()[i]).1.len() < n by {
            assert(v.drop_first()[i] == v[i + 1]);
        }
        lemma_in_use_ge_len(v.drop_first(), n);
    }
}

/// A cache holds slab pages exactly when it has objects handed out: a
/// page whose objects are all free again is never kept.
pub proof fn lemma_no_objects_no_pages(c: SlabCache)
    requires
        c.wf(),
    ensures
        c.spec_allocated() == 0 <==> c.spec_slabs() == 0,
        c.spec_allocated() >= c.spec_slabs(),
{
    reveal(lists_ok);
    let n = c.spec_per_slab();
    let p = c.spec_partial();
    let f = c.spec_full();
    assert forall|i: int| 0 <= i < p.len() implies (#[trigger] p[i]).1.len() < n by {
        assert(slab_ok(p[i], c.spec_page_size(), n));
    }
    assert forall|i: int| 0 <= i < f.len() implies (#[trigger] f[i]).1.len() < n by {
        assert(slab_ok(f[i], c.spec_page_size(), n));
    }
    lemma_in_use_ge_len(p, n);
    lemma_in_use_ge_len(f, n);
    if c.spec_slabs() == 0 {
        assert(p =~= Seq::<(usize, Seq<u32>)>::empty());
        assert(f =~= Seq::<(usize, Seq<u32>)>::empty());
    }
}

/// Every object of a slab on a page-aligned page starts at a multiple of
/// the cache's alignment, when that alignment divides the page size.
pub proof fn lemma_object_aligned(c: SlabCache, page: usize, slot: u32)
    requires
        c.wf(),
        c.spec_valid(),
        page % 4096 == 0,
        4096nat % c.spec_align() == 0,
    ensures
        c.object_addr(page, slot) % (c.spec_align() as int) == 0,
{
    let a = c.spec_align() as int;
    let st = c.spec_stride() as int;
    let off = c.spec_offset() as int;
    assert(off % st == 0) by (nonlinear_arith)
        requires
            st > 0,
            off == round_up(SLAB_HEADER_SIZE as nat, st as nat),
    {
        if (SLAB_HEADER_SIZE as int) % st != 0 {
            assert((SLAB_HEADER_SIZE + (st - (SLAB_HEADER_SIZE as int) % st)) % st == 0) by (nonlinear_arith)
                requires st > 0;
        }
    }
    let t = st / a;
    let u = off / st;
    let w = page / 4096;
    let v = 4096int / a;
    assert(st == a * t) by (nonlinear_arith) requires a > 0, st % a == 0, t == st / a;
    assert(off == st * u) by (nonlinear_arith) requires st > 0, off % st == 0, u == off / st;
    assert(page == 4096 * w) by (nonlinear_arith) requires page % 4096 == 0, w == page / 4096;
    assert(4096 == a * v) by (nonlinear_arith) requires a > 0, 4096int % a == 0, v == 4096int / a;
    let k = v * w + t * u + (slot as int) * t;
    assert(c.object_addr(page, slot) == a * k) by (nonlinear_arith)
        requires
            c.object_addr(page, slot) == page + off + (slot as int) * st,
            st == a * t,
            off == st * u,
            page == 4096 * w,
            4096 == a * v,
            k == v * w + t * u + (slot as int) * t;
    assert((a * k) % a == 0) by (nonlinear_arith) requires a > 0;
}

/// Every object `allocate` hands out starts at a multiple of the cache's
/// alignment, when that alignment divides the page size.
pub proof fn lemma_allocate_aligned(a: SlabCache, b: SlabCache, r: usize)
    requires
        a.wf(),
        a.spec_valid(),
        alloc_outcome(a, b, r),
        r != 0,
        4096nat % a.spec_align() == 0,
    ensures
        (r as int) % (a.spec_align() as int) == 0,
{
    reveal(lists_ok);
    if a.spec_partial().len() > 0 {
        let s = a.spec_partial()[0];
        assert(slab_ok(s, a.spec_page_size(), a.spec_per_slab()));
        lemma_object_aligned(a, s.0, s.1.last());
    } else {
        let page = (r - a.spec_offset()) as usize;
        lemma_object_aligned(a, page, 0);
    }
}

/// No two slabs of a cache share a page.
pub open spec fn pages_distinct(c: SlabCache) -> bool {
    let all = c.spec_partial() + c.spec_full();
    forall|i: int, j: int| 0 <= i < j < all.len() ==> all[i].0 != all[j].0
}

proof fn lemma_find_page_front(v: Seq<(usize, Seq<u32>)>, page: usize)
    requires
        v.len() > 0,
        v[0].0 == page,
    ensures
        find_page(v, page) == Some(0int),
{
    assert(exists|k: int| 0 <= k < v.len() && (#[trigger] v[k]).0 == page) by {
        assert(v[0].0 == page);
    }
    let c = choose|k: int| 0 <= k < v.len() && (#[trigger] v[k]).0 == page
        && forall|j: int| 0 <= j < k ==> (#[trigger] v[j]).0 != page;
    assert(0 <= 0 < v.len() && v[0].0 == page && forall|j: int| 0 <= j < 0 ==> (#[trigger] v[j]).0 != page);
    if c > 0 {
        assert(v[0].0 != page);
    }
}

/// A page some slab of `v` is on has a first such slab.
proof fn lemma_first_page_exists(v: Seq<(usize, Seq<u32>)>, page: usize, k: int)
    requires
        0 <= k < v.len(),
        v[k].0 == page,
    ensures
        exists|m: int| 0 <= m < v.len() && (#[trigger] v[m]).0 == page
            && forall|j: int| 0 <= j < m ==> (#[trigger] v[j]).0 != page,
    decreases k,
{
    if exists|j: int| 0 <= j < k && (#[trigger] v[j]).0 == page {
        let j = choose|j: int| 0 <= j < k && (#[trigger] v[j]).0 == page;
        lemma_first_page_exists(v, page, j);
    } else {
        assert(forall|j: int| 0 <= j < k ==> (#[trigger] v[j]).0 != page);
    }
}

/// What `find_page` finds is a slab of `v` on the page.
proof fn lemma_find_page_some(v: Seq<(usize, Seq<u32>)>, page: usize)
    requires
        find_page(v, page) is Some,
    ensures
        0 <= find_page(v, page)->0 < v.len(),
        v[find_page(v, page)->0].0 == page,
{
    let k = choose|k: int| 0 <= k < v.len() && (#[trigger] v[k]).0 == page;
    lemma_first_page_exists(v, page, k);
}

proof fn lemma_find_page_none(v: Seq<(usize, Seq<u32>)>, page: usize)
    requires
        forall|i: int| 0 <= i < v.len() ==> (#[trigger] v[i]).0 != page,
    ensures
        find_page(v, page) is None,
{
}

/// A page a cache takes for an object goes back when the object does:
/// where `allocate` took `a` to `b` handing out `r` and moved the
/// provider's ledger from `h0` to `h1`, and `free` of `r` took `b` to `c`
/// and moved it from `h1` to `h2`, each as its contract states, the ledger
/// is `h0` again.
pub proof fn lemma_allocate_free_ledger(a: SlabCache, b: SlabCache, c: SlabCache, r: usize, ok: bool, can: bool,
    h0: Set<int>, h1: Set<int>, h2: Set<int>)
    requires
        a.wf(),
        a.spec_valid(),
        a.spec_page_size() == 4096,
        same_params(a, b),
        b.wf(),
        alloc_outcome(a, b, r),
        r != 0,
        pages_distinct(b),
        free_outcome(b, c, r, ok),
        alloc_ledger(a, can, h0, h1, r),
        free_ledger(b, r, h1, h2),
    ensures
        h2 == h0,
{
    lemma_allocate_free_roundtrip(a, b, c, r, ok);
    let (page, fr) = lemma_allocated_slot(a, b, r);
    let fresh = a.spec_partial().len() == 0;
    if fresh {
        reveal(free_target);
        assert(free_returns_page(b, r));
        let blk = block_pages((r - a.spec_offset()) as usize, 0);
        assert(page == (r - a.spec_offset()) as usize);
        let t = free_target(b, r)->0;
        let e = slab_entry(b, t.0, t.1);
        assert(e.0 == page);
        assert(freed_page(b, r) == page);
        assert(blk <= h1);
        assert(h2 =~= h0);
    }
}

/// The pages of the slabs of a list, in order.
pub open spec fn pages_of(v: Seq<(usize, Seq<u32>)>) -> Seq<int> {
    v.map_values(|x: (usize, Seq<u32>)| x.0 as int)
}

/// The pages of all the cache's slabs, counted with multiplicity.
pub open spec fn slab_pages(c: SlabCache) -> Multiset<int> {
    pages_of(c.spec_partial()).to_multiset().add(pages_of(c.spec_full()).to_multiset())
}

/// A provider's ledger `held` accounts for the cache: every slab page is
/// held, no page carries two slabs, and what the ledger holds besides the
/// slab pages is exactly `rest`.
pub open spec fn pages_accounted(c: SlabCache, held: Set<int>, rest: Set<int>) -> bool {
    &&& forall|p: int| #[trigger] slab_pages(c).count(p) <= 1
    &&& forall|p: int| #[trigger] slab_pages(c).count(p) > 0 ==> held.contains(p)
    &&& rest == Set::new(|p: int| held.contains(p) && slab_pages(c).count(p) == 0)
}

/// The pages `allocate` leaves the cache on: the same, or with the fresh
/// page added when it took one.
pub proof fn lemma_allocate_pages(a: SlabCache, b: SlabCache, r: usize)
    requires
        a.wf(),
        a.spec_valid(),
        alloc_outcome(a, b, r),
    ensures
        a.spec_per_slab() == 0 || a.spec_partial().len() > 0 || r == 0 ==> slab_pages(b) == slab_pages(a),
        a.spec_per_slab() > 0 && a.spec_partial().len() == 0 && r != 0
            ==> slab_pages(b) == slab_pages(a).insert((r - a.spec_offset()) as usize as int),
{
    broadcast use vstd::seq_lib::group_to_multiset_ensures, vstd::multiset::group_multiset_axioms;
    let n = a.spec_per_slab();
    let ap = a.spec_partial();
    let af = a.spec_full();
    if n == 0 || (ap.len() == 0 && r == 0) {
        assert(slab_pages(b) == slab_pages(a));
    } else if ap.len() > 0 {
        let s = ap[0];
        let rest_s = s.1.drop_last();
        if rest_s.len() == 0 {
            assert(pages_of(b.spec_partial()) =~= pages_of(ap).remove(0));
            assert(pages_of(b.spec_full()) =~= pages_of(af).insert(0, s.0 as int));
        } else {
            assert(pages_of(b.spec_partial()) =~= pages_of(ap));
            assert(b.spec_full() == af);
        }
        assert(pages_of(ap)[0] == s.0 as int);
        assert(slab_pages(b) =~= slab_pages(a));
    } else {
        let page = (r - a.spec_offset()) as usize;
        let pg = page as int;
        let rest_s = fresh_free(n).drop_last();
        if rest_s.len() == 0 {
            assert(pages_of(b.spec_partial()) =~= Seq::<int>::empty());
            assert(pages_of(b.spec_full()) =~= pages_of(af).insert(0, pg));
        } else {
            assert(pages_of(b.spec_partial()) =~= seq![pg]);
            assert(seq![pg] =~= Seq::<int>::empty().push(pg));
            assert(pages_of(ap) =~= Seq::<int>::empty());
        }
        assert(slab_pages(b) =~= slab_pages(a).insert(pg));
    }
}

/// Allocation keeps the ledger's account of the cache: where `allocate`
/// took `a` to `b` and moved the provider's ledger from `h0` to `h1`, as
/// its contract states, and `h0` accounted for `a` with `rest` besides,
/// `h1` accounts for `b` with the same `rest`.
pub proof fn lemma_allocate_keeps_account(a: SlabCache, b: SlabCache, r: usize, can: bool, h0: Set<int>,
    h1: Set<int>, rest: Set<int>)
    requires
        a.wf(),
        a.spec_valid(),
        alloc_outcome(a, b, r),
        alloc_ledger(a, can, h0, h1, r),
        pages_accounted(a, h0, rest),
    ensures
        pages_accounted(b, h1, rest),
{
    broadcast use vstd::multiset::group_multiset_axioms;
    lemma_allocate_pages(a, b, r);
    if a.spec_per_slab() > 0 && a.spec_partial().len() == 0 && r != 0 {
        let page = (r - a.spec_offset()) as usize;
        let pg = page as int;
        lemma_single_page_block(page);
        assert(block_pages(page, 0).contains(pg));
        assert(!h0.contains(pg));
        assert(h1 == h0.insert(pg));
        assert(slab_pages(a).count(pg) == 0);
        assert(rest =~= Set::new(|p: int| h1.contains(p) && slab_pages(b).count(p) == 0));
    }
}

/// The pages `free` leaves the cache on: the same, or without the page of
/// the slab it emptied, which carried it once at least.
#[verifier::rlimit(80)]
pub proof fn lemma_free_pages(b: SlabCache, c: SlabCache, ptr: usize, ok: bool)
    requires
        b.wf(),
        b.spec_valid(),
        free_outcome(b, c, ptr, ok),
    ensures
        !free_returns_page(b, ptr) ==> slab_pages(c) == slab_pages(b),
        free_returns_page(b, ptr) ==> slab_pages(c) == slab_pages(b).remove(freed_page(b, ptr) as int)
            && slab_pages(b).count(freed_page(b, ptr) as int) >= 1,
{
    broadcast use vstd::seq_lib::group_to_multiset_ensures, vstd::multiset::group_multiset_axioms;
    reveal(free_target);
    if free_target(b, ptr) is None {
        assert(slab_pages(c) == slab_pages(b));
    } else {
        let (on_partial, i, slot) = free_target(b, ptr)->0;
        let bp = b.spec_partial();
        let bf = b.spec_full();
        let n = b.spec_per_slab();
        let e = slab_entry(b, on_partial, i);
        let nf = e.1.push(slot as u32);
        let pg = e.0 as int;
        let page = page_mask(ptr, b.spec_page_size() as usize);
        assert(slab_at(b, ptr) == Some((on_partial, i)));
        if on_partial {
            assert(find_page(bp, page) == Some(i));
            lemma_find_page_some(bp, page);
            assert(pages_of(bp)[i] == pg);
        } else {
            assert(find_page(bf, page) == Some(i));
            lemma_find_page_some(bf, page);
            assert(pages_of(bf)[i] == pg);
        }
        if nf.len() == n {
            if on_partial {
                assert(pages_of(c.spec_partial()) =~= pages_of(bp).remove(i));
                assert(c.spec_full() == bf);
            } else {
                assert(pages_of(c.spec_full()) =~= pages_of(bf).remove(i));
                assert(c.spec_partial() == bp);
            }
            assert(slab_pages(c) =~= slab_pages(b).remove(pg));
            assert(freed_page(b, ptr) == e.0);
        } else {
            if on_partial {
                assert(pages_of(c.spec_partial()) =~= pages_of(bp));
                assert(c.spec_full() == bf);
            } else {
                assert(pages_of(c.spec_partial()) =~= pages_of(bp).insert(0, pg));
                assert(pages_of(c.spec_full()) =~= pages_of(bf).remove(i));
            }
            assert(slab_pages(c) =~= slab_pages(b));
        }
    }
}

/// Freeing keeps the ledger's account of the cache: where `free` took `b`
/// to `c` and moved the provider's ledger from `h1` to `h2`, as its
/// contract states, and `h1` accounted for `b` with `rest` besides, `h2`
/// accounts for `c` with the same `rest`.
pub proof fn lemma_free_keeps_account(b: SlabCache, c: SlabCache, ptr: usize, ok: bool, h1: Set<int>, h2: Set<int>,
    rest: Set<int>)
    requires
        b.wf(),
        b.spec_valid(),
        free_outcome(b, c, ptr, ok),
        free_ledger(b, ptr, h1, h2),
        pages_accounted(b, h1, rest),
    ensures
        pages_accounted(c, h2, rest),
{
    broadcast use vstd::multiset::group_multiset_axioms;
    lemma_free_pages(b, c, ptr, ok);
    if free_returns_page(b, ptr) {
        let pg = freed_page(b, ptr) as int;
        lemma_single_page_block(freed_page(b, ptr));
        assert(slab_pages(b).count(pg) == 1);
        assert(h2 == h1.remove(pg));
        assert(rest =~= Set::new(|p: int| h2.contains(p) && slab_pages(c).count(p) == 0));
    }
}

/// A cache on no page is accounted for by any ledger, with everything it
/// holds besides.
pub proof fn lemma_empty_cache_accounted(c: SlabCache, held: Set<int>)
    requires
        c.wf(),
        c.spec_allocated() == 0,
    ensures
        pages_accounted(c, held, held),
{
    broadcast use vstd::seq_lib::group_to_multiset_ensures, vstd::multiset::group_multiset_axioms;
    lemma_no_objects_no_pages(c);
    assert(pages_of(c.spec_partial()) =~= Seq::<int>::empty());
    assert(pages_of(c.spec_full()) =~= Seq::<int>::empty());
    assert(slab_pages(c) =~= Multiset::<int>::empty());
    assert(held =~= Set::new(|p: int| held.contains(p) && slab_pages(c).count(p) == 0));
}

/// A cache that holds no object holds no page: where the ledger `held`
/// accounts for a cache with no object handed out, with `rest` besides,
/// the ledger holds exactly `rest`, so every page the cache took went back.
pub proof fn lemma_empty_cache_returned_all(c: SlabCache, held: Set<int>, rest: Set<int>)
    requires
        c.wf(),
        c.spec_allocated() == 0,
        pages_accounted(c, held, rest),
    ensures
        held == rest,
{
    broadcast use vstd::seq_lib::group_to_multiset_ensures, vstd::multiset::group_multiset_axioms;
    lemma_no_objects_no_pages(c);
    assert(pages_of(c.spec_partial()) =~= Seq::<int>::empty());
    assert(pages_of(c.spec_full()) =~= Seq::<int>::empty());
    assert(slab_pages(c) =~= Multiset::<int>::empty());
    assert(held =~= rest);
}

/// Freeing the object that `allocate` just handed out gives the cache back
/// its lists and counts, provided the provider handed out a page that no
/// slab was on.
pub proof fn lemma_allocate_free_roundtrip(a: SlabCache, b: SlabCache, c: SlabCache, r: usize, ok: bool)
    requires
        a.wf(),
        a.spec_valid(),
        a.spec_page_size() == 4096,
        same_params(a, b),
        b.wf(),
        alloc_outcome(a, b, r),
        r != 0,
        pages_distinct(b),
        free_outcome(b, c, r, ok),
    ensures
        ok,
        c.spec_partial() == a.spec_partial(),
        c.spec_full() == a.spec_full(),
        c.spec_slabs() == a.spec_slabs(),
        c.spec_allocated() == a.spec_allocated(),
{
    let (page, fr) = lemma_allocated_slot(a, b, r);
    let n = a.spec_per_slab();
    let slot = fr.last();
    let rest = fr.drop_last();
    let fresh = a.spec_partial().len() == 0;
    let bp = b.spec_partial();
    let bf = b.spec_full();
    assert(!rest.contains(slot)) by {
        if rest.contains(slot) {
            let k = choose|k: int| 0 <= k < rest.len() && rest[k] == slot;
            assert(fr[k] == fr[fr.len() - 1]);
        }
    }
    let nf = rest.push(slot);
    assert(nf =~= fr);
    if rest.len() > 0 {
        assert(bp[0] == (page, rest));
        assert(bp.len() > 0);
        lemma_find_page_front(bp, page);
        assert(free_target(b, r) == Some((true, 0int, slot as nat))) by {
            reveal(free_target);
        }
        if fresh {
            assert(bp.remove(0) =~= a.spec_partial());
        } else {
            assert(bp.update(0, (page, nf)) =~= a.spec_partial());
        }
    } else {
        assert(bf[0] == (page, rest));
        let all = bp + bf;
        assert forall|i: int| 0 <= i < bp.len() implies (#[trigger] bp[i]).0 != page by {
            assert(all[i] == bp[i]);
            assert(all[bp.len() as int] == bf[0]);
        }
        lemma_find_page_none(bp, page);
        lemma_find_page_front(bf, page);
        assert(free_target(b, r) == Some((false, 0int, slot as nat))) by {
            reveal(free_target);
        }
        assert(bf.remove(0) =~= a.spec_full());
        if n == 1 {
            assert(bp =~= a.spec_partial());
        } else {
            assert(bp.insert(0, (page, nf)) =~= a.spec_partial());
        }
    }
}

/// The slab and free stack `allocate` took its object from: the object is
/// the top slot of the stack, on the page its address masks to, and the
/// slab with the rest of the stack leads the partial list, or, when no
/// slot is left, the full list.
proof fn lemma_allocated_slot(a: SlabCache, b: SlabCache, r: usize) -> (res: (usize, Seq<u32>))
    requires
        a.wf(),
        a.spec_valid(),
        a.spec_page_size() == 4096,
        same_params(a, b),
        alloc_outcome(a, b, r),
        r != 0,
    ensures
        ({
            let (page, fr) = res;
            let n = a.spec_per_slab();
            let rest = fr.drop_last();
            let fresh = a.spec_partial().len() == 0;
            &&& fr.len() > 0
            &&& distinct(fr)
            &&& fr.last() < n
            &&& page_mask(r, 4096usize) == page
            &&& slot_in(b, page, r) == Some(fr.last() as nat)
            &&& fresh ==> fr.len() == n
            &&& !fresh ==> fr.len() < n && a.spec_partial()[0] == (page, fr)
            &&& rest.len() > 0 ==> b.spec_full() == a.spec_full() && b.spec_partial()
                == (if fresh { seq![(page, rest)] } else { a.spec_partial().drop_first().insert(0, (page, rest)) })
            &&& rest.len() == 0 ==> b.spec_full() == a.spec_full().insert(0, (page, rest))
                && b.spec_partial() == (if fresh { Seq::empty() } else { a.spec_partial().drop_first() })
            &&& b.spec_slabs() == a.spec_slabs() + if fresh { 1int } else { 0int }
            &&& b.spec_allocated() == a.spec_allocated() + 1
        }),
{
    lemma2_to64();
    let n = a.spec_per_slab();
    let off = a.spec_offset();
    let st = a.spec_stride();
    if a.spec_partial().len() == 0 {
        let page = (r - off) as usize;
        let fr = fresh_free(n);
        assert(distinct(fr));
        assert(fr.last() == 0);
        lemma_slot_page(a, b, r, page, 0);
        if fr.drop_last().len() > 0 {
            assert(b.spec_partial() =~= seq![(page, fr.drop_last())]);
        }
        (page, fr)
    } else {
        let s = a.spec_partial()[0];
        let page = s.0;
        let fr = s.1;
        assert(slab_ok(s, 4096, n) && 0 < s.1.len() < n) by {
            reveal(lists_ok);
        }
        let slot = fr.last();
        assert(fr[fr.len() - 1] < n);
        lemma_slot_page(a, b, r, page, slot);
        (page, fr)
    }
}

/// The object of slot `slot` on page `page` masks back to the page and
/// sits at slot `slot`.
proof fn lemma_slot_page(a: SlabCache, b: SlabCache, r: usize, page: usize, slot: u32)
    requires
        a.wf(),
        a.spec_valid(),
        a.spec_page_size() == 4096,
        same_params(a, b),
        page % 4096 == 0,
        slot < a.spec_per_slab(),
        r == a.object_addr(page, slot),
    ensures
        page_mask(r, 4096usize) == page,
        slot_in(b, page, r) == Some(slot as nat),
{
    let n = a.spec_per_slab();
    let off = a.spec_offset();
    let st = a.spec_stride();
    assert(slot * st + st <= 4096 - off) by (nonlinear_arith)
        requires
            slot < n,
            n == (4096 - off) / (st as int),
            st > 0,
            off <= 4096;
    let x = (off + slot * st) as usize;
    assert(r == page + x);
    assert(page_mask(r, 4096usize) == page) by (bit_vector)
        requires
            page % 4096 == 0,
            x < 4096,
            r == page + x;
    assert(((slot * st) as int) % (st as int) == 0 && ((slot * st) as int) / (st as int) == slot) by (nonlinear_arith)
        requires st > 0;
}

/// All slabs of a cache, partial ones first.
pub open spec fn all_slabs(c: SlabCache) -> Seq<(usize, Seq<u32>)> {
    c.spec_partial() + c.spec_full()
}

/// A cache that holds `page` has a slab on it.
pub proof fn lemma_holds_page_witness(c: SlabCache, page: usize)
    requires
        holds_page(c, page),
    ensures
        exists|x: int| 0 <= x < all_slabs(c).len() && (#[trigger] all_slabs(c)[x]).0 == page,
{
    let p = c.spec_partial();
    let f = c.spec_full();
    if find_page(p, page) is Some {
        let k = choose|k: int| 0 <= k < p.len() && (#[trigger] p[k]).0 == page;
        assert(all_slabs(c)[k] == p[k]);
    } else {
        let k = choose|k: int| 0 <= k < f.len() && (#[trigger] f[k]).0 == page;
        assert(all_slabs(c)[p.len() + k] == f[k]);
    }
}

/// The object `allocate` hands out lies on a slab the cache then holds:
/// the page of its address.
pub proof fn lemma_allocate_holds_page(a: SlabCache, b: SlabCache, r: usize)
    requires
        a.wf(),
        a.spec_valid(),
        a.spec_page_size() == 4096,
        same_params(a, b),
        alloc_outcome(a, b, r),
        r != 0,
    ensures
        exists|x: int| 0 <= x < all_slabs(b).len() && (#[trigger] all_slabs(b)[x]).0 == page_mask(r, 4096usize),
{
    let (page, fr) = lemma_allocated_slot(a, b, r);
    if fr.drop_last().len() > 0 {
        assert(all_slabs(b)[0] == b.spec_partial()[0]);
    } else {
        assert(all_slabs(b)[b.spec_partial().len() as int] == b.spec_full()[0]);
    }
}

} // verus!
