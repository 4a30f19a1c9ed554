use vstd::prelude::*;
use crate::mm::pmm::buddy_spec::{
    psz, start_at, aligned, in_block, range_free, block_full, maximal, disjoint, buddy,
    lemma_psz_pos, lemma_psz_mul, lemma_psz_double, lemma_start_at, lemma_start_at_parent,
    lemma_start_at_unique, lemma_start_at_inside, lemma_nest, lemma_aligned_mul, lemma_buddy,
};
use crate::mm::pmm::buddy_math::{ceil_log2, count_true, lemma_ceil_log2, lemma_floor_log2_pow2, lemma_count_update, lemma_count_le_len, lemma_count_push, lemma_pow2_fits, order_pages, next_pow2, log2_floor};
use crate::mm::pmm::buddy_lists::{entries_maximal, entries_disjoint, entries_cover, lists_ok, maximal_prefix, linked_lists, lemma_linked_lists_ok, lemma_psz_mono};

verus! {

/// Abstract state of a buddy allocator.
pub struct BuddyView {
    /// Number of real pages (leaves).
    pub real: nat,
    /// Largest order: the leaf space is `2^max` leaves, the real pages and holes above them.
    pub max: nat,
    /// Per real page: whether it is free.
    pub free: Seq<bool>,
    /// Free lists: for each order, block starts; the last entry is the one handed out next.
    pub lists: Seq<Seq<usize>>,
    /// Whether the free lists have been built since the last reservation.
    pub linked: bool,
    /// Pages counted as allocated.
    pub used: nat,
    /// Pages counted as reserved.
    pub reserved: nat,
}

/// Buddy-system page allocator over `real` pages.
///
/// Pages live in a power-of-two leaf space; the pages beyond `real` are
/// holes that never become free. Free memory is kept as maximal aligned
/// blocks on per-order free lists; allocation splits the smallest block that
/// fits, and freeing merges a block with its buddy as long as the buddy is
/// entirely free.
pub struct BuddyAllocator {
    real_units: usize,
    virtual_units: usize,
    max_order: usize,
    free: Vec<bool>,
    lists: Vec<Vec<usize>>,
    free_total: usize,
    linked: bool,
    allocated_pages: usize,
    reserved_pages: usize,
}

/// Bytes of bookkeeping an in-place arena takes for `real_units` pages:
/// a `u32` counter and two `i64` links per tree node, plus one `i64` head per order.
pub open spec fn needed_bytes_spec(real_units: nat) -> int {
    let t = psz(ceil_log2(real_units));
    let max_order = ceil_log2(real_units);
    2 * t * 4 + 2 * (2 * t * 8) + (max_order + 1) * 8
}

/// Least order in `[from, max]` whose list is non-empty.
pub open spec fn first_nonempty(lists: Seq<Seq<usize>>, from: nat, max: nat) -> Option<nat>
    decreases max + 1 - from,
{
    if from > max {
        None
    } else if lists[from as int].len() > 0 {
        Some(from)
    } else {
        first_nonempty(lists, from + 1, max)
    }
}

/// Lists after taking the block at `leaf` of order `found` and splitting it down to `order`:
/// the upper half at each order in `[order, found)` goes on that order's list.
pub open spec fn split_lists(lists: Seq<Seq<usize>>, leaf: int, found: nat, order: nat) -> Seq<Seq<usize>> {
    Seq::new(lists.len(), |k: int|
        if k == found {
            lists[k].drop_last()
        } else if order <= k < found {
            lists[k].push((leaf + psz(k as nat)) as usize)
        } else {
            lists[k]
        })
}

/// `free` with the leaves `[lo, hi)` set to `v`.
pub open spec fn set_range(free: Seq<bool>, lo: int, hi: int, v: bool) -> Seq<bool> {
    Seq::new(free.len(), |x: int| if lo <= x < hi { v } else { free[x] })
}

/// Order at which a freed block stops merging: the first order from `o` on
/// that is the top order or whose buddy is not entirely free.
pub open spec fn merge_order(free: Seq<bool>, leaf: int, o: nat, max: nat) -> nat
    decreases max - o,
{
    if o < max && block_full(free, buddy(start_at(leaf, o), o), o) {
        merge_order(free, leaf, o + 1, max)
    } else {
        o
    }
}

/// Lists after freeing the block holding `leaf` at `order`: the buddies absorbed at
/// orders `[order, top)` leave their lists and the merged block joins list `top`.
pub open spec fn merge_lists(lists: Seq<Seq<usize>>, leaf: int, order: nat, top: nat) -> Seq<Seq<usize>> {
    Seq::new(lists.len(), |k: int|
        if order <= k < top {
            lists[k].remove_value(buddy(start_at(leaf, k as nat), k as nat) as usize)
        } else if k == top {
            lists[k].push(start_at(leaf, top) as usize)
        } else {
            lists[k]
        })
}

/// Some aligned block of order `o` within the real pages is entirely free.
pub open spec fn has_free_block(free: Seq<bool>, o: nat) -> bool {
    exists|b: int| aligned(b, o) && #[trigger] block_full(free, b, o)
}

/// No list from `from` to `max` is non-empty when the search finds none.
pub proof fn lemma_first_nonempty_none(lists: Seq<Seq<usize>>, from: nat, max: nat)
    requires
        first_nonempty(lists, from, max) is None,
    ensures
        forall|k: int| from <= k <= max ==> #[trigger] lists[k].len() == 0,
    decreases max + 1 - from,
{
    if from <= max {
        lemma_first_nonempty_none(lists, from + 1, max);
    }
}

/// Facts about the upper halves pushed when splitting an aligned order-`found` block at `leaf`.
pub proof fn lemma_split_halves(leaf: int, found: nat, order: nat, k: nat)
    requires
        aligned(leaf, found),
        order <= k < found,
    ensures
        aligned(leaf + psz(k), k),
        in_block(leaf + psz(k), leaf, k + 1),
        leaf + psz(order) <= leaf + psz(k),
        leaf + psz(k) + psz(k) <= leaf + psz(found),
        start_at(leaf + psz(k), k + 1) == leaf,
        psz(k + 1) == 2 * psz(k),
{
    lemma_psz_double(k);
    lemma_psz_mono(order, k);
    lemma_psz_mono(k + 1, found);
    crate::mm::pmm::buddy_lists::lemma_aligned_lower(leaf, k + 1, found);
    lemma_psz_pos(k);
    vstd::arithmetic::div_mod::lemma_fundamental_div_mod(leaf, psz(k + 1));
    let q = leaf / psz(k + 1);
    assert(leaf + psz(k) == (2 * q + 1) * psz(k)) by (nonlinear_arith)
        requires leaf == psz(k + 1) * q + leaf % psz(k + 1), leaf % psz(k + 1) == 0, psz(k + 1) == 2 * psz(k);
    assert(2 * q + 1 >= 0) by (nonlinear_arith)
        requires leaf >= 0, psz(k + 1) > 0, q == leaf / psz(k + 1);
    lemma_aligned_mul(2 * q + 1, k);
    lemma_start_at_unique(leaf + psz(k), leaf, k + 1);
}

/// After a split, every list entry is a maximal block.
pub proof fn lemma_alloc_entries(free: Seq<bool>, lists: Seq<Seq<usize>>, max: nat, leaf: int, found: nat, order: nat)
    requires
        lists_ok(free, lists, max),
        order <= found <= max,
        lists[found as int].len() > 0,
        leaf == lists[found as int].last() as int,
        aligned(leaf, found),
        block_full(free, leaf, found),
        free.len() <= usize::MAX,
    ensures
        entries_maximal(set_range(free, leaf, leaf + psz(order), false), split_lists(lists, leaf, found, order), max),
{
    let nf = set_range(free, leaf, leaf + psz(order), false);
    let nl = split_lists(lists, leaf, found, order);
    let last = lists[found as int].len() - 1;
    lemma_psz_mono(order, found);
    lemma_psz_pos(order);
    assert forall|o: int, i: int| 0 <= o < nl.len() && 0 <= i < nl[o].len() implies #[trigger] maximal(nf, nl[o][i] as int, o as nat, max) by {
        if order <= o < found && i == lists[o].len() {
            let k = o as nat;
            lemma_split_halves(leaf, found, order, k);
            let b = leaf + psz(k);
            assert(nl[o][i] as int == b);
            assert(block_full(nf, b, k));
            assert(!nf[leaf]);
            assert(!block_full(nf, start_at(b, k + 1), k + 1));
        } else {
            assert(nl[o][i] == lists[o][i]);
            crate::mm::pmm::buddy_lists::lemma_entry_maximal(free, lists, max, o, i);
            if o != found || i != last {
                crate::mm::pmm::buddy_lists::lemma_entries_disjoint(lists, o, i, found as int, last);
            }
            assert(block_full(nf, lists[o][i] as int, o as nat));
            if o < max {
                let p = start_at(lists[o][i] as int, (o + 1) as nat);
                assert(!block_full(free, p, (o + 1) as nat));
                if block_full(nf, p, (o + 1) as nat) {
                    assert forall|x: int| p <= x < p + psz((o + 1) as nat) implies #[trigger] free[x] by {
                        assert(nf[x]);
                    }
                    assert(false);
                }
            }
        }
    }
}

/// After a split, distinct list entries stay disjoint.
pub proof fn lemma_alloc_disjoint(lists: Seq<Seq<usize>>, leaf: int, found: nat, order: nat)
    requires
        entries_disjoint(lists),
        order <= found,
        found < lists.len(),
        lists[found as int].len() > 0,
        leaf == lists[found as int].last() as int,
        aligned(leaf, found),
        leaf + psz(found) <= usize::MAX,
    ensures
        entries_disjoint(split_lists(lists, leaf, found, order)),
{
    let nl = split_lists(lists, leaf, found, order);
    let last = lists[found as int].len() - 1;
    assert forall|o1: int, i1: int, o2: int, i2: int|
        0 <= o1 < nl.len() && 0 <= i1 < nl[o1].len() && 0 <= o2 < nl.len() && 0 <= i2 < nl[o2].len()
            && (o1 != o2 || i1 != i2) implies #[trigger] disjoint(nl[o1][i1] as int, o1 as nat, nl[o2][i2] as int, o2 as nat) by {
        let new1 = order <= o1 < found && i1 == lists[o1].len();
        let new2 = order <= o2 < found && i2 == lists[o2].len();
        if new1 {
            lemma_split_halves(leaf, found, order, o1 as nat);
        }
        if new2 {
            lemma_split_halves(leaf, found, order, o2 as nat);
        }
        if new1 && new2 {
            assert(o1 != o2);
            if o1 < o2 {
                lemma_psz_mono((o1 + 1) as nat, o2 as nat);
            } else {
                lemma_psz_mono((o2 + 1) as nat, o1 as nat);
            }
        } else if new1 {
            assert(nl[o2][i2] == lists[o2][i2]);
            crate::mm::pmm::buddy_lists::lemma_entries_disjoint(lists, o2, i2, found as int, last);
        } else if new2 {
            assert(nl[o1][i1] == lists[o1][i1]);
            crate::mm::pmm::buddy_lists::lemma_entries_disjoint(lists, o1, i1, found as int, last);
        } else {
            assert(nl[o1][i1] == lists[o1][i1]);
            assert(nl[o2][i2] == lists[o2][i2]);
            crate::mm::pmm::buddy_lists::lemma_entries_disjoint(lists, o1, i1, o2, i2);
        }
    }
}

/// After a split, the lists still cover every free leaf.
pub proof fn lemma_alloc_cover(free: Seq<bool>, lists: Seq<Seq<usize>>, leaf: int, found: nat, order: nat)
    requires
        entries_cover(free, lists),
        order <= found,
        found < lists.len(),
        lists[found as int].len() > 0,
        leaf == lists[found as int].last() as int,
        aligned(leaf, found),
        leaf + psz(found) <= usize::MAX,
    ensures
        entries_cover(set_range(free, leaf, leaf + psz(order), false), split_lists(lists, leaf, found, order)),
{
    let nf = set_range(free, leaf, leaf + psz(order), false);
    let nl = split_lists(lists, leaf, found, order);
    let last = lists[found as int].len() - 1;
    assert forall|x: int| 0 <= x < nf.len() && #[trigger] nf[x] implies exists|o: int, i: int|
        0 <= o < nl.len() && 0 <= i < nl[o].len() && in_block(x, #[trigger] nl[o][i] as int, o as nat) by {
        assert(free[x]);
        let (o, i) = choose|o: int, i: int| 0 <= o < lists.len() && 0 <= i < lists[o].len() && in_block(x, #[trigger] lists[o][i] as int, o as nat);
        if o == found && i == last {
            crate::mm::pmm::buddy_lists::lemma_split_cover(leaf, x, order, found);
            let k = choose|k: nat| order <= k < found && #[trigger] in_block(x, leaf + psz(k), k);
            lemma_split_halves(leaf, found, order, k);
            assert(nl[k as int][lists[k as int].len() as int] as int == leaf + psz(k));
            assert(in_block(x, nl[k as int][lists[k as int].len() as int] as int, k));
        } else {
            assert(nl[o][i] == lists[o][i]);
        }
    }
}

/// While merging a freed block: a list entry whose parent is entirely free
/// can only be a buddy still waiting on the merge path, at the current order or above.
pub open spec fn pending_ok(nf: Seq<bool>, e: int, oe: nat, max: nat, leaf: int, o: nat) -> bool {
    oe < max && block_full(nf, start_at(e, oe + 1), oe + 1) ==> (oe >= o && start_at(e, oe + 1) == start_at(leaf, oe + 1))
}

/// State of the lists while the block holding `leaf` is merged at order `o`.
pub open spec fn merge_inv(nf: Seq<bool>, lists: Seq<Seq<usize>>, max: nat, leaf: int, o: nat) -> bool {
    &&& lists.len() == max + 1
    &&& forall|oe: int, i: int| 0 <= oe < lists.len() && 0 <= i < lists[oe].len() ==> {
        &&& aligned(#[trigger] lists[oe][i] as int, oe as nat)
        &&& block_full(nf, lists[oe][i] as int, oe as nat)
        &&& pending_ok(nf, lists[oe][i] as int, oe as nat, max, leaf, o)
        &&& disjoint(lists[oe][i] as int, oe as nat, start_at(leaf, o), o)
    }
    &&& entries_disjoint(lists)
    &&& forall|x: int| 0 <= x < nf.len() && #[trigger] nf[x] ==> in_block(x, start_at(leaf, o), o) || exists|oe: int, i: int|
        0 <= oe < lists.len() && 0 <= i < lists[oe].len() && in_block(x, #[trigger] lists[oe][i] as int, oe as nat)
    &&& block_full(nf, start_at(leaf, o), o)
}

/// Marking an in-use block free starts the merge in a consistent state.
pub proof fn lemma_merge_start(free: Seq<bool>, lists: Seq<Seq<usize>>, max: nat, leaf: int, order: nat)
    requires
        lists_ok(free, lists, max),
        entries_cover(free, lists),
        aligned(leaf, order),
        leaf + psz(order) <= free.len(),
        forall|x: int| leaf <= x < leaf + psz(order) ==> !#[trigger] free[x],
        order <= max,
    ensures
        merge_inv(set_range(free, leaf, leaf + psz(order), true), lists, max, leaf, order),
{
    let nf = set_range(free, leaf, leaf + psz(order), true);
    lemma_psz_pos(order);
    lemma_start_at_unique(leaf, leaf, order);
    assert forall|oe: int, i: int| 0 <= oe < lists.len() && 0 <= i < lists[oe].len() implies {
        &&& aligned(#[trigger] lists[oe][i] as int, oe as nat)
        &&& block_full(nf, lists[oe][i] as int, oe as nat)
        &&& pending_ok(nf, lists[oe][i] as int, oe as nat, max, leaf, order)
        &&& disjoint(lists[oe][i] as int, oe as nat, start_at(leaf, order), order)
    } by {
        let e = lists[oe][i] as int;
        let k = oe as nat;
        crate::mm::pmm::buddy_lists::lemma_entry_maximal(free, lists, max, oe, i);
        lemma_psz_pos(k);
        if !disjoint(e, k, leaf, order) {
            let x = if e <= leaf { leaf } else { e };
            assert(free[x]);
            assert(!free[x]);
        }
        if k < max && block_full(nf, start_at(e, k + 1), k + 1) {
            let p = start_at(e, k + 1);
            lemma_start_at(e, k + 1);
            if disjoint(p, k + 1, leaf, order) {
                assert(block_full(free, p, k + 1)) by {
                    assert forall|x: int| p <= x < p + psz(k + 1) implies #[trigger] free[x] by {
                        assert(nf[x]);
                    }
                }
            } else if k + 1 <= order {
                lemma_nest(p, k + 1, leaf, order);
                lemma_nest(e, k, p, k + 1);
                assert(free[e]);
                assert(!free[e]);
            } else {
                lemma_nest(leaf, order, p, k + 1);
                lemma_start_at_unique(leaf, p, k + 1);
            }
        }
    }
    assert forall|x: int| 0 <= x < nf.len() && #[trigger] nf[x] implies in_block(x, start_at(leaf, order), order) || exists|oe: int, i: int|
        0 <= oe < lists.len() && 0 <= i < lists[oe].len() && in_block(x, #[trigger] lists[oe][i] as int, oe as nat) by {
        if !in_block(x, leaf, order) {
            assert(free[x]);
        }
    }
}

/// When the buddy of the current block is entirely free, it is exactly an entry of the current order's list.
pub proof fn lemma_merge_buddy_listed(nf: Seq<bool>, lists: Seq<Seq<usize>>, max: nat, leaf: int, o: nat)
    requires
        merge_inv(nf, lists, max, leaf, o),
        o < max,
        leaf >= 0,
        block_full(nf, buddy(start_at(leaf, o), o), o),
        nf.len() <= usize::MAX,
    ensures
        lists[o as int].contains(buddy(start_at(leaf, o), o) as usize),
{
    let cur = start_at(leaf, o);
    lemma_start_at(leaf, o);
    lemma_buddy(cur, o);
    let bd = buddy(cur, o);
    lemma_psz_pos(o);
    assert(nf[bd]);
    assert(!in_block(bd, cur, o));
    let (oc, i) = choose|oe: int, i: int| 0 <= oe < lists.len() && 0 <= i < lists[oe].len() && in_block(bd, #[trigger] lists[oe][i] as int, oe as nat);
    let c = lists[oc][i] as int;
    let kc = oc as nat;
    assert(aligned(c, kc) && block_full(nf, c, kc) && pending_ok(nf, c, kc, max, leaf, o) && disjoint(c, kc, cur, o));
    if kc < o {
        lemma_nest(c, kc, bd, o);
        lemma_start_at_inside(c, kc + 1, bd, o);
        let p = start_at(c, kc + 1);
        assert(block_full(nf, p, kc + 1));
        assert(false);
    } else if kc > o {
        lemma_nest(bd, o, c, kc);
        lemma_start_at_parent(bd, o);
        lemma_start_at_inside(bd, o + 1, c, kc);
        lemma_start_at_parent(leaf, o);
        lemma_start_at_unique(cur, cur, o);
        // the parent of bd (which holds cur) lies inside c, so c meets cur
        let par = start_at(bd, o + 1);
        assert(par == start_at(cur, o + 1));
        lemma_start_at_inside(cur, o, c, kc);
        assert(false);
    } else {
        lemma_start_at_unique(bd, c, o);
        lemma_start_at_unique(bd, bd, o);
        assert(lists[o as int][i] == bd as usize);
    }
}

/// Absorbing the listed buddy moves the merge one order up.
pub proof fn lemma_merge_step(nf: Seq<bool>, lists: Seq<Seq<usize>>, max: nat, leaf: int, o: nat)
    requires
        merge_inv(nf, lists, max, leaf, o),
        o < max,
        leaf >= 0,
        block_full(nf, buddy(start_at(leaf, o), o), o),
        lists[o as int].contains(buddy(start_at(leaf, o), o) as usize),
        nf.len() <= usize::MAX,
    ensures
        merge_inv(nf, lists.update(o as int, lists[o as int].remove_value(buddy(start_at(leaf, o), o) as usize)), max, leaf, o + 1),
{
    let cur = start_at(leaf, o);
    lemma_start_at(leaf, o);
    lemma_buddy(cur, o);
    lemma_start_at_parent(leaf, o);
    lemma_start_at_unique(cur, cur, o);
    let bd = buddy(cur, o);
    let bdu = bd as usize;
    let l = lists[o as int];
    l.index_of_first_ensures(bdu);
    let j = l.index_of_first(bdu)->0;
    l.remove_ensures(j);
    let nl = lists.update(o as int, l.remove(j));
    assert(lists[o as int].remove_value(bdu) == l.remove(j));
    lemma_psz_pos(o);
    assert(lists[o as int][j] as int == bd);
    lemma_psz_double(o);
    let ncur = start_at(leaf, o + 1);
    assert(ncur == (if cur < bd { cur } else { bd }));
    // map an index of the new lists back to the old ones
    assert forall|oe: int, i: int| 0 <= oe < nl.len() && 0 <= i < nl[oe].len() implies
        (#[trigger] nl[oe][i]) == lists[oe][if oe == o && i >= j { i + 1 } else { i }] by {
    }
    assert forall|oe: int, i: int| 0 <= oe < nl.len() && 0 <= i < nl[oe].len() implies {
        &&& aligned(#[trigger] nl[oe][i] as int, oe as nat)
        &&& block_full(nf, nl[oe][i] as int, oe as nat)
        &&& pending_ok(nf, nl[oe][i] as int, oe as nat, max, leaf, o + 1)
        &&& disjoint(nl[oe][i] as int, oe as nat, ncur, o + 1)
    } by {
        let oi = if oe == o && i >= j { i + 1 } else { i };
        let e = lists[oe][oi] as int;
        assert(nl[oe][i] as int == e);
        let k = oe as nat;
        assert(aligned(e, k) && block_full(nf, e, k) && pending_ok(nf, e, k, max, leaf, o) && disjoint(e, k, cur, o));
        assert(oe != o || oi != j);
        crate::mm::pmm::buddy_lists::lemma_entries_disjoint(lists, oe, oi, o as int, j);
        assert(disjoint(e, k, bd, o));
        lemma_psz_pos(k);
        assert(bd == cur + psz(o) || bd == cur - psz(o));
        if k < max && block_full(nf, start_at(e, k + 1), k + 1) {
            if k == o {
                // the parent is cur's parent, so e is cur's buddy
                lemma_start_at(e, o);
                lemma_start_at_unique(e, e, o);
                lemma_start_at_parent(e, o);
                assert(start_at(e, o + 1) == ncur);
                assert(false);
            }
        }
    }
    assert forall|o1: int, i1: int, o2: int, i2: int|
        0 <= o1 < nl.len() && 0 <= i1 < nl[o1].len() && 0 <= o2 < nl.len() && 0 <= i2 < nl[o2].len()
            && (o1 != o2 || i1 != i2) implies #[trigger] disjoint(nl[o1][i1] as int, o1 as nat, nl[o2][i2] as int, o2 as nat) by {
        let oi1 = if o1 == o && i1 >= j { i1 + 1 } else { i1 };
        let oi2 = if o2 == o && i2 >= j { i2 + 1 } else { i2 };
        assert(nl[o1][i1] == lists[o1][oi1]);
        assert(nl[o2][i2] == lists[o2][oi2]);
        crate::mm::pmm::buddy_lists::lemma_entries_disjoint(lists, o1, oi1, o2, oi2);
    }
    assert forall|x: int| 0 <= x < nf.len() && #[trigger] nf[x] implies in_block(x, ncur, o + 1) || exists|oe: int, i: int|
        0 <= oe < nl.len() && 0 <= i < nl[oe].len() && in_block(x, #[trigger] nl[oe][i] as int, oe as nat) by {
        if !in_block(x, cur, o) {
            let (oe, i) = choose|oe: int, i: int| 0 <= oe < lists.len() && 0 <= i < lists[oe].len() && in_block(x, #[trigger] lists[oe][i] as int, oe as nat);
            if oe == o && i == j {
                assert(in_block(x, ncur, o + 1));
            } else if oe == o && i > j {
                assert(nl[oe][i - 1] == lists[oe][i]);
                assert(in_block(x, nl[oe][i - 1] as int, oe as nat));
            } else {
                assert(nl[oe][i] == lists[oe][i]);
            }
        }
    }
    assert(block_full(nf, ncur, o + 1));
}

/// When merging stops, pushing the merged block restores every list invariant.
pub proof fn lemma_merge_finish(nf: Seq<bool>, lists: Seq<Seq<usize>>, max: nat, leaf: int, o: nat)
    requires
        merge_inv(nf, lists, max, leaf, o),
        o <= max,
        leaf >= 0,
        o == max || !block_full(nf, buddy(start_at(leaf, o), o), o),
        start_at(leaf, o) <= usize::MAX,
    ensures
        lists_ok(nf, lists.update(o as int, lists[o as int].push(start_at(leaf, o) as usize)), max),
        entries_cover(nf, lists.update(o as int, lists[o as int].push(start_at(leaf, o) as usize))),
{
    let cur = start_at(leaf, o);
    lemma_start_at(leaf, o);
    lemma_start_at_unique(cur, cur, o);
    let nl = lists.update(o as int, lists[o as int].push(cur as usize));
    let n = lists[o as int].len();
    if o < max {
        lemma_buddy(cur, o);
        lemma_start_at_parent(leaf, o);
        lemma_psz_double(o);
    }
    assert forall|oe: int, i: int| 0 <= oe < nl.len() && 0 <= i < nl[oe].len() implies #[trigger] maximal(nf, nl[oe][i] as int, oe as nat, max) by {
        if oe == o && i == n {
            assert(nl[oe][i] as int == cur);
            if o < max {
                let p = start_at(cur, o + 1);
                let bd = buddy(cur, o);
                if block_full(nf, p, o + 1) {
                    assert(block_full(nf, bd, o)) by {
                        assert forall|x: int| bd <= x < bd + psz(o) implies #[trigger] nf[x] by {
                            assert(p <= x < p + psz(o + 1));
                        }
                    }
                }
            }
        } else {
            assert(nl[oe][i] == lists[oe][i]);
            let e = lists[oe][i] as int;
            let k = oe as nat;
            assert(aligned(e, k) && block_full(nf, e, k) && pending_ok(nf, e, k, max, leaf, o) && disjoint(e, k, cur, o));
            if k < max && block_full(nf, start_at(e, k + 1), k + 1) {
                // then e's parent holds cur's block, at order k >= o
                let p = start_at(e, k + 1);
                lemma_start_at(e, k + 1);
                lemma_start_at(leaf, k + 1);
                let bd = buddy(cur, o);
                if o == max {
                    assert(false);
                }
                lemma_start_at_parent(leaf, o);
                if k == o {
                    lemma_start_at(e, o);
                    lemma_start_at_unique(e, e, o);
                    lemma_start_at_parent(e, o);
                    // e is the other half of cur's parent: the buddy
                    assert(block_full(nf, bd, o)) by {
                        assert(bd == e || bd == cur) by {
                            assert(e != cur);
                        }
                    }
                    assert(false);
                } else {
                    // cur's parent lies inside p, so the buddy is free
                    lemma_start_at_inside(leaf, o + 1, p, k + 1);
                    assert(block_full(nf, bd, o)) by {
                        assert forall|x: int| bd <= x < bd + psz(o) implies #[trigger] nf[x] by {
                            assert(p <= x < p + psz(k + 1));
                        }
                    }
                    assert(false);
                }
            }
        }
    }
    assert forall|o1: int, i1: int, o2: int, i2: int|
        0 <= o1 < nl.len() && 0 <= i1 < nl[o1].len() && 0 <= o2 < nl.len() && 0 <= i2 < nl[o2].len()
            && (o1 != o2 || i1 != i2) implies #[trigger] disjoint(nl[o1][i1] as int, o1 as nat, nl[o2][i2] as int, o2 as nat) by {
        let new1 = o1 == o && i1 == n;
        let new2 = o2 == o && i2 == n;
        if new1 {
            assert(nl[o2][i2] == lists[o2][i2]);
            assert(disjoint(lists[o2][i2] as int, o2 as nat, cur, o));
        } else if new2 {
            assert(nl[o1][i1] == lists[o1][i1]);
            assert(disjoint(lists[o1][i1] as int, o1 as nat, cur, o));
        } else {
            assert(nl[o1][i1] == lists[o1][i1]);
            assert(nl[o2][i2] == lists[o2][i2]);
            crate::mm::pmm::buddy_lists::lemma_entries_disjoint(lists, o1, i1, o2, i2);
        }
    }
    assert forall|x: int| 0 <= x < nf.len() && #[trigger] nf[x] implies exists|oe: int, i: int|
        0 <= oe < nl.len() && 0 <= i < nl[oe].len() && in_block(x, #[trigger] nl[oe][i] as int, oe as nat) by {
        if in_block(x, cur, o) {
            assert(nl[o as int][n as int] as int == cur);
            assert(in_block(x, nl[o as int][n as int] as int, o));
        } else {
            let (oe, i) = choose|oe: int, i: int| 0 <= oe < lists.len() && 0 <= i < lists[oe].len() && in_block(x, #[trigger] lists[oe][i] as int, oe as nat);
            assert(nl[oe][i] == lists[oe][i]);
        }
    }
}

/// Law (alloc/free round trip): freeing the block an allocation handed out
/// restores exactly the free pages there were before the allocation.
pub proof fn lemma_alloc_free_roundtrip(free: Seq<bool>, leaf: int, order: nat)
    requires
        block_full(free, leaf, order),
    ensures
        set_range(set_range(free, leaf, leaf + psz(order), false), leaf, leaf + psz(order), true) == free,
        count_true(set_range(set_range(free, leaf, leaf + psz(order), false), leaf, leaf + psz(order), true)) == count_true(free),
{
    assert(set_range(set_range(free, leaf, leaf + psz(order), false), leaf, leaf + psz(order), true) =~= free);
}

/// Law (no overlap): a block handed out by an allocation shares no page with
/// any block that was in use when the allocation was made.
pub proof fn lemma_alloc_no_overlap(free: Seq<bool>, leaf: int, order: nat, other: int, size: int)
    requires
        block_full(free, leaf, order),
        0 <= other,
        0 < size,
        other + size <= free.len(),
        forall|x: int| other <= x < other + size ==> !#[trigger] free[x],
    ensures
        leaf + psz(order) <= other || other + size <= leaf,
{
    lemma_psz_pos(order);
    if !(leaf + psz(order) <= other || other + size <= leaf) {
        let x = if leaf <= other { other } else { leaf };
        assert(free[x]);
        assert(!free[x]);
    }
}

impl View for BuddyAllocator {
    type V = BuddyView;

    closed spec fn view(&self) -> BuddyView {
        BuddyView {
            real: self.real_units as nat,
            max: self.max_order as nat,
            free: self.free@,
            lists: Seq::new(self.lists@.len(), |o: int| self.lists@[o]@),
            linked: self.linked,
            used: self.allocated_pages as nat,
            reserved: self.reserved_pages as nat,
        }
    }
}

impl BuddyAllocator {
    /// Internal consistency of the allocator.
    pub closed spec fn wf(&self) -> bool {
        &&& self.max_order < usize::BITS
        &&& self.virtual_units as int == psz(self.max_order as nat)
        &&& self.real_units <= self.virtual_units
        &&& (self.max_order > 0 ==> psz((self.max_order - 1) as nat) < self.real_units)
        &&& self.free@.len() == self.real_units
        &&& self.free_total == count_true(self.free@)
        &&& self.allocated_pages + self.free_total <= self.real_units
        &&& lists_ok(self@.free, self@.lists, self@.max)
        &&& (self.linked ==> entries_cover(self@.free, self@.lists))
        &&& (!self.linked ==> forall|o: int| 0 <= o < self@.lists.len() ==> (#[trigger] self@.lists[o]).len() == 0)
    }

    /// What the invariant says of the view: one free flag per real page,
    /// one list per order, the counters within the page count, the lists
    /// consistent with the flags.
    pub proof fn lemma_view_shape(&self)
        requires
            self.wf(),
        ensures
            self@.free.len() == self@.real,
            self@.lists.len() == self@.max + 1,
            self@.used + count_true(self@.free) <= self@.real,
            self@.real <= psz(self@.max),
            self@.real <= usize::MAX,
            self@.max < usize::BITS,
            lists_ok(self@.free, self@.lists, self@.max),
            self@.linked ==> entries_cover(self@.free, self@.lists),
    {
    }

    /// The shape every constructor produces for `pages` pages.
    pub open spec fn fresh(v: BuddyView, pages: nat) -> bool {
        &&& v.real == pages
        &&& v.max == ceil_log2(pages)
        &&& v.free == Seq::new(pages, |x: int| true)
        &&& v.lists == Seq::new(v.max + 1, |o: int| Seq::<usize>::empty())
        &&& !v.linked
        &&& v.used == 0
        &&& v.reserved == 0
    }

    /// An allocator with no pages (placeholder until built).
    pub fn uninit() -> (r: Self)
        ensures
            r.wf(),
            Self::fresh(r@, 0),
    {
        Self::new(0)
    }

    /// An allocator for `real_units` pages, all free, with empty free lists
    /// (pages may be reserved before `finalize` links them).
    pub fn new(real_units: usize) -> (r: Self)
        requires
            real_units <= usize::MAX / 2 + 1,
        ensures
            r.wf(),
            Self::fresh(r@, real_units as nat),
    {
        let t = next_pow2(real_units);
        let max_order = log2_floor(t);
        proof {
            lemma_floor_log2_pow2(ceil_log2(real_units as nat));
            if real_units >= 1 {
                lemma_ceil_log2(real_units as nat);
            }
            lemma_pow2_fits(ceil_log2(real_units as nat));
        }
        let mut free: Vec<bool> = Vec::new();
        let mut i: usize = 0;
        while i < real_units
            invariant
                i <= real_units,
                free@ == Seq::new(i as nat, |x: int| true),
                count_true(free@) == i,
            decreases real_units - i,
        {
            proof {
                lemma_count_push(free@, true);
            }
            free.push(true);
            i = i + 1;
            assert(free@ =~= Seq::new(i as nat, |x: int| true));
        }
        let mut lists: Vec<Vec<usize>> = Vec::new();
        let mut k: usize = 0;
        while k <= max_order
            invariant
                k <= max_order + 1,
                max_order < usize::BITS,
                lists@.len() == k,
                forall|j: int| 0 <= j < k ==> (#[trigger] lists@[j])@ == Seq::<usize>::empty(),
            decreases max_order + 1 - k,
        {
            lists.push(Vec::new());
            k = k + 1;
        }
        let r = BuddyAllocator {
            real_units,
            virtual_units: t,
            max_order,
            free,
            lists,
            free_total: real_units,
            linked: false,
            allocated_pages: 0,
            reserved_pages: 0,
        };
        assert(r@.lists =~= Seq::new(r@.max + 1, |o: int| Seq::<usize>::empty()));
        r
    }

    /// Bytes of bookkeeping for `real_units` pages in the arena layout.
    pub fn needed_bytes(real_units: usize) -> (r: usize)
        requires
            real_units <= usize::MAX / 2 + 1,
            needed_bytes_spec(real_units as nat) <= usize::MAX,
        ensures
            r as int == needed_bytes_spec(real_units as nat),
    {
        let t = next_pow2(real_units);
        let max_order = log2_floor(t);
        proof {
            lemma_floor_log2_pow2(ceil_log2(real_units as nat));
        }
        let fc = 2 * t * 4;
        let lists = 2 * t * 8;
        let heads = (max_order + 1) * 8;
        fc + 2 * lists + heads
    }

    /// Whether the leaves `[b, b + size)` exist and are all free.
    fn range_is_free(&self, b: usize, size: usize) -> (r: bool)
        requires
            self.free@.len() == self.real_units,
        ensures
            r == range_free(self@.free, b as int, b + size),
    {
        if b > self.real_units || size > self.real_units - b {
            return false;
        }
        let mut i = b;
        while i < b + size
            invariant
                b <= i <= b + size,
                b + size <= self.real_units,
                self.free@.len() == self.real_units,
                forall|x: int| b <= x < i ==> self.free@[x],
            decreases b + size - i,
        {
            if !self.free[i] {
                return false;
            }
            i = i + 1;
        }
        true
    }

    /// Link the free lists: every maximal free block goes on its order's list,
    /// orders from the top down, blocks in ascending address order.
    pub fn finalize(&mut self)
        requires
            old(self).wf(),
        ensures
            final(self).wf(),
            final(self)@ == (BuddyView { lists: linked_lists(old(self)@.free, old(self)@.max), linked: true, ..old(self)@ }),
    {
        let t = self.virtual_units;
        let max = self.max_order;
        let ghost free = self@.free;
        let mut lists: Vec<Vec<usize>> = Vec::new();
        let mut k: usize = 0;
        while k <= max
            invariant
                k <= max + 1,
                max < usize::BITS,
                lists@.len() == k,
            decreases max + 1 - k,
        {
            lists.push(Vec::new());
            k = k + 1;
        }
        let mut o = max + 1;
        while o > 0
            invariant
                self.wf(),
                self@.free == free,
                max == self.max_order,
                t == self.virtual_units,
                o <= max + 1,
                lists@.len() == max + 1,
                forall|k: int| o <= k <= max ==> (#[trigger] lists@[k])@ == maximal_prefix(free, k as nat, max as nat, psz((max - k) as nat) as nat),
            decreases o,
        {
            o = o - 1;
            let size = order_pages(o);
            proof {
                lemma_psz_mul(o as nat, max as nat);
                lemma_psz_pos(o as nat);
            }
            let count = t / size;
            proof {
                assert(count as int == psz((max - o) as nat)) by (nonlinear_arith)
                    requires count == t / size, t == size * psz((max - o) as nat), size > 0;
            }
            let mut l: Vec<usize> = Vec::new();
            let mut idx: usize = 0;
            while idx < count
                invariant
                    self.wf(),
                    self@.free == free,
                    max == self.max_order,
                    o < max + 1,
                    size as int == psz(o as nat),
                    count as int == psz((max - o) as nat),
                    t as int == size * count,
                    size > 0,
                    t as int == psz(max as nat),
                    idx <= count,
                    l@ == maximal_prefix(free, o as nat, max as nat, idx as nat),
                decreases count - idx,
            {
                assert(idx * size < t) by (nonlinear_arith)
                    requires idx < count, t == size * count, size > 0;
                let b = idx * size;
                proof {
                    lemma_aligned_mul(idx as int, o as nat);
                }
                let mut take = false;
                if self.range_is_free(b, size) {
                    if o < max {
                        proof {
                            lemma_psz_double(o as nat);
                            lemma_psz_mul((o + 1) as nat, max as nat);
                            assert(2 * size <= t) by (nonlinear_arith)
                                requires t == psz((o + 1) as nat) * psz((max - (o + 1)) as nat), psz((max - (o + 1)) as nat) >= 1, size > 0, psz((o + 1) as nat) == 2 * size;
                            assert((idx / 2) * (2 * size) == start_at(b as int, (o + 1) as nat)) by {
                                assert(b as int / (2 * size) == idx / 2) by {
                                    vstd::arithmetic::div_mod::lemma_div_denominator(b as int, size as int, 2);
                                    vstd::arithmetic::div_mod::lemma_div_by_multiple(idx as int, size as int);
                                    vstd::arithmetic::mul::lemma_mul_is_commutative(idx as int, size as int);
                                }
                            }
                            assert((idx / 2) * (2 * size) <= b) by (nonlinear_arith)
                                requires b == idx * size, size > 0;
                        }
                        let ps = size * 2;
                        let p = (idx / 2) * ps;
                        take = !self.range_is_free(p, ps);
                    } else {
                        take = true;
                    }
                }
                proof {
                    assert(b as int == ((idx + 1) - 1) * psz(o as nat));
                    assert(take == maximal(free, b as int, o as nat, max as nat));
                }
                if take {
                    l.push(b);
                }
                idx = idx + 1;
            }
            lists.set(o, l);
        }
        self.lists = lists;
        self.linked = true;
        proof {
            lemma_linked_lists_ok(free, max as nat);
            assert(self@.lists =~= linked_lists(free, max as nat));
        }
    }

    /// Put `leaf` at the end of the order-`o` free list.
    fn push_block(&mut self, o: usize, leaf: usize)
        requires
            o < old(self).lists@.len(),
        ensures
            final(self).lists@.len() == old(self).lists@.len(),
            final(self)@.lists == old(self)@.lists.update(o as int, old(self)@.lists[o as int].push(leaf)),
            final(self).free@ == old(self).free@,
            final(self).real_units == old(self).real_units,
            final(self).virtual_units == old(self).virtual_units,
            final(self).max_order == old(self).max_order,
            final(self).free_total == old(self).free_total,
            final(self).linked == old(self).linked,
            final(self).allocated_pages == old(self).allocated_pages,
            final(self).reserved_pages == old(self).reserved_pages,
    {
        let mut l = self.lists.remove(o);
        l.push(leaf);
        self.lists.insert(o, l);
        assert(self@.lists =~= old(self)@.lists.update(o as int, old(self)@.lists[o as int].push(leaf)));
    }

    /// Mark the leaves `[leaf, leaf + size)` as in use (they must all be free).
    fn mark_used(&mut self, leaf: usize, size: usize)
        requires
            range_free(old(self).free@, leaf as int, leaf + size),
            old(self).free_total == count_true(old(self).free@),
            old(self).free@.len() == old(self).real_units,
        ensures
            final(self).free@ == set_range(old(self).free@, leaf as int, leaf + size, false),
            final(self).free_total == old(self).free_total - size,
            final(self).free_total == count_true(final(self).free@),
            final(self).lists == old(self).lists,
            final(self).real_units == old(self).real_units,
            final(self).virtual_units == old(self).virtual_units,
            final(self).max_order == old(self).max_order,
            final(self).linked == old(self).linked,
            final(self).allocated_pages == old(self).allocated_pages,
            final(self).reserved_pages == old(self).reserved_pages,
    {
        let mut i = leaf;
        let end = leaf + size;
        while i < end
            invariant
                end == leaf + size,
                leaf <= i <= leaf + size,
                leaf + size <= self.free@.len(),
                self.free@ == set_range(old(self).free@, leaf as int, i as int, false),
                self.free_total == old(self).free_total - (i - leaf),
                self.free_total == count_true(self.free@),
                range_free(old(self).free@, leaf as int, leaf + size),
                self.lists == old(self).lists,
                self.real_units == old(self).real_units,
                self.virtual_units == old(self).virtual_units,
                self.max_order == old(self).max_order,
                self.linked == old(self).linked,
                self.allocated_pages == old(self).allocated_pages,
                self.reserved_pages == old(self).reserved_pages,
            decreases end - i,
        {
            proof {
                lemma_count_update(self.free@, i as int, false);
                lemma_count_le_len(self.free@);
                assert(self.free@[i as int]);
            }
            self.free.set(i, false);
            self.free_total = self.free_total - 1;
            i = i + 1;
            assert(self.free@ =~= set_range(old(self).free@, leaf as int, i as int, false));
        }
    }

    /// Allocate `2^order` contiguous pages and return the first page.
    ///
    /// The smallest non-empty free list of order `order` or above gives up its
    /// last block; the block is halved down to `order`, each upper half going
    /// on the list of its order, and the lowest part is handed out.
    pub fn alloc_block(&mut self, order: usize) -> (res: Option<usize>)
        requires
            old(self).wf(),
        ensures
            final(self).wf(),
            match res {
                None => {
                    &&& final(self)@ == old(self)@
                    &&& (order > old(self)@.max || old(self)@.real == 0
                        || first_nonempty(old(self)@.lists, order as nat, old(self)@.max) is None)
                },
                Some(leaf) => {
                    let found = first_nonempty(old(self)@.lists, order as nat, old(self)@.max)->0;
                    &&& order <= old(self)@.max
                    &&& old(self)@.real > 0
                    &&& first_nonempty(old(self)@.lists, order as nat, old(self)@.max) is Some
                    &&& leaf == old(self)@.lists[found as int].last()
                    &&& final(self)@ == (BuddyView {
                        free: set_range(old(self)@.free, leaf as int, leaf + psz(order as nat), false),
                        lists: split_lists(old(self)@.lists, leaf as int, found, order as nat),
                        used: (old(self)@.used + psz(order as nat)) as nat,
                        ..old(self)@
                    })
                },
            },
            // What the caller gets is a whole, aligned, previously free block of real pages.
            res matches Some(leaf) ==> aligned(leaf as int, order as nat) && block_full(old(self)@.free, leaf as int, order as nat),
            // With linked lists, allocation fails only when no free block of that order exists.
            old(self)@.linked && order <= old(self)@.max && old(self)@.real > 0 ==>
                (res is Some <==> has_free_block(old(self)@.free, order as nat)),
            // Blocks come only from linked lists, which stay linked, so what is handed out can be freed.
            res is Some ==> old(self)@.linked && final(self)@.linked,
    {
        if order > self.max_order || self.real_units == 0 {
            return None;
        }
        let ghost old_lists = self@.lists;
        let ghost max = self@.max;
        let mut o = order;
        while o <= self.max_order && self.lists[o].len() == 0
            invariant
                *self == *old(self),
                old_lists == self@.lists,
                max == self.max_order,
                order <= o <= self.max_order + 1,
                self.wf(),
                first_nonempty(old_lists, order as nat, max) == first_nonempty(old_lists, o as nat, max),
            decreases self.max_order + 1 - o,
        {
            assert(old_lists[o as int].len() == 0);
            o = o + 1;
        }
        if o > self.max_order {
            proof {
                self.lemma_none_means_no_block(order as nat);
            }
            return None;
        }
        let ghost found = o as nat;
        let ghost old_free = self@.free;
        assert(old_lists[o as int].len() > 0);
        let mut l = self.lists.remove(o);
        let leaf = l.pop().unwrap();
        self.lists.insert(o, l);
        proof {
            assert(self@.lists =~= old_lists.update(o as int, old_lists[o as int].drop_last()));
            crate::mm::pmm::buddy_lists::lemma_entry_maximal(old_free, old_lists, max, o as int, old_lists[o as int].len() - 1);
            lemma_psz_mono(order as nat, found);
            crate::mm::pmm::buddy_lists::lemma_aligned_lower(leaf as int, order as nat, found);
            assert(aligned(leaf as int, order as nat) && block_full(old_free, leaf as int, order as nat));
        }
        let mut fo = o;
        while fo > order
            invariant
                order <= fo <= found,
                found <= max,
                max == self.max_order,
                self.max_order < usize::BITS,
                self.lists@.len() == max + 1,
                self@.lists == Seq::new(old_lists.len(), |k: int|
                    if k == found {
                        old_lists[k].drop_last()
                    } else if fo <= k < found {
                        old_lists[k].push((leaf + psz(k as nat)) as usize)
                    } else {
                        old_lists[k]
                    }),
                self.free@ == old_free,
                self.free_total == old(self).free_total,
                self.real_units == old(self).real_units,
                self.virtual_units == old(self).virtual_units,
                self.linked == old(self).linked,
                self.allocated_pages == old(self).allocated_pages,
                self.reserved_pages == old(self).reserved_pages,
                aligned(leaf as int, found),
                leaf + psz(found) <= self.real_units,
            decreases fo,
        {
            fo = fo - 1;
            let half = order_pages(fo);
            proof {
                lemma_psz_mono(fo as nat, found);
            }
            let ghost before = self@.lists;
            self.push_block(fo, leaf + half);
            assert(self@.lists =~= Seq::new(old_lists.len(), |k: int|
                if k == found {
                    old_lists[k].drop_last()
                } else if fo <= k < found {
                    old_lists[k].push((leaf + psz(k as nat)) as usize)
                } else {
                    old_lists[k]
                }));
        }
        let size = order_pages(order);
        proof {
            lemma_alloc_entries(old_free, old_lists, max, leaf as int, found, order as nat);
            lemma_alloc_disjoint(old_lists, leaf as int, found, order as nat);
            if self.linked {
                lemma_alloc_cover(old_free, old_lists, leaf as int, found, order as nat);
            }
            assert(self@.lists =~= split_lists(old_lists, leaf as int, found, order as nat));
            assert(range_free(old_free, leaf as int, leaf + size));
        }
        self.mark_used(leaf, size);
        self.allocated_pages = self.allocated_pages + size;
        proof {
            assert(has_free_block(old_free, order as nat)) by {
                assert(aligned(leaf as int, order as nat) && block_full(old_free, leaf as int, order as nat));
            }
        }
        Some(leaf)
    }

    /// With linked lists, empty lists from `order` up mean that no free block of `order` exists.
    proof fn lemma_none_means_no_block(&self, order: nat)
        requires
            self.wf(),
            order <= self@.max,
            first_nonempty(self@.lists, order, self@.max) is None,
        ensures
            self@.linked ==> !has_free_block(self@.free, order),
    {
        let free = self@.free;
        let lists = self@.lists;
        let max = self@.max;
        lemma_first_nonempty_none(lists, order, max);
        if self@.linked && has_free_block(free, order) {
            let b = choose|b: int| aligned(b, order) && #[trigger] block_full(free, b, order);
            lemma_psz_pos(order);
            assert(free[b]);
            let (o, i) = choose|o: int, i: int| 0 <= o < lists.len() && 0 <= i < lists[o].len() && in_block(b, #[trigger] lists[o][i] as int, o as nat);
            crate::mm::pmm::buddy_lists::lemma_entry_maximal(free, lists, max, o, i);
            let e = lists[o][i] as int;
            if o >= order {
                assert(lists[o].len() > 0);
            } else {
                lemma_nest(e, o as nat, b, order);
                lemma_start_at_inside(e, (o + 1) as nat, b, order);
                assert(block_full(free, start_at(e, (o + 1) as nat), (o + 1) as nat));
            }
        }
    }

    /// Drop the first occurrence of `b` from the order-`o` free list.
    fn unlink_block(&mut self, o: usize, b: usize)
        requires
            o < old(self).lists@.len(),
            old(self)@.lists[o as int].contains(b),
        ensures
            final(self).lists@.len() == old(self).lists@.len(),
            final(self)@.lists == old(self)@.lists.update(o as int, old(self)@.lists[o as int].remove_value(b)),
            final(self).free@ == old(self).free@,
            final(self).real_units == old(self).real_units,
            final(self).virtual_units == old(self).virtual_units,
            final(self).max_order == old(self).max_order,
            final(self).free_total == old(self).free_total,
            final(self).linked == old(self).linked,
            final(self).allocated_pages == old(self).allocated_pages,
            final(self).reserved_pages == old(self).reserved_pages,
    {
        let ghost ol = old(self)@.lists[o as int];
        let mut l = self.lists.remove(o);
        assert(l@ == ol);
        let mut j: usize = 0;
        while j < l.len() && l[j] != b
            invariant
                l@ == ol,
                ol.contains(b),
                j <= l@.len(),
                forall|k: int| 0 <= k < j ==> l@[k] != b,
            decreases l@.len() - j,
        {
            j = j + 1;
        }
        proof {
            ol.index_of_first_ensures(b);
            let idx = ol.index_of_first(b)->0;
            assert(j < l@.len());
            assert(idx == j as int);
        }
        l.remove(j);
        self.lists.insert(o, l);
        assert(self@.lists =~= old(self)@.lists.update(o as int, old(self)@.lists[o as int].remove_value(b)));
    }

    /// Mark the leaves `[leaf, leaf + size)` as free (they must all be in use).
    fn mark_free(&mut self, leaf: usize, size: usize)
        requires
            leaf + size <= old(self).free@.len(),
            forall|x: int| leaf <= x < leaf + size ==> !#[trigger] old(self).free@[x],
            old(self).free_total == count_true(old(self).free@),
            old(self).free@.len() == old(self).real_units,
        ensures
            final(self).free@ == set_range(old(self).free@, leaf as int, leaf + size, true),
            final(self).free_total == old(self).free_total + size,
            final(self).free_total == count_true(final(self).free@),
            final(self).lists == old(self).lists,
            final(self).real_units == old(self).real_units,
            final(self).virtual_units == old(self).virtual_units,
            final(self).max_order == old(self).max_order,
            final(self).linked == old(self).linked,
            final(self).allocated_pages == old(self).allocated_pages,
            final(self).reserved_pages == old(self).reserved_pages,
    {
        let mut i = leaf;
        let end = leaf + size;
        while i < end
            invariant
                end == leaf + size,
                leaf <= i <= end,
                end <= self.free@.len(),
                self.free@.len() == old(self).free@.len(),
                old(self).free@.len() == old(self).real_units,
                self.free@ == set_range(old(self).free@, leaf as int, i as int, true),
                self.free_total == old(self).free_total + (i - leaf),
                self.free_total == count_true(self.free@),
                forall|x: int| leaf <= x < leaf + size ==> !#[trigger] old(self).free@[x],
                self.lists == old(self).lists,
                self.real_units == old(self).real_units,
                self.virtual_units == old(self).virtual_units,
                self.max_order == old(self).max_order,
                self.linked == old(self).linked,
                self.allocated_pages == old(self).allocated_pages,
                self.reserved_pages == old(self).reserved_pages,
            decreases end - i,
        {
            proof {
                lemma_count_update(self.free@, i as int, true);
                lemma_count_le_len(self.free@.update(i as int, true));
                assert(!self.free@[i as int]);
            }
            self.free.set(i, true);
            self.free_total = self.free_total + 1;
            i = i + 1;
            assert(self.free@ =~= set_range(old(self).free@, leaf as int, i as int, true));
        }
    }

    /// Return the `2^order` pages starting at `leaf` and merge the block with
    /// its buddy, order after order, as long as the buddy is entirely free.
    pub fn free(&mut self, order: usize, leaf: usize)
        requires
            old(self).wf(),
            old(self)@.linked,
            order <= old(self)@.max,
            aligned(leaf as int, order as nat),
            leaf + psz(order as nat) <= old(self)@.real,
            forall|x: int| leaf <= x < leaf + psz(order as nat) ==> !#[trigger] old(self)@.free[x],
        ensures
            final(self).wf(),
            ({
                let nf = set_range(old(self)@.free, leaf as int, leaf + psz(order as nat), true);
                let top = merge_order(nf, leaf as int, order as nat, old(self)@.max);
                final(self)@ == (BuddyView {
                    free: nf,
                    lists: merge_lists(old(self)@.lists, leaf as int, order as nat, top),
                    used: if old(self)@.used >= psz(order as nat) { (old(self)@.used - psz(order as nat)) as nat } else { 0 },
                    ..old(self)@
                })
            }),
    {
        let size0 = order_pages(order);
        let ghost old_free = self@.free;
        let ghost old_lists = self@.lists;
        let ghost max = self@.max;
        proof {
            lemma_merge_start(old_free, old_lists, max, leaf as int, order as nat);
        }
        self.mark_free(leaf, size0);
        let ghost nf = self@.free;
        self.allocated_pages = if self.allocated_pages >= size0 { self.allocated_pages - size0 } else { 0 };
        let mut o = order;
        let mut cur = leaf;
        let mut size = size0;
        let mut go = true;
        proof {
            lemma_psz_pos(order as nat);
            lemma_start_at_unique(leaf as int, leaf as int, order as nat);
            lemma_count_le_len(nf);
        }
        while go && o < self.max_order
            invariant
                order <= o <= max,
                max == self.max_order,
                self.max_order < usize::BITS,
                self.virtual_units as int == psz(max),
                self.real_units <= self.virtual_units,
                self.lists@.len() == max + 1,
                self.free@ == nf,
                nf.len() == self.real_units,
                self.free_total == count_true(nf),
                self.allocated_pages + self.free_total <= self.real_units,
                self.linked,
                self.reserved_pages == old(self).reserved_pages,
                self.allocated_pages == (if old(self).allocated_pages >= psz(order as nat) { old(self).allocated_pages - psz(order as nat) } else { 0 }),
                cur as int == start_at(leaf as int, o as nat),
                size as int == psz(o as nat),
                leaf < self.real_units,
                merge_inv(nf, self@.lists, max, leaf as int, o as nat),
                self@.lists == Seq::new(old_lists.len(), |k: int|
                    if order <= k < o { old_lists[k].remove_value(buddy(start_at(leaf as int, k as nat), k as nat) as usize) } else { old_lists[k] }),
                merge_order(nf, leaf as int, order as nat, max) == merge_order(nf, leaf as int, o as nat, max),
                !go ==> merge_order(nf, leaf as int, o as nat, max) == o,
                !go ==> !block_full(nf, buddy(start_at(leaf as int, o as nat), o as nat), o as nat),
            decreases max - o + (if go { 1int } else { 0int }),
        {
            proof {
                lemma_start_at(leaf as int, o as nat);
                lemma_nest(cur as int, o as nat, 0, max);
                lemma_psz_pos(o as nat);
                vstd::arithmetic::div_mod::lemma_fundamental_div_mod(cur as int, size as int);
                assert((cur / size) % 2 == 1 ==> cur >= size) by (nonlinear_arith)
                    requires cur == size * (cur / size) + cur % size, cur % size == 0, size > 0;
            }
            let bud = if (cur / size) % 2 == 0 { cur + size } else { cur - size };
            proof {
                lemma_buddy(cur as int, o as nat);
            }
            if !self.range_is_free(bud, size) {
                go = false;
            } else {
                proof {
                    lemma_merge_buddy_listed(nf, self@.lists, max, leaf as int, o as nat);
                    lemma_merge_step(nf, self@.lists, max, leaf as int, o as nat);
                    lemma_start_at_parent(leaf as int, o as nat);
                    lemma_psz_double(o as nat);
                    lemma_psz_mono((o + 1) as nat, max);
                }
                self.unlink_block(o, bud);
                if bud < cur {
                    cur = bud;
                }
                o = o + 1;
                size = size * 2;
                assert(self@.lists =~= Seq::new(old_lists.len(), |k: int|
                    if order <= k < o { old_lists[k].remove_value(buddy(start_at(leaf as int, k as nat), k as nat) as usize) } else { old_lists[k] }));
            }
        }
        proof {
            lemma_start_at(leaf as int, o as nat);
            lemma_merge_finish(nf, self@.lists, max, leaf as int, o as nat);
        }
        self.push_block(o, cur);
        assert(self@.lists =~= merge_lists(old_lists, leaf as int, order as nat, o as nat));
    }

    /// Reserve the `2^order` pages at `leaf` (for example the kernel image):
    /// they become in use and count as reserved. Reserving unlinks the free
    /// lists until the next `finalize`.
    pub fn mark_reserved(&mut self, order: usize, leaf: usize)
        requires
            old(self).wf(),
            order <= old(self)@.max,
            aligned(leaf as int, order as nat),
            block_full(old(self)@.free, leaf as int, order as nat),
            old(self)@.reserved + psz(order as nat) <= usize::MAX,
        ensures
            final(self).wf(),
            final(self)@ == (BuddyView {
                free: set_range(old(self)@.free, leaf as int, leaf + psz(order as nat), false),
                lists: Seq::new(old(self)@.max + 1, |o: int| Seq::<usize>::empty()),
                linked: false,
                reserved: (old(self)@.reserved + psz(order as nat)) as nat,
                ..old(self)@
            }),
    {
        let size = order_pages(order);
        self.mark_used(leaf, size);
        self.reserved_pages = self.reserved_pages + size;
        if self.linked {
            let mut lists: Vec<Vec<usize>> = Vec::new();
            let mut k: usize = 0;
            while k <= self.max_order
                invariant
                    k <= self.max_order + 1,
                    self.max_order < usize::BITS,
                    lists@.len() == k,
                    forall|j: int| 0 <= j < k ==> (#[trigger] lists@[j])@ == Seq::<usize>::empty(),
                decreases self.max_order + 1 - k,
            {
                lists.push(Vec::new());
                k = k + 1;
            }
            self.lists = lists;
            self.linked = false;
        }
        assert forall|o: int| 0 <= o < self@.lists.len() implies self@.lists[o] =~= Seq::<usize>::empty() by {
            assert(self@.lists[o].len() == 0);
        }
        assert(self@.lists =~= Seq::new(old(self)@.max + 1, |o: int| Seq::<usize>::empty()));
    }

    /// Pages currently free (the holes above the real pages never count).
    pub fn free_pages(&self) -> (r: usize)
        requires
            self.wf(),
        ensures
            r as nat == count_true(self@.free),
    {
        self.free_total
    }

    /// Number of real pages.
    pub fn real_pages(&self) -> (r: usize)
        ensures
            r as nat == self@.real,
    {
        self.real_units
    }

    /// Pages counted as allocated.
    pub fn used_pages(&self) -> (r: usize)
        ensures
            r as nat == self@.used,
    {
        self.allocated_pages
    }

    /// Pages counted as reserved.
    pub fn reserved_pages(&self) -> (r: usize)
        ensures
            r as nat == self@.reserved,
    {
        self.reserved_pages
    }

    /// Largest order.
    pub fn max_order(&self) -> (r: usize)
        ensures
            r as nat == self@.max,
    {
        self.max_order
    }

    /// Whether the allocator manages any page.
    pub fn is_ready(&self) -> (r: bool)
        ensures
            r == (self@.real > 0),
    {
        self.real_units > 0
    }

    /// Per real page: whether it is in use (allocated or reserved).
    pub fn occupancy(&self) -> (r: Vec<bool>)
        requires
            self.wf(),
        ensures
            r@.len() == self@.real,
            forall|x: int| 0 <= x < r@.len() ==> r@[x] == !self@.free[x],
    {
        let mut map: Vec<bool> = Vec::new();
        let mut leaf: usize = 0;
        while leaf < self.real_units
            invariant
                leaf <= self.real_units,
                self.free@.len() == self.real_units,
                map@.len() == leaf,
                forall|x: int| 0 <= x < leaf ==> map@[x] == !self.free@[x],
            decreases self.real_units - leaf,
        {
            map.push(!self.free[leaf]);
            leaf = leaf + 1;
        }
        map
    }
}

} // verus!

verus! {

/// Setting the pages `[lo, hi)`, none of which holds `v`, to `v` moves the
/// count of free flags by `hi - lo`.
proof fn lemma_count_set_range(s: Seq<bool>, lo: int, hi: int, v: bool)
    requires
        0 <= lo <= hi <= s.len(),
        forall|x: int| lo <= x < hi ==> #[trigger] s[x] == !v,
    ensures
        v ==> count_true(set_range(s, lo, hi, v)) == count_true(s) + (hi - lo),
        !v ==> count_true(set_range(s, lo, hi, v)) + (hi - lo) == count_true(s),
    decreases hi - lo,
{
    if hi > lo {
        lemma_count_set_range(s, lo, hi - 1, v);
        let prev = set_range(s, lo, hi - 1, v);
        assert(set_range(s, lo, hi, v) =~= prev.update(hi - 1, v));
        lemma_count_update(prev, hi - 1, v);
    } else {
        assert(set_range(s, lo, hi, v) =~= s);
    }
}

/// Every page is free, allocated or reserved, and the operations keep it
/// so: where free, allocated and reserved pages add up to the page count,
/// they still do after handing out a free block (`alloc_block`), reserving
/// a free block (`mark_reserved`), or returning an allocated block (`free`),
/// each as its contract changes the view.
pub proof fn lemma_buddy_conservation(v: BuddyView, leaf: int, order: nat)
    requires
        v.free.len() == v.real,
        v.used + v.reserved + count_true(v.free) == v.real,
        0 <= leaf,
        leaf + psz(order) <= v.real,
    ensures
        block_full(v.free, leaf, order) ==> (v.used + psz(order)) + v.reserved
            + count_true(set_range(v.free, leaf, leaf + psz(order), false)) == v.real,
        block_full(v.free, leaf, order) ==> v.used + (v.reserved + psz(order))
            + count_true(set_range(v.free, leaf, leaf + psz(order), false)) == v.real,
        (forall|x: int| leaf <= x < leaf + psz(order) ==> !#[trigger] v.free[x]) && v.used >= psz(order)
            ==> (v.used - psz(order)) + v.reserved + count_true(set_range(v.free, leaf, leaf + psz(order), true))
                == v.real,
{
    if block_full(v.free, leaf, order) {
        lemma_count_set_range(v.free, leaf, leaf + psz(order), false);
    }
    if forall|x: int| leaf <= x < leaf + psz(order) ==> !#[trigger] v.free[x] {
        lemma_count_set_range(v.free, leaf, leaf + psz(order), true);
    }
}

/// A fresh allocator has every page free: free, allocated and reserved
/// pages add up to the page count from the start.
pub proof fn lemma_buddy_fresh_conserved(v: BuddyView, pages: nat)
    requires
        BuddyAllocator::fresh(v, pages),
    ensures
        v.used + v.reserved + count_true(v.free) == v.real,
{
    lemma_count_all_true(pages);
}

/// A sequence of `n` true flags counts `n`.
proof fn lemma_count_all_true(n: nat)
    ensures
        count_true(Seq::new(n, |x: int| true)) == n,
    decreases n,
{
    if n > 0 {
        lemma_count_all_true((n - 1) as nat);
        assert(Seq::new(n, |x: int| true) =~= Seq::new((n - 1) as nat, |x: int| true).push(true));
        lemma_count_push(Seq::new((n - 1) as nat, |x: int| true), true);
    }
}


/// Once every page is free again, the free lists hold the whole block:
/// for an allocator whose pages fill its top-order block, with linked
/// lists and every page free, the top list holds exactly the block at
/// page 0 and every lower list is empty.
pub proof fn lemma_all_free_is_one_block(b: BuddyAllocator)
    requires
        b.wf(),
        b@.linked,
        b@.real == psz(b@.max),
        forall|x: int| 0 <= x < b@.real ==> #[trigger] b@.free[x],
    ensures
        b@.lists[b@.max as int] == seq![0usize],
        forall|o: int| 0 <= o < b@.max ==> (#[trigger] b@.lists[o]).len() == 0,
{
    b.lemma_view_shape();
    let v = b@;
    let max = v.max;
    lemma_psz_pos(max);
    assert forall|o: int| 0 <= o < max implies (#[trigger] v.lists[o]).len() == 0 by {
        if v.lists[o].len() > 0 {
            let blk = v.lists[o][0] as int;
            assert(maximal(v.free, blk, o as nat, max));
            let par = start_at(blk, (o + 1) as nat);
            lemma_start_at(blk, (o + 1) as nat);
            lemma_psz_pos(o as nat);
            lemma_psz_pos((o + 1) as nat);
            assert(aligned(0, max)) by {
                assert(0int % psz(max) == 0);
            }
            lemma_nest(par, (o + 1) as nat, 0, max);
            assert(block_full(v.free, par, (o + 1) as nat));
        }
    }
    let top = v.lists[max as int];
    assert forall|i: int| 0 <= i < top.len() implies #[trigger] top[i] == 0 by {
        assert(maximal(v.free, top[i] as int, max, max));
        assert(aligned(top[i] as int, max));
        assert(block_full(v.free, top[i] as int, max));
        vstd::arithmetic::div_mod::lemma_fundamental_div_mod(top[i] as int, psz(max));
    }
    assert(top.len() <= 1) by {
        if top.len() > 1 {
            assert(disjoint(top[0] as int, max, top[1] as int, max));
        }
    }
    assert(v.free[0]);
    let (o, i) = choose|o: int, i: int| 0 <= o < v.lists.len() && 0 <= i < v.lists[o].len()
        && in_block(0, #[trigger] v.lists[o][i] as int, o as nat);
    assert(o == max) by {
        if o < max {
            assert(v.lists[o].len() == 0);
        }
    }
    assert(top =~= seq![0usize]);
}


/// Free, allocated and reserved pages add up to the page count.
pub open spec fn conserved(v: BuddyView) -> bool {
    &&& v.free.len() == v.real
    &&& v.used + v.reserved + count_true(v.free) == v.real
}

/// One step of an allocator's history, as the operations' contracts change
/// the view, chosen by `kind`: 0 keeps flags and counts (`finalize`, a
/// failed `alloc_block`); 1 hands out the free block of order `order` at
/// `leaf` (`alloc_block`); 2 reserves it (`mark_reserved`); 3 returns an
/// allocated block there (`free` of a block that was handed out).
pub open spec fn buddy_step(v0: BuddyView, v1: BuddyView, kind: u8, leaf: int, order: nat) -> bool {
    &&& v1.real == v0.real
    &&& kind <= 3
    &&& kind == 0 ==> v1.free == v0.free && v1.used == v0.used && v1.reserved == v0.reserved
    &&& kind == 1 ==> block_full(v0.free, leaf, order)
        && v1.free == set_range(v0.free, leaf, leaf + psz(order), false)
        && v1.used == v0.used + psz(order) && v1.reserved == v0.reserved
    &&& kind == 2 ==> block_full(v0.free, leaf, order)
        && v1.free == set_range(v0.free, leaf, leaf + psz(order), false)
        && v1.used == v0.used && v1.reserved == v0.reserved + psz(order)
    &&& kind == 3 ==> 0 <= leaf && leaf + psz(order) <= v0.real && v0.used >= psz(order)
        && (forall|x: int| leaf <= x < leaf + psz(order) ==> !#[trigger] v0.free[x])
        && v1.free == set_range(v0.free, leaf, leaf + psz(order), true)
        && v1.used == v0.used - psz(order) && v1.reserved == v0.reserved
}

/// Whether `vs` is a history of steps `kinds`, `leaves`, `orders`.
pub open spec fn buddy_history(vs: Seq<BuddyView>, kinds: Seq<u8>, leaves: Seq<int>, orders: Seq<nat>) -> bool {
    &&& vs.len() >= 1
    &&& kinds.len() + 1 == vs.len()
    &&& leaves.len() == kinds.len()
    &&& orders.len() == kinds.len()
    &&& forall|i: int| 0 <= i < kinds.len() ==> #[trigger] buddy_step(vs[i], vs[i + 1], kinds[i], leaves[i], orders[i])
}

/// Over any history of handing out, reserving and returning blocks, free,
/// allocated and reserved pages add up to the page count in every state,
/// when they did at the start (as for a fresh allocator).
pub proof fn lemma_buddy_history_conserved(vs: Seq<BuddyView>, kinds: Seq<u8>, leaves: Seq<int>, orders: Seq<nat>)
    requires
        buddy_history(vs, kinds, leaves, orders),
        conserved(vs[0]),
    ensures
        forall|i: int| 0 <= i < vs.len() ==> #[trigger] conserved(vs[i]),
    decreases vs.len(),
{
    if vs.len() > 1 {
        let n = vs.len() - 1;
        let pv = vs.subrange(0, n);
        let pk = kinds.subrange(0, n - 1);
        let pl = leaves.subrange(0, n - 1);
        let po = orders.subrange(0, n - 1);
        assert forall|i: int| 0 <= i < pk.len() implies #[trigger] buddy_step(pv[i], pv[i + 1], pk[i], pl[i], po[i]) by {
            assert(buddy_step(vs[i], vs[i + 1], kinds[i], leaves[i], orders[i]));
        }
        lemma_buddy_history_conserved(pv, pk, pl, po);
        assert(conserved(vs[n - 1])) by {
            assert(pv[n - 1] == vs[n - 1]);
        }
        let v0 = vs[n - 1];
        let v1 = vs[n];
        assert(buddy_step(v0, v1, kinds[n - 1], leaves[n - 1], orders[n - 1]));
        let leaf = leaves[n - 1];
        let order = orders[n - 1];
        if kinds[n - 1] == 0 {
        } else if kinds[n - 1] == 3 {
            lemma_buddy_conservation(v0, leaf, order);
        } else {
            lemma_buddy_conservation(v0, leaf, order);
        }
        assert forall|i: int| 0 <= i < vs.len() implies #[trigger] conserved(vs[i]) by {
            if i < n {
                assert(pv[i] == vs[i]);
            }
        }
    }
}

/// Every flag of a sequence whose count of true flags is its length is true.
proof fn lemma_count_full(s: Seq<bool>)
    requires
        count_true(s) == s.len(),
    ensures
        forall|x: int| 0 <= x < s.len() ==> #[trigger] s[x],
    decreases s.len(),
{
    if s.len() > 0 {
        let t = s.drop_last();
        assert(s =~= t.push(s.last()));
        lemma_count_push(t, s.last());
        lemma_count_le_len(t);
        lemma_count_full(t);
        assert forall|x: int| 0 <= x < s.len() implies #[trigger] s[x] by {
            if x < t.len() {
                assert(t[x] == s[x]);
            }
        }
    }
}

/// After a history that started with a fresh allocator and returned every
/// block it handed out, with nothing reserved, the allocator is one whole
/// block again: where its pages fill the top-order block and its lists are
/// linked, the top list holds exactly the block at page 0 and every lower
/// list is empty.
pub proof fn lemma_buddy_history_one_block(vs: Seq<BuddyView>, kinds: Seq<u8>, leaves: Seq<int>, orders: Seq<nat>,
    b: BuddyAllocator)
    requires
        buddy_history(vs, kinds, leaves, orders),
        BuddyAllocator::fresh(vs[0], vs[0].real),
        b.wf(),
        b@ == vs.last(),
        b@.linked,
        b@.real == psz(b@.max),
        b@.used == 0,
        b@.reserved == 0,
    ensures
        b@.lists[b@.max as int] == seq![0usize],
        forall|o: int| 0 <= o < b@.max ==> (#[trigger] b@.lists[o]).len() == 0,
{
    lemma_buddy_fresh_conserved(vs[0], vs[0].real);
    lemma_buddy_history_conserved(vs, kinds, leaves, orders);
    assert(conserved(vs[vs.len() - 1]));
    lemma_count_full(b@.free);
    lemma_all_free_is_one_block(b);
}

} // verus!
