use vstd::prelude::*;

use crate::mm::pmm::buddy_spec::{psz, start_at, aligned, in_block, block_full, maximal, disjoint, lemma_psz_pos, lemma_psz_mul, lemma_psz_double, lemma_start_at, lemma_start_at_parent, lemma_start_at_inside, lemma_nest};

verus! {

// ---------------------------------------------------------------------
// Free-list invariants
// ---------------------------------------------------------------------

/// Every list entry is a maximal free block of its order.
pub open spec fn entries_maximal(free: Seq<bool>, lists: Seq<Seq<usize>>, max: nat) -> bool {
    forall|o: int, i: int|
        0 <= o < lists.len() && 0 <= i < lists[o].len() ==> #[trigger] maximal(free, lists[o][i] as int, o as nat, max)
}

/// Distinct list entries cover disjoint leaves.
pub open spec fn entries_disjoint(lists: Seq<Seq<usize>>) -> bool {
    forall|o1: int, i1: int, o2: int, i2: int|
        0 <= o1 < lists.len() && 0 <= i1 < lists[o1].len() && 0 <= o2 < lists.len() && 0 <= i2 < lists[o2].len()
            && (o1 != o2 || i1 != i2) ==> #[trigger] disjoint(lists[o1][i1] as int, o1 as nat, lists[o2][i2] as int, o2 as nat)
}

/// Every free leaf lies in some list entry.
pub open spec fn entries_cover(free: Seq<bool>, lists: Seq<Seq<usize>>) -> bool {
    forall|x: int| 0 <= x < free.len() && #[trigger] free[x] ==> exists|o: int, i: int|
        0 <= o < lists.len() && 0 <= i < lists[o].len() && in_block(x, #[trigger] lists[o][i] as int, o as nat)
}

/// The list shape the allocator keeps at all times.
pub open spec fn lists_ok(free: Seq<bool>, lists: Seq<Seq<usize>>, max: nat) -> bool {
    &&& lists.len() == max + 1
    &&& entries_maximal(free, lists, max)
    &&& entries_disjoint(lists)
}

/// Starts of the maximal blocks among the first `n` blocks of order `o`, in ascending order.
pub open spec fn maximal_prefix(free: Seq<bool>, o: nat, max: nat, n: nat) -> Seq<usize>
    decreases n,
{
    if n == 0 {
        Seq::empty()
    } else {
        let prev = maximal_prefix(free, o, max, (n - 1) as nat);
        let b = (n - 1) * psz(o);
        if maximal(free, b, o, max) {
            prev.push(b as usize)
        } else {
            prev
        }
    }
}

/// The free lists built from scratch: at each order, every maximal block in ascending order.
pub open spec fn linked_lists(free: Seq<bool>, max: nat) -> Seq<Seq<usize>> {
    Seq::new(max + 1, |o: int| maximal_prefix(free, o as nat, max, psz((max - o) as nat) as nat))
}

// ---------------------------------------------------------------------
// Lemmas
// ---------------------------------------------------------------------

/// Entries of a maximal prefix are maximal, below `n` blocks, and strictly ascending.
pub proof fn lemma_prefix_shape(free: Seq<bool>, o: nat, max: nat, n: nat)
    requires
        free.len() <= usize::MAX,
    ensures
        forall|i: int| 0 <= i < maximal_prefix(free, o, max, n).len() ==> {
            &&& maximal(free, #[trigger] maximal_prefix(free, o, max, n)[i] as int, o, max)
            &&& maximal_prefix(free, o, max, n)[i] + psz(o) <= n * psz(o)
        },
        forall|i: int, j: int| 0 <= i < j < maximal_prefix(free, o, max, n).len() ==>
            #[trigger] maximal_prefix(free, o, max, n)[i] + psz(o) <= #[trigger] maximal_prefix(free, o, max, n)[j],
    decreases n,
{
    lemma_psz_pos(o);
    if n > 0 {
        lemma_prefix_shape(free, o, max, (n - 1) as nat);
        let b = (n - 1) * psz(o);
        assert(b >= 0) by (nonlinear_arith)
            requires n >= 1, psz(o) > 0, b == (n - 1) * psz(o);
        assert(b + psz(o) == n * psz(o)) by (nonlinear_arith)
            requires b == (n - 1) * psz(o);
        assert((n - 1) * psz(o) <= n * psz(o)) by (nonlinear_arith)
            requires psz(o) > 0, n >= 1;
        assert(((n - 1) as nat) * psz(o) == b);
        let prev = maximal_prefix(free, o, max, (n - 1) as nat);
        let s = maximal_prefix(free, o, max, n);
        if maximal(free, b, o, max) {
            assert((b as usize) as int == b);
            assert(s == prev.push(b as usize));
            assert forall|i: int| 0 <= i < s.len() implies {
                &&& maximal(free, #[trigger] s[i] as int, o, max)
                &&& s[i] + psz(o) <= n * psz(o)
            } by {
                if i < prev.len() {
                    assert(s[i] == prev[i]);
                    assert(maximal(free, prev[i] as int, o, max));
                    assert(prev[i] + psz(o) <= ((n - 1) as nat) * psz(o));
                }
            }
            assert forall|i: int, j: int| 0 <= i < j < s.len() implies #[trigger] s[i] + psz(o) <= #[trigger] s[j] by {
                assert(s[i] == prev[i]);
                if j < prev.len() {
                    assert(s[j] == prev[j]);
                } else {
                    assert(maximal(free, prev[i] as int, o, max));
                }
            }
        } else {
            assert(s == prev);
            assert forall|i: int| 0 <= i < s.len() implies {
                &&& maximal(free, #[trigger] s[i] as int, o, max)
                &&& s[i] + psz(o) <= n * psz(o)
            } by {
                assert(s[i] == prev[i]);
                assert(maximal(free, prev[i] as int, o, max));
                assert(prev[i] + psz(o) <= ((n - 1) as nat) * psz(o));
            }
        }
    }
}

/// A maximal block among the first `n` appears in the prefix.
pub proof fn lemma_prefix_contains(free: Seq<bool>, o: nat, max: nat, n: nat, j: nat)
    requires
        j < n,
        maximal(free, j * psz(o), o, max),
        free.len() <= usize::MAX,
    ensures
        exists|i: int| 0 <= i < maximal_prefix(free, o, max, n).len() && #[trigger] maximal_prefix(free, o, max, n)[i] == (j * psz(o)) as usize,
    decreases n,
{
    let s = maximal_prefix(free, o, max, n);
    if j == n - 1 {
        assert(s[s.len() - 1] == (j * psz(o)) as usize);
    } else {
        lemma_prefix_contains(free, o, max, (n - 1) as nat, j);
        let prev = maximal_prefix(free, o, max, (n - 1) as nat);
        let i = choose|i: int| 0 <= i < prev.len() && #[trigger] prev[i] == (j * psz(o)) as usize;
        assert(s[i] == prev[i]);
    }
}

/// Two maximal blocks of different orders never overlap.
pub proof fn lemma_maximal_disjoint(free: Seq<bool>, b1: int, o1: nat, b2: int, o2: nat, max: nat)
    requires
        maximal(free, b1, o1, max),
        maximal(free, b2, o2, max),
        o1 < o2 <= max,
    ensures
        disjoint(b1, o1, b2, o2),
{
    if !disjoint(b1, o1, b2, o2) {
        lemma_nest(b1, o1, b2, o2);
        lemma_start_at_inside(b1, o1 + 1, b2, o2);
        let p = start_at(b1, o1 + 1);
        assert(block_full(free, p, o1 + 1));
    }
}

/// From a full block holding `x` at order `o`, some order at or above `o` holds `x` in a maximal block.
pub proof fn lemma_find_maximal(free: Seq<bool>, x: int, o: nat, max: nat)
    requires
        x >= 0,
        o <= max,
        block_full(free, start_at(x, o), o),
    ensures
        exists|k: nat| o <= k <= max && #[trigger] maximal(free, start_at(x, k), k, max),
    decreases max - o,
{
    lemma_start_at(x, o);
    if o == max {
        assert(maximal(free, start_at(x, o), o, max));
    } else if !block_full(free, start_at(start_at(x, o), o + 1), o + 1) {
        assert(maximal(free, start_at(x, o), o, max));
    } else {
        lemma_start_at_parent(x, o);
        lemma_find_maximal(free, x, o + 1, max);
        let k = choose|k: nat| o + 1 <= k <= max && #[trigger] maximal(free, start_at(x, k), k, max);
        assert(o <= k <= max && maximal(free, start_at(x, k), k, max));
    }
}

/// A list entry is a maximal block.
pub proof fn lemma_entry_maximal(free: Seq<bool>, lists: Seq<Seq<usize>>, max: nat, o: int, i: int)
    requires
        entries_maximal(free, lists, max),
        0 <= o < lists.len(),
        0 <= i < lists[o].len(),
    ensures
        maximal(free, lists[o][i] as int, o as nat, max),
{
}

/// Two distinct list entries are disjoint.
pub proof fn lemma_entries_disjoint(lists: Seq<Seq<usize>>, o1: int, i1: int, o2: int, i2: int)
    requires
        entries_disjoint(lists),
        0 <= o1 < lists.len(),
        0 <= i1 < lists[o1].len(),
        0 <= o2 < lists.len(),
        0 <= i2 < lists[o2].len(),
        o1 != o2 || i1 != i2,
    ensures
        disjoint(lists[o1][i1] as int, o1 as nat, lists[o2][i2] as int, o2 as nat),
{
}

/// A block aligned at some order is aligned at every lower order.
pub proof fn lemma_aligned_lower(b: int, o1: nat, o2: nat)
    requires
        aligned(b, o2),
        o1 <= o2,
    ensures
        aligned(b, o1),
{
    lemma_psz_mul(o1, o2);
    lemma_psz_pos(o1);
    lemma_psz_pos(o2);
    let q = b / psz(o2);
    vstd::arithmetic::div_mod::lemma_fundamental_div_mod(b, psz(o2));
    assert(b == psz(o1) * (psz((o2 - o1) as nat) * q)) by {
        vstd::arithmetic::mul::lemma_mul_is_associative(psz(o1), psz((o2 - o1) as nat), q);
    }
    vstd::arithmetic::div_mod::lemma_mod_multiples_basic(psz((o2 - o1) as nat) * q, psz(o1));
    vstd::arithmetic::mul::lemma_mul_is_commutative(psz(o1), psz((o2 - o1) as nat) * q);
}

/// The leaves `[b + 2^order, b + 2^found)` of an aligned block split down to
/// `order` are covered by the upper halves pushed at orders `[order, found)`.
pub proof fn lemma_split_cover(b: int, x: int, order: nat, found: nat)
    requires
        order <= found,
        b + psz(order) <= x < b + psz(found),
    ensures
        exists|k: nat| order <= k < found && #[trigger] in_block(x, b + psz(k), k),
    decreases found - order,
{
    lemma_psz_pos(order);
    if order == found {
    } else {
        let f1 = (found - 1) as nat;
        lemma_psz_double(f1);
        if x >= b + psz(f1) {
            assert(in_block(x, b + psz(f1), f1));
        } else {
            lemma_split_cover(b, x, order, f1);
            let k = choose|k: nat| order <= k < f1 && #[trigger] in_block(x, b + psz(k), k);
            assert(in_block(x, b + psz(k), k));
        }
    }
}

/// Block sizes grow with the order.
pub proof fn lemma_psz_mono(o1: nat, o2: nat)
    requires
        o1 <= o2,
    ensures
        psz(o1) <= psz(o2),
{
    lemma_psz_mul(o1, o2);
    lemma_psz_pos(o1);
    assert(psz(o1) <= psz(o1) * psz((o2 - o1) as nat)) by (nonlinear_arith)
        requires psz(o1) > 0, psz((o2 - o1) as nat) >= 1;
}

/// Freshly built lists satisfy every list invariant and cover all free leaves.
pub proof fn lemma_linked_lists_ok(free: Seq<bool>, max: nat)
    requires
        free.len() <= psz(max),
        free.len() <= usize::MAX,
    ensures
        lists_ok(free, linked_lists(free, max), max),
        entries_cover(free, linked_lists(free, max)),
{
    let lists = linked_lists(free, max);
    assert forall|o: int| 0 <= o <= max implies {
        &&& forall|i: int| 0 <= i < #[trigger] lists[o].len() ==> maximal(free, lists[o][i] as int, o as nat, max)
        &&& forall|i: int, j: int| 0 <= i < j < lists[o].len() ==> #[trigger] lists[o][i] + psz(o as nat) <= #[trigger] lists[o][j]
    } by {
        lemma_prefix_shape(free, o as nat, max, psz((max - o) as nat) as nat);
    }
    assert(entries_maximal(free, lists, max));
    assert forall|o1: int, i1: int, o2: int, i2: int|
        0 <= o1 < lists.len() && 0 <= i1 < lists[o1].len() && 0 <= o2 < lists.len() && 0 <= i2 < lists[o2].len()
            && (o1 != o2 || i1 != i2) implies #[trigger] disjoint(lists[o1][i1] as int, o1 as nat, lists[o2][i2] as int, o2 as nat) by {
        if o1 == o2 {
            if i1 < i2 {
                assert(lists[o1][i1] + psz(o1 as nat) <= lists[o1][i2]);
            } else {
                assert(lists[o1][i2] + psz(o1 as nat) <= lists[o1][i1]);
            }
        } else if o1 < o2 {
            assert(maximal(free, lists[o1][i1] as int, o1 as nat, max));
            assert(maximal(free, lists[o2][i2] as int, o2 as nat, max));
            lemma_maximal_disjoint(free, lists[o1][i1] as int, o1 as nat, lists[o2][i2] as int, o2 as nat, max);
        } else {
            assert(maximal(free, lists[o1][i1] as int, o1 as nat, max));
            assert(maximal(free, lists[o2][i2] as int, o2 as nat, max));
            lemma_maximal_disjoint(free, lists[o2][i2] as int, o2 as nat, lists[o1][i1] as int, o1 as nat, max);
        }
    }
    assert forall|x: int| 0 <= x < free.len() && #[trigger] free[x] implies exists|o: int, i: int|
        0 <= o < lists.len() && 0 <= i < lists[o].len() && in_block(x, #[trigger] lists[o][i] as int, o as nat) by {
        lemma_psz_pos(0);
        assert(psz(0) == 1) by {
            vstd::arithmetic::power2::lemma2_to64();
        }
        assert(start_at(x, 0) == x);
        assert(block_full(free, start_at(x, 0), 0));
        lemma_find_maximal(free, x, 0, max);
        let k = choose|k: nat| 0 <= k <= max && #[trigger] maximal(free, start_at(x, k), k, max);
        lemma_start_at(x, k);
        lemma_psz_pos(k);
        let j = x / psz(k);
        assert(j >= 0) by (nonlinear_arith)
            requires x >= 0, psz(k) > 0, j == x / psz(k);
        lemma_psz_mul(k, max);
        let n = psz((max - k) as nat);
        assert(j < n) by (nonlinear_arith)
            requires j * psz(k) <= x, x < free.len(), free.len() <= psz(max), psz(max) == psz(k) * n, psz(k) > 0;
        lemma_prefix_contains(free, k, max, n as nat, j as nat);
        let s = maximal_prefix(free, k, max, n as nat);
        assert(lists[k as int] == s);
        let i = choose|i: int| 0 <= i < s.len() && #[trigger] s[i] == (j * psz(k)) as usize;
        assert(in_block(x, lists[k as int][i] as int, k));
    }
}

} // verus!
