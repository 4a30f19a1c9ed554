use vstd::prelude::*;
use vstd::arithmetic::power2::{pow2, lemma_pow2_pos, lemma_pow2_adds, lemma_pow2_unfold};
use vstd::arithmetic::div_mod::{lemma_fundamental_div_mod, lemma_fundamental_div_mod_converse_div, lemma_mod_multiples_basic};
use vstd::arithmetic::mul::{lemma_mul_is_associative, lemma_mul_is_commutative};

verus! {

// ---------------------------------------------------------------------
// Block geometry: a block of order `o` starting at leaf `b` covers
// `[b, b + 2^o)`; it is aligned when `b` is a multiple of `2^o`.
// ---------------------------------------------------------------------

/// Pages in a block of order `o`.
pub open spec fn psz(o: nat) -> int {
    pow2(o) as int
}

/// Start of the aligned order-`o` block that holds leaf `x`.
pub open spec fn start_at(x: int, o: nat) -> int {
    (x / psz(o)) * psz(o)
}

/// Whether `b` is a valid order-`o` block start.
pub open spec fn aligned(b: int, o: nat) -> bool {
    b >= 0 && b % psz(o) == 0
}

/// Whether leaf `x` lies in the order-`o` block that starts at `b`.
pub open spec fn in_block(x: int, b: int, o: nat) -> bool {
    b <= x && x < b + psz(o)
}

/// The buddy of the aligned order-`o` block at `b` (the other half of its parent).
pub open spec fn buddy(b: int, o: nat) -> int {
    if (b / psz(o)) % 2 == 0 {
        b + psz(o)
    } else {
        b - psz(o)
    }
}

/// Every leaf in `[lo, hi)` exists and is free.
pub open spec fn range_free(free: Seq<bool>, lo: int, hi: int) -> bool {
    0 <= lo && hi <= free.len() && forall|x: int| lo <= x < hi ==> #[trigger] free[x]
}

/// The order-`o` block at `b` consists of real, free pages only.
pub open spec fn block_full(free: Seq<bool>, b: int, o: nat) -> bool {
    range_free(free, b, b + psz(o))
}

/// A block that is entirely free while its parent (if any) is not: the only
/// kind of block the free lists hold.
pub open spec fn maximal(free: Seq<bool>, b: int, o: nat, max: nat) -> bool {
    &&& aligned(b, o)
    &&& block_full(free, b, o)
    &&& (o < max ==> !block_full(free, start_at(b, o + 1), o + 1))
}

/// Two blocks share no leaf.
pub open spec fn disjoint(b1: int, o1: nat, b2: int, o2: nat) -> bool {
    b1 + psz(o1) <= b2 || b2 + psz(o2) <= b1
}

// ---------------------------------------------------------------------
// Arithmetic facts about power-of-two blocks
// ---------------------------------------------------------------------

pub proof fn lemma_psz_pos(o: nat)
    ensures
        psz(o) > 0,
{
    lemma_pow2_pos(o);
}

pub proof fn lemma_psz_double(o: nat)
    ensures
        psz(o + 1) == 2 * psz(o),
{
    lemma_pow2_unfold(o + 1);
}

pub proof fn lemma_psz_mul(o1: nat, o2: nat)
    requires
        o1 <= o2,
    ensures
        psz(o2) == psz(o1) * psz((o2 - o1) as nat),
        psz((o2 - o1) as nat) >= 1,
{
    lemma_pow2_adds(o1, (o2 - o1) as nat);
    lemma_pow2_pos((o2 - o1) as nat);
}

/// `start_at` lands on an aligned start at or below `x`, within one block.
pub proof fn lemma_start_at(x: int, o: nat)
    requires
        x >= 0,
    ensures
        aligned(start_at(x, o), o),
        in_block(x, start_at(x, o), o),
{
    lemma_psz_pos(o);
    let k = psz(o);
    lemma_fundamental_div_mod(x, k);
    assert(x / k >= 0) by (nonlinear_arith)
        requires x >= 0, k > 0;
    assert((x / k) * k >= 0) by (nonlinear_arith)
        requires x / k >= 0, k > 0;
    lemma_mod_multiples_basic(x / k, k);
    lemma_mul_is_commutative(x / k, k);
}

/// An aligned block holding `x` is the block `start_at(x, o)`.
pub proof fn lemma_start_at_unique(x: int, b: int, o: nat)
    requires
        aligned(b, o),
        in_block(x, b, o),
    ensures
        start_at(x, o) == b,
{
    lemma_psz_pos(o);
    let k = psz(o);
    lemma_fundamental_div_mod(b, k);
    let q = b / k;
    assert(b == k * q);
    lemma_mul_is_commutative(k, q);
    lemma_fundamental_div_mod_converse_div(x, k, q, x - q * k);
}

/// Multiples of the block size are aligned.
pub proof fn lemma_aligned_mul(j: int, o: nat)
    requires
        j >= 0,
    ensures
        aligned(j * psz(o), o),
        start_at(j * psz(o), o) == j * psz(o),
{
    lemma_psz_pos(o);
    lemma_mod_multiples_basic(j, psz(o));
    assert(j * psz(o) >= 0) by (nonlinear_arith)
        requires j >= 0, psz(o) > 0;
    assert(in_block(j * psz(o), j * psz(o), o));
    lemma_start_at_unique(j * psz(o), j * psz(o), o);
}

/// Aligned blocks of power-of-two sizes are either nested or disjoint:
/// a smaller block that meets a larger one lies inside it.
pub proof fn lemma_nest(b1: int, o1: nat, b2: int, o2: nat)
    requires
        aligned(b1, o1),
        aligned(b2, o2),
        o1 <= o2,
        b1 < b2 + psz(o2),
        b2 < b1 + psz(o1),
    ensures
        b2 <= b1,
        b1 + psz(o1) <= b2 + psz(o2),
{
    lemma_psz_mul(o1, o2);
    lemma_psz_pos(o1);
    lemma_psz_pos(o2);
    let k = psz(o1);
    let m = psz((o2 - o1) as nat);
    lemma_fundamental_div_mod(b1, k);
    lemma_fundamental_div_mod(b2, psz(o2));
    let q1 = b1 / k;
    let q2 = b2 / psz(o2);
    assert(b1 == k * q1);
    assert(b2 == (k * m) * q2);
    lemma_mul_is_associative(k, m, q2);
    assert(b2 == k * (m * q2));
    // From b2 < b1 + k: m*q2 < q1 + 1.
    assert(m * q2 < q1 + 1) by (nonlinear_arith)
        requires k * (m * q2) < k * q1 + k, k > 0;
    assert(q1 < m * q2 + m) by (nonlinear_arith)
        requires k * q1 < k * (m * q2) + k * m, k > 0;
    assert(k * (m * q2) <= k * q1) by (nonlinear_arith)
        requires m * q2 <= q1, k > 0;
    assert(k * q1 + k <= k * (m * q2) + k * m) by (nonlinear_arith)
        requires q1 + 1 <= m * q2 + m, k > 0;
}

/// The parent of the block that holds `x` at order `o` is the block that holds `x` at order `o + 1`.
pub proof fn lemma_start_at_parent(x: int, o: nat)
    requires
        x >= 0,
    ensures
        start_at(start_at(x, o), o + 1) == start_at(x, o + 1),
        start_at(x, o + 1) <= start_at(x, o),
        start_at(x, o) + psz(o) <= start_at(x, o + 1) + psz(o + 1),
{
    lemma_start_at(x, o);
    lemma_start_at(x, o + 1);
    let s = start_at(x, o);
    let p = start_at(x, o + 1);
    lemma_nest(s, o, p, o + 1);
    lemma_start_at_unique(s, p, o + 1);
}

/// An order-`o1` block that holds a leaf of an aligned order-`o2` block with `o1 <= o2` lies inside it.
pub proof fn lemma_start_at_inside(x: int, o1: nat, b2: int, o2: nat)
    requires
        aligned(b2, o2),
        in_block(x, b2, o2),
        o1 <= o2,
    ensures
        b2 <= start_at(x, o1),
        start_at(x, o1) + psz(o1) <= b2 + psz(o2),
{
    lemma_start_at(x, o1);
    lemma_nest(start_at(x, o1), o1, b2, o2);
}

/// Basic facts about the buddy of an aligned block.
pub proof fn lemma_buddy(b: int, o: nat)
    requires
        aligned(b, o),
    ensures
        aligned(buddy(b, o), o),
        disjoint(b, o, buddy(b, o), o),
        start_at(buddy(b, o), o + 1) == start_at(b, o + 1),
        start_at(b, o + 1) == (if b < buddy(b, o) { b } else { buddy(b, o) }),
        buddy(buddy(b, o), o) == b,
{
    lemma_psz_pos(o);
    lemma_psz_double(o);
    let k = psz(o);
    lemma_fundamental_div_mod(b, k);
    let q = b / k;
    assert(b == q * k) by {
        lemma_mul_is_commutative(k, q);
    }
    assert(q >= 0) by (nonlinear_arith)
        requires b >= 0, k > 0, b == q * k;
    if q % 2 == 0 {
        let bb = b + k;
        assert(bb == (q + 1) * k) by (nonlinear_arith)
            requires bb == b + k, b == q * k;
        lemma_aligned_mul(q + 1, o);
        assert(bb / k == q + 1) by {
            lemma_fundamental_div_mod_converse_div(bb, k, q + 1, 0);
        }
        // parent starts at b
        assert(b == (q / 2) * (2 * k)) by (nonlinear_arith)
            requires b == q * k, q % 2 == 0;
        lemma_aligned_mul(q / 2, o + 1);
        assert(in_block(b, b, o + 1));
        assert(in_block(bb, b, o + 1));
        lemma_start_at_unique(b, b, o + 1);
        lemma_start_at_unique(bb, b, o + 1);
    } else {
        let bb = b - k;
        assert(q >= 1);
        assert(bb == (q - 1) * k) by (nonlinear_arith)
            requires bb == b - k, b == q * k;
        lemma_aligned_mul(q - 1, o);
        assert(bb / k == q - 1) by {
            lemma_fundamental_div_mod_converse_div(bb, k, q - 1, 0);
        }
        assert(bb == ((q - 1) / 2) * (2 * k)) by (nonlinear_arith)
            requires bb == (q - 1) * k, q % 2 == 1;
        lemma_aligned_mul((q - 1) / 2, o + 1);
        assert(in_block(b, bb, o + 1));
        assert(in_block(bb, bb, o + 1));
        lemma_start_at_unique(b, bb, o + 1);
        lemma_start_at_unique(bb, bb, o + 1);
    }
}

} // verus!
