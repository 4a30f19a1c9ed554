use vstd::prelude::*;
use vstd::arithmetic::power2::{pow2, lemma_pow2_pos, lemma_pow2_unfold, lemma_pow2_strictly_increases, lemma2_to64};
use vstd::bits::{lemma_usize_shl_is_mul, lemma_usize_pow2_no_overflow};
use crate::mm::pmm::buddy_spec::{psz, lemma_psz_double};

verus! {

/// `ceil(log2(n))` (0 for `n <= 1`), halving with round-up.
pub open spec fn ceil_log2(n: nat) -> nat
    decreases n,
{
    if n <= 1 {
        0
    } else {
        ceil_log2(((n + 1) / 2) as nat) + 1
    }
}

/// `floor(log2(n))` (0 for `n <= 1`), halving with round-down.
pub open spec fn floor_log2(n: nat) -> nat
    decreases n,
{
    if n <= 1 {
        0
    } else {
        floor_log2((n / 2) as nat) + 1
    }
}

/// Number of `true` entries of a sequence.
pub open spec fn count_true(s: Seq<bool>) -> nat
    decreases s.len(),
{
    if s.len() == 0 {
        0
    } else {
        count_true(s.drop_last()) + if s.last() { 1nat } else { 0nat }
    }
}

/// The smallest power of two not below `n` is `2^ceil_log2(n)`.
pub proof fn lemma_ceil_log2(n: nat)
    requires
        n >= 1,
    ensures
        psz(ceil_log2(n)) >= n,
        psz(ceil_log2(n)) < 2 * n,
        ceil_log2(n) > 0 ==> psz((ceil_log2(n) - 1) as nat) < n,
    decreases n,
{
    lemma2_to64();
    if n > 1 {
        let m = ((n + 1) / 2) as nat;
        lemma_ceil_log2(m);
        let c = ceil_log2(m);
        assert(ceil_log2(n) == c + 1);
        lemma_psz_double(c);
        if c > 0 {
            lemma_pow2_unfold(c);
        }
        assert(psz(c) < n);
    }
}

/// `floor_log2(2^k) == k`.
pub proof fn lemma_floor_log2_pow2(k: nat)
    ensures
        floor_log2(pow2(k)) == k,
    decreases k,
{
    lemma2_to64();
    if k > 0 {
        lemma_pow2_unfold(k);
        lemma_pow2_pos((k - 1) as nat);
        lemma_floor_log2_pow2((k - 1) as nat);
        assert(pow2(k) / 2 == pow2((k - 1) as nat));
        assert(pow2(k) > 1);
    }
}

/// Flipping one entry changes the count by that entry alone.
pub proof fn lemma_count_update(s: Seq<bool>, i: int, v: bool)
    requires
        0 <= i < s.len(),
    ensures
        count_true(s.update(i, v)) + (if s[i] { 1int } else { 0int }) == count_true(s) + (if v { 1int } else { 0int }),
    decreases s.len(),
{
    let t = s.update(i, v);
    if i == s.len() - 1 {
        assert(t.drop_last() =~= s.drop_last());
    } else {
        lemma_count_update(s.drop_last(), i, v);
        assert(t.drop_last() =~= s.drop_last().update(i, v));
    }
}

/// The count never exceeds the length.
pub proof fn lemma_count_le_len(s: Seq<bool>)
    ensures
        count_true(s) <= s.len(),
    decreases s.len(),
{
    if s.len() > 0 {
        lemma_count_le_len(s.drop_last());
    }
}

/// Pushing appends one to the count when the pushed entry is `true`.
pub proof fn lemma_count_push(s: Seq<bool>, v: bool)
    ensures
        count_true(s.push(v)) == count_true(s) + if v { 1nat } else { 0nat },
{
    assert(s.push(v).drop_last() =~= s);
}

/// `2^o` as a machine word.
pub fn order_pages(order: usize) -> (r: usize)
    requires
        order < usize::BITS,
    ensures
        r as int == psz(order as nat),
{
    proof {
        lemma_usize_pow2_no_overflow(order as nat);
        lemma_usize_shl_is_mul(1, order);
    }
    1usize << order
}

/// The smallest power of two that is at least `n` (1 for `n <= 1`).
pub fn next_pow2(n: usize) -> (r: usize)
    requires
        n <= usize::MAX / 2 + 1,
    ensures
        r as int == psz(ceil_log2(n as nat)),
        r >= n,
        r >= 1,
{
    let mut m = n;
    let mut k: usize = 0;
    while m > 1
        invariant
            ceil_log2(n as nat) == k + ceil_log2(m as nat),
            n <= usize::MAX / 2 + 1,
            k + m <= n || n == 0,
            m <= n,
            m >= 1 || n == 0,
            k > 0 ==> m < n,
            k <= ceil_log2(n as nat),
        decreases m,
    {
        m = (m + 1) / 2;
        k = k + 1;
    }
    proof {
        lemma2_to64();
        if n >= 1 {
            lemma_ceil_log2(n as nat);
        }
        let kk = ceil_log2(n as nat);
        assert(k == kk);
        if k >= usize::BITS {
            if kk > usize::BITS {
                lemma_pow2_strictly_increases(usize::BITS as nat, kk);
            }
            assert(psz(kk) >= pow2(usize::BITS as nat));
            if usize::BITS == 32 {
                assert(psz(kk) >= 0x1_0000_0000);
            } else {
                assert(psz(kk) >= 0x1_0000_0000_0000_0000);
            }
            assert(false);
        }
    }
    order_pages(k)
}

/// `floor(log2(n))` (0 for `n <= 1`).
pub fn log2_floor(n: usize) -> (r: usize)
    ensures
        r as nat == floor_log2(n as nat),
{
    let mut v = n;
    let mut log: usize = 0;
    while v > 1
        invariant
            floor_log2(n as nat) == log + floor_log2(v as nat),
            log < 64,
            v <= n,
            log > 0 ==> v < n,
            log as nat <= floor_log2(n as nat),
        decreases v,
    {
        proof {
            assert(floor_log2(n as nat) < 64) by {
                lemma_floor_log2_bound(n as nat);
            }
        }
        v = v / 2;
        log = log + 1;
    }
    log
}

/// A power of two that fits in a machine word has an exponent below the word width.
pub proof fn lemma_pow2_fits(k: nat)
    requires
        psz(k) <= usize::MAX,
    ensures
        k < usize::BITS,
{
    lemma2_to64();
    if k >= usize::BITS {
        if k > usize::BITS {
            lemma_pow2_strictly_increases(usize::BITS as nat, k);
        }
        assert(psz(k) >= pow2(usize::BITS as nat));
        assert(false);
    }
}

/// `floor_log2(n) < 64` for every machine word.
pub proof fn lemma_floor_log2_bound(n: nat)
    requires
        n <= usize::MAX,
    ensures
        floor_log2(n) < 64,
{
    lemma_floor_log2_le(n);
    lemma2_to64();
    if floor_log2(n) >= 64 {
        if floor_log2(n) > 64 {
            lemma_pow2_strictly_increases(64, floor_log2(n));
        }
        assert(pow2(floor_log2(n)) >= pow2(64));
        assert(false);
    }
}

/// `2^floor_log2(n) <= n` for `n >= 1`.
pub proof fn lemma_floor_log2_le(n: nat)
    ensures
        n >= 1 ==> pow2(floor_log2(n)) <= n,
    decreases n,
{
    lemma2_to64();
    if n > 1 {
        lemma_floor_log2_le((n / 2) as nat);
        lemma_pow2_unfold(floor_log2(n));
    }
}

} // verus!
