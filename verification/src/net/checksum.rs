use vstd::prelude::*;
use crate::net::types::u16_to_be;
use vstd::arithmetic::div_mod::{lemma_mod_multiples_vanish, lemma_fundamental_div_mod, lemma_small_mod};

verus! {

/// Sum of the big-endian 16-bit words of `s`; a last odd byte counts as the
/// high byte of a word.
pub open spec fn word_sum(s: Seq<u8>) -> nat
    decreases s.len(),
{
    if s.len() == 0 {
        0
    } else if s.len() == 1 {
        (s[0] as nat) * 256
    } else {
        (s[0] as nat) * 256 + (s[1] as nat) + word_sum(s.subrange(2, s.len() as int))
    }
}

/// End-around-carry folding of `n` into 16 bits.
pub open spec fn fold16(n: nat) -> nat
    decreases n,
{
    if n < 65536 {
        n
    } else {
        fold16(n % 65536 + n / 65536)
    }
}

/// RFC 1071 Internet checksum of `s`: the ones' complement of the folded
/// word sum.
pub open spec fn internet_checksum(s: Seq<u8>) -> nat {
    (65535 - fold16(word_sum(s))) as nat
}

proof fn lemma_fold_decreases(n: nat)
    requires
        n >= 65536,
    ensures
        n % 65536 + n / 65536 < n,
{
    assert(n % 65536 + n / 65536 < n) by (nonlinear_arith)
        requires n >= 65536;
}

proof fn lemma_fold16_bound(n: nat)
    ensures
        fold16(n) < 65536,
    decreases n,
{
    if n >= 65536 {
        lemma_fold_decreases(n);
        lemma_fold16_bound(n % 65536 + n / 65536);
    }
}

proof fn lemma_word_sum_step(s: Seq<u8>, i: int)
    requires
        0 <= i < s.len(),
    ensures
        i + 1 < s.len() ==> word_sum(s.subrange(i, s.len() as int)) == (s[i] as nat) * 256
            + (s[i + 1] as nat) + word_sum(s.subrange(i + 2, s.len() as int)),
        i + 1 == s.len() ==> word_sum(s.subrange(i, s.len() as int)) == (s[i] as nat) * 256,
{
    let t = s.subrange(i, s.len() as int);
    if i + 1 < s.len() {
        assert(t.subrange(2, t.len() as int) =~= s.subrange(i + 2, s.len() as int));
    }
}

/// Folding keeps a sum's residue modulo 65535 and maps every nonzero sum
/// into `[1, 65535]`.
pub proof fn lemma_fold16_closed(n: nat)
    ensures
        fold16(n) == (if n == 0 { 0 } else { ((n - 1) as int % 65535 + 1) as nat }),
    decreases n,
{
    if n >= 65536 {
        let q = n / 65536;
        let m = n % 65536 + q;
        lemma_fold_decreases(n);
        lemma_fold16_closed(m);
        assert(m >= 1 && n - 1 == (m - 1) + 65535 * q) by (nonlinear_arith)
            requires
                n >= 65536,
                q == n / 65536,
                m == n % 65536 + q;
        lemma_mod_multiples_vanish(q as int, (m - 1) as int, 65535);
        assert((65535 * q + (m - 1)) == (n - 1) as int);
    }
}

/// The word sum of two byte strings laid end to end, the first of even
/// length, is the sum of their word sums.
pub proof fn lemma_word_sum_concat(a: Seq<u8>, b: Seq<u8>)
    requires
        a.len() % 2 == 0,
    ensures
        word_sum(a + b) == word_sum(a) + word_sum(b),
    decreases a.len(),
{
    if a.len() > 0 {
        let t = a.subrange(2, a.len() as int);
        lemma_word_sum_concat(t, b);
        assert((a + b).subrange(2, (a + b).len() as int) =~= t + b);
        assert((a + b)[0] == a[0] && (a + b)[1] == a[1]);
    } else {
        assert(a + b =~= b);
    }
}

/// A byte string whose sum already includes its own checksum: adding the
/// checksum `65535 - fold16(s)` to a word sum `s` folds to 65535, so the
/// checksum over the result is zero.
pub proof fn lemma_checksum_cancels(s: nat)
    ensures
        (65535 - fold16(s)) >= 0,
        (65535 - fold16(s)) <= 65535,
        fold16((s + (65535 - fold16(s))) as nat) == 65535,
{
    lemma_fold16_closed(s);
    lemma_fold16_bound(s);
    let t = (s + (65535 - fold16(s))) as nat;
    lemma_fold16_closed(t);
    if s == 0 {
        assert(t == 65535);
    } else {
        let r = (s - 1) as int % 65535;
        assert(t - 1 == (s - 1) + 65535 - (r + 1));
        assert((s - 1) as int == 65535 * ((s - 1) as int / 65535) + r) by {
            lemma_fundamental_div_mod((s - 1) as int, 65535);
        }
        assert(t - 1 == 65535 * ((s - 1) as int / 65535) + 65534);
        lemma_mod_multiples_vanish((s - 1) as int / 65535, 65534, 65535);
        assert((t - 1) as int % 65535 == 65534) by {
            lemma_small_mod(65534, 65535);
        }
    }
}

/// Internet checksum of `data`, big-endian. The bound on the length keeps
/// the 32-bit running sum from overflowing.
pub fn checksum16(data: &[u8]) -> (r: [u8; 2])
    requires
        data@.len() <= 131072,
    ensures
        r@ == seq![(internet_checksum(data@) / 256) as u8, (internet_checksum(data@) % 256) as u8],
{
    let mut sum: u32 = 0;
    let mut i: usize = 0;
    let n = data.len();
    assert(data@.subrange(0, n as int) =~= data@);
    while i < n
        invariant
            n == data@.len(),
            n <= 131072,
            i <= n,
            i % 2 == 0 || i == n,
            sum + word_sum(data@.subrange(i as int, n as int)) == word_sum(data@),
            sum <= 65535 * ((i + 1) / 2),
        decreases n - i,
    {
        proof {
            lemma_word_sum_step(data@, i as int);
        }
        if i + 1 < n {
            let word = (data[i] as u32) * 256 + (data[i + 1] as u32);
            sum = sum + word;
            i = i + 2;
        } else {
            sum = sum + (data[i] as u32) * 256;
            i = i + 1;
        }
    }
    assert(data@.subrange(n as int, n as int) =~= Seq::<u8>::empty());
    assert(sum == word_sum(data@));
    let ghost total = sum as nat;
    while sum >= 65536
        invariant
            fold16(sum as nat) == fold16(total),
        decreases sum,
    {
        let s = sum;
        assert((s & 0xFFFF) == s % 65536 && (s >> 16) == s / 65536) by (bit_vector);
        proof {
            lemma_fold_decreases(s as nat);
        }
        sum = (s & 0xFFFF) + (s >> 16);
    }
    proof {
        lemma_fold16_bound(total);
    }
    let c: u16 = (65535 - sum) as u16;
    u16_to_be(c)
}

} // verus!
