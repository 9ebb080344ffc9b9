use vstd::prelude::*;
use vstd::arithmetic::power2::{pow2, lemma2_to64, lemma_pow2_pos};
use vstd::arithmetic::div_mod::{
    lemma_div_is_ordered, lemma_div_multiples_vanish, lemma_multiply_divide_lt,
};

verus! {

// The index stores idf values in Q20 fixed point: an idf of `v` stands for
// the real number v / IDF_SCALE.
pub const IDF_SCALE: u64 = 1048576;

/// 10^k.
pub open spec fn pow10(k: nat) -> int
    decreases k,
{
    if k == 0 {
        1
    } else {
        10 * pow10((k - 1) as nat)
    }
}

/// floor(log10(n / d)), for 1 <= d <= n.
pub open spec fn ilog10(n: int, d: int) -> nat
    decreases n - d,
    when 1 <= d <= n
{
    if n >= 10 * d {
        (1 + ilog10(n, 10 * d)) as nat
    } else {
        0
    }
}

/// The binary fractional digits of log10(x / 2^32), most significant first,
/// accumulated onto `acc`; `x` ranges over [2^32, 10 * 2^32), standing for a
/// value in [1, 10). Each step squares the argument and tests whether the
/// square crossed 10, which decides one further bit of the base-10 logarithm.
pub open spec fn frac_bits10(x: int, i: nat, acc: nat) -> nat
    decreases i,
{
    if i == 0 {
        acc
    } else {
        let y = (x * x) / 0x1_0000_0000;
        if y >= 10 * 0x1_0000_0000 {
            frac_bits10(y / 10, (i - 1) as nat, 2 * acc + 1)
        } else {
            frac_bits10(y, (i - 1) as nat, 2 * acc)
        }
    }
}

/// Inverse document frequency in Q20 fixed point: the integer part of
/// log10(n / d) in the high bits, then twenty binary fractional digits.
/// `n` is the corpus size and `d` the number of documents containing the
/// term, with 1 <= d <= n, so the value is always well defined and
/// nonnegative: no undefined or infinite score can arise.
pub open spec fn idf_q20(n: int, d: int) -> nat {
    let ip = ilog10(n, d);
    let dd = d * pow10(ip);
    let x = (n * 0x1_0000_0000) / dd;
    (ip * pow2(20) + frac_bits10(x, 20, 0)) as nat
}

proof fn lemma_pow10_pos(k: nat)
    ensures
        pow10(k) >= 1,
    decreases k,
{
    if k > 0 {
        lemma_pow10_pos((k - 1) as nat);
    }
}

proof fn lemma_pow10_mono(a: nat, b: nat)
    requires
        a <= b,
    ensures
        pow10(a) <= pow10(b),
    decreases b,
{
    if a < b {
        lemma_pow10_mono(a, (b - 1) as nat);
        lemma_pow10_pos((b - 1) as nat);
    }
}

/// Integer part of log10(n / d) together with d * 10^(that part).
fn ilog10_exec(n: u128, d: u128) -> (r: (u64, u128))
    requires
        1 <= d <= n,
        n <= u64::MAX,
    ensures
        r.0 == ilog10(n as int, d as int),
        r.1 == d * pow10(r.0 as nat),
        r.1 <= n,
        n < 10 * r.1,
        r.0 <= n - d,
    decreases n - d,
{
    if n >= 10 * d {
        let (e, dd) = ilog10_exec(n, 10 * d);
        proof {
            assert(dd == (10 * d) * pow10(e as nat));
            assert((10 * d) * pow10(e as nat) == d * (10 * pow10(e as nat)))
                by (nonlinear_arith);
            assert(pow10((e + 1) as nat) == 10 * pow10(e as nat));
        }
        (e + 1, dd)
    } else {
        (0, d)
    }
}

/// One step of bit extraction, run to completion: mirrors `frac_bits10`.
fn frac_bits10_exec(x: u128, i: u64, acc: u64) -> (r: u64)
    requires
        0x1_0000_0000 <= x < 10 * 0x1_0000_0000,
        i <= 20,
        acc < pow2((20 - i) as nat),
    ensures
        r == frac_bits10(x as int, i as nat, acc as nat),
        r < pow2(20),
    decreases i,
{
    proof {
        lemma2_to64();
    }
    if i == 0 {
        acc
    } else {
        proof {
            assert(x * x < 10 * 0x1_0000_0000 * (10 * 0x1_0000_0000)) by (nonlinear_arith)
                requires 0 <= x < 10 * 0x1_0000_0000;
            assert(x * x >= 0x1_0000_0000 * 0x1_0000_0000) by (nonlinear_arith)
                requires x >= 0x1_0000_0000;
            lemma_div_is_ordered((0x1_0000_0000 * 0x1_0000_0000) as int, (x * x) as int, 0x1_0000_0000);
            lemma_div_multiples_vanish(0x1_0000_0000, 0x1_0000_0000);
            lemma_multiply_divide_lt((x * x) as int, 0x1_0000_0000, (100 * 0x1_0000_0000) as int);
            assert(pow2((20 - i) as nat) * 2 == pow2((20 - (i - 1)) as nat)) by {
                vstd::arithmetic::power2::lemma_pow2_adds((20 - i) as nat, 1);
            }
        }
        let y = (x * x) / 0x1_0000_0000u128;
        if y >= 10 * 0x1_0000_0000u128 {
            proof {
                lemma_div_is_ordered((10 * 0x1_0000_0000) as int, y as int, 10);
                lemma_div_multiples_vanish(0x1_0000_0000, 10);
                lemma_multiply_divide_lt(y as int, 10, (10 * 0x1_0000_0000) as int);
            }
            frac_bits10_exec(y / 10, i - 1, 2 * acc + 1)
        } else {
            frac_bits10_exec(y, i - 1, 2 * acc)
        }
    }
}

/// Inverse document frequency of a term, in Q20 fixed point, for a corpus of
/// `n` documents of which `df` contain the term. Matches `idf_q20` exactly;
/// the value is bounded, so downstream arithmetic cannot overflow.
pub fn idf_value(n: usize, df: usize) -> (r: u64)
    requires
        1 <= df <= n,
    ensures
        r == idf_q20(n as int, df as int),
        r < 21 * 1048576,
{
    proof {
        lemma2_to64();
    }
    let (e, dd) = ilog10_exec(n as u128, df as u128);
    proof {
        // e is small: 10^20 already exceeds any possible corpus size.
        if e >= 20 {
            lemma_pow10_mono(20, e as nat);
            assert(pow10(20) == 100000000000000000000) by {
                reveal_with_fuel(pow10, 21);
            }
            assert(dd == df * pow10(e as nat));
            assert(df * pow10(e as nat) >= pow10(e as nat)) by (nonlinear_arith)
                requires df >= 1, pow10(e as nat) >= 0;
        }
        assert(e < 20);
        assert(dd >= 1) by {
            lemma_pow10_pos(e as nat);
            assert(df * pow10(e as nat) >= 1) by (nonlinear_arith)
                requires df >= 1, pow10(e as nat) >= 1;
        }
        assert((n as u128) * 0x1_0000_0000 <= u64::MAX * 0x1_0000_0000) by (nonlinear_arith)
            requires n <= u64::MAX;
        // x >= 2^32 because n >= dd.
        assert(dd * 0x1_0000_0000 <= (n as u128) * 0x1_0000_0000) by (nonlinear_arith)
            requires dd <= n as u128;
        lemma_div_is_ordered((dd * 0x1_0000_0000) as int, ((n as u128) * 0x1_0000_0000) as int, dd as int);
        assert((dd * 0x1_0000_0000) as int == 0x1_0000_0000 * (dd as int)) by (nonlinear_arith);
        lemma_div_multiples_vanish(0x1_0000_0000, dd as int);
        // x < 10 * 2^32 because n < 10 * dd.
        assert((n as u128) * 0x1_0000_0000 < (dd as int) * ((10 * 0x1_0000_0000) as int)) by (nonlinear_arith)
            requires (n as u128) < 10 * dd, dd >= 1;
        lemma_multiply_divide_lt(((n as u128) * 0x1_0000_0000) as int, dd as int, (10 * 0x1_0000_0000) as int);
    }
    let x = ((n as u128) * 0x1_0000_0000u128) / dd;
    let frac = frac_bits10_exec(x, 20, 0);
    e * 1048576 + frac
}

/// tf·idf of one posting in Q20 fixed point: (count / total) · idf, rounded
/// down, where tf is the term's occurrence count over the document's total
/// token count.
pub open spec fn tfidf_q20(count: int, total: int, idf: int) -> int {
    (count * idf) / total
}

/// tf·idf of one posting. A posting only exists for a term that occurs, so
/// 1 <= count <= total holds and the division is safe; the result never
/// exceeds the term's idf.
pub fn tfidf_value(count: usize, total: usize, idf: u64) -> (r: u64)
    requires
        1 <= count <= total,
    ensures
        r == tfidf_q20(count as int, total as int, idf as int),
        r <= idf,
{
    proof {
        assert((count as u128) * (idf as u128) <= (total as u128) * (idf as u128))
            by (nonlinear_arith)
            requires count <= total, idf >= 0;
        lemma_div_is_ordered(
            ((count as u128) * (idf as u128)) as int,
            ((total as u128) * (idf as u128)) as int,
            total as int,
        );
        assert(((total as u128) * (idf as u128)) as int == (idf as int) * (total as int))
            by (nonlinear_arith);
        lemma_div_multiples_vanish(idf as int, total as int);
        assert((count as u128) * (idf as u128) <= u128::MAX) by (nonlinear_arith)
            requires count <= u64::MAX, idf <= u64::MAX;
    }
    (((count as u128) * (idf as u128)) / (total as u128)) as u64
}

} // verus!
