//! Statistics of a grid's low-order bit plane: how many of the examined bits
//! are 0 and how many are 1, and the chi-squared test of those counts against
//! an even split.

use crate::bits::bit_of;
use crate::error::StegoError;
use crate::grid::{BitWidth, GridView, PixelGrid, MAX_CHANNELS};
use vstd::arithmetic::div_mod::lemma_fundamental_div_mod;
use vstd::prelude::*;

verus! {

/// The critical value of the chi-squared distribution with one degree of
/// freedom at the 0.05 level, in thousandths: 3.841.
pub const CRITICAL_VALUE_THOUSANDTHS: u128 = 3841;

/// How many of the examined bits were 0 and how many were 1.
#[derive(Clone, Copy, Debug, PartialEq, Eq, Structural)]
pub struct Histogram {
    pub count0: u64,
    pub count1: u64,
}

/// The chi-squared statistic of a histogram against an even split, as the
/// exact fraction `numerator / denominator`, and whether it exceeds the
/// critical value 3.841.
#[derive(Clone, Copy, Debug, PartialEq, Eq, Structural)]
pub struct ChiSquared {
    pub numerator: u128,
    pub denominator: u128,
    pub significant: bool,
}

/// How many of the low `k` bits of `byte` equal `value`.
pub open spec fn count_below(byte: u8, k: int, value: bool) -> nat
    decreases k,
{
    if k <= 0 {
        0
    } else {
        count_below(byte, k - 1, value) + if bit_of(byte, k - 1) == value {
            1nat
        } else {
            0nat
        }
    }
}

/// How many of the low `k` bits of all `samples` equal `value`.
pub open spec fn count_in(samples: Seq<u8>, k: int, value: bool) -> nat
    decreases samples.len(),
{
    if samples.len() == 0 {
        0
    } else {
        count_in(samples.drop_last(), k, value) + count_below(samples.last(), k, value)
    }
}

/// The numerator of the chi-squared statistic of the counts `c0` and `c1`.
pub open spec fn chi_squared_numerator(c0: nat, c1: nat) -> nat {
    ((c0 - c1) * (c0 - c1)) as nat
}

/// The denominator of the chi-squared statistic of the counts `c0` and `c1`.
pub open spec fn chi_squared_denominator(c0: nat, c1: nat) -> nat {
    c0 + c1
}

/// Whether the chi-squared statistic of the counts `c0` and `c1` exceeds 3.841.
pub open spec fn is_significant(c0: nat, c1: nat) -> bool {
    1000 * chi_squared_numerator(c0, c1) > CRITICAL_VALUE_THOUSANDTHS * chi_squared_denominator(c0, c1)
}

/// Every one of the low `k` bits of a byte is either 0 or 1.
pub proof fn lemma_count_below_total(byte: u8, k: int)
    requires
        0 <= k,
    ensures
        count_below(byte, k, false) + count_below(byte, k, true) == k,
    decreases k,
{
    if k > 0 {
        lemma_count_below_total(byte, k - 1);
    }
}

/// Histogram conservation: the bits counted as 0 and those counted as 1 are
/// together `k` for each sample.
pub proof fn lemma_count_in_total(samples: Seq<u8>, k: int)
    requires
        0 <= k,
    ensures
        count_in(samples, k, false) + count_in(samples, k, true) == samples.len() * k,
    decreases samples.len(),
{
    if samples.len() > 0 {
        lemma_count_in_total(samples.drop_last(), k);
        lemma_count_below_total(samples.last(), k);
        assert((samples.len() - 1) * k + k == samples.len() * k) by (nonlinear_arith);
    } else {
        assert(samples.len() * k == 0) by (nonlinear_arith)
            requires
                samples.len() == 0,
        ;
    }
}

/// The fraction `chi_squared_numerator / chi_squared_denominator` is the sum,
/// over the two bit values, of `(observed - expected)^2 / expected`, where
/// `expected` is half the total. With every term scaled by 4 to stay in whole
/// numbers, that sum is `((2 c0 - t)^2 + (2 c1 - t)^2) / (2 t)`.
pub proof fn lemma_chi_squared_is_the_sum_of_deviations(c0: nat, c1: nat)
    ensures
        ({
            let t = c0 + c1;
            ((2 * c0 - t) * (2 * c0 - t) + (2 * c1 - t) * (2 * c1 - t)) * chi_squared_denominator(c0, c1)
                == chi_squared_numerator(c0, c1) * (2 * t)
        }),
{
    let d = c0 - c1;
    let t = c0 + c1;
    assert((d * d) >= 0) by (nonlinear_arith);
    assert((d * d + (-d) * (-d)) * t == (d * d) * (2 * t)) by (nonlinear_arith);
}

/// An even split has the statistic 0 and is not significant.
pub proof fn lemma_even_split_is_zero(n: nat)
    ensures
        chi_squared_numerator(n, n) == 0,
        !is_significant(n, n),
{
}

/// How many of the low `k` bits of `byte` are 1.
pub(crate) fn ones_below(byte: u8, k: u8) -> (ones: u8)
    requires
        k <= 8,
    ensures
        ones == count_below(byte, k as int, true),
        ones <= k,
{
    let mut ones: u8 = 0;
    let mut i: u8 = 0;
    while i < k
        invariant
            i <= k <= 8,
            ones <= i,
            ones == count_below(byte, i as int, true),
        decreases k - i,
    {
        if (byte >> i) & 1 == 1 {
            ones += 1;
        }
        i += 1;
    }
    ones
}

/// Counts the zeros and the ones among the low `bit_width` bits of every
/// channel of every pixel of `grid`.
///
/// Fails with `DegenerateInput` on a grid without pixels.
pub fn histogram(grid: &PixelGrid, bit_width: BitWidth) -> (r: Result<Histogram, StegoError>)
    ensures
        r is Err <==> grid@.samples.len() == 0,
        r matches Err(e) ==> e == StegoError::DegenerateInput,
        r matches Ok(h) ==> {
            &&& h.count0 == count_in(grid@.samples, bit_width@, false)
            &&& h.count1 == count_in(grid@.samples, bit_width@, true)
            &&& h.count0 + h.count1 == 3 * grid@.width * grid@.height * bit_width@
        },
{
    let k: u8 = bit_width.get();
    let samples: &[u8] = grid.samples();
    let n: usize = samples.len();
    if n == 0 {
        return Err(StegoError::DegenerateInput);
    }
    let mut count0: u64 = 0;
    let mut count1: u64 = 0;
    let mut c: usize = 0;
    while c < n
        invariant
            1 <= k <= 8,
            n == samples@.len(),
            n <= MAX_CHANNELS,
            c <= n,
            count0 == count_in(samples@.subrange(0, c as int), k as int, false),
            count1 == count_in(samples@.subrange(0, c as int), k as int, true),
            count0 + count1 <= 8 * c,
        decreases n - c,
    {
        let ones: u8 = ones_below(samples[c], k);
        proof {
            lemma_count_below_total(samples@[c as int], k as int);
            assert(samples@.subrange(0, c + 1).drop_last() =~= samples@.subrange(0, c as int));
        }
        count1 += ones as u64;
        count0 += (k - ones) as u64;
        c += 1;
    }
    proof {
        assert(samples@.subrange(0, n as int) =~= samples@);
        lemma_count_in_total(samples@, k as int);
    }
    Ok(Histogram { count0, count1 })
}

/// The chi-squared statistic of `histogram` against an even split of its
/// total, and whether it is significant at the 0.05 level.
///
/// Fails with `DegenerateInput` when the histogram holds no observation.
pub fn chi_squared(histogram: &Histogram) -> (r: Result<ChiSquared, StegoError>)
    ensures
        r is Err <==> histogram.count0 + histogram.count1 == 0,
        r matches Err(e) ==> e == StegoError::DegenerateInput,
        r matches Ok(s) ==> {
            &&& s.numerator == chi_squared_numerator(histogram.count0 as nat, histogram.count1 as nat)
            &&& s.denominator == chi_squared_denominator(histogram.count0 as nat, histogram.count1 as nat)
            &&& s.significant == is_significant(histogram.count0 as nat, histogram.count1 as nat)
        },
{
    let c0: u128 = histogram.count0 as u128;
    let c1: u128 = histogram.count1 as u128;
    let total: u128 = c0 + c1;
    if total == 0 {
        return Err(StegoError::DegenerateInput);
    }
    let deviation: u128 = if c0 >= c1 { c0 - c1 } else { c1 - c0 };
    assert(deviation * deviation <= 0xffff_ffff_ffff_ffff * 0xffff_ffff_ffff_ffff
        && deviation * deviation == (c0 - c1) * (c0 - c1)) by (nonlinear_arith)
        requires
            deviation <= 0xffff_ffff_ffff_ffff,
            deviation == c0 - c1 || deviation == c1 - c0,
    ;
    let numerator: u128 = deviation * deviation;
    let scaled: u128 = CRITICAL_VALUE_THOUSANDTHS * total;
    let threshold: u128 = scaled / 1000;
    proof {
        lemma_fundamental_div_mod(scaled as int, 1000);
    }
    Ok(ChiSquared { numerator, denominator: total, significant: numerator > threshold })
}

} // verus!
