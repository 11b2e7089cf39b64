//! Robust rate estimation over a window of inter-arrival samples: the median, a band
//! of a factor of eight around it, and the mean of what falls inside the band.
use vstd::prelude::*;

use vstd::arithmetic::div_mod::{
    lemma_div_multiples_vanish_quotient, lemma_fundamental_div_mod,
    lemma_fundamental_div_mod_converse,
};

verus! {

/// Number of samples below `m`.
pub open spec fn count_below(s: Seq<u64>, m: int) -> nat
    decreases s.len(),
{
    if s.len() == 0 {
        0
    } else {
        count_below(s.drop_last(), m) + if s.last() < m {
            1nat
        } else {
            0nat
        }
    }
}

/// Number of samples at most `m`.
pub open spec fn count_upto(s: Seq<u64>, m: int) -> nat
    decreases s.len(),
{
    if s.len() == 0 {
        0
    } else {
        count_upto(s.drop_last(), m) + if s.last() <= m {
            1nat
        } else {
            0nat
        }
    }
}

/// `m` stands at position `k` once `s` is sorted.
pub open spec fn is_order_stat(s: Seq<u64>, k: int, m: u64) -> bool {
    count_below(s, m as int) <= k < count_upto(s, m as int)
}

/// The sample at position `len / 2` of the sorted window (zero for an empty window).
pub open spec fn median(s: Seq<u64>) -> u64 {
    if exists|m: u64| #[trigger] is_order_stat(s, s.len() as int / 2, m) {
        choose|m: u64| #[trigger] is_order_stat(s, s.len() as int / 2, m)
    } else {
        0
    }
}

/// Number of samples in `[lo, hi)`.
pub open spec fn band_count(s: Seq<u64>, lo: int, hi: int) -> nat
    decreases s.len(),
{
    if s.len() == 0 {
        0
    } else {
        band_count(s.drop_last(), lo, hi) + if lo <= s.last() < hi {
            1nat
        } else {
            0nat
        }
    }
}

/// Sum of the samples in `[lo, hi)`.
pub open spec fn band_sum(s: Seq<u64>, lo: int, hi: int) -> nat
    decreases s.len(),
{
    if s.len() == 0 {
        0
    } else {
        band_sum(s.drop_last(), lo, hi) + if lo <= s.last() < hi {
            s.last() as nat
        } else {
            0nat
        }
    }
}

/// `10^6 * count / total` rounded to the nearest integer, halves upward.
pub open spec fn rounded_rate(count: nat, total: nat) -> int {
    ((2_000_000 * count + total) / (2 * total)) as int
}

/// Events per second when `count` intervals take `total` microseconds, rounded to the
/// nearest integer and saturated; an unbounded rate where no time passed.
pub open spec fn rate(count: nat, total: nat) -> u64 {
    if total == 0 {
        u64::MAX
    } else if rounded_rate(count, total) > u64::MAX {
        u64::MAX
    } else {
        rounded_rate(count, total) as u64
    }
}

/// Lower edge of the band kept around a median: an eighth of it.
pub open spec fn band_lo(m: u64) -> int {
    m as int / 8
}

/// Upper edge (exclusive) of the band kept around a median: eight times it.
pub open spec fn band_hi(m: u64) -> int {
    m as int * 8
}

/// Packets per second from the samples inside the band, or zero when the band keeps no
/// more than half of the window.
pub open spec fn receive_speed(s: Seq<u64>) -> u64 {
    let m = median(s);
    let c = band_count(s, band_lo(m), band_hi(m));
    if c > s.len() / 2 {
        rate(c, band_sum(s, band_lo(m), band_hi(m)))
    } else {
        0
    }
}

/// Link capacity in packets per second from the median together with the samples
/// inside the band.
pub open spec fn bandwidth(s: Seq<u64>) -> u64 {
    let m = median(s);
    rate(1 + band_count(s, band_lo(m), band_hi(m)), m as nat + band_sum(s, band_lo(m), band_hi(m)))
}

proof fn lemma_counts_step(s: Seq<u64>, i: int, m: int)
    requires
        0 <= i < s.len(),
    ensures
        count_below(s.take(i + 1), m) == count_below(s.take(i), m) + if s[i] < m {
            1nat
        } else {
            0nat
        },
        count_upto(s.take(i + 1), m) == count_upto(s.take(i), m) + if s[i] <= m {
            1nat
        } else {
            0nat
        },
        band_count(s.take(i + 1), m / 8, m * 8) == band_count(s.take(i), m / 8, m * 8) + if m
            / 8 <= s[i] < m * 8 {
            1nat
        } else {
            0nat
        },
        band_sum(s.take(i + 1), m / 8, m * 8) == band_sum(s.take(i), m / 8, m * 8) + if m / 8
            <= s[i] < m * 8 {
            s[i] as nat
        } else {
            0nat
        },
{
    assert(s.take(i + 1).drop_last() =~= s.take(i));
}

/// A value strictly between the below-count and the at-most-count occurs in the window.
proof fn lemma_order_stat_occurs(s: Seq<u64>, m: int)
    requires
        count_below(s, m) < count_upto(s, m),
    ensures
        exists|i: int| 0 <= i < s.len() && s[i] == m,
    decreases s.len(),
{
    if s.last() == m {
        assert(s[s.len() - 1] == m);
    } else {
        lemma_order_stat_occurs(s.drop_last(), m);
        let i = choose|i: int| 0 <= i < s.drop_last().len() && s.drop_last()[i] == m;
        assert(s[i] == m);
    }
}

/// Every sample at most `a` is below `b` when `a < b`.
proof fn lemma_counts_monotone(s: Seq<u64>, a: int, b: int)
    requires
        a < b,
    ensures
        count_upto(s, a) <= count_below(s, b),
    decreases s.len(),
{
    if s.len() > 0 {
        lemma_counts_monotone(s.drop_last(), a, b);
    }
}

/// At most one value stands at a given sorted position.
proof fn lemma_order_stat_unique(s: Seq<u64>, k: int, m: u64)
    requires
        is_order_stat(s, k, m),
    ensures
        median(s) == m || k != s.len() / 2,
{
    if k == s.len() / 2 {
        let c = choose|c: u64| #[trigger] is_order_stat(s, s.len() as int / 2, c);
        if c < m {
            lemma_counts_monotone(s, c as int, m as int);
        } else if c > m {
            lemma_counts_monotone(s, m as int, c as int);
        }
    }
}

/// The median of the window, found by counting for each sample how many lie below it.
pub fn median_of(s: &Vec<u64>) -> (r: u64)
    ensures
        r == median(s@),
{
    let n = s.len();
    let k = n / 2;
    let mut i: usize = 0;
    while i < n
        invariant
            n == s@.len(),
            k == s@.len() / 2,
            i <= n,
            forall|x: int| 0 <= x < i ==> !is_order_stat(s@, k as int, #[trigger] s@[x]),
        decreases n - i,
    {
        let m = s[i];
        let mut below: usize = 0;
        let mut upto: usize = 0;
        let mut j: usize = 0;
        while j < n
            invariant
                n == s@.len(),
                j <= n,
                below <= j,
                upto <= j,
                below == count_below(s@.take(j as int), m as int),
                upto == count_upto(s@.take(j as int), m as int),
            decreases n - j,
        {
            proof {
                lemma_counts_step(s@, j as int, m as int);
            }
            if s[j] < m {
                below = below + 1;
            }
            if s[j] <= m {
                upto = upto + 1;
            }
            j = j + 1;
        }
        assert(s@.take(n as int) =~= s@);
        if below <= k && k < upto {
            proof {
                lemma_order_stat_unique(s@, k as int, m);
            }
            return m;
        }
        i = i + 1;
    }
    proof {
        if exists|m: u64| #[trigger] is_order_stat(s@, k as int, m) {
            let m = choose|m: u64| #[trigger] is_order_stat(s@, k as int, m);
            lemma_order_stat_occurs(s@, m as int);
            let x = choose|x: int| 0 <= x < s@.len() && s@[x] == m;
            assert(!is_order_stat(s@, k as int, s@[x]));
        }
    }
    0
}

/// Number and sum of the samples inside the band around `m`.
fn band_of(s: &Vec<u64>, m: u64) -> (r: (usize, u128))
    ensures
        r.0 == band_count(s@, band_lo(m), band_hi(m)),
        r.1 == band_sum(s@, band_lo(m), band_hi(m)),
        r.0 <= s@.len(),
        r.1 <= s@.len() * 0xFFFF_FFFF_FFFF_FFFF,
{
    let n = s.len();
    let lo = m / 8;
    let hi = (m as u128) * 8;
    let mut count: usize = 0;
    let mut sum: u128 = 0;
    let mut j: usize = 0;
    while j < n
        invariant
            n == s@.len(),
            j <= n,
            lo == band_lo(m),
            hi == band_hi(m),
            count <= j,
            sum <= j * 0xFFFF_FFFF_FFFF_FFFF,
            count == band_count(s@.take(j as int), band_lo(m), band_hi(m)),
            sum == band_sum(s@.take(j as int), band_lo(m), band_hi(m)),
        decreases n - j,
    {
        proof {
            lemma_counts_step(s@, j as int, m as int);
        }
        let x = s[j];
        if lo <= x && (x as u128) < hi {
            assert(sum + x <= (j + 1) * 0xFFFF_FFFF_FFFF_FFFF) by (nonlinear_arith)
                requires
                    sum <= j * 0xFFFF_FFFF_FFFF_FFFF,
                    x <= 0xFFFF_FFFF_FFFF_FFFFu64,
            ;
            count = count + 1;
            sum = sum + x as u128;
        } else {
            assert(sum <= (j + 1) * 0xFFFF_FFFF_FFFF_FFFF) by (nonlinear_arith)
                requires
                    sum <= j * 0xFFFF_FFFF_FFFF_FFFF,
            ;
        }
        j = j + 1;
    }
    assert(s@.take(n as int) =~= s@);
    (count, sum)
}

/// Events per second when `count` intervals take `total` microseconds.
fn rate_of(count: u128, total: u128) -> (r: u64)
    requires
        count <= 0x2_0000_0000_0000_0000,
    ensures
        r == rate(count as nat, total as nat),
{
    if total == 0 {
        return u64::MAX;
    }
    let a = 1_000_000 * count;
    let q = a / total;
    let rem = a % total;
    proof {
        lemma_fundamental_div_mod(a as int, total as int);
        if rem >= total - rem {
            assert(2 * a + total == (q + 1) * (2 * total) + (2 * rem - total)) by (nonlinear_arith)
                requires
                    a == total * q + rem,
            ;
            lemma_fundamental_div_mod_converse(
                2 * a + total,
                2 * total,
                q + 1,
                2 * rem - total,
            );
        } else {
            assert(2 * a + total == q * (2 * total) + (2 * rem + total)) by (nonlinear_arith)
                requires
                    a == total * q + rem,
            ;
            lemma_fundamental_div_mod_converse(2 * a + total, 2 * total, q as int, 2 * rem + total);
        }
    }
    assert(q <= a) by (nonlinear_arith)
        requires
            q == a / total,
            total > 0,
            a >= 0,
    ;
    let rounded = if rem >= total - rem {
        q + 1
    } else {
        q
    };
    if rounded > u64::MAX as u128 {
        u64::MAX
    } else {
        rounded as u64
    }
}

/// Receive speed in packets per second over a window of inter-arrival samples, or zero
/// when the samples are too scattered to trust.
pub fn speed_of(s: &Vec<u64>) -> (r: u64)
    ensures
        r == receive_speed(s@),
{
    let m = median_of(s);
    let (count, sum) = band_of(s, m);
    if count > s.len() / 2 {
        rate_of(count as u128, sum)
    } else {
        0
    }
}

/// Link capacity in packets per second over a window of probe-pair samples.
pub fn bandwidth_of(s: &Vec<u64>) -> (r: u64)
    ensures
        r == bandwidth(s@),
{
    let m = median_of(s);
    let (count, sum) = band_of(s, m);
    let n = s.len();
    assert(n <= 0xFFFF_FFFF_FFFF_FFFF);
    assert(sum + m <= (s@.len() + 1) * 0xFFFF_FFFF_FFFF_FFFF) by (nonlinear_arith)
        requires
            sum <= s@.len() * 0xFFFF_FFFF_FFFF_FFFF,
            m <= 0xFFFF_FFFF_FFFF_FFFFu64,
    ;
    assert((s@.len() + 1) * 0xFFFF_FFFF_FFFF_FFFF <= 0x1_0000_0000_0000_0000 * 0xFFFF_FFFF_FFFF_FFFF)
        by (nonlinear_arith)
        requires
            s@.len() <= 0xFFFF_FFFF_FFFF_FFFF,
    ;
    rate_of(count as u128 + 1, sum + m as u128)
}

/// Number of samples equal to `d`.
pub open spec fn count_equal(s: Seq<u64>, d: int) -> nat
    decreases s.len(),
{
    if s.len() == 0 {
        0
    } else {
        count_equal(s.drop_last(), d) + if s.last() == d {
            1nat
        } else {
            0nat
        }
    }
}

/// Every sample is `d` or lies outside the band around `d`.
pub open spec fn only_outliers_besides(s: Seq<u64>, d: u64) -> bool {
    forall|i: int|
        0 <= i < s.len() ==> #[trigger] s[i] == d || s[i] < band_lo(d) || s[i] >= band_hi(d)
}

proof fn lemma_counts_with_outliers(s: Seq<u64>, d: u64)
    requires
        d > 0,
        only_outliers_besides(s, d),
    ensures
        count_below(s, d as int) + count_equal(s, d as int) <= s.len(),
        count_upto(s, d as int) >= count_equal(s, d as int),
        band_count(s, band_lo(d), band_hi(d)) == count_equal(s, d as int),
        band_sum(s, band_lo(d), band_hi(d)) == count_equal(s, d as int) * d,
    decreases s.len(),
{
    if s.len() > 0 {
        let t = s.drop_last();
        assert forall|i: int| 0 <= i < t.len() implies #[trigger] t[i] == d || t[i] < band_lo(d)
            || t[i] >= band_hi(d) by {
            assert(t[i] == s[i]);
        }
        lemma_counts_with_outliers(t, d);
        assert(s.last() == s[s.len() - 1]);
        let c = count_equal(t, d as int);
        if s.last() == d {
            assert((c + 1) * d == c * d + d) by (nonlinear_arith);
        }
    }
}

/// With more than half of the samples equal to `d > 0` and every other one outside the
/// band around `d`, `d` is the median.
proof fn lemma_majority_median(s: Seq<u64>, d: u64)
    requires
        d > 0,
        only_outliers_besides(s, d),
        count_equal(s, d as int) > s.len() / 2,
    ensures
        median(s) == d,
        band_count(s, band_lo(d), band_hi(d)) == count_equal(s, d as int),
        band_sum(s, band_lo(d), band_hi(d)) == count_equal(s, d as int) * d,
{
    lemma_counts_with_outliers(s, d);
    assert(is_order_stat(s, s.len() as int / 2, d));
    lemma_order_stat_unique(s, s.len() as int / 2, d);
}

/// `count` intervals of `d` microseconds each make `10^6 / d` per second, rounded.
proof fn lemma_rate_uniform(count: nat, d: nat)
    requires
        count > 0,
        d > 0,
    ensures
        rate(count, count * d) as int == (2_000_000 + d) / (2 * d),
{
    assert(count * d > 0) by (nonlinear_arith)
        requires
            count > 0,
            d > 0,
    ;
    let x = count as int;
    let n = (2_000_000 + d) as int;
    let m = (2 * d) as int;
    lemma_div_multiples_vanish_quotient(x, n, m);
    assert(x * n == 2_000_000 * count + count * d) by (nonlinear_arith)
        requires
            x == count,
            n == 2_000_000 + d,
    ;
    assert(x * m == 2 * (count * d)) by (nonlinear_arith)
        requires
            x == count,
            m == 2 * d,
    ;
    assert(rounded_rate(count, count * d) == n / m);
    assert(n <= m * 1_000_001) by (nonlinear_arith)
        requires
            n == 2_000_000 + d,
            m == 2 * d,
            d >= 1,
    ;
    assert(n / m <= 1_000_001) by (nonlinear_arith)
        requires
            m > 0,
            n >= 0,
            n <= m * 1_000_001,
    ;
}

/// Where more than half of the arrival samples equal `d > 0` and the others are outliers
/// (below `d / 8` or at least `8 d`), the receive speed is `10^6 / d` rounded to the
/// nearest integer: the outliers do not move it. A window of equal samples is the case
/// without outliers.
pub proof fn lemma_speed_of_majority(s: Seq<u64>, d: u64)
    requires
        d > 0,
        only_outliers_besides(s, d),
        count_equal(s, d as int) > s.len() / 2,
    ensures
        receive_speed(s) as int == (2_000_000 + d) / (2 * d),
{
    lemma_majority_median(s, d);
    lemma_rate_uniform(count_equal(s, d as int), d as nat);
}

/// Where more than half of the probe samples equal `d > 0` and the others are outliers,
/// the bandwidth is `10^6 / d` rounded to the nearest integer; it is never zero when `d`
/// is at most two seconds.
pub proof fn lemma_bandwidth_of_majority(s: Seq<u64>, d: u64)
    requires
        d > 0,
        only_outliers_besides(s, d),
        count_equal(s, d as int) > s.len() / 2,
    ensures
        bandwidth(s) as int == (2_000_000 + d) / (2 * d),
        d <= 2_000_000 ==> bandwidth(s) > 0,
{
    lemma_majority_median(s, d);
    let c = count_equal(s, d as int);
    assert(d + c * d == (1 + c) * d) by (nonlinear_arith);
    lemma_rate_uniform(1 + c, d as nat);
    if d <= 2_000_000 {
        assert((2_000_000 + d) / (2 * d) >= 1) by (nonlinear_arith)
            requires
                0 < d <= 2_000_000,
        ;
    }
}

/// In a window of samples all equal to `d > 0`, the median is `d` and more than half of
/// the samples are equal to it, with no outliers.
pub proof fn lemma_uniform_window(s: Seq<u64>, d: u64)
    requires
        d > 0,
        s.len() > 0,
        forall|i: int| 0 <= i < s.len() ==> #[trigger] s[i] == d,
    ensures
        only_outliers_besides(s, d),
        count_equal(s, d as int) == s.len(),
    decreases s.len(),
{
    let t = s.drop_last();
    if t.len() > 0 {
        assert forall|i: int| 0 <= i < t.len() implies #[trigger] t[i] == d by {
            assert(t[i] == s[i]);
        }
        lemma_uniform_window(t, d);
    } else {
        assert(count_equal(t, d as int) == 0);
    }
    assert(s.last() == s[s.len() - 1]);
}

proof fn lemma_band_sum_bound(s: Seq<u64>, lo: int, hi: int)
    requires
        hi >= 1,
    ensures
        band_sum(s, lo, hi) <= band_count(s, lo, hi) * (hi - 1),
    decreases s.len(),
{
    if s.len() > 0 {
        lemma_band_sum_bound(s.drop_last(), lo, hi);
        let c = band_count(s.drop_last(), lo, hi);
        assert((c + 1) * (hi - 1) == c * (hi - 1) + (hi - 1)) by (nonlinear_arith);
        if lo <= s.last() < hi {
            assert(band_sum(s, lo, hi) == band_sum(s.drop_last(), lo, hi) + s.last());
            assert(band_count(s, lo, hi) == c + 1);
        } else {
            assert(band_sum(s, lo, hi) == band_sum(s.drop_last(), lo, hi));
            assert(band_count(s, lo, hi) == c);
        }
    }
}

proof fn lemma_empty_band(s: Seq<u64>, lo: int, hi: int)
    requires
        hi <= 0,
    ensures
        band_sum(s, lo, hi) == 0,
    decreases s.len(),
{
    if s.len() > 0 {
        lemma_empty_band(s.drop_last(), lo, hi);
    }
}

/// The bandwidth estimate is never zero while the median probe interval is at most a
/// quarter of a second: the samples kept stay below eight times the median.
pub proof fn lemma_bandwidth_positive(s: Seq<u64>)
    requires
        median(s) <= 250_000,
    ensures
        bandwidth(s) > 0,
{
    let m = median(s);
    let c = band_count(s, band_lo(m), band_hi(m));
    let t: nat = m as nat + band_sum(s, band_lo(m), band_hi(m));
    if m > 0 {
        lemma_band_sum_bound(s, band_lo(m), band_hi(m));
        assert(t <= 2_000_000 * (1 + c)) by (nonlinear_arith)
            requires
                t == m as nat + band_sum(s, band_lo(m), band_hi(m)),
                band_sum(s, band_lo(m), band_hi(m)) <= c * (m * 8 - 1),
                m <= 250_000,
        ;
        assert(t > 0);
        assert((2_000_000 * (1 + c) + t) / (2 * t) >= 1) by (nonlinear_arith)
            requires
                t > 0,
                t <= 2_000_000 * (1 + c),
        ;
    } else {
        lemma_empty_band(s, band_lo(m), band_hi(m));
    }
    assert(bandwidth(s) == rate(1 + c, t));
}

} // verus!
