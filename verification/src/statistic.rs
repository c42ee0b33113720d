//! Descriptive statistics over a sample of unsigned 64-bit values.
//!
//! Every quantity is an integer: the mean and the variance truncate, and the
//! standard deviation is the integer square root of the population variance.

use vstd::prelude::*;
use vstd::relations::{sorted_by, total_ordering};
use vstd::seq_lib::lemma_sorted_unique;
use vstd::slice::slice_to_vec;

verus! {

/// The largest square of a distance between two `u64` values.
pub open spec fn max_square() -> nat {
    (u64::MAX as nat) * (u64::MAX as nat)
}

/// The sum of all samples.
pub open spec fn sum(s: Seq<u64>) -> nat
    decreases s.len(),
{
    if s.len() == 0 {
        0
    } else {
        sum(s.drop_last()) + s.last() as nat
    }
}

/// `m` occurs in `s` and no sample is smaller.
pub open spec fn is_minimum(s: Seq<u64>, m: u64) -> bool {
    &&& exists|i: int| 0 <= i < s.len() && s[i] == m
    &&& forall|i: int| 0 <= i < s.len() ==> m <= s[i]
}

/// `m` occurs in `s` and no sample is larger.
pub open spec fn is_maximum(s: Seq<u64>, m: u64) -> bool {
    &&& exists|i: int| 0 <= i < s.len() && s[i] == m
    &&& forall|i: int| 0 <= i < s.len() ==> s[i] <= m
}

/// The truncated arithmetic mean; meaningful for a non-empty sample.
pub open spec fn mean(s: Seq<u64>) -> nat {
    sum(s) / s.len()
}

/// The order of the samples.
pub open spec fn leq() -> spec_fn(u64, u64) -> bool {
    |a: u64, b: u64| a <= b
}

/// The samples in ascending order.
pub open spec fn ascending(s: Seq<u64>) -> Seq<u64> {
    s.sort_by(leq())
}

/// The median: the middle sample of the ascending sequence when the count is
/// odd, the truncated average of the two middle samples when it is even.
pub open spec fn median(s: Seq<u64>) -> nat {
    let t = ascending(s);
    let n = s.len() as int;
    if n % 2 == 1 {
        t[n / 2] as nat
    } else {
        ((t[n / 2 - 1] + t[n / 2]) / 2) as nat
    }
}

/// The sum of the squared distances of the samples from `m`.
pub open spec fn squared_deviations(s: Seq<u64>, m: int) -> nat
    decreases s.len(),
{
    if s.len() == 0 {
        0
    } else {
        squared_deviations(s.drop_last(), m) + ((s.last() - m) * (s.last() - m)) as nat
    }
}

/// The truncated population variance: the squared deviations from the
/// truncated mean, divided by the number of samples.
pub open spec fn variance(s: Seq<u64>) -> nat {
    squared_deviations(s, mean(s) as int) / s.len()
}

/// `r` is the integer square root of `v`: the largest number whose square
/// does not exceed `v`.
pub open spec fn is_integer_sqrt(r: nat, v: nat) -> bool {
    r * r <= v < (r + 1) * (r + 1)
}

/// Summary of one sample.
#[derive(Clone, Copy, Debug)]
pub struct Statistic {
    pub min: u64,
    pub max: u64,
    pub mean: u64,
    pub median: u64,
    pub std_dev: u64,
}

impl Statistic {
    /// `self` is the summary of the non-empty sample `data`.
    pub open spec fn summarizes(self, data: Seq<u64>) -> bool {
        &&& data.len() > 0
        &&& is_minimum(data, self.min)
        &&& is_maximum(data, self.max)
        &&& self.mean == mean(data)
        &&& self.median == median(data)
        &&& is_integer_sqrt(self.std_dev as nat, variance(data))
    }

    /// Summarizes a non-empty sample.
    pub fn compute(data: &[u64]) -> (stat: Statistic)
        requires
            data@.len() > 0,
        ensures
            stat.summarizes(data@),
    {
        let mean: u64 = mean_of(data);
        let (min, max) = extremes_of(data);
        Statistic {
            min,
            max,
            mean,
            median: median_of(data),
            std_dev: std_dev(data, mean),
        }
    }
}

impl Default for Statistic {
    fn default() -> (stat: Statistic)
        ensures
            stat == (Statistic { min: 0, max: 0, mean: 0, median: 0, std_dev: 0 }),
    {
        Statistic { min: 0, max: 0, mean: 0, median: 0, std_dev: 0 }
    }
}

/// The sum of a prefix grows with the prefix and stays below the count times
/// the largest sample value.
proof fn lemma_sum_bound(s: Seq<u64>)
    ensures
        sum(s) <= s.len() * u64::MAX,
    decreases s.len(),
{
    if s.len() > 0 {
        lemma_sum_bound(s.drop_last());
        assert(sum(s.drop_last()) + s.last() <= (s.len() - 1) * u64::MAX + u64::MAX);
        assert((s.len() - 1) * u64::MAX + u64::MAX == s.len() * u64::MAX) by (nonlinear_arith);
    }
}

proof fn lemma_square_bound(x: int, m: int)
    by (nonlinear_arith)
    requires
        0 <= x <= u64::MAX,
        0 <= m <= u64::MAX,
    ensures
        0 <= (x - m) * (x - m) <= (u64::MAX as int) * (u64::MAX as int),
{
}

proof fn lemma_squared_deviations_bound(s: Seq<u64>, m: int)
    requires
        0 <= m <= u64::MAX,
    ensures
        squared_deviations(s, m) <= s.len() * max_square(),
    decreases s.len(),
{
    if s.len() > 0 {
        lemma_squared_deviations_bound(s.drop_last(), m);
        lemma_square_bound(s.last() as int, m);
        assert((s.len() - 1) * max_square() + max_square() == s.len() * max_square())
            by (nonlinear_arith);
    }
}

/// The mean lies between the smallest and the largest sample.
pub proof fn lemma_mean_fits(s: Seq<u64>)
    requires
        s.len() > 0,
    ensures
        mean(s) <= u64::MAX,
{
    lemma_sum_bound(s);
    let n = s.len() as int;
    let t = sum(s) as int;
    assert(t / n <= u64::MAX) by (nonlinear_arith)
        requires
            n > 0,
            0 <= t <= n * u64::MAX,
    ;
}

/// The truncated mean of a non-empty sample.
pub fn mean_of(data: &[u64]) -> (m: u64)
    requires
        data@.len() > 0,
    ensures
        m == mean(data@),
{
    let n: usize = data.len();
    let mut total: u128 = 0;
    let mut i: usize = 0;
    while i < n
        invariant
            n == data@.len(),
            i <= n,
            total == sum(data@.take(i as int)),
            total <= i * u64::MAX,
        decreases n - i,
    {
        proof {
            assert(data@.take(i + 1).drop_last() =~= data@.take(i as int));
            assert(i * u64::MAX + u64::MAX == (i + 1) * u64::MAX) by (nonlinear_arith);
            assert((i + 1) * u64::MAX <= usize::MAX * u64::MAX) by (nonlinear_arith)
                requires
                    i + 1 <= usize::MAX,
            ;
            assert(usize::MAX * u64::MAX <= u64::MAX * u64::MAX) by (nonlinear_arith)
                requires
                    usize::MAX <= u64::MAX,
            ;
            assert(u64::MAX * u64::MAX < u128::MAX) by (nonlinear_arith);
        }
        total = total + data[i] as u128;
        i = i + 1;
    }
    proof {
        assert(data@.take(n as int) =~= data@);
        lemma_mean_fits(data@);
    }
    (total / (n as u128)) as u64
}

/// The smallest and the largest sample of a non-empty sample.
pub fn extremes_of(data: &[u64]) -> (r: (u64, u64))
    requires
        data@.len() > 0,
    ensures
        is_minimum(data@, r.0),
        is_maximum(data@, r.1),
{
    let mut min: u64 = data[0];
    let mut max: u64 = data[0];
    let ghost mut at_min: int = 0;
    let ghost mut at_max: int = 0;
    let mut i: usize = 1;
    while i < data.len()
        invariant
            1 <= i <= data@.len(),
            0 <= at_min < i,
            0 <= at_max < i,
            data@[at_min] == min,
            data@[at_max] == max,
            forall|j: int| 0 <= j < i ==> min <= #[trigger] data@[j] && data@[j] <= max,
        decreases data@.len() - i,
    {
        if data[i] < min {
            min = data[i];
            proof {
                at_min = i as int;
            }
        }
        if data[i] > max {
            max = data[i];
            proof {
                at_max = i as int;
            }
        }
        i = i + 1;
    }
    (min, max)
}

/// `leq` is a total order on the samples.
pub proof fn lemma_leq_total()
    ensures
        total_ordering(leq()),
{
}

/// A sorted rearrangement of a sample is its ascending sequence.
pub proof fn lemma_ascending_unique(s: Seq<u64>, t: Seq<u64>)
    requires
        sorted_by(t, leq()),
        t.to_multiset() == s.to_multiset(),
    ensures
        t == ascending(s),
{
    lemma_leq_total();
    s.lemma_sort_by_ensures(leq());
    lemma_sorted_unique(t, ascending(s), leq());
}

/// The slice's `sort` of the standard library: afterwards the vector holds
/// the same samples as before, in ascending order.
#[verifier::external_body]
fn sort_samples(samples: &mut Vec<u64>)
    ensures
        sorted_by(final(samples)@, leq()),
        final(samples)@.to_multiset() == old(samples)@.to_multiset(),
{
    samples.sort();
}

/// The median of a non-empty sample.
pub fn median_of(data: &[u64]) -> (m: u64)
    requires
        data@.len() > 0,
    ensures
        m == median(data@),
{
    let mut sorted = slice_to_vec(data);
    sort_samples(&mut sorted);
    proof {
        lemma_ascending_unique(data@, sorted@);
        broadcast use vstd::seq_lib::to_multiset_len;

        assert(sorted@.len() == sorted@.to_multiset().len());
        assert(data@.len() == data@.to_multiset().len());
    }
    let n: usize = data.len();
    if n % 2 != 0 {
        sorted[n / 2]
    } else {
        let x: u128 = sorted[n / 2 - 1] as u128;
        let y: u128 = sorted[n / 2] as u128;
        ((x + y) / 2) as u64
    }
}

/// The integer square root by bisection.
pub fn integer_sqrt(v: u128) -> (r: u64)
    ensures
        is_integer_sqrt(r as nat, v as nat),
{
    let mut lo: u128 = 0;
    let mut hi: u128 = 0x1_0000_0000_0000_0000;
    assert(0x1_0000_0000_0000_0000int * 0x1_0000_0000_0000_0000int > u128::MAX) by (nonlinear_arith);
    while hi - lo > 1
        invariant
            lo < hi <= 0x1_0000_0000_0000_0000,
            lo * lo <= v,
            v < hi * hi,
        decreases hi - lo,
    {
        let mid: u128 = lo + (hi - lo) / 2;
        assert(mid * mid <= 0xffff_ffff_ffff_ffff * 0xffff_ffff_ffff_ffff) by (nonlinear_arith)
            requires
                0 <= mid <= 0xffff_ffff_ffff_ffff,
        ;
        assert(0xffff_ffff_ffff_ffffint * 0xffff_ffff_ffff_ffffint <= u128::MAX) by (nonlinear_arith);
        if mid * mid <= v {
            lo = mid;
        } else {
            hi = mid;
        }
    }
    lo as u64
}

/// One step of a running division: `quotient * n + rest` is the sum so far,
/// and `term` joins the sum.
proof fn lemma_running_division(quotient: int, rest: int, term: int, n: int)
    by (nonlinear_arith)
    requires
        n > 0,
        0 <= rest < n,
        0 <= term,
        0 <= quotient,
    ensures
        (quotient + term / n) * n + (rest + term % n) == quotient * n + rest + term,
        0 <= term % n < n,
        0 <= term / n,
{
}

proof fn lemma_quotient_bound(quotient: int, rest: int, n: int, count: int, bound: int)
    by (nonlinear_arith)
    requires
        n > 0,
        0 <= rest,
        0 <= quotient,
        0 <= count <= n,
        0 <= bound,
        quotient * n + rest <= count * bound,
    ensures
        quotient <= bound,
{
}

proof fn lemma_quotient_is_division(quotient: int, rest: int, n: int, total: int)
    by (nonlinear_arith)
    requires
        n > 0,
        0 <= rest < n,
        quotient * n + rest == total,
    ensures
        total / n == quotient,
{
}

/// The truncated population variance around `mean`.
pub fn variance_of(data: &[u64], mean: u64) -> (v: u128)
    requires
        data@.len() > 0,
    ensures
        v == squared_deviations(data@, mean as int) / data@.len(),
        v <= max_square(),
{
    let n: u128 = data.len() as u128;
    let mut quotient: u128 = 0;
    let mut rest: u128 = 0;
    let mut i: usize = 0;
    assert(u64::MAX * u64::MAX < u128::MAX) by (nonlinear_arith);
    while i < data.len()
        invariant
            n == data@.len(),
            n > 0,
            i <= n,
            rest < n,
            quotient * n + rest == squared_deviations(data@.take(i as int), mean as int),
            quotient <= max_square(),
            u64::MAX * u64::MAX < u128::MAX,
        decreases n - i,
    {
        let x: u64 = data[i];
        let distance: u128 = if x >= mean {
            (x - mean) as u128
        } else {
            (mean - x) as u128
        };
        proof {
            lemma_square_bound(x as int, mean as int);
            assert(distance * distance == (x - mean) * (x - mean)) by (nonlinear_arith)
                requires
                    distance == x - mean || distance == mean - x,
            ;
        }
        let term: u128 = distance * distance;
        proof {
            let next = data@.take(i + 1);
            assert(next.drop_last() =~= data@.take(i as int));
            assert(next.last() == x);
            lemma_running_division(quotient as int, rest as int, term as int, n as int);
            lemma_squared_deviations_bound(next, mean as int);
            assert(next.len() * max_square() <= n * max_square()) by (nonlinear_arith)
                requires
                    next.len() <= n,
            ;
            if rest + term % n >= n {
                assert((quotient + term / n + 1) * n + (rest + term % n - n) == (quotient + term
                    / n) * n + (rest + term % n)) by (nonlinear_arith);
                lemma_quotient_bound(
                    quotient + term / n + 1,
                    rest + term % n - n,
                    n as int,
                    n as int,
                    max_square() as int,
                );
            } else {
                lemma_quotient_bound(
                    (quotient + term / n) as int,
                    (rest + term % n) as int,
                    n as int,
                    n as int,
                    max_square() as int,
                );
            }
        }
        let carried: u128 = rest + term % n;
        if carried >= n {
            quotient = quotient + term / n + 1;
            rest = carried - n;
        } else {
            quotient = quotient + term / n;
            rest = carried;
        }
        i = i + 1;
    }
    proof {
        assert(data@.take(data@.len() as int) =~= data@);
        lemma_quotient_is_division(
            quotient as int,
            rest as int,
            n as int,
            squared_deviations(data@, mean as int) as int,
        );
    }
    quotient
}

/// The integer square root of the truncated population variance around `mean`.
pub fn std_dev(data: &[u64], mean: u64) -> (d: u64)
    requires
        data@.len() > 0,
    ensures
        is_integer_sqrt(d as nat, squared_deviations(data@, mean as int) / data@.len()),
{
    integer_sqrt(variance_of(data, mean))
}

} // verus!
