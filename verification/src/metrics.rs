//! What one run of a benchmark measured.

use vstd::prelude::*;
use vstd::std_specs::ops::AddSpecImpl;

verus! {

/// The sum of two optional counts: absent unless both are present.
pub open spec fn sum_opt(x: Option<u64>, y: Option<u64>) -> Option<u64> {
    match (x, y) {
        (Some(a), Some(b)) => Some((a + b) as u64),
        _ => None,
    }
}

/// The sum of two optional durations: absent unless both are present.
pub open spec fn sum_opt_nanos(x: Option<u128>, y: Option<u128>) -> Option<u128> {
    match (x, y) {
        (Some(a), Some(b)) => Some((a + b) as u128),
        _ => None,
    }
}

/// The sum of two counts fits, where both are present.
pub open spec fn fits_opt(x: Option<u64>, y: Option<u64>) -> bool {
    x is Some && y is Some ==> x->0 + y->0 <= u64::MAX
}

/// The sum of two durations fits, where both are present.
pub open spec fn fits_opt_nanos(x: Option<u128>, y: Option<u128>) -> bool {
    x is Some && y is Some ==> x->0 + y->0 <= u128::MAX
}

/// The sum of two optional counts.
pub fn add_opt(x: Option<u64>, y: Option<u64>) -> (sum: Option<u64>)
    requires
        fits_opt(x, y),
    ensures
        sum == sum_opt(x, y),
{
    if let Some(x) = x {
        if let Some(y) = y {
            return Some(x + y);
        }
    }
    None
}

/// The sum of two optional durations.
pub fn add_opt_nanos(x: Option<u128>, y: Option<u128>) -> (sum: Option<u128>)
    requires
        fits_opt_nanos(x, y),
    ensures
        sum == sum_opt_nanos(x, y),
{
    if let Some(x) = x {
        if let Some(y) = y {
            return Some(x + y);
        }
    }
    None
}

/// What one run measured. A benchmark leaves out what it does not measure.
#[derive(Clone, Copy, Debug)]
pub struct Metrics {
    /// The number of uncompressed bytes.
    pub uncompressed_size: Option<u64>,
    /// The number of compressed bytes.
    pub compressed_size: Option<u64>,
    /// The time taken, in nanoseconds.
    pub duration: Option<u128>,
}

impl Default for Metrics {
    fn default() -> (metrics: Metrics)
        ensures
            metrics == (Metrics { uncompressed_size: None, compressed_size: None, duration: None }),
    {
        Metrics { uncompressed_size: None, compressed_size: None, duration: None }
    }
}

impl Metrics {
    /// The measurement of nothing: every field is present and zero.
    pub open spec fn spec_zero() -> Metrics {
        Metrics { uncompressed_size: Some(0), compressed_size: Some(0), duration: Some(0) }
    }

    /// The measurement of nothing: every field is present and zero.
    pub fn zero() -> (metrics: Metrics)
        ensures
            metrics == Metrics::spec_zero(),
    {
        Metrics { uncompressed_size: Some(0), compressed_size: Some(0), duration: Some(0) }
    }

    /// Every sum of two fields that are both present fits.
    pub open spec fn fits(self, other: Metrics) -> bool {
        &&& fits_opt(self.uncompressed_size, other.uncompressed_size)
        &&& fits_opt(self.compressed_size, other.compressed_size)
        &&& fits_opt_nanos(self.duration, other.duration)
    }

    /// The sum of two measurements: a field is the sum where both have it, and
    /// absent where one lacks it.
    pub open spec fn plus(self, other: Metrics) -> Metrics {
        Metrics {
            uncompressed_size: sum_opt(self.uncompressed_size, other.uncompressed_size),
            compressed_size: sum_opt(self.compressed_size, other.compressed_size),
            duration: sum_opt_nanos(self.duration, other.duration),
        }
    }

    /// The sum of two measurements, or nothing where a sum does not fit.
    pub fn checked_add(self, other: Metrics) -> (sum: Option<Metrics>)
        ensures
            sum == if self.fits(other) {
                Some(self.plus(other))
            } else {
                None
            },
    {
        let uncompressed_size = match (self.uncompressed_size, other.uncompressed_size) {
            (Some(a), Some(b)) => match a.checked_add(b) {
                Some(c) => Some(c),
                None => {
                    return None;
                },
            },
            _ => None,
        };
        let compressed_size = match (self.compressed_size, other.compressed_size) {
            (Some(a), Some(b)) => match a.checked_add(b) {
                Some(c) => Some(c),
                None => {
                    return None;
                },
            },
            _ => None,
        };
        let duration = match (self.duration, other.duration) {
            (Some(a), Some(b)) => match a.checked_add(b) {
                Some(c) => Some(c),
                None => {
                    return None;
                },
            },
            _ => None,
        };
        Some(Metrics { uncompressed_size, compressed_size, duration })
    }
}

impl core::ops::Add for Metrics {
    type Output = Metrics;

    fn add(self, other: Metrics) -> (sum: Metrics) {
        let uncompressed_size = add_opt(self.uncompressed_size, other.uncompressed_size);
        let compressed_size = add_opt(self.compressed_size, other.compressed_size);
        let duration = add_opt_nanos(self.duration, other.duration);
        Metrics { uncompressed_size, compressed_size, duration }
    }
}

impl AddSpecImpl for Metrics {
    open spec fn obeys_add_spec() -> bool {
        true
    }

    open spec fn add_req(self, other: Metrics) -> bool {
        self.fits(other)
    }

    open spec fn add_spec(self, other: Metrics) -> Metrics {
        self.plus(other)
    }
}

/// A field that one of two measurements lacks is absent from their sum.
pub proof fn lemma_sum_lacks_what_one_lacks(a: Metrics, b: Metrics)
    ensures
        a.duration is None || b.duration is None ==> a.plus(b).duration is None,
        a.uncompressed_size is None || b.uncompressed_size is None ==> a.plus(
            b,
        ).uncompressed_size is None,
        a.compressed_size is None || b.compressed_size is None ==> a.plus(b).compressed_size is None,
{
}

/// The sum of two measurements that have every field has every field, and
/// each is the exact sum.
pub proof fn lemma_sum_of_full_is_exact(a: Metrics, b: Metrics)
    requires
        a.uncompressed_size is Some && a.compressed_size is Some && a.duration is Some,
        b.uncompressed_size is Some && b.compressed_size is Some && b.duration is Some,
        a.fits(b),
    ensures
        a.plus(b).uncompressed_size == Some((a.uncompressed_size->0 + b.uncompressed_size->0) as u64),
        a.plus(b).uncompressed_size->0 == a.uncompressed_size->0 + b.uncompressed_size->0,
        a.plus(b).compressed_size->0 == a.compressed_size->0 + b.compressed_size->0,
        a.plus(b).duration->0 == a.duration->0 + b.duration->0,
        a.plus(b).compressed_size is Some,
        a.plus(b).duration is Some,
{
}

} // verus!
