use zstd_bench::metrics::{add_opt, Metrics};

#[test]
fn sum_lacks_the_duration_that_one_lacks() {
    let a = Metrics { uncompressed_size: Some(10), compressed_size: Some(4), duration: None };
    let b = Metrics { uncompressed_size: Some(5), compressed_size: Some(2), duration: Some(7) };
    let sum = a + b;
    assert_eq!(sum.duration, None);
    assert_eq!(sum.uncompressed_size, Some(15));
    assert_eq!(sum.compressed_size, Some(6));
    let sum = b + a;
    assert_eq!(sum.duration, None);
}

#[test]
fn sum_of_full_metrics_is_exact() {
    let a = Metrics { uncompressed_size: Some(10), compressed_size: Some(4), duration: Some(100) };
    let b = Metrics { uncompressed_size: Some(5), compressed_size: Some(2), duration: Some(23) };
    let sum = a + b;
    assert_eq!(sum.uncompressed_size, Some(15));
    assert_eq!(sum.compressed_size, Some(6));
    assert_eq!(sum.duration, Some(123));
}

#[test]
fn zero_is_neutral() {
    let a = Metrics { uncompressed_size: Some(10), compressed_size: None, duration: Some(100) };
    let sum = Metrics::zero() + a;
    assert_eq!(sum.uncompressed_size, Some(10));
    assert_eq!(sum.compressed_size, None);
    assert_eq!(sum.duration, Some(100));
}

#[test]
fn default_metrics_have_nothing() {
    let none = Metrics::default();
    assert_eq!(none.uncompressed_size, None);
    assert_eq!(none.compressed_size, None);
    assert_eq!(none.duration, None);
}

#[test]
fn checked_sum_detects_overflow() {
    let a = Metrics { uncompressed_size: Some(u64::MAX), compressed_size: Some(1), duration: Some(1) };
    let b = Metrics { uncompressed_size: Some(1), compressed_size: Some(1), duration: Some(1) };
    assert!(a.checked_add(b).is_none());
    let c = Metrics { uncompressed_size: None, compressed_size: Some(1), duration: Some(1) };
    let sum = a.checked_add(c).unwrap();
    assert_eq!(sum.uncompressed_size, None);
    assert_eq!(sum.compressed_size, Some(2));
    assert_eq!(sum.duration, Some(2));
    let d = Metrics { uncompressed_size: None, compressed_size: None, duration: Some(u128::MAX) };
    assert!(d.checked_add(c).is_none());
}

#[test]
fn optional_counts_add_up() {
    assert_eq!(add_opt(Some(1), Some(2)), Some(3));
    assert_eq!(add_opt(None, Some(2)), None);
    assert_eq!(add_opt(Some(1), None), None);
    assert_eq!(add_opt(None, None), None);
}
