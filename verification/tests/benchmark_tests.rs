use zstd_bench::benchmark::{
    assert_opt_eq, calibration_step, compute_iters_and_runs, run_benchmark, Benchmark,
    BenchmarkError, BenchmarkResult, BuildInfo, Calibration, RunLog,
};
use zstd_bench::config::{Config, DataSetConfig, DataSetMode};
use zstd_bench::dataset::{DataSet, Datum};
use zstd_bench::metrics::Metrics;

fn configured(text: &str) -> Config {
    Config::load(text.as_bytes()).unwrap()
}

fn build() -> BuildInfo {
    BuildInfo {
        zstd_commit: "0123456789abcdef".to_string(),
        zstd_revision: "dev".to_string(),
        zstd_tag: Some("v1.4.5".to_string()),
        zstd_branch: None,
        zstd_commit_timestamp: 1600000000,
        cc: "gcc".to_string(),
        cc_version: "10.2".to_string(),
        cflags: "-O3".to_string(),
    }
}

fn data_set(files: &[&[u8]]) -> DataSet {
    let config = DataSetConfig {
        name: "files".to_string(),
        globs: Vec::new(),
        mode: DataSetMode::SeparateFiles,
    };
    DataSet::load(&config, files.iter().map(|file| file.to_vec()).collect()).unwrap()
}

/// A benchmark that takes a fixed time for each iteration on each datum.
struct Fixed {
    nanos_per_iter: u128,
    bytes: Option<u64>,
    calls: Vec<u64>,
    prepared: usize,
    released: usize,
}

impl Fixed {
    fn new(nanos_per_iter: u128) -> Fixed {
        Fixed { nanos_per_iter, bytes: Some(10), calls: Vec::new(), prepared: 0, released: 0 }
    }
}

impl Benchmark for Fixed {
    fn initialize_datum(&mut self, _datum: &Datum) -> Result<(), BenchmarkError> {
        self.prepared += 1;
        Ok(())
    }

    fn finalize_datum(&mut self, _datum: &Datum) -> Result<(), BenchmarkError> {
        self.released += 1;
        Ok(())
    }

    fn run_datum(&mut self, datum: &Datum, iters: u64) -> Result<Metrics, BenchmarkError> {
        self.calls.push(iters);
        Ok(Metrics {
            uncompressed_size: Some(datum.len() as u64 * iters),
            compressed_size: self.bytes,
            duration: Some(self.nanos_per_iter * iters as u128),
        })
    }
}

/// A benchmark that reports the given metrics, one after the other.
struct Scripted {
    metrics: Vec<Metrics>,
    next: usize,
}

impl Benchmark for Scripted {
    fn run_data_set(&mut self, _data_set: &DataSet, _iters: u64) -> Result<Metrics, BenchmarkError> {
        let metrics = self.metrics[self.next % self.metrics.len()];
        self.next += 1;
        Ok(metrics)
    }
}

fn took(nanos: u128) -> Metrics {
    Metrics { uncompressed_size: Some(100), compressed_size: Some(50), duration: Some(nanos) }
}

#[test]
fn a_far_too_short_run_grows_tenfold() {
    let config = Config::new();
    // The target of a run is 100 ms; a tenth of it is 10 ms.
    assert_eq!(calibration_step(&config, 1, 9_999_999), Ok(Calibration::Retry { iters: 10 }));
    assert_eq!(calibration_step(&config, 7, 1), Ok(Calibration::Retry { iters: 70 }));
    assert_eq!(
        calibration_step(&config, 1, 10_000_000),
        Ok(Calibration::Done { iters: 10, runs: 100 })
    );
}

#[test]
fn a_short_run_is_multiplied_up_to_the_target() {
    let config = Config::new();
    // 30 ms: three of them fill 100 ms, and 10 s hold 111 runs of 90 ms.
    assert_eq!(
        calibration_step(&config, 4, 30_000_000),
        Ok(Calibration::Done { iters: 12, runs: 111 })
    );
    // 60 ms: the quotient is 1, but the multiplier is at least 2.
    assert_eq!(
        calibration_step(&config, 4, 60_000_000),
        Ok(Calibration::Done { iters: 8, runs: 83 })
    );
}

#[test]
fn a_run_of_the_target_duration_is_kept() {
    let config = Config::new();
    assert_eq!(
        calibration_step(&config, 5, 100_000_000),
        Ok(Calibration::Done { iters: 5, runs: 100 })
    );
    assert_eq!(
        calibration_step(&config, 5, 3_000_000_000),
        Ok(Calibration::Done { iters: 5, runs: 3 })
    );
}

#[test]
fn a_run_that_fills_the_total_duration_runs_the_least_number_of_times() {
    let config = Config::new();
    assert_eq!(
        calibration_step(&config, 1, 10_000_000_000),
        Ok(Calibration::Done { iters: 1, runs: 3 })
    );
    assert_eq!(
        calibration_step(&config, 1, 50_000_000_000),
        Ok(Calibration::Done { iters: 1, runs: 3 })
    );
    let once = configured("min_runs = 0");
    assert_eq!(
        calibration_step(&once, 1, 50_000_000_000),
        Ok(Calibration::Done { iters: 1, runs: 1 })
    );
    let often = configured("min_runs = 8");
    assert_eq!(
        calibration_step(&often, 1, 50_000_000_000),
        Ok(Calibration::Done { iters: 1, runs: 8 })
    );
}

#[test]
fn calibration_refuses_what_cannot_be() {
    let config = Config::new();
    assert_eq!(calibration_step(&config, 1, 0), Err(BenchmarkError::ZeroDuration));
    assert_eq!(calibration_step(&config, 0, 5), Err(BenchmarkError::ZeroIterations));
    assert_eq!(calibration_step(&config, u64::MAX, 5), Err(BenchmarkError::Overflow));
    assert_eq!(calibration_step(&config, u64::MAX, 30_000_000), Err(BenchmarkError::Overflow));
}

#[test]
fn configured_targets_are_used() {
    let config = configured("min_ms_per_run = 10\nmin_secs = 1\nmin_runs = 2");
    assert_eq!(calibration_step(&config, 1, 999_999), Ok(Calibration::Retry { iters: 10 }));
    assert_eq!(
        calibration_step(&config, 1, 5_000_000),
        Ok(Calibration::Done { iters: 2, runs: 100 })
    );
    assert_eq!(
        calibration_step(&config, 1, 2_000_000_000),
        Ok(Calibration::Done { iters: 1, runs: 2 })
    );
}

#[test]
fn iterations_grow_until_a_run_is_long_enough() {
    let config = Config::new();
    let data = data_set(&[b"one"]);
    // 1000 ns for each iteration: 10000 iterations take 10 ms, then tenfold.
    let mut benchmark = Fixed::new(1000);
    let counts = compute_iters_and_runs(&config, &mut benchmark, &data);
    assert_eq!(counts, Ok((100_000, 100)));
    assert_eq!(benchmark.calls, vec![1, 10, 100, 1000, 10_000]);
}

#[test]
fn iterations_start_at_the_configured_floor() {
    let config = configured("min_iters_per_run = 3\nmin_runs = 200");
    let data = data_set(&[b"one"]);
    let mut benchmark = Fixed::new(40_000_000);
    let counts = compute_iters_and_runs(&config, &mut benchmark, &data);
    assert_eq!(counts, Ok((3, 200)));
    assert_eq!(benchmark.calls, vec![3]);
}

#[test]
fn calibration_gives_up_on_a_broken_benchmark() {
    let config = Config::new();
    let data = data_set(&[b"one"]);
    let mut benchmark = Fixed::new(0);
    assert_eq!(
        compute_iters_and_runs(&config, &mut benchmark, &data),
        Err(BenchmarkError::ZeroDuration)
    );
    let mut silent = Scripted {
        metrics: vec![Metrics { uncompressed_size: None, compressed_size: None, duration: None }],
        next: 0,
    };
    assert_eq!(
        compute_iters_and_runs(&config, &mut silent, &data),
        Err(BenchmarkError::MissingDuration)
    );
    let none = configured("min_iters_per_run = 0");
    let mut benchmark = Fixed::new(1000);
    assert_eq!(
        compute_iters_and_runs(&none, &mut benchmark, &data),
        Err(BenchmarkError::ZeroIterations)
    );
    assert!(benchmark.calls.is_empty());
}

#[test]
fn byte_counts_must_agree() {
    assert_eq!(assert_opt_eq(&None, Some(3)), Err(BenchmarkError::ByteCountMismatch));
    assert_eq!(assert_opt_eq(&None, None), Ok(None));
    assert_eq!(assert_opt_eq(&Some(3), Some(3)), Ok(Some(3)));
    assert_eq!(assert_opt_eq(&Some(3), Some(4)), Err(BenchmarkError::ByteCountMismatch));
    assert_eq!(assert_opt_eq(&Some(3), None), Err(BenchmarkError::ByteCountMismatch));
}

#[test]
fn the_first_run_sets_the_byte_counts() {
    let silent = Metrics { uncompressed_size: None, compressed_size: Some(50), duration: Some(5) };
    let mut log = RunLog::new();
    assert_eq!(log.record(&silent), Ok(()));
    assert_eq!(log.uncompressed_bytes, None);
    assert_eq!(log.compressed_bytes, Some(50));
    // A later run must report none either.
    assert_eq!(log.record(&took(7)), Err(BenchmarkError::ByteCountMismatch));
    assert_eq!(log.uncompressed_bytes, None);
    assert_eq!(log.duration_ns, vec![5]);
    assert_eq!(log.record(&silent), Ok(()));
    assert_eq!(log.duration_ns, vec![5, 5]);
    let mut log = RunLog::new();
    assert_eq!(log.record(&took(5)), Ok(()));
    assert_eq!(log.record(&silent), Err(BenchmarkError::ByteCountMismatch));
    let mut more = took(5);
    more.uncompressed_size = Some(101);
    assert_eq!(log.record(&more), Err(BenchmarkError::ByteCountMismatch));
    // The uncompressed count is held against the log first, the duration last.
    more.compressed_size = None;
    more.duration = None;
    assert_eq!(log.record(&more), Err(BenchmarkError::ByteCountMismatch));
    // The first run of a log is held against nothing, but must have taken time.
    let mut log = RunLog::new();
    more.duration = None;
    assert_eq!(log.record(&more), Err(BenchmarkError::MissingDuration));
    assert!(log.duration_ns.is_empty());
}

#[test]
fn a_run_that_reports_bytes_after_one_that_did_not_ends_the_measurement() {
    let config = configured("min_runs = 2\nmin_secs = 0");
    let data = data_set(&[b"one"]);
    let mut silent = took(200_000_000);
    silent.uncompressed_size = None;
    // The first run settles the counts; the next two are measured.
    let mut benchmark =
        Scripted { metrics: vec![took(200_000_000), silent, took(200_000_000)], next: 0 };
    let result = run_benchmark(&config, &build(), "scripted", None, &mut benchmark, &data);
    assert!(matches!(result, Err(BenchmarkError::ByteCountMismatch)));
    let mut benchmark = Scripted { metrics: vec![took(200_000_000), silent, silent], next: 0 };
    let result =
        run_benchmark(&config, &build(), "scripted", None, &mut benchmark, &data).unwrap();
    assert_eq!(result.uncompressed_bytes, None);
    assert_eq!(result.compressed_bytes, Some(50));
    assert_eq!(result.runs, 2);
}

#[test]
fn settled_iterations_are_a_multiple_of_the_floor() {
    let config = configured("min_iters_per_run = 3");
    let data = data_set(&[b"one"]);
    // 1000 ns for each iteration: 30000 iterations take 30 ms, then threefold.
    let mut benchmark = Fixed::new(1000);
    let counts = compute_iters_and_runs(&config, &mut benchmark, &data);
    assert_eq!(counts, Ok((90_000, 111)));
    assert_eq!(benchmark.calls, vec![3, 30, 300, 3000, 30_000]);
    let (iters, _) = counts.unwrap();
    assert_eq!(iters % 3, 0);
}

#[test]
fn a_log_collects_the_runs() {
    let mut log = RunLog::new();
    assert_eq!(log.record(&took(5)), Ok(()));
    assert_eq!(log.record(&took(7)), Ok(()));
    assert_eq!(log.uncompressed_bytes, Some(100));
    assert_eq!(log.compressed_bytes, Some(50));
    assert_eq!(log.duration_ns, vec![5, 7]);
    let mut other = took(9);
    other.compressed_size = Some(51);
    assert_eq!(log.record(&other), Err(BenchmarkError::ByteCountMismatch));
    assert_eq!(log.duration_ns, vec![5, 7]);
    other.compressed_size = Some(50);
    other.duration = None;
    assert_eq!(log.record(&other), Err(BenchmarkError::MissingDuration));
    other.duration = Some(u64::MAX as u128 + 1);
    assert_eq!(log.record(&other), Err(BenchmarkError::Overflow));
    other.duration = Some(u64::MAX as u128);
    assert_eq!(log.record(&other), Ok(()));
    assert_eq!(log.duration_ns, vec![5, 7, u64::MAX]);
}

#[test]
fn a_new_result_names_the_build() {
    let config = configured("command_prefix = [\"nice\"]");
    let result = BenchmarkResult::new(&config, &build());
    assert_eq!(result.zstd_commit, "0123456789abcdef");
    assert_eq!(result.zstd_revision, "dev");
    assert_eq!(result.zstd_tag.as_deref(), Some("v1.4.5"));
    assert_eq!(result.zstd_branch, None);
    assert_eq!(result.zstd_commit_timestamp, 1600000000);
    assert_eq!(result.cc, "gcc");
    assert_eq!(result.cc_version, "10.2");
    assert_eq!(result.cflags, "-O3");
    assert_eq!(result.command_prefix, vec!["nice".to_string()]);
    assert_eq!(result.benchmark_name, "");
    assert_eq!(result.config_name, None);
    assert_eq!(result.data_set, "");
    assert_eq!(result.iters_per_run, 0);
    assert_eq!(result.runs, 0);
    assert_eq!(result.uncompressed_bytes, None);
    assert_eq!(result.compressed_bytes, None);
    assert_eq!(result.duration_ns.mean, 0);
}

#[test]
fn a_benchmark_is_measured_on_a_dataset() {
    let config = configured("min_runs = 4\nmin_secs = 0");
    let data = data_set(&[b"one", b"three", b"seven77"]);
    // 20 ms for each iteration on each datum: a run of one iteration takes 60 ms.
    let mut benchmark = Fixed::new(20_000_000);
    let result =
        run_benchmark(&config, &build(), "fixed", Some("fast"), &mut benchmark, &data).unwrap();
    assert_eq!(result.benchmark_name, "fixed");
    assert_eq!(result.config_name.as_deref(), Some("fast"));
    assert_eq!(result.data_set, "files");
    assert_eq!(result.zstd_revision, "dev");
    assert_eq!(result.iters_per_run, 2);
    assert_eq!(result.runs, 4);
    assert_eq!(result.uncompressed_bytes, Some(30));
    assert_eq!(result.compressed_bytes, Some(30));
    assert_eq!(result.duration_ns.mean, 120_000_000);
    assert_eq!(result.duration_ns.min, 120_000_000);
    assert_eq!(result.duration_ns.max, 120_000_000);
    assert_eq!(result.duration_ns.median, 120_000_000);
    assert_eq!(result.duration_ns.std_dev, 0);
    assert_eq!(benchmark.prepared, 3);
    assert_eq!(benchmark.released, 3);
    // One run of one iteration to calibrate, then four runs of two.
    assert_eq!(benchmark.calls, vec![1, 1, 1, 2, 2, 2, 2, 2, 2, 2, 2, 2, 2, 2, 2]);
}

#[test]
fn runs_that_disagree_end_the_measurement() {
    let config = configured("min_runs = 3\nmin_secs = 0");
    let data = data_set(&[b"one"]);
    let mut different = took(200_000_000);
    different.uncompressed_size = Some(101);
    let mut benchmark =
        Scripted { metrics: vec![took(200_000_000), took(200_000_000), different], next: 0 };
    let result = run_benchmark(&config, &build(), "scripted", None, &mut benchmark, &data);
    assert!(matches!(result, Err(BenchmarkError::ByteCountMismatch)));
}

#[test]
fn the_durations_of_the_runs_are_summarized() {
    let config = configured("min_runs = 3\nmin_secs = 0");
    let data = data_set(&[b"one"]);
    let mut benchmark = Scripted {
        metrics: vec![took(100_000_000), took(300_000_000), took(100_000_000), took(200_000_000)],
        next: 0,
    };
    let result =
        run_benchmark(&config, &build(), "scripted", None, &mut benchmark, &data).unwrap();
    assert_eq!(result.config_name, None);
    assert_eq!(result.iters_per_run, 1);
    assert_eq!(result.runs, 3);
    assert_eq!(result.duration_ns.min, 100_000_000);
    assert_eq!(result.duration_ns.max, 300_000_000);
    assert_eq!(result.duration_ns.mean, 200_000_000);
    assert_eq!(result.duration_ns.median, 200_000_000);
    assert_eq!(result.duration_ns.std_dev, 81_649_658);
}

#[test]
fn the_default_run_adds_up_the_data() {
    let data = data_set(&[b"one", b"three"]);
    let mut benchmark = Fixed::new(5);
    let metrics = benchmark.run_data_set(&data, 2).unwrap();
    assert_eq!(metrics.uncompressed_size, Some(16));
    assert_eq!(metrics.compressed_size, Some(20));
    assert_eq!(metrics.duration, Some(20));
    benchmark.bytes = None;
    let metrics = benchmark.run_data_set(&data, 2).unwrap();
    assert_eq!(metrics.compressed_size, None);
    assert_eq!(metrics.duration, Some(20));
    benchmark.bytes = Some(u64::MAX);
    assert!(matches!(benchmark.run_data_set(&data, 2), Err(BenchmarkError::Overflow)));
}
