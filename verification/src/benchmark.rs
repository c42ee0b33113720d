//! Measurable operations, the calibration of their iteration and run counts,
//! and the result of measuring one of them on one dataset.

use crate::config::{BenchmarkConfig, Config, ConfigView};
use crate::dataset::{DataSet, Datum};
use crate::metrics::Metrics;
use crate::statistic::Statistic;
use vstd::prelude::*;

verus! {

/// Why a measurement was given up. None of these is recovered from.
#[derive(Clone, Copy, Debug, PartialEq, Eq, Structural)]
pub enum BenchmarkError {
    /// A run reported no duration.
    MissingDuration,
    /// A run took no time at all.
    ZeroDuration,
    /// The configured least number of iterations is zero.
    ZeroIterations,
    /// A count or a duration does not fit its type.
    Overflow,
    /// Two runs of the same benchmark on the same dataset disagree on a
    /// number of bytes.
    ByteCountMismatch,
    /// The compression library reported an error.
    Codec,
    /// No block of the dataset falls into the configured bucket.
    EmptyBucket,
    /// A parameter of the benchmark has the wrong type.
    InvalidParameter,
}

/// A measurable operation. The hooks for a dataset visit every datum unless
/// an operation overrides them; an operation overrides `run_datum`, or
/// `run_data_set` where it needs state across the data.
pub trait Benchmark {
    /// Prepares the operation for a dataset.
    fn initialize_data_set(&mut self, data_set: &DataSet) -> Result<(), BenchmarkError> {
        let data = data_set.data();
        let mut i: usize = 0;
        while i < data.len()
            invariant
                i <= data@.len(),
            decreases data@.len() - i,
        {
            self.initialize_datum(&data[i])?;
            i = i + 1;
        }
        Ok(())
    }

    /// Releases what was prepared for a dataset.
    fn finalize_data_set(&mut self, data_set: &DataSet) -> Result<(), BenchmarkError> {
        let data = data_set.data();
        let mut i: usize = 0;
        while i < data.len()
            invariant
                i <= data@.len(),
            decreases data@.len() - i,
        {
            self.finalize_datum(&data[i])?;
            i = i + 1;
        }
        Ok(())
    }

    /// Prepares the operation for one datum. Unless an operation overrides
    /// it, nothing is done.
    fn initialize_datum(&mut self, _datum: &Datum) -> (done: Result<(), BenchmarkError>)
        default_ensures
            done is Ok,
            &*final(self) == &*old(self),
    {
        Ok(())
    }

    /// Releases what was prepared for one datum. Unless an operation
    /// overrides it, nothing is done.
    fn finalize_datum(&mut self, _datum: &Datum) -> (done: Result<(), BenchmarkError>)
        default_ensures
            done is Ok,
            &*final(self) == &*old(self),
    {
        Ok(())
    }

    /// Runs the operation `iters` times on every datum and adds up what the
    /// runs measured.
    /// Unless an operation overrides it, the result is the sum of what
    /// `run_datum` gave for each datum, in the order of the data: the first
    /// failure of `run_datum` ends the run, and so does a sum that does not
    /// fit.
    fn run_data_set(&mut self, data_set: &DataSet, iters: u64) -> (metrics: Result<
        Metrics,
        BenchmarkError,
    >)
    {
        let data = data_set.data();
        let mut total = Metrics::zero();
        let mut i: usize = 0;
        while i < data.len()
            invariant
                i <= data@.len(),
            decreases data@.len() - i,
        {
            let metrics = self.run_datum(&data[i], iters)?;
            total = match total.checked_add(metrics) {
                Some(sum) => sum,
                None => {
                    return Err(BenchmarkError::Overflow);
                },
            };
            i = i + 1;
        }
        Ok(total)
    }

    /// Runs the operation `iters` times on one datum. Unless an operation
    /// overrides it, nothing is run and nothing is measured.
    fn run_datum(&mut self, _datum: &Datum, _iters: u64) -> (metrics: Result<
        Metrics,
        BenchmarkError,
    >)
        default_ensures
            metrics == Ok::<Metrics, BenchmarkError>(
                Metrics { uncompressed_size: None, compressed_size: None, duration: None },
            ),
            &*final(self) == &*old(self),
    {
        Ok(Metrics::default())
    }
}

/// A measurable operation that has a name and is made from a configuration.
pub trait ConfigurableBenchmark: Benchmark + Sized {
    fn name() -> String;

    fn from_config(config: &BenchmarkConfig) -> Result<Self, BenchmarkError>;
}

/// The target duration of one run, in nanoseconds.
pub open spec fn target_run_nanos(config: ConfigView) -> nat {
    config.min_ms_or_default() as nat * 1_000_000
}

/// The target duration of all runs together, in nanoseconds.
pub open spec fn target_total_nanos(config: ConfigView) -> nat {
    config.min_secs_or_default() as nat * 1_000_000_000
}

/// What one step of the calibration decides.
#[derive(Clone, Copy, Debug, PartialEq, Eq, Structural)]
pub enum Calibration {
    /// The run was far too short: measure again with this many iterations.
    Retry { iters: u64 },
    /// The counts are settled.
    Done { iters: u64, runs: u64 },
}

/// By how much the iterations of a run of `duration` nanoseconds are
/// multiplied to reach the target `run`: the whole quotient, but at least 2,
/// for a run that is shorter than the target, and 1 otherwise.
pub open spec fn multiplier(run: nat, duration: nat) -> nat {
    if duration < run {
        if run / duration < 2 {
            2
        } else {
            run / duration
        }
    } else {
        1
    }
}

/// How many runs of `duration` nanoseconds fill the target `total`: the whole
/// quotient for a run shorter than the target, 1 otherwise, and in no case
/// fewer than `min_runs`.
pub open spec fn runs_for(total: nat, duration: nat, min_runs: nat) -> nat {
    let runs = if duration < total {
        total / duration
    } else {
        1
    };
    if runs < min_runs {
        min_runs
    } else {
        runs
    }
}

/// What the calibration decides after a run of `iters` iterations took
/// `duration` nanoseconds.
pub open spec fn calibrated(config: ConfigView, iters: u64, duration: u128) -> Result<
    Calibration,
    BenchmarkError,
> {
    let run = target_run_nanos(config);
    let total = target_total_nanos(config);
    if iters == 0 {
        Err(BenchmarkError::ZeroIterations)
    } else if duration == 0 {
        Err(BenchmarkError::ZeroDuration)
    } else if duration < run / 10 {
        if iters * 10 > u64::MAX {
            Err(BenchmarkError::Overflow)
        } else {
            Ok(Calibration::Retry { iters: (iters * 10) as u64 })
        }
    } else {
        let by = multiplier(run, duration as nat);
        let runs = runs_for(total, duration as nat * by, config.min_runs_or_default() as nat);
        if iters * by > u64::MAX || runs > u64::MAX {
            Err(BenchmarkError::Overflow)
        } else {
            Ok(Calibration::Done { iters: (iters * by) as u64, runs: runs as u64 })
        }
    }
}

/// The multiplier of a run that is at least a tenth of the target is small.
proof fn lemma_multiplier_bound(run: nat, duration: nat)
    requires
        duration > 0,
        duration >= run / 10,
    ensures
        1 <= multiplier(run, duration) <= 20,
        duration * multiplier(run, duration) <= 2 * run + duration,
{
    if duration < run {
        let q = run / duration;
        assert(q * duration <= run && q <= 20 && q >= 1) by (nonlinear_arith)
            requires
                q == run / duration,
                duration > 0,
                duration < run,
                duration >= run / 10,
        ;
        if q < 2 {
            assert(multiplier(run, duration) == 2);
            assert(duration * 2 <= 2 * run + duration);
        } else {
            assert(multiplier(run, duration) == q);
            assert(duration * q == q * duration) by (nonlinear_arith);
        }
    } else {
        assert(multiplier(run, duration) == 1);
        assert(duration * 1 == duration);
    }
}

/// The runs that fill a target are at least one and at least the configured
/// number.
proof fn lemma_runs_bound(total: nat, duration: nat, min_runs: nat)
    requires
        duration > 0,
    ensures
        runs_for(total, duration, min_runs) >= 1,
        runs_for(total, duration, min_runs) >= min_runs,
        runs_for(total, duration, min_runs) <= total + min_runs + 1,
{
    if duration < total {
        assert(1 <= total / duration <= total) by (nonlinear_arith)
            requires
                0 < duration < total,
        ;
    }
}

/// What the calibration decides after a run of `iters` iterations took
/// `duration` nanoseconds.
pub fn calibration_step(config: &Config, iters: u64, duration: u128) -> (step: Result<
    Calibration,
    BenchmarkError,
>)
    ensures
        step == calibrated(config@, iters, duration),
{
    let run: u128 = config.min_ms_per_run() as u128 * 1_000_000;
    let total: u128 = config.min_secs() as u128 * 1_000_000_000;
    if iters == 0 {
        return Err(BenchmarkError::ZeroIterations);
    }
    if duration == 0 {
        return Err(BenchmarkError::ZeroDuration);
    }
    if duration < run / 10 {
        return match iters.checked_mul(10) {
            Some(more) => Ok(Calibration::Retry { iters: more }),
            None => Err(BenchmarkError::Overflow),
        };
    }
    proof {
        lemma_multiplier_bound(run as nat, duration as nat);
    }
    let by: u128 = if duration < run {
        let quotient: u128 = run / duration;
        if quotient < 2 {
            2
        } else {
            quotient
        }
    } else {
        1
    };
    assert(by == multiplier(run as nat, duration as nat));
    let scaled: u128 = duration * by;
    proof {
        assert(scaled >= 1) by (nonlinear_arith)
            requires
                scaled == duration * by,
                duration >= 1,
                by >= 1,
        ;
        lemma_runs_bound(total as nat, scaled as nat, config@.min_runs_or_default() as nat);
    }
    let filling: u128 = if scaled < total {
        total / scaled
    } else {
        1
    };
    let runs: u128 = if filling < config.min_runs() as u128 {
        config.min_runs() as u128
    } else {
        filling
    };
    let more = iters.checked_mul(by as u64);
    if more.is_none() || runs > u64::MAX as u128 {
        return Err(BenchmarkError::Overflow);
    }
    Ok(Calibration::Done { iters: more.unwrap(), runs: runs as u64 })
}

/// A run that is shorter than a tenth of the target run duration is never
/// accepted: the iterations grow tenfold, or do not fit.
pub proof fn lemma_short_run_grows_tenfold(config: ConfigView, iters: u64, duration: u128)
    requires
        iters > 0,
        0 < duration < target_run_nanos(config) / 10,
    ensures
        !(calibrated(config, iters, duration) matches Ok(Calibration::Done { .. })),
        calibrated(config, iters, duration) matches Ok(Calibration::Retry { iters: more })
            ==> more == 10 * iters,
        calibrated(config, iters, duration) is Ok <==> 10 * iters <= u64::MAX,
{
}

/// A run that alone takes the target total duration is measured once, or as
/// often as the configuration asks for at least.
pub proof fn lemma_long_run_runs_once(config: ConfigView, iters: u64, duration: u128)
    requires
        duration >= target_total_nanos(config),
        calibrated(config, iters, duration) matches Ok(Calibration::Done { .. }),
    ensures
        calibrated(config, iters, duration) matches Ok(Calibration::Done { runs, .. }) && runs == (
        if config.min_runs_or_default() < 1 {
            1
        } else {
            config.min_runs_or_default()
        }),
{
    let run = target_run_nanos(config);
    let by = multiplier(run, duration as nat);
    lemma_multiplier_bound(run, duration as nat);
    assert(duration * by >= duration) by (nonlinear_arith)
        requires
            by >= 1,
            duration >= 0,
    ;
}

/// The settled counts respect the configured floors: the iterations are not
/// fewer than those of the measured run, and the runs are at least one and at
/// least the configured number.
pub proof fn lemma_calibration_floors(config: ConfigView, iters: u64, duration: u128)
    requires
        calibrated(config, iters, duration) matches Ok(Calibration::Done { .. }),
    ensures
        calibrated(config, iters, duration) matches Ok(Calibration::Done { iters: settled, runs })
            && settled >= iters && settled >= 1 && runs >= 1 && runs
            >= config.min_runs_or_default(),
        calibrated(config, iters, duration) matches Ok(Calibration::Retry { iters: more }) ==> more
            > iters,
{
    let run = target_run_nanos(config);
    let total = target_total_nanos(config);
    let by = multiplier(run, duration as nat);
    lemma_multiplier_bound(run, duration as nat);
    assert(duration * by >= 1) by (nonlinear_arith)
        requires
            by >= 1,
            duration >= 1,
    ;
    lemma_runs_bound(total, duration as nat * by, config.min_runs_or_default() as nat);
    assert(iters * by >= iters) by (nonlinear_arith)
        requires
            by >= 1,
            iters >= 0,
    ;
}

/// Ten to the power of `k`.
pub open spec fn pow10(k: nat) -> nat
    decreases k,
{
    if k == 0 {
        1
    } else {
        10 * pow10((k - 1) as nat)
    }
}

/// The iterations of the run that follows `retries` runs that were far too
/// short: the floor, ten times over for each of them.
pub open spec fn ramped(floor: u64, retries: nat) -> nat {
    floor as nat * pow10(retries)
}

/// A run of `from` iterations can be far too short: the calibration then
/// asks for a run of ten times as many.
pub open spec fn retried(config: ConfigView, from: nat) -> bool {
    exists|duration: u128|
        from * 10 <= u64::MAX && #[trigger] calibrated(config, from as u64, duration) == Ok::<
            Calibration,
            BenchmarkError,
        >(Calibration::Retry { iters: (from * 10) as u64 })
}

/// The counts are what the calibration settles: the first run is at the
/// floor of the configuration, each run that is far too short is followed by
/// one of ten times the iterations, and a step of the calibration settles
/// the counts after the last of them.
pub open spec fn settled(config: ConfigView, iters: u64, runs: u64) -> bool {
    exists|retries: nat, from: u64, duration: u128|
        #![trigger ramped(config.min_iters_or_default(), retries), calibrated(config, from, duration)]
        {
            &&& from == ramped(config.min_iters_or_default(), retries)
            &&& forall|earlier: nat|
                earlier < retries ==> retried(
                    config,
                    #[trigger] ramped(config.min_iters_or_default(), earlier),
                )
            &&& calibrated(config, from, duration) == Ok::<Calibration, BenchmarkError>(
                Calibration::Done { iters, runs },
            )
        }
}

/// Settled iterations are a multiple of the floor of the configuration, and
/// the settled counts respect the floors.
pub proof fn lemma_settled_counts(config: ConfigView, iters: u64, runs: u64)
    requires
        settled(config, iters, runs),
    ensures
        config.min_iters_or_default() >= 1,
        iters >= config.min_iters_or_default(),
        iters % config.min_iters_or_default() == 0,
        runs >= 1,
        runs >= config.min_runs_or_default(),
{
    let floor = config.min_iters_or_default();
    let (retries, from, duration) = choose|retries: nat, from: u64, duration: u128|
        #![trigger ramped(config.min_iters_or_default(), retries), calibrated(config, from, duration)]
        {
            &&& from == ramped(config.min_iters_or_default(), retries)
            &&& forall|earlier: nat|
                earlier < retries ==> retried(
                    config,
                    #[trigger] ramped(config.min_iters_or_default(), earlier),
                )
            &&& calibrated(config, from, duration) == Ok::<Calibration, BenchmarkError>(
                Calibration::Done { iters, runs },
            )
        };
    lemma_calibration_floors(config, from, duration);
    let by = multiplier(target_run_nanos(config), duration as nat);
    let power = pow10(retries);
    assert(iters == from * by);
    assert(from == floor * power);
    assert(floor >= 1) by {
        if floor == 0 {
            assert(floor * power == 0) by (nonlinear_arith)
                requires
                    floor == 0,
            ;
        }
    }
    assert(from >= floor) by (nonlinear_arith)
        requires
            from == floor * power,
            from >= 1,
            floor >= 1,
    ;
    assert(iters == floor * (power * by)) by (nonlinear_arith)
        requires
            iters == from * by,
            from == floor * power,
    ;
    vstd::arithmetic::div_mod::lemma_mod_multiples_basic((power * by) as int, floor as int);
    assert((power * by) * floor == floor * (power * by)) by (nonlinear_arith);
}

/// Finds the iterations of a run and the number of runs for one benchmark on
/// one dataset. It measures a run at the floor of the configuration and lets
/// `calibration_step` decide; after a run that was far too short it measures
/// again with ten times the iterations, until the counts are settled.
pub fn compute_iters_and_runs<B: Benchmark>(
    config: &Config,
    benchmark: &mut B,
    data_set: &DataSet,
) -> (counts: Result<(u64, u64), BenchmarkError>)
    ensures
        counts matches Ok((iters, runs)) ==> {
            &&& settled(config@, iters, runs)
            &&& iters >= config@.min_iters_or_default()
            &&& iters >= 1
            &&& iters % config@.min_iters_or_default() == 0
            &&& runs >= 1
            &&& runs >= config@.min_runs_or_default()
        },
        config@.min_iters_or_default() == 0 ==> counts == Err::<(u64, u64), BenchmarkError>(
            BenchmarkError::ZeroIterations,
        ),
{
    let mut iters: u64 = config.min_iters_per_run();
    if iters == 0 {
        return Err(BenchmarkError::ZeroIterations);
    }
    let ghost floor = config@.min_iters_or_default();
    let ghost mut retries: nat = 0;
    assert(ramped(floor, 0) == floor) by (nonlinear_arith)
        requires
            ramped(floor, 0) == floor * 1,
    ;
    loop
        invariant
            floor == config@.min_iters_or_default(),
            floor != 0,
            iters >= 1,
            iters == ramped(floor, retries),
            forall|earlier: nat|
                earlier < retries ==> retried(config@, #[trigger] ramped(floor, earlier)),
        decreases u64::MAX - iters,
    {
        let metrics = benchmark.run_data_set(data_set, iters)?;
        let duration = match metrics.duration {
            Some(duration) => duration,
            None => {
                return Err(BenchmarkError::MissingDuration);
            },
        };
        proof {
            if calibrated(config@, iters, duration) matches Ok(Calibration::Done { .. }) {
                lemma_calibration_floors(config@, iters, duration);
            }
        }
        match calibration_step(config, iters, duration)? {
            Calibration::Retry { iters: more } => {
                proof {
                    assert(retried(config@, ramped(floor, retries)));
                    assert(ramped(floor, retries + 1) == ramped(floor, retries) * 10)
                        by (nonlinear_arith)
                        requires
                            ramped(floor, retries + 1) == floor * (10 * pow10(retries)),
                            ramped(floor, retries) == floor * pow10(retries),
                    ;
                    retries = retries + 1;
                }
                iters = more;
            },
            Calibration::Done { iters: settled_iters, runs } => {
                proof {
                    assert(settled(config@, settled_iters, runs));
                    lemma_settled_counts(config@, settled_iters, runs);
                }
                return Ok((settled_iters, runs));
            },
        }
    }
}

/// What this run and the runs before it agree on: this run must report the
/// number of bytes that the runs before it reported, and none where they
/// reported none.
pub open spec fn agreed(prev: Option<u64>, curr: Option<u64>) -> Result<Option<u64>, BenchmarkError> {
    if curr == prev {
        Ok(curr)
    } else {
        Err(BenchmarkError::ByteCountMismatch)
    }
}

/// Holds a number of bytes of this run against that of the runs before.
pub fn assert_opt_eq(prev: &Option<u64>, curr: Option<u64>) -> (kept: Result<
    Option<u64>,
    BenchmarkError,
>)
    ensures
        kept == agreed(*prev, curr),
{
    match (prev, curr) {
        (Some(p), Some(c)) => {
            if c != *p {
                return Err(BenchmarkError::ByteCountMismatch);
            }
        },
        (None, None) => {},
        _ => {
            return Err(BenchmarkError::ByteCountMismatch);
        },
    }
    Ok(curr)
}

/// The duration of a run as a sample: it must be present and fit 64 bits.
pub open spec fn sample_of(duration: Option<u128>) -> Result<u64, BenchmarkError> {
    match duration {
        None => Err(BenchmarkError::MissingDuration),
        Some(d) => if d > u64::MAX {
            Err(BenchmarkError::Overflow)
        } else {
            Ok(d as u64)
        },
    }
}

/// What the runs of one benchmark on one dataset measured so far.
pub struct RunLog {
    /// The number of uncompressed bytes that the runs agree on.
    pub uncompressed_bytes: Option<u64>,
    /// The number of compressed bytes that the runs agree on.
    pub compressed_bytes: Option<u64>,
    /// The duration of each run, in nanoseconds.
    pub duration_ns: Vec<u64>,
}

/// What a log holds.
pub struct RunLogView {
    pub uncompressed_bytes: Option<u64>,
    pub compressed_bytes: Option<u64>,
    pub duration_ns: Seq<u64>,
}

impl View for RunLog {
    type V = RunLogView;

    open spec fn view(&self) -> RunLogView {
        RunLogView {
            uncompressed_bytes: self.uncompressed_bytes,
            compressed_bytes: self.compressed_bytes,
            duration_ns: self.duration_ns@,
        }
    }
}

/// The log after one more run. The first run sets the byte counts; each
/// later run must agree with them, the uncompressed count first. The
/// duration must be a sample.
pub open spec fn recorded(log: RunLogView, metrics: Metrics) -> Result<RunLogView, BenchmarkError> {
    let uncompressed = if log.duration_ns.len() == 0 {
        Ok(metrics.uncompressed_size)
    } else {
        agreed(log.uncompressed_bytes, metrics.uncompressed_size)
    };
    let compressed = if log.duration_ns.len() == 0 {
        Ok(metrics.compressed_size)
    } else {
        agreed(log.compressed_bytes, metrics.compressed_size)
    };
    match uncompressed {
        Err(e) => Err(e),
        Ok(uncompressed_bytes) => match compressed {
            Err(e) => Err(e),
            Ok(compressed_bytes) => match sample_of(metrics.duration) {
                Err(e) => Err(e),
                Ok(sample) => Ok(
                    RunLogView {
                        uncompressed_bytes,
                        compressed_bytes,
                        duration_ns: log.duration_ns.push(sample),
                    },
                ),
            },
        },
    }
}

/// The log of runs, one after the other, from the log of no run. The first
/// run that does not fit the runs before it fails the log.
pub open spec fn logged(runs: Seq<Metrics>) -> Result<RunLogView, BenchmarkError>
    decreases runs.len(),
{
    if runs.len() == 0 {
        Ok(RunLogView { uncompressed_bytes: None, compressed_bytes: None, duration_ns: Seq::empty() })
    } else {
        match logged(runs.drop_last()) {
            Ok(log) => recorded(log, runs.last()),
            Err(e) => Err(e),
        }
    }
}

/// Every run of a log reported the byte counts of the log: no two runs
/// differ in them. The log holds one duration for each run.
pub proof fn lemma_logged_runs_agree(runs: Seq<Metrics>)
    ensures
        logged(runs) matches Ok(log) ==> {
            &&& log.duration_ns.len() == runs.len()
            &&& forall|i: int|
                0 <= i < runs.len() ==> (#[trigger] runs[i]).uncompressed_size
                    == log.uncompressed_bytes && runs[i].compressed_size == log.compressed_bytes
            &&& forall|i: int|
                0 <= i < runs.len() ==> sample_of((#[trigger] runs[i]).duration) == Ok::<
                    u64,
                    BenchmarkError,
                >(log.duration_ns[i])
        },
    decreases runs.len(),
{
    if runs.len() > 0 {
        lemma_logged_runs_agree(runs.drop_last());
        if logged(runs) is Ok {
            let log = logged(runs)->Ok_0;
            assert forall|i: int| 0 <= i < runs.len() implies (#[trigger] runs[i]).uncompressed_size
                == log.uncompressed_bytes && runs[i].compressed_size == log.compressed_bytes
                && sample_of(runs[i].duration) == Ok::<u64, BenchmarkError>(log.duration_ns[i]) by {
                if i < runs.len() - 1 {
                    assert(runs[i] == runs.drop_last()[i]);
                }
            }
        }
    }
}

impl RunLog {
    /// The log of no run.
    pub fn new() -> (log: RunLog)
        ensures
            log@ == (RunLogView {
                uncompressed_bytes: None,
                compressed_bytes: None,
                duration_ns: Seq::empty(),
            }),
    {
        RunLog { uncompressed_bytes: None, compressed_bytes: None, duration_ns: Vec::new() }
    }

    /// Adds what one run measured. The first run sets the byte counts, and a
    /// later run that reports other counts is refused. The log is unchanged
    /// where the run does not fit it.
    pub fn record(&mut self, metrics: &Metrics) -> (done: Result<(), BenchmarkError>)
        ensures
            match done {
                Ok(_) => recorded(old(self)@, *metrics) == Ok::<RunLogView, BenchmarkError>(
                    final(self)@,
                ),
                Err(e) => recorded(old(self)@, *metrics) == Err::<RunLogView, BenchmarkError>(e)
                    && final(self)@ == old(self)@,
            },
    {
        if self.duration_ns.len() > 0 {
            assert_opt_eq(&self.uncompressed_bytes, metrics.uncompressed_size)?;
            assert_opt_eq(&self.compressed_bytes, metrics.compressed_size)?;
        }
        let sample: u64 = match metrics.duration {
            None => {
                return Err(BenchmarkError::MissingDuration);
            },
            Some(d) => {
                if d > u64::MAX as u128 {
                    return Err(BenchmarkError::Overflow);
                }
                d as u64
            },
        };
        self.uncompressed_bytes = metrics.uncompressed_size;
        self.compressed_bytes = metrics.compressed_size;
        self.duration_ns.push(sample);
        Ok(())
    }
}

/// Where a measured library comes from and how it was built.
pub struct BuildInfo {
    pub zstd_commit: String,
    pub zstd_revision: String,
    pub zstd_tag: Option<String>,
    pub zstd_branch: Option<String>,
    pub zstd_commit_timestamp: i64,
    pub cc: String,
    pub cc_version: String,
    pub cflags: String,
}

/// One measurement: which build was measured, with which benchmark on which
/// dataset, how often, and what came of it.
pub struct BenchmarkResult {
    pub zstd_commit: String,
    pub zstd_revision: String,
    pub zstd_tag: Option<String>,
    pub zstd_branch: Option<String>,
    pub zstd_commit_timestamp: i64,
    pub cc: String,
    pub cc_version: String,
    pub cflags: String,
    pub command_prefix: Vec<String>,
    pub benchmark_name: String,
    pub config_name: Option<String>,
    pub data_set: String,
    pub iters_per_run: u64,
    pub runs: u64,
    pub uncompressed_bytes: Option<u64>,
    pub compressed_bytes: Option<u64>,
    pub duration_ns: Statistic,
}

/// A copy of an optional text.
pub fn clone_opt(text: &Option<String>) -> (copy: Option<String>)
    ensures
        copy == *text,
{
    match text {
        Some(s) => Some(s.clone()),
        None => None,
    }
}

/// A copy of a list of texts.
pub fn clone_all(texts: &[String]) -> (copy: Vec<String>)
    ensures
        copy@ == texts@,
{
    let mut copy: Vec<String> = Vec::new();
    let mut i: usize = 0;
    while i < texts.len()
        invariant
            i <= texts@.len(),
            copy@ == texts@.take(i as int),
        decreases texts@.len() - i,
    {
        copy.push(texts[i].clone());
        assert(copy@ =~= texts@.take(i + 1));
        i = i + 1;
    }
    assert(texts@.take(texts@.len() as int) =~= texts@);
    copy
}

impl BenchmarkResult {
    /// `self` names the build `build`.
    pub open spec fn built_as(self, build: BuildInfo) -> bool {
        &&& self.zstd_commit == build.zstd_commit
        &&& self.zstd_revision == build.zstd_revision
        &&& self.zstd_tag == build.zstd_tag
        &&& self.zstd_branch == build.zstd_branch
        &&& self.zstd_commit_timestamp == build.zstd_commit_timestamp
        &&& self.cc == build.cc
        &&& self.cc_version == build.cc_version
        &&& self.cflags == build.cflags
    }

    /// `self` says nothing of a benchmark yet.
    pub open spec fn blank(self) -> bool {
        &&& self.benchmark_name@.len() == 0
        &&& self.config_name is None
        &&& self.data_set@.len() == 0
        &&& self.iters_per_run == 0
        &&& self.runs == 0
        &&& self.uncompressed_bytes is None
        &&& self.compressed_bytes is None
        &&& self.duration_ns == (Statistic { min: 0, max: 0, mean: 0, median: 0, std_dev: 0 })
    }

    /// A result that names the build and the command prefix of the
    /// configuration, and nothing else yet.
    pub fn new(config: &Config, build: &BuildInfo) -> (result: BenchmarkResult)
        ensures
            result.built_as(*build),
            result.command_prefix@ == config@.command_prefix,
            result.blank(),
    {
        BenchmarkResult {
            zstd_commit: build.zstd_commit.clone(),
            zstd_revision: build.zstd_revision.clone(),
            zstd_tag: clone_opt(&build.zstd_tag),
            zstd_branch: clone_opt(&build.zstd_branch),
            zstd_commit_timestamp: build.zstd_commit_timestamp,
            cc: build.cc.clone(),
            cc_version: build.cc_version.clone(),
            cflags: build.cflags.clone(),
            command_prefix: clone_all(config.command_prefix()),
            benchmark_name: String::new(),
            config_name: None,
            data_set: String::new(),
            iters_per_run: 0,
            runs: 0,
            uncompressed_bytes: None,
            compressed_bytes: None,
            duration_ns: Statistic::default(),
        }
    }

    /// `self` is what the runs in `log` give for the named benchmark on the
    /// named dataset.
    pub open spec fn reports(
        self,
        benchmark_name: Seq<char>,
        config_name: Option<Seq<char>>,
        data_set: Seq<char>,
        log: RunLogView,
    ) -> bool {
        &&& self.benchmark_name@ == benchmark_name
        &&& match config_name {
            Some(name) => self.config_name is Some && self.config_name->0@ == name,
            None => self.config_name is None,
        }
        &&& self.data_set@ == data_set
        &&& self.runs == log.duration_ns.len()
        &&& self.uncompressed_bytes == log.uncompressed_bytes
        &&& self.compressed_bytes == log.compressed_bytes
        &&& self.duration_ns.summarizes(log.duration_ns)
    }

    /// `self` is what `runs` give, one after the other, for the named
    /// benchmark on the named dataset: the runs agree on the byte counts,
    /// and the durations are summarized.
    pub open spec fn measures(
        self,
        benchmark_name: Seq<char>,
        config_name: Option<Seq<char>>,
        data_set: Seq<char>,
        runs: Seq<Metrics>,
    ) -> bool {
        logged(runs) matches Ok(log) && self.reports(benchmark_name, config_name, data_set, log)
    }
}

/// The characters of an optional text.
pub open spec fn optional_text(text: Option<&str>) -> Option<Seq<char>> {
    match text {
        Some(t) => Some(t@),
        None => None,
    }
}

/// Measures one benchmark on one dataset: prepares the benchmark, settles the
/// counts, runs the settled number of runs, and releases the benchmark. The
/// first failure ends the measurement. The result names the build, the
/// benchmark and the dataset; its counts are what a step of the calibration
/// settled; and it is what that many runs give.
pub fn run_benchmark<B: Benchmark>(
    config: &Config,
    build: &BuildInfo,
    benchmark_name: &str,
    config_name: Option<&str>,
    benchmark: &mut B,
    data_set: &DataSet,
) -> (measured: Result<BenchmarkResult, BenchmarkError>)
    ensures
        measured matches Ok(result) ==> {
            &&& result.built_as(*build)
            &&& result.command_prefix@ == config@.command_prefix
            &&& result.iters_per_run >= config@.min_iters_or_default()
            &&& result.iters_per_run >= 1
            &&& result.runs >= 1
            &&& result.runs >= config@.min_runs_or_default()
            &&& result.iters_per_run % config@.min_iters_or_default() == 0
            &&& settled(config@, result.iters_per_run, result.runs)
            &&& exists|runs: Seq<Metrics>|
                runs.len() == result.runs && #[trigger] result.measures(
                    benchmark_name@,
                    optional_text(config_name),
                    data_set.spec_name(),
                    runs,
                )
        },
        config@.min_iters_or_default() == 0 ==> measured is Err,
{
    let mut result = BenchmarkResult::new(config, build);
    result.benchmark_name = benchmark_name.to_owned();
    result.config_name =
    match config_name {
        Some(name) => Some(name.to_owned()),
        None => None,
    };
    result.data_set = data_set.name().to_owned();
    benchmark.initialize_data_set(data_set)?;
    let (iters, runs) = compute_iters_and_runs(config, benchmark, data_set)?;
    result.iters_per_run = iters;
    result.runs = runs;
    let mut log = RunLog::new();
    let ghost mut measured: Seq<Metrics> = Seq::empty();
    let mut run: u64 = 0;
    while run < runs
        invariant
            run <= runs,
            log@.duration_ns.len() == run,
            measured.len() == run,
            logged(measured) == Ok::<RunLogView, BenchmarkError>(log@),
        decreases runs - run,
    {
        let metrics = benchmark.run_data_set(data_set, iters)?;
        log.record(&metrics)?;
        proof {
            assert(measured.push(metrics).drop_last() =~= measured);
            measured = measured.push(metrics);
        }
        run = run + 1;
    }
    result.uncompressed_bytes = log.uncompressed_bytes;
    result.compressed_bytes = log.compressed_bytes;
    result.duration_ns = Statistic::compute(log.duration_ns.as_slice());
    benchmark.finalize_data_set(data_set)?;
    assert(result.measures(
        benchmark_name@,
        optional_text(config_name),
        data_set.spec_name(),
        measured,
    ));
    Ok(result)
}

} // verus!
