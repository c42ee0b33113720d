//! The benchmarks that there are, by their name.

pub mod compress;
pub mod literals;

use crate::benchmark::{Benchmark, BenchmarkError, ConfigurableBenchmark};
use crate::benchmarks::compress::CompressBenchmark;
use crate::benchmarks::literals::{CompressLiteralsBenchmark, DecompressLiteralsBenchmark};
use crate::config::{BenchmarkConfig, BenchmarkConfigView, Parameter};
use crate::entries::lookup;
use crate::dataset::{DataSet, Datum};
use crate::metrics::Metrics;
use crate::session::BenchmarkFactory;
use crate::text::same_text;
use crate::zstd::Zstd;
use vstd::prelude::*;
use vstd::string::*;

verus! {

/// The integer of a parameter that is one.
pub open spec fn integer_of(parameter: Parameter) -> Option<i64> {
    match parameter {
        Parameter::Integer(i) => Some(i),
        _ => None,
    }
}

/// The number of 32 bits under a key of a configuration, where the key is
/// there. A parameter that is no integer, or whose integer does not fit, is
/// refused.
pub open spec fn number_of(config: BenchmarkConfigView, key: Seq<char>) -> Result<
    Option<i32>,
    BenchmarkError,
> {
    match lookup(config.parameters, key) {
        None => Ok(None),
        Some(parameter) => match narrowed(integer_of(parameter)) {
            Ok(n) => Ok(Some(n)),
            Err(e) => Err(e),
        },
    }
}

/// The compression level of a configuration: that of the parameter
/// `ZSTD_c_compressionLevel`, and 0 where there is none.
pub open spec fn level_of(config: BenchmarkConfigView) -> Result<i32, BenchmarkError> {
    match number_of(config, "ZSTD_c_compressionLevel"@) {
        Ok(Some(level)) => Ok(level),
        Ok(None) => Ok(0),
        Err(e) => Err(e),
    }
}

/// The number of 32 bits under a key of a configuration.
pub fn number_parameter(config: &BenchmarkConfig, key: &str) -> (number: Result<
    Option<i32>,
    BenchmarkError,
>)
    ensures
        number == number_of(config@, key@),
{
    match config.get_parameter(key) {
        None => Ok(None),
        Some(parameter) => Ok(Some(narrow(parameter.as_integer())?)),
    }
}

/// The compression level of a configuration.
pub fn compression_level(config: &BenchmarkConfig) -> (level: Result<i32, BenchmarkError>)
    ensures
        level == level_of(config@),
{
    match number_parameter(config, "ZSTD_c_compressionLevel")? {
        Some(level) => Ok(level),
        None => Ok(0),
    }
}

/// An integer of a configuration as a number of 32 bits.
pub open spec fn narrowed(number: Option<i64>) -> Result<i32, BenchmarkError> {
    match number {
        Some(n) => if i32::MIN <= n <= i32::MAX {
            Ok(n as i32)
        } else {
            Err(BenchmarkError::InvalidParameter)
        },
        None => Err(BenchmarkError::InvalidParameter),
    }
}

/// An integer of a configuration as a number of 32 bits.
pub fn narrow(number: Option<i64>) -> (narrow: Result<i32, BenchmarkError>)
    ensures
        narrow == narrowed(number),
{
    match number {
        Some(n) => {
            if n < i32::MIN as i64 || n > i32::MAX as i64 {
                Err(BenchmarkError::InvalidParameter)
            } else {
                Ok(n as i32)
            }
        },
        None => Err(BenchmarkError::InvalidParameter),
    }
}

/// What a call of the compression library gave: the size that it returned,
/// unless the library tells that the size is an error code.
pub open spec fn size_given(size: usize, failed: bool) -> Result<usize, BenchmarkError> {
    if failed {
        Err(BenchmarkError::Codec)
    } else {
        Ok(size)
    }
}

/// What a call of the compression library gave.
pub fn checked_size(size: usize, failed: bool) -> (given: Result<usize, BenchmarkError>)
    ensures
        given == size_given(size, failed),
{
    if failed {
        Err(BenchmarkError::Codec)
    } else {
        Ok(size)
    }
}

/// One of the benchmarks that there are.
pub enum AnyBenchmark<Z: Zstd> {
    Compress(CompressBenchmark<Z>),
    CompressLiterals(CompressLiteralsBenchmark<Z>),
    DecompressLiterals(DecompressLiteralsBenchmark<Z>),
}

impl<Z: Zstd> AnyBenchmark<Z> {
    /// `self` is the benchmark of the name.
    pub open spec fn named(self, name: Seq<char>) -> bool {
        match self {
            AnyBenchmark::Compress(_) => name == "compress"@,
            AnyBenchmark::CompressLiterals(_) => name == "compress_literals"@,
            AnyBenchmark::DecompressLiterals(_) => name == "decompress_literals"@,
        }
    }

    /// `self` has the level of the configuration, and a benchmark of
    /// literals its bucket too and nothing kept yet.
    pub open spec fn configured(self, config: BenchmarkConfigView) -> bool {
        match self {
            AnyBenchmark::Compress(b) => level_of(config) == Ok::<i32, BenchmarkError>(b.level()),
            AnyBenchmark::CompressLiterals(b) => level_of(config) == Ok::<i32, BenchmarkError>(
                b.level(),
            ) && number_of(config, "Q"@) == Ok::<Option<i32>, BenchmarkError>(b.bucket())
                && b.idle(),
            AnyBenchmark::DecompressLiterals(b) => level_of(config) == Ok::<i32, BenchmarkError>(
                b.level(),
            ) && number_of(config, "Q"@) == Ok::<Option<i32>, BenchmarkError>(b.bucket())
                && b.idle(),
        }
    }
}

impl<Z: Zstd> Benchmark for AnyBenchmark<Z> {
    /// Prepares the benchmark that `self` is: the compression of payloads
    /// prepares nothing, a benchmark of literals as its own preparation says.
    fn initialize_data_set(&mut self, data_set: &DataSet) -> (done: Result<(), BenchmarkError>)
        ensures
            match (*old(self), *final(self)) {
                (AnyBenchmark::Compress(before), AnyBenchmark::Compress(after)) => after == before
                    && done is Ok,
                (
                    AnyBenchmark::CompressLiterals(before),
                    AnyBenchmark::CompressLiterals(after),
                ) => before.prepared(after, data_set.contents(), done),
                (
                    AnyBenchmark::DecompressLiterals(before),
                    AnyBenchmark::DecompressLiterals(after),
                ) => before.prepared(after, data_set.contents(), done),
                _ => false,
            },
    {
        match self {
            AnyBenchmark::Compress(benchmark) => benchmark.initialize_data_set(data_set),
            AnyBenchmark::CompressLiterals(benchmark) => benchmark.initialize_data_set(data_set),
            AnyBenchmark::DecompressLiterals(benchmark) => benchmark.initialize_data_set(data_set),
        }
    }

    /// Releases the benchmark that `self` is: none of them holds anything,
    /// so this cannot fail and changes nothing.
    fn finalize_data_set(&mut self, data_set: &DataSet) -> (done: Result<(), BenchmarkError>)
        ensures
            done is Ok,
            *final(self) == *old(self),
    {
        match self {
            AnyBenchmark::Compress(benchmark) => benchmark.finalize_data_set(data_set),
            AnyBenchmark::CompressLiterals(benchmark) => benchmark.finalize_data_set(data_set),
            AnyBenchmark::DecompressLiterals(benchmark) => benchmark.finalize_data_set(data_set),
        }
    }

    /// Runs the benchmark that `self` is on a dataset, as its own run says.
    fn run_data_set(&mut self, data_set: &DataSet, iters: u64) -> (metrics: Result<
        Metrics,
        BenchmarkError,
    >)
        ensures
            match (*old(self), *final(self)) {
                (AnyBenchmark::Compress(before), AnyBenchmark::Compress(after)) => before.ran(
                    after,
                    data_set.contents(),
                    iters,
                    metrics,
                ),
                (
                    AnyBenchmark::CompressLiterals(before),
                    AnyBenchmark::CompressLiterals(after),
                ) => before.ran(after, iters, metrics),
                (
                    AnyBenchmark::DecompressLiterals(before),
                    AnyBenchmark::DecompressLiterals(after),
                ) => before.ran(after, iters, metrics),
                _ => false,
            },
    {
        match self {
            AnyBenchmark::Compress(benchmark) => benchmark.run_data_set(data_set, iters),
            AnyBenchmark::CompressLiterals(benchmark) => benchmark.run_data_set(data_set, iters),
            AnyBenchmark::DecompressLiterals(benchmark) => benchmark.run_data_set(data_set, iters),
        }
    }

    /// Runs the benchmark that `self` is on one datum: the compression of
    /// payloads as its own run says; a benchmark of literals runs nothing
    /// and measures nothing.
    fn run_datum(&mut self, datum: &Datum, iters: u64) -> (metrics: Result<Metrics, BenchmarkError>)
        ensures
            match (*old(self), *final(self)) {
                (AnyBenchmark::Compress(before), AnyBenchmark::Compress(after)) => before.ran_datum(
                    after,
                    datum@,
                    iters,
                    metrics,
                ),
                (
                    AnyBenchmark::CompressLiterals(before),
                    AnyBenchmark::CompressLiterals(after),
                ) => after == before && metrics == Ok::<Metrics, BenchmarkError>(
                    Metrics { uncompressed_size: None, compressed_size: None, duration: None },
                ),
                (
                    AnyBenchmark::DecompressLiterals(before),
                    AnyBenchmark::DecompressLiterals(after),
                ) => after == before && metrics == Ok::<Metrics, BenchmarkError>(
                    Metrics { uncompressed_size: None, compressed_size: None, duration: None },
                ),
                _ => false,
            },
    {
        match self {
            AnyBenchmark::Compress(benchmark) => benchmark.run_datum(datum, iters),
            AnyBenchmark::CompressLiterals(benchmark) => benchmark.run_datum(datum, iters),
            AnyBenchmark::DecompressLiterals(benchmark) => benchmark.run_datum(datum, iters),
        }
    }
}

/// The names of the benchmarks that there are.
pub open spec fn benchmark_names() -> Seq<Seq<char>> {
    seq!["compress"@, "compress_literals"@, "decompress_literals"@]
}

/// Whether a benchmark has the name.
pub open spec fn known_benchmark(name: Seq<char>) -> bool {
    name == "compress"@ || name == "compress_literals"@ || name == "decompress_literals"@
}

/// The names of the benchmarks that there are.
pub fn get_all_benchmarks() -> (names: Vec<String>)
    ensures
        names@.len() == 3,
        forall|i: int| 0 <= i < 3 ==> (#[trigger] names@[i])@ == benchmark_names()[i],
{
    let mut names: Vec<String> = Vec::new();
    names.push(CompressBenchmark::<crate::zstd::Disabled>::name());
    names.push(CompressLiteralsBenchmark::<crate::zstd::Disabled>::name());
    names.push(DecompressLiteralsBenchmark::<crate::zstd::Disabled>::name());
    names
}

/// Why the benchmark of a name is not made from a configuration, where it
/// is not: the defect of the level, else for a benchmark of literals that of
/// the bucket, and else that the library cannot be opened.
pub open spec fn refusal(name: Seq<char>, config: BenchmarkConfigView) -> BenchmarkError {
    match level_of(config) {
        Err(refused) => refused,
        Ok(_) => match number_of(config, "Q"@) {
            Err(refused) if name != "compress"@ => refused,
            _ => BenchmarkError::Codec,
        },
    }
}

/// What making the benchmark of a name from a configuration gives: no
/// benchmark where none has the name, and else the benchmark of that name
/// with the level and the bucket of the configuration, or the refusal. A
/// configuration with a defect is always refused.
pub open spec fn made_from<Z: Zstd>(
    name: Seq<char>,
    config: BenchmarkConfigView,
    made: Result<Option<AnyBenchmark<Z>>, BenchmarkError>,
) -> bool {
    match made {
        Ok(None) => !known_benchmark(name),
        Ok(Some(benchmark)) => benchmark.named(name) && benchmark.configured(config),
        Err(e) => known_benchmark(name) && e == refusal(name, config),
    }
}

/// The benchmark of a name, made from a configuration; none where no
/// benchmark has the name. A configuration with a defect is refused, and so
/// is every configuration where the library cannot be opened.
pub fn make_benchmark<Z: Zstd>(name: &str, config: &BenchmarkConfig) -> (made: Result<
    Option<AnyBenchmark<Z>>,
    BenchmarkError,
>)
    ensures
        made_from(name@, config@, made),
{
    if same_text(name, "compress") {
        Ok(Some(AnyBenchmark::Compress(CompressBenchmark::from_config(config)?)))
    } else if same_text(name, "compress_literals") {
        Ok(Some(AnyBenchmark::CompressLiterals(CompressLiteralsBenchmark::from_config(config)?)))
    } else if same_text(name, "decompress_literals") {
        Ok(
            Some(
                AnyBenchmark::DecompressLiterals(DecompressLiteralsBenchmark::from_config(config)?),
            ),
        )
    } else {
        Ok(None)
    }
}

/// The benchmarks that there are, on a compression library.
pub struct StandardBenchmarks<Z: Zstd> {
    library: core::marker::PhantomData<Z>,
}

impl<Z: Zstd> StandardBenchmarks<Z> {
    pub fn new() -> StandardBenchmarks<Z> {
        StandardBenchmarks { library: core::marker::PhantomData }
    }
}

impl<Z: Zstd> BenchmarkFactory for StandardBenchmarks<Z> {
    type Bench = AnyBenchmark<Z>;

    fn create(&self, name: &str, config: &BenchmarkConfig) -> (made: Result<
        Option<AnyBenchmark<Z>>,
        BenchmarkError,
    >)
        ensures
            made_from(name@, config@, made),
    {
        make_benchmark(name, config)
    }
}

} // verus!
