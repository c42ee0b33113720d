use zstd_bench::benchmark::{Benchmark, BenchmarkError, BuildInfo};
use zstd_bench::benchmarks::compress::CompressBenchmark;
use zstd_bench::benchmarks::literals::{quantization, CompressLiteralsBenchmark, DecompressLiteralsBenchmark};
use zstd_bench::benchmarks::{get_all_benchmarks, make_benchmark, AnyBenchmark, StandardBenchmarks};
use zstd_bench::benchmark::ConfigurableBenchmark;
use zstd_bench::config::{BenchmarkConfig, Config, DataSetConfig, DataSetMode};
use zstd_bench::dataset::{load_data_sets, DataSet, DataSetError, Datum};
use zstd_bench::metrics::Metrics;
use zstd_bench::print::split_keys;
use zstd_bench::session::{
    benchmark_command, links_revision, run_all_benchmarks, BenchmarkFactory, SessionError,
    SessionPlan, Step,
};
use zstd_bench::timer::Timer;
use zstd_bench::zstd::{Block, Disabled, LiteralsBlock, LiteralsBlockType, Zstd};

fn config(text: &str) -> Config {
    Config::load(text.as_bytes()).unwrap()
}

fn build() -> BuildInfo {
    BuildInfo {
        zstd_commit: "0123456789abcdef".to_string(),
        zstd_revision: "dev".to_string(),
        zstd_tag: None,
        zstd_branch: None,
        zstd_commit_timestamp: 0,
        cc: "cc".to_string(),
        cc_version: "1".to_string(),
        cflags: "".to_string(),
    }
}

fn named(name: &str, files: &[&[u8]]) -> DataSet {
    let config =
        DataSetConfig { name: name.to_string(), globs: Vec::new(), mode: DataSetMode::SeparateFiles };
    DataSet::load(&config, files.iter().map(|file| file.to_vec()).collect()).unwrap()
}

fn strings(texts: &[&str]) -> Vec<String> {
    texts.iter().map(|text| text.to_string()).collect()
}

struct Steady {
    nanos: u128,
}

impl Benchmark for Steady {
    fn run_datum(&mut self, datum: &Datum, iters: u64) -> Result<Metrics, BenchmarkError> {
        Ok(Metrics {
            uncompressed_size: Some(datum.len() as u64 * iters),
            compressed_size: None,
            duration: Some(self.nanos * iters as u128),
        })
    }
}

struct OnlySteady;

impl BenchmarkFactory for OnlySteady {
    type Bench = Steady;

    fn create(&self, name: &str, config: &BenchmarkConfig) -> Result<Option<Steady>, BenchmarkError> {
        if name != "steady" {
            return Ok(None);
        }
        match config.get_parameter("nanos") {
            Some(parameter) => match parameter.as_integer() {
                Some(nanos) => Ok(Some(Steady { nanos: nanos as u128 })),
                None => Err(BenchmarkError::InvalidParameter),
            },
            None => Ok(Some(Steady { nanos: 50_000_000 })),
        }
    }
}

#[test]
fn one_benchmark_on_one_dataset_gives_one_result() {
    let config = config("min_runs = 3\nmin_secs = 0\n[benchmarks.steady]\n");
    let data_sets = vec![named("three", &[b"one", b"two2", b"three"])];
    assert_eq!(data_sets[0].data().len(), 3);
    let results = run_all_benchmarks(&config, &build(), &OnlySteady, &data_sets).unwrap();
    assert_eq!(results.len(), 1);
    assert!(results[0].runs >= config.min_runs());
    assert!(results[0].duration_ns.mean > 0);
    assert_eq!(results[0].benchmark_name, "steady");
    assert_eq!(results[0].config_name, None);
    assert_eq!(results[0].data_set, "three");
    assert_eq!(results[0].uncompressed_bytes, Some(12));
    assert_eq!(results[0].compressed_bytes, None);
}

#[test]
fn every_variant_runs_on_every_dataset_that_it_names() {
    let config = config(
        "min_runs = 1\nmin_secs = 0\n\
         [benchmarks.steady.slow]\nnanos = 200000000\n\
         [benchmarks.steady.quick]\nnanos = 100000000\ndatasets = [\"b\", \"nothing\"]\n",
    );
    let data_sets = vec![named("a", &[b"one"]), named("b", &[b"two"]), named("c", &[b"three"])];
    let results = run_all_benchmarks(&config, &build(), &OnlySteady, &data_sets).unwrap();
    let jobs: Vec<(String, Option<String>, String, u64)> = results
        .iter()
        .map(|result| {
            (
                result.benchmark_name.clone(),
                result.config_name.clone(),
                result.data_set.clone(),
                result.duration_ns.mean,
            )
        })
        .collect();
    assert_eq!(
        jobs,
        vec![
            ("steady".to_string(), Some("quick".to_string()), "b".to_string(), 100_000_000),
            ("steady".to_string(), Some("slow".to_string()), "a".to_string(), 200_000_000),
            ("steady".to_string(), Some("slow".to_string()), "b".to_string(), 200_000_000),
            ("steady".to_string(), Some("slow".to_string()), "c".to_string(), 200_000_000),
        ]
    );
}

#[test]
fn a_session_ends_with_the_first_failure() {
    let unknown = config("[benchmarks.other]\n");
    let data_sets = vec![named("a", &[b"one"])];
    assert!(matches!(
        run_all_benchmarks(&unknown, &build(), &OnlySteady, &data_sets),
        Err(SessionError::UnknownBenchmark)
    ));
    let wrong = config("[benchmarks.steady]\nnanos = \"many\"\n");
    assert!(matches!(
        run_all_benchmarks(&wrong, &build(), &OnlySteady, &data_sets),
        Err(SessionError::Benchmark(BenchmarkError::InvalidParameter))
    ));
    let broken = config("[benchmarks.steady]\nnanos = 0\n");
    assert!(matches!(
        run_all_benchmarks(&broken, &build(), &OnlySteady, &data_sets),
        Err(SessionError::Benchmark(BenchmarkError::ZeroDuration))
    ));
    let nothing = config("");
    assert!(run_all_benchmarks(&nothing, &build(), &OnlySteady, &data_sets).unwrap().is_empty());
}

#[test]
fn the_measurement_is_started_behind_the_command_prefix() {
    let plain = config("");
    assert_eq!(
        benchmark_command(&plain, "target/release/bench", &strings(&["-c", "file"])),
        strings(&["target/release/bench"])
    );
    let pinned = config("command_prefix = [\"taskset\", \"-c\", \"0\"]");
    assert_eq!(
        benchmark_command(&pinned, "target/release/bench", &strings(&["-o", "out.json"])),
        strings(&["taskset", "-c", "0", "target/release/bench", "-o", "out.json"])
    );
    assert_eq!(
        benchmark_command(&pinned, "bench", &[]),
        strings(&["taskset", "-c", "0", "bench"])
    );
}

#[test]
fn a_revision_is_linked_unless_it_is_the_commit() {
    assert!(links_revision("0123abc", "main"));
    assert!(!links_revision("0123abc", "0123abc"));
}

#[test]
fn the_steps_of_a_session() {
    let all = SessionPlan { benchmark: true, keep_binaries: true, print: true, revisions: 2 };
    assert_eq!(
        all.session_steps(),
        vec![
            Step::RemoveOutput,
            Step::Touch(0),
            Step::Build(0),
            Step::CopyBinary(0),
            Step::Measure(0),
            Step::Touch(1),
            Step::Build(1),
            Step::CopyBinary(1),
            Step::Measure(1),
            Step::Print,
        ]
    );
    let measure = SessionPlan { benchmark: true, keep_binaries: false, print: false, revisions: 1 };
    assert_eq!(
        measure.session_steps(),
        vec![Step::RemoveOutput, Step::Touch(0), Step::Build(0), Step::Measure(0)]
    );
    let keep = SessionPlan { benchmark: false, keep_binaries: true, print: false, revisions: 1 };
    assert_eq!(keep.session_steps(), vec![Step::Touch(0), Step::Build(0), Step::CopyBinary(0)]);
    let print = SessionPlan { benchmark: false, keep_binaries: false, print: true, revisions: 3 };
    assert_eq!(print.session_steps(), vec![Step::Print]);
    let none = SessionPlan { benchmark: true, keep_binaries: false, print: false, revisions: 0 };
    assert_eq!(none.session_steps(), vec![Step::RemoveOutput]);
}

#[test]
fn keys_are_split_at_commas() {
    assert_eq!(split_keys("benchmark,config,dataset"), strings(&["benchmark", "config", "dataset"]));
    assert_eq!(split_keys("ratio"), strings(&["ratio"]));
    assert_eq!(split_keys(""), strings(&[""]));
    assert_eq!(split_keys("a,,b,"), strings(&["a", "", "b", ""]));
    assert_eq!(split_keys(","), strings(&["", ""]));
}

#[test]
fn datasets_are_loaded_in_the_order_of_their_configurations() {
    let configs = vec![
        DataSetConfig { name: "a".to_string(), globs: Vec::new(), mode: DataSetMode::SeparateFiles },
        DataSetConfig {
            name: "b".to_string(),
            globs: Vec::new(),
            mode: DataSetMode::ConcatenateFiles,
        },
    ];
    let files = vec![vec![b"one".to_vec(), b"two".to_vec()], vec![b"x".to_vec(), b"y".to_vec()]];
    let data_sets = load_data_sets(&configs, files).unwrap();
    assert_eq!(data_sets.len(), 2);
    assert_eq!(data_sets[0].name(), "a");
    assert_eq!(data_sets[0].data().len(), 2);
    assert_eq!(data_sets[1].name(), "b");
    assert_eq!(data_sets[1].data()[0].bytes(), b"xy");
    let files = vec![vec![b"one".to_vec()], Vec::new()];
    assert!(matches!(load_data_sets(&configs, files), Err(DataSetError::NoFiles)));
    assert!(load_data_sets(&[], Vec::new()).unwrap().is_empty());
}

#[test]
fn a_stopwatch_adds_up_its_runs() {
    let mut timer = Timer::new();
    let first = timer.stop();
    timer.start();
    let begin = std::time::Instant::now();
    while begin.elapsed() < std::time::Duration::from_millis(2) {}
    let second = timer.stop();
    assert!(second >= first);
    assert!(second - first >= 2_000_000);
    timer.reset();
    let third = timer.stop();
    assert!(third < second);
}

#[test]
fn the_library_that_is_not_there_does_nothing() {
    let mut library = Disabled::open().unwrap();
    assert_eq!(library.compress_bound(1000), 0);
    assert!(!library.is_error(usize::MAX));
    let mut out = vec![1, 2, 3];
    assert_eq!(library.compress(&mut out, b"data", 3), 0);
    assert_eq!(out, vec![1, 2, 3]);
    let (count, blocks) = library.for_each_block(b"frame");
    assert_eq!(count, 0);
    assert!(blocks.is_empty());
    let (count, blocks) = library.for_each_literals_block(b"frame");
    assert_eq!(count, 0);
    assert!(blocks.is_empty());
    assert_eq!(library.compress_literals(b"literals"), 0);
    assert_eq!(library.decompress_literals(b"literals"), 0);
}

#[test]
fn buckets_of_literals() {
    assert_eq!(quantization(10, 10), 15);
    assert_eq!(quantization(11, 10), 15);
    assert_eq!(quantization(0, 10), 0);
    assert_eq!(quantization(5, 10), 8);
    assert_eq!(quantization(9, 10), 14);
    assert_eq!(quantization(1, 3), 5);
    assert_eq!(quantization(0, 0), 15);
    assert_eq!(quantization(usize::MAX - 1, usize::MAX), 15);
}

/// A library that halves what it compresses and finds one block of literals
/// in each frame.
struct Halving {
    fails: bool,
}

const FAILURE: usize = usize::MAX;

impl Zstd for Halving {
    fn open() -> Option<Halving> {
        Some(Halving { fails: false })
    }

    fn compress_bound(&self, src_size: usize) -> usize {
        src_size + 8
    }

    fn is_error(&self, result: usize) -> bool {
        result == FAILURE
    }

    fn compress(&mut self, dst: &mut Vec<u8>, src: &[u8], _level: i32) -> usize {
        if self.fails {
            return FAILURE;
        }
        let size = src.len() / 2;
        dst[..size].copy_from_slice(&src[..size]);
        size
    }

    fn for_each_block(&mut self, frame: &[u8]) -> (usize, Vec<Block>) {
        (1, vec![Block { bytes: frame.to_vec(), kind: zstd_bench::zstd::BlockType::Compressed }])
    }

    fn for_each_literals_block(&mut self, frame: &[u8]) -> (usize, Vec<LiteralsBlock>) {
        let block = LiteralsBlock {
            compressed: frame.to_vec(),
            decompressed: [frame, frame].concat(),
            kind: LiteralsBlockType::Compressed,
        };
        (1, vec![block])
    }

    fn compress_literals(&mut self, literals: &[u8]) -> usize {
        literals.len() / 2
    }

    fn decompress_literals(&mut self, literals: &[u8]) -> usize {
        literals.len() * 2
    }
}

fn parameters(text: &str) -> Config {
    config(&format!("[benchmarks.any]\n{}", text))
}

#[test]
fn compression_is_measured_for_each_iteration() {
    let mut benchmark = CompressBenchmark::new(Halving { fails: false }, 3);
    let datum = Datum::new(b"0123456789".to_vec());
    let metrics = benchmark.run_datum(&datum, 4).unwrap();
    assert_eq!(benchmark.run_one(&datum), Ok(5));
    assert_eq!(metrics.uncompressed_size, Some(40));
    assert_eq!(metrics.compressed_size, Some(20));
    assert!(metrics.duration.is_some());
    let mut failing = CompressBenchmark::new(Halving { fails: true }, 3);
    assert!(matches!(failing.run_datum(&datum, 4), Err(BenchmarkError::Codec)));
    let metrics = failing.run_datum(&datum, 0).unwrap();
    assert_eq!(metrics.uncompressed_size, Some(0));
    assert_eq!(metrics.compressed_size, Some(0));
}

#[test]
fn literals_are_gathered_from_the_blocks_of_the_dataset() {
    let data = named("literals", &[b"0123456789", b"abcdefgh"]);
    let mut compress = CompressLiteralsBenchmark::new(Halving { fails: false }, 3, None);
    compress.initialize_data_set(&data).unwrap();
    // The frames are 5 and 4 bytes; their literals are twice as long.
    assert_eq!(compress.run_one(), Ok((18, 9)));
    let metrics = compress.run_data_set(&data, 3).unwrap();
    assert_eq!(metrics.uncompressed_size, Some(54));
    assert_eq!(metrics.compressed_size, Some(27));
    let mut decompress = DecompressLiteralsBenchmark::new(Halving { fails: false }, 3, None);
    decompress.initialize_data_set(&data).unwrap();
    assert_eq!(decompress.run_one(), Ok((18, 9)));
    // Compressed literals of half the size fall into the bucket 8.
    let mut bucket = DecompressLiteralsBenchmark::new(Halving { fails: false }, 3, Some(8));
    bucket.initialize_data_set(&data).unwrap();
    assert_eq!(bucket.run_one(), Ok((18, 9)));
    let mut empty = DecompressLiteralsBenchmark::new(Halving { fails: false }, 3, Some(7));
    assert_eq!(empty.initialize_data_set(&data), Err(BenchmarkError::EmptyBucket));
    let mut failing = CompressLiteralsBenchmark::new(Halving { fails: true }, 3, None);
    assert_eq!(failing.initialize_data_set(&data), Err(BenchmarkError::Codec));
}

#[test]
fn preparing_again_starts_anew() {
    let data = named("literals", &[b"0123456789"]);
    let mut compress = CompressLiteralsBenchmark::new(Halving { fails: false }, 3, None);
    compress.initialize_data_set(&data).unwrap();
    compress.finalize_data_set(&data).unwrap();
    compress.initialize_data_set(&data).unwrap();
    assert_eq!(compress.run_one(), Ok((10, 5)));
}

#[test]
fn benchmarks_are_made_by_their_name() {
    assert_eq!(
        get_all_benchmarks(),
        strings(&["compress", "compress_literals", "decompress_literals"])
    );
    assert_eq!(CompressBenchmark::<Disabled>::name(), "compress");
    assert_eq!(CompressLiteralsBenchmark::<Disabled>::name(), "compress_literals");
    assert_eq!(DecompressLiteralsBenchmark::<Disabled>::name(), "decompress_literals");
    let config = parameters("ZSTD_c_compressionLevel = 5\nQ = 3");
    let variant = &config.configs_for_benchmark("any")[0].1;
    assert!(matches!(
        make_benchmark::<Disabled>("compress", variant),
        Ok(Some(AnyBenchmark::Compress(_)))
    ));
    assert!(matches!(
        make_benchmark::<Disabled>("compress_literals", variant),
        Ok(Some(AnyBenchmark::CompressLiterals(_)))
    ));
    assert!(matches!(
        make_benchmark::<Disabled>("decompress_literals", variant),
        Ok(Some(AnyBenchmark::DecompressLiterals(_)))
    ));
    assert!(matches!(make_benchmark::<Disabled>("huffman", variant), Ok(None)));
    let factory = StandardBenchmarks::<Disabled>::new();
    assert!(matches!(factory.create("compress", variant), Ok(Some(_))));
    assert!(matches!(factory.create("nothing", variant), Ok(None)));
}

#[test]
fn parameters_of_the_wrong_type_are_refused() {
    let config = parameters("ZSTD_c_compressionLevel = \"high\"");
    let variant = &config.configs_for_benchmark("any")[0].1;
    assert!(matches!(
        make_benchmark::<Disabled>("compress", variant),
        Err(BenchmarkError::InvalidParameter)
    ));
    let config = parameters("ZSTD_c_compressionLevel = 4294967296");
    let variant = &config.configs_for_benchmark("any")[0].1;
    assert!(matches!(
        CompressBenchmark::<Disabled>::from_config(variant),
        Err(BenchmarkError::InvalidParameter)
    ));
    let config = parameters("Q = true");
    let variant = &config.configs_for_benchmark("any")[0].1;
    assert!(matches!(
        DecompressLiteralsBenchmark::<Disabled>::from_config(variant),
        Err(BenchmarkError::InvalidParameter)
    ));
    assert!(CompressBenchmark::<Disabled>::from_config(variant).is_ok());
}

#[test]
fn a_bucket_of_a_dataset_without_blocks_is_empty() {
    let config = parameters("Q = 3");
    let variant = &config.configs_for_benchmark("any")[0].1;
    let mut benchmark = DecompressLiteralsBenchmark::<Disabled>::from_config(variant).unwrap();
    let data = named("literals", &[b"0123456789"]);
    assert_eq!(benchmark.initialize_data_set(&data), Err(BenchmarkError::EmptyBucket));
    let config = parameters("");
    let variant = &config.configs_for_benchmark("any")[0].1;
    let mut benchmark = DecompressLiteralsBenchmark::<Disabled>::from_config(variant).unwrap();
    assert_eq!(benchmark.initialize_data_set(&data), Ok(()));
    assert_eq!(benchmark.run_one(), Ok((0, 0)));
}

#[test]
fn only_compressed_literals_of_the_bucket_are_kept() {
    let blocks = vec![
        LiteralsBlock {
            compressed: vec![1; 5],
            decompressed: vec![0; 10],
            kind: LiteralsBlockType::Compressed,
        },
        LiteralsBlock {
            compressed: vec![2; 5],
            decompressed: vec![0; 10],
            kind: LiteralsBlockType::Raw,
        },
        LiteralsBlock {
            compressed: vec![3; 6],
            decompressed: vec![0; 10],
            kind: LiteralsBlockType::Compressed,
        },
        LiteralsBlock {
            compressed: vec![4; 4],
            decompressed: vec![0; 8],
            kind: LiteralsBlockType::Compressed,
        },
    ];
    let mut decompress = DecompressLiteralsBenchmark::new(Halving { fails: false }, 3, Some(8));
    decompress.keep_literals(&blocks);
    // The first and the last block fall into the bucket 8: 9 bytes, which
    // the library doubles.
    assert_eq!(decompress.run_one(), Ok((18, 9)));
    let mut compress = CompressLiteralsBenchmark::new(Halving { fails: false }, 3, Some(8));
    compress.keep_literals(&blocks);
    // All 38 bytes of literals are compressed, each block to half its size.
    assert_eq!(compress.run_one(), Ok((38, 19)));
    let mut open = DecompressLiteralsBenchmark::new(Halving { fails: false }, 3, None);
    open.keep_literals(&blocks);
    assert_eq!(open.run_one(), Ok((0, 0)));
}
