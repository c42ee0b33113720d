use zstd_bench::benchmark::{Benchmark, BenchmarkError, BuildInfo, ConfigurableBenchmark};
use zstd_bench::benchmarks::compress::CompressBenchmark;
use zstd_bench::benchmarks::literals::{CompressLiteralsBenchmark, DecompressLiteralsBenchmark};
use zstd_bench::benchmarks::{checked_size, make_benchmark, AnyBenchmark, StandardBenchmarks};
use zstd_bench::config::{Config, DataSetConfig, DataSetMode};
use zstd_bench::dataset::{DataSet, Datum};
use zstd_bench::session::{run_all_benchmarks, BenchmarkFactory, SessionError};
use zstd_bench::zstd::{Block, BlockType, Disabled, LiteralsBlock, LiteralsBlockType, Zstd};

/// A library that cannot be opened.
struct Closed;

impl Zstd for Closed {
    fn open() -> Option<Closed> {
        None
    }

    fn compress_bound(&self, src_size: usize) -> usize {
        src_size
    }

    fn is_error(&self, _result: usize) -> bool {
        false
    }

    fn compress(&mut self, _dst: &mut Vec<u8>, _src: &[u8], _level: i32) -> usize {
        0
    }

    fn for_each_block(&mut self, _frame: &[u8]) -> (usize, Vec<Block>) {
        (0, Vec::new())
    }

    fn for_each_literals_block(&mut self, _frame: &[u8]) -> (usize, Vec<LiteralsBlock>) {
        (0, Vec::new())
    }

    fn compress_literals(&mut self, _literals: &[u8]) -> usize {
        0
    }

    fn decompress_literals(&mut self, _literals: &[u8]) -> usize {
        0
    }
}

/// A library that keeps a third of what it compresses, and finds one block
/// of raw literals in each frame.
struct Thirds;

impl Zstd for Thirds {
    fn open() -> Option<Thirds> {
        Some(Thirds)
    }

    fn compress_bound(&self, src_size: usize) -> usize {
        src_size
    }

    fn is_error(&self, result: usize) -> bool {
        result == usize::MAX
    }

    fn compress(&mut self, _dst: &mut Vec<u8>, src: &[u8], _level: i32) -> usize {
        src.len() / 3
    }

    fn for_each_block(&mut self, frame: &[u8]) -> (usize, Vec<Block>) {
        (1, vec![Block { bytes: frame.to_vec(), kind: BlockType::Raw }])
    }

    fn for_each_literals_block(&mut self, frame: &[u8]) -> (usize, Vec<LiteralsBlock>) {
        let block = LiteralsBlock {
            compressed: frame.to_vec(),
            decompressed: frame.to_vec(),
            kind: LiteralsBlockType::Raw,
        };
        (1, vec![block])
    }

    fn compress_literals(&mut self, literals: &[u8]) -> usize {
        literals.len()
    }

    fn decompress_literals(&mut self, _literals: &[u8]) -> usize {
        usize::MAX
    }
}

fn build() -> BuildInfo {
    BuildInfo {
        zstd_commit: "0123456789abcdef".to_string(),
        zstd_revision: "dev".to_string(),
        zstd_tag: None,
        zstd_branch: None,
        zstd_commit_timestamp: 0,
        cc: "cc".to_string(),
        cc_version: "1".to_string(),
        cflags: "".to_string(),
    }
}

fn payloads(files: &[&[u8]]) -> DataSet {
    let config = DataSetConfig {
        name: "payloads".to_string(),
        globs: Vec::new(),
        mode: DataSetMode::SeparateFiles,
    };
    DataSet::load(&config, files.iter().map(|file| file.to_vec()).collect()).unwrap()
}

fn variant_of(text: &str) -> Config {
    Config::load(format!("[benchmarks.any]\n{}", text).as_bytes()).unwrap()
}

#[test]
fn a_size_is_an_error_where_the_library_says_so() {
    assert_eq!(checked_size(5, false), Ok(5));
    assert_eq!(checked_size(0, false), Ok(0));
    assert_eq!(checked_size(5, true), Err(BenchmarkError::Codec));
    assert_eq!(checked_size(usize::MAX, true), Err(BenchmarkError::Codec));
}

#[test]
fn without_a_library_there_is_no_benchmark() {
    assert!(matches!(CompressBenchmark::<Thirds>::opened(None, 3), Err(BenchmarkError::Codec)));
    assert!(CompressBenchmark::opened(Some(Thirds), 3).is_ok());
    assert!(matches!(
        CompressLiteralsBenchmark::<Thirds>::opened(None, 3, Some(8)),
        Err(BenchmarkError::Codec)
    ));
    assert!(DecompressLiteralsBenchmark::opened(Some(Thirds), 3, None).is_ok());
    let config = variant_of("ZSTD_c_compressionLevel = 3");
    let variant = &config.configs_for_benchmark("any")[0].1;
    assert!(matches!(CompressBenchmark::<Closed>::from_config(variant), Err(BenchmarkError::Codec)));
    assert!(matches!(
        DecompressLiteralsBenchmark::<Closed>::from_config(variant),
        Err(BenchmarkError::Codec)
    ));
    assert!(matches!(
        make_benchmark::<Closed>("compress_literals", variant),
        Err(BenchmarkError::Codec)
    ));
    assert!(matches!(make_benchmark::<Closed>("unheard_of", variant), Ok(None)));
}

#[test]
fn a_defect_of_the_configuration_comes_before_the_library() {
    let config = variant_of("ZSTD_c_compressionLevel = \"high\"\nQ = 3");
    let variant = &config.configs_for_benchmark("any")[0].1;
    assert!(matches!(
        CompressBenchmark::<Closed>::from_config(variant),
        Err(BenchmarkError::InvalidParameter)
    ));
    assert!(matches!(
        make_benchmark::<Closed>("compress", variant),
        Err(BenchmarkError::InvalidParameter)
    ));
    let config = variant_of("Q = 4294967296");
    let variant = &config.configs_for_benchmark("any")[0].1;
    assert!(matches!(
        CompressLiteralsBenchmark::<Closed>::from_config(variant),
        Err(BenchmarkError::InvalidParameter)
    ));
    // The compression of payloads has no bucket.
    assert!(matches!(CompressBenchmark::<Closed>::from_config(variant), Err(BenchmarkError::Codec)));
    assert!(matches!(make_benchmark::<Disabled>("compress", variant), Ok(Some(AnyBenchmark::Compress(_)))));
    assert!(matches!(
        StandardBenchmarks::<Disabled>::new().create("decompress_literals", variant),
        Err(BenchmarkError::InvalidParameter)
    ));
}

#[test]
fn the_compression_of_payloads_prepares_nothing() {
    let data = payloads(&[b"0123456789", b"abcdefgh"]);
    let mut benchmark = CompressBenchmark::new(Thirds, 3);
    assert_eq!(benchmark.initialize_data_set(&data), Ok(()));
    assert_eq!(benchmark.finalize_data_set(&data), Ok(()));
    let mut any = AnyBenchmark::Compress(CompressBenchmark::new(Thirds, 3));
    assert_eq!(any.initialize_data_set(&data), Ok(()));
    assert_eq!(any.finalize_data_set(&data), Ok(()));
    let mut literals = AnyBenchmark::DecompressLiterals(DecompressLiteralsBenchmark::new(Thirds, 3, None));
    assert_eq!(literals.initialize_data_set(&data), Ok(()));
    assert_eq!(literals.finalize_data_set(&data), Ok(()));
}

#[test]
fn a_dataset_is_compressed_datum_by_datum() {
    let data = payloads(&[b"0123456789ab", b"abcdef"]);
    let mut benchmark = CompressBenchmark::new(Thirds, 3);
    let metrics = benchmark.run_data_set(&data, 5).unwrap();
    assert_eq!(metrics.uncompressed_size, Some(90));
    assert_eq!(metrics.compressed_size, Some(30));
    assert!(metrics.duration.is_some());
    let mut any = AnyBenchmark::Compress(CompressBenchmark::new(Thirds, 3));
    let metrics = any.run_data_set(&data, 2).unwrap();
    assert_eq!(metrics.uncompressed_size, Some(36));
    assert_eq!(metrics.compressed_size, Some(12));
    let metrics = any.run_datum(&Datum::new(b"0123456789ab".to_vec()), 2).unwrap();
    assert_eq!(metrics.uncompressed_size, Some(24));
    assert_eq!(metrics.compressed_size, Some(8));
}

#[test]
fn a_benchmark_of_literals_measures_no_single_datum() {
    let datum = Datum::new(b"0123456789".to_vec());
    let mut any = AnyBenchmark::CompressLiterals(CompressLiteralsBenchmark::new(Thirds, 3, None));
    let metrics = any.run_datum(&datum, 7).unwrap();
    assert_eq!(metrics.uncompressed_size, None);
    assert_eq!(metrics.compressed_size, None);
    assert_eq!(metrics.duration, None);
    let mut plain = DecompressLiteralsBenchmark::new(Thirds, 3, Some(2));
    assert_eq!(plain.initialize_datum(&datum), Ok(()));
    assert_eq!(plain.finalize_datum(&datum), Ok(()));
    let metrics = plain.run_datum(&datum, 7).unwrap();
    assert_eq!(metrics.duration, None);
}

#[test]
fn runs_over_nothing_give_sizes_of_zero() {
    let data = payloads(&[b"0123456789"]);
    let mut fresh = CompressLiteralsBenchmark::new(Thirds, 3, None);
    assert_eq!(fresh.run_one(), Ok((0, 0)));
    let metrics = fresh.run_data_set(&data, 9).unwrap();
    assert_eq!(metrics.uncompressed_size, Some(0));
    assert_eq!(metrics.compressed_size, Some(0));
    let mut bucket = DecompressLiteralsBenchmark::new(Thirds, 3, Some(4));
    assert_eq!(bucket.run_one(), Ok((0, 0)));
    let mut open = DecompressLiteralsBenchmark::new(Thirds, 3, None);
    assert_eq!(open.run_one(), Ok((0, 0)));
    // No runs give nothing, whatever is kept.
    let mut kept = CompressLiteralsBenchmark::new(Thirds, 3, None);
    kept.initialize_data_set(&data).unwrap();
    let metrics = kept.run_data_set(&data, 0).unwrap();
    assert_eq!(metrics.uncompressed_size, Some(0));
    assert_eq!(metrics.compressed_size, Some(0));
    let metrics = kept.run_data_set(&data, 4).unwrap();
    // The frame of 3 bytes holds 3 bytes of literals.
    assert_eq!(metrics.uncompressed_size, Some(12));
}

#[test]
fn only_decompression_for_a_bucket_asks_the_library() {
    let blocks = vec![LiteralsBlock {
        compressed: vec![1; 5],
        decompressed: vec![0; 10],
        kind: LiteralsBlockType::Compressed,
    }];
    let mut bucket = DecompressLiteralsBenchmark::new(Thirds, 3, Some(8));
    bucket.keep_literals(&blocks);
    assert_eq!(bucket.run_one(), Err(BenchmarkError::Codec));
    let data = payloads(&[b"0123456789"]);
    assert!(matches!(bucket.run_data_set(&data, 2), Err(BenchmarkError::Codec)));
    assert!(bucket.run_data_set(&data, 0).is_ok());
    // Raw literals fall into no bucket.
    let mut raw = DecompressLiteralsBenchmark::new(Thirds, 3, Some(15));
    assert_eq!(raw.initialize_data_set(&data), Err(BenchmarkError::EmptyBucket));
}

#[test]
fn a_session_without_variants_measures_nothing() {
    let data = vec![payloads(&[b"0123456789"])];
    let factory = StandardBenchmarks::<Closed>::new();
    let results = run_all_benchmarks(&Config::new(), &build(), &factory, &data).unwrap();
    assert!(results.is_empty());
    let results = run_all_benchmarks(&Config::new(), &build(), &factory, &Vec::new()).unwrap();
    assert!(results.is_empty());
    // With a variant the benchmark is made, and here it cannot be.
    let config = variant_of("");
    assert!(matches!(
        run_all_benchmarks(&config, &build(), &factory, &data),
        Err(SessionError::UnknownBenchmark)
    ));
    let config = Config::load(b"[benchmarks.compress]\n").unwrap();
    assert!(matches!(
        run_all_benchmarks(&config, &build(), &factory, &data),
        Err(SessionError::Benchmark(BenchmarkError::Codec))
    ));
}
