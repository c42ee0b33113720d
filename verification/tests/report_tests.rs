use zstd_bench::benchmark::BenchmarkResult;
use zstd_bench::print::{Comparison, Format};
use zstd_bench::report::RenderError;
use zstd_bench::row::Row;
use zstd_bench::statistic::Statistic;

fn result(revision: &str, benchmark: &str, duration: u64) -> BenchmarkResult {
    BenchmarkResult {
        zstd_commit: "0123456789abcdef".to_string(),
        zstd_revision: revision.to_string(),
        zstd_tag: None,
        zstd_branch: Some("main".to_string()),
        zstd_commit_timestamp: 1600000000,
        cc: "gcc".to_string(),
        cc_version: "10.2".to_string(),
        cflags: "-O3".to_string(),
        command_prefix: vec!["taskset".to_string(), "-c".to_string(), "0".to_string()],
        benchmark_name: benchmark.to_string(),
        config_name: None,
        data_set: "silesia".to_string(),
        iters_per_run: 10,
        runs: 3,
        uncompressed_bytes: Some(1000),
        compressed_bytes: Some(400),
        duration_ns: Statistic {
            min: duration,
            max: duration,
            mean: duration,
            median: duration,
            std_dev: 0,
        },
    }
}

fn keys(names: &[&str]) -> Vec<String> {
    names.iter().map(|name| name.to_string()).collect()
}

fn render(
    format: Format,
    results: Vec<BenchmarkResult>,
    names: &[&str],
    baseline: Option<&Comparison>,
) -> Result<Vec<String>, RenderError> {
    let rows = results.into_iter().map(Row::from).collect();
    format.render_rows(rows, &keys(names), baseline)
}

fn dev() -> Comparison {
    Comparison { key: "revision".to_string(), baseline: "dev".to_string() }
}

#[test]
fn change_against_the_baseline_is_shown_in_percent() {
    let results = vec![result("v1", "compress", 80), result("dev", "compress", 100), result("v1", "compress", 80)];
    let lines = render(
        Format::Pretty,
        results,
        &["benchmark", "revision", "duration_ns"],
        Some(&dev()),
    )
    .unwrap();
    assert_eq!(
        lines,
        vec![
            "Benchmark Duration Ns (dev) Duration Ns (v1) Duration Ns (v1 - dev) Duration Ns (v1) Duration Ns (v1 - dev)",
            "--------- ----------------- ---------------- ---------------------- ---------------- ----------------------",
            "compress                100               80                 -20.0%               80                 -20.0%",
        ]
    );
    assert!(lines[2].contains("-20.0%"));
}

#[test]
fn equal_values_collapse_to_one_column() {
    let results = vec![result("dev", "compress", 100), result("v1", "compress", 80)];
    let lines = render(
        Format::Pretty,
        results,
        &["benchmark", "revision", "dataset", "duration_ns"],
        Some(&dev()),
    )
    .unwrap();
    assert_eq!(
        lines,
        vec![
            "Benchmark Dataset Duration Ns (dev) Duration Ns (v1) Duration Ns (v1 - dev)",
            "--------- ------- ----------------- ---------------- ----------------------",
            "compress  silesia               100               80                 -20.0%",
        ]
    );
}

#[test]
fn rows_are_sorted_by_the_keys_in_turn() {
    let results = vec![
        result("v2", "b", 3),
        result("v1", "b", 2),
        result("v2", "a", 1),
        result("v1", "a", 4),
    ];
    let lines = render(Format::Csv, results, &["benchmark", "revision", "duration_ns"], None).unwrap();
    assert_eq!(
        lines,
        vec!["Benchmark,Revision,Duration Ns", "a,v1,4", "a,v2,1", "b,v1,2", "b,v2,3"]
    );
}

#[test]
fn equal_rows_keep_their_order() {
    let results = vec![
        result("v1", "a", 3),
        result("v1", "b", 1),
        result("v1", "a", 2),
        result("v1", "b", 0),
    ];
    let lines = render(Format::Csv, results, &["benchmark"], None).unwrap();
    assert_eq!(lines, vec!["Benchmark", "a", "a", "b", "b"]);
    let results = vec![
        result("v1", "a", 3),
        result("v1", "b", 1),
        result("v1", "a", 2),
        result("v1", "b", 0),
    ];
    let lines = render(Format::Csv, results, &["benchmark", "revision"], None).unwrap();
    assert_eq!(lines, vec!["Benchmark,Revision", "a,v1", "a,v1", "b,v1", "b,v1"]);
    let results = vec![
        result("v1", "a", 3),
        result("v1", "b", 1),
        result("v1", "a", 2),
        result("v1", "b", 0),
    ];
    let rows: Vec<Row> = results.into_iter().map(Row::from).collect();
    let sorted = zstd_bench::sorting::sort_rows(rows, &keys(&["benchmark"]));
    let durations: Vec<String> =
        sorted.iter().map(|row| row.get("duration_ns").unwrap().display()).collect();
    assert_eq!(durations, vec!["3", "2", "1", "0"]);
}

#[test]
fn markdown_draws_bars_and_a_line_of_dashes() {
    let results = vec![result("dev", "compress", 100), result("v1", "decompress", 8)];
    let lines =
        render(Format::Markdown, results, &["benchmark", "revision", "duration_ns"], None).unwrap();
    assert_eq!(
        lines,
        vec![
            "| Benchmark  | Revision | Duration Ns |",
            "|------------|----------|-------------|",
            "| compress   | dev      |         100 |",
            "| decompress | v1       |           8 |",
        ]
    );
}

#[test]
fn pretty_pads_with_spaces() {
    let results = vec![result("dev", "compress", 100), result("v1", "decompress", 8)];
    let lines =
        render(Format::Pretty, results, &["benchmark", "revision", "duration_ns"], None).unwrap();
    assert_eq!(
        lines,
        vec![
            "Benchmark  Revision Duration Ns",
            "---------- -------- -----------",
            "compress   dev              100",
            "decompress v1                 8",
        ]
    );
}

#[test]
fn the_title_is_centred() {
    let results = vec![result("dev", "a-very-long-benchmark-name", 100)];
    let lines = render(Format::Pretty, results, &["benchmark", "duration_ns"], None).unwrap();
    assert_eq!(
        lines,
        vec![
            "        Benchmark          Duration Ns",
            "-------------------------- -----------",
            "a-very-long-benchmark-name         100",
        ]
    );
}

#[test]
fn separated_values_have_no_line_of_dashes() {
    let results = vec![result("dev", "compress", 100), result("v1", "decompress", 8)];
    let lines = render(Format::PrettyCsv, results, &["benchmark", "duration_ns"], None).unwrap();
    assert_eq!(
        lines,
        vec!["Benchmark , Duration Ns", "compress  ,         100", "decompress,           8"]
    );
    let results = vec![result("dev", "compress", 100), result("v1", "decompress", 8)];
    let lines = render(Format::Csv, results, &["benchmark", "duration_ns"], None).unwrap();
    assert_eq!(lines, vec!["Benchmark,Duration Ns", "compress,100", "decompress,8"]);
    let results = vec![result("dev", "compress", 100), result("v1", "decompress", 8)];
    let lines = render(Format::Tsv, results, &["benchmark", "duration_ns"], None).unwrap();
    assert_eq!(lines, vec!["Benchmark\tDuration Ns", "compress\t100", "decompress\t8"]);
    let results = vec![result("dev", "compress", 100), result("v1", "decompress", 8)];
    let lines = render(Format::PrettyTsv, results, &["benchmark", "duration_ns"], None).unwrap();
    assert_eq!(
        lines,
        vec!["Benchmark \tDuration Ns", "compress  \t        100", "decompress\t          8"]
    );
}

#[test]
fn missing_values_show_as_not_available() {
    let mut without = result("dev", "compress", 100);
    without.uncompressed_bytes = None;
    without.zstd_tag = None;
    let lines = render(
        Format::Csv,
        vec![without],
        &["tag", "uncompressed_bytes", "compressed_bytes", "ratio", "speed_mbps"],
        None,
    )
    .unwrap();
    assert_eq!(
        lines,
        vec!["Tag,Uncompressed Bytes,Compressed Bytes,Ratio,Speed MB/s", "N/A,N/A,400,N/A,N/A"]
    );
}

#[test]
fn speed_and_ratio_follow_from_the_counts() {
    // 1000 bytes in 100 ns are 10000 bytes in a millisecond; 1000 / 400 = 2.5.
    let lines = render(
        Format::Csv,
        vec![result("dev", "compress", 100)],
        &["ratio", "speed_mbps", "speed_mbps_min", "speed_mbps_stddev"],
        None,
    )
    .unwrap();
    assert_eq!(
        lines,
        vec!["Ratio,Speed MB/s,Speed Mbps Min,Speed Mbps Stddev", "2.50,10000.00,10000.00,inf"]
    );
    let mut thirds = result("dev", "compress", 3);
    thirds.uncompressed_bytes = Some(2);
    thirds.compressed_bytes = Some(3);
    let lines = render(Format::Csv, vec![thirds], &["ratio", "speed_mbps"], None).unwrap();
    assert_eq!(lines, vec!["Ratio,Speed MB/s", "0.67,666.67"]);
    let mut nothing = result("dev", "compress", 0);
    nothing.uncompressed_bytes = Some(0);
    nothing.compressed_bytes = Some(0);
    let lines = render(Format::Csv, vec![nothing], &["ratio", "speed_mbps"], None).unwrap();
    assert_eq!(lines, vec!["Ratio,Speed MB/s", "NaN,NaN"]);
}

#[test]
fn all_fields_of_a_row() {
    let row = Row::from(result("dev", "compress", 100));
    assert_eq!(row.get("commit").unwrap().display(), "0123456789");
    assert_eq!(row.get("revision").unwrap().display(), "dev");
    assert_eq!(row.get("tag").unwrap().display(), "N/A");
    assert_eq!(row.get("branch").unwrap().display(), "main");
    assert_eq!(row.get("commit_timestamp").unwrap().display(), "1600000000");
    assert_eq!(row.get("cc").unwrap().display(), "gcc");
    assert_eq!(row.get("cc_version").unwrap().display(), "10.2");
    assert_eq!(row.get("cflags").unwrap().display(), "-O3");
    assert_eq!(row.get("command_prefix").unwrap().display(), "taskset -c 0");
    assert_eq!(row.get("benchmark").unwrap().display(), "compress");
    assert_eq!(row.get("config").unwrap().display(), "N/A");
    assert_eq!(row.get("dataset").unwrap().display(), "silesia");
    assert_eq!(row.get("iters_per_run").unwrap().display(), "10");
    assert_eq!(row.get("runs").unwrap().display(), "3");
    assert_eq!(row.get("uncompressed_bytes").unwrap().display(), "1000");
    assert_eq!(row.get("compressed_bytes").unwrap().display(), "400");
    assert_eq!(row.get("duration_ns").unwrap().display(), "100");
    assert_eq!(row.get("duration_ns_min").unwrap().display(), "100");
    assert_eq!(row.get("duration_ns_max").unwrap().display(), "100");
    assert_eq!(row.get("duration_ns_median").unwrap().display(), "100");
    assert_eq!(row.get("duration_ns_stddev").unwrap().display(), "0");
    assert_eq!(row.get("ratio").unwrap().display(), "2.50");
    assert_eq!(row.get("speed_mbps").unwrap().display(), "10000.00");
    assert_eq!(row.get("speed_mbps_max").unwrap().display(), "10000.00");
    assert_eq!(row.get("speed_mbps_median").unwrap().display(), "10000.00");
    assert!(row.get("no_such_key").is_none());
    assert_eq!(row.keys().len(), 27);
}

#[test]
fn a_short_commit_is_kept_whole() {
    let mut short = result("dev", "compress", 100);
    short.zstd_commit = "abc".to_string();
    let row = Row::from(short);
    assert_eq!(row.get("commit").unwrap().display(), "abc");
}

#[test]
fn titles_are_the_keys_in_words() {
    let row = Row::new();
    assert_eq!(row.title("duration_ns"), "Duration Ns");
    assert_eq!(row.title("benchmark"), "Benchmark");
    assert_eq!(row.title("speed_mbps"), "Speed MB/s");
    assert_eq!(row.title("speed_mbps_min"), "Speed Mbps Min");
    assert_eq!(row.title("cc"), "Compiler");
    assert_eq!(row.title("cc_version"), "Compiler Version");
    assert_eq!(row.title("cflags"), "Compiler Flags");
    assert_eq!(row.title("__x"), "  X");
    assert_eq!(row.title(""), "");
    assert_eq!(row.title("straße_ß"), "Straße SS");
}

#[test]
fn results_are_ratios_bytes_durations_and_speeds() {
    let row = Row::new();
    assert!(row.is_result("ratio"));
    assert!(row.is_result("uncompressed_bytes"));
    assert!(row.is_result("bytes"));
    assert!(row.is_result("duration_ns_max"));
    assert!(row.is_result("speed_mbps"));
    assert!(!row.is_result("runs"));
    assert!(!row.is_result("ratios"));
    assert!(!row.is_result("bytes_read"));
    assert!(!row.is_result("my_duration_ns"));
}

#[test]
fn no_rows_give_no_lines() {
    let lines = render(Format::Markdown, Vec::new(), &["benchmark"], None).unwrap();
    assert!(lines.is_empty());
    let lines = render(Format::Markdown, Vec::new(), &["benchmark"], Some(&dev())).unwrap();
    assert!(lines.is_empty());
}

#[test]
fn a_baseline_key_that_is_not_listed_is_refused() {
    let rendered =
        render(Format::Pretty, vec![result("dev", "compress", 100)], &["benchmark"], Some(&dev()));
    assert!(matches!(rendered, Err(RenderError::MissingBaselineKey)));
}

#[test]
fn an_unknown_key_is_refused() {
    let rendered =
        render(Format::Pretty, vec![result("dev", "compress", 100)], &["benchmark", "nope"], None);
    assert!(matches!(rendered, Err(RenderError::UnknownKey)));
}

#[test]
fn a_baseline_key_without_texts_is_refused() {
    let by_runs = Comparison { key: "runs".to_string(), baseline: "3".to_string() };
    let rendered = render(
        Format::Pretty,
        vec![result("dev", "compress", 100)],
        &["benchmark", "runs", "duration_ns"],
        Some(&by_runs),
    );
    assert!(matches!(rendered, Err(RenderError::BaselineNotText)));
    let lines = render(
        Format::Csv,
        vec![result("dev", "compress", 100)],
        &["benchmark", "runs"],
        Some(&by_runs),
    )
    .unwrap();
    assert_eq!(lines, vec!["Benchmark,", "compress,"]);
}

#[test]
fn groups_of_different_sizes_are_refused_where_a_later_one_is_smaller() {
    let results = vec![
        result("dev", "a", 100),
        result("v1", "a", 80),
        result("dev", "b", 100),
    ];
    let rendered = render(
        Format::Pretty,
        results,
        &["benchmark", "revision", "duration_ns"],
        Some(&dev()),
    );
    assert!(matches!(rendered, Err(RenderError::UnevenGroups)));
}

#[test]
fn a_change_between_a_count_and_nothing_is_refused() {
    let mut without = result("v1", "a", 80);
    without.uncompressed_bytes = None;
    let results = vec![result("dev", "a", 100), without];
    let rendered = render(
        Format::Pretty,
        results,
        &["benchmark", "revision", "uncompressed_bytes"],
        Some(&dev()),
    );
    assert!(matches!(rendered, Err(RenderError::NotComparable)));
}

#[test]
fn each_group_is_one_line() {
    let results = vec![
        result("v1", "b", 30),
        result("dev", "a", 100),
        result("v1", "a", 125),
        result("dev", "b", 40),
    ];
    let lines = render(
        Format::Csv,
        results,
        &["benchmark", "revision", "duration_ns", "runs"],
        Some(&dev()),
    )
    .unwrap();
    assert_eq!(
        lines,
        vec![
            "Benchmark,Duration Ns (dev),Duration Ns (v1),Duration Ns (v1 - dev),Runs",
            "a,100,125,25.0%,3",
            "b,40,30,-25.0%,3",
        ]
    );
}

#[test]
fn changes_are_rounded_to_a_tenth_of_a_percent() {
    let results = vec![result("dev", "a", 3), result("v1", "a", 4), result("v2", "a", 3)];
    let lines =
        render(Format::Csv, results, &["revision", "duration_ns"], Some(&dev())).unwrap();
    assert_eq!(
        lines,
        vec![
            "Duration Ns (dev),Duration Ns (v1),Duration Ns (v1 - dev),Duration Ns (v2),Duration Ns (v2 - dev)",
            "3,4,33.3%,3,0.0%",
        ]
    );
    let results = vec![result("dev", "a", 0), result("v1", "a", 4), result("v2", "a", 0)];
    let lines =
        render(Format::Csv, results, &["revision", "duration_ns"], Some(&dev())).unwrap();
    assert_eq!(lines[1], "0,4,inf%,0,NaN%");
    let results = vec![result("dev", "a", 2000), result("v1", "a", 1999)];
    let lines =
        render(Format::Csv, results, &["revision", "duration_ns"], Some(&dev())).unwrap();
    assert_eq!(lines[1], "2000,1999,-0.1%");
    let results = vec![result("dev", "a", 20000), result("v1", "a", 19999)];
    let lines =
        render(Format::Csv, results, &["revision", "duration_ns"], Some(&dev())).unwrap();
    assert_eq!(lines[1], "20000,19999,-0.0%");
}

#[test]
fn changes_of_quotients() {
    let mut faster = result("v1", "a", 50);
    faster.compressed_bytes = Some(500);
    let results = vec![result("dev", "a", 100), faster];
    let lines = render(
        Format::Csv,
        results,
        &["revision", "speed_mbps", "ratio"],
        Some(&dev()),
    )
    .unwrap();
    assert_eq!(
        lines,
        vec![
            "Speed MB/s (dev),Speed MB/s (v1),Speed MB/s (v1 - dev),Ratio (dev),Ratio (v1),Ratio (v1 - dev)",
            "10000.00,20000.00,100.0%,2.50,2.00,-20.0%",
        ]
    );
}

#[test]
fn the_named_csv_and_tsv_forms_are_bare() {
    let results = vec![result("dev", "compress", 100)];
    let csv = Format::from_name("csv").unwrap();
    let lines = render(csv, results, &["benchmark", "duration_ns"], None).unwrap();
    assert_eq!(lines, vec!["Benchmark,Duration Ns", "compress,100"]);
    let results = vec![result("dev", "compress", 100)];
    let tsv = Format::from_name("tsv").unwrap();
    let lines = render(tsv, results, &["benchmark", "duration_ns"], None).unwrap();
    assert_eq!(lines, vec!["Benchmark\tDuration Ns", "compress\t100"]);
}

#[test]
fn formats_have_names() {
    assert_eq!(Format::from_name("markdown"), Some(Format::Markdown));
    assert_eq!(Format::from_name("pretty"), Some(Format::Pretty));
    assert_eq!(Format::from_name("csv"), Some(Format::Csv));
    assert_eq!(Format::from_name("tsv"), Some(Format::Tsv));
    assert_eq!(Format::from_name("pretty_csv"), None);
    assert_eq!(Format::from_name("html"), None);
}
