use zstd_bench::config::{Config, ConfigError, DataSetMode, Parameter};
use zstd_bench::toml_value::{parse, TomlValue};

const FULL: &str = r#"
repo = "https://github.com/facebook/zstd"
commits = ["dev", "v1.4.5"]
command_prefix = ["taskset", "-c", "0"]
min_secs = 2
min_runs = 5
min_ms_per_run = 50
min_iters_per_run = 7

[benchmarks.compress]
ZSTD_c_compressionLevel = 3
datasets = ["silesia"]

[benchmarks.decompress_literals.level1]
ZSTD_c_compressionLevel = 1
Q = 4
fast = true
label = "one"

[benchmarks.decompress_literals.level19]
ZSTD_c_compressionLevel = 19

[datasets.silesia]
files = ["silesia/*"]

[datasets.enwik]
files = ["enwik8", "enwik9"]
mode = "concatenate"

[datasets.chunks]
files = ["data/*"]
mode = { cut = 4096 }
"#;

fn load(text: &str) -> Result<Config, ConfigError> {
    Config::load(text.as_bytes())
}

#[test]
fn a_document_is_read_as_a_tree() {
    let tree = parse(b"a = 1\nb = \"two\"\nc = [true, false]\n[d]\ne = 1.5\n").unwrap();
    match tree {
        TomlValue::Table(entries) => {
            let keys: Vec<&str> = entries.iter().map(|entry| entry.0.as_str()).collect();
            assert_eq!(keys, vec!["a", "b", "c", "d"]);
            assert!(matches!(entries[0].1, TomlValue::Integer(1)));
            assert!(matches!(&entries[1].1, TomlValue::String(s) if s == "two"));
            match &entries[2].1 {
                TomlValue::Array(items) => {
                    assert_eq!(items.len(), 2);
                    assert!(matches!(items[0], TomlValue::Boolean(true)));
                    assert!(matches!(items[1], TomlValue::Boolean(false)));
                },
                _ => panic!("no array"),
            }
            match &entries[3].1 {
                TomlValue::Table(inner) => {
                    assert_eq!(inner[0].0, "e");
                    assert!(matches!(inner[0].1, TomlValue::Float(bits) if bits == 1.5f64.to_bits()));
                },
                _ => panic!("no table"),
            }
        },
        _ => panic!("no table"),
    }
}

#[test]
fn bytes_that_are_no_document_are_refused() {
    assert!(parse(b"a = ").is_none());
    assert!(parse(&[0xff, 0xfe]).is_none());
    assert!(matches!(load("a = "), Err(ConfigError::Syntax)));
}

#[test]
fn an_empty_document_is_the_default_configuration() {
    let config = load("").unwrap();
    assert_eq!(config.repo(), "");
    assert!(config.commits().is_empty());
    assert!(config.command_prefix().is_empty());
    assert!(config.benchmarks().is_empty());
    assert!(config.dataset_configs().is_empty());
    assert_eq!(config.min_secs(), 10);
    assert_eq!(config.min_runs(), 3);
    assert_eq!(config.min_ms_per_run(), 100);
    assert_eq!(config.min_iters_per_run(), 1);
    let config = Config::new();
    assert_eq!(config.min_secs(), 10);
    assert_eq!(config.min_runs(), 3);
    assert_eq!(config.min_ms_per_run(), 100);
    assert_eq!(config.min_iters_per_run(), 1);
    assert!(config.configs_for_benchmark("compress").is_empty());
}

#[test]
fn a_full_document_is_read() {
    let config = load(FULL).unwrap();
    assert_eq!(config.repo(), "https://github.com/facebook/zstd");
    assert_eq!(config.commits(), ["dev".to_string(), "v1.4.5".to_string()]);
    assert_eq!(
        config.command_prefix(),
        ["taskset".to_string(), "-c".to_string(), "0".to_string()]
    );
    assert_eq!(config.min_secs(), 2);
    assert_eq!(config.min_runs(), 5);
    assert_eq!(config.min_ms_per_run(), 50);
    assert_eq!(config.min_iters_per_run(), 7);
    assert_eq!(config.benchmarks(), vec!["compress", "decompress_literals"]);
}

#[test]
fn a_benchmark_without_variants_has_one_configuration() {
    let config = load(FULL).unwrap();
    let variants = config.configs_for_benchmark("compress");
    assert_eq!(variants.len(), 1);
    assert!(variants[0].0.is_none());
    let level = variants[0].1.get_parameter("ZSTD_c_compressionLevel").unwrap();
    assert_eq!(level.as_integer(), Some(3));
    assert_eq!(level.unwrap_integer(), 3);
    assert!(level.as_string().is_none());
    assert!(level.as_bool().is_none());
    assert!(variants[0].1.get_parameter("datasets").is_none());
    assert!(variants[0].1.get_parameter("Q").is_none());
    assert_eq!(variants[0].1.get_data_sets(), &Some(vec!["silesia".to_string()]));
    assert!(variants[0].1.allows("silesia"));
    assert!(!variants[0].1.allows("enwik"));
}

#[test]
fn a_benchmark_with_variants_has_a_configuration_for_each() {
    let config = load(FULL).unwrap();
    let variants = config.configs_for_benchmark("decompress_literals");
    assert_eq!(variants.len(), 2);
    assert_eq!(variants[0].0.as_deref(), Some("level1"));
    assert_eq!(variants[1].0.as_deref(), Some("level19"));
    let first = &variants[0].1;
    assert_eq!(first.get_parameter("Q").unwrap().as_integer(), Some(4));
    assert_eq!(first.get_parameter("fast").unwrap().as_bool(), Some(true));
    assert!(first.get_parameter("fast").unwrap().unwrap_bool());
    assert_eq!(first.get_parameter("label").unwrap().as_string(), Some("one"));
    assert_eq!(first.get_parameter("label").unwrap().unwrap_string(), "one");
    assert!(first.get_data_sets().is_none());
    assert!(first.allows("anything"));
    assert_eq!(
        variants[1].1.get_parameter("ZSTD_c_compressionLevel").unwrap().as_integer(),
        Some(19)
    );
    assert!(config.configs_for_benchmark("nothing").is_empty());
}

#[test]
fn datasets_have_files_and_a_mode() {
    let config = load(FULL).unwrap();
    let data_sets = config.dataset_configs();
    assert_eq!(data_sets.len(), 3);
    assert_eq!(data_sets[0].name, "chunks");
    assert_eq!(data_sets[0].globs, vec!["data/*".to_string()]);
    assert_eq!(data_sets[0].mode, DataSetMode::Cut(4096));
    assert_eq!(data_sets[1].name, "enwik");
    assert_eq!(data_sets[1].globs, vec!["enwik8".to_string(), "enwik9".to_string()]);
    assert_eq!(data_sets[1].mode, DataSetMode::ConcatenateFiles);
    assert_eq!(data_sets[2].name, "silesia");
    assert_eq!(data_sets[2].mode, DataSetMode::SeparateFiles);
    assert_eq!(DataSetMode::default(), DataSetMode::SeparateFiles);
}

#[test]
fn modes_are_named_by_their_beginning() {
    let mode = |text: &str| DataSetMode::load(&TomlValue::String(text.to_string()));
    assert_eq!(mode("cat"), Ok(DataSetMode::ConcatenateFiles));
    assert_eq!(mode("concat"), Ok(DataSetMode::ConcatenateFiles));
    assert_eq!(mode("concatenate"), Ok(DataSetMode::ConcatenateFiles));
    assert_eq!(mode("sep"), Ok(DataSetMode::SeparateFiles));
    assert_eq!(mode("separate"), Ok(DataSetMode::SeparateFiles));
    assert_eq!(mode("cut"), Err(ConfigError::InvalidMode));
    assert_eq!(mode(""), Err(ConfigError::InvalidMode));
    assert_eq!(DataSetMode::load(&TomlValue::Integer(3)), Err(ConfigError::ExpectedString));
    let cut = |key: &str, value: TomlValue| {
        DataSetMode::load(&TomlValue::Table(vec![(key.to_string(), value)]))
    };
    assert_eq!(cut("cut", TomlValue::Integer(16)), Ok(DataSetMode::Cut(16)));
    assert_eq!(cut("cut", TomlValue::String("16".to_string())), Err(ConfigError::ExpectedInteger));
    assert_eq!(cut("chop", TomlValue::Integer(16)), Err(ConfigError::InvalidMode));
    assert_eq!(DataSetMode::load(&TomlValue::Table(Vec::new())), Err(ConfigError::InvalidMode));
}

#[test]
fn defects_of_a_document_are_named() {
    assert!(matches!(load("command_prefix = \"taskset\""), Err(ConfigError::ExpectedArray)));
    assert!(matches!(load("command_prefix = [1]"), Err(ConfigError::ExpectedString)));
    assert!(matches!(load("commits = 3"), Err(ConfigError::ExpectedArray)));
    assert!(matches!(load("repo = 3"), Err(ConfigError::ExpectedString)));
    assert!(matches!(load("min_secs = \"3\""), Err(ConfigError::ExpectedInteger)));
    assert!(matches!(load("min_runs = 1.5"), Err(ConfigError::ExpectedInteger)));
    assert!(matches!(load("benchmarks = 3"), Err(ConfigError::ExpectedTable)));
    assert!(matches!(load("[benchmarks]\ncompress = 3"), Err(ConfigError::ExpectedTable)));
    assert!(matches!(
        load("[benchmarks.compress]\nlevel = 1.5"),
        Err(ConfigError::UnsupportedParameter)
    ));
    assert!(matches!(
        load("[benchmarks.compress]\ndatasets = \"silesia\""),
        Err(ConfigError::ExpectedArray)
    ));
    assert!(matches!(
        load("[benchmarks.compress]\nlevel = 1\n[benchmarks.compress.fast]\nlevel = 2"),
        Err(ConfigError::ExpectedTable)
    ));
    assert!(matches!(load("datasets = 3"), Err(ConfigError::ExpectedTable)));
    assert!(matches!(load("[datasets]\nsilesia = 3"), Err(ConfigError::ExpectedTable)));
    assert!(matches!(load("[datasets.silesia]\nmode = \"sep\""), Err(ConfigError::MissingFiles)));
    assert!(matches!(
        load("[datasets.silesia]\nfiles = [\"a\"]\nmode = \"zip\""),
        Err(ConfigError::InvalidMode)
    ));
}

#[test]
fn the_first_defect_is_reported() {
    assert!(matches!(
        load("command_prefix = 1\ncommits = [1]\nrepo = 3"),
        Err(ConfigError::ExpectedArray)
    ));
    assert!(matches!(load("commits = [1]\nrepo = 3\nbenchmarks = 1"), Err(ConfigError::ExpectedTable)));
    assert!(matches!(load("commits = [1]\nmin_secs = true"), Err(ConfigError::ExpectedString)));
}

#[test]
fn a_negative_number_wraps_around() {
    let config = load("min_runs = -1").unwrap();
    assert_eq!(config.min_runs(), u64::MAX);
    assert_eq!(zstd_bench::config::wrap(-2), u64::MAX - 1);
    assert_eq!(zstd_bench::config::wrap(i64::MIN), 1u64 << 63);
    assert_eq!(zstd_bench::config::wrap(5), 5);
}

#[test]
fn parameters_have_one_kind() {
    let text = Parameter::from_value(&TomlValue::String("x".to_string())).unwrap();
    assert_eq!(text.as_string(), Some("x"));
    assert_eq!(text.as_integer(), None);
    assert_eq!(text.as_bool(), None);
    let number = Parameter::from_value(&TomlValue::Integer(-4)).unwrap();
    assert_eq!(number.as_integer(), Some(-4));
    let flag = Parameter::from_value(&TomlValue::Boolean(false)).unwrap();
    assert_eq!(flag.as_bool(), Some(false));
    assert!(matches!(
        Parameter::from_value(&TomlValue::Float(0)),
        Err(ConfigError::UnsupportedParameter)
    ));
    assert!(matches!(
        Parameter::from_value(&TomlValue::Array(Vec::new())),
        Err(ConfigError::UnsupportedParameter)
    ));
}

#[test]
fn the_first_entry_with_a_key_counts() {
    let doc = TomlValue::Table(vec![
        ("min_runs".to_string(), TomlValue::Integer(4)),
        ("min_runs".to_string(), TomlValue::Integer(9)),
    ]);
    let config = Config::from_toml(&doc).unwrap();
    assert_eq!(config.min_runs(), 4);
    assert!(matches!(doc.get("min_runs"), Some(TomlValue::Integer(4))));
    assert!(doc.get("min_secs").is_none());
    assert!(TomlValue::Integer(1).get("min_runs").is_none());
}
