//! The configuration of a benchmarking session, and how it is read from a
//! TOML document.

use crate::text::{begins_with, starts_with};
use crate::entries::{find, first_at, has_key, index_of, lemma_first_at_unique};
use crate::fold::{lemma_try_fold_error, lemma_try_fold_step, try_fold};
use crate::toml_value::{parse, toml_document, TomlValue};
use vstd::prelude::*;

verus! {

/// Why a document is no configuration.
#[derive(Clone, Copy, Debug, PartialEq, Eq, Structural)]
pub enum ConfigError {
    /// The bytes are no TOML document.
    Syntax,
    /// A table was expected.
    ExpectedTable,
    /// An array was expected.
    ExpectedArray,
    /// A string was expected.
    ExpectedString,
    /// An integer was expected.
    ExpectedInteger,
    /// A parameter of a benchmark is neither a string, an integer nor a boolean.
    UnsupportedParameter,
    /// A dataset names no files.
    MissingFiles,
    /// The mode of a dataset is none of the three that exist.
    InvalidMode,
}

/// The value of an integer as `u64`, where a negative one wraps around.
pub open spec fn wrapped(i: i64) -> u64 {
    if i >= 0 {
        i as u64
    } else {
        (i + 0x1_0000_0000_0000_0000) as u64
    }
}

/// The value of an integer as `u64`, where a negative one wraps around.
pub fn wrap(i: i64) -> (u: u64)
    ensures
        u == wrapped(i),
{
    if i >= 0 {
        i as u64
    } else {
        u64::MAX - ((-(i + 1)) as u64)
    }
}

/// The value of an integer as `usize`: its wrapped value, cut to the width of
/// `usize`.
pub open spec fn wrapped_size(i: i64) -> usize {
    if usize::BITS == 64 {
        wrapped(i) as usize
    } else {
        (wrapped(i) % 0x1_0000_0000) as usize
    }
}

/// The value of an integer as `usize`.
pub fn wrap_size(i: i64) -> (u: usize)
    ensures
        u == wrapped_size(i),
{
    let wide: u64 = wrap(i);
    if usize::BITS == 64 {
        wide as usize
    } else {
        (wide % 0x1_0000_0000) as usize
    }
}

/// One named parameter of a benchmark.
pub enum Parameter {
    String(String),
    Integer(i64),
    Bool(bool),
}

/// The parameter that a value of a document stands for.
pub open spec fn parameter_of(value: TomlValue) -> Result<Parameter, ConfigError> {
    match value {
        TomlValue::String(s) => Ok(Parameter::String(s)),
        TomlValue::Integer(i) => Ok(Parameter::Integer(i)),
        TomlValue::Boolean(b) => Ok(Parameter::Bool(b)),
        _ => Err(ConfigError::UnsupportedParameter),
    }
}

impl Parameter {
    /// The parameter that a value of a document stands for.
    pub fn from_value(value: &TomlValue) -> (parameter: Result<Parameter, ConfigError>)
        ensures
            parameter == parameter_of(*value),
    {
        match value {
            TomlValue::String(s) => Ok(Parameter::String(s.clone())),
            TomlValue::Integer(i) => Ok(Parameter::Integer(*i)),
            TomlValue::Boolean(b) => Ok(Parameter::Bool(*b)),
            _ => Err(ConfigError::UnsupportedParameter),
        }
    }

    pub fn as_string(&self) -> (text: Option<&str>)
        ensures
            text is Some <==> self is String,
            text matches Some(t) ==> t@ == self->String_0@,
    {
        if let Parameter::String(s) = self {
            Some(s.as_str())
        } else {
            None
        }
    }

    pub fn as_integer(&self) -> (number: Option<i64>)
        ensures
            number == match *self {
                Parameter::Integer(i) => Some(i),
                _ => None,
            },
    {
        if let Parameter::Integer(i) = self {
            Some(*i)
        } else {
            None
        }
    }

    pub fn as_bool(&self) -> (flag: Option<bool>)
        ensures
            flag == match *self {
                Parameter::Bool(b) => Some(b),
                _ => None,
            },
    {
        if let Parameter::Bool(b) = self {
            Some(*b)
        } else {
            None
        }
    }

    pub fn unwrap_string(&self) -> (text: &str)
        requires
            self is String,
        ensures
            text@ == self->String_0@,
    {
        match self {
            Parameter::String(s) => s.as_str(),
            _ => "",
        }
    }

    pub fn unwrap_integer(&self) -> (number: i64)
        requires
            self is Integer,
        ensures
            number == self->Integer_0,
    {
        match self {
            Parameter::Integer(i) => *i,
            _ => 0,
        }
    }

    pub fn unwrap_bool(&self) -> (flag: bool)
        requires
            self is Bool,
        ensures
            flag == self->Bool_0,
    {
        match self {
            Parameter::Bool(b) => *b,
            _ => false,
        }
    }
}

/// What a `BenchmarkConfig` holds.
pub struct BenchmarkConfigView {
    /// The parameters by name, in the order of the document.
    pub parameters: Seq<(String, Parameter)>,
    /// The datasets that the benchmark is run on; all of them where this is
    /// `None`.
    pub data_sets: Option<Seq<String>>,
}

impl BenchmarkConfigView {
    /// Whether the benchmark is run on the dataset called `name`: on every
    /// dataset where it names none, and else on those that it names.
    pub open spec fn admits(self, name: Seq<char>) -> bool {
        self.data_sets is Some ==> exists|i: int|
            0 <= i < self.data_sets->0.len() && (#[trigger] self.data_sets->0[i])@ == name
    }
}

/// The configuration of one benchmark, or of one variant of it.
pub struct BenchmarkConfig {
    parameters: Vec<(String, Parameter)>,
    data_sets: Option<Vec<String>>,
}

impl View for BenchmarkConfig {
    type V = BenchmarkConfigView;

    closed spec fn view(&self) -> BenchmarkConfigView {
        BenchmarkConfigView {
            parameters: self.parameters@,
            data_sets: match self.data_sets {
                Some(names) => Some(names@),
                None => None,
            },
        }
    }
}

impl Default for BenchmarkConfig {
    fn default() -> (config: BenchmarkConfig)
        ensures
            config@ == (BenchmarkConfigView { parameters: Seq::empty(), data_sets: None }),
    {
        BenchmarkConfig { parameters: Vec::new(), data_sets: None }
    }
}

impl BenchmarkConfig {
    /// The parameter named `param`.
    pub fn get_parameter(&self, param: &str) -> (parameter: Option<&Parameter>)
        ensures
            parameter is Some <==> has_key(self@.parameters, param@),
            parameter matches Some(p) ==> *p == self@.parameters[index_of(
                self@.parameters,
                param@,
            )].1,
    {
        match find(&self.parameters, param) {
            Some(i) => Some(&self.parameters[i].1),
            None => None,
        }
    }

    /// The datasets that the benchmark is restricted to.
    pub fn get_data_sets(&self) -> (names: &Option<Vec<String>>)
        ensures
            names is Some <==> self@.data_sets is Some,
            names matches Some(v) ==> v@ == self@.data_sets->0,
    {
        &self.data_sets
    }

    /// Whether the benchmark is run on the dataset called `name`.
    pub open spec fn admits(self, name: Seq<char>) -> bool {
        self@.admits(name)
    }

    /// Whether the benchmark is run on the dataset called `name`.
    pub fn allows(&self, name: &str) -> (yes: bool)
        ensures
            yes == self.admits(name@),
    {
        match &self.data_sets {
            None => true,
            Some(names) => {
                let mut i: usize = 0;
                while i < names.len()
                    invariant
                        i <= names@.len(),
                        self@.data_sets == Some(names@),
                        forall|j: int| 0 <= j < i ==> (#[trigger] names@[j])@ != name@,
                    decreases names@.len() - i,
                {
                    if crate::text::same_text(names[i].as_str(), name) {
                        assert(self@.data_sets->0[i as int]@ == name@);
                        return true;
                    }
                    i = i + 1;
                }
                false
            },
        }
    }
}

/// How the files of a dataset become its data.
#[derive(Clone, Copy, Debug, PartialEq, Eq, Structural)]
pub enum DataSetMode {
    /// Each file is one datum.
    SeparateFiles,
    /// All files, one after the other, are one datum.
    ConcatenateFiles,
    /// Each chunk of this many bytes of each file is one datum.
    Cut(usize),
}

impl Default for DataSetMode {
    fn default() -> (mode: DataSetMode)
        ensures
            mode == DataSetMode::SeparateFiles,
    {
        DataSetMode::SeparateFiles
    }
}

/// The mode that a value of a document stands for: a table with the single
/// key `cut` and an integer, or a string that begins with `cat`, `concat` or
/// `sep`.
pub open spec fn mode_of(value: TomlValue) -> Result<DataSetMode, ConfigError> {
    match value {
        TomlValue::Table(entries) => {
            if entries@.len() != 1 || entries@[0].0@ != "cut"@ {
                Err(ConfigError::InvalidMode)
            } else {
                match entries@[0].1 {
                    TomlValue::Integer(i) => Ok(DataSetMode::Cut(wrapped_size(i))),
                    _ => Err(ConfigError::ExpectedInteger),
                }
            }
        },
        TomlValue::String(s) => {
            if begins_with(s@, "cat"@) || begins_with(s@, "concat"@) {
                Ok(DataSetMode::ConcatenateFiles)
            } else if begins_with(s@, "sep"@) {
                Ok(DataSetMode::SeparateFiles)
            } else {
                Err(ConfigError::InvalidMode)
            }
        },
        _ => Err(ConfigError::ExpectedString),
    }
}

impl DataSetMode {
    /// The mode that a value of a document stands for.
    pub fn load(toml: &TomlValue) -> (mode: Result<DataSetMode, ConfigError>)
        ensures
            mode == mode_of(*toml),
    {
        match toml {
            TomlValue::Table(entries) => {
                if entries.len() != 1 || !crate::text::same_text(entries[0].0.as_str(), "cut") {
                    return Err(ConfigError::InvalidMode);
                }
                match &entries[0].1 {
                    TomlValue::Integer(i) => Ok(DataSetMode::Cut(wrap_size(*i))),
                    _ => Err(ConfigError::ExpectedInteger),
                }
            },
            TomlValue::String(s) => {
                if starts_with(s.as_str(), "cat") || starts_with(s.as_str(), "concat") {
                    Ok(DataSetMode::ConcatenateFiles)
                } else if starts_with(s.as_str(), "sep") {
                    Ok(DataSetMode::SeparateFiles)
                } else {
                    Err(ConfigError::InvalidMode)
                }
            },
            _ => Err(ConfigError::ExpectedString),
        }
    }
}

/// What a `DataSetConfig` holds.
pub struct DataSetConfigView {
    pub name: String,
    pub globs: Seq<String>,
    pub mode: DataSetMode,
}

/// The configuration of one dataset.
pub struct DataSetConfig {
    pub name: String,
    pub globs: Vec<String>,
    pub mode: DataSetMode,
}

impl View for DataSetConfig {
    type V = DataSetConfigView;

    open spec fn view(&self) -> DataSetConfigView {
        DataSetConfigView { name: self.name, globs: self.globs@, mode: self.mode }
    }
}

/// One step of reading a list of strings.
pub open spec fn string_step() -> spec_fn(Seq<String>, TomlValue) -> Result<
    Seq<String>,
    ConfigError,
> {
    |done: Seq<String>, item: TomlValue|
        match item {
            TomlValue::String(s) => Ok(done.push(s)),
            _ => Err(ConfigError::ExpectedString),
        }
}

/// The strings of an array of strings.
pub open spec fn strings_of(value: TomlValue) -> Result<Seq<String>, ConfigError> {
    match value {
        TomlValue::Array(items) => try_fold(items@, Seq::<String>::empty(), string_step()),
        _ => Err(ConfigError::ExpectedArray),
    }
}

/// The strings of an array of strings.
pub fn load_strings(value: &TomlValue) -> (strings: Result<Vec<String>, ConfigError>)
    ensures
        strings_of(*value) == match strings {
            Ok(v) => Ok(v@),
            Err(e) => Err(e),
        },
{
    match value {
        TomlValue::Array(items) => {
            let mut out: Vec<String> = Vec::new();
            let mut i: usize = 0;
            assert(items@.take(0) =~= Seq::<TomlValue>::empty());
            while i < items.len()
                invariant
                    i <= items@.len(),
                    *value == TomlValue::Array(*items),
                    try_fold(items@.take(i as int), Seq::<String>::empty(), string_step()) == Ok::<
                        Seq<String>,
                        ConfigError,
                    >(out@),
                decreases items@.len() - i,
            {
                proof {
                    lemma_try_fold_step(items@, Seq::<String>::empty(), string_step(), i as int);
                }
                match &items[i] {
                    TomlValue::String(s) => {
                        out.push(s.clone());
                    },
                    _ => {
                        proof {
                            lemma_try_fold_error(
                                items@,
                                Seq::<String>::empty(),
                                string_step(),
                                i + 1,
                            );
                        }
                        return Err(ConfigError::ExpectedString);
                    },
                }
                i = i + 1;
            }
            assert(items@.take(items@.len() as int) =~= items@);
            Ok(out)
        },
        _ => Err(ConfigError::ExpectedArray),
    }
}

/// The strings under `key`: none where the key is absent.
pub open spec fn optional_strings_of(doc: TomlValue, key: Seq<char>) -> Result<
    Seq<String>,
    ConfigError,
> {
    match doc.entry(key) {
        Some(value) => strings_of(value),
        None => Ok(Seq::empty()),
    }
}

/// The number under `key`, where the key is present.
pub open spec fn optional_number_of(doc: TomlValue, key: Seq<char>) -> Result<
    Option<u64>,
    ConfigError,
> {
    match doc.entry(key) {
        Some(TomlValue::Integer(i)) => Ok(Some(wrapped(i))),
        Some(_) => Err(ConfigError::ExpectedInteger),
        None => Ok(None),
    }
}

/// The number that an optional value stands for.
pub fn load_opt_int(value: Option<&TomlValue>) -> (number: Result<Option<u64>, ConfigError>)
    ensures
        number == match value {
            Some(TomlValue::Integer(i)) => Ok(Some(wrapped(*i))),
            Some(_) => Err(ConfigError::ExpectedInteger),
            None => Ok(None),
        },
{
    match value {
        Some(TomlValue::Integer(i)) => Ok(Some(wrap(*i))),
        Some(_) => Err(ConfigError::ExpectedInteger),
        None => Ok(None),
    }
}

/// One step of reading the parameters of a benchmark: an array is no
/// parameter and is passed over.
pub open spec fn parameter_step() -> spec_fn(Seq<(String, Parameter)>, (String, TomlValue)) -> Result<
    Seq<(String, Parameter)>,
    ConfigError,
> {
    |done: Seq<(String, Parameter)>, entry: (String, TomlValue)|
        if entry.1 is Array {
            Ok(done)
        } else {
            match parameter_of(entry.1) {
                Ok(p) => Ok(done.push((entry.0, p))),
                Err(e) => Err(e),
            }
        }
}

/// The configuration that a table of a document stands for: every entry but
/// the arrays is a parameter, and the array `datasets` names the datasets.
pub open spec fn benchmark_of(value: TomlValue) -> Result<BenchmarkConfigView, ConfigError> {
    match value {
        TomlValue::Table(entries) => {
            match try_fold(entries@, Seq::<(String, Parameter)>::empty(), parameter_step()) {
                Err(e) => Err(e),
                Ok(parameters) => match value.entry("datasets"@) {
                    None => Ok(BenchmarkConfigView { parameters, data_sets: None }),
                    Some(names) => match strings_of(names) {
                        Err(e) => Err(e),
                        Ok(data_sets) => Ok(
                            BenchmarkConfigView { parameters, data_sets: Some(data_sets) },
                        ),
                    },
                },
            }
        },
        _ => Err(ConfigError::ExpectedTable),
    }
}

/// The variants of each benchmark, by the benchmark's name.
pub type Benchmarks = Seq<(String, Seq<(Option<String>, BenchmarkConfigView)>)>;

/// `benchmarks` with one more variant of the benchmark called `name`: it
/// joins the variants of that name, or starts them where the name is new.
pub open spec fn with_variant(
    benchmarks: Benchmarks,
    name: String,
    variant: Option<String>,
    config: BenchmarkConfigView,
) -> Benchmarks {
    if has_key(benchmarks, name@) {
        let i = index_of(benchmarks, name@);
        benchmarks.update(i, (benchmarks[i].0, benchmarks[i].1.push((variant, config))))
    } else {
        benchmarks.push((name, seq![(variant, config)]))
    }
}

/// One step of reading the variants of the benchmark called `name`.
pub open spec fn variant_step(name: String) -> spec_fn(Benchmarks, (String, TomlValue)) -> Result<
    Benchmarks,
    ConfigError,
> {
    |done: Benchmarks, entry: (String, TomlValue)|
        match benchmark_of(entry.1) {
            Ok(config) => Ok(with_variant(done, name, Some(entry.0), config)),
            Err(e) => Err(e),
        }
}

/// Some entry of the table is itself a table.
pub open spec fn has_table(entries: Seq<(String, TomlValue)>) -> bool {
    exists|i: int| 0 <= i < entries.len() && (#[trigger] entries[i]).1 is Table
}

/// One step of reading the benchmarks: a table that holds a table holds one
/// variant under each key; any other table is the one configuration of the
/// benchmark, which then has no variant name.
pub open spec fn benchmark_step() -> spec_fn(Benchmarks, (String, TomlValue)) -> Result<
    Benchmarks,
    ConfigError,
> {
    |done: Benchmarks, entry: (String, TomlValue)|
        match entry.1 {
            TomlValue::Table(entries) => {
                if has_table(entries@) {
                    try_fold(entries@, done, variant_step(entry.0))
                } else {
                    match benchmark_of(entry.1) {
                        Ok(config) => Ok(with_variant(done, entry.0, None, config)),
                        Err(e) => Err(e),
                    }
                }
            },
            _ => Err(ConfigError::ExpectedTable),
        }
}

/// The benchmarks under the key `benchmarks`, added to `init`.
pub open spec fn benchmarks_of(init: Benchmarks, value: TomlValue) -> Result<
    Benchmarks,
    ConfigError,
> {
    match value {
        TomlValue::Table(entries) => try_fold(entries@, init, benchmark_step()),
        _ => Err(ConfigError::ExpectedTable),
    }
}

/// The dataset that an entry of the table `datasets` stands for.
pub open spec fn data_set_of(entry: (String, TomlValue)) -> Result<DataSetConfigView, ConfigError> {
    if !(entry.1 is Table) {
        Err(ConfigError::ExpectedTable)
    } else {
        match entry.1.entry("files"@) {
            None => Err(ConfigError::MissingFiles),
            Some(files) => match strings_of(files) {
                Err(e) => Err(e),
                Ok(globs) => match entry.1.entry("mode"@) {
                    None => Ok(
                        DataSetConfigView {
                            name: entry.0,
                            globs,
                            mode: DataSetMode::SeparateFiles,
                        },
                    ),
                    Some(mode) => match mode_of(mode) {
                        Err(e) => Err(e),
                        Ok(mode) => Ok(DataSetConfigView { name: entry.0, globs, mode }),
                    },
                },
            },
        }
    }
}

/// One step of reading the datasets.
pub open spec fn data_set_step() -> spec_fn(Seq<DataSetConfigView>, (String, TomlValue)) -> Result<
    Seq<DataSetConfigView>,
    ConfigError,
> {
    |done: Seq<DataSetConfigView>, entry: (String, TomlValue)|
        match data_set_of(entry) {
            Ok(config) => Ok(done.push(config)),
            Err(e) => Err(e),
        }
}

/// The datasets under the key `datasets`.
pub open spec fn data_sets_of(value: TomlValue) -> Result<Seq<DataSetConfigView>, ConfigError> {
    match value {
        TomlValue::Table(entries) => try_fold(
            entries@,
            Seq::<DataSetConfigView>::empty(),
            data_set_step(),
        ),
        _ => Err(ConfigError::ExpectedTable),
    }
}

/// What a `Config` holds.
pub struct ConfigView {
    /// Where the repository of the benchmarked library is, where the document
    /// says so.
    pub repo: Option<String>,
    /// The revisions to benchmark.
    pub commits: Seq<String>,
    /// What is put in front of the command that runs the measurement.
    pub command_prefix: Seq<String>,
    /// The variants of each benchmark, by the benchmark's name.
    pub benchmarks: Benchmarks,
    /// The datasets.
    pub datasets: Seq<DataSetConfigView>,
    pub min_secs: Option<u64>,
    pub min_runs: Option<u64>,
    pub min_ms_per_run: Option<u64>,
    pub min_iters_per_run: Option<u64>,
}

/// The configuration that a document stands for. The keys are read in this
/// order, and the first defect is the error: `command_prefix`, `benchmarks`,
/// `commits`, `datasets`, `repo`, `min_secs`, `min_runs`, `min_ms_per_run`,
/// `min_iters_per_run`.
pub open spec fn config_of(doc: TomlValue) -> Result<ConfigView, ConfigError> {
    match optional_strings_of(doc, "command_prefix"@) {
        Err(e) => Err(e),
        Ok(command_prefix) => match (match doc.entry("benchmarks"@) {
            Some(value) => benchmarks_of(Seq::empty(), value),
            None => Ok(Seq::empty()),
        }) {
            Err(e) => Err(e),
            Ok(benchmarks) => match optional_strings_of(doc, "commits"@) {
                Err(e) => Err(e),
                Ok(commits) => match (match doc.entry("datasets"@) {
                    Some(value) => data_sets_of(value),
                    None => Ok(Seq::empty()),
                }) {
                    Err(e) => Err(e),
                    Ok(datasets) => match (match doc.entry("repo"@) {
                        Some(TomlValue::String(s)) => Ok(Some(s)),
                        Some(_) => Err(ConfigError::ExpectedString),
                        None => Ok(None),
                    }) {
                        Err(e) => Err(e),
                        Ok(repo) => match optional_number_of(doc, "min_secs"@) {
                            Err(e) => Err(e),
                            Ok(min_secs) => match optional_number_of(doc, "min_runs"@) {
                                Err(e) => Err(e),
                                Ok(min_runs) => match optional_number_of(
                                    doc,
                                    "min_ms_per_run"@,
                                ) {
                                    Err(e) => Err(e),
                                    Ok(min_ms_per_run) => match optional_number_of(
                                        doc,
                                        "min_iters_per_run"@,
                                    ) {
                                        Err(e) => Err(e),
                                        Ok(min_iters_per_run) => Ok(
                                            ConfigView {
                                                repo,
                                                commits,
                                                command_prefix,
                                                benchmarks,
                                                datasets,
                                                min_secs,
                                                min_runs,
                                                min_ms_per_run,
                                                min_iters_per_run,
                                            },
                                        ),
                                    },
                                },
                            },
                        },
                    },
                },
            },
        },
    }
}

/// What a list of variants holds.
pub open spec fn variants_view(variants: Seq<(Option<String>, BenchmarkConfig)>) -> Seq<
    (Option<String>, BenchmarkConfigView),
> {
    Seq::new(variants.len(), |i: int| (variants[i].0, variants[i].1@))
}

/// What the benchmarks of a configuration hold.
pub open spec fn benchmarks_view(
    benchmarks: Seq<(String, Vec<(Option<String>, BenchmarkConfig)>)>,
) -> Benchmarks {
    Seq::new(benchmarks.len(), |i: int| (benchmarks[i].0, variants_view(benchmarks[i].1@)))
}

/// What the datasets of a configuration hold.
pub open spec fn data_sets_view(datasets: Seq<DataSetConfig>) -> Seq<DataSetConfigView> {
    Seq::new(datasets.len(), |i: int| datasets[i]@)
}

/// The configuration of a session.
pub struct Config {
    repo: Option<String>,
    commits: Vec<String>,
    command_prefix: Vec<String>,
    benchmark_configs: Vec<(String, Vec<(Option<String>, BenchmarkConfig)>)>,
    dataset_configs: Vec<DataSetConfig>,
    min_secs: Option<u64>,
    min_runs: Option<u64>,
    min_ms_per_run: Option<u64>,
    min_iters_per_run: Option<u64>,
}

impl View for Config {
    type V = ConfigView;

    closed spec fn view(&self) -> ConfigView {
        ConfigView {
            repo: self.repo,
            commits: self.commits@,
            command_prefix: self.command_prefix@,
            benchmarks: benchmarks_view(self.benchmark_configs@),
            datasets: data_sets_view(self.dataset_configs@),
            min_secs: self.min_secs,
            min_runs: self.min_runs,
            min_ms_per_run: self.min_ms_per_run,
            min_iters_per_run: self.min_iters_per_run,
        }
    }
}

/// The configuration without any entry.
pub open spec fn empty_config() -> ConfigView {
    ConfigView {
        repo: None,
        commits: Seq::empty(),
        command_prefix: Seq::empty(),
        benchmarks: Seq::empty(),
        datasets: Seq::empty(),
        min_secs: None,
        min_runs: None,
        min_ms_per_run: None,
        min_iters_per_run: None,
    }
}

impl ConfigView {
    /// The least total duration of the runs of one benchmark, in seconds.
    pub open spec fn min_secs_or_default(self) -> u64 {
        match self.min_secs {
            Some(n) => n,
            None => 10,
        }
    }

    /// The least number of runs.
    pub open spec fn min_runs_or_default(self) -> u64 {
        match self.min_runs {
            Some(n) => n,
            None => 3,
        }
    }

    /// The least number of iterations in a run.
    pub open spec fn min_iters_or_default(self) -> u64 {
        match self.min_iters_per_run {
            Some(n) => n,
            None => 1,
        }
    }

    /// The least duration of a run, in milliseconds.
    pub open spec fn min_ms_or_default(self) -> u64 {
        match self.min_ms_per_run {
            Some(n) => n,
            None => 100,
        }
    }

    /// The variants of the benchmark called `name`: none where the
    /// configuration does not name it.
    pub open spec fn variants_of(self, name: Seq<char>) -> Seq<
        (Option<String>, BenchmarkConfigView),
    > {
        if has_key(self.benchmarks, name) {
            self.benchmarks[index_of(self.benchmarks, name)].1
        } else {
            Seq::empty()
        }
    }
}

impl Config {
    /// The configuration without any entry.
    pub fn new() -> (config: Config)
        ensures
            config@ == empty_config(),
    {
        let config = Config {
            repo: None,
            commits: Vec::new(),
            command_prefix: Vec::new(),
            benchmark_configs: Vec::new(),
            dataset_configs: Vec::new(),
            min_secs: None,
            min_runs: None,
            min_ms_per_run: None,
            min_iters_per_run: None,
        };
        assert(config@.benchmarks =~= Seq::empty());
        assert(config@.datasets =~= Seq::empty());
        config
    }


    /// Reads one benchmark configuration from a table of a document.
    pub fn load_benchmark(toml: &TomlValue) -> (config: Result<BenchmarkConfig, ConfigError>)
        ensures
            benchmark_of(*toml) == match config {
                Ok(c) => Ok(c@),
                Err(e) => Err(e),
            },
    {
        match toml {
            TomlValue::Table(entries) => {
                let mut parameters: Vec<(String, Parameter)> = Vec::new();
                let mut i: usize = 0;
                let ghost init = Seq::<(String, Parameter)>::empty();
                assert(entries@.take(0) =~= Seq::<(String, TomlValue)>::empty());
                while i < entries.len()
                    invariant
                        i <= entries@.len(),
                        *toml == TomlValue::Table(*entries),
                        init == Seq::<(String, Parameter)>::empty(),
                        try_fold(entries@.take(i as int), init, parameter_step()) == Ok::<
                            Seq<(String, Parameter)>,
                            ConfigError,
                        >(parameters@),
                    decreases entries@.len() - i,
                {
                    proof {
                        lemma_try_fold_step(entries@, init, parameter_step(), i as int);
                    }
                    if !entries[i].1.is_array() {
                        match Parameter::from_value(&entries[i].1) {
                            Ok(p) => {
                                parameters.push((entries[i].0.clone(), p));
                            },
                            Err(e) => {
                                proof {
                                    lemma_try_fold_error(entries@, init, parameter_step(), i + 1);
                                }
                                return Err(e);
                            },
                        }
                    }
                    i = i + 1;
                }
                assert(entries@.take(entries@.len() as int) =~= entries@);
                let data_sets = match toml.get("datasets") {
                    None => None,
                    Some(names) => match load_strings(names) {
                        Ok(v) => Some(v),
                        Err(e) => {
                            return Err(e);
                        },
                    },
                };
                Ok(BenchmarkConfig { parameters, data_sets })
            },
            _ => Err(ConfigError::ExpectedTable),
        }
    }

    /// Adds one variant of the benchmark called `name`.
    fn add_variant(&mut self, name: &String, variant: Option<String>, config: BenchmarkConfig)
        ensures
            final(self)@ == (ConfigView {
                benchmarks: with_variant(old(self)@.benchmarks, *name, variant, config@),
                ..old(self)@
            }),
    {
        let ghost before = self.benchmark_configs@;
        match find(&self.benchmark_configs, name.as_str()) {
            Some(i) => {
                let ghost variants = self.benchmark_configs@[i as int].1@;
                let mut entry = self.benchmark_configs.remove(i);
                entry.1.push((variant, config));
                self.benchmark_configs.insert(i, entry);
                proof {
                    let after = self.benchmark_configs@;
                    assert(after.len() == before.len());
                    assert(after[i as int].1@ == variants.push((variant, config)));
                    assert(forall|j: int|
                        0 <= j < before.len() && j != i ==> after[j] == before[j]);
                    assert(has_key(benchmarks_view(before), name@)) by {
                        assert(benchmarks_view(before)[i as int].0@ == name@);
                    }
                    assert(first_at(benchmarks_view(before), name@, i as int)) by {
                        assert forall|j: int| 0 <= j < i implies (#[trigger] benchmarks_view(
                            before,
                        )[j]).0@ != name@ by {
                            assert(before[j].0@ != name@);
                        }
                    }
                    lemma_first_at_unique(benchmarks_view(before), name@, i as int);
                    assert(variants_view(after[i as int].1@) =~= variants_view(variants).push(
                        (variant, config@),
                    ));
                    assert(benchmarks_view(after) =~= with_variant(
                        benchmarks_view(before),
                        *name,
                        variant,
                        config@,
                    ));
                }
            },
            None => {
                let mut variants: Vec<(Option<String>, BenchmarkConfig)> = Vec::new();
                variants.push((variant, config));
                self.benchmark_configs.push((name.clone(), variants));
                proof {
                    let after = self.benchmark_configs@;
                    assert(!has_key(benchmarks_view(before), name@)) by {
                        if has_key(benchmarks_view(before), name@) {
                            let j = choose|j: int|
                                0 <= j < benchmarks_view(before).len() && (
                                #[trigger] benchmarks_view(before)[j]).0@ == name@;
                            assert(before[j].0@ == name@);
                        }
                    }
                    assert(variants_view(variants@) =~= seq![(variant, config@)]);
                    assert(benchmarks_view(after) =~= with_variant(
                        benchmarks_view(before),
                        *name,
                        variant,
                        config@,
                    ));
                }
            },
        }
    }

    /// Reads the variants of the benchmark called `name`.
    fn load_variants(&mut self, name: &String, entries: &Vec<(String, TomlValue)>) -> (done: Result<
        (),
        ConfigError,
    >)
        ensures
            try_fold(entries@, old(self)@.benchmarks, variant_step(*name)) == match done {
                Ok(_) => Ok(final(self)@.benchmarks),
                Err(e) => Err(e),
            },
            done is Ok ==> final(self)@ == (ConfigView {
                benchmarks: final(self)@.benchmarks,
                ..old(self)@
            }),
    {
        let ghost init = self@.benchmarks;
        let mut k: usize = 0;
        assert(entries@.take(0) =~= Seq::<(String, TomlValue)>::empty());
        while k < entries.len()
            invariant
                k <= entries@.len(),
                init == old(self)@.benchmarks,
                try_fold(entries@.take(k as int), init, variant_step(*name)) == Ok::<
                    Benchmarks,
                    ConfigError,
                >(self@.benchmarks),
                self@ == (ConfigView { benchmarks: self@.benchmarks, ..old(self)@ }),
            decreases entries@.len() - k,
        {
            proof {
                lemma_try_fold_step(entries@, init, variant_step(*name), k as int);
            }
            match Config::load_benchmark(&entries[k].1) {
                Ok(config) => {
                    self.add_variant(name, Some(entries[k].0.clone()), config);
                },
                Err(e) => {
                    proof {
                        lemma_try_fold_error(entries@, init, variant_step(*name), k + 1);
                    }
                    return Err(e);
                },
            }
            k = k + 1;
        }
        assert(entries@.take(entries@.len() as int) =~= entries@);
        Ok(())
    }

    /// Reads the benchmarks of a document.
    fn load_benchmarks(&mut self, toml: &TomlValue) -> (done: Result<(), ConfigError>)
        ensures
            benchmarks_of(old(self)@.benchmarks, *toml) == match done {
                Ok(_) => Ok(final(self)@.benchmarks),
                Err(e) => Err(e),
            },
            done is Ok ==> final(self)@ == (ConfigView {
                benchmarks: final(self)@.benchmarks,
                ..old(self)@
            }),
    {
        let ghost init = self@.benchmarks;
        match toml {
            TomlValue::Table(benchmarks) => {
                let mut i: usize = 0;
                assert(benchmarks@.take(0) =~= Seq::<(String, TomlValue)>::empty());
                while i < benchmarks.len()
                    invariant
                        i <= benchmarks@.len(),
                        *toml == TomlValue::Table(*benchmarks),
                        init == old(self)@.benchmarks,
                        try_fold(benchmarks@.take(i as int), init, benchmark_step()) == Ok::<
                            Benchmarks,
                            ConfigError,
                        >(self@.benchmarks),
                        self@ == (ConfigView { benchmarks: self@.benchmarks, ..old(self)@ }),
                            decreases benchmarks@.len() - i,
                {
                    proof {
                        lemma_try_fold_step(benchmarks@, init, benchmark_step(), i as int);
                    }
                    let name = &benchmarks[i].0;
                    let loaded = match &benchmarks[i].1 {
                        TomlValue::Table(entries) => {
                            if any_table(entries) {
                                self.load_variants(name, entries)
                            } else {
                                match Config::load_benchmark(&benchmarks[i].1) {
                                    Ok(config) => {
                                        self.add_variant(name, None, config);
                                        Ok(())
                                    },
                                    Err(e) => Err(e),
                                }
                            }
                        },
                        _ => Err(ConfigError::ExpectedTable),
                    };
                    match loaded {
                        Ok(_) => {},
                        Err(e) => {
                            proof {
                                lemma_try_fold_error(benchmarks@, init, benchmark_step(), i + 1);
                            }
                            return Err(e);
                        },
                    }
                    i = i + 1;
                }
                assert(benchmarks@.take(benchmarks@.len() as int) =~= benchmarks@);
                Ok(())
            },
            _ => Err(ConfigError::ExpectedTable),
        }
    }

    /// Reads one dataset from an entry of the table `datasets`.
    pub fn load_data_set(name: &String, toml: &TomlValue) -> (config: Result<
        DataSetConfig,
        ConfigError,
    >)
        ensures
            data_set_of((*name, *toml)) == match config {
                Ok(c) => Ok(c@),
                Err(e) => Err(e),
            },
    {
        if !toml.is_table() {
            return Err(ConfigError::ExpectedTable);
        }
        let globs = match toml.get("files") {
            None => {
                return Err(ConfigError::MissingFiles);
            },
            Some(files) => match load_strings(files) {
                Ok(v) => v,
                Err(e) => {
                    return Err(e);
                },
            },
        };
        let mode = match toml.get("mode") {
            None => DataSetMode::default(),
            Some(mode) => match DataSetMode::load(mode) {
                Ok(m) => m,
                Err(e) => {
                    return Err(e);
                },
            },
        };
        Ok(DataSetConfig { name: name.clone(), globs, mode })
    }

    /// Reads the datasets of a document.
    pub fn load_data_sets(toml: &TomlValue) -> (configs: Result<Vec<DataSetConfig>, ConfigError>)
        ensures
            data_sets_of(*toml) == match configs {
                Ok(v) => Ok(data_sets_view(v@)),
                Err(e) => Err(e),
            },
    {
        match toml {
            TomlValue::Table(entries) => {
                let mut out: Vec<DataSetConfig> = Vec::new();
                let mut i: usize = 0;
                let ghost init = Seq::<DataSetConfigView>::empty();
                assert(entries@.take(0) =~= Seq::<(String, TomlValue)>::empty());
                assert(data_sets_view(out@) =~= init);
                while i < entries.len()
                    invariant
                        i <= entries@.len(),
                        *toml == TomlValue::Table(*entries),
                        init == Seq::<DataSetConfigView>::empty(),
                        try_fold(entries@.take(i as int), init, data_set_step()) == Ok::<
                            Seq<DataSetConfigView>,
                            ConfigError,
                        >(data_sets_view(out@)),
                    decreases entries@.len() - i,
                {
                    proof {
                        lemma_try_fold_step(entries@, init, data_set_step(), i as int);
                    }
                    let ghost before = out@;
                    match Config::load_data_set(&entries[i].0, &entries[i].1) {
                        Ok(config) => {
                            out.push(config);
                            assert(data_sets_view(out@) =~= data_sets_view(before).push(config@));
                        },
                        Err(e) => {
                            proof {
                                lemma_try_fold_error(entries@, init, data_set_step(), i + 1);
                            }
                            return Err(e);
                        },
                    }
                    i = i + 1;
                }
                assert(entries@.take(entries@.len() as int) =~= entries@);
                Ok(out)
            },
            _ => Err(ConfigError::ExpectedTable),
        }
    }

    /// Reads a configuration from a document.
    pub fn from_toml(doc: &TomlValue) -> (config: Result<Config, ConfigError>)
        ensures
            config_of(*doc) == match config {
                Ok(c) => Ok(c@),
                Err(e) => Err(e),
            },
    {
        let mut config = Config::new();
        if let Some(command_prefix) = doc.get("command_prefix") {
            match load_strings(command_prefix) {
                Ok(v) => {
                    config.command_prefix = v;
                },
                Err(e) => {
                    return Err(e);
                },
            }
        }
        if let Some(benchmarks) = doc.get("benchmarks") {
            match config.load_benchmarks(benchmarks) {
                Ok(_) => {},
                Err(e) => {
                    return Err(e);
                },
            }
        }
        if let Some(commits) = doc.get("commits") {
            match load_strings(commits) {
                Ok(v) => {
                    config.commits = v;
                },
                Err(e) => {
                    return Err(e);
                },
            }
        }
        if let Some(data_sets) = doc.get("datasets") {
            match Config::load_data_sets(data_sets) {
                Ok(v) => {
                    config.dataset_configs = v;
                },
                Err(e) => {
                    return Err(e);
                },
            }
        }
        if let Some(repo) = doc.get("repo") {
            match repo {
                TomlValue::String(s) => {
                    config.repo = Some(s.clone());
                },
                _ => {
                    return Err(ConfigError::ExpectedString);
                },
            }
        }
        match load_opt_int(doc.get("min_secs")) {
            Ok(n) => {
                config.min_secs = n;
            },
            Err(e) => {
                return Err(e);
            },
        }
        match load_opt_int(doc.get("min_runs")) {
            Ok(n) => {
                config.min_runs = n;
            },
            Err(e) => {
                return Err(e);
            },
        }
        match load_opt_int(doc.get("min_ms_per_run")) {
            Ok(n) => {
                config.min_ms_per_run = n;
            },
            Err(e) => {
                return Err(e);
            },
        }
        match load_opt_int(doc.get("min_iters_per_run")) {
            Ok(n) => {
                config.min_iters_per_run = n;
            },
            Err(e) => {
                return Err(e);
            },
        }
        Ok(config)
    }

    /// The configuration that the bytes of a TOML document stand for.
    pub open spec fn loaded(bytes: Seq<u8>) -> Result<ConfigView, ConfigError> {
        match toml_document(bytes) {
            Some(doc) => config_of(doc),
            None => Err(ConfigError::Syntax),
        }
    }

    /// Reads a configuration from the bytes of a TOML document.
    pub fn load(bytes: &[u8]) -> (config: Result<Config, ConfigError>)
        ensures
            Config::loaded(bytes@) == match config {
                Ok(c) => Ok(c@),
                Err(e) => Err(e),
            },
    {
        match parse(bytes) {
            Some(doc) => Config::from_toml(&doc),
            None => Err(ConfigError::Syntax),
        }
    }

    /// The variants of the benchmark called `name`.
    pub fn configs_for_benchmark(&self, name: &str) -> (variants: &[(
        Option<String>,
        BenchmarkConfig,
    )])
        ensures
            variants_view(variants@) == self@.variants_of(name@),
    {
        match find(&self.benchmark_configs, name) {
            Some(i) => {
                proof {
                    let view = benchmarks_view(self.benchmark_configs@);
                    assert(first_at(view, name@, i as int)) by {
                        assert(view[i as int].0@ == name@);
                        assert forall|j: int| 0 <= j < i implies (#[trigger] view[j]).0@
                            != name@ by {
                            assert(self.benchmark_configs@[j].0@ != name@);
                        }
                    }
                    lemma_first_at_unique(view, name@, i as int);
                }
                self.benchmark_configs[i].1.as_slice()
            },
            None => {
                proof {
                    let view = benchmarks_view(self.benchmark_configs@);
                    if has_key(view, name@) {
                        let j = choose|j: int|
                            0 <= j < view.len() && (#[trigger] view[j]).0@ == name@;
                        assert(self.benchmark_configs@[j].0@ == name@);
                    }
                }
                let none: &[(Option<String>, BenchmarkConfig)] = &[];
                assert(variants_view(none@) =~= Seq::empty());
                none
            },
        }
    }

    /// The names of the benchmarks, in the order of the document.
    pub fn benchmarks(&self) -> (names: Vec<&str>)
        ensures
            names@.len() == self@.benchmarks.len(),
            forall|i: int| 0 <= i < names@.len() ==> (#[trigger] names@[i])@ == self@.benchmarks[i].0@,
    {
        let mut names: Vec<&str> = Vec::new();
        let mut i: usize = 0;
        while i < self.benchmark_configs.len()
            invariant
                i <= self.benchmark_configs@.len(),
                names@.len() == i,
                forall|j: int|
                    0 <= j < i ==> (#[trigger] names@[j])@ == self.benchmark_configs@[j].0@,
            decreases self.benchmark_configs@.len() - i,
        {
            names.push(self.benchmark_configs[i].0.as_str());
            i = i + 1;
        }
        names
    }

    pub fn dataset_configs(&self) -> (configs: &[DataSetConfig])
        ensures
            data_sets_view(configs@) == self@.datasets,
    {
        self.dataset_configs.as_slice()
    }

    /// Where the repository is: the empty text where the document does not
    /// say.
    pub fn repo(&self) -> (repo: &str)
        ensures
            repo@ == match self@.repo {
                Some(s) => s@,
                None => Seq::<char>::empty(),
            },
    {
        match &self.repo {
            Some(s) => s.as_str(),
            None => {
                proof {
                    reveal_strlit("");
                }
                assert(""@ =~= Seq::<char>::empty());
                ""
            },
        }
    }

    pub fn commits(&self) -> (commits: &[String])
        ensures
            commits@ == self@.commits,
    {
        self.commits.as_slice()
    }

    pub fn command_prefix(&self) -> (prefix: &[String])
        ensures
            prefix@ == self@.command_prefix,
    {
        self.command_prefix.as_slice()
    }

    /// The least total duration of the runs of one benchmark, in seconds: 10
    /// where the document does not say.
    pub fn min_secs(&self) -> (n: u64)
        ensures
            n == self@.min_secs_or_default(),
    {
        match self.min_secs {
            Some(n) => n,
            None => 10,
        }
    }

    /// The least number of runs: 3 where the document does not say.
    pub fn min_runs(&self) -> (n: u64)
        ensures
            n == self@.min_runs_or_default(),
    {
        match self.min_runs {
            Some(n) => n,
            None => 3,
        }
    }

    /// The least number of iterations in a run: 1 where the document does not
    /// say.
    pub fn min_iters_per_run(&self) -> (n: u64)
        ensures
            n == self@.min_iters_or_default(),
    {
        match self.min_iters_per_run {
            Some(n) => n,
            None => 1,
        }
    }

    /// The least duration of a run, in milliseconds: 100 where the document
    /// does not say.
    pub fn min_ms_per_run(&self) -> (n: u64)
        ensures
            n == self@.min_ms_or_default(),
    {
        match self.min_ms_per_run {
            Some(n) => n,
            None => 100,
        }
    }
}

/// Whether some entry of a table is itself a table.
pub fn any_table(entries: &Vec<(String, TomlValue)>) -> (found: bool)
    ensures
        found == has_table(entries@),
{
    let mut i: usize = 0;
    while i < entries.len()
        invariant
            i <= entries@.len(),
            forall|j: int| 0 <= j < i ==> !((#[trigger] entries@[j]).1 is Table),
        decreases entries@.len() - i,
    {
        if entries[i].1.is_table() {
            return true;
        }
        i = i + 1;
    }
    false
}

} // verus!
