//! A benchmarking session: which steps it takes, which benchmarks it runs on
//! which datasets, and with which command the measurement is started.

use crate::benchmark::{
    optional_text, run_benchmark, settled, Benchmark, BenchmarkError, BenchmarkResult, BuildInfo,
};
use crate::config::{BenchmarkConfig, BenchmarkConfigView, Config, ConfigView};
use crate::dataset::DataSet;
use crate::metrics::Metrics;
use crate::print::texts;
use crate::text::same_text;
use vstd::prelude::*;
use vstd::string::*;

verus! {

/// The command line that starts the measurement: the program alone where
/// the configuration has no command prefix, and else the prefix, the
/// program, and the arguments.
pub open spec fn command_line(prefix: Seq<String>, program: Seq<char>, arguments: Seq<String>) -> Seq<
    Seq<char>,
> {
    if prefix.len() == 0 {
        seq![program]
    } else {
        texts(prefix) + seq![program] + texts(arguments)
    }
}

/// The command line that starts the measurement.
pub fn benchmark_command(config: &Config, bin: &str, args: &[String]) -> (command: Vec<String>)
    ensures
        texts(command@) == command_line(config@.command_prefix, bin@, args@),
{
    let prefix = config.command_prefix();
    let mut command: Vec<String> = Vec::new();
    if prefix.len() == 0 {
        command.push(String::from_str(bin));
        assert(texts(command@) =~= seq![bin@]);
        return command;
    }
    let mut i: usize = 0;
    while i < prefix.len()
        invariant
            i <= prefix@.len(),
            command@.len() == i,
            forall|k: int| 0 <= k < i ==> (#[trigger] command@[k])@ == prefix@[k]@,
        decreases prefix@.len() - i,
    {
        command.push(prefix[i].clone());
        i = i + 1;
    }
    command.push(String::from_str(bin));
    let count: usize = command.len();
    let mut i: usize = 0;
    while i < args.len()
        invariant
            i <= args@.len(),
            count == prefix@.len() + 1,
            command@.len() == count + i,
            forall|k: int| 0 <= k < prefix@.len() ==> (#[trigger] command@[k])@ == prefix@[k]@,
            command@[prefix@.len() as int]@ == bin@,
            forall|k: int| 0 <= k < i ==> (#[trigger] command@[count + k])@ == args@[k]@,
        decreases args@.len() - i,
    {
        command.push(args[i].clone());
        i = i + 1;
    }
    proof {
        let line = texts(prefix@) + seq![bin@] + texts(args@);
        assert(texts(command@).len() == line.len());
        assert forall|k: int| 0 <= k < line.len() implies texts(command@)[k] == line[k] by {
            if k < prefix@.len() {
                assert(command@[k]@ == prefix@[k]@);
            } else if k > prefix@.len() {
                assert(command@[count + (k - count)]@ == args@[k - count]@);
            }
        }
        assert(texts(command@) =~= line);
    }
    command
}

/// Whether the directory of a build gets a link under the name of its
/// revision: where that name is not the commit itself.
pub fn links_revision(commit: &str, revision: &str) -> (links: bool)
    ensures
        links == (commit@ != revision@),
{
    !same_text(commit, revision)
}

/// What a session is asked to do.
pub struct SessionPlan {
    /// Whether the revisions are measured.
    pub benchmark: bool,
    /// Whether the binary of each revision is kept.
    pub keep_binaries: bool,
    /// Whether the results are printed at the end.
    pub print: bool,
    /// The number of revisions.
    pub revisions: usize,
}

/// One step of a session. A step that fails ends the session.
#[derive(Clone, Copy, Debug, PartialEq, Eq, Structural)]
pub enum Step {
    /// Removes the results of earlier sessions, if there are any.
    RemoveOutput,
    /// Marks the build of the revision at this place as out of date.
    Touch(usize),
    /// Builds the revision at this place.
    Build(usize),
    /// Keeps the binary of the revision at this place.
    CopyBinary(usize),
    /// Measures the revision at this place in a process of its own.
    Measure(usize),
    /// Prints the results.
    Print,
}

impl SessionPlan {
    /// The steps for the revision at the place `at`: it is built, kept
    /// where binaries are kept, and measured where revisions are measured.
    pub open spec fn revision_steps(self, at: usize) -> Seq<Step> {
        seq![Step::Touch(at), Step::Build(at)] + (if self.keep_binaries {
            seq![Step::CopyBinary(at)]
        } else {
            Seq::empty()
        }) + (if self.benchmark {
            seq![Step::Measure(at)]
        } else {
            Seq::empty()
        })
    }

    /// The steps for the first `count` revisions, one revision after the
    /// other.
    pub open spec fn steps_until(self, count: nat) -> Seq<Step>
        decreases count,
    {
        if count == 0 {
            Seq::empty()
        } else {
            self.steps_until((count - 1) as nat) + self.revision_steps((count - 1) as usize)
        }
    }

    /// The steps of the session. The old results are removed first where
    /// revisions are measured. The revisions are handled where they are
    /// measured or their binaries are kept. The results are printed last
    /// where that is asked for.
    pub open spec fn steps(self) -> Seq<Step> {
        (if self.benchmark {
            seq![Step::RemoveOutput]
        } else {
            Seq::empty()
        }) + (if self.benchmark || self.keep_binaries {
            self.steps_until(self.revisions as nat)
        } else {
            Seq::empty()
        }) + (if self.print {
            seq![Step::Print]
        } else {
            Seq::empty()
        })
    }

    /// The steps of the session, in their order.
    pub fn session_steps(&self) -> (steps: Vec<Step>)
        ensures
            steps@ == self.steps(),
    {
        let mut steps: Vec<Step> = Vec::new();
        if self.benchmark {
            steps.push(Step::RemoveOutput);
        }
        let ghost head = steps@;
        if self.benchmark || self.keep_binaries {
            let mut at: usize = 0;
            assert(steps@ =~= head + self.steps_until(0));
            while at < self.revisions
                invariant
                    at <= self.revisions,
                    steps@ == head + self.steps_until(at as nat),
                decreases self.revisions - at,
            {
                let ghost before = steps@;
                steps.push(Step::Touch(at));
                steps.push(Step::Build(at));
                if self.keep_binaries {
                    steps.push(Step::CopyBinary(at));
                }
                if self.benchmark {
                    steps.push(Step::Measure(at));
                }
                assert(steps@ =~= before + self.revision_steps(at));
                at = at + 1;
                assert(steps@ =~= head + self.steps_until(at as nat));
            }
        }
        let ghost body = steps@;
        if self.print {
            steps.push(Step::Print);
        }
        assert(steps@ =~= self.steps());
        steps
    }
}

/// Makes the benchmark of a name from its configuration.
pub trait BenchmarkFactory {
    type Bench: Benchmark;

    /// The benchmark of a name, or nothing where no benchmark has the name.
    fn create(&self, name: &str, config: &BenchmarkConfig) -> Result<
        Option<Self::Bench>,
        BenchmarkError,
    >;
}

/// One measurement that a session makes.
pub struct Job {
    pub benchmark: Seq<char>,
    pub variant: Option<Seq<char>>,
    pub data_set: Seq<char>,
}

/// The characters of an optional text.
pub open spec fn optional_chars(text: Option<String>) -> Option<Seq<char>> {
    match text {
        Some(t) => Some(t@),
        None => None,
    }
}

/// The measurements of one variant of a benchmark: one for each dataset
/// that the variant is run on, in the order of the datasets.
pub open spec fn variant_jobs(
    benchmark: Seq<char>,
    variant: (Option<String>, BenchmarkConfigView),
    data_sets: Seq<Seq<char>>,
) -> Seq<Job>
    decreases data_sets.len(),
{
    if data_sets.len() == 0 {
        Seq::empty()
    } else {
        let before = variant_jobs(benchmark, variant, data_sets.drop_last());
        if variant.1.admits(data_sets.last()) {
            before.push(
                Job {
                    benchmark,
                    variant: optional_chars(variant.0),
                    data_set: data_sets.last(),
                },
            )
        } else {
            before
        }
    }
}

/// The datasets before a place give no more measurements of a variant than
/// all of them.
pub proof fn lemma_variant_jobs_grow(
    benchmark: Seq<char>,
    variant: (Option<String>, BenchmarkConfigView),
    data_sets: Seq<Seq<char>>,
    count: int,
)
    requires
        0 <= count <= data_sets.len(),
    ensures
        variant_jobs(benchmark, variant, data_sets.take(count)).len() <= variant_jobs(
            benchmark,
            variant,
            data_sets,
        ).len(),
    decreases data_sets.len(),
{
    if count == data_sets.len() {
        assert(data_sets.take(count) =~= data_sets);
    } else {
        assert(data_sets.drop_last().take(count) =~= data_sets.take(count));
        lemma_variant_jobs_grow(benchmark, variant, data_sets.drop_last(), count);
    }
}

/// The measurements of a benchmark: those of its variants, one variant
/// after the other.
pub open spec fn benchmark_jobs(
    benchmark: Seq<char>,
    variants: Seq<(Option<String>, BenchmarkConfigView)>,
    data_sets: Seq<Seq<char>>,
) -> Seq<Job>
    decreases variants.len(),
{
    if variants.len() == 0 {
        Seq::empty()
    } else {
        benchmark_jobs(benchmark, variants.drop_last(), data_sets) + variant_jobs(
            benchmark,
            variants.last(),
            data_sets,
        )
    }
}

/// The measurements of the first `count` benchmarks of a configuration, one
/// benchmark after the other.
pub open spec fn jobs_until(config: ConfigView, data_sets: Seq<Seq<char>>, count: nat) -> Seq<Job>
    decreases count,
{
    if count == 0 {
        Seq::empty()
    } else {
        let name = config.benchmarks[count - 1].0@;
        jobs_until(config, data_sets, (count - 1) as nat) + benchmark_jobs(
            name,
            config.variants_of(name),
            data_sets,
        )
    }
}

/// The measurements of a session: each benchmark of the configuration in
/// each of its variants on each dataset that the variant is run on.
pub open spec fn jobs(config: ConfigView, data_sets: Seq<Seq<char>>) -> Seq<Job> {
    jobs_until(config, data_sets, config.benchmarks.len())
}

/// The names of datasets.
pub open spec fn names_of(data_sets: Seq<DataSet>) -> Seq<Seq<char>> {
    Seq::new(data_sets.len(), |i: int| data_sets[i].spec_name())
}

impl BenchmarkResult {
    /// `self` is the result of a measurement of a build under a
    /// configuration: it names the build, the benchmark, the variant and the
    /// dataset; its counts respect the floors of the configuration and are
    /// what a step of the calibration settled; and it is what that many runs
    /// give.
    pub open spec fn answers(self, job: Job, config: ConfigView, build: BuildInfo) -> bool {
        &&& self.built_as(build)
        &&& self.benchmark_name@ == job.benchmark
        &&& optional_chars(self.config_name) == job.variant
        &&& self.data_set@ == job.data_set
        &&& self.iters_per_run >= config.min_iters_or_default()
        &&& self.iters_per_run >= 1
        &&& self.runs >= 1
        &&& self.runs >= config.min_runs_or_default()
        &&& self.command_prefix@ == config.command_prefix
        &&& self.iters_per_run % config.min_iters_or_default() == 0
        &&& settled(config, self.iters_per_run, self.runs)
        &&& exists|runs: Seq<Metrics>|
            runs.len() == self.runs && #[trigger] self.measures(
                job.benchmark,
                job.variant,
                job.data_set,
                runs,
            )
    }
}

/// Every result is that of the measurement at its place.
pub open spec fn all_answer(
    results: Seq<BenchmarkResult>,
    jobs: Seq<Job>,
    config: ConfigView,
    build: BuildInfo,
) -> bool {
    &&& results.len() == jobs.len()
    &&& forall|i: int|
        0 <= i < results.len() ==> (#[trigger] results[i]).answers(jobs[i], config, build)
}

/// Whether a benchmark of the configuration has a variant.
pub open spec fn has_variant(config: ConfigView) -> bool {
    exists|b: int|
        0 <= b < config.benchmarks.len() && config.variants_of(
            (#[trigger] config.benchmarks[b]).0@,
        ).len() > 0
}

/// Why a session was given up.
#[derive(Clone, Copy, Debug, PartialEq, Eq, Structural)]
pub enum SessionError {
    /// The configuration names a benchmark that there is not.
    UnknownBenchmark,
    /// A measurement was given up.
    Benchmark(BenchmarkError),
}

/// Runs one variant of a benchmark on each dataset that it is run on, and
/// adds the results behind those that are there. The first measurement that
/// fails ends the work, and a variant that is run on no dataset cannot fail.
fn run_variant<B: Benchmark>(
    config: &Config,
    build: &BuildInfo,
    name: &str,
    variant: &(Option<String>, BenchmarkConfig),
    benchmark: &mut B,
    data_sets: &Vec<DataSet>,
    results: &mut Vec<BenchmarkResult>,
    Ghost(done): Ghost<Seq<Job>>,
) -> (ran: Result<(), BenchmarkError>)
    requires
        all_answer(old(results)@, done, config@, *build),
    ensures
        ran is Ok ==> all_answer(
            final(results)@,
            done + variant_jobs(name@, (variant.0, variant.1@), names_of(data_sets@)),
            config@,
            *build,
        ),
        old(results)@.len() <= final(results)@.len(),
        final(results)@.take(old(results)@.len() as int) == old(results)@,
        variant_jobs(name@, (variant.0, variant.1@), names_of(data_sets@)).len() == 0 ==> ran is Ok
            && final(results)@ == old(results)@,
{
    let ghost names = names_of(data_sets@);
    let ghost view = (variant.0, variant.1@);
    let ghost first = results@;
    let mut i: usize = 0;
    assert(results@.take(first.len() as int) =~= first);
    assert(names.take(0) =~= Seq::<Seq<char>>::empty());
    assert(done + variant_jobs(name@, view, names.take(0)) =~= done);
    while i < data_sets.len()
        invariant
            i <= data_sets@.len(),
            names == names_of(data_sets@),
            view == (variant.0, variant.1@),
            all_answer(
                results@,
                done + variant_jobs(name@, view, names.take(i as int)),
                config@,
                *build,
            ),
            first == old(results)@,
            first.len() <= results@.len(),
            results@.take(first.len() as int) == first,
            variant_jobs(name@, view, names).len() == 0 ==> results@ == first,
        decreases data_sets@.len() - i,
    {
        let data_set = &data_sets[i];
        proof {
            assert(names.take(i + 1).drop_last() =~= names.take(i as int));
            assert(names.take(i + 1).last() == data_set.spec_name());
        }
        if variant.1.allows(data_set.name()) {
            let variant_name = match &variant.0 {
                Some(text) => Some(text.as_str()),
                None => None,
            };
            let ghost before = results@;
            let ghost jobs_before = done + variant_jobs(name@, view, names.take(i as int));
            proof {
                lemma_variant_jobs_grow(name@, view, names, i + 1);
            }
            let result = run_benchmark(config, build, name, variant_name, benchmark, data_set)?;
            results.push(result);
            proof {
                let job = Job {
                    benchmark: name@,
                    variant: optional_chars(variant.0),
                    data_set: data_set.spec_name(),
                };
                assert(done + variant_jobs(name@, view, names.take(i + 1)) =~= jobs_before.push(
                    job,
                ));
                assert(optional_text(variant_name) == job.variant);
                assert(optional_chars(result.config_name) == job.variant);
                let measured = choose|runs: Seq<Metrics>|
                    runs.len() == result.runs && #[trigger] result.measures(
                        name@,
                        optional_text(variant_name),
                        data_set.spec_name(),
                        runs,
                    );
                assert(result.measures(job.benchmark, job.variant, job.data_set, measured));
                assert(result.answers(job, config@, *build));
                assert(results@.take(first.len() as int) =~= before.take(first.len() as int));
                assert forall|k: int| 0 <= k < results@.len() implies (#[trigger] results@[k]).answers(
                    jobs_before.push(job)[k],
                    config@,
                    *build,
                ) by {
                    if k < before.len() {
                        assert(results@[k] == before[k]);
                    }
                }
            }
        }
        i = i + 1;
    }
    assert(names.take(data_sets@.len() as int) =~= names);
    Ok(())
}

/// Runs every benchmark of the configuration in each of its variants on each
/// dataset that the variant is run on, and gives the results in that order.
/// A variant whose benchmark cannot be made ends the session, and so does
/// the first measurement that fails; a configuration without any variant
/// gives no results.
pub fn run_all_benchmarks<F: BenchmarkFactory>(
    config: &Config,
    build: &BuildInfo,
    factory: &F,
    data_sets: &Vec<DataSet>,
) -> (results: Result<Vec<BenchmarkResult>, SessionError>)
    ensures
        results matches Ok(results) ==> all_answer(
            results@,
            jobs(config@, names_of(data_sets@)),
            config@,
            *build,
        ),
        !has_variant(config@) ==> (results matches Ok(none) && none@.len() == 0),
{
    let ghost names = names_of(data_sets@);
    let mut results: Vec<BenchmarkResult> = Vec::new();
    let benchmarks = config.benchmarks();
    let mut b: usize = 0;
    while b < benchmarks.len()
        invariant
            b <= benchmarks@.len(),
            names == names_of(data_sets@),
            benchmarks@.len() == config@.benchmarks.len(),
            forall|i: int|
                0 <= i < benchmarks@.len() ==> (#[trigger] benchmarks@[i])@
                    == config@.benchmarks[i].0@,
            all_answer(results@, jobs_until(config@, names, b as nat), config@, *build),
            !has_variant(config@) ==> results@.len() == 0,
        decreases benchmarks@.len() - b,
    {
        let name = benchmarks[b];
        let variants = config.configs_for_benchmark(name);
        let ghost views = config@.variants_of(name@);
        let ghost done = jobs_until(config@, names, b as nat);
        let mut v: usize = 0;
        assert(done + benchmark_jobs(name@, views.take(0), names) =~= done);
        while v < variants.len()
            invariant
                v <= variants@.len(),
                names == names_of(data_sets@),
                views == config@.variants_of(name@),
                crate::config::variants_view(variants@) == views,
                b < config@.benchmarks.len(),
                name@ == config@.benchmarks[b as int].0@,
                !has_variant(config@) ==> results@.len() == 0,
                all_answer(
                    results@,
                    done + benchmark_jobs(name@, views.take(v as int), names),
                    config@,
                    *build,
                ),
            decreases variants@.len() - v,
        {
            let variant = &variants[v];
            proof {
                assert(views.take(v + 1).drop_last() =~= views.take(v as int));
                assert(views.len() == variants@.len());
                assert(views[v as int] == (variant.0, variant.1@));
                assert(config@.variants_of(config@.benchmarks[b as int].0@).len() > 0);
                assert(has_variant(config@));
            }
            let mut benchmark = match factory.create(name, &variant.1) {
                Ok(Some(benchmark)) => benchmark,
                Ok(None) => {
                    return Err(SessionError::UnknownBenchmark);
                },
                Err(e) => {
                    return Err(SessionError::Benchmark(e));
                },
            };
            let ghost before = done + benchmark_jobs(name@, views.take(v as int), names);
            match run_variant(
                config,
                build,
                name,
                variant,
                &mut benchmark,
                data_sets,
                &mut results,
                Ghost(before),
            ) {
                Ok(_) => {},
                Err(e) => {
                    return Err(SessionError::Benchmark(e));
                },
            }
            proof {
                assert(before + variant_jobs(name@, views[v as int], names) =~= done
                    + benchmark_jobs(name@, views.take(v + 1), names));
            }
            v = v + 1;
        }
        proof {
            assert(views.take(variants@.len() as int) =~= views);
        }
        b = b + 1;
    }
    Ok(results)
}

} // verus!
