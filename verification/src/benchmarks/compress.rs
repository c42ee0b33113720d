//! The benchmark of the compression of whole payloads.

use crate::benchmark::{Benchmark, BenchmarkError, ConfigurableBenchmark};
use crate::benchmarks::{checked_size, compression_level, level_of};
use crate::config::BenchmarkConfig;
use crate::dataset::{contents_of, DataSet, Datum};
use crate::metrics::Metrics;
use crate::timer::Timer;
use crate::zstd::Zstd;
use vstd::prelude::*;
use vstd::string::*;

verus! {

/// The sum of the lengths of byte strings.
pub open spec fn total_bytes(data: Seq<Seq<u8>>) -> nat
    decreases data.len(),
{
    if data.len() == 0 {
        0
    } else {
        total_bytes(data.drop_last()) + data.last().len()
    }
}

/// Compresses each datum at a level.
pub struct CompressBenchmark<Z: Zstd> {
    library: Z,
    level: i32,
    out: Vec<u8>,
}

impl<Z: Zstd> CompressBenchmark<Z> {
    /// The level at which the benchmark compresses.
    pub closed spec fn level(&self) -> i32 {
        self.level
    }

    /// A benchmark that compresses at a level.
    pub fn new(library: Z, level: i32) -> (benchmark: CompressBenchmark<Z>)
        ensures
            benchmark.level() == level,
    {
        CompressBenchmark { library, level, out: Vec::new() }
    }

    /// What `iters` compressions of a datum leave of the benchmark `self`
    /// and give: the level stays; every field is measured, and the
    /// uncompressed size is that of all iterations; only the library or a
    /// size that does not fit makes it fail, and no iterations at all give
    /// sizes of zero.
    pub open spec fn ran_datum(
        self,
        after: Self,
        datum: Seq<u8>,
        iters: u64,
        metrics: Result<Metrics, BenchmarkError>,
    ) -> bool {
        &&& after.level() == self.level()
        &&& metrics matches Ok(m) ==> {
            &&& datum.len() * iters <= u64::MAX
            &&& m.uncompressed_size == Some((datum.len() * iters) as u64)
            &&& m.compressed_size is Some
            &&& m.duration is Some
        }
        &&& metrics matches Err(e) ==> e == BenchmarkError::Codec || e == BenchmarkError::Overflow
        &&& iters == 0 ==> (metrics matches Ok(m) && m.uncompressed_size == Some(0u64)
            && m.compressed_size == Some(0u64))
    }

    /// What `iters` compressions of each datum leave of the benchmark `self`
    /// and give: the level stays; every field is measured, and the
    /// uncompressed size is that of all iterations over all data; only the
    /// library or a size that does not fit makes it fail.
    pub open spec fn ran(
        self,
        after: Self,
        data: Seq<Seq<u8>>,
        iters: u64,
        metrics: Result<Metrics, BenchmarkError>,
    ) -> bool {
        &&& after.level() == self.level()
        &&& metrics matches Ok(m) ==> {
            &&& total_bytes(data) * iters <= u64::MAX
            &&& m.uncompressed_size == Some((total_bytes(data) * iters) as u64)
            &&& m.compressed_size is Some
            &&& m.duration is Some
        }
        &&& metrics matches Err(e) ==> e == BenchmarkError::Codec || e == BenchmarkError::Overflow
    }

    /// A benchmark at a level on the library that was opened. Without a
    /// library there is no benchmark.
    pub fn opened(library: Option<Z>, level: i32) -> (benchmark: Result<
        CompressBenchmark<Z>,
        BenchmarkError,
    >)
        ensures
            library is Some ==> (benchmark matches Ok(b) && b.level() == level),
            library is None ==> benchmark matches Err(BenchmarkError::Codec),
    {
        match library {
            Some(library) => Ok(CompressBenchmark::new(library, level)),
            None => Err(BenchmarkError::Codec),
        }
    }

    /// Compresses a datum once and gives the compressed size: what
    /// `checked_size` makes of the size that the library returned.
    pub fn run_one(&mut self, datum: &Datum) -> (size: Result<usize, BenchmarkError>)
        ensures
            final(self).level() == old(self).level(),
            size is Err ==> size == Err::<usize, BenchmarkError>(BenchmarkError::Codec),
    {
        let csize: usize = self.library.compress(&mut self.out, datum.bytes(), self.level);
        checked_size(csize, self.library.is_error(csize))
    }
}

impl<Z: Zstd> ConfigurableBenchmark for CompressBenchmark<Z> {
    fn name() -> (name: String)
        ensures
            name@ == "compress"@,
    {
        String::from_str("compress")
    }

    fn from_config(config: &BenchmarkConfig) -> (benchmark: Result<
        CompressBenchmark<Z>,
        BenchmarkError,
    >)
        ensures
            benchmark matches Ok(b) ==> level_of(config@) == Ok::<i32, BenchmarkError>(b.level()),
            benchmark matches Err(e) ==> e == match level_of(config@) {
                Err(refused) => refused,
                Ok(_) => BenchmarkError::Codec,
            },
    {
        let level: i32 = compression_level(config)?;
        CompressBenchmark::opened(Z::open(), level)
    }
}

impl<Z: Zstd> Benchmark for CompressBenchmark<Z> {
    /// Prepares each datum. The compression of payloads prepares nothing,
    /// so this cannot fail and changes nothing.
    fn initialize_data_set(&mut self, data_set: &DataSet) -> (done: Result<(), BenchmarkError>)
        ensures
            done is Ok,
            *final(self) == *old(self),
    {
        let data = data_set.data();
        let mut i: usize = 0;
        while i < data.len()
            invariant
                i <= data@.len(),
                *self == *old(self),
            decreases data@.len() - i,
        {
            self.initialize_datum(&data[i])?;
            i = i + 1;
        }
        Ok(())
    }

    /// Releases each datum. The compression of payloads holds nothing, so
    /// this cannot fail and changes nothing.
    fn finalize_data_set(&mut self, data_set: &DataSet) -> (done: Result<(), BenchmarkError>)
        ensures
            done is Ok,
            *final(self) == *old(self),
    {
        let data = data_set.data();
        let mut i: usize = 0;
        while i < data.len()
            invariant
                i <= data@.len(),
                *self == *old(self),
            decreases data@.len() - i,
        {
            self.finalize_datum(&data[i])?;
            i = i + 1;
        }
        Ok(())
    }

    /// Compresses each datum `iters` times and gives the sum of what the
    /// data gave, in their order. The first datum that fails ends the run,
    /// and so does a sum that does not fit.
    fn run_data_set(&mut self, data_set: &DataSet, iters: u64) -> (metrics: Result<
        Metrics,
        BenchmarkError,
    >)
        ensures
            (*old(self)).ran(*final(self), data_set.contents(), iters, metrics),
    {
        let data = data_set.data();
        let ghost contents = data_set.contents();
        let mut total = Metrics::zero();
        let mut i: usize = 0;
        assert(total_bytes(contents.take(0)) * iters == 0) by (nonlinear_arith)
            requires
                total_bytes(contents.take(0)) == 0,
        ;
        while i < data.len()
            invariant
                i <= data@.len(),
                self.level == old(self).level,
                contents == contents_of(data@),
                total_bytes(contents.take(i as int)) * iters <= u64::MAX,
                total.uncompressed_size == Some((total_bytes(contents.take(i as int)) * iters) as u64),
                total.compressed_size is Some,
                total.duration is Some,
            decreases data@.len() - i,
        {
            let metrics = self.run_datum(&data[i], iters)?;
            total = match total.checked_add(metrics) {
                Some(sum) => sum,
                None => {
                    return Err(BenchmarkError::Overflow);
                },
            };
            proof {
                let before = total_bytes(contents.take(i as int));
                let length = data@[i as int]@.len();
                assert(contents.take(i + 1).drop_last() =~= contents.take(i as int));
                assert(contents.take(i + 1).last() == data@[i as int]@);
                assert((before + length) * iters == before * iters + length * iters)
                    by (nonlinear_arith);
            }
            i = i + 1;
        }
        assert(contents.take(data@.len() as int) =~= contents);
        Ok(total)
    }

    /// Compresses a datum `iters` times: the uncompressed size is that of
    /// all iterations, the compressed size the sum of what they gave. The
    /// first iteration that the library fails ends the run, and so does a
    /// size that does not fit.
    fn run_datum(&mut self, datum: &Datum, iters: u64) -> (metrics: Result<Metrics, BenchmarkError>)
        ensures
            (*old(self)).ran_datum(*final(self), datum@, iters, metrics),
    {
        let cbound: usize = self.library.compress_bound(datum.len());
        if self.out.len() < cbound {
            self.out.resize(cbound, 0);
        }
        let mut compressed_size: u64 = 0;
        let mut timer = Timer::new();
        let mut i: u64 = 0;
        while i < iters
            invariant
                i <= iters,
                self.level == old(self).level,
                timer.running(),
                i == 0 ==> compressed_size == 0,
            decreases iters - i,
        {
            let size: usize = self.run_one(datum)?;
            compressed_size = match compressed_size.checked_add(size as u64) {
                Some(sum) => sum,
                None => {
                    return Err(BenchmarkError::Overflow);
                },
            };
            i = i + 1;
        }
        let duration = timer.stop();
        assert(iters == 0 ==> datum@.len() * iters == 0) by (nonlinear_arith);
        let uncompressed_size: u64 = match (datum.len() as u64).checked_mul(iters) {
            Some(size) => size,
            None => {
                return Err(BenchmarkError::Overflow);
            },
        };
        Ok(
            Metrics {
                uncompressed_size: Some(uncompressed_size),
                compressed_size: Some(compressed_size),
                duration: Some(duration),
            },
        )
    }
}

} // verus!
