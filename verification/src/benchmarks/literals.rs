//! The benchmarks of the compression and of the decompression of the
//! literals of blocks.

use crate::benchmark::{Benchmark, BenchmarkError, ConfigurableBenchmark};
use crate::benchmarks::{checked_size, compression_level, level_of, number_of, number_parameter};
use crate::config::BenchmarkConfig;
use crate::dataset::{bytes_of, DataSet};
use crate::metrics::Metrics;
use crate::timer::Timer;
use crate::zstd::{LiteralsBlock, LiteralsBlockType, Zstd};
use vstd::prelude::*;
use vstd::slice::slice_to_vec;
use vstd::string::*;

verus! {

/// The bucket of a block of literals: sixteen times the compressed length
/// over the decompressed length, cut off, and 15 for literals that did not
/// shrink.
pub open spec fn bucket_of(compressed: nat, decompressed: nat) -> int {
    if compressed >= decompressed {
        15
    } else {
        (compressed * 16 / decompressed) as int
    }
}

/// The bucket of a block of literals.
pub fn quantization(compressed: usize, decompressed: usize) -> (q: i32)
    ensures
        q == bucket_of(compressed as nat, decompressed as nat),
        0 <= q <= 15,
{
    if compressed >= decompressed {
        15
    } else {
        let scaled: u128 = compressed as u128 * 16;
        let q: u128 = scaled / (decompressed as u128);
        assert(q <= 15) by (nonlinear_arith)
            requires
                q == scaled / (decompressed as u128),
                scaled == compressed * 16,
                compressed < decompressed,
        ;
        q as i32
    }
}

/// The sum of the lengths of byte strings.
pub open spec fn total_length(items: Seq<Vec<u8>>) -> nat
    decreases items.len(),
{
    if items.len() == 0 {
        0
    } else {
        total_length(items.drop_last()) + items.last()@.len()
    }
}

/// Whether the compressed literals of a block are kept for a bucket: where
/// they are compressed and fall into it.
pub open spec fn falls_into(block: LiteralsBlock, bucket: Option<i32>) -> bool {
    block.kind == LiteralsBlockType::Compressed && bucket is Some && bucket->0 == bucket_of(
        block.compressed@.len(),
        block.decompressed@.len(),
    )
}

/// The compressed literals of the blocks that are kept for a bucket, in the
/// order of the blocks.
pub open spec fn compressed_kept(blocks: Seq<LiteralsBlock>, bucket: Option<i32>) -> Seq<Seq<u8>>
    decreases blocks.len(),
{
    if blocks.len() == 0 {
        Seq::empty()
    } else if falls_into(blocks.last(), bucket) {
        compressed_kept(blocks.drop_last(), bucket).push(blocks.last().compressed@)
    } else {
        compressed_kept(blocks.drop_last(), bucket)
    }
}

/// Without a bucket no compressed literals are kept.
pub proof fn lemma_nothing_kept_without_bucket(blocks: Seq<LiteralsBlock>)
    ensures
        compressed_kept(blocks, None).len() == 0,
    decreases blocks.len(),
{
    if blocks.len() > 0 {
        lemma_nothing_kept_without_bucket(blocks.drop_last());
    }
}

/// The decompressed literals of all blocks.
pub open spec fn decompressed_of(blocks: Seq<LiteralsBlock>) -> Seq<Seq<u8>> {
    Seq::new(blocks.len(), |i: int| blocks[i].decompressed@)
}

/// The compressed literals that are kept for a bucket of the blocks of
/// frames, frame after frame.
pub open spec fn kept_of_frames(found: Seq<Seq<LiteralsBlock>>, bucket: Option<i32>) -> Seq<Seq<u8>>
    decreases found.len(),
{
    if found.len() == 0 {
        Seq::empty()
    } else {
        kept_of_frames(found.drop_last(), bucket) + compressed_kept(found.last(), bucket)
    }
}

/// The decompressed literals of the blocks of frames, frame after frame.
pub open spec fn literals_of_frames(found: Seq<Seq<LiteralsBlock>>) -> Seq<Seq<u8>>
    decreases found.len(),
{
    if found.len() == 0 {
        Seq::empty()
    } else {
        literals_of_frames(found.drop_last()) + decompressed_of(found.last())
    }
}

/// Compresses the literals of the blocks of a dataset, or decompresses
/// them.
pub struct LiteralsBenchmark<const DECOMPRESS: bool, Z: Zstd> {
    library: Z,
    c_data: Vec<Vec<u8>>,
    c_literals: Vec<Vec<u8>>,
    d_literals: Vec<Vec<u8>>,
    quantization: Option<i32>,
    level: i32,
}

/// The benchmark of the compression of literals.
pub type CompressLiteralsBenchmark<Z> = LiteralsBenchmark<false, Z>;

/// The benchmark of the decompression of literals.
pub type DecompressLiteralsBenchmark<Z> = LiteralsBenchmark<true, Z>;

impl<const DECOMPRESS: bool, Z: Zstd> LiteralsBenchmark<DECOMPRESS, Z> {
    /// The bucket to which the benchmark is restricted.
    pub closed spec fn bucket(&self) -> Option<i32> {
        self.quantization
    }

    /// The level at which the benchmark compresses.
    pub closed spec fn level(&self) -> i32 {
        self.level
    }

    /// The compressed literals that the benchmark decompresses.
    pub closed spec fn compressed_literals(&self) -> Seq<Vec<u8>> {
        self.c_literals@
    }

    /// The literals that the benchmark compresses.
    pub closed spec fn literals(&self) -> Seq<Vec<u8>> {
        self.d_literals@
    }

    /// The compressed frames of the data, whose blocks the benchmark walks
    /// where it decompresses without a bucket.
    pub closed spec fn frames(&self) -> Seq<Vec<u8>> {
        self.c_data@
    }

    /// There is nothing that a run would handle.
    pub open spec fn idle(&self) -> bool {
        if !DECOMPRESS {
            self.literals().len() == 0
        } else if self.bucket() is None {
            self.frames().len() == 0
        } else {
            self.compressed_literals().len() == 0
        }
    }

    /// `after` keeps what `self` keeps: the bucket and the level, the
    /// literals, the compressed literals and the frames.
    pub open spec fn kept_by(self, after: Self) -> bool {
        &&& after.bucket() == self.bucket()
        &&& after.level() == self.level()
        &&& after.literals() == self.literals()
        &&& after.compressed_literals() == self.compressed_literals()
        &&& after.frames() == self.frames()
    }

    /// What the preparation for data leaves of the benchmark `self`. The
    /// bucket and the level stay, and without a bucket no compressed literals
    /// are kept. Where the library fails, the error is `Codec` and the frames
    /// end before the datum at which it failed. Otherwise there is one frame
    /// for each datum, the literals are those of the blocks that the library
    /// found in the frames, and the compressed literals are those of them
    /// that fall into the bucket; the preparation then fails with
    /// `EmptyBucket` exactly where there is a bucket and nothing fell into
    /// it.
    pub open spec fn prepared(
        self,
        after: Self,
        data: Seq<Seq<u8>>,
        done: Result<(), BenchmarkError>,
    ) -> bool {
        &&& after.bucket() == self.bucket()
        &&& after.level() == self.level()
        &&& after.bucket() is None ==> after.compressed_literals().len() == 0
        &&& done matches Err(e) ==> e == BenchmarkError::Codec || e == BenchmarkError::EmptyBucket
        &&& done == Err::<(), BenchmarkError>(BenchmarkError::Codec) ==> after.frames().len()
            < data.len()
        &&& done != Err::<(), BenchmarkError>(BenchmarkError::Codec) ==> {
            &&& after.frames().len() == data.len()
            &&& exists|found: Seq<Seq<LiteralsBlock>>|
                found.len() == data.len() && bytes_of(after.literals())
                    == #[trigger] literals_of_frames(found) && bytes_of(
                    after.compressed_literals(),
                ) == kept_of_frames(found, after.bucket())
            &&& done is Err <==> after.bucket() is Some && after.compressed_literals().len() == 0
        }
    }

    /// What `iters` runs over the literals leave of the benchmark `self` and
    /// give: the benchmark keeps what it kept; every field is measured; where
    /// it compresses, the uncompressed size is `iters` times that of the
    /// literals, and where it decompresses for a bucket, the compressed size
    /// is `iters` times that of the compressed literals; only a sum that does
    /// not fit makes it fail, or the library where it decompresses for a
    /// bucket; and no runs, or runs over nothing, give sizes of zero.
    pub open spec fn ran(self, after: Self, iters: u64, metrics: Result<Metrics, BenchmarkError>) -> bool {
        &&& self.kept_by(after)
        &&& metrics matches Ok(m) ==> {
            &&& m.uncompressed_size is Some
            &&& m.compressed_size is Some
            &&& m.duration is Some
            &&& !DECOMPRESS ==> m.uncompressed_size->0 == iters * total_length(self.literals())
            &&& DECOMPRESS && self.bucket() is Some ==> m.compressed_size->0 == iters
                * total_length(self.compressed_literals())
        }
        &&& metrics matches Err(e) ==> e == BenchmarkError::Overflow || (DECOMPRESS
            && self.bucket() is Some && e == BenchmarkError::Codec)
        &&& iters == 0 || self.idle() ==> (metrics matches Ok(m) && m.uncompressed_size == Some(0u64)
            && m.compressed_size == Some(0u64))
    }

    /// A benchmark at a level, restricted to a bucket if one is given.
    pub fn new(library: Z, level: i32, quantization: Option<i32>) -> (benchmark: LiteralsBenchmark<
        DECOMPRESS,
        Z,
    >)
        ensures
            benchmark.bucket() == quantization,
            benchmark.level() == level,
            benchmark.literals().len() == 0,
            benchmark.compressed_literals().len() == 0,
            benchmark.frames().len() == 0,
    {
        LiteralsBenchmark {
            library,
            c_data: Vec::new(),
            c_literals: Vec::new(),
            d_literals: Vec::new(),
            level,
            quantization,
        }
    }

    /// A benchmark at a level, restricted to a bucket if one is given, on
    /// the library that was opened. Without a library there is no benchmark.
    pub fn opened(library: Option<Z>, level: i32, quantization: Option<i32>) -> (benchmark: Result<
        LiteralsBenchmark<DECOMPRESS, Z>,
        BenchmarkError,
    >)
        ensures
            library is Some ==> (benchmark matches Ok(b) && b.level() == level && b.bucket()
                == quantization && b.idle()),
            library is None ==> benchmark matches Err(BenchmarkError::Codec),
    {
        match library {
            Some(library) => Ok(LiteralsBenchmark::new(library, level, quantization)),
            None => Err(BenchmarkError::Codec),
        }
    }

    /// Keeps the literals of the blocks of a frame: the decompressed ones of
    /// every block, and the compressed ones of the blocks that fall into the
    /// bucket of the benchmark.
    pub fn keep_literals(&mut self, blocks: &Vec<LiteralsBlock>)
        ensures
            final(self).bucket() == old(self).bucket(),
            final(self).level() == old(self).level(),
            final(self).frames() == old(self).frames(),
            bytes_of(final(self).compressed_literals()) == bytes_of(old(self).compressed_literals())
                + compressed_kept(blocks@, old(self).bucket()),
            bytes_of(final(self).literals()) == bytes_of(old(self).literals()) + decompressed_of(
                blocks@,
            ),
    {
        let ghost kept = bytes_of(self.c_literals@);
        let ghost all = bytes_of(self.d_literals@);
        let mut k: usize = 0;
        proof {
            assert(blocks@.take(0) =~= Seq::<LiteralsBlock>::empty());
            assert(kept + compressed_kept(blocks@.take(0), self.quantization) =~= kept);
            assert(all + decompressed_of(blocks@.take(0)) =~= all);
        }
        while k < blocks.len()
            invariant
                k <= blocks@.len(),
                self.quantization == old(self).quantization,
                self.level == old(self).level,
                self.c_data@ == old(self).c_data@,
                kept == bytes_of(old(self).c_literals@),
                all == bytes_of(old(self).d_literals@),
                bytes_of(self.c_literals@) == kept + compressed_kept(
                    blocks@.take(k as int),
                    self.quantization,
                ),
                bytes_of(self.d_literals@) == all + decompressed_of(blocks@.take(k as int)),
            decreases blocks@.len() - k,
        {
            let ghost c_before = bytes_of(self.c_literals@);
            let ghost d_before = bytes_of(self.d_literals@);
            let block = &blocks[k];
            let q: i32 = quantization(block.compressed.len(), block.decompressed.len());
            let wanted = match self.quantization {
                Some(bucket) => bucket == q,
                None => false,
            };
            proof {
                assert(blocks@.take(k + 1).drop_last() =~= blocks@.take(k as int));
                assert(blocks@.take(k + 1).last() == blocks@[k as int]);
            }
            if block.kind == LiteralsBlockType::Compressed && wanted {
                self.c_literals.push(slice_to_vec(block.compressed.as_slice()));
                assert(bytes_of(self.c_literals@) =~= c_before.push(block.compressed@));
            }
            self.d_literals.push(slice_to_vec(block.decompressed.as_slice()));
            proof {
                assert(bytes_of(self.d_literals@) =~= d_before.push(block.decompressed@));
                assert(decompressed_of(blocks@.take(k + 1)) =~= decompressed_of(
                    blocks@.take(k as int),
                ).push(block.decompressed@));
            }
            k = k + 1;
        }
        assert(blocks@.take(blocks@.len() as int) =~= blocks@);
    }

    /// Handles all literals once and gives the decompressed and the
    /// compressed size of them. Where it compresses, it compresses each of
    /// the literals. Where it decompresses for a bucket, it decompresses each
    /// of the compressed literals, and gives up at the first that the library
    /// fails. Where it decompresses without a bucket, it walks the blocks of
    /// each frame. A sum that does not fit ends the run.
    pub fn run_one(&mut self) -> (sizes: Result<(usize, usize), BenchmarkError>)
        ensures
            (*old(self)).kept_by(*final(self)),
            sizes matches Ok((d_size, c_size)) ==> {
                &&& !DECOMPRESS ==> d_size == total_length(old(self).literals())
                &&& DECOMPRESS && old(self).bucket() is Some ==> c_size == total_length(
                    old(self).compressed_literals(),
                )
            },
            sizes matches Err(e) ==> e == BenchmarkError::Overflow || (DECOMPRESS && old(
                self,
            ).bucket() is Some && e == BenchmarkError::Codec),
            old(self).idle() ==> sizes == Ok::<(usize, usize), BenchmarkError>((0usize, 0usize)),
    {
        let mut d_size: usize = 0;
        let mut c_size: usize = 0;
        if !DECOMPRESS {
            let mut i: usize = 0;
            assert(self.d_literals@.take(0) =~= Seq::<Vec<u8>>::empty());
            while i < self.d_literals.len()
                invariant
                    i <= self.d_literals@.len(),
                    self.d_literals@ == old(self).d_literals@,
                    self.c_literals@ == old(self).c_literals@,
                    self.c_data@ == old(self).c_data@,
                    self.quantization == old(self).quantization,
                    self.level == old(self).level,
                    d_size == total_length(self.d_literals@.take(i as int)),
                    !DECOMPRESS,
                    i == 0 ==> d_size == 0 && c_size == 0,
                decreases self.d_literals@.len() - i,
            {
                let ghost all = self.d_literals@;
                proof {
                    assert(all.take(i + 1).drop_last() =~= all.take(i as int));
                }
                d_size = match d_size.checked_add(self.d_literals[i].len()) {
                    Some(sum) => sum,
                    None => {
                        return Err(BenchmarkError::Overflow);
                    },
                };
                let size: usize = self.library.compress_literals(self.d_literals[i].as_slice());
                c_size = match c_size.checked_add(size) {
                    Some(sum) => sum,
                    None => {
                        return Err(BenchmarkError::Overflow);
                    },
                };
                i = i + 1;
            }
            assert(self.d_literals@.take(self.d_literals@.len() as int) =~= self.d_literals@);
        } else if self.quantization.is_none() {
            let mut i: usize = 0;
            while i < self.c_data.len()
                invariant
                    i <= self.c_data@.len(),
                    self.d_literals@ == old(self).d_literals@,
                    self.c_literals@ == old(self).c_literals@,
                    self.c_data@ == old(self).c_data@,
                    self.quantization == old(self).quantization,
                    self.level == old(self).level,
                    DECOMPRESS && self.quantization is None,
                    i == 0 ==> d_size == 0 && c_size == 0,
                decreases self.c_data@.len() - i,
            {
                let (_, blocks) = self.library.for_each_literals_block(self.c_data[i].as_slice());
                let mut k: usize = 0;
                while k < blocks.len()
                    invariant
                        k <= blocks@.len(),
                        self.d_literals@ == old(self).d_literals@,
                        self.c_literals@ == old(self).c_literals@,
                        self.c_data@ == old(self).c_data@,
                        self.quantization == old(self).quantization,
                        self.level == old(self).level,
                        DECOMPRESS && self.quantization is None,
                        i < self.c_data@.len(),
                    decreases blocks@.len() - k,
                {
                    d_size = match d_size.checked_add(blocks[k].decompressed.len()) {
                        Some(sum) => sum,
                        None => {
                            return Err(BenchmarkError::Overflow);
                        },
                    };
                    c_size = match c_size.checked_add(blocks[k].compressed.len()) {
                        Some(sum) => sum,
                        None => {
                            return Err(BenchmarkError::Overflow);
                        },
                    };
                    k = k + 1;
                }
                i = i + 1;
            }
        } else {
            let mut i: usize = 0;
            assert(self.c_literals@.take(0) =~= Seq::<Vec<u8>>::empty());
            while i < self.c_literals.len()
                invariant
                    i <= self.c_literals@.len(),
                    self.d_literals@ == old(self).d_literals@,
                    self.c_literals@ == old(self).c_literals@,
                    self.c_data@ == old(self).c_data@,
                    self.quantization == old(self).quantization,
                    self.level == old(self).level,
                    c_size == total_length(self.c_literals@.take(i as int)),
                    DECOMPRESS && self.quantization is Some,
                    i == 0 ==> d_size == 0 && c_size == 0,
                decreases self.c_literals@.len() - i,
            {
                let ghost all = self.c_literals@;
                proof {
                    assert(all.take(i + 1).drop_last() =~= all.take(i as int));
                }
                c_size = match c_size.checked_add(self.c_literals[i].len()) {
                    Some(sum) => sum,
                    None => {
                        return Err(BenchmarkError::Overflow);
                    },
                };
                let size: usize = self.library.decompress_literals(self.c_literals[i].as_slice());
                let size: usize = checked_size(size, self.library.is_error(size))?;
                d_size = match d_size.checked_add(size) {
                    Some(sum) => sum,
                    None => {
                        return Err(BenchmarkError::Overflow);
                    },
                };
                i = i + 1;
            }
            assert(self.c_literals@.take(self.c_literals@.len() as int) =~= self.c_literals@);
        }
        Ok((d_size, c_size))
    }
}

impl<const DECOMPRESS: bool, Z: Zstd> ConfigurableBenchmark for LiteralsBenchmark<DECOMPRESS, Z> {
    fn name() -> (name: String)
        ensures
            name@ == if DECOMPRESS {
                "decompress_literals"@
            } else {
                "compress_literals"@
            },
    {
        if DECOMPRESS {
            String::from_str("decompress_literals")
        } else {
            String::from_str("compress_literals")
        }
    }

    fn from_config(config: &BenchmarkConfig) -> (benchmark: Result<
        LiteralsBenchmark<DECOMPRESS, Z>,
        BenchmarkError,
    >)
        ensures
            benchmark matches Ok(b) ==> level_of(config@) == Ok::<i32, BenchmarkError>(b.level())
                && number_of(config@, "Q"@) == Ok::<Option<i32>, BenchmarkError>(b.bucket())
                && b.idle(),
            benchmark matches Err(e) ==> e == match (level_of(config@), number_of(config@, "Q"@)) {
                (Err(refused), _) => refused,
                (Ok(_), Err(refused)) => refused,
                (Ok(_), Ok(_)) => BenchmarkError::Codec,
            },
    {
        let level: i32 = compression_level(config)?;
        let quantization = number_parameter(config, "Q")?;
        LiteralsBenchmark::opened(Z::open(), level, quantization)
    }
}

impl<const DECOMPRESS: bool, Z: Zstd> Benchmark for LiteralsBenchmark<DECOMPRESS, Z> {
    /// Forgets what was kept, then compresses each datum and keeps its frame
    /// and the literals of its blocks, and of the compressed ones those that
    /// fall into the bucket of the benchmark. The first datum that the
    /// library fails ends the work. A benchmark with a bucket into which
    /// nothing falls is refused.
    fn initialize_data_set(&mut self, data_set: &DataSet) -> (done: Result<(), BenchmarkError>)
        ensures
            (*old(self)).prepared(*final(self), data_set.contents(), done),
    {
        self.c_data.clear();
        self.c_literals.clear();
        self.d_literals.clear();
        let data = data_set.data();
        let ghost mut found: Seq<Seq<LiteralsBlock>> = Seq::empty();
        let mut i: usize = 0;
        proof {
            assert(data@.len() == crate::dataset::contents_of(data@).len());
            assert(bytes_of(self.d_literals@) =~= literals_of_frames(found));
            assert(bytes_of(self.c_literals@) =~= kept_of_frames(found, self.quantization));
        }
        while i < data.len()
            invariant
                i <= data@.len(),
                self.quantization == old(self).quantization,
                self.level == old(self).level,
                self.c_data@.len() == i,
                self.quantization is None ==> self.c_literals@.len() == 0,
                data@.len() == data_set.contents().len(),
                found.len() == i,
                bytes_of(self.d_literals@) == literals_of_frames(found),
                bytes_of(self.c_literals@) == kept_of_frames(found, self.quantization),
            decreases data@.len() - i,
        {
            let datum = &data[i];
            let mut cdata: Vec<u8> = Vec::new();
            cdata.resize(self.library.compress_bound(datum.len()), 0);
            let csize: usize = self.library.compress(&mut cdata, datum.bytes(), self.level);
            let csize: usize = checked_size(csize, self.library.is_error(csize))?;
            cdata.resize(csize, 0);
            let (nblocks, _) = self.library.for_each_block(cdata.as_slice());
            checked_size(nblocks, self.library.is_error(nblocks))?;
            let (nblocks, blocks) = self.library.for_each_literals_block(cdata.as_slice());
            let ghost kept = self.c_literals@;
            self.keep_literals(&blocks);
            proof {
                lemma_nothing_kept_without_bucket(blocks@);
                assert(bytes_of(self.c_literals@).len() == self.c_literals@.len());
                assert(bytes_of(kept).len() == kept.len());
            }
            checked_size(nblocks, self.library.is_error(nblocks))?;
            self.c_data.push(cdata);
            proof {
                assert(found.push(blocks@).drop_last() =~= found);
                found = found.push(blocks@);
            }
            i = i + 1;
        }
        if self.quantization.is_some() && self.c_literals.len() == 0 {
            return Err(BenchmarkError::EmptyBucket);
        }
        Ok(())
    }

    /// Releases each datum. What was kept stays until the benchmark is
    /// prepared again, so this cannot fail and changes nothing.
    fn finalize_data_set(&mut self, data_set: &DataSet) -> (done: Result<(), BenchmarkError>)
        ensures
            done is Ok,
            *final(self) == *old(self),
    {
        let data = data_set.data();
        let mut i: usize = 0;
        while i < data.len()
            invariant
                i <= data@.len(),
                *self == *old(self),
            decreases data@.len() - i,
        {
            self.finalize_datum(&data[i])?;
            i = i + 1;
        }
        Ok(())
    }

    /// Handles all literals `iters` times, and gives the sizes of all
    /// iterations together. The first iteration that fails ends the run, and
    /// so does a sum that does not fit.
    fn run_data_set(&mut self, _dataset: &DataSet, iters: u64) -> (metrics: Result<
        Metrics,
        BenchmarkError,
    >)
        ensures
            (*old(self)).ran(*final(self), iters, metrics),
    {
        let mut timer = Timer::new();
        let mut compressed_size: u64 = 0;
        let mut decompressed_size: u64 = 0;
        let ghost literals = total_length(self.d_literals@);
        let ghost compressed = total_length(self.c_literals@);
        let mut i: u64 = 0;
        assert(0 * literals == 0 && 0 * compressed == 0) by (nonlinear_arith);
        while i < iters
            invariant
                i <= iters,
                timer.running(),
                self.quantization == old(self).quantization,
                self.level == old(self).level,
                self.d_literals@ == old(self).d_literals@,
                self.c_literals@ == old(self).c_literals@,
                self.c_data@ == old(self).c_data@,
                literals == total_length(old(self).d_literals@),
                compressed == total_length(old(self).c_literals@),
                !DECOMPRESS ==> decompressed_size == i * literals,
                DECOMPRESS && self.quantization is Some ==> compressed_size == i * compressed,
                old(self).idle() || i == 0 ==> decompressed_size == 0 && compressed_size == 0,
            decreases iters - i,
        {
            let (d_size, c_size) = self.run_one()?;
            decompressed_size = match decompressed_size.checked_add(d_size as u64) {
                Some(sum) => sum,
                None => {
                    return Err(BenchmarkError::Overflow);
                },
            };
            compressed_size = match compressed_size.checked_add(c_size as u64) {
                Some(sum) => sum,
                None => {
                    return Err(BenchmarkError::Overflow);
                },
            };
            assert((i + 1) * literals == i * literals + literals && (i + 1) * compressed == i
                * compressed + compressed) by (nonlinear_arith);
            i = i + 1;
        }
        let duration = timer.stop();
        Ok(
            Metrics {
                uncompressed_size: Some(decompressed_size),
                compressed_size: Some(compressed_size),
                duration: Some(duration),
            },
        )
    }
}

} // verus!
