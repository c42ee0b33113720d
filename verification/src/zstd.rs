//! What the benchmarks ask of the compression library.

use vstd::prelude::*;

verus! {

/// The kind of a block of a compressed frame.
#[derive(Clone, Copy, Debug, PartialEq, Eq, Structural)]
pub enum BlockType {
    Raw,
    Rle,
    Compressed,
}

/// The kind of the literals section of a block.
#[derive(Clone, Copy, Debug, PartialEq, Eq, Structural)]
pub enum LiteralsBlockType {
    Raw,
    Rle,
    Compressed,
    Repeat,
}

/// In how many streams literals are Huffman coded.
#[derive(Clone, Copy, Debug, PartialEq, Eq, Structural)]
pub enum HufStreams {
    SingleStream,
    FourStreams,
}

/// How many symbols a step of the Huffman decoder yields.
#[derive(Clone, Copy, Debug, PartialEq, Eq, Structural)]
pub enum HufDecompressMode {
    SingleSymbol,
    DoubleSymbol,
}

/// One block of a compressed frame.
pub struct Block {
    pub bytes: Vec<u8>,
    pub kind: BlockType,
}

/// The literals of one block of a compressed frame, as they stand in the
/// frame and as they are after decompression.
pub struct LiteralsBlock {
    pub compressed: Vec<u8>,
    pub decompressed: Vec<u8>,
    pub kind: LiteralsBlockType,
}

/// The compression library. A size that it returns may be an error code:
/// `is_error` tells.
pub trait Zstd: Sized {
    /// Opens the library, if it can be opened.
    fn open() -> Option<Self>;

    /// The most bytes that compressing `src_size` bytes can give.
    fn compress_bound(&self, src_size: usize) -> usize;

    /// Whether a returned size is an error code.
    fn is_error(&self, result: usize) -> bool;

    /// Compresses `src` into `dst` and returns the compressed size.
    fn compress(&mut self, dst: &mut Vec<u8>, src: &[u8], level: i32) -> usize;

    /// The blocks of a frame and the number of them.
    fn for_each_block(&mut self, frame: &[u8]) -> (usize, Vec<Block>);

    /// The literals of the blocks of a frame and the number of them.
    fn for_each_literals_block(&mut self, frame: &[u8]) -> (usize, Vec<LiteralsBlock>);

    /// Compresses the literals of a block and returns the compressed size.
    fn compress_literals(&mut self, literals: &[u8]) -> usize;

    /// Decompresses the literals of a block and returns the decompressed
    /// size.
    fn decompress_literals(&mut self, literals: &[u8]) -> usize;
}

/// The library that is not there: it compresses nothing, finds no block and
/// reports no error.
pub struct Disabled {}

impl Zstd for Disabled {
    fn open() -> (library: Option<Disabled>)
        ensures
            library is Some,
    {
        Some(Disabled {  })
    }

    fn compress_bound(&self, src_size: usize) -> (bound: usize)
        ensures
            bound == 0,
    {
        0
    }

    fn is_error(&self, result: usize) -> (error: bool)
        ensures
            !error,
    {
        false
    }

    fn compress(&mut self, dst: &mut Vec<u8>, src: &[u8], level: i32) -> (size: usize)
        ensures
            size == 0,
            final(dst)@ == old(dst)@,
    {
        0
    }

    fn for_each_block(&mut self, frame: &[u8]) -> (found: (usize, Vec<Block>))
        ensures
            found.0 == 0,
            found.1@.len() == 0,
    {
        (0, Vec::new())
    }

    fn for_each_literals_block(&mut self, frame: &[u8]) -> (found: (usize, Vec<LiteralsBlock>))
        ensures
            found.0 == 0,
            found.1@.len() == 0,
    {
        (0, Vec::new())
    }

    fn compress_literals(&mut self, literals: &[u8]) -> (size: usize)
        ensures
            size == 0,
    {
        0
    }

    fn decompress_literals(&mut self, literals: &[u8]) -> (size: usize)
        ensures
            size == 0,
    {
        0
    }
}

} // verus!
