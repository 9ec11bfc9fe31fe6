//! Brotli as the compressor behind the distance.

use std::io::BufWriter;
use std::io::Write;
use vstd::prelude::*;

use crate::compress::CompressionFailure;
use crate::compress::Compressor;

verus! {

/// The quality of the recommended configuration.
pub const QUALITY: u32 = 4;

/// The window size, as a power of two, of the recommended configuration.
pub const LG_WINDOW_SIZE: u32 = 21;

/// The number of bytes that Brotli makes of the UTF-8 form of `text` at the
/// given quality and window size, or the failure of the encoder on it. The
/// encoder is built with its table-driven logarithms, which keep its output
/// the same on every machine.
pub uninterp spec fn brotli_size(text: Seq<char>, quality: u32, lg_window_size: u32) -> Result<
    usize,
    CompressionFailure,
>;

/// Runs `brotli::CompressorWriter` over the bytes of `buf`, into memory, and
/// counts the bytes that come out.
///
/// Nothing is proved of the encoder. The contract only gives its outcome a name:
/// the count depends on the text, the quality and the window size and on nothing
/// else. An error of the writer is handed on as a failure.
#[verifier::external_body]
fn compress_to_size(buf: &str, quality: u32, lg_window_size: u32) -> (size: Result<
    usize,
    CompressionFailure,
>)
    ensures
        size == brotli_size(buf@, quality, lg_window_size),
{
    let mut out = BufWriter::new(Vec::new());
    let written = {
        let mut writer = brotli::CompressorWriter::new(&mut out, buf.len(), quality, lg_window_size);
        writer.write_all(buf.as_bytes())
    };
    match (written, out.into_inner()) {
        (Ok(()), Ok(bytes)) => Ok(bytes.len()),
        _ => Err(CompressionFailure),
    }
}

/// Brotli under a fixed quality and window size.
#[derive(Clone, Copy, Debug, PartialEq, Eq)]
pub struct CompressBrotli {
    quality: u32,
    lg_window_size: u32,
}

impl CompressBrotli {
    /// The quality this compressor runs at.
    pub closed spec fn quality(&self) -> u32 {
        self.quality
    }

    /// The window size, as a power of two, this compressor runs with.
    pub closed spec fn lg_window_size(&self) -> u32 {
        self.lg_window_size
    }

    /// A compressor with the given quality and window size.
    pub fn new(quality: u32, lg_window_size: u32) -> (compressor: Self)
        ensures
            compressor.quality() == quality,
            compressor.lg_window_size() == lg_window_size,
    {
        Self { quality, lg_window_size }
    }

    /// The configuration that distances are meant to be compared under.
    pub fn recommended() -> (compressor: Self)
        ensures
            compressor.quality() == QUALITY,
            compressor.lg_window_size() == LG_WINDOW_SIZE,
    {
        Self { quality: QUALITY, lg_window_size: LG_WINDOW_SIZE }
    }
}

impl Compressor for CompressBrotli {
    open spec fn compressed_size(&self, buf: Seq<char>) -> Result<usize, CompressionFailure> {
        brotli_size(buf, self.quality(), self.lg_window_size())
    }

    fn get_compressed_size(&self, buf: &str) -> (size: Result<usize, CompressionFailure>) {
        compress_to_size(buf, self.quality, self.lg_window_size)
    }
}

} // verus!
