//! Host-side logic of hardware endpoint refinement: input checks, batch packing and
//! writing results back. The device work itself runs outside this library.
use vstd::prelude::*;

use crate::bits::{read_u32, write_u32};
use crate::refine::{block_words, color_offset, color_words, gather, refine_check};
use crate::image::valid_image;
use crate::types::{block_count, spec_block_bytes, Format};

verus! {

broadcast use vstd::slice::group_slice_axioms;

/// Failure to initialize or execute hardware refinement.
#[derive(Debug)]
pub enum Error {
    /// Invalid pixels, format or destination blocks.
    Input(crate::Error),
    /// No usable hardware adapter or pipeline could be created.
    Unavailable(String),
    /// Device execution, synchronization or readback failed.
    Device(String),
}

/// Blocks handed to the device in one dispatch.
pub const BATCH_BLOCKS: usize = 4096;

/// Check a refinement request; invalid input is reported as `Error::Input`.
pub fn validate_input(width: u32, height: u32, rgba: &[u8], format: Format, blocks: &[u8]) -> (r: Result<(), Error>)
    ensures
        match r {
            Ok(()) => refine_check(format, width, height, rgba@.len() as int, blocks@) is Ok,
            Err(e) => refine_check(format, width, height, rgba@.len() as int, blocks@) matches Err(inner) && e == Error::Input(inner),
        },
{
    match crate::refine::validate(width, height, rgba, format, blocks) {
        Ok(()) => Ok(()),
        Err(e) => Err(Error::Input(e)),
    }
}

/// Device input of one batch: sixteen pixel words per block, then the endpoint and
/// selector words of each block's color half.
pub fn prepare_batch(
    width: u32,
    height: u32,
    rgba: &[u8],
    format: Format,
    blocks: &[u8],
    first: usize,
    count: usize,
) -> (r: (Vec<u32>, Vec<u32>))
    requires
        valid_image(width, height, rgba@.len() as int),
        format == Format::Bc1 || format == Format::Bc3,
        blocks@.len() == block_count(width, height) * spec_block_bytes(format),
        first + count <= block_count(width, height),
    ensures
        r.0@.len() == 16 * count,
        r.1@.len() == 2 * count,
        forall|j: int, p: int|
            0 <= j < count && 0 <= p < 16 ==> #[trigger] r.0@[16 * j + p] == block_words(width, height, rgba@, first + j)[p],
        forall|j: int|
            0 <= j < count ==> #[trigger] r.1@[2 * j] == color_words(format, blocks@, first + j)[0] && r.1@[2 * j + 1] == color_words(
                format,
                blocks@,
                first + j,
            )[1],
{
    let stride = format.block_bytes();
    let offset: usize = if format == Format::Bc3 {
        8
    } else {
        0
    };
    let blen = blocks.len();
    let mut pixels: Vec<u32> = Vec::new();
    let mut originals: Vec<u32> = Vec::new();
    let mut j: usize = 0;
    proof {
        crate::encode::lemma_block_count_bound(width, height);
    }
    while j < count
        invariant
            j <= count,
            first + count <= block_count(width, height),
            block_count(width, height) <= rgba@.len(),
            valid_image(width, height, rgba@.len() as int),
            stride == spec_block_bytes(format),
            offset == color_offset(format),
            blocks@.len() == block_count(width, height) * stride,
            blen == blocks@.len(),
            pixels@.len() == 16 * j,
            originals@.len() == 2 * j,
            forall|i: int, p: int|
                0 <= i < j && 0 <= p < 16 ==> #[trigger] pixels@[16 * i + p] == block_words(width, height, rgba@, first + i)[p],
            forall|i: int|
                0 <= i < j ==> #[trigger] originals@[2 * i] == color_words(format, blocks@, first + i)[0] && originals@[2 * i + 1]
                    == color_words(format, blocks@, first + i)[1],
        decreases count - j,
    {
        let index = first + j;
        let words = gather(width, height, rgba, index);
        let mut p: usize = 0;
        while p < 16
            invariant
                p <= 16,
                j < count,
                pixels@.len() == 16 * j + p,
                words@ == block_words(width, height, rgba@, index as int),
                forall|i: int, q: int|
                    0 <= i < j && 0 <= q < 16 ==> #[trigger] pixels@[16 * i + q] == block_words(width, height, rgba@, first + i)[q],
                forall|q: int| 0 <= q < p ==> #[trigger] pixels@[16 * j + q] == words@[q],
            decreases 16 - p,
        {
            pixels.push(words[p]);
            p += 1;
        }
        proof {
            assert((index + 1) * stride <= block_count(width, height) * stride) by (nonlinear_arith)
                requires
                    index < block_count(width, height),
                    stride > 0,
            ;
            assert((index + 1) * stride == index * stride + stride) by (nonlinear_arith);
        }
        let at = index * stride + offset;
        let ghost prev = originals@;
        let w0 = read_u32(blocks, at);
        let w1 = read_u32(blocks, at + 4);
        originals.push(w0);
        originals.push(w1);
        proof {
            assert(color_words(format, blocks@, index as int) == [w0, w1]);
            assert forall|i: int| 0 <= i < j + 1 implies #[trigger] originals@[2 * i] == color_words(format, blocks@, first + i)[0] && originals@[2 * i + 1]
                == color_words(format, blocks@, first + i)[1] by {
                if i < j {
                    assert(originals@[2 * i] == prev[2 * i]);
                    assert(originals@[2 * i + 1] == prev[2 * i + 1]);
                }
            }
            assert forall|i: int, q: int|
                0 <= i < j + 1 && 0 <= q < 16 implies #[trigger] pixels@[16 * i + q] == block_words(width, height, rgba@, first + i)[q] by {
                if i == j {
                    assert(pixels@[16 * i + q] == words@[q]);
                }
            }
        }
        j += 1;
    }
    (pixels, originals)
}

/// Write device results (endpoint and selector words per block) into the color halves of
/// blocks `first..first + count`. No other byte changes.
pub fn apply_batch(blocks: &mut [u8], format: Format, first: usize, results: &[u32])
    requires
        format == Format::Bc1 || format == Format::Bc3,
        results@.len() % 2 == 0,
        (first + results@.len() / 2) * spec_block_bytes(format) <= old(blocks)@.len(),
    ensures
        final(blocks)@.len() == old(blocks)@.len(),
        forall|j: int|
            0 <= j < results@.len() / 2 ==> #[trigger] color_words(format, final(blocks)@, first + j) == [results@[2 * j], results@[2 * j + 1]],
        forall|i: int|
            0 <= i < final(blocks)@.len() && !(first * spec_block_bytes(format) <= i < (first + results@.len() / 2) * spec_block_bytes(format)
                && i % (spec_block_bytes(format) as int) >= color_offset(format)) ==> final(blocks)@[i] == old(blocks)@[i],
{
    let stride = format.block_bytes();
    let offset: usize = if format == Format::Bc3 {
        8
    } else {
        0
    };
    let count = results.len() / 2;
    let len = blocks.len();
    let ghost start = blocks@;
    let mut j: usize = 0;
    while j < count
        invariant
            j <= count,
            count == results@.len() / 2,
            results@.len() % 2 == 0,
            len == blocks@.len(),
            blocks@.len() == start.len(),
            stride == spec_block_bytes(format),
            offset == color_offset(format),
            offset + 8 == stride,
            (first + count) * stride <= start.len(),
            forall|i: int| 0 <= i < j ==> #[trigger] color_words(format, blocks@, first + i) == [results@[2 * i], results@[2 * i + 1]],
            forall|i: int|
                0 <= i < blocks@.len() && !(first * stride <= i < (first + j) * stride && i % (stride as int) >= offset) ==> blocks@[i] == start[i],
        decreases count - j,
    {
        proof {
            assert((first + j + 1) * stride <= (first + count) * stride) by (nonlinear_arith)
                requires
                    j < count,
                    stride > 0,
            ;
            assert((first + j + 1) * stride == (first + j) * stride + stride) by (nonlinear_arith);
        }
        let at = (first + j) * stride + offset;
        let ghost before = blocks@;
        write_u32(blocks, at, results[2 * j]);
        write_u32(blocks, at + 4, results[2 * j + 1]);
        proof {
            assert forall|i: int| 0 <= i < j + 1 implies #[trigger] color_words(format, blocks@, first + i) == [results@[2 * i], results@[2 * i + 1]] by {
                if i < j {
                    let ai = (first + i) * stride + offset;
                    assert(ai + 8 <= at) by (nonlinear_arith)
                        requires
                            ai == (first + i) * stride + offset,
                            at == (first + j) * stride + offset,
                            i < j,
                            offset + 8 == stride,
                    ;
                    assert(color_words(format, blocks@, first + i) == color_words(format, before, first + i));
                }
            }
            assert forall|i: int|
                0 <= i < blocks@.len() && !(first * stride <= i < (first + j + 1) * stride && i % (stride as int) >= offset) implies blocks@[i] == start[i] by {
                if at <= i < at + 8 {
                    vstd::arithmetic::div_mod::lemma_fundamental_div_mod_converse(i, stride as int, (first + j) as int, i - (first + j) * stride);
                    assert(first * stride <= (first + j) * stride) by (nonlinear_arith)
                        requires
                            stride > 0,
                    ;
                }
            }
        }
        j += 1;
    }
}

} // verus!
