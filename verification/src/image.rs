//! RGBA8 input validation and 4x4 block gathering with edge replication.
use vstd::prelude::*;

use crate::types::{blocks_along, block_count, rgba_len, rgba_len_result, spec_rgba_len, Error};

verus! {

broadcast use vstd::slice::group_slice_axioms;

/// What validating an RGBA8 buffer of `len` bytes returns.
pub open spec fn validate_result(width: u32, height: u32, len: int) -> Result<(), Error> {
    if rgba_len_result(width, height) is Err {
        Err(Error::Dimensions)
    } else if len != spec_rgba_len(width, height) {
        Err(Error::InputLength)
    } else {
        Ok(())
    }
}

/// The RGBA8 buffer fits the dimensions.
pub open spec fn valid_image(width: u32, height: u32, len: int) -> bool {
    validate_result(width, height, len) is Ok
}

pub open spec fn clamp_below(v: int, limit: int) -> int {
    if v < limit {
        v
    } else {
        limit - 1
    }
}

/// Byte offset of the RGBA8 pixel that supplies pixel `p` of block `index`. Pixels
/// beyond the right or bottom edge repeat the last column or row.
pub open spec fn source_offset(width: u32, height: u32, index: int, p: int) -> int {
    let cols = blocks_along(width) as int;
    let x = clamp_below((index % cols) * 4 + p % 4, width as int);
    let y = clamp_below((index / cols) * 4 + p / 4, height as int);
    (y * width + x) * 4
}

/// `block` holds the sixteen pixels of block `index`.
pub open spec fn is_block_of(
    width: u32,
    height: u32,
    rgba: Seq<u8>,
    index: int,
    block: [[u8; 4]; 16],
) -> bool {
    forall|p: int, c: int|
        0 <= p < 16 && 0 <= c < 4 ==> #[trigger] block[p][c] == rgba[source_offset(
            width,
            height,
            index,
            p,
        ) + c]
}

/// The RGBA8 pixel that starts at byte `at`.
pub open spec fn pixel_at(rgba: Seq<u8>, at: int) -> [u8; 4] {
    [rgba[at], rgba[at + 1], rgba[at + 2], rgba[at + 3]]
}

/// The sixteen pixels of block `index`, edges replicated.
pub open spec fn image_block(width: u32, height: u32, rgba: Seq<u8>, index: int) -> [[u8; 4]; 16] {
    let o = |p: int| pixel_at(rgba, source_offset(width, height, index, p));
    [o(0), o(1), o(2), o(3), o(4), o(5), o(6), o(7), o(8), o(9), o(10), o(11), o(12), o(13), o(14), o(15)]
}

pub proof fn lemma_image_block(width: u32, height: u32, rgba: Seq<u8>, index: int)
    ensures
        is_block_of(width, height, rgba, index, image_block(width, height, rgba, index)),
{
    let b = image_block(width, height, rgba, index);
    assert forall|p: int, c: int| 0 <= p < 16 && 0 <= c < 4 implies #[trigger] b[p][c] == rgba[source_offset(width, height, index, p) + c] by {
        if p == 0 {} else if p == 1 {} else if p == 2 {} else if p == 3 {} else if p == 4 {} else if p == 5 {} else if p == 6 {} else if p == 7 {}
        else if p == 8 {} else if p == 9 {} else if p == 10 {} else if p == 11 {} else if p == 12 {} else if p == 13 {} else if p == 14 {} else {}
    }
}

/// Check the dimensions and the RGBA8 buffer length.
pub fn validate(width: u32, height: u32, rgba: &[u8]) -> (r: Result<(), Error>)
    ensures
        r == validate_result(width, height, rgba@.len() as int),
{
    let len = rgba_len(width, height)?;
    if rgba.len() != len {
        return Err(Error::InputLength);
    }
    Ok(())
}

/// Pixel `(x, y)` of a valid image lies inside the buffer.
pub proof fn lemma_pixel_in_bounds(width: int, height: int, x: int, y: int)
    requires
        0 <= x < width,
        0 <= y < height,
    ensures
        0 <= y * width + x,
        (y * width + x) * 4 + 4 <= width * height * 4,
{
    assert(0 <= y * width) by (nonlinear_arith)
        requires
            0 <= y,
            0 <= width,
    ;
    assert(y * width + x + 1 <= width * height) by (nonlinear_arith)
        requires
            0 <= x < width,
            0 <= y < height,
    ;
}

/// An index below `rows * cols` lies in one of the first `rows` rows.
pub proof fn lemma_div_below(index: int, cols: int, rows: int)
    requires
        0 <= index < cols * rows,
        0 < cols,
    ensures
        index / cols < rows,
        0 <= index / cols,
        0 <= index % cols < cols,
{
    vstd::arithmetic::div_mod::lemma_fundamental_div_mod(index, cols);
    vstd::arithmetic::div_mod::lemma_div_pos_is_pos(index, cols);
    vstd::arithmetic::div_mod::lemma_mod_bound(index, cols);
    let q = index / cols;
    if q >= rows {
        assert(cols * q >= cols * rows) by (nonlinear_arith)
            requires
                q >= rows,
                cols > 0,
        ;
    }
}

/// Gather block `index` (row-major) of a `width` x `height` RGBA8 image.
pub fn pixels(width: u32, height: u32, rgba: &[u8], index: usize) -> (r: [[u8; 4]; 16])
    requires
        valid_image(width, height, rgba@.len() as int),
        index < block_count(width, height),
    ensures
        is_block_of(width, height, rgba@, index as int, r),
        r == image_block(width, height, rgba@, index as int),
{
    let w = width as usize;
    let h = height as usize;
    let columns = w / 4 + if w % 4 == 0 {
        0
    } else {
        1
    };
    let bx = index % columns;
    let by = index / columns;
    let n = rgba.len();
    proof {
        lemma_div_below(index as int, columns as int, blocks_along(height) as int);
    }
    let mut out = [[0u8; 4]; 16];
    let mut p: usize = 0;
    while p < 16
        invariant
            p <= 16,
            w == width,
            h == height,
            w > 0,
            h > 0,
            rgba@.len() == w * h * 4,
            n == rgba@.len(),
            columns == blocks_along(width),
            bx == index % columns,
            by == index / columns,
            by < blocks_along(height),
            forall|q: int, c: int|
                0 <= q < p && 0 <= c < 4 ==> #[trigger] out[q][c] == rgba@[source_offset(
                    width,
                    height,
                    index as int,
                    q,
                ) + c],
        decreases 16 - p,
    {
        let x0 = bx * 4 + p % 4;
        let y0 = by * 4 + p / 4;
        let x = if x0 < w {
            x0
        } else {
            w - 1
        };
        let y = if y0 < h {
            y0
        } else {
            h - 1
        };
        proof {
            lemma_pixel_in_bounds(w as int, h as int, x as int, y as int);
        }
        let at = (y * w + x) * 4;
        out[p] = [rgba[at], rgba[at + 1], rgba[at + 2], rgba[at + 3]];
        p += 1;
    }
    proof {
        lemma_image_block(width, height, rgba@, index as int);
        let b = image_block(width, height, rgba@, index as int);
        assert forall|q: int| 0 <= q < 16 implies out[q] =~= b[q] by {
            assert forall|c: int| 0 <= c < 4 implies #[trigger] out[q][c] == b[q][c] by {}
        }
        assert(out =~= b);
    }
    out
}

} // verus!
