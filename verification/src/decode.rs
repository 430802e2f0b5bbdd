//! Block decoding to tightly packed RGBA8.
use vstd::prelude::*;
use vstd::arithmetic::div_mod::lemma_fundamental_div_mod_converse;

use crate::bits::{le16, le32, le48, read_u16, read_u32, read_u48, sel2, sel3};
use crate::types::{
    block_count, blocks_along, encoded_len_result, rgba_len, rgba_len_result, spec_block_bytes,
    spec_encoded_len, spec_rgba_len, Error, Format,
};

verus! {

broadcast use vstd::slice::group_slice_axioms;

/// A five-bit channel replicated to eight bits.
pub open spec fn expand5(x: int) -> int {
    8 * x + x / 4
}

/// A six-bit channel replicated to eight bits.
pub open spec fn expand6(x: int) -> int {
    4 * x + x / 16
}

/// Channel `c` (red, green, blue) of the RGB565 endpoint `e`, expanded to eight bits.
pub open spec fn endpoint_channel(e: int, c: int) -> int {
    if c == 0 {
        expand5(e / 2048)
    } else if c == 1 {
        expand6((e / 32) % 64)
    } else {
        expand5(e % 32)
    }
}

/// Channel `c` of entry `s` of the color palette spanned by endpoints `a` and `b`.
/// `four` selects the four-color mode; otherwise entry 3 is transparent black.
pub open spec fn palette_channel(a: int, b: int, four: bool, s: int, c: int) -> int {
    let x = endpoint_channel(a, c);
    let y = endpoint_channel(b, c);
    if s == 0 {
        x
    } else if s == 1 {
        y
    } else if s == 2 {
        if four {
            (2 * x + y) / 3
        } else {
            (x + y) / 2
        }
    } else if four {
        (x + 2 * y) / 3
    } else {
        0
    }
}

/// Alpha of palette entry `s`.
pub open spec fn palette_alpha(four: bool, s: int) -> int {
    if !four && s == 3 {
        0
    } else {
        255
    }
}

/// Channel `c` (RGBA) of pixel `p` of the color block at `at`. Four-color mode applies
/// when `force_four` holds or the first endpoint is greater than the second.
pub open spec fn color_channel(s: Seq<u8>, at: int, force_four: bool, p: int, c: int) -> int {
    let a = le16(s, at);
    let b = le16(s, at + 2);
    let four = force_four || a > b;
    let sel = sel2(le32(s, at + 4) as u32, p) as int;
    if c < 3 {
        palette_channel(a, b, four, sel, c)
    } else {
        palette_alpha(four, sel)
    }
}

/// Entry `k` of the single-channel palette spanned by `e0` and `e1`.
pub open spec fn ramp_value(e0: int, e1: int, k: int) -> int {
    if k == 0 {
        e0
    } else if k == 1 {
        e1
    } else if e0 > e1 {
        ((8 - k) * e0 + (k - 1) * e1) / 7
    } else if k < 6 {
        ((6 - k) * e0 + (k - 1) * e1) / 5
    } else if k == 6 {
        0
    } else {
        255
    }
}

/// Value of pixel `p` of the single-channel block at `at`.
pub open spec fn ramp_channel(s: Seq<u8>, at: int, p: int) -> int {
    ramp_value(s[at] as int, s[at + 1] as int, sel3(le48(s, at + 2) as u64, p) as int)
}

/// Channel `c` (RGBA) of pixel `p` of the `format` block at `at`.
pub open spec fn block_channel(format: Format, s: Seq<u8>, at: int, p: int, c: int) -> int {
    match format {
        Format::Bc1 => color_channel(s, at, false, p, c),
        Format::Bc3 => if c < 3 {
            color_channel(s, at + 8, true, p, c)
        } else {
            ramp_channel(s, at, p)
        },
        Format::Bc4 => if c == 0 {
            ramp_channel(s, at, p)
        } else if c == 3 {
            255
        } else {
            0
        },
        Format::Bc5 => if c == 0 {
            ramp_channel(s, at, p)
        } else if c == 1 {
            ramp_channel(s, at + 8, p)
        } else if c == 3 {
            255
        } else {
            0
        },
    }
}

/// Row-major index of the block that holds pixel `j` of an image `width` pixels wide.
pub open spec fn pixel_block(width: u32, j: int) -> int {
    let x = j % (width as int);
    let y = j / (width as int);
    (y / 4) * blocks_along(width) + x / 4
}

/// Position of pixel `j` inside its 4x4 block.
pub open spec fn pixel_offset(width: u32, j: int) -> int {
    let x = j % (width as int);
    let y = j / (width as int);
    (y % 4) * 4 + x % 4
}

/// Channel `c` of pixel `j` of the image decoded from `blocks`.
pub open spec fn image_channel(format: Format, width: u32, blocks: Seq<u8>, j: int, c: int) -> int {
    block_channel(
        format,
        blocks,
        pixel_block(width, j) * spec_block_bytes(format),
        pixel_offset(width, j),
        c,
    )
}

/// Whether `out` holds the first `n` pixels of the decoded image.
pub open spec fn decoded_prefix(
    format: Format,
    width: u32,
    blocks: Seq<u8>,
    out: Seq<u8>,
    n: int,
) -> bool {
    forall|j: int, c: int|
        0 <= j < n && 0 <= c < 4 ==> #[trigger] out[4 * j + c] == image_channel(
            format,
            width,
            blocks,
            j,
            c,
        )
}

/// The checks that decoding makes, in order, before it writes anything.
pub open spec fn decode_check(
    format: Format,
    width: u32,
    height: u32,
    blocks_len: int,
    output_len: int,
) -> Result<(), Error> {
    if rgba_len_result(width, height) is Err {
        Err(Error::Dimensions)
    } else if encoded_len_result(format, width, height) is Err {
        Err(Error::Dimensions)
    } else if blocks_len != spec_encoded_len(format, width, height) {
        Err(Error::InputLength)
    } else if output_len != spec_rgba_len(width, height) {
        Err(Error::OutputLength)
    } else {
        Ok(())
    }
}

pub proof fn lemma_endpoint_bounds(e: int, c: int)
    requires
        0 <= e < 65536,
    ensures
        0 <= endpoint_channel(e, c) <= 255,
{
}

pub proof fn lemma_palette_bounds(a: int, b: int, four: bool, s: int, c: int)
    requires
        0 <= a < 65536,
        0 <= b < 65536,
    ensures
        0 <= palette_channel(a, b, four, s, c) <= 255,
{
    lemma_endpoint_bounds(a, c);
    lemma_endpoint_bounds(b, c);
}

/// The RGB565 endpoint `e` expanded to eight bits per channel.
pub fn expand(e: u16) -> (r: [u8; 3])
    ensures
        forall|c: int| 0 <= c < 3 ==> r[c] == endpoint_channel(e as int, c),
{
    let r = e / 2048;
    let g = (e / 32) % 64;
    let b = e % 32;
    [(8 * r + r / 4) as u8, (4 * g + g / 16) as u8, (8 * b + b / 4) as u8]
}

/// Decode the color half of a block: 16 RGBA pixels.
pub fn color(s: &[u8], at: usize, four: bool) -> (r: [[u8; 4]; 16])
    requires
        at + 8 <= s.len(),
    ensures
        forall|p: int, c: int|
            0 <= p < 16 && 0 <= c < 4 ==> #[trigger] r[p][c] == color_channel(
                s@,
                at as int,
                four,
                p,
                c,
            ),
{
    let a = read_u16(s, at);
    let b = read_u16(s, at + 2);
    let mode = four || a > b;
    let x = expand(a);
    let y = expand(b);
    let mut third = [0u8; 4];
    let mut fourth = [0u8; 4];
    let mut c: usize = 0;
    while c < 3
        invariant
            c <= 3,
            forall|k: int|
                0 <= k < c ==> third[k] == palette_channel(a as int, b as int, mode, 2, k),
            forall|k: int|
                0 <= k < c ==> fourth[k] == palette_channel(a as int, b as int, mode, 3, k),
            forall|k: int| 0 <= k < 3 ==> x[k] == endpoint_channel(a as int, k),
            forall|k: int| 0 <= k < 3 ==> y[k] == endpoint_channel(b as int, k),
        decreases 3 - c,
    {
        let xc = x[c] as u16;
        let yc = y[c] as u16;
        if mode {
            third[c] = ((2 * xc + yc) / 3) as u8;
            fourth[c] = ((xc + 2 * yc) / 3) as u8;
        } else {
            third[c] = ((xc + yc) / 2) as u8;
            fourth[c] = 0;
        }
        c += 1;
    }
    third[3] = 255;
    fourth[3] = if mode {
        255
    } else {
        0
    };
    let pal = [[x[0], x[1], x[2], 255], [y[0], y[1], y[2], 255], third, fourth];
    let indices = read_u32(s, at + 4);
    let mut out = [[0u8; 4]; 16];
    let mut i: usize = 0;
    while i < 16
        invariant
            i <= 16,
            indices == le32(s@, at + 4),
            a == le16(s@, at as int),
            b == le16(s@, at + 2),
            mode == (four || a > b),
            forall|s: int, k: int|
                0 <= s < 4 && 0 <= k < 3 ==> #[trigger] pal[s][k] == palette_channel(
                    a as int,
                    b as int,
                    mode,
                    s,
                    k,
                ),
            forall|s: int| 0 <= s < 4 ==> #[trigger] pal[s][3] == palette_alpha(mode, s),
            forall|p: int, k: int|
                0 <= p < i && 0 <= k < 4 ==> #[trigger] out[p][k] == color_channel(
                    s@,
                    at as int,
                    four,
                    p,
                    k,
                ),
        decreases 16 - i,
    {
        let sel = (indices >> (2 * i as u32)) & 3;
        assert(sel < 4) by (bit_vector)
            requires
                sel == (indices >> (2 * i as u32)) & 3,
        ;
        out[i] = pal[sel as usize];
        i += 1;
    }
    out
}

/// Decode one single-channel (BC4) half of a block.
fn channel(s: &[u8], at: usize) -> (r: [u8; 16])
    requires
        at + 8 <= s.len(),
    ensures
        forall|p: int| 0 <= p < 16 ==> #[trigger] r[p] == ramp_channel(s@, at as int, p),
{
    let e0 = s[at];
    let e1 = s[at + 1];
    let mut pal = [0u8; 8];
    pal[0] = e0;
    pal[1] = e1;
    if e0 > e1 {
        let mut k: usize = 2;
        while k < 8
            invariant
                2 <= k <= 8,
                pal[0] == e0,
                pal[1] == e1,
                e0 > e1,
                forall|m: int| 2 <= m < k ==> pal[m] == ramp_value(e0 as int, e1 as int, m),
            decreases 8 - k,
        {
            let wa: usize = 8 - k;
            let wb: usize = k - 1;
            assert(wa * e0 + wb * e1 <= 7 * 255) by (nonlinear_arith)
                requires
                    wa + wb == 7,
                    e0 <= 255,
                    e1 <= 255,
            ;
            pal[k] = ((wa * e0 as usize + wb * e1 as usize) / 7) as u8;
            k += 1;
        }
    } else {
        let mut k: usize = 2;
        while k < 6
            invariant
                2 <= k <= 6,
                pal[0] == e0,
                pal[1] == e1,
                pal[6] == 0,
                pal[7] == 0,
                e0 <= e1,
                forall|m: int| 2 <= m < k ==> pal[m] == ramp_value(e0 as int, e1 as int, m),
            decreases 6 - k,
        {
            let wa: usize = 6 - k;
            let wb: usize = k - 1;
            assert(wa * e0 + wb * e1 <= 5 * 255) by (nonlinear_arith)
                requires
                    wa + wb == 5,
                    e0 <= 255,
                    e1 <= 255,
            ;
            pal[k] = ((wa * e0 as usize + wb * e1 as usize) / 5) as u8;
            k += 1;
        }
        pal[7] = 255;
    }
    let indices = read_u48(s, at + 2);
    let mut out = [0u8; 16];
    let mut i: usize = 0;
    while i < 16
        invariant
            i <= 16,
            at + 8 <= s@.len(),
            e0 == s@[at as int],
            e1 == s@[at + 1],
            indices == le48(s@, at + 2),
            forall|m: int| 0 <= m < 8 ==> #[trigger] pal[m] == ramp_value(e0 as int, e1 as int, m),
            forall|p: int| 0 <= p < i ==> #[trigger] out[p] == ramp_channel(s@, at as int, p),
        decreases 16 - i,
    {
        let sel = (indices >> (3 * i as u64)) & 7;
        assert(sel < 8) by (bit_vector)
            requires
                sel == (indices >> (3 * i as u64)) & 7,
        ;
        out[i] = pal[sel as usize];
        i += 1;
    }
    out
}

/// Decode the block of `format` whose bytes start at `at`.
pub fn decode_block(format: Format, s: &[u8], at: usize) -> (r: [[u8; 4]; 16])
    requires
        at + spec_block_bytes(format) <= s.len(),
    ensures
        forall|p: int, c: int|
            0 <= p < 16 && 0 <= c < 4 ==> #[trigger] r[p][c] == block_channel(
                format,
                s@,
                at as int,
                p,
                c,
            ),
{
    match format {
        Format::Bc1 => color(s, at, false),
        Format::Bc3 => {
            let mut pixels = color(s, at + 8, true);
            let alpha = channel(s, at);
            let mut i: usize = 0;
            while i < 16
                invariant
                    i <= 16,
                    forall|p: int| 0 <= p < 16 ==> #[trigger] alpha[p] == ramp_channel(s@, at as int, p),
                    forall|p: int, c: int|
                        0 <= p < 16 && 0 <= c < 3 ==> #[trigger] pixels[p][c] == color_channel(
                            s@,
                            at + 8,
                            true,
                            p,
                            c,
                        ),
                    forall|p: int| 0 <= p < i ==> #[trigger] pixels[p][3] == ramp_channel(s@, at as int, p),
                decreases 16 - i,
            {
                let px = pixels[i];
                pixels[i] = [px[0], px[1], px[2], alpha[i]];
                i += 1;
            }
            pixels
        },
        _ => {
            let red = channel(s, at);
            let green = if format == Format::Bc5 {
                channel(s, at + 8)
            } else {
                [0u8; 16]
            };
            let mut pixels = [[0u8, 0, 0, 255]; 16];
            let mut i: usize = 0;
            while i < 16
                invariant
                    i <= 16,
                    format == Format::Bc4 || format == Format::Bc5,
                    forall|p: int| 0 <= p < 16 ==> #[trigger] red[p] == ramp_channel(s@, at as int, p),
                    format == Format::Bc5 ==> forall|p: int|
                        0 <= p < 16 ==> #[trigger] green[p] == ramp_channel(s@, at + 8, p),
                    format == Format::Bc4 ==> forall|p: int| 0 <= p < 16 ==> #[trigger] green[p] == 0,
                    forall|p: int, c: int|
                        0 <= p < i && 0 <= c < 4 ==> #[trigger] pixels[p][c] == block_channel(
                            format,
                            s@,
                            at as int,
                            p,
                            c,
                        ),
                decreases 16 - i,
            {
                pixels[i] = [red[i], green[i], 0, 255];
                i += 1;
            }
            pixels
        },
    }
}


/// Pixel `j = y * w + x` with `x < w` lies in row `y`, column `x`.
pub proof fn lemma_pixel_coordinates(w: int, y: int, x: int)
    requires
        0 <= x < w,
        0 <= y,
    ensures
        (y * w + x) / w == y,
        (y * w + x) % w == x,
{
    lemma_fundamental_div_mod_converse(y * w + x, w, y, x);
}

/// Block `(row, col)` of a `rows` x `cols` grid lies inside the block storage.
pub proof fn lemma_block_in_bounds(row: int, col: int, rows: int, cols: int, bb: int)
    requires
        0 <= row < rows,
        0 <= col < cols,
        0 < bb,
    ensures
        0 <= row * cols + col < rows * cols,
        (row * cols + col) * bb + bb <= rows * cols * bb,
{
    assert(row * cols + col < rows * cols) by (nonlinear_arith)
        requires
            0 <= row < rows,
            0 <= col < cols,
    ;
    assert(0 <= row * cols) by (nonlinear_arith)
        requires
            0 <= row,
            0 <= cols,
    ;
    assert((row * cols + col) * bb + bb <= rows * cols * bb) by (nonlinear_arith)
        requires
            row * cols + col + 1 <= rows * cols,
            0 < bb,
    ;
}

/// Decode every block into `output`, cropping partial blocks at the right and bottom edges.
fn write_image(width: u32, height: u32, blocks: &[u8], format: Format, output: &mut [u8])
    requires
        width > 0,
        height > 0,
        blocks@.len() == spec_encoded_len(format, width, height),
        old(output)@.len() == spec_rgba_len(width, height),
        spec_rgba_len(width, height) <= isize::MAX,
    ensures
        final(output)@.len() == old(output)@.len(),
        decoded_prefix(format, width, blocks@, final(output)@, width * height),
{
    let w = width as usize;
    let h = height as usize;
    let bb = format.block_bytes();
    let columns = w / 4 + if w % 4 == 0 {
        0
    } else {
        1
    };
    let ghost rows = blocks_along(height) as int;
    let nblocks = blocks.len();
    proof {
        assert(columns == blocks_along(width));
        assert(blocks@.len() == rows * columns * bb) by (nonlinear_arith)
            requires
                blocks@.len() == spec_encoded_len(format, width, height),
                rows == blocks_along(height),
                columns == blocks_along(width),
                bb == spec_block_bytes(format),
        ;
        assert(w * h <= w * h * 4) by (nonlinear_arith)
            requires
                0 <= w,
                0 <= h,
        ;
    }
    let mut y: usize = 0;
    while y < h
        invariant
            w == width,
            h == height,
            bb == spec_block_bytes(format),
            columns == blocks_along(width),
            rows == blocks_along(height),
            blocks@.len() == rows * columns * bb,
            nblocks == blocks@.len(),
            output@.len() == w * h * 4,
            w * h * 4 <= isize::MAX,
            y <= h,
            decoded_prefix(format, width, blocks@, output@, y * w),
        decreases h - y,
    {
        proof {
            assert(y * w + w <= h * w) by (nonlinear_arith)
                requires
                    y < h,
                    0 <= w,
            ;
        }
        let mut x: usize = 0;
        while x < w
            invariant
                w == width,
                h == height,
                bb == spec_block_bytes(format),
                columns == blocks_along(width),
                rows == blocks_along(height),
                blocks@.len() == rows * columns * bb,
                nblocks == blocks@.len(),
                output@.len() == w * h * 4,
                w * h * 4 <= isize::MAX,
                y < h,
                y * w + w <= h * w,
                x <= w,
                x % 4 == 0 || x == w,
                decoded_prefix(format, width, blocks@, output@, y * w + x),
            decreases w - x,
        {
            let bx = x / 4;
            proof {
                lemma_block_in_bounds((y / 4) as int, bx as int, rows, columns as int, bb as int);
                assert(rows * columns <= rows * columns * bb) by (nonlinear_arith)
                    requires
                        0 <= rows * columns,
                        1 <= bb,
                ;
            }
            let index = (y / 4) * columns + bx;
            let pixels = decode_block(format, blocks, index * bb);
            let row = y % 4;
            let mut t: usize = 0;
            while t < 4 && 4 * bx + t < w
                invariant
                    w == width,
                    h == height,
                    bb == spec_block_bytes(format),
                    columns == blocks_along(width),
                    output@.len() == w * h * 4,
                    w * h * 4 <= isize::MAX,
                    y < h,
                    y * w + w <= h * w,
                    bx < columns,
                    4 * bx == x,
                    x < w,
                    t <= 4,
                    4 * bx + t <= w,
                    index == (y / 4) * columns + bx,
                    row == y % 4,
                    forall|p: int, c: int|
                        0 <= p < 16 && 0 <= c < 4 ==> #[trigger] pixels[p][c] == block_channel(
                            format,
                            blocks@,
                            index * bb,
                            p,
                            c,
                        ),
                    decoded_prefix(format, width, blocks@, output@, y * w + 4 * bx + t),
                decreases 4 - t,
            {
                let xt = 4 * bx + t;
                let j = y * w + xt;
                let at = j * 4;
                let px = pixels[row * 4 + t];
                proof {
                    lemma_pixel_coordinates(w as int, y as int, xt as int);
                    assert(xt / 4 == bx && xt % 4 == t);
                    assert(pixel_block(width, j as int) == index);
                    assert(pixel_offset(width, j as int) == row * 4 + t);
                }
                let ghost before = output@;
                output[at] = px[0];
                output[at + 1] = px[1];
                output[at + 2] = px[2];
                output[at + 3] = px[3];
                proof {
                    assert forall|j2: int, c: int|
                        0 <= j2 < j + 1 && 0 <= c < 4 implies #[trigger] output@[4 * j2 + c]
                        == image_channel(format, width, blocks@, j2, c) by {
                        if j2 < j {
                            assert(before[4 * j2 + c] == image_channel(format, width, blocks@, j2, c));
                        }
                    }
                }
                t += 1;
            }
            x = x + t;
        }
        proof {
            assert(decoded_prefix(format, width, blocks@, output@, (y + 1) * w)) by {
                assert((y + 1) * w == y * w + w) by (nonlinear_arith);
            }
        }
        y += 1;
    }
    assert(y * w == width * height) by (nonlinear_arith)
        requires
            y == h,
            w == width,
            h == height,
    ;
}

/// Decode BC blocks into an exactly sized, tightly packed RGBA8 buffer.
/// Partial edge blocks are cropped to the requested image dimensions.
/// Invalid dimensions and buffer lengths are rejected before any output is written.
pub fn decode_into(width: u32, height: u32, blocks: &[u8], format: Format, output: &mut [u8]) -> (r:
    Result<(), Error>)
    ensures
        r == decode_check(format, width, height, blocks@.len() as int, old(output)@.len() as int),
        r is Err ==> final(output)@ == old(output)@,
        r is Ok ==> final(output)@.len() == old(output)@.len() && decoded_prefix(
            format,
            width,
            blocks@,
            final(output)@,
            width * height,
        ),
{
    let len = rgba_len(width, height)?;
    let expected = format.encoded_len(width, height)?;
    if blocks.len() != expected {
        return Err(Error::InputLength);
    }
    if output.len() != len {
        return Err(Error::OutputLength);
    }
    write_image(width, height, blocks, format, output);
    Ok(())
}

/// Decode row-major blocks to tightly packed RGBA8. BC4 writes (R,0,0,255), BC5 writes
/// (R,G,0,255). BC3 always uses four color interpolants regardless of endpoint order.
pub fn decode(width: u32, height: u32, blocks: &[u8], format: Format) -> (r: Result<Vec<u8>, Error>)
    ensures
        match r {
            Ok(v) => decode_check(
                format,
                width,
                height,
                blocks@.len() as int,
                spec_rgba_len(width, height) as int,
            ) is Ok && v@.len() == spec_rgba_len(width, height) && decoded_prefix(
                format,
                width,
                blocks@,
                v@,
                width * height,
            ),
            Err(e) => decode_check(
                format,
                width,
                height,
                blocks@.len() as int,
                spec_rgba_len(width, height) as int,
            ) == Err::<(), Error>(e),
        },
{
    let len = rgba_len(width, height)?;
    let expected = format.encoded_len(width, height)?;
    if blocks.len() != expected {
        return Err(Error::InputLength);
    }
    let mut output: Vec<u8> = vec![0u8; len];
    write_image(width, height, blocks, format, output.as_mut_slice());
    Ok(output)
}

/// Decoding determines every byte of the image: `decode` returns exactly what
/// `decode_into` writes into a buffer of the image's size.
pub proof fn lemma_decoded_image_unique(format: Format, width: u32, height: u32, blocks: Seq<u8>, s: Seq<u8>, t: Seq<u8>)
    requires
        s.len() == spec_rgba_len(width, height),
        t.len() == s.len(),
        decoded_prefix(format, width, blocks, s, width * height),
        decoded_prefix(format, width, blocks, t, width * height),
    ensures
        s == t,
{
    assert forall|i: int| 0 <= i < s.len() implies s[i] == t[i] by {
        let j = i / 4;
        let c = i % 4;
        vstd::arithmetic::div_mod::lemma_fundamental_div_mod(i, 4);
        assert(s[4 * j + c] == t[4 * j + c]);
    }
    assert(s =~= t);
}

/// The value that ramp level `l` (0 at `lo`, 7 at `hi`) decodes to.
pub open spec fn level_value(l: int, lo: int, hi: int) -> int {
    (l * hi + (7 - l) * lo) / 7
}

/// In a block with `hi > lo`, palette index `alpha_index(l)` decodes to ramp level `l`.
proof fn lemma_index_value(l: int, lo: int, hi: int)
    requires
        0 <= l <= 7,
        0 <= lo < hi <= 255,
    ensures
        ramp_value(hi, lo, crate::alpha::alpha_index(l)) == level_value(l, lo, hi),
        lo <= level_value(l, lo, hi) <= hi,
{
    assert(7 * lo <= l * hi + (7 - l) * lo <= 7 * hi) by (nonlinear_arith)
        requires
            0 <= l <= 7,
            lo < hi,
    ;
    if l == 0 {
        assert((0 * hi + 7 * lo) / 7 == lo);
    } else if l == 7 {
        assert((7 * hi + 0 * lo) / 7 == hi);
    }
}

/// Level values increase with the level.
proof fn lemma_level_value_monotone(l1: int, l2: int, lo: int, hi: int)
    requires
        0 <= l1 <= l2 <= 7,
        0 <= lo < hi,
    ensures
        level_value(l1, lo, hi) <= level_value(l2, lo, hi),
{
    assert(l1 * hi + (7 - l1) * lo <= l2 * hi + (7 - l2) * lo) by (nonlinear_arith)
        requires
            l1 <= l2,
            lo < hi,
    ;
    vstd::arithmetic::div_mod::lemma_div_is_ordered(l1 * hi + (7 - l1) * lo, l2 * hi + (7 - l2) * lo, 7);
}

/// The least and the greatest value of a block decode to themselves.
proof fn lemma_extreme_levels(lo: int, hi: int)
    requires
        0 <= lo < hi <= 255,
    ensures
        level_value(crate::alpha::alpha_level(lo, lo, hi), lo, hi) == lo,
        level_value(crate::alpha::alpha_level(hi, lo, hi), lo, hi) == hi,
{
    assert(level_value(7, lo, hi) == hi);
    let d = hi - lo;
    if d > 4 {
        assert(level_value(0, lo, hi) == lo);
    } else if d == 1 {
        assert(level_value(2, lo, hi) == (7 * lo + 2) / 7);
    } else {
        assert(level_value(1, lo, hi) == (7 * lo + d) / 7);
    }
}

/// Decoding an encoded BC4 block keeps every value within the block's range, gives back
/// its least and greatest values exactly, and keeps the order of the values.
pub proof fn lemma_alpha_round_trip(values: Seq<u8>, out: Seq<u8>)
    requires
        values.len() == 16,
        crate::alpha::is_alpha_block(values, out),
    ensures
        forall|i: int| 0 <= i < 16 ==> out[1] <= #[trigger] ramp_channel(out, 0, i) <= out[0],
        forall|i: int| 0 <= i < 16 && (values[i] == out[1] || values[i] == out[0]) ==> #[trigger] ramp_channel(out, 0, i) == values[i],
        forall|i: int, j: int|
            0 <= i < 16 && 0 <= j < 16 && values[i] <= values[j] ==> #[trigger] ramp_channel(out, 0, i) <= #[trigger] ramp_channel(out, 0, j),
{
    let hi = out[0] as int;
    let lo = out[1] as int;
    assert(values[0] <= out[0] && out[1] <= values[0]);
    if hi == lo {
        assert(le48(out, 2) == 0);
        assert forall|i: int| 0 <= i < 16 implies #[trigger] ramp_channel(out, 0, i) == hi && values[i] == hi by {
            let s = (3 * i) as u64;
            assert((0u64 >> s) & 7u64 == 0u64) by (bit_vector);
            assert(values[i] <= out[0] && out[1] <= values[i]);
        }
    } else {
        lemma_extreme_levels(lo, hi);
        assert forall|i: int| 0 <= i < 16 implies #[trigger] ramp_channel(out, 0, i) == level_value(
            crate::alpha::alpha_level(values[i] as int, lo, hi),
            lo,
            hi,
        ) && lo <= ramp_channel(out, 0, i) <= hi by {
            let l = crate::alpha::alpha_level(values[i] as int, lo, hi);
            assert(values[i] <= out[0] && out[1] <= values[i]);
            lemma_index_value(l, lo, hi);
        }
        assert forall|i: int, j: int|
            0 <= i < 16 && 0 <= j < 16 && values[i] <= values[j] implies #[trigger] ramp_channel(out, 0, i)
            <= #[trigger] ramp_channel(out, 0, j) by {
            let li = crate::alpha::alpha_level(values[i] as int, lo, hi);
            let lj = crate::alpha::alpha_level(values[j] as int, lo, hi);
            assert(values[i] <= out[0] && out[1] <= values[i]);
            assert(values[j] <= out[0] && out[1] <= values[j]);
            assert(li <= lj);
            lemma_level_value_monotone(li, lj, lo, hi);
        }
    }
}

/// The BC4 palette: both endpoints, then interpolants that run between them in order.
/// With `e0 > e1` the six interpolants step down from `e0` toward `e1`; with `e0 <= e1` four
/// interpolants step up from `e0` toward `e1`, and entries 6 and 7 are 0 and 255.
pub proof fn lemma_ramp_palette(e0: int, e1: int, k: int)
    requires
        0 <= e0 <= 255,
        0 <= e1 <= 255,
        0 <= k < 8,
    ensures
        ramp_value(e0, e1, 0) == e0,
        ramp_value(e0, e1, 1) == e1,
        e0 > e1 ==> e1 <= ramp_value(e0, e1, k) <= e0,
        e0 > e1 && 2 <= k < 7 ==> ramp_value(e0, e1, k + 1) <= ramp_value(e0, e1, k),
        e0 > e1 && k == 2 ==> ramp_value(e0, e1, 2) <= e0 && e1 <= ramp_value(e0, e1, 7),
        e0 <= e1 && k < 6 ==> e0 <= ramp_value(e0, e1, k) <= e1,
        e0 <= e1 && 2 <= k < 5 ==> ramp_value(e0, e1, k) <= ramp_value(e0, e1, k + 1),
        e0 <= e1 ==> ramp_value(e0, e1, 6) == 0 && ramp_value(e0, e1, 7) == 255,
        e0 > e1 && 2 <= k ==> 7 * ramp_value(e0, e1, k) <= (8 - k) * e0 + (k - 1) * e1 < 7 * ramp_value(e0, e1, k) + 7,
        e0 <= e1 && 2 <= k < 6 ==> 5 * ramp_value(e0, e1, k) <= (6 - k) * e0 + (k - 1) * e1 < 5 * ramp_value(e0, e1, k) + 5,
{
    vstd::arithmetic::div_mod::lemma_fundamental_div_mod((8 - k) * e0 + (k - 1) * e1, 7);
    vstd::arithmetic::div_mod::lemma_mod_bound((8 - k) * e0 + (k - 1) * e1, 7);
    vstd::arithmetic::div_mod::lemma_fundamental_div_mod((6 - k) * e0 + (k - 1) * e1, 5);
    vstd::arithmetic::div_mod::lemma_mod_bound((6 - k) * e0 + (k - 1) * e1, 5);
    if 2 <= k {
        if e0 > e1 {
            assert(7 * e1 <= (8 - k) * e0 + (k - 1) * e1 <= 7 * e0) by (nonlinear_arith)
                requires
                    2 <= k < 8,
                    e1 < e0,
            ;
            vstd::arithmetic::div_mod::lemma_div_is_ordered(7 * e1, (8 - k) * e0 + (k - 1) * e1, 7);
            vstd::arithmetic::div_mod::lemma_div_is_ordered((8 - k) * e0 + (k - 1) * e1, 7 * e0, 7);
            if k < 7 {
                assert((7 - k) * e0 + k * e1 <= (8 - k) * e0 + (k - 1) * e1) by (nonlinear_arith)
                    requires
                        e1 < e0,
                ;
                vstd::arithmetic::div_mod::lemma_div_is_ordered((7 - k) * e0 + k * e1, (8 - k) * e0 + (k - 1) * e1, 7);
            }
        } else if k < 6 {
            assert(5 * e0 <= (6 - k) * e0 + (k - 1) * e1 <= 5 * e1) by (nonlinear_arith)
                requires
                    2 <= k < 6,
                    e0 <= e1,
            ;
            vstd::arithmetic::div_mod::lemma_div_is_ordered(5 * e0, (6 - k) * e0 + (k - 1) * e1, 5);
            vstd::arithmetic::div_mod::lemma_div_is_ordered((6 - k) * e0 + (k - 1) * e1, 5 * e1, 5);
            if k < 5 {
                assert((6 - k) * e0 + (k - 1) * e1 <= (5 - k) * e0 + k * e1) by (nonlinear_arith)
                    requires
                        e0 <= e1,
                ;
                vstd::arithmetic::div_mod::lemma_div_is_ordered((6 - k) * e0 + (k - 1) * e1, (5 - k) * e0 + k * e1, 5);
            }
        }
    }
}

/// Level `l` chosen for a value `v` of the range `lo..=hi` decodes within about a
/// fourteenth of the range of `v`.
proof fn lemma_level_error(v: int, lo: int, hi: int)
    requires
        0 <= lo <= v <= hi <= 255,
        lo < hi,
    ensures
        ({
            let e = level_value(crate::alpha::alpha_level(v, lo, hi), lo, hi) - v;
            -(hi - lo) - 14 <= 14 * e <= (hi - lo) + 14
        }),
{
    let l = crate::alpha::alpha_level(v, lo, hi);
    let d = hi - lo;
    let u = v - lo;
    let n = l * hi + (7 - l) * lo;
    vstd::arithmetic::div_mod::lemma_fundamental_div_mod(n, 7);
    vstd::arithmetic::div_mod::lemma_mod_bound(n, 7);
    let q = n / 7;
    assert(n == 7 * lo + l * d) by (nonlinear_arith)
        requires
            n == l * hi + (7 - l) * lo,
            d == hi - lo,
    ;
    assert(0 <= l <= 7);
    assert(l == 0 ==> 14 * u + 4 < d);
    assert(l == 7 ==> 14 * u + 4 >= 13 * d);
    assert(1 <= l <= 6 ==> (2 * l - 1) * d <= 14 * u + 4 < (2 * l + 1) * d);
    assert(-d - 14 <= 14 * (q - v) <= d + 14) by (nonlinear_arith)
        requires
            0 <= l <= 7,
            n == 7 * q + n % 7,
            0 <= n % 7 < 7,
            n == 7 * lo + l * d,
            u == v - lo,
            0 <= u <= d,
            l == 0 ==> 14 * u + 4 < d,
            l == 7 ==> 14 * u + 4 >= 13 * d,
            1 <= l <= 6 ==> (2 * l - 1) * d <= 14 * u + 4 < (2 * l + 1) * d,
    ;
}

/// Every value of an encoded BC4 block decodes within a fourteenth of the block's range
/// (plus one for rounding) of itself: the ramp level nearest the value is chosen.
pub proof fn lemma_alpha_block_error(values: Seq<u8>, out: Seq<u8>)
    requires
        values.len() == 16,
        crate::alpha::is_alpha_block(values, out),
    ensures
        forall|i: int|
            0 <= i < 16 ==> -(out[0] - out[1]) - 14 <= 14 * (#[trigger] ramp_channel(out, 0, i) - values[i]) <= (out[0] - out[1]) + 14,
{
    lemma_alpha_round_trip(values, out);
    let hi = out[0] as int;
    let lo = out[1] as int;
    assert forall|i: int| 0 <= i < 16 implies -(out[0] - out[1]) - 14 <= 14 * (#[trigger] ramp_channel(out, 0, i) - values[i])
        <= (out[0] - out[1]) + 14 by {
        assert(values[i] <= out[0] && out[1] <= values[i]);
        if hi == lo {
            assert(ramp_channel(out, 0, i) == values[i]);
        } else {
            let l = crate::alpha::alpha_level(values[i] as int, lo, hi);
            lemma_index_value(l, lo, hi);
            lemma_level_error(values[i] as int, lo, hi);
        }
    }
}

} // verus!
