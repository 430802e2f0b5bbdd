//! Image encoding: block gathering, per-format block encoding and output layout.
use vstd::prelude::*;
use vstd::arithmetic::div_mod::lemma_fundamental_div_mod_converse;

use crate::alpha::{self, is_alpha_block};
use crate::bits::sel2;
use crate::color::{self, is_color_block, spec_fit_color, Candidate};
use crate::decode::palette_channel;
use crate::image::{image_block, pixels, valid_image, validate, validate_result};
use crate::refine::palette;
use crate::types::{
    block_count, encoded_len_result, spec_block_bytes, spec_encoded_len, Error, Format, Quality,
};

verus! {

broadcast use vstd::slice::group_slice_axioms;

/// Channel `c` of the sixteen pixels.
pub open spec fn channel_values(p: [[u8; 4]; 16], c: int) -> Seq<u8> {
    Seq::new(16, |i: int| p[i][c])
}

/// Pixel `i` counts toward the color error: BC3 skips pixels with alpha below 128.
pub open spec fn counts_for_error(p: [[u8; 4]; 16], format: Format, i: int) -> bool {
    !(format == Format::Bc3 && p[i][3] < 128)
}

/// Squared RGB error of the first `n` counted pixels against the decoded candidate.
pub open spec fn decoded_error(p: [[u8; 4]; 16], format: Format, c: Candidate, n: int) -> int
    decreases n,
{
    if n <= 0 {
        0
    } else {
        let i = n - 1;
        let four = format == Format::Bc3 || c.a > c.b;
        let s = sel2(c.selectors, i) as int;
        let d0 = p[i][0] - palette_channel(c.a as int, c.b as int, four, s, 0);
        let d1 = p[i][1] - palette_channel(c.a as int, c.b as int, four, s, 1);
        let d2 = p[i][2] - palette_channel(c.a as int, c.b as int, four, s, 2);
        decoded_error(p, format, c, n - 1) + if counts_for_error(p, format, i) {
            d0 * d0 + d1 * d1 + d2 * d2
        } else {
            0
        }
    }
}

/// Number of counted channel samples among the first `n` pixels.
pub open spec fn counted_samples(p: [[u8; 4]; 16], format: Format, n: int) -> int
    decreases n,
{
    if n <= 0 {
        0
    } else {
        counted_samples(p, format, n - 1) + if counts_for_error(p, format, n - 1) {
            3int
        } else {
            0int
        }
    }
}

/// The color fit used for a BC1 or BC3 block. `Balanced` retries with `High` when the
/// mean squared error per sample exceeds 25, and keeps the retry only if it is better.
pub open spec fn block_color(p: [[u8; 4]; 16], format: Format, quality: Quality) -> Candidate {
    let allow_three = format == Format::Bc1;
    let c = spec_fit_color(p, quality, allow_three);
    if quality == Quality::Balanced {
        let before = decoded_error(p, format, c, 16);
        if before > counted_samples(p, format, 16) * 25 {
            let trial = spec_fit_color(p, Quality::High, allow_three);
            if decoded_error(p, format, trial, 16) < before {
                trial
            } else {
                c
            }
        } else {
            c
        }
    } else {
        c
    }
}

/// `out[at..]` holds the encoding of the block `p` in `format`.
pub open spec fn is_encoded_block(format: Format, quality: Quality, p: [[u8; 4]; 16], out: Seq<u8>, at: int) -> bool {
    match format {
        Format::Bc1 => is_color_block(out, at, block_color(p, format, quality)),
        Format::Bc3 => is_alpha_block(channel_values(p, 3), out.subrange(at, at + 8)) && is_color_block(
            out,
            at + 8,
            block_color(p, format, quality),
        ),
        Format::Bc4 => is_alpha_block(channel_values(p, 0), out.subrange(at, at + 8)),
        Format::Bc5 => is_alpha_block(channel_values(p, 0), out.subrange(at, at + 8)) && is_alpha_block(
            channel_values(p, 1),
            out.subrange(at + 8, at + 16),
        ),
    }
}

/// `out` holds blocks `first..first + n` of the encoded image, block `first` at offset 0.
pub open spec fn is_encoded_range(
    format: Format,
    quality: Quality,
    width: u32,
    height: u32,
    rgba: Seq<u8>,
    first: int,
    n: int,
    out: Seq<u8>,
) -> bool {
    forall|k: int|
        0 <= k < n ==> is_encoded_block(
            format,
            quality,
            #[trigger] image_block(width, height, rgba, first + k),
            out,
            k * spec_block_bytes(format),
        )
}

/// The checks that encoding into a caller buffer makes, in order, before it writes.
pub open spec fn encode_check(format: Format, width: u32, height: u32, rgba_len: int, output_len: int) -> Result<(), Error> {
    if validate_result(width, height, rgba_len) is Err {
        validate_result(width, height, rgba_len)
    } else if encoded_len_result(format, width, height) is Err {
        Err(Error::Dimensions)
    } else if output_len != spec_encoded_len(format, width, height) {
        Err(Error::OutputLength)
    } else {
        Ok(())
    }
}

fn copy8(out: &mut [u8], at: usize, bytes: [u8; 8])
    requires
        at + 8 <= old(out).len(),
    ensures
        final(out)@.len() == old(out)@.len(),
        forall|j: int| 0 <= j < final(out)@.len() && !(at <= j < at + 8) ==> final(out)@[j] == old(out)@[j],
        final(out)@.subrange(at as int, at + 8) == bytes@,
{
    let len = out.len();
    let mut k: usize = 0;
    while k < 8
        invariant
            k <= 8,
            len == out@.len(),
            at + 8 <= out@.len(),
            out@.len() == old(out)@.len(),
            forall|j: int| 0 <= j < out@.len() && !(at <= j < at + k) ==> out@[j] == old(out)@[j],
            forall|j: int| 0 <= j < k ==> out@[at + j] == bytes@[j],
        decreases 8 - k,
    {
        out[at + k] = bytes[k];
        k += 1;
    }
    assert(out@.subrange(at as int, at + 8) =~= bytes@);
}

fn values_of(p: &[[u8; 4]; 16], c: usize) -> (r: [u8; 16])
    requires
        c < 4,
    ensures
        r@ == channel_values(*p, c as int),
{
    let mut out = [0u8; 16];
    let mut i: usize = 0;
    while i < 16
        invariant
            i <= 16,
            c < 4,
            forall|k: int| 0 <= k < i ==> out[k] == p[k][c as int],
        decreases 16 - i,
    {
        out[i] = p[i][c];
        i += 1;
    }
    assert(out@ =~= channel_values(*p, c as int));
    out
}

/// Squared RGB error of the decoded candidate and the number of counted samples.
fn color_error(p: &[[u8; 4]; 16], format: Format, c: Candidate) -> (r: (u32, u32))
    ensures
        r.0 == decoded_error(*p, format, c, 16),
        r.1 == counted_samples(*p, format, 16),
{
    let alpha = format == Format::Bc3;
    let pair: u32 = c.a as u32 + (c.b as u32) * 65536;
    proof {
        crate::color::lemma_pack_pair(c.a, c.b);
    }
    let pal = palette(pair, alpha);
    proof {
        assert forall|s: int, k: int| 0 <= s < 4 && 0 <= k < 3 implies 0 <= #[trigger] pal[s][k] <= 255 by {
            crate::decode::lemma_palette_bounds(c.a as int, c.b as int, alpha || c.a > c.b, s, k);
        }
    }
    let mut sum: u32 = 0;
    let mut count: u32 = 0;
    let mut i: usize = 0;
    while i < 16
        invariant
            i <= 16,
            alpha == (format == Format::Bc3),
            forall|s: int, k: int| 0 <= s < 4 && 0 <= k < 3 ==> #[trigger] pal[s][k] == palette_channel(c.a as int, c.b as int, alpha || c.a > c.b, s, k),
            forall|s: int, k: int| 0 <= s < 4 && 0 <= k < 3 ==> 0 <= #[trigger] pal[s][k] <= 255,
            sum == decoded_error(*p, format, c, i as int),
            count == counted_samples(*p, format, i as int),
            sum <= 195075 * i,
            count <= 3 * i,
        decreases 16 - i,
    {
        let px = p[i];
        if !(alpha && px[3] < 128) {
            let sels = c.selectors;
            let s = ((sels >> (2 * i as u32)) & 3) as usize;
            assert(s < 4) by (bit_vector)
                requires
                    s == ((sels >> (2 * i as u32)) & 3),
            ;
            assert(s == sel2(c.selectors, i as int));
            let color = pal[s];
            let d0 = px[0] as i32 - color[0];
            let d1 = px[1] as i32 - color[1];
            let d2 = px[2] as i32 - color[2];
            assert(0 <= d0 * d0 <= 65025) by (nonlinear_arith)
                requires
                    -255 <= d0 <= 255,
            ;
            assert(0 <= d1 * d1 <= 65025) by (nonlinear_arith)
                requires
                    -255 <= d1 <= 255,
            ;
            assert(0 <= d2 * d2 <= 65025) by (nonlinear_arith)
                requires
                    -255 <= d2 <= 255,
            ;
            sum = sum + (d0 * d0 + d1 * d1 + d2 * d2) as u32;
            count = count + 3;
        }
        i += 1;
    }
    (sum, count)
}

/// The color fit of a BC1 or BC3 block, with the `Balanced` retry.
fn fit_block_color(p: &[[u8; 4]; 16], format: Format, quality: Quality) -> (r: Candidate)
    ensures
        r == block_color(*p, format, quality),
{
    let allow_three = format == Format::Bc1;
    let mut c = color::fit_color(p, quality, allow_three);
    if quality == Quality::Balanced {
        let (before, count) = color_error(p, format, c);
        if before as u64 > count as u64 * 25 {
            let trial = color::fit_color(p, Quality::High, allow_three);
            if color_error(p, format, trial).0 < before {
                c = trial;
            }
        }
    }
    c
}

fn write_color(out: &mut [u8], at: usize, c: Candidate)
    requires
        at + 8 <= old(out).len(),
    ensures
        final(out)@.len() == old(out)@.len(),
        forall|j: int| 0 <= j < final(out)@.len() && !(at <= j < at + 8) ==> final(out)@[j] == old(out)@[j],
        is_color_block(final(out)@, at as int, c),
{
    crate::bits::write_u16(out, at, c.a);
    crate::bits::write_u16(out, at + 2, c.b);
    crate::bits::write_u32(out, at + 4, c.selectors);
}

/// Encode one block of sixteen RGBA8 pixels into `out[at..at + block_bytes]`.
pub fn block(p: &[[u8; 4]; 16], format: Format, quality: Quality, out: &mut [u8], at: usize)
    requires
        at + spec_block_bytes(format) <= old(out).len(),
    ensures
        final(out)@.len() == old(out)@.len(),
        forall|j: int|
            0 <= j < final(out)@.len() && !(at <= j < at + spec_block_bytes(format)) ==> final(out)@[j] == old(out)@[j],
        is_encoded_block(format, quality, *p, final(out)@, at as int),
{
    match format {
        Format::Bc1 => {
            let c = fit_block_color(p, format, quality);
            write_color(out, at, c);
        },
        Format::Bc3 => {
            let a = alpha::encode(&values_of(p, 3));
            copy8(out, at, a);
            let c = fit_block_color(p, format, quality);
            let ghost mid = out@;
            write_color(out, at + 8, c);
            assert(out@.subrange(at as int, at + 8) =~= mid.subrange(at as int, at + 8));
        },
        Format::Bc4 => {
            let r = alpha::encode(&values_of(p, 0));
            copy8(out, at, r);
        },
        Format::Bc5 => {
            let r = alpha::encode(&values_of(p, 0));
            copy8(out, at, r);
            let g = alpha::encode(&values_of(p, 1));
            let ghost mid = out@;
            copy8(out, at + 8, g);
            assert(out@.subrange(at as int, at + 8) =~= mid.subrange(at as int, at + 8));
        },
    }
}

/// The two blocks hold the same pixels.
fn same_block(p: &[[u8; 4]; 16], q: &[[u8; 4]; 16]) -> (r: bool)
    ensures
        r == (*p == *q),
{
    let mut i: usize = 0;
    while i < 16
        invariant
            i <= 16,
            forall|k: int| 0 <= k < i ==> p[k] == q[k],
        decreases 16 - i,
    {
        let a = p[i];
        let b = q[i];
        if a[0] != b[0] || a[1] != b[1] || a[2] != b[2] || a[3] != b[3] {
            return false;
        }
        assert(a =~= b);
        i += 1;
    }
    assert(*p =~= *q);
    true
}

/// Copy the `n` bytes at `from` to `to`, a later and disjoint place in `out`.
fn copy_forward(out: &mut [u8], from: usize, to: usize, n: usize)
    requires
        from + n <= to,
        to + n <= old(out).len(),
    ensures
        final(out)@.len() == old(out)@.len(),
        forall|j: int| 0 <= j < final(out)@.len() && !(to <= j < to + n) ==> final(out)@[j] == old(out)@[j],
        forall|j: int| to <= j < to + n ==> #[trigger] final(out)@[j] == old(out)@[j - to + from],
{
    let mut k: usize = 0;
    while k < n
        invariant
            k <= n,
            from + n <= to,
            to + n <= out@.len(),
            out@.len() == old(out)@.len(),
            forall|j: int| 0 <= j < out@.len() && !(to <= j < to + k) ==> out@[j] == old(out)@[j],
            forall|j: int| to <= j < to + k ==> #[trigger] out@[j] == old(out)@[j - to + from],
        decreases n - k,
    {
        let v = out[from + k];
        out[to + k] = v;
        k += 1;
    }
}

/// An encoded block stays encoded when its bytes are copied elsewhere.
pub proof fn lemma_encoded_block_copy(format: Format, quality: Quality, p: [[u8; 4]; 16], s: Seq<u8>, from: int, t: Seq<u8>, to: int)
    requires
        0 <= from,
        0 <= to,
        from + spec_block_bytes(format) <= s.len(),
        to + spec_block_bytes(format) <= t.len(),
        forall|j: int| to <= j < to + spec_block_bytes(format) ==> #[trigger] t[j] == s[j - to + from],
        is_encoded_block(format, quality, p, s, from),
    ensures
        is_encoded_block(format, quality, p, t, to),
{
    assert(t.subrange(to, to + 8) =~= s.subrange(from, from + 8));
    if spec_block_bytes(format) == 16 {
        assert(t.subrange(to + 8, to + 16) =~= s.subrange(from + 8, from + 16));
    }
    if format == Format::Bc1 {
        assert(t[to + 0] == s[from + 0] && t[to + 1] == s[from + 1] && t[to + 2] == s[from + 2] && t[to + 3] == s[from + 3]);
        assert(t[to + 4] == s[from + 4] && t[to + 5] == s[from + 5] && t[to + 6] == s[from + 6] && t[to + 7] == s[from + 7]);
    } else if format == Format::Bc3 {
        assert(t[to + 8] == s[from + 8] && t[to + 9] == s[from + 9] && t[to + 10] == s[from + 10] && t[to + 11] == s[from + 11]);
        assert(t[to + 12] == s[from + 12] && t[to + 13] == s[from + 13] && t[to + 14] == s[from + 14] && t[to + 15] == s[from + 15]);
    }
}

/// Encode block `p` at `at`, or copy the block just before it when `prev`, encoded
/// there, holds the same pixels.
fn encode_or_copy(
    p: &[[u8; 4]; 16],
    prev: &[[u8; 4]; 16],
    has_prev: bool,
    format: Format,
    quality: Quality,
    out: &mut [u8],
    at: usize,
)
    requires
        at + spec_block_bytes(format) <= old(out).len(),
        has_prev ==> spec_block_bytes(format) <= at,
        has_prev ==> is_encoded_block(format, quality, *prev, old(out)@, at - spec_block_bytes(format)),
    ensures
        final(out)@.len() == old(out)@.len(),
        forall|j: int|
            0 <= j < final(out)@.len() && !(at <= j < at + spec_block_bytes(format)) ==> final(out)@[j] == old(out)@[j],
        is_encoded_block(format, quality, *p, final(out)@, at as int),
{
    let bb = format.block_bytes();
    if has_prev && same_block(p, prev) {
        copy_forward(out, at - bb, at, bb);
        proof {
            lemma_encoded_block_copy(format, quality, *p, old(out)@, at - bb, out@, at as int);
        }
    } else {
        block(p, format, quality, out, at);
    }
}

/// Encode blocks `first..first + out.len() / block_bytes` of a validated image into `out`.
pub fn encode_blocks(
    width: u32,
    height: u32,
    rgba: &[u8],
    format: Format,
    quality: Quality,
    first: usize,
    out: &mut [u8],
)
    requires
        valid_image(width, height, rgba@.len() as int),
        old(out)@.len() % spec_block_bytes(format) == 0,
        first + (old(out)@.len() / spec_block_bytes(format)) as int <= block_count(width, height),
    ensures
        final(out)@.len() == old(out)@.len(),
        is_encoded_range(
            format,
            quality,
            width,
            height,
            rgba@,
            first as int,
            (old(out)@.len() / spec_block_bytes(format)) as int,
            final(out)@,
        ),
{
    let bb = format.block_bytes();
    let total = out.len();
    let n = total / bb;
    proof {
        lemma_block_count_bound(width, height);
        vstd::arithmetic::div_mod::lemma_fundamental_div_mod(total as int, bb as int);
    }
    let mut prev = [[0u8; 4]; 16];
    let mut k: usize = 0;
    while k < n
        invariant
            k <= n,
            k > 0 ==> prev == image_block(width, height, rgba@, first + k - 1),
            bb == spec_block_bytes(format),
            n == total / bb,
            total == out@.len(),
            n * bb == total,
            first + n <= block_count(width, height),
            block_count(width, height) <= rgba@.len(),
            valid_image(width, height, rgba@.len() as int),
            is_encoded_range(format, quality, width, height, rgba@, first as int, k as int, out@),
        decreases n - k,
    {
        proof {
            assert((k + 1) * bb <= n * bb) by (nonlinear_arith)
                requires
                    k < n,
                    bb > 0,
            ;
        }
        prev = encode_step(width, height, rgba, format, quality, first, k, &prev, out);
        k += 1;
    }
}

/// Encode block `first + k` of the image after the `k` blocks before it; returns its
/// pixels.
fn encode_step(
    width: u32,
    height: u32,
    rgba: &[u8],
    format: Format,
    quality: Quality,
    first: usize,
    k: usize,
    prev: &[[u8; 4]; 16],
    out: &mut [u8],
) -> (p: [[u8; 4]; 16])
    requires
        valid_image(width, height, rgba@.len() as int),
        first + k < block_count(width, height),
        block_count(width, height) <= rgba@.len(),
        (k + 1) * spec_block_bytes(format) <= old(out)@.len(),
        k > 0 ==> *prev == image_block(width, height, rgba@, first + k - 1),
        is_encoded_range(format, quality, width, height, rgba@, first as int, k as int, old(out)@),
    ensures
        p == image_block(width, height, rgba@, first + k),
        final(out)@.len() == old(out)@.len(),
        is_encoded_range(format, quality, width, height, rgba@, first as int, k + 1, final(out)@),
{
    let bb = format.block_bytes();
    let len = out.len();
    proof {
        assert((k + 1) * bb == k * bb + bb) by (nonlinear_arith);
        assert(k * bb + bb <= len);
    }
    let p = pixels(width, height, rgba, first + k);
    let ghost before = out@;
    proof {
        if k > 0 {
            lemma_last_block(format, quality, width, height, rgba@, first as int, k as int, before);
        }
    }
    encode_or_copy(&p, prev, k > 0, format, quality, out, k * bb);
    proof {
        lemma_range_grows(format, quality, width, height, rgba@, first as int, k as int, before, out@);
    }
    p
}

/// The last block of an encoded range.
proof fn lemma_last_block(
    format: Format,
    quality: Quality,
    width: u32,
    height: u32,
    rgba: Seq<u8>,
    first: int,
    k: int,
    out: Seq<u8>,
)
    requires
        0 < k,
        is_encoded_range(format, quality, width, height, rgba, first, k, out),
    ensures
        is_encoded_block(
            format,
            quality,
            image_block(width, height, rgba, first + k - 1),
            out,
            k * spec_block_bytes(format) - spec_block_bytes(format),
        ),
{
    let j = k - 1;
    let bb = spec_block_bytes(format) as int;
    assert(is_encoded_block(format, quality, image_block(width, height, rgba, first + j), out, j * bb));
    assert(j * bb == k * bb - bb) by (nonlinear_arith)
        requires
            j == k - 1,
    ;
}

/// Encoding one more block after a range leaves the range encoded.
proof fn lemma_range_grows(
    format: Format,
    quality: Quality,
    width: u32,
    height: u32,
    rgba: Seq<u8>,
    first: int,
    k: int,
    before: Seq<u8>,
    after: Seq<u8>,
)
    requires
        0 <= k,
        is_encoded_range(format, quality, width, height, rgba, first, k, before),
        before.len() == after.len(),
        (k + 1) * spec_block_bytes(format) <= before.len(),
        forall|j: int| 0 <= j < k * spec_block_bytes(format) ==> after[j] == before[j],
        is_encoded_block(format, quality, image_block(width, height, rgba, first + k), after, k * spec_block_bytes(format)),
    ensures
        is_encoded_range(format, quality, width, height, rgba, first, k + 1, after),
{
    let bb = spec_block_bytes(format) as int;
    assert forall|j: int| 0 <= j < k + 1 implies is_encoded_block(
        format,
        quality,
        #[trigger] image_block(width, height, rgba, first + j),
        after,
        j * bb,
    ) by {
        if j < k {
            assert(j * bb + bb <= k * bb) by (nonlinear_arith)
                requires
                    j < k,
                    bb > 0,
            ;
            lemma_encoded_block_frame(format, quality, image_block(width, height, rgba, first + j), before, after, j * bb, k * bb);
        }
    }
}

/// There are no more blocks than pixels.
pub proof fn lemma_block_count_bound(width: u32, height: u32)
    requires
        width > 0,
        height > 0,
    ensures
        block_count(width, height) <= (width as int) * (height as int),
{
    let cols = crate::types::blocks_along(width) as int;
    let rows = crate::types::blocks_along(height) as int;
    assert(cols <= width && rows <= height);
    assert(cols * rows <= (width as int) * (height as int)) by (nonlinear_arith)
        requires
            0 <= cols <= width,
            0 <= rows <= height,
    ;
}

/// An encoded block stays encoded when only bytes at or after `from` change.
pub proof fn lemma_encoded_block_frame(format: Format, quality: Quality, p: [[u8; 4]; 16], before: Seq<u8>, after: Seq<u8>, at: int, from: int)
    requires
        0 <= at,
        at + spec_block_bytes(format) <= from,
        from <= before.len(),
        before.len() == after.len(),
        forall|j: int| 0 <= j < from ==> after[j] == before[j],
        is_encoded_block(format, quality, p, before, at),
    ensures
        is_encoded_block(format, quality, p, after, at),
{
    assert(after.subrange(at, at + 8) =~= before.subrange(at, at + 8));
    if spec_block_bytes(format) == 16 {
        assert(after.subrange(at + 8, at + 16) =~= before.subrange(at + 8, at + 16));
    }
}

/// Encode into an exactly sized caller-owned buffer, in row-major block order.
/// Invalid dimensions and buffer lengths are rejected before any output is written.
pub fn encode_into(
    width: u32,
    height: u32,
    rgba: &[u8],
    format: Format,
    quality: Quality,
    output: &mut [u8],
) -> (r: Result<(), Error>)
    ensures
        r == encode_check(format, width, height, rgba@.len() as int, old(output)@.len() as int),
        r is Err ==> final(output)@ == old(output)@,
        r is Ok ==> final(output)@.len() == old(output)@.len() && is_encoded_range(
            format,
            quality,
            width,
            height,
            rgba@,
            0,
            block_count(width, height) as int,
            final(output)@,
        ),
{
    validate(width, height, rgba)?;
    if output.len() != format.encoded_len(width, height)? {
        return Err(Error::OutputLength);
    }
    proof {
        let bb = spec_block_bytes(format) as int;
        let n = block_count(width, height) as int;
        assert(output@.len() == n * bb);
        vstd::arithmetic::div_mod::lemma_div_multiples_vanish(n, bb);
        vstd::arithmetic::div_mod::lemma_mod_multiples_basic(n, bb);
        assert(n * bb == bb * n) by (nonlinear_arith);
    }
    encode_blocks(width, height, rgba, format, quality, 0, output);
    Ok(())
}

/// Encode tightly packed RGBA8 pixels. Partial edge blocks replicate the last row and
/// column. BC1 ignores alpha; BC3 uses alpha, BC4 uses R, BC5 uses R and G.
pub fn encode(width: u32, height: u32, rgba: &[u8], format: Format, quality: Quality) -> (r: Result<Vec<u8>, Error>)
    ensures
        match r {
            Ok(v) => encode_check(format, width, height, rgba@.len() as int, spec_encoded_len(format, width, height) as int) is Ok
                && v@.len() == spec_encoded_len(format, width, height) && is_encoded_range(
                format,
                quality,
                width,
                height,
                rgba@,
                0,
                block_count(width, height) as int,
                v@,
            ),
            Err(e) => encode_check(format, width, height, rgba@.len() as int, spec_encoded_len(format, width, height) as int)
                == Err::<(), Error>(e),
        },
{
    validate(width, height, rgba)?;
    let len = format.encoded_len(width, height)?;
    let mut output: Vec<u8> = vec![0u8; len];
    let r = encode_into(width, height, rgba, format, quality, output.as_mut_slice());
    assert(r is Ok);
    Ok(output)
}

/// The color fit of a block is a full evaluation of its endpoints, four-color for BC3.
pub proof fn lemma_block_color_complete(p: [[u8; 4]; 16], format: Format, quality: Quality)
    ensures
        crate::color::is_complete(p, block_color(p, format, quality)),
        format != Format::Bc1 ==> !block_color(p, format, quality).three,
{
    crate::color::lemma_fit_color_complete(p, quality, format == Format::Bc1);
    crate::color::lemma_fit_color_complete(p, Quality::High, format == Format::Bc1);
}

/// A fitted color block never selects the transparent entry of three-color mode.
pub proof fn lemma_complete_block_opaque(p: [[u8; 4]; 16], c: Candidate, i: int)
    requires
        crate::color::is_complete(p, c),
        0 <= i < 16,
    ensures
        c.a <= c.b ==> sel2(c.selectors, i) != 3,
{
    crate::color::lemma_complete_selectors(p, c);
    crate::color::lemma_pack_pair(c.a, c.b);
    assert(crate::refine::is_best_entry(
        crate::color::pixel_words(p)[i],
        c.a as int,
        c.b as int,
        c.a > c.b,
        sel2(c.selectors, i) as int,
    ));
}

/// Pixel `j < width * height` lies in a block of the image.
pub proof fn lemma_pixel_block_in_range(width: u32, height: u32, j: int)
    requires
        width > 0,
        0 <= j < (width as int) * (height as int),
    ensures
        0 <= crate::decode::pixel_block(width, j) < block_count(width, height),
        0 <= crate::decode::pixel_offset(width, j) < 16,
{
    let w = width as int;
    let x = j % w;
    let y = j / w;
    vstd::arithmetic::div_mod::lemma_fundamental_div_mod(j, w);
    vstd::arithmetic::div_mod::lemma_mod_bound(j, w);
    vstd::arithmetic::div_mod::lemma_div_pos_is_pos(j, w);
    if y >= height {
        assert(w * y >= w * (height as int)) by (nonlinear_arith)
            requires
                y >= height,
                w > 0,
        ;
    }
    crate::decode::lemma_block_in_bounds(
        y / 4,
        x / 4,
        crate::types::blocks_along(height) as int,
        crate::types::blocks_along(width) as int,
        1,
    );
}

proof fn lemma_pixel_zero(width: u32)
    requires
        width > 0,
    ensures
        crate::decode::pixel_block(width, 0) == 0,
        crate::decode::pixel_offset(width, 0) == 0,
{
    vstd::arithmetic::div_mod::lemma_div_of0(width as int);
    vstd::arithmetic::div_mod::lemma_small_mod(0, width as nat);
    let w = width as int;
    assert(0int / w == 0);
    assert(0int % w == 0);
    let cols = crate::types::blocks_along(width) as int;
    assert((0int / 4) * cols == 0);
}

/// BC1 encoding yields opaque pixels: every decoded alpha is 255.
pub proof fn lemma_bc1_encoding_is_opaque(quality: Quality, width: u32, height: u32, rgba: Seq<u8>, out: Seq<u8>)
    requires
        width > 0,
        height > 0,
        out.len() == spec_encoded_len(Format::Bc1, width, height),
        is_encoded_range(Format::Bc1, quality, width, height, rgba, 0, block_count(width, height) as int, out),
    ensures
        forall|j: int| 0 <= j < (width as int) * (height as int) ==> #[trigger] crate::decode::image_channel(Format::Bc1, width, out, j, 3) == 255,
{
    assert forall|j: int| 0 <= j < (width as int) * (height as int) implies #[trigger] crate::decode::image_channel(Format::Bc1, width, out, j, 3) == 255 by {
        lemma_pixel_block_in_range(width, height, j);
        let k = crate::decode::pixel_block(width, j);
        let off = crate::decode::pixel_offset(width, j);
        let p = image_block(width, height, rgba, 0 + k);
        assert(is_encoded_block(Format::Bc1, quality, p, out, k * 8));
        let c = block_color(p, Format::Bc1, quality);
        lemma_block_color_complete(p, Format::Bc1, quality);
        lemma_complete_block_opaque(p, c, off);
    }
}

/// Every pixel of the first `n` has the RGBA value of pixel 0.
pub open spec fn is_uniform_image(rgba: Seq<u8>, n: int) -> bool {
    forall|j: int, c: int| 0 <= j < n && 0 <= c < 4 ==> #[trigger] rgba[4 * j + c] == rgba[c]
}

/// In a uniform image every block holds sixteen copies of pixel 0.
pub proof fn lemma_uniform_blocks(width: u32, height: u32, rgba: Seq<u8>, k: int)
    requires
        0 <= k,
        valid_image(width, height, rgba.len() as int),
        is_uniform_image(rgba, (width as int) * (height as int)),
    ensures
        image_block(width, height, rgba, k) =~= image_block(width, height, rgba, 0),
{
    let b = image_block(width, height, rgba, k);
    let z = image_block(width, height, rgba, 0);
    crate::image::lemma_image_block(width, height, rgba, k);
    crate::image::lemma_image_block(width, height, rgba, 0);
    assert forall|p: int| 0 <= p < 16 implies b[p] =~= z[p] by {
        assert forall|c: int| 0 <= c < 4 implies #[trigger] b[p][c] == z[p][c] by {
            lemma_uniform_source(width, height, rgba, k, p, c);
            lemma_uniform_source(width, height, rgba, 0, p, c);
        }
    }
}

proof fn lemma_uniform_source(width: u32, height: u32, rgba: Seq<u8>, k: int, p: int, c: int)
    requires
        0 <= k,
        valid_image(width, height, rgba.len() as int),
        is_uniform_image(rgba, (width as int) * (height as int)),
        0 <= p < 16,
        0 <= c < 4,
    ensures
        rgba[crate::image::source_offset(width, height, k, p) + c] == rgba[c],
{
    let cols = crate::types::blocks_along(width) as int;
    let w = width as int;
    let h = height as int;
    let x = crate::image::clamp_below((k % cols) * 4 + p % 4, w);
    let y = crate::image::clamp_below((k / cols) * 4 + p / 4, h);
    assert(cols > 0);
    vstd::arithmetic::div_mod::lemma_mod_bound(k, cols);
    vstd::arithmetic::div_mod::lemma_div_pos_is_pos(k, cols);
    assert(0 <= x < w && 0 <= y < h);
    crate::image::lemma_pixel_in_bounds(w, h, x, y);
    let m = y * w + x;
    assert(crate::image::source_offset(width, height, k, p) == 4 * m);
    assert(rgba[4 * m + c] == rgba[c]);
}

/// In a block of identical pixels, a fitted candidate gives every pixel the same selector.
pub proof fn lemma_uniform_selectors(p: [[u8; 4]; 16], c: Candidate, i: int)
    requires
        crate::color::is_complete(p, c),
        forall|q: int| 0 <= q < 16 ==> #[trigger] p[q] == p[0],
        0 <= i < 16,
    ensures
        sel2(c.selectors, i) == sel2(c.selectors, 0),
{
    crate::color::lemma_complete_selectors(p, c);
    crate::color::lemma_pack_pair(c.a, c.b);
    let words = crate::color::pixel_words(p);
    assert(words[i] == words[0]);
    let a = c.a as int;
    let b = c.b as int;
    let four = c.a > c.b;
    let x = sel2(c.selectors, i) as int;
    let y = sel2(c.selectors, 0) as int;
    assert(crate::refine::is_best_entry(words[i], a, b, four, x));
    assert(crate::refine::is_best_entry(words[0], a, b, four, y));
    if x < y {
        assert(crate::refine::entry_error(words[0], a, b, four, y) < crate::refine::entry_error(words[0], a, b, four, x));
    } else if y < x {
        assert(crate::refine::entry_error(words[0], a, b, four, x) < crate::refine::entry_error(words[0], a, b, four, y));
    }
}

/// The BC4 block of sixteen equal values decodes to that value everywhere.
pub proof fn lemma_uniform_alpha(values: Seq<u8>, out: Seq<u8>, at: int, v: u8)
    requires
        values.len() == 16,
        forall|i: int| 0 <= i < 16 ==> #[trigger] values[i] == v,
        0 <= at,
        at + 8 <= out.len(),
        is_alpha_block(values, out.subrange(at, at + 8)),
    ensures
        forall|q: int| 0 <= q < 16 ==> #[trigger] crate::decode::ramp_channel(out, at, q) == v,
{
    let sub = out.subrange(at, at + 8);
    assert(sub[0] == v && sub[1] == v);
    assert forall|k: int| 2 <= k < 8 implies #[trigger] out[at + k] == 0 by {
        assert(sub[k] == 0);
    }
    assert(out[at + 2] == 0 && out[at + 3] == 0 && out[at + 4] == 0);
    assert(out[at + 5] == 0 && out[at + 6] == 0 && out[at + 7] == 0);
    assert(crate::bits::le48(out, at + 2) == 0);
    assert forall|q: int| 0 <= q < 16 implies #[trigger] crate::decode::ramp_channel(out, at, q) == v by {
        let qq = (3 * q) as u64;
        assert((0u64 >> qq) & 7u64 == 0u64) by (bit_vector);
        assert(crate::bits::sel3(0u64, q) == 0);
    }
}

/// A uniform image encodes to blocks that decode to a uniform image: BC3 keeps the alpha,
/// BC4 the red and BC5 the red and green values exactly.
pub proof fn lemma_uniform_image_round_trip(
    format: Format,
    quality: Quality,
    width: u32,
    height: u32,
    rgba: Seq<u8>,
    out: Seq<u8>,
)
    requires
        valid_image(width, height, rgba.len() as int),
        is_uniform_image(rgba, (width as int) * (height as int)),
        out.len() == spec_encoded_len(format, width, height),
        is_encoded_range(format, quality, width, height, rgba, 0, block_count(width, height) as int, out),
    ensures
        forall|j: int, c: int|
            0 <= j < (width as int) * (height as int) && 0 <= c < 4 ==> #[trigger] crate::decode::image_channel(format, width, out, j, c)
                == crate::decode::image_channel(format, width, out, 0, c),
        format == Format::Bc3 ==> crate::decode::image_channel(format, width, out, 0, 3) == rgba[3],
        format == Format::Bc4 || format == Format::Bc5 ==> crate::decode::image_channel(format, width, out, 0, 0) == rgba[0],
        format == Format::Bc5 ==> crate::decode::image_channel(format, width, out, 0, 1) == rgba[1],
{
    let z = image_block(width, height, rgba, 0);
    let bb = spec_block_bytes(format) as int;
    crate::image::lemma_image_block(width, height, rgba, 0);
    assert forall|q: int| 0 <= q < 16 implies #[trigger] z[q] == z[0] by {
        lemma_uniform_blocks(width, height, rgba, 0);
        assert(z[q] =~= z[0]) by {
            assert forall|c: int| 0 <= c < 4 implies #[trigger] z[q][c] == z[0][c] by {
                lemma_uniform_source(width, height, rgba, 0, q, c);
                lemma_uniform_source(width, height, rgba, 0, 0, c);
            }
        }
    }
    let col = block_color(z, format, quality);
    lemma_block_color_complete(z, format, quality);
    crate::types::lemma_blocks_along_bounds(width);
    crate::types::lemma_blocks_along_bounds(height);
    assert(block_count(width, height) >= 1) by (nonlinear_arith)
        requires
            crate::types::blocks_along(width) >= 1,
            crate::types::blocks_along(height) >= 1,
            block_count(width, height) == crate::types::blocks_along(width) * crate::types::blocks_along(height),
    ;
    assert(out.len() >= bb) by (nonlinear_arith)
        requires
            out.len() == block_count(width, height) * bb,
            block_count(width, height) >= 1,
            bb > 0,
    ;
    assert(width * height >= 1) by (nonlinear_arith)
        requires
            width > 0,
            height > 0,
    ;
    // Every block decodes every position to the value at block 0, position 0.
    assert forall|k: int, q: int, c: int|
        0 <= k < block_count(width, height) && 0 <= q < 16 && 0 <= c < 4 implies #[trigger] crate::decode::block_channel(format, out, k * bb, q, c)
        == crate::decode::block_channel(format, out, 0, 0, c) by {
        lemma_uniform_blocks(width, height, rgba, k);
        assert(image_block(width, height, rgba, 0 + k) == z);
        assert(image_block(width, height, rgba, 0int + 0int) == z);
        assert(is_encoded_block(format, quality, z, out, k * bb));
        assert(is_encoded_block(format, quality, z, out, 0 * bb));
        assert(k * bb + bb <= out.len()) by (nonlinear_arith)
            requires
                0 <= k < block_count(width, height),
                bb > 0,
                out.len() == block_count(width, height) * bb,
        ;
        assert(0 <= k * bb) by (nonlinear_arith)
            requires
                0 <= k,
                bb > 0,
        ;
        lemma_uniform_selectors(z, col, q);
        if format == Format::Bc3 || format == Format::Bc4 || format == Format::Bc5 {
            lemma_uniform_alpha(channel_values(z, if format == Format::Bc3 { 3 } else { 0 }), out, k * bb, z[0][if format == Format::Bc3 { 3int } else { 0int }]);
            lemma_uniform_alpha(channel_values(z, if format == Format::Bc3 { 3 } else { 0 }), out, 0, z[0][if format == Format::Bc3 { 3int } else { 0int }]);
        }
        if format == Format::Bc5 {
            lemma_uniform_alpha(channel_values(z, 1), out, k * bb + 8, z[0][1]);
            lemma_uniform_alpha(channel_values(z, 1), out, 8, z[0][1]);
        }
    }
    assert forall|j: int, c: int|
        0 <= j < (width as int) * (height as int) && 0 <= c < 4 implies #[trigger] crate::decode::image_channel(format, width, out, j, c)
        == crate::decode::image_channel(format, width, out, 0, c) by {
        lemma_pixel_block_in_range(width, height, j);
        let k = crate::decode::pixel_block(width, j);
        let q = crate::decode::pixel_offset(width, j);
        assert(crate::decode::block_channel(format, out, k * bb, q, c) == crate::decode::block_channel(format, out, 0, 0, c));
        lemma_pixel_zero(width);
        assert(crate::decode::block_channel(format, out, 0 * bb, 0, c) == crate::decode::block_channel(format, out, 0, 0, c));
    }
    crate::image::lemma_image_block(width, height, rgba, 0);
    lemma_uniform_source(width, height, rgba, 0, 0, 0);
    lemma_uniform_source(width, height, rgba, 0, 0, 1);
    lemma_uniform_source(width, height, rgba, 0, 0, 3);
    lemma_pixel_zero(width);
    if format != Format::Bc1 {
        assert(is_encoded_block(format, quality, image_block(width, height, rgba, 0int + 0int), out, 0 * bb));
        if format == Format::Bc3 {
            lemma_uniform_alpha(channel_values(z, 3), out, 0, z[0][3]);
        } else {
            lemma_uniform_alpha(channel_values(z, 0), out, 0, z[0][0]);
            if format == Format::Bc5 {
                lemma_uniform_alpha(channel_values(z, 1), out, 8, z[0][1]);
            }
        }
    }
}

proof fn lemma_sel3_unique(x: u64, y: u64)
    requires
        x < 0x1_0000_0000_0000,
        y < 0x1_0000_0000_0000,
        forall|i: int| 0 <= i < 16 ==> #[trigger] crate::bits::sel3(x, i) == crate::bits::sel3(y, i),
    ensures
        x == y,
{
    assert(crate::bits::sel3(x, 0) == crate::bits::sel3(y, 0));
    assert(crate::bits::sel3(x, 1) == crate::bits::sel3(y, 1));
    assert(crate::bits::sel3(x, 2) == crate::bits::sel3(y, 2));
    assert(crate::bits::sel3(x, 3) == crate::bits::sel3(y, 3));
    assert(crate::bits::sel3(x, 4) == crate::bits::sel3(y, 4));
    assert(crate::bits::sel3(x, 5) == crate::bits::sel3(y, 5));
    assert(crate::bits::sel3(x, 6) == crate::bits::sel3(y, 6));
    assert(crate::bits::sel3(x, 7) == crate::bits::sel3(y, 7));
    assert(crate::bits::sel3(x, 8) == crate::bits::sel3(y, 8));
    assert(crate::bits::sel3(x, 9) == crate::bits::sel3(y, 9));
    assert(crate::bits::sel3(x, 10) == crate::bits::sel3(y, 10));
    assert(crate::bits::sel3(x, 11) == crate::bits::sel3(y, 11));
    assert(crate::bits::sel3(x, 12) == crate::bits::sel3(y, 12));
    assert(crate::bits::sel3(x, 13) == crate::bits::sel3(y, 13));
    assert(crate::bits::sel3(x, 14) == crate::bits::sel3(y, 14));
    assert(crate::bits::sel3(x, 15) == crate::bits::sel3(y, 15));
    assert(x == y) by (bit_vector)
        requires
            x < 0x1_0000_0000_0000u64,
            y < 0x1_0000_0000_0000u64,
            (x >> 0u64) & 7 == (y >> 0u64) & 7,
            (x >> 3u64) & 7 == (y >> 3u64) & 7,
            (x >> 6u64) & 7 == (y >> 6u64) & 7,
            (x >> 9u64) & 7 == (y >> 9u64) & 7,
            (x >> 12u64) & 7 == (y >> 12u64) & 7,
            (x >> 15u64) & 7 == (y >> 15u64) & 7,
            (x >> 18u64) & 7 == (y >> 18u64) & 7,
            (x >> 21u64) & 7 == (y >> 21u64) & 7,
            (x >> 24u64) & 7 == (y >> 24u64) & 7,
            (x >> 27u64) & 7 == (y >> 27u64) & 7,
            (x >> 30u64) & 7 == (y >> 30u64) & 7,
            (x >> 33u64) & 7 == (y >> 33u64) & 7,
            (x >> 36u64) & 7 == (y >> 36u64) & 7,
            (x >> 39u64) & 7 == (y >> 39u64) & 7,
            (x >> 42u64) & 7 == (y >> 42u64) & 7,
            (x >> 45u64) & 7 == (y >> 45u64) & 7,
    ;
}

proof fn lemma_max_unique(values: Seq<u8>, x: u8, y: u8)
    requires
        crate::alpha::is_max(values, x),
        crate::alpha::is_max(values, y),
    ensures
        x == y,
{
    let i = choose|i: int| 0 <= i < 16 && values[i] == x;
    let j = choose|i: int| 0 <= i < 16 && values[i] == y;
    assert(values[j] <= x);
    assert(values[i] <= y);
}

proof fn lemma_min_unique(values: Seq<u8>, x: u8, y: u8)
    requires
        crate::alpha::is_min(values, x),
        crate::alpha::is_min(values, y),
    ensures
        x == y,
{
    let i = choose|i: int| 0 <= i < 16 && values[i] == x;
    let j = choose|i: int| 0 <= i < 16 && values[i] == y;
    assert(x <= values[j]);
    assert(y <= values[i]);
}

/// The bytes of a BC4 block are determined by its values.
pub proof fn lemma_alpha_block_unique(values: Seq<u8>, s: Seq<u8>, t: Seq<u8>)
    requires
        values.len() == 16,
        is_alpha_block(values, s),
        is_alpha_block(values, t),
    ensures
        s == t,
{
    lemma_max_unique(values, s[0], t[0]);
    lemma_min_unique(values, s[1], t[1]);
    if s[0] != s[1] {
        let x = crate::bits::le48(s, 2);
        let y = crate::bits::le48(t, 2);
        assert(0 <= x < 0x1_0000_0000_0000);
        assert(0 <= y < 0x1_0000_0000_0000);
        assert forall|i: int| 0 <= i < 16 implies #[trigger] crate::bits::sel3(x as u64, i) == crate::bits::sel3(y as u64, i) by {
            assert(crate::bits::sel3(x as u64, i) == crate::alpha::alpha_index(crate::alpha::alpha_level(values[i] as int, s[1] as int, s[0] as int)));
        }
        lemma_sel3_unique(x as u64, y as u64);
        lemma_le48_bytes(s, t);
    } else {
        assert forall|k: int| 2 <= k < 8 implies #[trigger] s[k] == t[k] by {}
    }
    assert(s =~= t);
}

/// Equal 48-bit little-endian values have equal bytes.
proof fn lemma_le48_bytes(s: Seq<u8>, t: Seq<u8>)
    requires
        s.len() == 8,
        t.len() == 8,
        crate::bits::le48(s, 2) == crate::bits::le48(t, 2),
    ensures
        forall|k: int| 2 <= k < 8 ==> #[trigger] s[k] == t[k],
{
    let v = crate::bits::le48(s, 2);
    let rs = s[3] + 256 * s[4] + 65536 * s[5] + 16777216 * s[6] + 4294967296 * s[7];
    let rt = t[3] + 256 * t[4] + 65536 * t[5] + 16777216 * t[6] + 4294967296 * t[7];
    lemma_fundamental_div_mod_converse(v, 256, rs, s[2] as int);
    lemma_fundamental_div_mod_converse(v, 256, rt, t[2] as int);
    let r2s = s[4] + 256 * s[5] + 65536 * s[6] + 16777216 * s[7];
    let r2t = t[4] + 256 * t[5] + 65536 * t[6] + 16777216 * t[7];
    lemma_fundamental_div_mod_converse(rs, 256, r2s, s[3] as int);
    lemma_fundamental_div_mod_converse(rt, 256, r2t, t[3] as int);
    let r3s = s[5] + 256 * s[6] + 65536 * s[7];
    let r3t = t[5] + 256 * t[6] + 65536 * t[7];
    lemma_fundamental_div_mod_converse(r2s, 256, r3s, s[4] as int);
    lemma_fundamental_div_mod_converse(r2t, 256, r3t, t[4] as int);
    let r4s = s[6] + 256 * s[7];
    let r4t = t[6] + 256 * t[7];
    lemma_fundamental_div_mod_converse(r3s, 256, r4s, s[5] as int);
    lemma_fundamental_div_mod_converse(r3t, 256, r4t, t[5] as int);
    lemma_fundamental_div_mod_converse(r4s, 256, s[7] as int, s[6] as int);
    lemma_fundamental_div_mod_converse(r4t, 256, t[7] as int, t[6] as int);
}

proof fn lemma_color_bytes_unique(s: Seq<u8>, at_s: int, t: Seq<u8>, at_t: int, c: Candidate)
    requires
        0 <= at_s,
        at_s + 8 <= s.len(),
        0 <= at_t,
        at_t + 8 <= t.len(),
        is_color_block(s, at_s, c),
        is_color_block(t, at_t, c),
    ensures
        forall|k: int| 0 <= k < 8 ==> #[trigger] s[at_s + k] == t[at_t + k],
{
    assert(s[at_s] == t[at_t] && s[at_s + 1] == t[at_t + 1]);
    assert(s[at_s + 2] == t[at_t + 2] && s[at_s + 3] == t[at_t + 3]);
    assert(s[at_s + 4] + 256 * s[at_s + 5] == t[at_t + 4] + 256 * t[at_t + 5]);
    assert(s[at_s + 4] == t[at_t + 4] && s[at_s + 5] == t[at_t + 5]);
    assert(s[at_s + 6] == t[at_t + 6] && s[at_s + 7] == t[at_t + 7]);
}

proof fn lemma_alpha_bytes_unique(values: Seq<u8>, s: Seq<u8>, at_s: int, t: Seq<u8>, at_t: int)
    requires
        values.len() == 16,
        0 <= at_s,
        at_s + 8 <= s.len(),
        0 <= at_t,
        at_t + 8 <= t.len(),
        is_alpha_block(values, s.subrange(at_s, at_s + 8)),
        is_alpha_block(values, t.subrange(at_t, at_t + 8)),
    ensures
        forall|k: int| 0 <= k < 8 ==> #[trigger] s[at_s + k] == t[at_t + k],
{
    lemma_alpha_block_unique(values, s.subrange(at_s, at_s + 8), t.subrange(at_t, at_t + 8));
    assert forall|k: int| 0 <= k < 8 implies #[trigger] s[at_s + k] == t[at_t + k] by {
        assert(s.subrange(at_s, at_s + 8)[k] == t.subrange(at_t, at_t + 8)[k]);
    }
}

/// The bytes of an encoded block are determined by its pixels: encoding is blockwise, so
/// equal blocks encode alike wherever they stand (in one image, in a batch, or alone).
pub proof fn lemma_block_bytes_determined(
    format: Format,
    quality: Quality,
    p: [[u8; 4]; 16],
    s: Seq<u8>,
    at_s: int,
    t: Seq<u8>,
    at_t: int,
)
    requires
        0 <= at_s,
        at_s + spec_block_bytes(format) <= s.len(),
        0 <= at_t,
        at_t + spec_block_bytes(format) <= t.len(),
        is_encoded_block(format, quality, p, s, at_s),
        is_encoded_block(format, quality, p, t, at_t),
    ensures
        s.subrange(at_s, at_s + spec_block_bytes(format)) == t.subrange(at_t, at_t + spec_block_bytes(format)),
{
    let bb = spec_block_bytes(format) as int;
    match format {
        Format::Bc1 => {
            lemma_color_bytes_unique(s, at_s, t, at_t, block_color(p, format, quality));
        },
        Format::Bc3 => {
            lemma_alpha_bytes_unique(channel_values(p, 3), s, at_s, t, at_t);
            lemma_color_bytes_unique(s, at_s + 8, t, at_t + 8, block_color(p, format, quality));
            assert forall|k: int| 8 <= k < 16 implies #[trigger] s[at_s + k] == t[at_t + k] by {
                assert(s[at_s + 8 + (k - 8)] == t[at_t + 8 + (k - 8)]);
            }
        },
        Format::Bc4 => {
            lemma_alpha_bytes_unique(channel_values(p, 0), s, at_s, t, at_t);
        },
        Format::Bc5 => {
            lemma_alpha_bytes_unique(channel_values(p, 0), s, at_s, t, at_t);
            lemma_alpha_bytes_unique(channel_values(p, 1), s, at_s + 8, t, at_t + 8);
            assert forall|k: int| 8 <= k < 16 implies #[trigger] s[at_s + k] == t[at_t + k] by {
                assert(s[at_s + 8 + (k - 8)] == t[at_t + 8 + (k - 8)]);
            }
        },
    }
    assert forall|k: int| 0 <= k < bb implies #[trigger] s.subrange(at_s, at_s + bb)[k] == t.subrange(at_t, at_t + bb)[k] by {
        assert(s[at_s + k] == t[at_t + k]);
    }
    assert(s.subrange(at_s, at_s + bb) =~= t.subrange(at_t, at_t + bb));
}

/// Byte `i` of a separately encoded batch is the matching byte of the whole encoding.
#[verifier::spinoff_prover]
#[verifier::rlimit(40)]
proof fn lemma_batch_byte(
    format: Format,
    quality: Quality,
    width: u32,
    height: u32,
    rgba: Seq<u8>,
    first: int,
    n: int,
    batch: Seq<u8>,
    whole: Seq<u8>,
    i: int,
)
    requires
        0 <= first,
        0 <= n,
        first + n <= block_count(width, height),
        batch.len() == n * spec_block_bytes(format),
        whole.len() == spec_encoded_len(format, width, height),
        is_encoded_range(format, quality, width, height, rgba, first, n, batch),
        is_encoded_range(format, quality, width, height, rgba, 0, block_count(width, height) as int, whole),
        0 <= i < batch.len(),
    ensures
        batch[i] == whole[first * spec_block_bytes(format) + i],
{
    let bb = spec_block_bytes(format) as int;
    let total = block_count(width, height) as int;
    let k = i / bb;
    let t = i % bb;
    vstd::arithmetic::div_mod::lemma_fundamental_div_mod(i, bb);
    vstd::arithmetic::div_mod::lemma_div_pos_is_pos(i, bb);
    vstd::arithmetic::div_mod::lemma_mod_bound(i, bb);
    if k >= n {
        assert(bb * k >= bb * n) by (nonlinear_arith)
            requires
                k >= n,
                bb > 0,
        ;
    }
    assert(k * bb + bb <= n * bb) by (nonlinear_arith)
        requires
            k < n,
            bb > 0,
    ;
    assert((first + k) * bb + bb <= total * bb) by (nonlinear_arith)
        requires
            first + k < total,
            bb > 0,
    ;
    assert((first + k) * bb == first * bb + k * bb) by (nonlinear_arith);
    let b = image_block(width, height, rgba, first + k);
    assert(is_encoded_block(format, quality, b, batch, k * bb));
    assert(is_encoded_block(format, quality, image_block(width, height, rgba, 0 + (first + k)), whole, (first + k) * bb));
    lemma_block_bytes_determined(format, quality, b, batch, k * bb, whole, (first + k) * bb);
    assert(batch.subrange(k * bb, k * bb + bb)[t] == whole.subrange((first + k) * bb, (first + k) * bb + bb)[t]);
}

/// Encoding is blockwise: blocks `first..first + n` encoded on their own are the matching
/// bytes of the whole encoded image, so batches encoded separately (in parallel, say)
/// assemble to the serial encoding.
#[verifier::spinoff_prover]
pub proof fn lemma_batch_matches_whole(
    format: Format,
    quality: Quality,
    width: u32,
    height: u32,
    rgba: Seq<u8>,
    first: int,
    n: int,
    batch: Seq<u8>,
    whole: Seq<u8>,
)
    requires
        0 <= first,
        0 <= n,
        first + n <= block_count(width, height),
        batch.len() == n * spec_block_bytes(format),
        whole.len() == spec_encoded_len(format, width, height),
        is_encoded_range(format, quality, width, height, rgba, first, n, batch),
        is_encoded_range(format, quality, width, height, rgba, 0, block_count(width, height) as int, whole),
    ensures
        batch == whole.subrange(first * spec_block_bytes(format), (first + n) * spec_block_bytes(format)),
{
    let bb = spec_block_bytes(format) as int;
    let total = block_count(width, height) as int;
    assert(first * bb + n * bb == (first + n) * bb) by (nonlinear_arith);
    assert((first + n) * bb <= total * bb) by (nonlinear_arith)
        requires
            first + n <= total,
            bb > 0,
    ;
    assert forall|i: int| 0 <= i < batch.len() implies batch[i] == whole[first * bb + i] by {
        lemma_batch_byte(format, quality, width, height, rgba, first, n, batch, whole, i);
    }
    assert(batch =~= whole.subrange(first * bb, (first + n) * bb));
}

/// Encoding determines every byte of the block storage: `encode` returns exactly what
/// `encode_into` writes.
pub proof fn lemma_encoded_image_unique(
    format: Format,
    quality: Quality,
    width: u32,
    height: u32,
    rgba: Seq<u8>,
    s: Seq<u8>,
    t: Seq<u8>,
)
    requires
        s.len() == spec_encoded_len(format, width, height),
        t.len() == s.len(),
        is_encoded_range(format, quality, width, height, rgba, 0, block_count(width, height) as int, s),
        is_encoded_range(format, quality, width, height, rgba, 0, block_count(width, height) as int, t),
    ensures
        s == t,
{
    lemma_batch_matches_whole(format, quality, width, height, rgba, 0, block_count(width, height) as int, s, t);
    assert(t.subrange(0, t.len() as int) =~= t);
}

/// The pixels of block `index` as a tightly packed 4x4 RGBA8 image.
pub open spec fn block_image(width: u32, height: u32, rgba: Seq<u8>, index: int) -> Seq<u8> {
    Seq::new(64, |i: int| image_block(width, height, rgba, index)[i / 4][i % 4])
}

/// The 4x4 image of a block, read back as an image, is that block.
proof fn lemma_block_image_alone(width: u32, height: u32, rgba: Seq<u8>, k: int)
    ensures
        image_block(4, 4, block_image(width, height, rgba, k), 0) == image_block(width, height, rgba, k),
{
    let b = image_block(width, height, rgba, k);
    let img = block_image(width, height, rgba, k);
    let alone = image_block(4, 4, img, 0);
    crate::image::lemma_image_block(4, 4, img, 0);
    assert forall|p: int| 0 <= p < 16 implies alone[p] =~= b[p] by {
        assert forall|c: int| 0 <= c < 4 implies #[trigger] alone[p][c] == b[p][c] by {
            vstd::arithmetic::div_mod::lemma_fundamental_div_mod(p, 4);
            vstd::arithmetic::div_mod::lemma_mod_bound(p, 4);
            assert(crate::image::source_offset(4, 4, 0, p) == 4 * p);
            vstd::arithmetic::div_mod::lemma_fundamental_div_mod_converse(4 * p + c, 4, p, c);
            assert(img[4 * p + c] == b[p][c]);
        }
    }
    assert(alone =~= b);
}

/// An image's encoding is the concatenation, in row-major block order, of the encodings
/// of its edge-replicated 4x4 blocks, each encoded as an image of its own.
#[verifier::spinoff_prover]
pub proof fn lemma_blocks_encode_alone(
    format: Format,
    quality: Quality,
    width: u32,
    height: u32,
    rgba: Seq<u8>,
    k: int,
    small: Seq<u8>,
    whole: Seq<u8>,
)
    requires
        0 <= k < block_count(width, height),
        small.len() == spec_block_bytes(format),
        is_encoded_range(format, quality, 4, 4, block_image(width, height, rgba, k), 0, 1, small),
        whole.len() == spec_encoded_len(format, width, height),
        is_encoded_range(format, quality, width, height, rgba, 0, block_count(width, height) as int, whole),
    ensures
        small == whole.subrange(k * spec_block_bytes(format), (k + 1) * spec_block_bytes(format)),
{
    let bb = spec_block_bytes(format) as int;
    let total = block_count(width, height) as int;
    let b = image_block(width, height, rgba, k);
    let img = block_image(width, height, rgba, k);
    lemma_block_image_alone(width, height, rgba, k);
    assert(is_encoded_block(format, quality, image_block(4, 4, img, 0int + 0int), small, 0int * bb));
    assert(is_encoded_block(format, quality, image_block(width, height, rgba, 0 + k), whole, k * bb));
    assert((k + 1) * bb <= total * bb) by (nonlinear_arith)
        requires
            k < total,
            bb > 0,
    ;
    assert((k + 1) * bb == k * bb + bb) by (nonlinear_arith);
    lemma_block_bytes_determined(format, quality, b, small, 0, whole, k * bb);
    assert(small.subrange(0, bb) =~= small);
}

/// Pixel `j` of the image is pixel `pixel_offset(width, j)` of block `pixel_block(width, j)`,
/// read from its own place in the RGBA8 buffer.
proof fn lemma_pixel_source(width: u32, height: u32, rgba: Seq<u8>, j: int)
    requires
        valid_image(width, height, rgba.len() as int),
        0 <= j < (width as int) * (height as int),
    ensures
        crate::image::source_offset(width, height, crate::decode::pixel_block(width, j), crate::decode::pixel_offset(width, j))
            == 4 * j,
{
    let w = width as int;
    let cols = crate::types::blocks_along(width) as int;
    let x = j % w;
    let y = j / w;
    vstd::arithmetic::div_mod::lemma_fundamental_div_mod(j, w);
    vstd::arithmetic::div_mod::lemma_mod_bound(j, w);
    vstd::arithmetic::div_mod::lemma_div_pos_is_pos(j, w);
    if y >= height {
        assert(w * y >= w * (height as int)) by (nonlinear_arith)
            requires
                y >= height,
                w > 0,
        ;
    }
    let k = (y / 4) * cols + x / 4;
    let p = (y % 4) * 4 + x % 4;
    vstd::arithmetic::div_mod::lemma_fundamental_div_mod(x, 4);
    vstd::arithmetic::div_mod::lemma_fundamental_div_mod(y, 4);
    vstd::arithmetic::div_mod::lemma_mod_bound(x, 4);
    vstd::arithmetic::div_mod::lemma_mod_bound(y, 4);
    vstd::arithmetic::div_mod::lemma_div_pos_is_pos(x, 4);
    vstd::arithmetic::div_mod::lemma_div_pos_is_pos(y, 4);
    assert(x / 4 < cols);
    lemma_fundamental_div_mod_converse(k, cols, y / 4, x / 4);
    lemma_fundamental_div_mod_converse(p, 4, y % 4, x % 4);
    assert((k % cols) * 4 + p % 4 == x);
    assert((k / cols) * 4 + p / 4 == y);
    assert(0 <= y < height);
    assert(crate::image::clamp_below((k % cols) * 4 + p % 4, w) == x);
    assert(crate::image::clamp_below((k / cols) * 4 + p / 4, height as int) == y);
    assert(y * w + x == j) by (nonlinear_arith)
        requires
            j == w * y + x,
    ;
    assert(crate::image::source_offset(width, height, k, p) == (y * w + x) * 4);
}

/// A channel that format encodes as a ramp: BC3 alpha, BC4 red, BC5 red and green.
pub open spec fn is_ramp_channel(format: Format, c: int) -> bool {
    match format {
        Format::Bc3 => c == 3,
        Format::Bc4 => c == 0,
        Format::Bc5 => c == 0 || c == 1,
        Format::Bc1 => false,
    }
}

/// Offset of the ramp block of channel `c` within an encoded block.
pub open spec fn ramp_offset(format: Format, c: int) -> int {
    if format == Format::Bc5 && c == 1 {
        8
    } else {
        0
    }
}

/// After encoding and decoding, a ramp channel (BC3 alpha, BC4 red, BC5 red and green)
/// gives back exactly every value that is the least or the greatest of that channel in
/// its 4x4 block (edges replicated). So a channel with at most two values per block
/// round-trips exactly.
#[verifier::spinoff_prover]
pub proof fn lemma_channel_extremes_round_trip(
    format: Format,
    quality: Quality,
    width: u32,
    height: u32,
    rgba: Seq<u8>,
    out: Seq<u8>,
    decoded: Seq<u8>,
    j: int,
    c: int,
)
    requires
        valid_image(width, height, rgba.len() as int),
        out.len() == spec_encoded_len(format, width, height),
        is_encoded_range(format, quality, width, height, rgba, 0, block_count(width, height) as int, out),
        crate::decode::decoded_prefix(format, width, out, decoded, (width as int) * (height as int)),
        0 <= j < (width as int) * (height as int),
        is_ramp_channel(format, c),
        ({
            let b = image_block(width, height, rgba, crate::decode::pixel_block(width, j));
            ||| forall|i: int| 0 <= i < 16 ==> rgba[4 * j + c] <= #[trigger] b[i][c]
            ||| forall|i: int| 0 <= i < 16 ==> #[trigger] b[i][c] <= rgba[4 * j + c]
        }),
    ensures
        crate::decode::image_channel(format, width, out, j, c) == rgba[4 * j + c],
        decoded[4 * j + c] == rgba[4 * j + c],
{
    let bb = spec_block_bytes(format) as int;
    let k = crate::decode::pixel_block(width, j);
    let p = crate::decode::pixel_offset(width, j);
    lemma_pixel_block_in_range(width, height, j);
    lemma_pixel_source(width, height, rgba, j);
    let b = image_block(width, height, rgba, k);
    crate::image::lemma_image_block(width, height, rgba, k);
    assert(b[p][c] == rgba[4 * j + c]);
    let total = block_count(width, height) as int;
    assert(is_encoded_block(format, quality, image_block(width, height, rgba, 0 + k), out, k * bb));
    assert((k + 1) * bb <= total * bb) by (nonlinear_arith)
        requires
            k < total,
            bb > 0,
    ;
    assert((k + 1) * bb == k * bb + bb) by (nonlinear_arith);
    let at = k * bb + ramp_offset(format, c);
    let values = channel_values(b, c);
    let s = out.subrange(at, at + 8);
    assert(is_alpha_block(values, s));
    crate::decode::lemma_alpha_round_trip(values, s);
    let v = values[p];
    assert(v == rgba[4 * j + c]);
    if forall|i: int| 0 <= i < 16 ==> rgba[4 * j + c] <= #[trigger] b[i][c] {
        let w = choose|i: int| 0 <= i < 16 && values[i] == s[1];
        assert(v <= values[w]);
        assert(s[1] <= values[p]);
    } else {
        let w = choose|i: int| 0 <= i < 16 && values[i] == s[0];
        assert(values[w] <= v);
        assert(values[p] <= s[0]);
    }
    assert(crate::decode::ramp_channel(s, 0, p) == v);
    assert(crate::decode::ramp_channel(s, 0, p) == crate::decode::ramp_channel(out, at, p));
    assert(decoded[4 * j + c] == crate::decode::image_channel(format, width, out, j, c));
}

} // verus!
