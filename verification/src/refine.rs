//! Endpoint refinement using integer RGB error scoring.
use vstd::prelude::*;

use crate::bits::{le16, le32, lemma_sel2_push, read_u16, read_u32, sel2, write_u32};
use crate::decode::{endpoint_channel, expand, lemma_palette_bounds, palette_channel};
use crate::image::{is_block_of, pixels, source_offset, valid_image, validate_result};
use crate::types::{
    block_count, encoded_len_result, spec_block_bytes, spec_encoded_len, Error,
    Format,
};

verus! {

broadcast use vstd::slice::group_slice_axioms;

/// Channel `c` (red, green, blue) of a little-endian RGBA8 pixel word.
pub open spec fn px_channel(px: u32, c: int) -> int {
    if c == 0 {
        px as int % 256
    } else if c == 1 {
        (px as int / 256) % 256
    } else {
        (px as int / 65536) % 256
    }
}

/// Squared RGB distance between pixel `px` and palette entry `s`.
pub open spec fn entry_error(px: u32, a: int, b: int, four: bool, s: int) -> int {
    let d0 = px_channel(px, 0) - palette_channel(a, b, four, s, 0);
    let d1 = px_channel(px, 1) - palette_channel(a, b, four, s, 1);
    let d2 = px_channel(px, 2) - palette_channel(a, b, four, s, 2);
    d0 * d0 + d1 * d1 + d2 * d2
}

/// Number of palette entries that a selector search considers.
pub open spec fn entries(four: bool) -> int {
    if four {
        4
    } else {
        3
    }
}

/// Low endpoint of a packed endpoint pair.
pub open spec fn pair_a(pair: u32) -> int {
    pair as int % 65536
}

/// High endpoint of a packed endpoint pair.
pub open spec fn pair_b(pair: u32) -> int {
    pair as int / 65536
}

/// Four-color mode of a pair: always for BC3, else when the first endpoint is greater.
pub open spec fn pair_four(pair: u32, alpha: bool) -> bool {
    alpha || pair_a(pair) > pair_b(pair)
}

/// Smallest squared distance from `px` to an entry of the palette.
pub open spec fn min_error(px: u32, a: int, b: int, four: bool) -> int {
    let e0 = entry_error(px, a, b, four, 0);
    let e1 = entry_error(px, a, b, four, 1);
    let e2 = entry_error(px, a, b, four, 2);
    let m01 = if e1 < e0 {
        e1
    } else {
        e0
    };
    let m = if e2 < m01 {
        e2
    } else {
        m01
    };
    if four && entry_error(px, a, b, four, 3) < m {
        entry_error(px, a, b, four, 3)
    } else {
        m
    }
}

/// `s` is the first palette entry nearest to `px`.
pub open spec fn is_best_entry(px: u32, a: int, b: int, four: bool, s: int) -> bool {
    &&& 0 <= s < entries(four)
    &&& forall|t: int|
        0 <= t < entries(four) ==> entry_error(px, a, b, four, s) <= #[trigger] entry_error(
            px,
            a,
            b,
            four,
            t,
        )
    &&& forall|t: int|
        0 <= t < s ==> entry_error(px, a, b, four, s) < #[trigger] entry_error(px, a, b, four, t)
}

/// Squared error of the first `n` pixels under endpoint pair `pair` and selectors `sels`.
pub open spec fn total_error(pixels: Seq<u32>, pair: u32, sels: u32, alpha: bool, n: int) -> int
    decreases n,
{
    if n <= 0 {
        0
    } else {
        total_error(pixels, pair, sels, alpha, n - 1) + entry_error(
            pixels[n - 1],
            pair_a(pair),
            pair_b(pair),
            pair_four(pair, alpha),
            sel2(sels, n - 1) as int,
        )
    }
}

/// Squared error of the first `n` pixels when each uses its nearest palette entry.
pub open spec fn best_total(pixels: Seq<u32>, pair: u32, alpha: bool, n: int) -> int
    decreases n,
{
    if n <= 0 {
        0
    } else {
        best_total(pixels, pair, alpha, n - 1) + min_error(
            pixels[n - 1],
            pair_a(pair),
            pair_b(pair),
            pair_four(pair, alpha),
        )
    }
}

/// Squared RGB error of a block.
pub open spec fn block_error(pixels: Seq<u32>, pair: u32, sels: u32, alpha: bool) -> int {
    total_error(pixels, pair, sels, alpha, 16)
}

/// Each of the sixteen selectors picks the first nearest palette entry.
pub open spec fn best_selectors(pixels: Seq<u32>, pair: u32, alpha: bool, sels: u32) -> bool {
    forall|i: int|
        0 <= i < 16 ==> is_best_entry(
            pixels[i],
            pair_a(pair),
            pair_b(pair),
            pair_four(pair, alpha),
            #[trigger] sel2(sels, i) as int,
        )
}

/// One RGB565 channel field (shift 0, 5 or 11) of `value`, moved by `step - 1`.
pub open spec fn moved_field(value: int, shift: int, step: int) -> int {
    if shift == 0 {
        value % 32 + step - 1
    } else if shift == 5 {
        (value / 32) % 64 + step - 1
    } else {
        (value / 2048) % 32 + step - 1
    }
}

/// The RGB565 endpoint next to `value` in direction `index` (three base-3 digits for
/// blue, green and red, each moving the channel by -1, 0 or +1), if it is in range.
pub open spec fn spec_neighbor(value: int, index: int) -> Option<int> {
    let b = moved_field(value, 0, index % 3);
    let g = moved_field(value, 5, (index / 3) % 3);
    let r = moved_field(value, 11, (index / 9) % 3);
    if 0 <= b < 32 && 0 <= g < 64 && 0 <= r < 32 {
        Some(r * 2048 + g * 32 + b)
    } else {
        None
    }
}

/// Candidate `k` (of 729) around the endpoint pair `original`: both neighbors exist and,
/// for BC3, the first endpoint stays greater.
pub open spec fn candidate_valid(original: u32, k: int, alpha: bool) -> bool {
    let a = spec_neighbor(pair_a(original), k % 27);
    let b = spec_neighbor(pair_b(original), k / 27);
    a is Some && b is Some && !(alpha && a->0 <= b->0)
}

/// Packed endpoint pair of candidate `k`.
pub open spec fn candidate_pair(original: u32, k: int) -> int {
    spec_neighbor(pair_a(original), k % 27)->0 + 65536 * spec_neighbor(pair_b(original), k / 27)->0
}

/// Error of candidate `k` with its best selectors.
pub open spec fn candidate_error(pixels: Seq<u32>, original: u32, k: int, alpha: bool) -> int {
    best_total(pixels, candidate_pair(original, k) as u32, alpha, 16)
}

/// `result` is the refinement of the block `original` (endpoint pair, selectors): the
/// original when no valid candidate has strictly smaller error, else the first valid
/// candidate of least error, with its best selectors.
pub open spec fn is_refined(pixels: Seq<u32>, original: [u32; 2], alpha: bool, result: [u32; 2]) -> bool {
    let e0 = block_error(pixels, original[0], original[1], alpha);
    ||| result == original && forall|k: int|
        0 <= k < 729 && candidate_valid(original[0], k, alpha) ==> e0 <= #[trigger] candidate_error(
            pixels,
            original[0],
            k,
            alpha,
        )
    ||| exists|k: int|
        0 <= k < 729 && candidate_valid(original[0], k, alpha) && result[0] == candidate_pair(
            original[0],
            k,
        ) && best_selectors(pixels, result[0], alpha, result[1]) && #[trigger] candidate_error(
            pixels,
            original[0],
            k,
            alpha,
        ) < e0 && (forall|j: int|
            0 <= j < 729 && candidate_valid(original[0], j, alpha) ==> candidate_error(
                pixels,
                original[0],
                k,
                alpha,
            ) <= #[trigger] candidate_error(pixels, original[0], j, alpha)) && (forall|j: int|
            0 <= j < k && candidate_valid(original[0], j, alpha) ==> candidate_error(
                pixels,
                original[0],
                k,
                alpha,
            ) < #[trigger] candidate_error(pixels, original[0], j, alpha))
}

pub proof fn lemma_entry_error_bound(px: u32, a: int, b: int, four: bool, s: int)
    requires
        0 <= a < 65536,
        0 <= b < 65536,
    ensures
        0 <= entry_error(px, a, b, four, s) <= 195075,
{
    lemma_palette_bounds(a, b, four, s, 0);
    lemma_palette_bounds(a, b, four, s, 1);
    lemma_palette_bounds(a, b, four, s, 2);
    let d0 = px_channel(px, 0) - palette_channel(a, b, four, s, 0);
    let d1 = px_channel(px, 1) - palette_channel(a, b, four, s, 1);
    let d2 = px_channel(px, 2) - palette_channel(a, b, four, s, 2);
    assert(0 <= d0 * d0 <= 65025) by (nonlinear_arith)
        requires
            -255 <= d0 <= 255,
    ;
    assert(0 <= d1 * d1 <= 65025) by (nonlinear_arith)
        requires
            -255 <= d1 <= 255,
    ;
    assert(0 <= d2 * d2 <= 65025) by (nonlinear_arith)
        requires
            -255 <= d2 <= 255,
    ;
}

/// Best selectors achieve the least error.
pub proof fn lemma_best_selectors_error(pixels: Seq<u32>, pair: u32, alpha: bool, sels: u32, n: int)
    requires
        0 <= n <= 16,
        best_selectors(pixels, pair, alpha, sels),
    ensures
        total_error(pixels, pair, sels, alpha, n) == best_total(pixels, pair, alpha, n),
    decreases n,
{
    if n > 0 {
        lemma_best_selectors_error(pixels, pair, alpha, sels, n - 1);
        let i = n - 1;
        assert(is_best_entry(
            pixels[i],
            pair_a(pair),
            pair_b(pair),
            pair_four(pair, alpha),
            sel2(sels, i) as int,
        ));
        lemma_min_error_is_entry(pixels[i], pair_a(pair), pair_b(pair), pair_four(pair, alpha));
    }
}

/// `min_error` is the error of some entry and no entry does better.
pub proof fn lemma_min_error_is_entry(px: u32, a: int, b: int, four: bool)
    ensures
        exists|s: int| 0 <= s < entries(four) && entry_error(px, a, b, four, s) == min_error(px, a, b, four),
        forall|t: int| 0 <= t < entries(four) ==> min_error(px, a, b, four) <= #[trigger] entry_error(px, a, b, four, t),
{
    let e0 = entry_error(px, a, b, four, 0);
    let e1 = entry_error(px, a, b, four, 1);
    let e2 = entry_error(px, a, b, four, 2);
    let e3 = entry_error(px, a, b, four, 3);
    let m = min_error(px, a, b, four);
    if m == e0 {
        assert(entry_error(px, a, b, four, 0) == m);
    } else if m == e1 {
        assert(entry_error(px, a, b, four, 1) == m);
    } else if m == e2 {
        assert(entry_error(px, a, b, four, 2) == m);
    } else {
        assert(entry_error(px, a, b, four, 3) == m);
    }
    assert forall|t: int| 0 <= t < entries(four) implies m <= #[trigger] entry_error(px, a, b, four, t) by {
        if t == 0 {
        } else if t == 1 {
        } else if t == 2 {
        } else {
        }
    }
}

/// The palette spanned by a packed endpoint pair, in the pair's mode.
pub fn palette(pair: u32, alpha: bool) -> (r: [[i32; 3]; 4])
    ensures
        forall|s: int, c: int|
            0 <= s < 4 && 0 <= c < 3 ==> #[trigger] r[s][c] == palette_channel(
                pair_a(pair),
                pair_b(pair),
                pair_four(pair, alpha),
                s,
                c,
            ),
{
    let a = (pair % 65536) as u16;
    let b = (pair / 65536) as u16;
    let four = alpha || a > b;
    let x = expand(a);
    let y = expand(b);
    let mut p = [[0i32; 3]; 4];
    p[0] = [x[0] as i32, x[1] as i32, x[2] as i32];
    p[1] = [y[0] as i32, y[1] as i32, y[2] as i32];
    let mut third = [0i32; 3];
    let mut fourth = [0i32; 3];
    let mut c: usize = 0;
    while c < 3
        invariant
            c <= 3,
            a == pair_a(pair),
            b == pair_b(pair),
            four == pair_four(pair, alpha),
            forall|k: int| 0 <= k < 3 ==> x[k] == endpoint_channel(a as int, k),
            forall|k: int| 0 <= k < 3 ==> y[k] == endpoint_channel(b as int, k),
            forall|k: int| 0 <= k < c ==> third[k] == palette_channel(a as int, b as int, four, 2, k),
            forall|k: int| 0 <= k < c ==> fourth[k] == palette_channel(a as int, b as int, four, 3, k),
        decreases 3 - c,
    {
        let xc = x[c] as i32;
        let yc = y[c] as i32;
        if four {
            third[c] = (2 * xc + yc) / 3;
            fourth[c] = (xc + 2 * yc) / 3;
        } else {
            third[c] = (xc + yc) / 2;
            fourth[c] = 0;
        }
        c += 1;
    }
    p[2] = third;
    p[3] = fourth;
    p
}

/// Squared RGB distance between a pixel word and a palette color.
fn distance(px: u32, color: [i32; 3]) -> (e: u32)
    requires
        forall|c: int| 0 <= c < 3 ==> 0 <= #[trigger] color[c] <= 255,
    ensures
        e == ({
            let d0 = px_channel(px, 0) - color[0];
            let d1 = px_channel(px, 1) - color[1];
            let d2 = px_channel(px, 2) - color[2];
            d0 * d0 + d1 * d1 + d2 * d2
        }),
        e <= 195075,
{
    let d0 = (px % 256) as i32 - color[0];
    let d1 = ((px / 256) % 256) as i32 - color[1];
    let d2 = ((px / 65536) % 256) as i32 - color[2];
    assert(0 <= d0 * d0 <= 65025) by (nonlinear_arith)
        requires
            -255 <= d0 <= 255,
    ;
    assert(0 <= d1 * d1 <= 65025) by (nonlinear_arith)
        requires
            -255 <= d1 <= 255,
    ;
    assert(0 <= d2 * d2 <= 65025) by (nonlinear_arith)
        requires
            -255 <= d2 <= 255,
    ;
    (d0 * d0 + d1 * d1 + d2 * d2) as u32
}

/// The first nearest palette entry to `px` and its error.
pub(crate) fn nearest(px: u32, pal: &[[i32; 3]; 4], a: Ghost<int>, b: Ghost<int>, four: bool) -> (r: (u32, u32))
    requires
        forall|s: int, c: int| 0 <= s < 4 && 0 <= c < 3 ==> #[trigger] pal[s][c] == palette_channel(a@, b@, four, s, c),
        forall|s: int, c: int| 0 <= s < 4 && 0 <= c < 3 ==> 0 <= #[trigger] pal[s][c] <= 255,
    ensures
        is_best_entry(px, a@, b@, four, r.1 as int),
        r.0 == min_error(px, a@, b@, four),
        r.0 <= 195075,
{
    let n: u32 = if four {
        4
    } else {
        3
    };
    let mut best: u32 = distance(px, pal[0]);
    let mut chosen: u32 = 0;
    let mut s: u32 = 1;
    while s < n
        invariant
            1 <= s <= n,
            n == entries(four),
            chosen < s,
            forall|q: int, c: int| 0 <= q < 4 && 0 <= c < 3 ==> #[trigger] pal[q][c] == palette_channel(a@, b@, four, q, c),
            forall|q: int, c: int| 0 <= q < 4 && 0 <= c < 3 ==> 0 <= #[trigger] pal[q][c] <= 255,
            best == entry_error(px, a@, b@, four, chosen as int),
            best <= 195075,
            forall|t: int| 0 <= t < s ==> best <= #[trigger] entry_error(px, a@, b@, four, t),
            forall|t: int| 0 <= t < chosen ==> best < #[trigger] entry_error(px, a@, b@, four, t),
        decreases n - s,
    {
        let err = distance(px, pal[s as usize]);
        if err < best {
            best = err;
            chosen = s;
        }
        s += 1;
    }
    proof {
        lemma_min_error_is_entry(px, a@, b@, four);
    }
    (best, chosen)
}

/// Error of the block under the given selectors.
fn score_with(pixels: &[u32; 16], pal: &[[i32; 3]; 4], pair: u32, sels: u32, alpha: bool) -> (e: u32)
    requires
        forall|s: int, c: int| 0 <= s < 4 && 0 <= c < 3 ==> #[trigger] pal[s][c] == palette_channel(pair_a(pair), pair_b(pair), pair_four(pair, alpha), s, c),
        forall|s: int, c: int| 0 <= s < 4 && 0 <= c < 3 ==> 0 <= #[trigger] pal[s][c] <= 255,
    ensures
        e == block_error(pixels@, pair, sels, alpha),
{
    let ghost a = pair_a(pair);
    let ghost b = pair_b(pair);
    let ghost four = pair_four(pair, alpha);
    let mut sum: u32 = 0;
    let mut i: usize = 0;
    while i < 16
        invariant
            i <= 16,
            a == pair_a(pair),
            b == pair_b(pair),
            four == pair_four(pair, alpha),
            forall|s: int, c: int| 0 <= s < 4 && 0 <= c < 3 ==> #[trigger] pal[s][c] == palette_channel(a, b, four, s, c),
            forall|s: int, c: int| 0 <= s < 4 && 0 <= c < 3 ==> 0 <= #[trigger] pal[s][c] <= 255,
            sum <= 195075 * i,
            sum == total_error(pixels@, pair, sels, alpha, i as int),
        decreases 16 - i,
    {
        let s = ((sels >> (2 * i as u32)) & 3) as usize;
        assert(s < 4) by (bit_vector)
            requires
                s == ((sels >> (2 * i as u32)) & 3),
        ;
        let err = distance(pixels[i], pal[s]);
        assert(s == sel2(sels, i as int));
        sum = sum + err;
        i += 1;
    }
    sum
}

/// Error of the block when every pixel takes its first nearest entry, and those selectors.
fn score_best(pixels: &[u32; 16], pal: &[[i32; 3]; 4], pair: u32, alpha: bool) -> (r: (u32, u32))
    requires
        forall|s: int, c: int| 0 <= s < 4 && 0 <= c < 3 ==> #[trigger] pal[s][c] == palette_channel(pair_a(pair), pair_b(pair), pair_four(pair, alpha), s, c),
        forall|s: int, c: int| 0 <= s < 4 && 0 <= c < 3 ==> 0 <= #[trigger] pal[s][c] <= 255,
    ensures
        r.0 == best_total(pixels@, pair, alpha, 16),
        best_selectors(pixels@, pair, alpha, r.1),
{
    let ghost a = pair_a(pair);
    let ghost b = pair_b(pair);
    let four = alpha || pair % 65536 > pair / 65536;
    let mut sum: u32 = 0;
    let mut bits: u32 = 0;
    let mut i: usize = 0;
    assert(0u32 < (1u32 << (2 * 0u32))) by (bit_vector);
    while i < 16
        invariant
            i <= 16,
            a == pair_a(pair),
            b == pair_b(pair),
            four == pair_four(pair, alpha),
            forall|s: int, c: int| 0 <= s < 4 && 0 <= c < 3 ==> #[trigger] pal[s][c] == palette_channel(a, b, four, s, c),
            forall|s: int, c: int| 0 <= s < 4 && 0 <= c < 3 ==> 0 <= #[trigger] pal[s][c] <= 255,
            sum <= 195075 * i,
            sum == best_total(pixels@, pair, alpha, i as int),
            i < 16 ==> bits < (1u32 << (2 * i as u32)),
            forall|k: int| 0 <= k < i ==> is_best_entry(pixels@[k], a, b, four, #[trigger] sel2(bits, k) as int),
        decreases 16 - i,
    {
        let (best, chosen) = nearest(pixels[i], pal, Ghost(a), Ghost(b), four);
        proof {
            lemma_sel2_push(bits, chosen, i as u32);
            assert forall|k: int| 0 <= k < i implies #[trigger] sel2(bits | (chosen << (2 * i as u32)), k) == sel2(bits, k) by {
                assert((k as u32) < (i as u32));
            }
        }
        bits = bits | (chosen << (2 * i as u32));
        sum = sum + best;
        i += 1;
    }
    proof {
        lemma_best_selectors_error(pixels@, pair, alpha, bits, 16);
    }
    (sum, bits)
}

/// Score a block: with `selectors`, the error of those selectors; without, the least error
/// and the selectors of the first nearest entry for every pixel.
pub fn score(pixels: &[u32; 16], pair: u32, selectors: Option<u32>, alpha: bool) -> (r: (u32, u32))
    ensures
        match selectors {
            Some(sels) => r.0 == block_error(pixels@, pair, sels, alpha) && r.1 == sels,
            None => r.0 == best_total(pixels@, pair, alpha, 16) && best_selectors(pixels@, pair, alpha, r.1),
        },
{
    let pal = palette(pair, alpha);
    proof {
        assert forall|s: int, c: int| 0 <= s < 4 && 0 <= c < 3 implies 0 <= #[trigger] pal[s][c] <= 255 by {
            lemma_palette_bounds(pair_a(pair), pair_b(pair), pair_four(pair, alpha), s, c);
        }
    }
    match selectors {
        Some(sels) => (score_with(pixels, &pal, pair, sels, alpha), sels),
        None => score_best(pixels, &pal, pair, alpha),
    }
}

/// The endpoint next to `value` in direction `index`, if it is a valid RGB565 value.
pub fn neighbor(value: u32, index: u32) -> (r: Option<u32>)
    requires
        value < 65536,
        index < 27,
    ensures
        match spec_neighbor(value as int, index as int) {
            Some(v) => r == Some(v as u32) && v < 65536,
            None => r is None,
        },
{
    let blue: i32 = (value % 32) as i32 + (index % 3) as i32 - 1;
    let green: i32 = ((value / 32) % 64) as i32 + ((index / 3) % 3) as i32 - 1;
    let red: i32 = ((value / 2048) % 32) as i32 + ((index / 9) % 3) as i32 - 1;
    if blue < 0 || blue > 31 || green < 0 || green > 63 || red < 0 || red > 31 {
        return None;
    }
    Some((red as u32) * 2048 + (green as u32) * 32 + blue as u32)
}

/// The two halves of a packed pair built from endpoints below 65536.
pub proof fn lemma_pair_parts(a: int, b: int)
    requires
        0 <= a < 65536,
        0 <= b < 65536,
    ensures
        0 <= a + 65536 * b <= 0xffff_ffff,
        pair_a((a + 65536 * b) as u32) == a,
        pair_b((a + 65536 * b) as u32) == b,
{
    vstd::arithmetic::div_mod::lemma_fundamental_div_mod_converse(a + 65536 * b, 65536, b, a);
}

/// Search the 729 neighboring RGB565 endpoint pairs of one block and keep the first of
/// least error; the original block stays on equal error.
pub fn block(pixels: &[u32; 16], original: [u32; 2], alpha: bool) -> (r: [u32; 2])
    ensures
        is_refined(pixels@, original, alpha, r),
{
    let mut best = original;
    let (mut error, _) = score(pixels, original[0], Some(original[1]), alpha);
    let ghost e0 = block_error(pixels@, original[0], original[1], alpha);
    let ghost mut winner: int = -1;
    let ghost o = original[0];
    let oa = original[0] % 65536;
    let ob = original[0] / 65536;
    let mut candidate: u32 = 0;
    while candidate < 729
        invariant
            candidate <= 729,
            o == original[0],
            oa == pair_a(o),
            ob == pair_b(o),
            e0 == block_error(pixels@, original[0], original[1], alpha),
            winner < 0 ==> {
                &&& best == original
                &&& error == e0
                &&& forall|k: int|
                    0 <= k < candidate && candidate_valid(o, k, alpha) ==> e0 <= #[trigger] candidate_error(pixels@, o, k, alpha)
            },
            winner >= 0 ==> {
                &&& 0 <= winner < candidate
                &&& candidate_valid(o, winner, alpha)
                &&& best[0] == candidate_pair(o, winner)
                &&& best_selectors(pixels@, best[0], alpha, best[1])
                &&& error == candidate_error(pixels@, o, winner, alpha)
                &&& error < e0
                &&& forall|k: int|
                    0 <= k < candidate && candidate_valid(o, k, alpha) ==> error <= #[trigger] candidate_error(pixels@, o, k, alpha)
                &&& forall|k: int|
                    0 <= k < winner && candidate_valid(o, k, alpha) ==> error < #[trigger] candidate_error(pixels@, o, k, alpha)
            },
        decreases 729 - candidate,
    {
        let na = neighbor(oa, candidate % 27);
        let nb = neighbor(ob, candidate / 27);
        match (na, nb) {
            (Some(a), Some(b)) => {
                if !(alpha && a <= b) {
                    proof {
                        lemma_pair_parts(a as int, b as int);
                        assert(candidate_valid(o, candidate as int, alpha));
                    }
                    let pair = a + b * 65536;
                    assert(pair == candidate_pair(o, candidate as int));
                    let (e, selectors) = score(pixels, pair, None, alpha);
                    assert(e == candidate_error(pixels@, o, candidate as int, alpha));
                    if e < error {
                        error = e;
                        best = [pair, selectors];
                        proof {
                            winner = candidate as int;
                        }
                    }
                }
            },
            _ => {
                assert(!candidate_valid(o, candidate as int, alpha));
            },
        }
        candidate += 1;
    }
    proof {
        if winner >= 0 {
            assert(0 <= winner < 729 && candidate_valid(o, winner, alpha) && best[0] == candidate_pair(o, winner)
                && best_selectors(pixels@, best[0], alpha, best[1]) && candidate_error(pixels@, o, winner, alpha) < e0);
        }
    }
    best
}

/// The sixteen RGBA8 pixel words of block `index` of a `width` x `height` image.
pub open spec fn block_words(width: u32, height: u32, rgba: Seq<u8>, index: int) -> Seq<u32> {
    Seq::new(16, |p: int| le32(rgba, source_offset(width, height, index, p)) as u32)
}

/// Gather block `index` as little-endian RGBA8 words.
pub fn gather(width: u32, height: u32, rgba: &[u8], index: usize) -> (r: [u32; 16])
    requires
        valid_image(width, height, rgba@.len() as int),
        index < block_count(width, height),
    ensures
        r@ == block_words(width, height, rgba@, index as int),
{
    let block = pixels(width, height, rgba, index);
    let mut out = [0u32; 16];
    let mut p: usize = 0;
    while p < 16
        invariant
            p <= 16,
            is_block_of(width, height, rgba@, index as int, block),
            forall|q: int| 0 <= q < p ==> out[q] == le32(rgba@, source_offset(width, height, index as int, q)),
        decreases 16 - p,
    {
        let px = block[p];
        out[p] = px[0] as u32 + (px[1] as u32) * 256 + (px[2] as u32) * 65536 + (px[3] as u32) * 16777216;
        p += 1;
    }
    assert(out@ =~= block_words(width, height, rgba@, index as int));
    out
}

/// The BC1 block `k` uses the transparent palette entry: three-color mode with a selector 3.
pub open spec fn is_transparent_bc1(blocks: Seq<u8>, k: int) -> bool {
    &&& le16(blocks, 8 * k) <= le16(blocks, 8 * k + 2)
    &&& exists|i: int| 0 <= i < 16 && #[trigger] sel2(le32(blocks, 8 * k + 4) as u32, i) == 3
}

/// Some BC1 block of `blocks` uses transparency.
pub open spec fn any_transparent_bc1(blocks: Seq<u8>) -> bool {
    exists|k: int| 0 <= k < blocks.len() / 8 && #[trigger] is_transparent_bc1(blocks, k)
}

/// The checks that refinement makes, in order, before it writes anything.
pub open spec fn refine_check(format: Format, width: u32, height: u32, rgba_len: int, blocks: Seq<u8>) -> Result<(), Error> {
    if validate_result(width, height, rgba_len) is Err {
        validate_result(width, height, rgba_len)
    } else if !(format == Format::Bc1 || format == Format::Bc3) {
        Err(Error::UnsupportedRefinementFormat(format))
    } else if encoded_len_result(format, width, height) is Err {
        Err(Error::Dimensions)
    } else if blocks.len() != spec_encoded_len(format, width, height) {
        Err(Error::OutputLength)
    } else if format == Format::Bc1 && any_transparent_bc1(blocks) {
        Err(Error::TransparentBc1)
    } else {
        Ok(())
    }
}

fn has_transparent_bc1(blocks: &[u8]) -> (r: bool)
    ensures
        r == any_transparent_bc1(blocks@),
{
    let len = blocks.len();
    let n = len / 8;
    let mut k: usize = 0;
    while k < n
        invariant
            k <= n,
            len == blocks@.len(),
            n == blocks@.len() / 8,
            forall|j: int| 0 <= j < k ==> !#[trigger] is_transparent_bc1(blocks@, j),
        decreases n - k,
    {
        assert(8 * k + 8 <= blocks@.len());
        let a = read_u16(blocks, 8 * k);
        let c = read_u16(blocks, 8 * k + 2);
        let bits = read_u32(blocks, 8 * k + 4);
        if a <= c {
            let mut i: u32 = 0;
            while i < 16
                invariant
                    i <= 16,
                    k < n,
                    n == blocks@.len() / 8,
                    a <= c,
                    a == le16(blocks@, 8 * k),
                    c == le16(blocks@, 8 * k + 2),
                    bits == le32(blocks@, 8 * k + 4),
                    forall|j: int| 0 <= j < i ==> #[trigger] sel2(bits, j) != 3,
                decreases 16 - i,
            {
                if (bits >> (2 * i)) & 3 == 3 {
                    assert(sel2(bits, i as int) == 3);
                    assert(sel2(le32(blocks@, 8 * k + 4) as u32, i as int) == 3);
                    assert(is_transparent_bc1(blocks@, k as int));
                    return true;
                }
                i += 1;
            }
        }
        k += 1;
    }
    false
}

/// Check dimensions, format, buffer lengths and, for BC1, that every block is opaque.
pub fn validate(width: u32, height: u32, rgba: &[u8], format: Format, blocks: &[u8]) -> (r: Result<(), Error>)
    ensures
        r == refine_check(format, width, height, rgba@.len() as int, blocks@),
{
    crate::image::validate(width, height, rgba)?;
    if !(format == Format::Bc1 || format == Format::Bc3) {
        return Err(Error::UnsupportedRefinementFormat(format));
    }
    if blocks.len() != format.encoded_len(width, height)? {
        return Err(Error::OutputLength);
    }
    if format == Format::Bc1 && has_transparent_bc1(blocks) {
        return Err(Error::TransparentBc1);
    }
    Ok(())
}

/// Byte offset of the color half of a block.
pub open spec fn color_offset(format: Format) -> int {
    if format == Format::Bc3 {
        8
    } else {
        0
    }
}

/// The endpoint pair and selector words of the color half of block `k`.
pub open spec fn color_words(format: Format, blocks: Seq<u8>, k: int) -> [u32; 2] {
    let at = k * spec_block_bytes(format) + color_offset(format);
    [le32(blocks, at) as u32, le32(blocks, at + 4) as u32]
}

/// `after` is `before` with every block's color half refined against the image.
pub open spec fn is_refined_image(format: Format, width: u32, height: u32, rgba: Seq<u8>, before: Seq<u8>, after: Seq<u8>) -> bool {
    &&& after.len() == before.len()
    &&& forall|k: int| 0 <= k < block_count(width, height) ==> is_refined(
        block_words(width, height, rgba, k),
        #[trigger] color_words(format, before, k),
        format == Format::Bc3,
        color_words(format, after, k),
    )
    &&& forall|j: int| 0 <= j < before.len() && j % (spec_block_bytes(format) as int) < color_offset(format) ==> #[trigger] after[j] == before[j]
}

/// Byte `j` of block storage with stride `stride` lies in block `i` at offset `t`.
proof fn lemma_block_byte(j: int, i: int, t: int, stride: int)
    requires
        0 <= t < stride,
        0 <= i,
        j == i * stride + t,
    ensures
        j / stride == i,
        j % stride == t,
{
    vstd::arithmetic::div_mod::lemma_fundamental_div_mod_converse(j, stride, i, t);
}

/// Search the 729 neighboring RGB565 endpoint pairs per BC block. Keeps the original
/// result on equal error, preserves BC3 alpha bytes, never uses the transparent selector
/// for an opaque BC1 block. Supports BC1 and BC3. Invalid input is rejected before any
/// output is written.
pub fn refine(width: u32, height: u32, rgba: &[u8], format: Format, blocks: &mut [u8]) -> (r: Result<(), Error>)
    ensures
        r == refine_check(format, width, height, rgba@.len() as int, old(blocks)@),
        r is Err ==> final(blocks)@ == old(blocks)@,
        r is Ok ==> is_refined_image(format, width, height, rgba@, old(blocks)@, final(blocks)@),
{
    validate(width, height, rgba, format, blocks)?;
    let alpha = format == Format::Bc3;
    let stride: usize = if alpha {
        16
    } else {
        8
    };
    let offset: usize = if alpha {
        8
    } else {
        0
    };
    let ghost before = blocks@;
    let total = blocks.len();
    let count = total / stride;
    proof {
        assert(blocks@.len() == block_count(width, height) * stride);
        vstd::arithmetic::div_mod::lemma_div_multiples_vanish(block_count(width, height) as int, stride as int);
        assert(block_count(width, height) * stride == stride * block_count(width, height)) by (nonlinear_arith);
    }
    let mut i: usize = 0;
    while i < count
        invariant
            i <= count,
            count == block_count(width, height),
            stride == spec_block_bytes(format),
            offset == color_offset(format),
            offset + 8 == stride,
            alpha == (format == Format::Bc3),
            before.len() == count * stride,
            total == before.len(),
            blocks@.len() == before.len(),
            valid_image(width, height, rgba@.len() as int),
            forall|j: int|
                0 <= j < before.len() && (j / (stride as int) >= i || j % (stride as int) < offset) ==> #[trigger] blocks@[j] == before[j],
            forall|k: int| 0 <= k < i ==> is_refined(
                block_words(width, height, rgba@, k),
                #[trigger] color_words(format, before, k),
                alpha,
                color_words(format, blocks@, k),
            ),
        decreases count - i,
    {
        proof {
            assert((i + 1) * stride <= count * stride) by (nonlinear_arith)
                requires
                    i < count,
            ;
            assert((i + 1) * stride == i * stride + stride) by (nonlinear_arith);
        }
        let at = i * stride + offset;
        let words = gather(width, height, rgba, i);
        proof {
            assert forall|t: int| 0 <= t < 8 implies #[trigger] blocks@[at + t] == before[at + t] by {
                lemma_block_byte(at + t, i as int, offset + t, stride as int);
            }
        }
        let original = [read_u32(blocks, at), read_u32(blocks, at + 4)];
        assert(original == color_words(format, before, i as int));
        let best = block(&words, original, alpha);
        let ghost mid = blocks@;
        write_u32(blocks, at, best[0]);
        write_u32(blocks, at + 4, best[1]);
        proof {
            assert forall|j: int|
                0 <= j < before.len() && (j / (stride as int) >= i + 1 || j % (stride as int) < offset) implies #[trigger] blocks@[j] == before[j] by {
                if at <= j < at + 8 {
                    lemma_block_byte(j, i as int, j - i * stride, stride as int);
                }
            }
            assert forall|k: int| 0 <= k < i + 1 implies is_refined(
                block_words(width, height, rgba@, k),
                #[trigger] color_words(format, before, k),
                alpha,
                color_words(format, blocks@, k),
            ) by {
                if k < i {
                    let ak = k * stride + offset;
                    assert(ak + 8 <= at) by (nonlinear_arith)
                        requires
                            ak == k * stride + offset,
                            at == i * stride + offset,
                            k < i,
                            offset + 8 == stride,
                    ;
                    assert(color_words(format, blocks@, k) == color_words(format, mid, k));
                } else {
                    assert(color_words(format, blocks@, k) == best);
                }
            }
        }
        i += 1;
    }
    proof {
        assert forall|j: int| 0 <= j < before.len() && j % (spec_block_bytes(format) as int) < color_offset(format) implies #[trigger] blocks@[j] == before[j] by {
        }
    }
    Ok(())
}

/// The color words of a BC1 block select the transparent entry.
pub open spec fn words_transparent(words: [u32; 2]) -> bool {
    &&& pair_a(words[0]) <= pair_b(words[0])
    &&& exists|i: int| 0 <= i < 16 && #[trigger] sel2(words[1], i) == 3
}

/// Refinement never increases a block's squared RGB error, and a refined block with the
/// same error as the original is the original.
pub proof fn lemma_refine_never_increases_error(pixels: Seq<u32>, original: [u32; 2], alpha: bool, result: [u32; 2])
    requires
        is_refined(pixels, original, alpha, result),
    ensures
        block_error(pixels, result[0], result[1], alpha) <= block_error(pixels, original[0], original[1], alpha),
        block_error(pixels, result[0], result[1], alpha) == block_error(pixels, original[0], original[1], alpha) ==> result == original,
{
    if result != original {
        let k = choose|k: int|
            0 <= k < 729 && candidate_valid(original[0], k, alpha) && result[0] == candidate_pair(original[0], k)
                && best_selectors(pixels, result[0], alpha, result[1]) && #[trigger] candidate_error(pixels, original[0], k, alpha)
                < block_error(pixels, original[0], original[1], alpha) && (forall|j: int|
                0 <= j < 729 && candidate_valid(original[0], j, alpha) ==> candidate_error(pixels, original[0], k, alpha)
                    <= #[trigger] candidate_error(pixels, original[0], j, alpha)) && (forall|j: int|
                0 <= j < k && candidate_valid(original[0], j, alpha) ==> candidate_error(pixels, original[0], k, alpha)
                    < #[trigger] candidate_error(pixels, original[0], j, alpha));
        lemma_best_selectors_error(pixels, result[0], alpha, result[1], 16);
        assert(result[0] == candidate_pair(original[0], k) as u32);
    }
}

/// Refinement of an opaque BC1 block gives an opaque block.
pub proof fn lemma_refine_keeps_bc1_opaque(pixels: Seq<u32>, original: [u32; 2], result: [u32; 2])
    requires
        is_refined(pixels, original, false, result),
        !words_transparent(original),
    ensures
        !words_transparent(result),
{
    if result != original {
        let k = choose|k: int|
            0 <= k < 729 && candidate_valid(original[0], k, false) && result[0] == candidate_pair(original[0], k)
                && best_selectors(pixels, result[0], false, result[1]) && #[trigger] candidate_error(pixels, original[0], k, false)
                < block_error(pixels, original[0], original[1], false) && (forall|j: int|
                0 <= j < 729 && candidate_valid(original[0], j, false) ==> candidate_error(pixels, original[0], k, false)
                    <= #[trigger] candidate_error(pixels, original[0], j, false)) && (forall|j: int|
                0 <= j < k && candidate_valid(original[0], j, false) ==> candidate_error(pixels, original[0], k, false)
                    < #[trigger] candidate_error(pixels, original[0], j, false));
        let a = spec_neighbor(pair_a(original[0]), k % 27)->0;
        let b = spec_neighbor(pair_b(original[0]), k / 27)->0;
        lemma_pair_parts(a, b);
        if pair_a(result[0]) <= pair_b(result[0]) {
            assert forall|i: int| 0 <= i < 16 implies #[trigger] sel2(result[1], i) != 3 by {
                assert(is_best_entry(pixels[i], pair_a(result[0]), pair_b(result[0]), false, sel2(result[1], i) as int));
            }
        }
    }
}

/// The color words of BC1 block `k` are transparent exactly when the block is.
pub proof fn lemma_bc1_words_transparent(blocks: Seq<u8>, k: int)
    requires
        0 <= k,
        8 * k + 8 <= blocks.len(),
    ensures
        words_transparent(color_words(Format::Bc1, blocks, k)) == is_transparent_bc1(blocks, k),
{
    let at = 8 * k;
    let lo = le16(blocks, at);
    let hi = le16(blocks, at + 2);
    lemma_pair_parts(lo, hi);
    let w = color_words(Format::Bc1, blocks, k);
    assert(w[0] == lo + 65536 * hi);
    assert(w[1] == le32(blocks, at + 4) as u32);
}

/// BC1 refinement of opaque blocks never introduces transparency.
pub proof fn lemma_refine_image_stays_opaque(width: u32, height: u32, rgba: Seq<u8>, before: Seq<u8>, after: Seq<u8>)
    requires
        before.len() == spec_encoded_len(Format::Bc1, width, height),
        is_refined_image(Format::Bc1, width, height, rgba, before, after),
        !any_transparent_bc1(before),
    ensures
        !any_transparent_bc1(after),
{
    assert forall|k: int| 0 <= k < after.len() / 8 implies !#[trigger] is_transparent_bc1(after, k) by {
        assert(after.len() == block_count(width, height) * 8);
        assert(k < block_count(width, height));
        assert(8 * k + 8 <= after.len());
        lemma_bc1_words_transparent(before, k);
        lemma_bc1_words_transparent(after, k);
        assert(!is_transparent_bc1(before, k));
        lemma_refine_keeps_bc1_opaque(block_words(width, height, rgba, k), color_words(Format::Bc1, before, k), color_words(Format::Bc1, after, k));
    }
}

/// Neighbor `index` of an RGB565 endpoint moves blue by the base-3 digit `index % 3`, green
/// by `(index / 3) % 3` and red by `index / 9`, each minus one; it exists exactly when all
/// three moved levels stay in range.
pub proof fn lemma_neighbor_moves(value: int, index: int)
    requires
        0 <= value < 65536,
        0 <= index < 27,
    ensures
        ({
            let (r, g, b) = crate::color::unpack565(value as u16);
            let (nr, ng, nb) = (r + index / 9 - 1, g + (index / 3) % 3 - 1, b + index % 3 - 1);
            &&& (spec_neighbor(value, index) is Some) == (0 <= nr < 32 && 0 <= ng < 64 && 0 <= nb < 32)
            &&& spec_neighbor(value, index) matches Some(v) ==> 0 <= v < 65536 && crate::color::unpack565(v as u16) == (nr, ng, nb)
        }),
{
    let (r, g, b) = crate::color::unpack565(value as u16);
    assert(index / 9 < 3);
    assert((index / 9) % 3 == index / 9);
    if let Some(v) = spec_neighbor(value, index) {
        let nr = r + index / 9 - 1;
        let ng = g + (index / 3) % 3 - 1;
        let nb = b + index % 3 - 1;
        assert(v == nr * 2048 + ng * 32 + nb);
        crate::color::lemma_pack_unpack(value as u16, nr, ng, nb);
        assert(crate::color::pack565(nr, ng, nb) == v as u16);
    }
}

/// The neighbors of an endpoint are pairwise distinct: the 729 candidate pairs of a block
/// are all different.
pub proof fn lemma_neighbors_distinct(value: int, i: int, j: int)
    requires
        0 <= value < 65536,
        0 <= i < 27,
        0 <= j < 27,
        i != j,
        spec_neighbor(value, i) is Some,
        spec_neighbor(value, j) is Some,
    ensures
        spec_neighbor(value, i) != spec_neighbor(value, j),
{
    lemma_neighbor_moves(value, i);
    lemma_neighbor_moves(value, j);
    if spec_neighbor(value, i) == spec_neighbor(value, j) {
        assert(i / 9 == j / 9 && (i / 3) % 3 == (j / 3) % 3 && i % 3 == j % 3);
        vstd::arithmetic::div_mod::lemma_fundamental_div_mod(i, 3);
        vstd::arithmetic::div_mod::lemma_fundamental_div_mod(j, 3);
        vstd::arithmetic::div_mod::lemma_fundamental_div_mod(i / 3, 3);
        vstd::arithmetic::div_mod::lemma_fundamental_div_mod(j / 3, 3);
        vstd::arithmetic::div_mod::lemma_div_denominator(i, 3, 3);
        vstd::arithmetic::div_mod::lemma_div_denominator(j, 3, 3);
    }
}

} // verus!
