//! RGB endpoint fitting for BC1 and BC3 color blocks.
use vstd::prelude::*;

use crate::bits::{le16, le32, lemma_sel2_push, sel2};
use crate::types::Quality;
use crate::wide::{axis_limit, wide_limit, Wide};
use crate::decode::{endpoint_channel, lemma_palette_bounds};
use crate::refine::{
    best_selectors, best_total, entry_error, is_best_entry, lemma_min_error_is_entry, min_error,
    nearest, palette, pair_a, pair_b, pair_four,
};

verus! {

/// An endpoint pair with its selectors and squared RGB error.
#[derive(Clone, Copy)]
pub struct Candidate {
    pub a: u16,
    pub b: u16,
    pub selectors: u32,
    pub error: u32,
    pub three: bool,
}

/// The RGBA8 pixels of a block as little-endian words.
pub open spec fn pixel_words(p: [[u8; 4]; 16]) -> Seq<u32> {
    Seq::new(
        16,
        |i: int|
            (p[i][0] as int + 256 * p[i][1] as int + 65536 * p[i][2] as int + 16777216 * p[i][3] as int) as u32,
    )
}

/// Packed endpoint pair: `a` in the low half, `b` in the high half.
pub open spec fn pack_pair(a: u16, b: u16) -> u32 {
    (a as int + 65536 * b as int) as u32
}

/// Endpoint order for a mode: three-color blocks need `a <= b`; four-color blocks need
/// `a > b`, so equal endpoints are separated by one step.
pub open spec fn ordered(a: u16, b: u16, three: bool) -> (u16, u16) {
    if three {
        if a > b {
            (b, a)
        } else {
            (a, b)
        }
    } else {
        let (x, y) = if a < b {
            (b, a)
        } else {
            (a, b)
        };
        if x == y {
            if y > 0 {
                (x, (y - 1) as u16)
            } else {
                (1u16, y)
            }
        } else {
            (x, y)
        }
    }
}

/// The selector word in which every pixel takes its first nearest palette entry.
pub open spec fn fit_selectors(words: Seq<u32>, pair: u32) -> u32 {
    choose|w: u32| best_selectors(words, pair, false, w)
}

/// The candidate of endpoints `a` and `b` in the given mode, each pixel on its first
/// nearest palette entry.
#[verifier::opaque]
pub open spec fn full_eval(p: [[u8; 4]; 16], a: u16, b: u16, three: bool) -> Candidate {
    let (x, y) = ordered(a, b, three);
    let pair = pack_pair(x, y);
    Candidate {
        a: x,
        b: y,
        selectors: fit_selectors(pixel_words(p), pair),
        error: best_total(pixel_words(p), pair, false, 16) as u32,
        three,
    }
}

/// A candidate is a full evaluation of its own endpoints.
pub open spec fn is_complete(p: [[u8; 4]; 16], c: Candidate) -> bool {
    c == full_eval(p, c.a, c.b, c.three)
}

pub proof fn lemma_pack_pair(a: u16, b: u16)
    ensures
        pair_a(pack_pair(a, b)) == a,
        pair_b(pack_pair(a, b)) == b,
        pack_pair(a, b) == a as int + 65536 * b as int,
{
    crate::refine::lemma_pair_parts(a as int, b as int);
}

/// A selector word is determined by its sixteen selectors.
pub proof fn lemma_selectors_unique(w1: u32, w2: u32)
    requires
        forall|i: int| 0 <= i < 16 ==> sel2(w1, i) == sel2(w2, i),
    ensures
        w1 == w2,
{
    assert(sel2(w1, 0) == sel2(w2, 0));
    assert(sel2(w1, 1) == sel2(w2, 1));
    assert(sel2(w1, 2) == sel2(w2, 2));
    assert(sel2(w1, 3) == sel2(w2, 3));
    assert(sel2(w1, 4) == sel2(w2, 4));
    assert(sel2(w1, 5) == sel2(w2, 5));
    assert(sel2(w1, 6) == sel2(w2, 6));
    assert(sel2(w1, 7) == sel2(w2, 7));
    assert(sel2(w1, 8) == sel2(w2, 8));
    assert(sel2(w1, 9) == sel2(w2, 9));
    assert(sel2(w1, 10) == sel2(w2, 10));
    assert(sel2(w1, 11) == sel2(w2, 11));
    assert(sel2(w1, 12) == sel2(w2, 12));
    assert(sel2(w1, 13) == sel2(w2, 13));
    assert(sel2(w1, 14) == sel2(w2, 14));
    assert(sel2(w1, 15) == sel2(w2, 15));
    assert(w1 == w2) by (bit_vector)
        requires
            (w1 >> 0u32) & 3 == (w2 >> 0u32) & 3,
            (w1 >> 2u32) & 3 == (w2 >> 2u32) & 3,
            (w1 >> 4u32) & 3 == (w2 >> 4u32) & 3,
            (w1 >> 6u32) & 3 == (w2 >> 6u32) & 3,
            (w1 >> 8u32) & 3 == (w2 >> 8u32) & 3,
            (w1 >> 10u32) & 3 == (w2 >> 10u32) & 3,
            (w1 >> 12u32) & 3 == (w2 >> 12u32) & 3,
            (w1 >> 14u32) & 3 == (w2 >> 14u32) & 3,
            (w1 >> 16u32) & 3 == (w2 >> 16u32) & 3,
            (w1 >> 18u32) & 3 == (w2 >> 18u32) & 3,
            (w1 >> 20u32) & 3 == (w2 >> 20u32) & 3,
            (w1 >> 22u32) & 3 == (w2 >> 22u32) & 3,
            (w1 >> 24u32) & 3 == (w2 >> 24u32) & 3,
            (w1 >> 26u32) & 3 == (w2 >> 26u32) & 3,
            (w1 >> 28u32) & 3 == (w2 >> 28u32) & 3,
            (w1 >> 30u32) & 3 == (w2 >> 30u32) & 3,
    ;
}

/// Best selectors are unique, so they are the fitted selectors.
pub proof fn lemma_fit_selectors(words: Seq<u32>, pair: u32, w: u32)
    requires
        best_selectors(words, pair, false, w),
    ensures
        fit_selectors(words, pair) == w,
{
    let f = fit_selectors(words, pair);
    assert(best_selectors(words, pair, false, f));
    assert forall|i: int| 0 <= i < 16 implies sel2(f, i) == sel2(w, i) by {
        let four = pair_four(pair, false);
        let x = sel2(f, i) as int;
        let y = sel2(w, i) as int;
        assert(is_best_entry(words[i], pair_a(pair), pair_b(pair), four, x));
        assert(is_best_entry(words[i], pair_a(pair), pair_b(pair), four, y));
        if x < y {
            assert(entry_error(words[i], pair_a(pair), pair_b(pair), four, y) < entry_error(words[i], pair_a(pair), pair_b(pair), four, x));
        } else if y < x {
            assert(entry_error(words[i], pair_a(pair), pair_b(pair), four, x) < entry_error(words[i], pair_a(pair), pair_b(pair), four, y));
        }
    }
    lemma_selectors_unique(f, w);
}

pub proof fn lemma_best_total_monotone(words: Seq<u32>, pair: u32, alpha: bool, m: int, n: int)
    requires
        0 <= m <= n <= 16,
        pair_a(pair) < 65536,
        pair_b(pair) < 65536,
    ensures
        0 <= best_total(words, pair, alpha, m) <= best_total(words, pair, alpha, n) <= 195075 * n,
    decreases n,
{
    if n > 0 {
        let k = n - 1;
        lemma_min_error_is_entry(words[k], pair_a(pair), pair_b(pair), pair_four(pair, alpha));
        let s = choose|s: int|
            0 <= s < crate::refine::entries(pair_four(pair, alpha)) && entry_error(words[k], pair_a(pair), pair_b(pair), pair_four(pair, alpha), s)
                == min_error(words[k], pair_a(pair), pair_b(pair), pair_four(pair, alpha));
        crate::refine::lemma_entry_error_bound(words[k], pair_a(pair), pair_b(pair), pair_four(pair, alpha), s);
        if m < n {
            lemma_best_total_monotone(words, pair, alpha, m, n - 1);
        } else {
            lemma_best_total_monotone(words, pair, alpha, n - 1, n - 1);
        }
    }
}

/// Appending the best selector of pixel `i` keeps the first `i + 1` selectors best.
pub proof fn lemma_push_best(words: Seq<u32>, pair: u32, bits: u32, chosen: u32, i: int)
    requires
        0 <= i < 16,
        bits < (1u32 << (2 * i as u32)),
        chosen < 4,
        forall|k: int| 0 <= k < i ==> is_best_entry(words[k], pair_a(pair), pair_b(pair), pair_four(pair, false), #[trigger] sel2(bits, k) as int),
        is_best_entry(words[i], pair_a(pair), pair_b(pair), pair_four(pair, false), chosen as int),
    ensures
        ({
            let next = bits | (chosen << (2 * i as u32));
            &&& i < 15 ==> next < (1u32 << (2 * (i + 1) as u32))
            &&& forall|k: int| 0 <= k < i + 1 ==> is_best_entry(words[k], pair_a(pair), pair_b(pair), pair_four(pair, false), #[trigger] sel2(next, k) as int)
        }),
{
    let next = bits | (chosen << (2 * i as u32));
    lemma_sel2_push(bits, chosen, i as u32);
    assert forall|k: int| 0 <= k < i + 1 implies is_best_entry(words[k], pair_a(pair), pair_b(pair), pair_four(pair, false), #[trigger] sel2(next, k) as int) by {
        if k < i {
            assert((k as u32) < (i as u32));
            assert(sel2(next, k) == sel2(bits, k));
        } else {
            assert(sel2(next, k) == chosen);
        }
    }
}

/// A full evaluation's error fits comfortably in `u32`.
pub proof fn lemma_full_eval_error_bound(p: [[u8; 4]; 16], a: u16, b: u16, three: bool)
    ensures
        full_eval(p, a, b, three).error <= 195075 * 16,
        full_eval(p, a, b, three).three == three,
{
    reveal(full_eval);
    let (x, y) = ordered(a, b, three);
    lemma_pack_pair(x, y);
    lemma_best_total_monotone(pixel_words(p), pack_pair(x, y), false, 16, 16);
}

/// The pixels of a block as little-endian words.
pub(crate) fn words_of(p: &[[u8; 4]; 16]) -> (r: [u32; 16])
    ensures
        r@ == pixel_words(*p),
{
    let mut out = [0u32; 16];
    let mut i: usize = 0;
    while i < 16
        invariant
            i <= 16,
            forall|k: int| 0 <= k < i ==> out[k] == pixel_words(*p)[k],
        decreases 16 - i,
    {
        let px = p[i];
        out[i] = px[0] as u32 + (px[1] as u32) * 256 + (px[2] as u32) * 65536 + (px[3] as u32) * 16777216;
        i += 1;
    }
    assert(out@ =~= pixel_words(*p));
    out
}

fn order(a: u16, b: u16, three: bool) -> (r: (u16, u16))
    ensures
        r == ordered(a, b, three),
{
    if three {
        if a > b {
            (b, a)
        } else {
            (a, b)
        }
    } else {
        let (x, y) = if a < b {
            (b, a)
        } else {
            (a, b)
        };
        if x == y {
            if y > 0 {
                (x, y - 1)
            } else {
                (1u16, y)
            }
        } else {
            (x, y)
        }
    }
}

/// Evaluate endpoints `a` and `b` in the given mode. Evaluation stops once the error
/// reaches `limit`; a result below `limit` is the full evaluation.
pub(crate) fn evaluate(p: &[[u8; 4]; 16], a: u16, b: u16, three: bool, limit: u32) -> (r: Candidate)
    ensures
        r.three == three,
        (r.a, r.b) == ordered(a, b, three),
        r.error <= full_eval(*p, a, b, three).error,
        (r.error < limit) == (full_eval(*p, a, b, three).error < limit),
        r.error < limit ==> r == full_eval(*p, a, b, three),
{
    let (x, y) = order(a, b, three);
    let pair: u32 = x as u32 + (y as u32) * 65536;
    proof {
        lemma_pack_pair(x, y);
    }
    let pal = palette(pair, false);
    let four = x > y;
    let ghost ga = pair_a(pair);
    let ghost gb = pair_b(pair);
    proof {
        assert forall|s: int, c: int| 0 <= s < 4 && 0 <= c < 3 implies 0 <= #[trigger] pal[s][c] <= 255 by {
            lemma_palette_bounds(ga, gb, four, s, c);
        }
    }
    let words = words_of(p);
    let (sum, bits, complete) = fit(&words, &pal, pair, limit);
    proof {
        reveal(full_eval);
        lemma_best_total_monotone(words@, pair, false, 16, 16);
        if complete {
            lemma_fit_selectors(words@, pair, bits);
        }
    }
    Candidate { a: x, b: y, selectors: bits, error: sum, three }
}

/// Fit selectors to the palette, stopping once the error reaches `limit`.
fn fit(words: &[u32; 16], pal: &[[i32; 3]; 4], pair: u32, limit: u32) -> (r: (u32, u32, bool))
    requires
        pair_a(pair) < 65536,
        pair_b(pair) < 65536,
        forall|s: int, c: int| 0 <= s < 4 && 0 <= c < 3 ==> #[trigger] pal[s][c] == crate::decode::palette_channel(pair_a(pair), pair_b(pair), pair_four(pair, false), s, c),
        forall|s: int, c: int| 0 <= s < 4 && 0 <= c < 3 ==> 0 <= #[trigger] pal[s][c] <= 255,
    ensures
        r.2 ==> r.0 == best_total(words@, pair, false, 16) && r.0 < limit && best_selectors(words@, pair, false, r.1),
        !r.2 ==> r.0 >= limit && limit <= best_total(words@, pair, false, 16),
        r.0 <= best_total(words@, pair, false, 16),
{
    let ghost ga = pair_a(pair);
    let ghost gb = pair_b(pair);
    let four = pair % 65536 > pair / 65536;
    let mut sum: u32 = 0;
    let mut bits: u32 = 0;
    let mut i: usize = 0;
    assert(0u32 < (1u32 << (2 * 0u32))) by (bit_vector);
    while i < 16
        invariant
            i <= 16,
            ga == pair_a(pair),
            gb == pair_b(pair),
            ga < 65536,
            gb < 65536,
            four == pair_four(pair, false),
            forall|s: int, c: int| 0 <= s < 4 && 0 <= c < 3 ==> #[trigger] pal[s][c] == crate::decode::palette_channel(ga, gb, four, s, c),
            forall|s: int, c: int| 0 <= s < 4 && 0 <= c < 3 ==> 0 <= #[trigger] pal[s][c] <= 255,
            sum == best_total(words@, pair, false, i as int),
            i == 0 || sum < limit,
            i < 16 ==> bits < (1u32 << (2 * i as u32)),
            forall|k: int| 0 <= k < i ==> is_best_entry(words@[k], ga, gb, four, #[trigger] sel2(bits, k) as int),
        decreases 16 - i,
    {
        let (best, chosen) = nearest(words[i], pal, Ghost(ga), Ghost(gb), four);
        proof {
            lemma_best_total_monotone(words@, pair, false, i as int, i as int);
            lemma_push_best(words@, pair, bits, chosen, i as int);
        }
        bits = bits | (chosen << (2 * i as u32));
        sum = sum + best;
        i += 1;
        if sum >= limit {
            proof {
                lemma_best_total_monotone(words@, pair, false, i as int, 16);
            }
            return (sum, bits, false);
        }
    }
    (sum, bits, true)
}

/// Keep the trial when it has strictly smaller error.
pub(crate) fn accept(best: &mut Candidate, trial: Candidate)
    ensures
        *final(best) == (if trial.error < old(best).error {
            trial
        } else {
            *old(best)
        }),
{
    if trial.error < best.error {
        *best = trial;
    }
}

/// A five-bit (`six == false`) or six-bit channel value expanded to eight bits.
pub open spec fn expand_bits(q: int, six: bool) -> int {
    if six {
        4 * q + q / 16
    } else {
        8 * q + q / 4
    }
}

/// The channel value nearest to `n / d` (clamped to 0..=255), rounding ties down.
pub open spec fn quantize_value(n: int, d: int, six: bool) -> int {
    let max = if six {
        63
    } else {
        31
    };
    if n <= 0 {
        0
    } else if n >= 255 * d {
        max
    } else {
        let q = (n * max) / (255 * d);
        if q < max && 2 * n > (expand_bits(q, six) + expand_bits(q + 1, six)) * d {
            q + 1
        } else {
            q
        }
    }
}

/// The RGB565 endpoint nearest to the color `(r, g, b) / d`.
pub open spec fn quantize_color(r: int, g: int, b: int, d: int) -> u16 {
    (quantize_value(r, d, false) * 2048 + quantize_value(g, d, true) * 32 + quantize_value(b, d, false)) as u16
}

pub proof fn lemma_quantize_range(n: int, d: int, six: bool)
    requires
        d > 0,
    ensures
        0 <= quantize_value(n, d, six) <= (if six {
            63int
        } else {
            31int
        }),
{
    let max: int = if six {
        63
    } else {
        31
    };
    if 0 < n < 255 * d {
        assert(0 <= n * max < 255 * d * max) by (nonlinear_arith)
            requires
                0 < n < 255 * d,
                max > 0,
        ;
        let q = (n * max) / (255 * d);
        vstd::arithmetic::div_mod::lemma_fundamental_div_mod(n * max, 255 * d);
        vstd::arithmetic::div_mod::lemma_div_pos_is_pos(n * max, 255 * d);
        vstd::arithmetic::div_mod::lemma_mod_bound(n * max, 255 * d);
        if q >= max {
            assert((255 * d) * q >= (255 * d) * max) by (nonlinear_arith)
                requires
                    q >= max,
                    d > 0,
            ;
            assert((255 * d) * max == 255 * d * max) by (nonlinear_arith);
        }
    }
}

proof fn lemma_quantize_bound_q(n: int, d: int, max: int)
    requires
        0 < n < 255 * d,
        d > 0,
        max > 0,
    ensures
        0 <= (n * max) / (255 * d) < max,
{
    let q = (n * max) / (255 * d);
    assert(0 < n * max) by (nonlinear_arith)
        requires
            0 < n,
            max > 0,
    ;
    assert(n * max < 255 * d * max) by (nonlinear_arith)
        requires
            n < 255 * d,
            max > 0,
    ;
    vstd::arithmetic::div_mod::lemma_fundamental_div_mod(n * max, 255 * d);
    vstd::arithmetic::div_mod::lemma_div_pos_is_pos(n * max, 255 * d);
    vstd::arithmetic::div_mod::lemma_mod_bound(n * max, 255 * d);
    if q >= max {
        assert((255 * d) * q >= (255 * d) * max) by (nonlinear_arith)
            requires
                q >= max,
                d > 0,
        ;
        assert((255 * d) * max == 255 * d * max) by (nonlinear_arith);
    }
}

fn quantize_channel(n: i64, d: i64, six: bool) -> (q: u16)
    requires
        -0x1_0000_0000 < n < 0x1_0000_0000,
        0 < d < 0x1_0000_0000,
    ensures
        q == quantize_value(n as int, d as int, six),
        q <= (if six {
            63int
        } else {
            31int
        }),
{
    proof {
        lemma_quantize_range(n as int, d as int, six);
    }
    let max: i64 = if six {
        63
    } else {
        31
    };
    if n <= 0 {
        return 0;
    }
    if n >= 255 * d {
        return max as u16;
    }
    let q = (n * max) / (255 * d);
    let lo = if six {
        4 * q + q / 16
    } else {
        8 * q + q / 4
    };
    let hi = if six {
        4 * (q + 1) + (q + 1) / 16
    } else {
        8 * (q + 1) + (q + 1) / 4
    };
    assert(0 <= q < max) by {
        lemma_quantize_bound_q(n as int, d as int, max as int);
    }
    assert(0 <= lo + hi <= 510);
    assert(0 <= (lo + hi) * d < 0x1000_0000_0000) by (nonlinear_arith)
        requires
            0 <= lo + hi <= 510,
            0 < d < 0x1_0000_0000,
    ;
    if q < max && 2 * n > (lo + hi) * d {
        (q + 1) as u16
    } else {
        q as u16
    }
}

/// Quantize the color `(r, g, b) / d` to RGB565.
fn quantize(r: i64, g: i64, b: i64, d: i64) -> (e: u16)
    requires
        -0x1_0000_0000 < r < 0x1_0000_0000,
        -0x1_0000_0000 < g < 0x1_0000_0000,
        -0x1_0000_0000 < b < 0x1_0000_0000,
        0 < d < 0x1_0000_0000,
    ensures
        e == quantize_color(r as int, g as int, b as int, d as int),
{
    let qr = quantize_channel(r, d, false);
    let qg = quantize_channel(g, d, true);
    let qb = quantize_channel(b, d, false);
    qr * 2048 + qg * 32 + qb
}

/// Weight of the first endpoint in palette entry `s` (out of 2 or 3).
pub open spec fn ls_weight(three: bool, s: int) -> int {
    if three {
        if s == 0 {
            2
        } else if s == 2 {
            1
        } else {
            0
        }
    } else if s == 0 {
        3
    } else if s == 2 {
        2
    } else if s == 3 {
        1
    } else {
        0
    }
}

pub open spec fn ls_scale(three: bool) -> int {
    if three {
        2
    } else {
        3
    }
}

/// Normal-equation sums of the first `n` pixels for the endpoint least-squares fit:
/// `(aa, ab, bb, rhs_a[0..3], rhs_b[0..3])`.
pub open spec fn ls_sums(p: [[u8; 4]; 16], sels: u32, three: bool, n: int) -> Seq<int>
    decreases n,
{
    if n <= 0 {
        seq![0, 0, 0, 0, 0, 0, 0, 0, 0]
    } else {
        let prev = ls_sums(p, sels, three, n - 1);
        let i = n - 1;
        let a = ls_weight(three, sel2(sels, i) as int);
        let b = ls_scale(three) - a;
        seq![
            prev[0] + a * a,
            prev[1] + a * b,
            prev[2] + b * b,
            prev[3] + a * p[i][0],
            prev[4] + a * p[i][1],
            prev[5] + a * p[i][2],
            prev[6] + b * p[i][0],
            prev[7] + b * p[i][1],
            prev[8] + b * p[i][2],
        ]
    }
}

/// Least-squares endpoints for the candidate's selectors, or `None` when the
/// selectors do not determine them.
#[verifier::opaque]
pub open spec fn spec_least_squares(p: [[u8; 4]; 16], c: Candidate) -> Option<(u16, u16)> {
    let m = ls_sums(p, c.selectors, c.three, 16);
    let det = m[0] * m[2] - m[1] * m[1];
    let scale = ls_scale(c.three);
    let sign = if det < 0 {
        -1
    } else {
        1
    };
    if det == 0 {
        None
    } else {
        Some(
            (
                quantize_color(
                    sign * scale * (m[2] * m[3] - m[1] * m[6]),
                    sign * scale * (m[2] * m[4] - m[1] * m[7]),
                    sign * scale * (m[2] * m[5] - m[1] * m[8]),
                    sign * det,
                ),
                quantize_color(
                    sign * scale * (m[0] * m[6] - m[1] * m[3]),
                    sign * scale * (m[0] * m[7] - m[1] * m[4]),
                    sign * scale * (m[0] * m[8] - m[1] * m[5]),
                    sign * det,
                ),
            ),
        )
    }
}

proof fn lemma_small_product(a: int, v: int)
    requires
        0 <= a <= 3,
        0 <= v <= 255,
    ensures
        0 <= a * v <= 765,
{
    assert(0 <= a * v <= 765) by (nonlinear_arith)
        requires
            0 <= a <= 3,
            0 <= v <= 255,
    ;
}

pub proof fn lemma_ls_bounds(p: [[u8; 4]; 16], sels: u32, three: bool, n: int)
    requires
        0 <= n <= 16,
    ensures
        ls_sums(p, sels, three, n).len() == 9,
        forall|k: int| 0 <= k < 3 ==> 0 <= #[trigger] ls_sums(p, sels, three, n)[k] <= 9 * n,
        forall|k: int| 3 <= k < 9 ==> 0 <= #[trigger] ls_sums(p, sels, three, n)[k] <= 765 * n,
    decreases n,
{
    if n > 0 {
        lemma_ls_bounds(p, sels, three, n - 1);
        let i = n - 1;
        let a = ls_weight(three, sel2(sels, i) as int);
        let b = ls_scale(three) - a;
        assert(0 <= a <= 3 && 0 <= b <= 3);
        assert(0 <= a * a <= 9 && 0 <= a * b <= 9 && 0 <= b * b <= 9) by (nonlinear_arith)
            requires
                0 <= a <= 3,
                0 <= b <= 3,
        ;
        lemma_small_product(a, p[i][0] as int);
        lemma_small_product(a, p[i][1] as int);
        lemma_small_product(a, p[i][2] as int);
        lemma_small_product(b, p[i][0] as int);
        lemma_small_product(b, p[i][1] as int);
        lemma_small_product(b, p[i][2] as int);
    }
}

proof fn lemma_product_bound(x: int, y: int)
    requires
        0 <= x <= 144,
        0 <= y <= 12240,
    ensures
        0 <= x * y <= 1762560,
{
    assert(0 <= x * y <= 144 * 12240) by (nonlinear_arith)
        requires
            0 <= x <= 144,
            0 <= y <= 12240,
    ;
}

proof fn lemma_ls_products(aa: int, ab: int, bb: int, r0: int, r1: int, r2: int, s0: int, s1: int, s2: int)
    requires
        0 <= aa <= 144,
        0 <= ab <= 144,
        0 <= bb <= 144,
        0 <= r0 <= 12240,
        0 <= r1 <= 12240,
        0 <= r2 <= 12240,
        0 <= s0 <= 12240,
        0 <= s1 <= 12240,
        0 <= s2 <= 12240,
    ensures
        0 <= aa * bb <= 20736,
        0 <= ab * ab <= 20736,
        0 <= bb * r0 <= 1762560,
        0 <= bb * r1 <= 1762560,
        0 <= bb * r2 <= 1762560,
        0 <= ab * r0 <= 1762560,
        0 <= ab * r1 <= 1762560,
        0 <= ab * r2 <= 1762560,
        0 <= aa * s0 <= 1762560,
        0 <= aa * s1 <= 1762560,
        0 <= aa * s2 <= 1762560,
        0 <= ab * s0 <= 1762560,
        0 <= ab * s1 <= 1762560,
        0 <= ab * s2 <= 1762560,
{
    assert(0 <= aa * bb <= 20736) by (nonlinear_arith)
        requires
            0 <= aa <= 144,
            0 <= bb <= 144,
    ;
    assert(0 <= ab * ab <= 20736) by (nonlinear_arith)
        requires
            0 <= ab <= 144,
    ;
    lemma_product_bound(bb, r0);
    lemma_product_bound(bb, r1);
    lemma_product_bound(bb, r2);
    lemma_product_bound(ab, r0);
    lemma_product_bound(ab, r1);
    lemma_product_bound(ab, r2);
    lemma_product_bound(aa, s0);
    lemma_product_bound(aa, s1);
    lemma_product_bound(aa, s2);
    lemma_product_bound(ab, s0);
    lemma_product_bound(ab, s1);
    lemma_product_bound(ab, s2);
}

fn scaled(sign: i64, scale: i64, t: i64) -> (r: i64)
    requires
        sign == 1 || sign == -1,
        2 <= scale <= 3,
        -2000000 <= t <= 2000000,
    ensures
        r == sign * scale * t,
        -6000000 <= r <= 6000000,
{
    let u: i64 = if scale == 2 {
        2 * t
    } else {
        3 * t
    };
    if sign == 1 {
        u
    } else {
        -u
    }
}

/// Solve for the endpoints that best fit the candidate's selectors.
fn least_squares(p: &[[u8; 4]; 16], best: Candidate) -> (r: Option<(u16, u16)>)
    ensures
        r == spec_least_squares(*p, best),
{
    let three = best.three;
    let scale: i64 = if three {
        2
    } else {
        3
    };
    let mut m = [0i64; 9];
    let mut i: usize = 0;
    while i < 16
        invariant
            i <= 16,
            three == best.three,
            scale == ls_scale(three),
            forall|k: int| 0 <= k < 9 ==> #[trigger] m[k] == ls_sums(*p, best.selectors, three, i as int)[k],
            forall|k: int| 0 <= k < 9 ==> 0 <= #[trigger] m[k] <= 765 * i,
        decreases 16 - i,
    {
        let s = (best.selectors >> (2 * i as u32)) & 3;
        assert(s == sel2(best.selectors, i as int));
        let a: i64 = if three {
            if s == 0 {
                2
            } else if s == 2 {
                1
            } else {
                0
            }
        } else if s == 0 {
            3
        } else if s == 2 {
            2
        } else if s == 3 {
            1
        } else {
            0
        };
        let b: i64 = scale - a;
        let px = p[i];
        let r = px[0] as i64;
        let g = px[1] as i64;
        let bl = px[2] as i64;
        proof {
            assert(0 <= a * a <= 9 && 0 <= a * b <= 9 && 0 <= b * b <= 9) by (nonlinear_arith)
                requires
                    0 <= a <= 3,
                    0 <= b <= 3,
            ;
            lemma_small_product(a as int, r as int);
            lemma_small_product(a as int, g as int);
            lemma_small_product(a as int, bl as int);
            lemma_small_product(b as int, r as int);
            lemma_small_product(b as int, g as int);
            lemma_small_product(b as int, bl as int);
        }
        m = [
            m[0] + a * a,
            m[1] + a * b,
            m[2] + b * b,
            m[3] + a * r,
            m[4] + a * g,
            m[5] + a * bl,
            m[6] + b * r,
            m[7] + b * g,
            m[8] + b * bl,
        ];
        i += 1;
    }
    let ghost mm = ls_sums(*p, best.selectors, three, 16);
    proof {
        lemma_ls_bounds(*p, best.selectors, three, 16);
        assert(m[0] == mm[0] && m[1] == mm[1] && m[2] == mm[2]);
        assert(m[3] == mm[3] && m[4] == mm[4] && m[5] == mm[5]);
        assert(m[6] == mm[6] && m[7] == mm[7] && m[8] == mm[8]);
        assert(0 <= mm[0] <= 144 && 0 <= mm[1] <= 144 && 0 <= mm[2] <= 144);
        assert(0 <= mm[3] <= 12240 && 0 <= mm[4] <= 12240 && 0 <= mm[5] <= 12240);
        assert(0 <= mm[6] <= 12240 && 0 <= mm[7] <= 12240 && 0 <= mm[8] <= 12240);
        lemma_ls_products(m[0] as int, m[1] as int, m[2] as int, m[3] as int, m[4] as int, m[5] as int, m[6] as int, m[7] as int, m[8] as int);
    }
    let det = m[0] * m[2] - m[1] * m[1];
    if det == 0 {
        proof {
            reveal(spec_least_squares);
        }
        return None;
    }
    let sign: i64 = if det < 0 {
        -1
    } else {
        1
    };
    proof {
        lemma_ls_products(m[0] as int, m[1] as int, m[2] as int, m[3] as int, m[4] as int, m[5] as int, m[6] as int, m[7] as int, m[8] as int);
    }
    let d: i64 = if det < 0 {
        -det
    } else {
        det
    };
    proof {
        reveal(spec_least_squares);
        let sign_s: int = if det < 0 {
            -1
        } else {
            1
        };
        let di = det as int;
        if det < 0 {
            assert(sign_s * di == 0 - di) by (nonlinear_arith)
                requires
                    sign_s == -1,
            ;
            assert(d == 0 - di);
        } else {
            assert(sign_s * di == di) by (nonlinear_arith)
                requires
                    sign_s == 1,
            ;
        }
        assert(sign == sign_s);
    }
    let a = quantize(
        scaled(sign, scale, m[2] * m[3] - m[1] * m[6]),
        scaled(sign, scale, m[2] * m[4] - m[1] * m[7]),
        scaled(sign, scale, m[2] * m[5] - m[1] * m[8]),
        d,
    );
    let b = quantize(
        scaled(sign, scale, m[0] * m[6] - m[1] * m[3]),
        scaled(sign, scale, m[0] * m[7] - m[1] * m[4]),
        scaled(sign, scale, m[0] * m[8] - m[1] * m[5]),
        d,
    );
    Some((a, b))
}

/// Sum of channel `c` over the first `n` pixels.
pub open spec fn channel_sum(p: [[u8; 4]; 16], c: int, n: int) -> int
    decreases n,
{
    if n <= 0 {
        0
    } else {
        channel_sum(p, c, n - 1) + p[n - 1][c]
    }
}

/// Rounded mean of channel `c` over the block.
pub open spec fn block_average(p: [[u8; 4]; 16], c: int) -> int {
    (channel_sum(p, c, 16) + 8) / 16
}

/// Number of levels of a five- or six-bit channel.
pub open spec fn levels(six: bool) -> int {
    if six {
        64
    } else {
        32
    }
}

pub open spec fn abs(x: int) -> int {
    if x < 0 {
        -x
    } else {
        x
    }
}

/// How well the endpoint levels `x` and `y` reproduce the value `v` through their first
/// interpolant, with a small penalty for distant endpoints.
pub open spec fn match_cost(v: int, x: int, y: int, six: bool, three: bool) -> int {
    let ex = expand_bits(x, six);
    let ey = expand_bits(y, six);
    let interp = if three {
        (ex + ey) / 2
    } else {
        (2 * ex + ey) / 3
    };
    abs(interp - v) + (abs(ex - ey) * 3) / 100
}

/// Cost of the level pair with flattened index `k` (`y * levels + x`): pairs are taken
/// with the second level outermost.
pub open spec fn pair_cost(v: int, k: int, six: bool, three: bool) -> int {
    if six {
        match_cost(v, k % 64, k / 64, six, three)
    } else {
        match_cost(v, k % 32, k / 32, six, three)
    }
}

/// Number of level pairs.
pub open spec fn pair_total(six: bool) -> int {
    if six {
        4096
    } else {
        1024
    }
}

/// The first least-cost pair among the first `k` level pairs, as `(cost, index)`.
pub open spec fn match_search(v: int, six: bool, three: bool, k: int) -> (int, int)
    decreases k,
{
    if k <= 1 {
        (pair_cost(v, 0, six, three), 0)
    } else {
        let (c, i) = match_search(v, six, three, k - 1);
        let ck = pair_cost(v, k - 1, six, three);
        if ck < c {
            (ck, k - 1)
        } else {
            (c, i)
        }
    }
}

/// Endpoint levels whose first interpolant best reproduces `v`.
pub open spec fn match_levels(v: int, six: bool, three: bool) -> (int, int) {
    let k = match_search(v, six, three, pair_total(six)).1;
    if six {
        (k % 64, k / 64)
    } else {
        (k % 32, k / 32)
    }
}

/// RGB565 value of three channel levels.
pub open spec fn pack565(r: int, g: int, b: int) -> u16 {
    (r * 2048 + g * 32 + b) as u16
}

/// The red, green and blue levels of an RGB565 value.
pub open spec fn unpack565(v: u16) -> (int, int, int) {
    (v as int / 2048, (v as int / 32) % 64, v as int % 32)
}

/// Packing and unpacking RGB565 values invert each other.
pub proof fn lemma_pack_unpack(v: u16, r: int, g: int, b: int)
    requires
        0 <= r < 32,
        0 <= g < 64,
        0 <= b < 32,
    ensures
        pack565(unpack565(v).0, unpack565(v).1, unpack565(v).2) == v,
        unpack565(pack565(r, g, b)) == (r, g, b),
{
    let x = v as int;
    vstd::arithmetic::div_mod::lemma_fundamental_div_mod(x, 32);
    vstd::arithmetic::div_mod::lemma_fundamental_div_mod(x / 32, 64);
    vstd::arithmetic::div_mod::lemma_div_denominator(x, 32, 64);
    assert(x == (x / 2048) * 2048 + ((x / 32) % 64) * 32 + x % 32);
    let y = r * 2048 + g * 32 + b;
    assert(0 <= y < 65536);
    vstd::arithmetic::div_mod::lemma_fundamental_div_mod_converse(y, 32, r * 64 + g, b);
    vstd::arithmetic::div_mod::lemma_fundamental_div_mod_converse(r * 64 + g, 64, r, g);
    vstd::arithmetic::div_mod::lemma_fundamental_div_mod_converse(y, 2048, r, g * 32 + b);
}

/// Single-color fit: endpoints matched channel by channel to the block average.
#[verifier::opaque]
pub open spec fn spec_solid(p: [[u8; 4]; 16], three: bool) -> Candidate {
    let r = match_levels(block_average(p, 0), false, three);
    let g = match_levels(block_average(p, 1), true, three);
    let b = match_levels(block_average(p, 2), false, three);
    full_eval(p, pack565(r.0, g.0, b.0), pack565(r.1, g.1, b.1), three)
}

/// One least-squares improvement step, or `None` when it does not reduce the error.
pub open spec fn polish_step(p: [[u8; 4]; 16], best: Candidate) -> Option<Candidate> {
    let trial = match spec_least_squares(p, best) {
        Some((a, b)) => full_eval(p, a, b, best.three),
        None => spec_solid(p, best.three),
    };
    if trial.error >= best.error {
        None
    } else {
        Some(trial)
    }
}

/// Up to two least-squares improvement steps.
pub open spec fn spec_polish(p: [[u8; 4]; 16], best: Candidate) -> Candidate {
    match polish_step(p, best) {
        None => best,
        Some(next) => match polish_step(p, next) {
            None => next,
            Some(last) => last,
        },
    }
}

pub fn block_averages(p: &[[u8; 4]; 16]) -> (r: [i32; 3])
    ensures
        forall|c: int| 0 <= c < 3 ==> #[trigger] r[c] == block_average(*p, c),
        forall|c: int| 0 <= c < 3 ==> 0 <= #[trigger] r[c] <= 255,
{
    let mut sums = [0i32; 3];
    let mut i: usize = 0;
    while i < 16
        invariant
            i <= 16,
            forall|c: int| 0 <= c < 3 ==> #[trigger] sums[c] == channel_sum(*p, c, i as int),
            forall|c: int| 0 <= c < 3 ==> 0 <= #[trigger] sums[c] <= 255 * i,
        decreases 16 - i,
    {
        let px = p[i];
        sums = [sums[0] + px[0] as i32, sums[1] + px[1] as i32, sums[2] + px[2] as i32];
        i += 1;
    }
    [(sums[0] + 8) / 16, (sums[1] + 8) / 16, (sums[2] + 8) / 16]
}

fn expand_level(q: i32, six: bool) -> (e: i32)
    requires
        0 <= q < 64,
    ensures
        e == expand_bits(q as int, six),
        0 <= e <= 255 || !six && q >= 32,
{
    if six {
        4 * q + q / 16
    } else {
        8 * q + q / 4
    }
}

fn level_cost(v: i32, k: i32, six: bool, three: bool) -> (cost: i32)
    requires
        0 <= v <= 255,
        0 <= k < pair_total(six),
    ensures
        cost == pair_cost(v as int, k as int, six, three),
        0 <= cost <= 1000,
{
    let (x, y) = if six {
        (k % 64, k / 64)
    } else {
        (k % 32, k / 32)
    };
    let ex = expand_level(x, six);
    let ey = expand_level(y, six);
    let interp = if three {
        (ex + ey) / 2
    } else {
        (2 * ex + ey) / 3
    };
    let d = if interp > v {
        interp - v
    } else {
        v - interp
    };
    let spread = if ex > ey {
        ex - ey
    } else {
        ey - ex
    };
    d + spread * 3 / 100
}

/// Endpoint levels whose first interpolant best reproduces `v`.
fn match_pair(v: i32, six: bool, three: bool) -> (r: (i32, i32))
    requires
        0 <= v <= 255,
    ensures
        r.0 == match_levels(v as int, six, three).0,
        r.1 == match_levels(v as int, six, three).1,
        0 <= r.0 < levels(six),
        0 <= r.1 < levels(six),
{
    let total: i32 = if six {
        4096
    } else {
        1024
    };
    let mut best_cost = i32::MAX;
    let mut best: i32 = 0;
    let mut k: i32 = 0;
    while k < total
        invariant
            0 <= k <= total,
            total == pair_total(six),
            0 <= v <= 255,
            k == 0 ==> best_cost == i32::MAX && best == 0,
            k > 0 ==> best_cost == match_search(v as int, six, three, k as int).0,
            k > 0 ==> best == match_search(v as int, six, three, k as int).1,
            k > 0 ==> 0 <= best < k,
            k > 0 ==> best_cost <= 1000,
        decreases total - k,
    {
        let cost = level_cost(v, k, six, three);
        if k == 0 || cost < best_cost {
            best_cost = cost;
            best = k;
        }
        k += 1;
    }
    if six {
        (best % 64, best / 64)
    } else {
        (best % 32, best / 32)
    }
}

/// Single-color fit: endpoints matched channel by channel to the block average.
fn solid(p: &[[u8; 4]; 16], average: [i32; 3], three: bool) -> (r: Candidate)
    requires
        forall|c: int| 0 <= c < 3 ==> #[trigger] average[c] == block_average(*p, c),
        forall|c: int| 0 <= c < 3 ==> 0 <= #[trigger] average[c] <= 255,
    ensures
        r == spec_solid(*p, three),
{
    let red = match_pair(average[0], false, three);
    let green = match_pair(average[1], true, three);
    let blue = match_pair(average[2], false, three);
    let a = (red.0 * 2048 + green.0 * 32 + blue.0) as u16;
    let b = (red.1 * 2048 + green.1 * 32 + blue.1) as u16;
    let r = evaluate(p, a, b, three, u32::MAX);
    proof {
        reveal(spec_solid);
        lemma_full_eval_error_bound(*p, a, b, three);
    }
    r
}

/// Up to two least-squares improvement steps; the result never has larger error.
fn polish(p: &[[u8; 4]; 16], start: Candidate, average: [i32; 3]) -> (r: Candidate)
    requires
        forall|c: int| 0 <= c < 3 ==> #[trigger] average[c] == block_average(*p, c),
        forall|c: int| 0 <= c < 3 ==> 0 <= #[trigger] average[c] <= 255,
    ensures
        r == spec_polish(*p, start),
{
    let mut best = start;
    let mut step: usize = 0;
    while step < 2
        invariant
            step <= 2,
            forall|c: int| 0 <= c < 3 ==> #[trigger] average[c] == block_average(*p, c),
            forall|c: int| 0 <= c < 3 ==> 0 <= #[trigger] average[c] <= 255,
            step == 0 ==> best == start,
            step == 1 ==> polish_step(*p, start) == Some(best),
            step == 2 ==> polish_step(*p, start) is Some && polish_step(*p, polish_step(*p, start)->0) == Some(best),
        decreases 2 - step,
    {
        let ls = least_squares(p, best);
        let trial = match ls {
            Some((a, b)) => evaluate(p, a, b, best.three, best.error),
            None => solid(p, average, best.three),
        };
        proof {
            let spec_trial = match spec_least_squares(*p, best) {
                Some((a, b)) => full_eval(*p, a, b, best.three),
                None => spec_solid(*p, best.three),
            };
            assert(trial.error < best.error ==> trial == spec_trial);
            assert((trial.error < best.error) == (spec_trial.error < best.error));
        }
        if trial.error >= best.error {
            assert(polish_step(*p, best) is None);
            proof {
                if step == 1 {
                    assert(polish_step(*p, start) == Some(best));
                    assert(spec_polish(*p, start) == best);
                } else {
                    assert(spec_polish(*p, start) == start);
                }
            }
            return best;
        }
        assert(polish_step(*p, best) == Some(trial));
        best = trial;
        step += 1;
    }
    best
}

/// Least value of channel `c` among the first `n` pixels.
pub open spec fn channel_min(p: [[u8; 4]; 16], c: int, n: int) -> int
    decreases n,
{
    if n <= 1 {
        p[0][c] as int
    } else if (p[n - 1][c] as int) < channel_min(p, c, n - 1) {
        p[n - 1][c] as int
    } else {
        channel_min(p, c, n - 1)
    }
}

/// Greatest value of channel `c` among the first `n` pixels.
pub open spec fn channel_max(p: [[u8; 4]; 16], c: int, n: int) -> int
    decreases n,
{
    if n <= 1 {
        p[0][c] as int
    } else if (p[n - 1][c] as int) > channel_max(p, c, n - 1) {
        p[n - 1][c] as int
    } else {
        channel_max(p, c, n - 1)
    }
}

/// Covariance (times 16) of channels `c` and `d` over the first `n` pixels, taken about the
/// rounded block averages.
pub open spec fn covariance(p: [[u8; 4]; 16], c: int, d: int, n: int) -> int
    decreases n,
{
    if n <= 0 {
        0
    } else {
        covariance(p, c, d, n - 1) + (p[n - 1][c] - block_average(p, c)) * (p[n - 1][d] - block_average(p, d))
    }
}

/// Component `c` of the starting axis: the channel's extent, negated for red and green when
/// they vary against blue.
pub open spec fn fit_axis(p: [[u8; 4]; 16], c: int) -> int {
    let extent = channel_max(p, c, 16) - channel_min(p, c, 16);
    if c < 2 && covariance(p, c, 2, 16) < 0 {
        -extent
    } else {
        extent
    }
}

/// The covariance matrix of the block applied to an axis.
pub open spec fn apply_covariance(p: [[u8; 4]; 16], a: (int, int, int)) -> (int, int, int) {
    let rr = covariance(p, 0, 0, 16);
    let rg = covariance(p, 0, 1, 16);
    let rb = covariance(p, 0, 2, 16);
    let gg = covariance(p, 1, 1, 16);
    let gb = covariance(p, 1, 2, 16);
    let bb = covariance(p, 2, 2, 16);
    (
        rr * a.0 + rg * a.1 + rb * a.2,
        rg * a.0 + gg * a.1 + gb * a.2,
        rb * a.0 + gb * a.1 + bb * a.2,
    )
}

/// Largest absolute component of an axis.
pub open spec fn magnitude(a: (int, int, int)) -> int {
    let m = if abs(a.0) > abs(a.1) { abs(a.0) } else { abs(a.1) };
    if abs(a.2) > m { abs(a.2) } else { m }
}

/// `x * 2048 / m`, rounded toward zero.
pub open spec fn rescaled(x: int, m: int) -> int {
    if x >= 0 {
        x * 2048 / m
    } else {
        -((-x) * 2048 / m)
    }
}

/// The starting axis after `k` applications of the covariance matrix.
pub open spec fn power_vector(p: [[u8; 4]; 16], k: nat) -> (int, int, int)
    decreases k,
{
    if k == 0 {
        (fit_axis(p, 0), fit_axis(p, 1), fit_axis(p, 2))
    } else {
        apply_covariance(p, power_vector(p, (k - 1) as nat))
    }
}

/// `255^k`: each step of the iteration applies the covariance matrix divided by 255.
pub open spec fn scale_power(k: nat) -> int
    decreases k,
{
    if k == 0 {
        1
    } else {
        255 * scale_power((k - 1) as nat)
    }
}

/// Number of power-iteration steps: six for `high`, else four.
pub open spec fn power_steps(high: bool) -> nat {
    if high {
        6
    } else {
        4
    }
}

/// The principal axis of the block colors: the starting axis after the power iteration
/// with the covariance matrix divided by 255, scaled so that its largest component is 2048
/// in absolute value (rounded toward zero), or a luminance axis when that largest
/// component stays below 2.
pub open spec fn principal_axis(p: [[u8; 4]; 16], high: bool) -> (int, int, int) {
    let k = power_steps(high);
    let v = power_vector(p, k);
    let m = magnitude(v);
    if m < 2 * scale_power(k) {
        (306, 601, 117)
    } else {
        (rescaled(v.0, m), rescaled(v.1, m), rescaled(v.2, m))
    }
}

/// Projection of pixel `i` on the principal axis.
pub open spec fn projection(p: [[u8; 4]; 16], high: bool, i: int) -> int {
    let a = principal_axis(p, high);
    p[i][0] * a.0 + p[i][1] * a.1 + p[i][2] * a.2
}

/// First pixel of least projection among the first `n`.
pub open spec fn low_index(p: [[u8; 4]; 16], high: bool, n: int) -> int
    decreases n,
{
    if n <= 1 {
        0
    } else if projection(p, high, n - 1) < projection(p, high, low_index(p, high, n - 1)) {
        n - 1
    } else {
        low_index(p, high, n - 1)
    }
}

/// Last pixel of greatest projection among the first `n`.
pub open spec fn high_index(p: [[u8; 4]; 16], high: bool, n: int) -> int
    decreases n,
{
    if n <= 1 {
        0
    } else if projection(p, high, n - 1) >= projection(p, high, high_index(p, high, n - 1)) {
        n - 1
    } else {
        high_index(p, high, n - 1)
    }
}

/// Endpoints at the two extreme pixels along the principal axis.
pub open spec fn spec_initial(p: [[u8; 4]; 16], high: bool) -> (u16, u16) {
    let lo = low_index(p, high, 16);
    let hi = high_index(p, high, 16);
    (
        quantize_color(p[lo][0] as int, p[lo][1] as int, p[lo][2] as int, 1),
        quantize_color(p[hi][0] as int, p[hi][1] as int, p[hi][2] as int, 1),
    )
}

/// Endpoints inset one sixteenth of the extent (less half a step) from the bounding box,
/// with red and green flipped when they vary against blue.
pub open spec fn spec_bounding_box(p: [[u8; 4]; 16]) -> (u16, u16) {
    let lo = Seq::new(3, |c: int| 15 * channel_min(p, c, 16) + channel_max(p, c, 16) - 8);
    let hi = Seq::new(3, |c: int| 15 * channel_max(p, c, 16) + channel_min(p, c, 16) + 8);
    let flip = Seq::new(3, |c: int| c < 2 && covariance(p, c, 2, 16) < 0);
    let first = Seq::new(3, |c: int| if flip[c] { hi[c] } else { lo[c] });
    let second = Seq::new(3, |c: int| if flip[c] { lo[c] } else { hi[c] });
    (quantize_color(first[0], first[1], first[2], 16), quantize_color(second[0], second[1], second[2], 16))
}

pub proof fn lemma_channel_extremes(p: [[u8; 4]; 16], c: int, n: int)
    requires
        1 <= n <= 16,
    ensures
        0 <= channel_min(p, c, n) <= channel_max(p, c, n) <= 255,
    decreases n,
{
    if n > 1 {
        lemma_channel_extremes(p, c, n - 1);
    }
}

pub fn extremes(p: &[[u8; 4]; 16]) -> (r: ([i32; 3], [i32; 3]))
    ensures
        forall|c: int| 0 <= c < 3 ==> #[trigger] r.0[c] == channel_min(*p, c, 16),
        forall|c: int| 0 <= c < 3 ==> #[trigger] r.1[c] == channel_max(*p, c, 16),
        forall|c: int| 0 <= c < 3 ==> 0 <= #[trigger] r.0[c] <= r.1[c] <= 255,
{
    let first = p[0];
    let mut lo = [first[0] as i32, first[1] as i32, first[2] as i32];
    let mut hi = lo;
    let mut i: usize = 1;
    while i < 16
        invariant
            1 <= i <= 16,
            forall|c: int| 0 <= c < 3 ==> #[trigger] lo[c] == channel_min(*p, c, i as int),
            forall|c: int| 0 <= c < 3 ==> #[trigger] hi[c] == channel_max(*p, c, i as int),
        decreases 16 - i,
    {
        let px = p[i];
        let mut c: usize = 0;
        while c < 3
            invariant
                c <= 3,
                1 <= i < 16,
                forall|k: int| 0 <= k < c ==> #[trigger] lo[k] == channel_min(*p, k, i + 1),
                forall|k: int| 0 <= k < c ==> #[trigger] hi[k] == channel_max(*p, k, i + 1),
                forall|k: int| c <= k < 3 ==> #[trigger] lo[k] == channel_min(*p, k, i as int),
                forall|k: int| c <= k < 3 ==> #[trigger] hi[k] == channel_max(*p, k, i as int),
                px == p[i as int],
            decreases 3 - c,
        {
            let v = px[c] as i32;
            if v < lo[c] {
                lo[c] = v;
            }
            if v > hi[c] {
                hi[c] = v;
            }
            c += 1;
        }
        i += 1;
    }
    proof {
        lemma_channel_extremes(*p, 0, 16);
        lemma_channel_extremes(*p, 1, 16);
        lemma_channel_extremes(*p, 2, 16);
    }
    (lo, hi)
}

proof fn lemma_deviation_product(x: int, y: int)
    requires
        -255 <= x <= 255,
        -255 <= y <= 255,
    ensures
        -65025 <= x * y <= 65025,
{
    assert(-65025 <= x * y <= 65025) by (nonlinear_arith)
        requires
            -255 <= x <= 255,
            -255 <= y <= 255,
    ;
}

/// Covariances of red and of green with blue.
fn blue_covariances(p: &[[u8; 4]; 16], average: [i32; 3]) -> (r: (i32, i32))
    requires
        forall|c: int| 0 <= c < 3 ==> #[trigger] average[c] == block_average(*p, c),
        forall|c: int| 0 <= c < 3 ==> 0 <= #[trigger] average[c] <= 255,
    ensures
        r.0 == covariance(*p, 0, 2, 16),
        r.1 == covariance(*p, 1, 2, 16),
{
    let mut rb: i32 = 0;
    let mut gb: i32 = 0;
    let mut i: usize = 0;
    while i < 16
        invariant
            i <= 16,
            forall|c: int| 0 <= c < 3 ==> #[trigger] average[c] == block_average(*p, c),
            forall|c: int| 0 <= c < 3 ==> 0 <= #[trigger] average[c] <= 255,
            rb == covariance(*p, 0, 2, i as int),
            gb == covariance(*p, 1, 2, i as int),
            -65025 * i <= rb <= 65025 * i,
            -65025 * i <= gb <= 65025 * i,
        decreases 16 - i,
    {
        let px = p[i];
        let dr = px[0] as i32 - average[0];
        let dg = px[1] as i32 - average[1];
        let db = px[2] as i32 - average[2];
        proof {
            lemma_deviation_product(dr as int, db as int);
            lemma_deviation_product(dg as int, db as int);
        }
        rb = rb + dr * db;
        gb = gb + dg * db;
        i += 1;
    }
    (rb, gb)
}

/// The six distinct entries of the covariance matrix of the block.
fn covariances(p: &[[u8; 4]; 16], average: [i32; 3]) -> (r: [i64; 6])
    requires
        forall|c: int| 0 <= c < 3 ==> #[trigger] average[c] == block_average(*p, c),
        forall|c: int| 0 <= c < 3 ==> 0 <= #[trigger] average[c] <= 255,
    ensures
        r[0] == covariance(*p, 0, 0, 16),
        r[1] == covariance(*p, 0, 1, 16),
        r[2] == covariance(*p, 0, 2, 16),
        r[3] == covariance(*p, 1, 1, 16),
        r[4] == covariance(*p, 1, 2, 16),
        r[5] == covariance(*p, 2, 2, 16),
        forall|k: int| 0 <= k < 6 ==> -1040400 <= #[trigger] r[k] <= 1040400,
{
    let mut cov = [0i64; 6];
    let mut i: usize = 0;
    while i < 16
        invariant
            i <= 16,
            forall|c: int| 0 <= c < 3 ==> #[trigger] average[c] == block_average(*p, c),
            forall|c: int| 0 <= c < 3 ==> 0 <= #[trigger] average[c] <= 255,
            cov[0] == covariance(*p, 0, 0, i as int),
            cov[1] == covariance(*p, 0, 1, i as int),
            cov[2] == covariance(*p, 0, 2, i as int),
            cov[3] == covariance(*p, 1, 1, i as int),
            cov[4] == covariance(*p, 1, 2, i as int),
            cov[5] == covariance(*p, 2, 2, i as int),
            forall|k: int| 0 <= k < 6 ==> -65025 * i <= #[trigger] cov[k] <= 65025 * i,
        decreases 16 - i,
    {
        let px = p[i];
        let dr = (px[0] as i32 - average[0]) as i64;
        let dg = (px[1] as i32 - average[1]) as i64;
        let db = (px[2] as i32 - average[2]) as i64;
        proof {
            lemma_deviation_product(dr as int, dr as int);
            lemma_deviation_product(dr as int, dg as int);
            lemma_deviation_product(dr as int, db as int);
            lemma_deviation_product(dg as int, dg as int);
            lemma_deviation_product(dg as int, db as int);
            lemma_deviation_product(db as int, db as int);
        }
        cov[0] = cov[0] + dr * dr;
        cov[1] = cov[1] + dr * dg;
        cov[2] = cov[2] + dr * db;
        cov[3] = cov[3] + dg * dg;
        cov[4] = cov[4] + dg * db;
        cov[5] = cov[5] + db * db;
        i += 1;
    }
    cov
}

/// Bound on the components of the power-iteration vector after `k` steps.
pub open spec fn vector_bound(k: nat) -> int
    decreases k,
{
    if k == 0 {
        255
    } else {
        3121200 * vector_bound((k - 1) as nat)
    }
}

proof fn lemma_vector_bound(k: nat)
    requires
        k <= 6,
    ensures
        0 < vector_bound(k) <= vector_bound(6),
        vector_bound(6) < axis_limit(),
        k < 6 ==> vector_bound(k + 1) == 3121200 * vector_bound(k),
{
    reveal_with_fuel(vector_bound, 7);
}

proof fn lemma_scale_power(high: bool)
    ensures
        scale_power(power_steps(high)) == (if high {
            274941996890625int
        } else {
            4228250625int
        }),
{
    reveal_with_fuel(scale_power, 7);
}

proof fn lemma_cov_product(c: int, v: int, bound: int)
    requires
        -1040400 <= c <= 1040400,
        -bound <= v <= bound,
    ensures
        -1040400 * bound <= c * v <= 1040400 * bound,
{
    assert(-1040400 * bound <= c * v <= 1040400 * bound) by (nonlinear_arith)
        requires
            -1040400 <= c <= 1040400,
            -bound <= v <= bound,
    ;
}

/// `c0 * v[0] + c1 * v[1] + c2 * v[2]` in wide arithmetic.
fn wide_dot(c0: i64, c1: i64, c2: i64, v: &[Wide; 3], Ghost(bound): Ghost<int>) -> (r: Wide)
    requires
        -1040400 <= c0 <= 1040400,
        -1040400 <= c1 <= 1040400,
        -1040400 <= c2 <= 1040400,
        0 < bound,
        3121200 * bound <= wide_limit(),
        forall|i: int| 0 <= i < 3 ==> (#[trigger] v[i]).ok(),
        forall|i: int| 0 <= i < 3 ==> -bound <= (#[trigger] v[i]).value() <= bound,
    ensures
        r.ok(),
        r.value() == c0 * v[0].value() + c1 * v[1].value() + c2 * v[2].value(),
        -3121200 * bound <= r.value() <= 3121200 * bound,
{
    let ghost x0 = v[0].value();
    let ghost x1 = v[1].value();
    let ghost x2 = v[2].value();
    proof {
        assert(v[0].ok() && v[1].ok() && v[2].ok());
        assert(-bound <= x0 <= bound && -bound <= x1 <= bound && -bound <= x2 <= bound);
        lemma_cov_product(c0 as int, x0, bound);
        lemma_cov_product(c1 as int, x1, bound);
        lemma_cov_product(c2 as int, x2, bound);
    }
    let t0 = v[0].mul(c0);
    let t1 = v[1].mul(c1);
    let t2 = v[2].mul(c2);
    let s = t0.add(t1);
    s.add(t2)
}

/// The covariance matrix applied to a wide axis.
fn wide_apply(p: &[[u8; 4]; 16], cov: &[i64; 6], v: &[Wide; 3], Ghost(bound): Ghost<int>) -> (r: [Wide; 3])
    requires
        cov[0] == covariance(*p, 0, 0, 16),
        cov[1] == covariance(*p, 0, 1, 16),
        cov[2] == covariance(*p, 0, 2, 16),
        cov[3] == covariance(*p, 1, 1, 16),
        cov[4] == covariance(*p, 1, 2, 16),
        cov[5] == covariance(*p, 2, 2, 16),
        forall|k: int| 0 <= k < 6 ==> -1040400 <= #[trigger] cov[k] <= 1040400,
        0 < bound,
        3121200 * bound <= wide_limit(),
        forall|i: int| 0 <= i < 3 ==> (#[trigger] v[i]).ok(),
        forall|i: int| 0 <= i < 3 ==> -bound <= (#[trigger] v[i]).value() <= bound,
    ensures
        forall|i: int| 0 <= i < 3 ==> (#[trigger] r[i]).ok(),
        forall|i: int| 0 <= i < 3 ==> -3121200 * bound <= (#[trigger] r[i]).value() <= 3121200 * bound,
        (r[0].value(), r[1].value(), r[2].value()) == apply_covariance(*p, (v[0].value(), v[1].value(), v[2].value())),
{
    assert(-1040400 <= cov[0] <= 1040400 && -1040400 <= cov[1] <= 1040400 && -1040400 <= cov[2] <= 1040400);
    assert(-1040400 <= cov[3] <= 1040400 && -1040400 <= cov[4] <= 1040400 && -1040400 <= cov[5] <= 1040400);
    let r0 = wide_dot(cov[0], cov[1], cov[2], v, Ghost(bound));
    let r1 = wide_dot(cov[1], cov[3], cov[4], v, Ghost(bound));
    let r2 = wide_dot(cov[2], cov[4], cov[5], v, Ghost(bound));
    [r0, r1, r2]
}

/// `x * 2048 / m` rounded toward zero, for `|x| <= m`.
fn wide_rescale(x: Wide, m: Wide) -> (r: i32)
    requires
        x.ok(),
        m.ok(),
        0 < m.value() < axis_limit(),
        -m.value() <= x.value() <= m.value(),
    ensures
        r == rescaled(x.value(), m.value()),
        -2048 <= r <= 2048,
{
    let ax = x.abs();
    let ghost mv = m.value();
    let ghost xv = ax.value();
    proof {
        assert(0 <= xv * 2048 <= 2048 * mv) by (nonlinear_arith)
            requires
                0 <= xv <= mv,
        ;
    }
    assert(0 <= xv <= mv);
    assert(2048 * xv <= wide_limit());
    let big = ax.mul(2048);
    let mut q: i64 = 0;
    let mut width: i64 = 4096;
    proof {
        assert(big.value() < (q + width) * mv) by (nonlinear_arith)
            requires
                big.value() == 2048 * xv,
                xv <= mv,
                0 < mv,
                q == 0,
                width == 4096,
        ;
    }
    while width > 1
        invariant
            1 <= width <= 4096,
            0 <= q,
            q + width <= 4096,
            big.ok(),
            m.ok(),
            mv == m.value(),
            0 < mv < axis_limit(),
            q * mv <= big.value(),
            big.value() < (q + width) * mv,
        decreases width,
    {
        let low = width / 2;
        let high = width - low;
        let t = q + low;
        proof {
            assert(0 <= t * mv <= 4096 * mv) by (nonlinear_arith)
                requires
                    0 <= t <= 4096,
                    0 < mv,
            ;
        }
        assert(t * mv <= wide_limit());
        let probe = m.mul(t);
        let ghost q0 = q;
        if big.ge(probe) {
            q = t;
            assert(q0 + width == q + high);
            assert((q0 + width) * mv == (q + high) * mv);
        } else {
            assert(big.value() < (q + low) * mv);
            assert((q + low) * mv <= (q + high) * mv) by (nonlinear_arith)
                requires
                    low <= high,
                    0 < mv,
            ;
        }
        width = high;
    }
    proof {
        assert(big.value() < (q + 1) * mv);
        assert((q + 1) * mv == q * mv + mv) by (nonlinear_arith);
        vstd::arithmetic::div_mod::lemma_fundamental_div_mod_converse(big.value(), mv, q as int, big.value() - q * mv);
        assert(q <= 2048) by (nonlinear_arith)
            requires
                q * mv <= big.value(),
                big.value() <= 2048 * mv,
                0 < mv,
        ;
    }
    if x.is_negative() {
        -(q as i32)
    } else {
        q as i32
    }
}

proof fn lemma_projection_bound(v: int, a: int)
    requires
        0 <= v <= 255,
        -2048 <= a <= 2048,
    ensures
        -522240 <= v * a <= 522240,
{
    assert(-522240 <= v * a <= 522240) by (nonlinear_arith)
        requires
            0 <= v <= 255,
            -2048 <= a <= 2048,
    ;
}

fn project(px: [u8; 4], axis: [i32; 3]) -> (r: i32)
    requires
        forall|c: int| 0 <= c < 3 ==> -2048 <= #[trigger] axis[c] <= 2048,
    ensures
        r == px[0] * axis[0] + px[1] * axis[1] + px[2] * axis[2],
{
    proof {
        lemma_projection_bound(px[0] as int, axis[0] as int);
        lemma_projection_bound(px[1] as int, axis[1] as int);
        lemma_projection_bound(px[2] as int, axis[2] as int);
    }
    px[0] as i32 * axis[0] + px[1] as i32 * axis[1] + px[2] as i32 * axis[2]
}

/// The principal axis of the block colors by power iteration from the signed extents.
fn principal(p: &[[u8; 4]; 16], average: [i32; 3], min: [i32; 3], max: [i32; 3], high: bool) -> (r: [i32; 3])
    requires
        forall|c: int| 0 <= c < 3 ==> #[trigger] average[c] == block_average(*p, c),
        forall|c: int| 0 <= c < 3 ==> 0 <= #[trigger] average[c] <= 255,
        forall|c: int| 0 <= c < 3 ==> #[trigger] min[c] == channel_min(*p, c, 16),
        forall|c: int| 0 <= c < 3 ==> #[trigger] max[c] == channel_max(*p, c, 16),
        forall|c: int| 0 <= c < 3 ==> 0 <= #[trigger] min[c] <= max[c] <= 255,
    ensures
        (r[0] as int, r[1] as int, r[2] as int) == principal_axis(*p, high),
        forall|c: int| 0 <= c < 3 ==> -2048 <= #[trigger] r[c] <= 2048,
{
    let cov = covariances(p, average);
    let mut axis: [i64; 3] = [(max[0] - min[0]) as i64, (max[1] - min[1]) as i64, (max[2] - min[2]) as i64];
    if cov[2] < 0 {
        axis[0] = -axis[0];
    }
    if cov[4] < 0 {
        axis[1] = -axis[1];
    }
    assert((axis[0] as int, axis[1] as int, axis[2] as int) == power_vector(*p, 0));
    let mut v = [Wide::from_i64(axis[0]), Wide::from_i64(axis[1]), Wide::from_i64(axis[2])];
    let steps: usize = if high { 6 } else { 4 };
    let mut k: usize = 0;
    proof {
        lemma_vector_bound(0);
    }
    while k < steps
        invariant
            k <= steps,
            steps == power_steps(high),
            cov[0] == covariance(*p, 0, 0, 16),
            cov[1] == covariance(*p, 0, 1, 16),
            cov[2] == covariance(*p, 0, 2, 16),
            cov[3] == covariance(*p, 1, 1, 16),
            cov[4] == covariance(*p, 1, 2, 16),
            cov[5] == covariance(*p, 2, 2, 16),
            forall|j: int| 0 <= j < 6 ==> -1040400 <= #[trigger] cov[j] <= 1040400,
            forall|c: int| 0 <= c < 3 ==> (#[trigger] v[c]).ok(),
            forall|c: int| 0 <= c < 3 ==> -vector_bound(k as nat) <= (#[trigger] v[c]).value() <= vector_bound(k as nat),
            (v[0].value(), v[1].value(), v[2].value()) == power_vector(*p, k as nat),
        decreases steps - k,
    {
        proof {
            lemma_vector_bound(k as nat);
            lemma_vector_bound((k + 1) as nat);
        }
        v = wide_apply(p, &cov, &v, Ghost(vector_bound(k as nat)));
        k += 1;
    }
    proof {
        lemma_vector_bound(steps as nat);
        lemma_scale_power(high);
        assert(v[0].ok() && v[1].ok() && v[2].ok());
    }
    let x = v[0].abs();
    let y = v[1].abs();
    let z = v[2].abs();
    let xy = if y.ge(x) && !x.ge(y) {
        y
    } else {
        x
    };
    let m = if z.ge(xy) && !xy.ge(z) {
        z
    } else {
        xy
    };
    let ghost vv = power_vector(*p, steps as nat);
    assert(m.value() == magnitude(vv));
    let limit: i64 = if high {
        549883993781250
    } else {
        8456501250
    };
    if !m.ge(Wide::from_i64(limit)) {
        return [306, 601, 117];
    }
    [wide_rescale(v[0], m), wide_rescale(v[1], m), wide_rescale(v[2], m)]
}

/// Endpoints at the two extreme pixels along the principal axis.
pub fn initial(p: &[[u8; 4]; 16], average: [i32; 3], min: [i32; 3], max: [i32; 3], high: bool) -> (r: (u16, u16))
    requires
        forall|c: int| 0 <= c < 3 ==> #[trigger] average[c] == block_average(*p, c),
        forall|c: int| 0 <= c < 3 ==> 0 <= #[trigger] average[c] <= 255,
        forall|c: int| 0 <= c < 3 ==> #[trigger] min[c] == channel_min(*p, c, 16),
        forall|c: int| 0 <= c < 3 ==> #[trigger] max[c] == channel_max(*p, c, 16),
        forall|c: int| 0 <= c < 3 ==> 0 <= #[trigger] min[c] <= max[c] <= 255,
    ensures
        r == spec_initial(*p, high),
{
    let axis = principal(p, average, min, max, high);
    let first = project(p[0], axis);
    let mut low: usize = 0;
    let mut low_value = first;
    let mut high_at: usize = 0;
    let mut high_value = first;
    let mut i: usize = 1;
    while i < 16
        invariant
            1 <= i <= 16,
            (axis[0] as int, axis[1] as int, axis[2] as int) == principal_axis(*p, high),
            forall|c: int| 0 <= c < 3 ==> -2048 <= #[trigger] axis[c] <= 2048,
            low == low_index(*p, high, i as int),
            high_at == high_index(*p, high, i as int),
            low_value == projection(*p, high, low as int),
            high_value == projection(*p, high, high_at as int),
            low < 16,
            high_at < 16,
        decreases 16 - i,
    {
        let value = project(p[i], axis);
        if value < low_value {
            low = i;
            low_value = value;
        }
        if value >= high_value {
            high_at = i;
            high_value = value;
        }
        i += 1;
    }
    let lp = p[low];
    let hp = p[high_at];
    (
        quantize(lp[0] as i64, lp[1] as i64, lp[2] as i64, 1),
        quantize(hp[0] as i64, hp[1] as i64, hp[2] as i64, 1),
    )
}

/// Endpoints inset from the bounding box of the block colors.
fn bounding_box(p: &[[u8; 4]; 16], average: [i32; 3], min: [i32; 3], max: [i32; 3]) -> (r: (u16, u16))
    requires
        forall|c: int| 0 <= c < 3 ==> #[trigger] average[c] == block_average(*p, c),
        forall|c: int| 0 <= c < 3 ==> 0 <= #[trigger] average[c] <= 255,
        forall|c: int| 0 <= c < 3 ==> #[trigger] min[c] == channel_min(*p, c, 16),
        forall|c: int| 0 <= c < 3 ==> #[trigger] max[c] == channel_max(*p, c, 16),
        forall|c: int| 0 <= c < 3 ==> 0 <= #[trigger] min[c] <= max[c] <= 255,
    ensures
        r == spec_bounding_box(*p),
{
    let mut lo = [
        15 * min[0] as i64 + max[0] as i64 - 8,
        15 * min[1] as i64 + max[1] as i64 - 8,
        15 * min[2] as i64 + max[2] as i64 - 8,
    ];
    let mut hi = [
        15 * max[0] as i64 + min[0] as i64 + 8,
        15 * max[1] as i64 + min[1] as i64 + 8,
        15 * max[2] as i64 + min[2] as i64 + 8,
    ];
    let (rb, gb) = blue_covariances(p, average);
    if rb < 0 {
        let t = lo[0];
        lo[0] = hi[0];
        hi[0] = t;
    }
    if gb < 0 {
        let t = lo[1];
        lo[1] = hi[1];
        hi[1] = t;
    }
    (quantize(lo[0], lo[1], lo[2], 16), quantize(hi[0], hi[1], hi[2], 16))
}

/// Projection of pixel `i` on the direction from endpoint `a` to endpoint `b`.
pub open spec fn axis_projection(p: [[u8; 4]; 16], a: u16, b: u16, i: int) -> int {
    p[i][0] * (endpoint_channel(b as int, 0) - endpoint_channel(a as int, 0))
        + p[i][1] * (endpoint_channel(b as int, 1) - endpoint_channel(a as int, 1))
        + p[i][2] * (endpoint_channel(b as int, 2) - endpoint_channel(a as int, 2))
}

/// Pixel `j` sorts before pixel `i` along that direction; ties go to the lower index.
pub open spec fn sorts_before(p: [[u8; 4]; 16], a: u16, b: u16, j: int, i: int) -> bool {
    ||| axis_projection(p, a, b, j) < axis_projection(p, a, b, i)
    ||| axis_projection(p, a, b, j) == axis_projection(p, a, b, i) && j < i
}

/// Number of the first `n` pixels that sort before pixel `i`.
pub open spec fn rank_among(p: [[u8; 4]; 16], a: u16, b: u16, i: int, n: int) -> int
    decreases n,
{
    if n <= 0 {
        0
    } else {
        rank_among(p, a, b, i, n - 1) + if sorts_before(p, a, b, n - 1, i) {
            1int
        } else {
            0int
        }
    }
}

/// Position of pixel `i` when the block is sorted along the direction from `a` to `b`.
pub open spec fn rank(p: [[u8; 4]; 16], a: u16, b: u16, i: int) -> int {
    rank_among(p, a, b, i, 16)
}

/// Number of candidate partitions: run sizes are enumerated as base-17 digits.
pub open spec fn partitions(three: bool) -> int {
    if three {
        289
    } else {
        4913
    }
}

/// Sizes of the consecutive runs of partition `q`, from the `a` end to the `b` end; the
/// last run takes the remaining pixels (and is empty for three-color blocks).
pub open spec fn run_sizes(three: bool, q: int) -> (int, int, int, int) {
    if three {
        (q / 17, q % 17, 16 - q / 17 - q % 17, 0)
    } else {
        (q / 289, (q / 17) % 17, q % 17, 16 - q / 289 - (q / 17) % 17 - q % 17)
    }
}

/// Partition `q` is an ordered partition of the sixteen pixels.
pub open spec fn is_partition(three: bool, q: int) -> bool {
    let n = run_sizes(three, q);
    n.2 >= 0 && n.3 >= 0
}

/// Selector of the pixel at sorted position `r`: the runs take the palette entries from
/// endpoint `a` (selector 0) through the interpolants to endpoint `b` (selector 1).
pub open spec fn run_selector(three: bool, n0: int, n1: int, n2: int, r: int) -> u32 {
    if r < n0 {
        0
    } else if r < n0 + n1 {
        2
    } else if !three && r < n0 + n1 + n2 {
        3
    } else {
        1
    }
}

/// Sorted positions of the sixteen pixels along the direction from `a` to `b`.
pub open spec fn sorted_positions(p: [[u8; 4]; 16], a: u16, b: u16) -> Seq<int> {
    Seq::new(16, |i: int| rank(p, a, b, i))
}

/// The run selectors of the first `n` pixels, at sorted positions `pos`, packed two bits
/// per pixel.
pub open spec fn runs_word(three: bool, n0: int, n1: int, n2: int, pos: Seq<int>, n: int) -> u32
    decreases n,
{
    if n <= 0 {
        0
    } else {
        runs_word(three, n0, n1, n2, pos, n - 1) | (run_selector(three, n0, n1, n2, pos[n - 1]) << ((2 * (n - 1)) as u32))
    }
}

/// The selector word that gives every pixel the selector of its run in partition `q`,
/// the pixels sorted along the endpoints of `start`.
pub open spec fn partition_selectors(p: [[u8; 4]; 16], start: Candidate, q: int) -> u32 {
    let n = run_sizes(start.three, q);
    runs_word(start.three, n.0, n.1, n.2, sorted_positions(p, start.a, start.b), 16)
}

/// The trial of partition `q`: the least-squares endpoints for its runs, or the
/// single-color fit when the runs do not determine them.
pub open spec fn partition_trial(p: [[u8; 4]; 16], start: Candidate, q: int) -> Candidate {
    let probe = Candidate { a: 0, b: 0, selectors: partition_selectors(p, start, q), error: 0, three: start.three };
    match spec_least_squares(p, probe) {
        Some((a, b)) => full_eval(p, a, b, start.three),
        None => spec_solid(p, start.three),
    }
}

/// The best candidate after the trials of the first `k` partitions.
pub open spec fn cluster_scan(p: [[u8; 4]; 16], start: Candidate, k: int) -> Candidate
    decreases k,
{
    if k <= 0 {
        start
    } else {
        let best = cluster_scan(p, start, k - 1);
        if is_partition(start.three, k - 1) {
            accepted(best, partition_trial(p, start, k - 1))
        } else {
            best
        }
    }
}

/// Cluster fit: up to `passes` scans over every ordered partition of the pixels, each
/// sorted along the endpoints that the previous scan left, stopping once the error is
/// zero or a scan no longer lowers it.
pub open spec fn spec_cluster(p: [[u8; 4]; 16], best: Candidate, passes: nat) -> Candidate
    decreases passes,
{
    if passes == 0 {
        best
    } else {
        let next = cluster_scan(p, best, partitions(best.three));
        if next.error == 0 || next.error == best.error {
            next
        } else {
            spec_cluster(p, next, (passes - 1) as nat)
        }
    }
}

/// Every endpoint pair recorded in `seen` (as its packed key plus one) evaluates to an
/// error of at least `error`.
spec fn seen_ok(p: [[u8; 4]; 16], seen: [u64; 64], three: bool, error: u32) -> bool {
    forall|s: int|
        0 <= s < 64 && #[trigger] seen[s] != 0 ==> full_eval(
            p,
            ((seen[s] - 1) % 65536) as u16,
            ((seen[s] - 1) / 65536) as u16,
            three,
        ).error >= error
}

/// Swapping the endpoints does not change a full evaluation.
proof fn lemma_full_eval_swap(p: [[u8; 4]; 16], a: u16, b: u16, three: bool)
    ensures
        full_eval(p, a, b, three) == full_eval(p, b, a, three),
{
    reveal(full_eval);
    assert(ordered(a, b, three) == ordered(b, a, three));
}

/// Projections of the pixels on the direction from endpoint `a` to endpoint `b`.
fn projections(p: &[[u8; 4]; 16], a: u16, b: u16) -> (r: [i32; 16])
    ensures
        forall|i: int| 0 <= i < 16 ==> #[trigger] r[i] == axis_projection(*p, a, b, i),
{
    let ea = crate::decode::expand(a);
    let eb = crate::decode::expand(b);
    let d = [eb[0] as i32 - ea[0] as i32, eb[1] as i32 - ea[1] as i32, eb[2] as i32 - ea[2] as i32];
    let mut out = [0i32; 16];
    let mut i: usize = 0;
    while i < 16
        invariant
            i <= 16,
            forall|c: int| 0 <= c < 3 ==> #[trigger] d[c] == endpoint_channel(b as int, c) - endpoint_channel(a as int, c),
            forall|c: int| 0 <= c < 3 ==> -255 <= #[trigger] d[c] <= 255,
            forall|k: int| 0 <= k < i ==> #[trigger] out[k] == axis_projection(*p, a, b, k),
        decreases 16 - i,
    {
        out[i] = project(p[i], d);
        i += 1;
    }
    out
}

/// Sorted positions of the pixels along the direction from endpoint `a` to endpoint `b`.
fn ranks(p: &[[u8; 4]; 16], a: u16, b: u16) -> (r: [u8; 16])
    ensures
        forall|i: int| 0 <= i < 16 ==> #[trigger] r[i] as int == rank(*p, a, b, i),
{
    let proj = projections(p, a, b);
    let mut out = [0u8; 16];
    let mut i: usize = 0;
    while i < 16
        invariant
            i <= 16,
            forall|k: int| 0 <= k < 16 ==> #[trigger] proj[k] == axis_projection(*p, a, b, k),
            forall|k: int| 0 <= k < i ==> #[trigger] out[k] as int == rank(*p, a, b, k),
        decreases 16 - i,
    {
        let mut count: u8 = 0;
        let mut j: usize = 0;
        while j < 16
            invariant
                j <= 16,
                i < 16,
                forall|k: int| 0 <= k < 16 ==> #[trigger] proj[k] == axis_projection(*p, a, b, k),
                count as int == rank_among(*p, a, b, i as int, j as int),
                count <= j,
            decreases 16 - j,
        {
            if proj[j] < proj[i] || (proj[j] == proj[i] && j < i) {
                count += 1;
            }
            j += 1;
        }
        out[i] = count;
        i += 1;
    }
    out
}

/// The selector word that gives the pixel at each sorted position the selector of its run.
fn run_word(rk: &[u8; 16], three: bool, n0: usize, n1: usize, n2: usize) -> (w: u32)
    requires
        n0 <= 16,
        n1 <= 16,
        n2 <= 16,
    ensures
        w == runs_word(three, n0 as int, n1 as int, n2 as int, rk@.map_values(|x: u8| x as int), 16),
{
    let ghost pos = rk@.map_values(|x: u8| x as int);
    let mut bits: u32 = 0;
    let mut i: usize = 0;
    while i < 16
        invariant
            i <= 16,
            n0 <= 16,
            n1 <= 16,
            n2 <= 16,
            pos == rk@.map_values(|x: u8| x as int),
            bits == runs_word(three, n0 as int, n1 as int, n2 as int, pos, i as int),
        decreases 16 - i,
    {
        let r = rk[i] as usize;
        let s: u32 = if r < n0 {
            0
        } else if r < n0 + n1 {
            2
        } else if !three && r < n0 + n1 + n2 {
            3
        } else {
            1
        };
        assert(s == run_selector(three, n0 as int, n1 as int, n2 as int, pos[i as int]));
        bits = bits | (s << (2 * i as u32));
        i += 1;
    }
    bits
}

/// One scan of the cluster fit over every partition along the endpoints of `start`.
fn scan_partitions(p: &[[u8; 4]; 16], start: Candidate, average: [i32; 3], seen: &mut [u64; 64]) -> (r: Candidate)
    requires
        forall|c: int| 0 <= c < 3 ==> #[trigger] average[c] == block_average(*p, c),
        forall|c: int| 0 <= c < 3 ==> 0 <= #[trigger] average[c] <= 255,
        seen_ok(*p, *old(seen), start.three, start.error),
    ensures
        r == cluster_scan(*p, start, partitions(start.three)),
        seen_ok(*p, *final(seen), start.three, r.error),
{
    let three = start.three;
    let rk = ranks(p, start.a, start.b);
    let total: usize = if three {
        289
    } else {
        4913
    };
    let mut best = start;
    let mut q: usize = 0;
    while q < total
        invariant
            q <= total,
            total == partitions(three),
            three == start.three,
            forall|c: int| 0 <= c < 3 ==> #[trigger] average[c] == block_average(*p, c),
            forall|c: int| 0 <= c < 3 ==> 0 <= #[trigger] average[c] <= 255,
            forall|i: int| 0 <= i < 16 ==> #[trigger] rk[i] as int == rank(*p, start.a, start.b, i),
            best == cluster_scan(*p, start, q as int),
            seen_ok(*p, *seen, three, best.error),
        decreases total - q,
    {
        let n0: usize = if three {
            q / 17
        } else {
            q / 289
        };
        let n1: usize = if three {
            q % 17
        } else {
            (q / 17) % 17
        };
        let n2: usize = if three {
            0
        } else {
            q % 17
        };
        let ghost n = run_sizes(three, q as int);
        if n0 + n1 + n2 <= 16 {
            assert(is_partition(three, q as int));
            let third: usize = if three {
                16 - n0 - n1
            } else {
                n2
            };
            let w = run_word(&rk, three, n0, n1, third);
            proof {
                assert(rk@.map_values(|x: u8| x as int) =~= sorted_positions(*p, start.a, start.b));
                assert(n.0 == n0 && n.1 == n1 && n.2 == third);
            }
            let probe = Candidate { a: 0, b: 0, selectors: w, error: 0, three };
            match least_squares(p, probe) {
                None => {
                    let trial = solid(p, average, three);
                    accept(&mut best, trial);
                },
                Some((a, b)) => {
                    let lo = if a < b {
                        a
                    } else {
                        b
                    };
                    let hi = if a < b {
                        b
                    } else {
                        a
                    };
                    // Partitions often give the same endpoints. A pair recorded in `seen` was
                    // evaluated already and cannot beat `best`; a hash collision only
                    // evaluates a pair again.
                    let key: u64 = lo as u64 + (hi as u64) * 65536;
                    let h: u64 = key ^ (key >> 11u64) ^ (key >> 22u64);
                    let slot = (h & 63) as usize;
                    assert(h & 63u64 < 64u64) by (bit_vector);
                    proof {
                        vstd::arithmetic::div_mod::lemma_fundamental_div_mod_converse(key as int, 65536, hi as int, lo as int);
                        lemma_full_eval_swap(*p, a, b, three);
                    }
                    if seen[slot] != key + 1 {
                        seen[slot] = key + 1;
                        let trial = evaluate(p, a, b, three, best.error);
                        accept(&mut best, trial);
                        proof {
                            assert forall|s: int| 0 <= s < 64 && #[trigger] seen[s] != 0 implies full_eval(
                                *p,
                                ((seen[s] - 1) % 65536) as u16,
                                ((seen[s] - 1) / 65536) as u16,
                                three,
                            ).error >= best.error by {
                                if s == slot {
                                    assert(seen[s] - 1 == key);
                                }
                            }
                        }
                    } else {
                        assert(seen[slot as int] - 1 == key);
                    }
                },
            }
        }
        q += 1;
    }
    best
}

proof fn lemma_trial_complete(p: [[u8; 4]; 16], start: Candidate, q: int)
    ensures
        is_complete(p, partition_trial(p, start, q)),
        partition_trial(p, start, q).three == start.three,
{
    let probe = Candidate { a: 0, b: 0, selectors: partition_selectors(p, start, q), error: 0, three: start.three };
    match spec_least_squares(p, probe) {
        Some((a, b)) => lemma_full_eval_complete(p, a, b, start.three),
        None => lemma_solid_complete(p, start.three),
    }
}

/// A scan keeps the mode, and it keeps candidates complete.
proof fn lemma_scan_three(p: [[u8; 4]; 16], start: Candidate, k: int)
    ensures
        cluster_scan(p, start, k).three == start.three,
        is_complete(p, start) ==> is_complete(p, cluster_scan(p, start, k)),
    decreases k,
{
    if k > 0 {
        lemma_scan_three(p, start, k - 1);
        lemma_trial_complete(p, start, k - 1);
    }
}

pub proof fn lemma_cluster_complete(p: [[u8; 4]; 16], start: Candidate, passes: nat)
    requires
        is_complete(p, start),
    ensures
        is_complete(p, spec_cluster(p, start, passes)),
        spec_cluster(p, start, passes).three == start.three,
    decreases passes,
{
    if passes > 0 {
        lemma_scan_three(p, start, partitions(start.three));
        let next = cluster_scan(p, start, partitions(start.three));
        lemma_cluster_complete(p, next, (passes - 1) as nat);
    }
}

/// Cluster fit of up to `passes` scans.
fn cluster(p: &[[u8; 4]; 16], start: Candidate, average: [i32; 3], passes: usize) -> (r: Candidate)
    requires
        forall|c: int| 0 <= c < 3 ==> #[trigger] average[c] == block_average(*p, c),
        forall|c: int| 0 <= c < 3 ==> 0 <= #[trigger] average[c] <= 255,
    ensures
        r == spec_cluster(*p, start, passes as nat),
{
    let mut seen = [0u64; 64];
    let mut best = start;
    let mut pass: usize = 0;
    while pass < passes
        invariant
            pass <= passes,
            forall|c: int| 0 <= c < 3 ==> #[trigger] average[c] == block_average(*p, c),
            forall|c: int| 0 <= c < 3 ==> 0 <= #[trigger] average[c] <= 255,
            spec_cluster(*p, best, (passes - pass) as nat) == spec_cluster(*p, start, passes as nat),
            best.three == start.three,
            seen_ok(*p, seen, start.three, best.error),
        decreases passes - pass,
    {
        let before = best;
        best = scan_partitions(p, before, average, &mut seen);
        proof {
            lemma_scan_three(*p, before, partitions(before.three));
        }
        if best.error == 0 || best.error == before.error {
            return best;
        }
        pass += 1;
    }
    best
}

/// Direction `k` of the endpoint search: a step of -1, 0 or +1 per channel, and the
/// index of the opposite direction.
pub open spec fn spec_direction(k: int) -> (int, int, int, int) {
    if k == 0 {
        (1, 0, 0, 3)
    } else if k == 1 {
        (0, 1, 0, 4)
    } else if k == 2 {
        (0, 0, 1, 5)
    } else if k == 3 {
        (-1, 0, 0, 0)
    } else if k == 4 {
        (0, -1, 0, 1)
    } else if k == 5 {
        (0, 0, -1, 2)
    } else if k == 6 {
        (1, 1, 0, 9)
    } else if k == 7 {
        (1, 0, 1, 10)
    } else if k == 8 {
        (0, 1, 1, 11)
    } else if k == 9 {
        (-1, -1, 0, 6)
    } else if k == 10 {
        (-1, 0, -1, 7)
    } else if k == 11 {
        (0, -1, -1, 8)
    } else if k == 12 {
        (-1, 1, 0, 13)
    } else if k == 13 {
        (1, -1, 0, 12)
    } else if k == 14 {
        (0, -1, 1, 15)
    } else {
        (0, 1, -1, 14)
    }
}

pub open spec fn clamp_level(x: int, max: int) -> int {
    if x < 0 {
        0
    } else if x > max {
        max
    } else {
        x
    }
}

/// Endpoint `e` moved one step per channel by `(dr, dg, db)`, clamped to the RGB565 range.
pub open spec fn moved_endpoint(e: u16, dr: int, dg: int, db: int) -> u16 {
    pack565(
        clamp_level(e / 2048 + dr, 31),
        clamp_level((e / 32) % 64 + dg, 63),
        clamp_level(e % 32 + db, 31),
    )
}

/// Trial `i` of the endpoint search from `best`: directions 0..16 move the second
/// endpoint, 16..32 the first.
pub open spec fn search_trial(p: [[u8; 4]; 16], best: Candidate, i: int) -> Candidate {
    let d = spec_direction(i % 16);
    if i % 32 >= 16 {
        full_eval(p, moved_endpoint(best.a, d.0, d.1, d.2), best.b, best.three)
    } else {
        full_eval(p, best.a, moved_endpoint(best.b, d.0, d.1, d.2), best.three)
    }
}

/// One step of the endpoint search on `(best, last improvement, forbidden direction,
/// stopped)`.
pub open spec fn search_step(p: [[u8; 4]; 16], s: (Candidate, int, int, bool), i: int) -> (Candidate, int, int, bool) {
    if s.3 || s.2 == i % 32 {
        s
    } else {
        let trial = search_trial(p, s.0, i);
        let d = spec_direction(i % 16);
        let (best, last, forbidden) = if trial.error < s.0.error {
            (trial, i, d.3 + if i % 32 >= 16 {
                16int
            } else {
                0int
            })
        } else {
            (s.0, s.1, s.2)
        };
        (best, last, forbidden, i - last > 32)
    }
}

/// State of the endpoint search after `n` steps.
pub open spec fn search_state(p: [[u8; 4]; 16], start: Candidate, n: int) -> (Candidate, int, int, bool)
    decreases n,
{
    if n <= 0 {
        (start, 0, 32, false)
    } else {
        search_step(p, search_state(p, start, n - 1), n - 1)
    }
}

/// Local search over neighboring endpoints until 32 steps bring no improvement.
pub open spec fn spec_search(p: [[u8; 4]; 16], start: Candidate) -> Candidate {
    search_state(p, start, 256).0
}

pub proof fn lemma_search_stopped(p: [[u8; 4]; 16], start: Candidate, n: int, m: int)
    requires
        0 <= n <= m,
        search_state(p, start, n).3,
    ensures
        search_state(p, start, m) == search_state(p, start, n),
    decreases m - n,
{
    if m > n {
        lemma_search_stopped(p, start, n, m - 1);
    }
}

fn direction(k: usize) -> (r: (i32, i32, i32, usize))
    requires
        k < 16,
    ensures
        (r.0 as int, r.1 as int, r.2 as int, r.3 as int) == spec_direction(k as int),
        r.3 < 16,
{
    match k {
        0 => (1, 0, 0, 3),
        1 => (0, 1, 0, 4),
        2 => (0, 0, 1, 5),
        3 => (-1, 0, 0, 0),
        4 => (0, -1, 0, 1),
        5 => (0, 0, -1, 2),
        6 => (1, 1, 0, 9),
        7 => (1, 0, 1, 10),
        8 => (0, 1, 1, 11),
        9 => (-1, -1, 0, 6),
        10 => (-1, 0, -1, 7),
        11 => (0, -1, -1, 8),
        12 => (-1, 1, 0, 13),
        13 => (1, -1, 0, 12),
        14 => (0, -1, 1, 15),
        _ => (0, 1, -1, 14),
    }
}

fn clamp_to(x: i32, max: i32) -> (r: i32)
    requires
        max > 0,
    ensures
        r == clamp_level(x as int, max as int),
{
    if x < 0 {
        0
    } else if x > max {
        max
    } else {
        x
    }
}

fn move_endpoint(e: u16, dr: i32, dg: i32, db: i32) -> (r: u16)
    requires
        -1 <= dr <= 1,
        -1 <= dg <= 1,
        -1 <= db <= 1,
    ensures
        r == moved_endpoint(e, dr as int, dg as int, db as int),
{
    let r = clamp_to((e / 2048) as i32 + dr, 31);
    let g = clamp_to(((e / 32) % 64) as i32 + dg, 63);
    let b = clamp_to((e % 32) as i32 + db, 31);
    (r * 2048 + g * 32 + b) as u16
}

/// Local search over neighboring endpoints until 32 steps bring no improvement.
fn search(p: &[[u8; 4]; 16], start: Candidate) -> (r: Candidate)
    ensures
        r == spec_search(*p, start),
{
    let mut best = start;
    let mut last: usize = 0;
    let mut forbidden: usize = 32;
    let mut i: usize = 0;
    while i < 256
        invariant
            i <= 256,
            last <= i,
            search_state(*p, start, i as int) == (best, last as int, forbidden as int, false),
        decreases 256 - i,
    {
        if forbidden == i % 32 {
            i += 1;
            continue;
        }
        let d = direction(i % 16);
        let trial = if i % 32 >= 16 {
            let a = move_endpoint(best.a, d.0, d.1, d.2);
            evaluate(p, a, best.b, best.three, best.error)
        } else {
            let b = move_endpoint(best.b, d.0, d.1, d.2);
            evaluate(p, best.a, b, best.three, best.error)
        };
        assert(trial.error < best.error ==> trial == search_trial(*p, best, i as int));
        assert((trial.error < best.error) == (search_trial(*p, best, i as int).error < best.error));
        if trial.error < best.error {
            best = trial;
            last = i;
            forbidden = d.3 + if i % 32 >= 16 {
                16
            } else {
                0
            };
        }
        if i - last > 32 {
            proof {
                lemma_search_stopped(*p, start, i + 1, 256);
            }
            return best;
        }
        i += 1;
    }
    best
}

/// All sixteen pixels have the same RGB color.
pub open spec fn all_same_rgb(p: [[u8; 4]; 16]) -> bool {
    forall|i: int, c: int| 0 <= i < 16 && 0 <= c < 3 ==> #[trigger] p[i][c] == p[0][c]
}

/// The trial when it has strictly smaller error, else the current best.
pub open spec fn accepted(best: Candidate, trial: Candidate) -> Candidate {
    if trial.error < best.error {
        trial
    } else {
        best
    }
}

/// Whether three-color candidates are considered.
pub open spec fn uses_three(quality: Quality, allow_three: bool) -> bool {
    allow_three && quality != Quality::Fast
}

/// The color fit of a block: a single-color fit, then (for varied blocks) the principal-axis
/// fit with least-squares polishing, for `High` a bounding-box fit, unless `Fast` a cluster
/// fit, for three-color blocks a clustered three-color axis fit, and for `High` a final
/// neighboring-endpoint search.
pub open spec fn spec_fit_color(p: [[u8; 4]; 16], quality: Quality, allow_three: bool) -> Candidate {
    let three = uses_three(quality, allow_three);
    let best = spec_solid(p, false);
    if all_same_rgb(p) {
        if three {
            accepted(best, spec_solid(p, true))
        } else {
            best
        }
    } else {
        let (a, b) = spec_initial(p, quality == Quality::High);
        let b1 = accepted(best, spec_polish(p, full_eval(p, a, b, false)));
        let b2 = if quality == Quality::High {
            let (c, d) = spec_bounding_box(p);
            accepted(b1, spec_polish(p, full_eval(p, c, d, false)))
        } else {
            b1
        };
        let b3 = if quality != Quality::Fast {
            spec_cluster(p, b2, cluster_passes(quality))
        } else {
            b2
        };
        let b4 = if three {
            accepted(b3, spec_cluster(p, spec_polish(p, full_eval(p, a, b, true)), 1))
        } else {
            b3
        };
        if quality == Quality::High {
            spec_search(p, b4)
        } else {
            b4
        }
    }
}

/// Scans of the four-color cluster fit: two for `High`, one otherwise.
pub open spec fn cluster_passes(quality: Quality) -> nat {
    if quality == Quality::High {
        2
    } else {
        1
    }
}

/// The eight bytes of a color block: endpoints, then selectors, little-endian.
pub open spec fn is_color_block(out: Seq<u8>, at: int, c: Candidate) -> bool {
    &&& le16(out, at) == c.a
    &&& le16(out, at + 2) == c.b
    &&& le32(out, at + 4) == c.selectors
}

fn same_rgb(p: &[[u8; 4]; 16]) -> (r: bool)
    ensures
        r == all_same_rgb(*p),
{
    let first = p[0];
    let mut i: usize = 0;
    while i < 16
        invariant
            i <= 16,
            first == p[0],
            forall|k: int, c: int| 0 <= k < i && 0 <= c < 3 ==> #[trigger] p[k][c] == p[0][c],
        decreases 16 - i,
    {
        let px = p[i];
        if px[0] != first[0] || px[1] != first[1] || px[2] != first[2] {
            assert(!(p[i as int][0] == p[0][0] && p[i as int][1] == p[0][1] && p[i as int][2] == p[0][2]));
            return false;
        }
        i += 1;
    }
    true
}

/// Fit the RGB channels of a block. Three-color candidates (which BC1 decodes with a
/// transparent fourth entry, never selected here) are considered only when allowed.
pub fn fit_color(p: &[[u8; 4]; 16], quality: Quality, allow_three: bool) -> (r: Candidate)
    ensures
        r == spec_fit_color(*p, quality, allow_three),
{
    let average = block_averages(p);
    let three = allow_three && quality != Quality::Fast;
    let mut best = solid(p, average, false);
    if same_rgb(p) {
        if three {
            accept(&mut best, solid(p, average, true));
        }
        return best;
    }
    let (min, max) = extremes(p);
    let (a, b) = initial(p, average, min, max, quality == Quality::High);
    let seed = evaluate(p, a, b, false, u32::MAX);
    proof {
        lemma_full_eval_error_bound(*p, a, b, false);
    }
    accept(&mut best, polish(p, seed, average));
    if quality == Quality::High {
        let (c, d) = bounding_box(p, average, min, max);
        let boxed = evaluate(p, c, d, false, u32::MAX);
        proof {
            lemma_full_eval_error_bound(*p, c, d, false);
        }
        accept(&mut best, polish(p, boxed, average));
    }
    if quality != Quality::Fast {
        let passes: usize = if quality == Quality::High {
            2
        } else {
            1
        };
        best = cluster(p, best, average, passes);
    }
    if three {
        let seed3 = evaluate(p, a, b, true, u32::MAX);
        proof {
            lemma_full_eval_error_bound(*p, a, b, true);
        }
        let polished = polish(p, seed3, average);
        accept(&mut best, cluster(p, polished, average, 1));
    }
    if quality == Quality::High {
        best = search(p, best);
    }
    best
}

/// Encode RGB channels; BC1 punch-through transparency is deliberately excluded.
#[verifier::spinoff_prover]
pub fn encode(p: &[[u8; 4]; 16], quality: Quality, allow_three: bool) -> (out: [u8; 8])
    ensures
        is_color_block(out@, 0, spec_fit_color(*p, quality, allow_three)),
{
    let best = fit_color(p, quality, allow_three);
    let mut out = [0u8; 8];
    out[0] = (best.a % 256) as u8;
    out[1] = (best.a / 256) as u8;
    out[2] = (best.b % 256) as u8;
    out[3] = (best.b / 256) as u8;
    out[4] = (best.selectors % 256) as u8;
    out[5] = ((best.selectors / 256) % 256) as u8;
    out[6] = ((best.selectors / 65536) % 256) as u8;
    out[7] = (best.selectors / 16777216) as u8;
    out
}

pub proof fn lemma_full_eval_complete(p: [[u8; 4]; 16], a: u16, b: u16, three: bool)
    ensures
        is_complete(p, full_eval(p, a, b, three)),
        full_eval(p, a, b, three).three == three,
        three ==> full_eval(p, a, b, three).a <= full_eval(p, a, b, three).b,
        !three ==> full_eval(p, a, b, three).a > full_eval(p, a, b, three).b,
{
    reveal(full_eval);
    let c = full_eval(p, a, b, three);
    assert(ordered(c.a, c.b, three) == (c.a, c.b));
}

pub proof fn lemma_solid_complete(p: [[u8; 4]; 16], three: bool)
    ensures
        is_complete(p, spec_solid(p, three)),
        spec_solid(p, three).three == three,
{
    reveal(spec_solid);
    let r = match_levels(block_average(p, 0), false, three);
    let g = match_levels(block_average(p, 1), true, three);
    let b = match_levels(block_average(p, 2), false, three);
    lemma_full_eval_complete(p, pack565(r.0, g.0, b.0), pack565(r.1, g.1, b.1), three);
}

pub proof fn lemma_polish_complete(p: [[u8; 4]; 16], start: Candidate)
    requires
        is_complete(p, start),
    ensures
        is_complete(p, spec_polish(p, start)),
        spec_polish(p, start).three == start.three,
{
    lemma_polish_step_complete(p, start);
    if let Some(next) = polish_step(p, start) {
        lemma_polish_step_complete(p, next);
    }
}

proof fn lemma_polish_step_complete(p: [[u8; 4]; 16], best: Candidate)
    requires
        is_complete(p, best),
    ensures
        polish_step(p, best) matches Some(next) ==> is_complete(p, next) && next.three == best.three,
{
    match spec_least_squares(p, best) {
        Some((a, b)) => lemma_full_eval_complete(p, a, b, best.three),
        None => lemma_solid_complete(p, best.three),
    }
}

proof fn lemma_search_complete(p: [[u8; 4]; 16], start: Candidate, n: int)
    requires
        is_complete(p, start),
        0 <= n,
    ensures
        is_complete(p, search_state(p, start, n).0),
        search_state(p, start, n).0.three == start.three,
    decreases n,
{
    if n > 0 {
        lemma_search_complete(p, start, n - 1);
        let st = search_state(p, start, n - 1);
        let i = n - 1;
        let d = spec_direction(i % 16);
        lemma_full_eval_complete(p, moved_endpoint(st.0.a, d.0, d.1, d.2), st.0.b, st.0.three);
        lemma_full_eval_complete(p, st.0.a, moved_endpoint(st.0.b, d.0, d.1, d.2), st.0.three);
    }
}

/// The fitted candidate is a full evaluation of its endpoints, and it is a four-color
/// candidate unless three-color candidates are in use.
pub proof fn lemma_fit_color_complete(p: [[u8; 4]; 16], quality: Quality, allow_three: bool)
    ensures
        is_complete(p, spec_fit_color(p, quality, allow_three)),
        !uses_three(quality, allow_three) ==> !spec_fit_color(p, quality, allow_three).three,
{
    let three = uses_three(quality, allow_three);
    lemma_solid_complete(p, false);
    lemma_solid_complete(p, true);
    if !all_same_rgb(p) {
        let (a, b) = spec_initial(p, quality == Quality::High);
        let (c, d) = spec_bounding_box(p);
        lemma_full_eval_complete(p, a, b, false);
        lemma_full_eval_complete(p, a, b, true);
        lemma_full_eval_complete(p, c, d, false);
        lemma_polish_complete(p, full_eval(p, a, b, false));
        lemma_polish_complete(p, full_eval(p, a, b, true));
        lemma_polish_complete(p, full_eval(p, c, d, false));
        let b1 = accepted(spec_solid(p, false), spec_polish(p, full_eval(p, a, b, false)));
        let b2 = if quality == Quality::High {
            accepted(b1, spec_polish(p, full_eval(p, c, d, false)))
        } else {
            b1
        };
        let b3 = if quality != Quality::Fast {
            lemma_cluster_complete(p, b2, cluster_passes(quality));
            spec_cluster(p, b2, cluster_passes(quality))
        } else {
            b2
        };
        lemma_cluster_complete(p, spec_polish(p, full_eval(p, a, b, true)), 1);
        let b4 = if three {
            accepted(b3, spec_cluster(p, spec_polish(p, full_eval(p, a, b, true)), 1))
        } else {
            b3
        };
        lemma_search_complete(p, b4, 256);
    }
}

/// A complete candidate's selectors pick, for every pixel, the first nearest entry of the
/// palette that its endpoints define in BC1 decoding.
pub proof fn lemma_complete_selectors(p: [[u8; 4]; 16], c: Candidate)
    requires
        is_complete(p, c),
    ensures
        best_selectors(pixel_words(p), pack_pair(c.a, c.b), false, c.selectors),
        c.three == (c.a <= c.b),
{
    reveal(full_eval);
    let (x, y) = ordered(c.a, c.b, c.three);
    lemma_pack_pair(x, y);
    let w = choose|w: u32| best_selectors(pixel_words(p), pack_pair(x, y), false, w);
    lemma_best_selectors_exist(pixel_words(p), pack_pair(x, y));
}

/// The selector word of the first nearest entries of the first `n` pixels.
pub open spec fn nearest_word(words: Seq<u32>, pair: u32, n: int) -> u32
    decreases n,
{
    if n <= 0 {
        0
    } else {
        nearest_word(words, pair, n - 1) | ((first_nearest(
            words[n - 1],
            pair_a(pair),
            pair_b(pair),
            pair_four(pair, false),
        ) as u32) << (2 * (n - 1) as u32))
    }
}

pub proof fn lemma_nearest_word(words: Seq<u32>, pair: u32, n: int)
    requires
        0 <= n <= 16,
    ensures
        n < 16 ==> nearest_word(words, pair, n) < (1u32 << (2 * n as u32)),
        forall|k: int| 0 <= k < n ==> is_best_entry(words[k], pair_a(pair), pair_b(pair), pair_four(pair, false), #[trigger] sel2(nearest_word(words, pair, n), k) as int),
    decreases n,
{
    if n == 0 {
        assert(0u32 < (1u32 << (2 * 0u32))) by (bit_vector);
    } else {
        lemma_nearest_word(words, pair, n - 1);
        let i = n - 1;
        let s = first_nearest(words[i], pair_a(pair), pair_b(pair), pair_four(pair, false));
        lemma_first_nearest(words[i], pair_a(pair), pair_b(pair), pair_four(pair, false));
        lemma_push_best(words, pair, nearest_word(words, pair, i), s as u32, i);
    }
}

/// Some selector word picks the first nearest entry for every pixel.
pub proof fn lemma_best_selectors_exist(words: Seq<u32>, pair: u32)
    ensures
        exists|w: u32| best_selectors(words, pair, false, w),
{
    lemma_nearest_word(words, pair, 16);
    assert(best_selectors(words, pair, false, nearest_word(words, pair, 16)));
}

/// The first palette entry nearest to `px`.
pub open spec fn first_nearest(px: u32, a: int, b: int, four: bool) -> int {
    let e = |s: int| entry_error(px, a, b, four, s);
    let s1 = if e(1) < e(0) {
        1int
    } else {
        0int
    };
    let s2 = if e(2) < e(s1) {
        2int
    } else {
        s1
    };
    if four && e(3) < e(s2) {
        3int
    } else {
        s2
    }
}

pub proof fn lemma_first_nearest(px: u32, a: int, b: int, four: bool)
    ensures
        is_best_entry(px, a, b, four, first_nearest(px, a, b, four)),
        0 <= first_nearest(px, a, b, four) < 4,
{
    let s = first_nearest(px, a, b, four);
    assert forall|t: int| 0 <= t < crate::refine::entries(four) implies entry_error(px, a, b, four, s) <= #[trigger] entry_error(px, a, b, four, t) by {
        if t == 0 {
        } else if t == 1 {
        } else if t == 2 {
        } else {
        }
    }
    assert forall|t: int| 0 <= t < s implies entry_error(px, a, b, four, s) < #[trigger] entry_error(px, a, b, four, t) by {
        if t == 0 {
        } else if t == 1 {
        } else {
        }
    }
}

proof fn lemma_polish_no_worse(p: [[u8; 4]; 16], c: Candidate)
    ensures
        spec_polish(p, c).error <= c.error,
{
}

proof fn lemma_scan_no_worse(p: [[u8; 4]; 16], start: Candidate, k: int)
    ensures
        cluster_scan(p, start, k).error <= start.error,
    decreases k,
{
    if k > 0 {
        lemma_scan_no_worse(p, start, k - 1);
    }
}

proof fn lemma_cluster_no_worse(p: [[u8; 4]; 16], best: Candidate, passes: nat)
    ensures
        spec_cluster(p, best, passes).error <= best.error,
    decreases passes,
{
    if passes > 0 {
        lemma_scan_no_worse(p, best, partitions(best.three));
        lemma_cluster_no_worse(p, cluster_scan(p, best, partitions(best.three)), (passes - 1) as nat);
    }
}

proof fn lemma_search_no_worse(p: [[u8; 4]; 16], start: Candidate, n: int)
    ensures
        search_state(p, start, n).0.error <= start.error,
    decreases n,
{
    if n > 0 {
        lemma_search_no_worse(p, start, n - 1);
    }
}

/// The color fit is never worse than the single-color fit; a block of one RGB color gets
/// a single-color fit, and a block whose pixels are not all of one RGB color is never
/// fitted worse than by the endpoints at the extremes of its principal axis.
pub proof fn lemma_fit_color_no_worse(p: [[u8; 4]; 16], quality: Quality, allow_three: bool)
    ensures
        spec_fit_color(p, quality, allow_three).error <= spec_solid(p, false).error,
        (forall|i: int, c: int| 0 <= i < 16 && 0 <= c < 3 ==> #[trigger] p[i][c] == p[0][c]) ==> spec_fit_color(
            p,
            quality,
            allow_three,
        ) == spec_solid(p, false) || spec_fit_color(p, quality, allow_three) == spec_solid(p, true),
        (exists|i: int, c: int| 0 <= i < 16 && 0 <= c < 3 && #[trigger] p[i][c] != p[0][c]) ==> ({
            let (a, b) = spec_initial(p, quality == Quality::High);
            spec_fit_color(p, quality, allow_three).error <= full_eval(p, a, b, false).error
        }),
{
    let three = uses_three(quality, allow_three);
    if exists|i: int, c: int| 0 <= i < 16 && 0 <= c < 3 && #[trigger] p[i][c] != p[0][c] {
        let (i, c) = choose|i: int, c: int| 0 <= i < 16 && 0 <= c < 3 && #[trigger] p[i][c] != p[0][c];
        assert(!all_same_rgb(p));
    }
    if !all_same_rgb(p) {
        let (a, b) = spec_initial(p, quality == Quality::High);
        let (c, d) = spec_bounding_box(p);
        lemma_polish_no_worse(p, full_eval(p, a, b, false));
        let b1 = accepted(spec_solid(p, false), spec_polish(p, full_eval(p, a, b, false)));
        let b2 = if quality == Quality::High {
            accepted(b1, spec_polish(p, full_eval(p, c, d, false)))
        } else {
            b1
        };
        lemma_cluster_no_worse(p, b2, cluster_passes(quality));
        let b3 = if quality != Quality::Fast {
            spec_cluster(p, b2, cluster_passes(quality))
        } else {
            b2
        };
        let b4 = if three {
            accepted(b3, spec_cluster(p, spec_polish(p, full_eval(p, a, b, true)), 1))
        } else {
            b3
        };
        lemma_search_no_worse(p, b4, 256);
    }
}

} // verus!
