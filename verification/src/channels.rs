//! Which pixel channels the encoders read: BC1 ignores alpha, BC4 reads red only and
//! BC5 red and green only.
use vstd::prelude::*;

use crate::color::{
    all_same_rgb, apply_covariance, axis_projection, block_average, channel_max, channel_min,
    channel_sum, cluster_scan, covariance, fit_axis, full_eval, high_index, low_index, ls_sums,
    partition_selectors, partition_trial, partitions, pixel_words, polish_step, power_vector,
    principal_axis, projection, rank_among, search_state, search_step, search_trial,
    sorted_positions, spec_bounding_box, spec_cluster, spec_fit_color, spec_initial,
    spec_least_squares, spec_polish, spec_solid, fit_selectors,
    lemma_best_selectors_exist, lemma_fit_selectors, Candidate,
};
use crate::encode::{
    block_color, channel_values, counted_samples, decoded_error, is_encoded_block, is_encoded_range,
    lemma_block_bytes_determined,
};
use crate::image::{image_block, lemma_image_block, valid_image};
use crate::refine::{best_selectors, best_total, px_channel};
use crate::types::{block_count, spec_block_bytes, spec_encoded_len, Format, Quality};

verus! {

/// The two blocks agree in red, green and blue.
pub open spec fn rgb_agrees(p: [[u8; 4]; 16], q: [[u8; 4]; 16]) -> bool {
    forall|i: int, c: int|
        #![trigger p[i][c]]
        #![trigger q[i][c]]
        0 <= i < 16 && 0 <= c < 3 ==> p[i][c] == q[i][c]
}

/// Red, green and blue of a packed pixel word are its three low bytes.
proof fn lemma_word_channels(r: u8, g: u8, b: u8, a: u8)
    ensures
        ({
            let w = (r as int + 256 * g as int + 65536 * b as int + 16777216 * a as int) as u32;
            &&& px_channel(w, 0) == r
            &&& px_channel(w, 1) == g
            &&& px_channel(w, 2) == b
        }),
{
    let x = r as int + 256 * g as int + 65536 * b as int + 16777216 * a as int;
    let w = x as u32;
    assert(w as int == x);
    vstd::arithmetic::div_mod::lemma_fundamental_div_mod_converse(x, 256, g as int + 256 * b as int + 65536 * a as int, r as int);
    vstd::arithmetic::div_mod::lemma_fundamental_div_mod_converse(x / 256, 256, b as int + 256 * a as int, g as int);
    vstd::arithmetic::div_mod::lemma_fundamental_div_mod_converse(x, 65536, b as int + 256 * a as int, r as int + 256 * g as int);
    vstd::arithmetic::div_mod::lemma_fundamental_div_mod_converse(x / 65536, 256, a as int, b as int);
}

/// The pixel words of blocks that agree in RGB have equal RGB channels.
proof fn lemma_words_agree(p: [[u8; 4]; 16], q: [[u8; 4]; 16])
    requires
        rgb_agrees(p, q),
    ensures
        forall|i: int, c: int|
            #![trigger px_channel(pixel_words(p)[i], c)]
            0 <= i < 16 && 0 <= c < 3 ==> px_channel(pixel_words(p)[i], c) == px_channel(pixel_words(q)[i], c),
{
    assert forall|i: int, c: int| 0 <= i < 16 && 0 <= c < 3 implies #[trigger] px_channel(pixel_words(p)[i], c)
        == px_channel(pixel_words(q)[i], c) by {
        lemma_word_channels(p[i][0], p[i][1], p[i][2], p[i][3]);
        lemma_word_channels(q[i][0], q[i][1], q[i][2], q[i][3]);
        assert(p[i][0] == q[i][0] && p[i][1] == q[i][1] && p[i][2] == q[i][2]);
    }
}

proof fn lemma_best_total_agree(x: Seq<u32>, y: Seq<u32>, pair: u32, alpha: bool, n: int)
    requires
        0 <= n <= 16,
        forall|i: int, c: int|
            #![trigger px_channel(x[i], c)]
            0 <= i < 16 && 0 <= c < 3 ==> px_channel(x[i], c) == px_channel(y[i], c),
    ensures
        best_total(x, pair, alpha, n) == best_total(y, pair, alpha, n),
    decreases n,
{
    if n > 0 {
        lemma_best_total_agree(x, y, pair, alpha, n - 1);
        let i = n - 1;
        assert(px_channel(x[i], 0) == px_channel(y[i], 0));
        assert(px_channel(x[i], 1) == px_channel(y[i], 1));
        assert(px_channel(x[i], 2) == px_channel(y[i], 2));
    }
}

proof fn lemma_best_entry_agree(x: u32, y: u32, a: int, b: int, four: bool, s: int)
    requires
        px_channel(x, 0) == px_channel(y, 0),
        px_channel(x, 1) == px_channel(y, 1),
        px_channel(x, 2) == px_channel(y, 2),
    ensures
        crate::refine::is_best_entry(x, a, b, four, s) == crate::refine::is_best_entry(y, a, b, four, s),
{
    assert forall|t: int|
        #![trigger crate::refine::entry_error(x, a, b, four, t)]
        #![trigger crate::refine::entry_error(y, a, b, four, t)]
        crate::refine::entry_error(x, a, b, four, t) == crate::refine::entry_error(y, a, b, four, t) by {}
}

/// Best selector words for pixel words that agree in RGB coincide.
proof fn lemma_fit_selectors_agree(x: Seq<u32>, y: Seq<u32>, pair: u32)
    requires
        forall|i: int, c: int|
            #![trigger px_channel(x[i], c)]
            0 <= i < 16 && 0 <= c < 3 ==> px_channel(x[i], c) == px_channel(y[i], c),
    ensures
        fit_selectors(x, pair) == fit_selectors(y, pair),
{
    lemma_best_selectors_exist(y, pair);
    let w = fit_selectors(y, pair);
    assert(best_selectors(y, pair, false, w));
    assert forall|i: int| 0 <= i < 16 implies crate::refine::is_best_entry(
        x[i],
        crate::refine::pair_a(pair),
        crate::refine::pair_b(pair),
        crate::refine::pair_four(pair, false),
        #[trigger] crate::bits::sel2(w, i) as int,
    ) by {
        assert(px_channel(x[i], 0) == px_channel(y[i], 0));
        assert(px_channel(x[i], 1) == px_channel(y[i], 1));
        assert(px_channel(x[i], 2) == px_channel(y[i], 2));
        lemma_best_entry_agree(
            x[i],
            y[i],
            crate::refine::pair_a(pair),
            crate::refine::pair_b(pair),
            crate::refine::pair_four(pair, false),
            crate::bits::sel2(w, i) as int,
        );
    }
    assert(best_selectors(x, pair, false, w));
    lemma_fit_selectors(x, pair, w);
}

/// A full evaluation reads only the RGB channels.
pub proof fn lemma_full_eval_agree(p: [[u8; 4]; 16], q: [[u8; 4]; 16], a: u16, b: u16, three: bool)
    requires
        rgb_agrees(p, q),
    ensures
        full_eval(p, a, b, three) == full_eval(q, a, b, three),
{
    lemma_words_agree(p, q);
    let x = pixel_words(p);
    let y = pixel_words(q);
    let (s, t) = crate::color::ordered(a, b, three);
    let pair = crate::color::pack_pair(s, t);
    lemma_best_total_agree(x, y, pair, false, 16);
    lemma_fit_selectors_agree(x, y, pair);
    reveal(full_eval);
}

proof fn lemma_channel_sum_agree(p: [[u8; 4]; 16], q: [[u8; 4]; 16], c: int, n: int)
    requires
        rgb_agrees(p, q),
        0 <= c < 3,
        0 <= n <= 16,
    ensures
        channel_sum(p, c, n) == channel_sum(q, c, n),
    decreases n,
{
    if n > 0 {
        lemma_channel_sum_agree(p, q, c, n - 1);
        assert(p[n - 1][c] == q[n - 1][c]);
    }
}

proof fn lemma_averages_agree(p: [[u8; 4]; 16], q: [[u8; 4]; 16])
    requires
        rgb_agrees(p, q),
    ensures
        block_average(p, 0) == block_average(q, 0),
        block_average(p, 1) == block_average(q, 1),
        block_average(p, 2) == block_average(q, 2),
{
    lemma_channel_sum_agree(p, q, 0, 16);
    lemma_channel_sum_agree(p, q, 1, 16);
    lemma_channel_sum_agree(p, q, 2, 16);
}

proof fn lemma_extremes_agree(p: [[u8; 4]; 16], q: [[u8; 4]; 16], c: int, n: int)
    requires
        rgb_agrees(p, q),
        0 <= c < 3,
        0 <= n <= 16,
    ensures
        channel_min(p, c, n) == channel_min(q, c, n),
        channel_max(p, c, n) == channel_max(q, c, n),
    decreases n,
{
    assert(p[0][c] == q[0][c]);
    if n > 1 {
        lemma_extremes_agree(p, q, c, n - 1);
        assert(p[n - 1][c] == q[n - 1][c]);
    }
}

proof fn lemma_covariance_agree(p: [[u8; 4]; 16], q: [[u8; 4]; 16], c: int, d: int, n: int)
    requires
        rgb_agrees(p, q),
        0 <= c < 3,
        0 <= d < 3,
        0 <= n <= 16,
    ensures
        covariance(p, c, d, n) == covariance(q, c, d, n),
    decreases n,
{
    if n > 0 {
        lemma_covariance_agree(p, q, c, d, n - 1);
        lemma_averages_agree(p, q);
        assert(p[n - 1][c] == q[n - 1][c]);
        assert(p[n - 1][d] == q[n - 1][d]);
    }
}

proof fn lemma_power_vector_agree(p: [[u8; 4]; 16], q: [[u8; 4]; 16], k: nat)
    requires
        rgb_agrees(p, q),
    ensures
        power_vector(p, k) == power_vector(q, k),
    decreases k,
{
    lemma_covariance_agree(p, q, 0, 0, 16);
    lemma_covariance_agree(p, q, 0, 1, 16);
    lemma_covariance_agree(p, q, 0, 2, 16);
    lemma_covariance_agree(p, q, 1, 1, 16);
    lemma_covariance_agree(p, q, 1, 2, 16);
    lemma_covariance_agree(p, q, 2, 2, 16);
    if k == 0 {
        lemma_extremes_agree(p, q, 0, 16);
        lemma_extremes_agree(p, q, 1, 16);
        lemma_extremes_agree(p, q, 2, 16);
        assert(fit_axis(p, 0) == fit_axis(q, 0));
        assert(fit_axis(p, 1) == fit_axis(q, 1));
        assert(fit_axis(p, 2) == fit_axis(q, 2));
    } else {
        lemma_power_vector_agree(p, q, (k - 1) as nat);
        let a = power_vector(p, (k - 1) as nat);
        assert(apply_covariance(p, a) == apply_covariance(q, a));
    }
}

proof fn lemma_index_range(p: [[u8; 4]; 16], high: bool, n: int)
    requires
        1 <= n,
    ensures
        0 <= low_index(p, high, n) < n,
        0 <= high_index(p, high, n) < n,
    decreases n,
{
    if n > 1 {
        lemma_index_range(p, high, n - 1);
    }
}

proof fn lemma_indices_agree(p: [[u8; 4]; 16], q: [[u8; 4]; 16], high: bool, n: int)
    requires
        rgb_agrees(p, q),
        0 <= n <= 16,
        forall|i: int| 0 <= i < 16 ==> #[trigger] projection(p, high, i) == projection(q, high, i),
    ensures
        low_index(p, high, n) == low_index(q, high, n),
        high_index(p, high, n) == high_index(q, high, n),
    decreases n,
{
    if n > 1 {
        lemma_indices_agree(p, q, high, n - 1);
        lemma_index_range(p, high, n - 1);
    }
}

proof fn lemma_initial_agree(p: [[u8; 4]; 16], q: [[u8; 4]; 16], high: bool)
    requires
        rgb_agrees(p, q),
    ensures
        spec_initial(p, high) == spec_initial(q, high),
{
    lemma_power_vector_agree(p, q, crate::color::power_steps(high));
    assert(principal_axis(p, high) == principal_axis(q, high));
    assert forall|i: int| 0 <= i < 16 implies #[trigger] projection(p, high, i) == projection(q, high, i) by {
        assert(p[i][0] == q[i][0] && p[i][1] == q[i][1] && p[i][2] == q[i][2]);
    }
    lemma_indices_agree(p, q, high, 16);
    lemma_index_range(p, high, 16);
    let lo = low_index(p, high, 16);
    let hi = high_index(p, high, 16);
    assert(p[lo][0] == q[lo][0] && p[lo][1] == q[lo][1] && p[lo][2] == q[lo][2]);
    assert(p[hi][0] == q[hi][0] && p[hi][1] == q[hi][1] && p[hi][2] == q[hi][2]);
}

proof fn lemma_bounding_box_agree(p: [[u8; 4]; 16], q: [[u8; 4]; 16])
    requires
        rgb_agrees(p, q),
    ensures
        spec_bounding_box(p) == spec_bounding_box(q),
{
    lemma_extremes_agree(p, q, 0, 16);
    lemma_extremes_agree(p, q, 1, 16);
    lemma_extremes_agree(p, q, 2, 16);
    lemma_covariance_agree(p, q, 0, 2, 16);
    lemma_covariance_agree(p, q, 1, 2, 16);
    lemma_covariance_agree(p, q, 2, 2, 16);
}

proof fn lemma_ls_sums_agree(p: [[u8; 4]; 16], q: [[u8; 4]; 16], sels: u32, three: bool, n: int)
    requires
        rgb_agrees(p, q),
        0 <= n <= 16,
    ensures
        ls_sums(p, sels, three, n) == ls_sums(q, sels, three, n),
    decreases n,
{
    if n > 0 {
        lemma_ls_sums_agree(p, q, sels, three, n - 1);
        let i = n - 1;
        assert(p[i][0] == q[i][0] && p[i][1] == q[i][1] && p[i][2] == q[i][2]);
    }
}

proof fn lemma_least_squares_agree(p: [[u8; 4]; 16], q: [[u8; 4]; 16], c: Candidate)
    requires
        rgb_agrees(p, q),
    ensures
        spec_least_squares(p, c) == spec_least_squares(q, c),
{
    lemma_ls_sums_agree(p, q, c.selectors, c.three, 16);
    reveal(spec_least_squares);
}

proof fn lemma_solid_agree(p: [[u8; 4]; 16], q: [[u8; 4]; 16], three: bool)
    requires
        rgb_agrees(p, q),
    ensures
        spec_solid(p, three) == spec_solid(q, three),
{
    lemma_averages_agree(p, q);
    reveal(spec_solid);
    let r = crate::color::match_levels(block_average(p, 0), false, three);
    let g = crate::color::match_levels(block_average(p, 1), true, three);
    let b = crate::color::match_levels(block_average(p, 2), false, three);
    lemma_full_eval_agree(p, q, crate::color::pack565(r.0, g.0, b.0), crate::color::pack565(r.1, g.1, b.1), three);
}

proof fn lemma_polish_step_agree(p: [[u8; 4]; 16], q: [[u8; 4]; 16], best: Candidate)
    requires
        rgb_agrees(p, q),
    ensures
        polish_step(p, best) == polish_step(q, best),
{
    lemma_least_squares_agree(p, q, best);
    lemma_solid_agree(p, q, best.three);
    if let Some((a, b)) = spec_least_squares(p, best) {
        lemma_full_eval_agree(p, q, a, b, best.three);
    }
}

proof fn lemma_polish_agree(p: [[u8; 4]; 16], q: [[u8; 4]; 16], best: Candidate)
    requires
        rgb_agrees(p, q),
    ensures
        spec_polish(p, best) == spec_polish(q, best),
{
    lemma_polish_step_agree(p, q, best);
    if let Some(next) = polish_step(p, best) {
        lemma_polish_step_agree(p, q, next);
    }
}

proof fn lemma_rank_agree(p: [[u8; 4]; 16], q: [[u8; 4]; 16], a: u16, b: u16, i: int, n: int)
    requires
        rgb_agrees(p, q),
        0 <= i < 16,
        0 <= n <= 16,
    ensures
        rank_among(p, a, b, i, n) == rank_among(q, a, b, i, n),
    decreases n,
{
    if n > 0 {
        lemma_rank_agree(p, q, a, b, i, n - 1);
        let j = n - 1;
        assert(p[j][0] == q[j][0] && p[j][1] == q[j][1] && p[j][2] == q[j][2]);
        assert(p[i][0] == q[i][0] && p[i][1] == q[i][1] && p[i][2] == q[i][2]);
        assert(axis_projection(p, a, b, j) == axis_projection(q, a, b, j));
        assert(axis_projection(p, a, b, i) == axis_projection(q, a, b, i));
    }
}

proof fn lemma_trial_agree(p: [[u8; 4]; 16], q: [[u8; 4]; 16], start: Candidate, k: int)
    requires
        rgb_agrees(p, q),
    ensures
        partition_trial(p, start, k) == partition_trial(q, start, k),
{
    assert forall|i: int| 0 <= i < 16 implies #[trigger] sorted_positions(p, start.a, start.b)[i] == sorted_positions(
        q,
        start.a,
        start.b,
    )[i] by {
        lemma_rank_agree(p, q, start.a, start.b, i, 16);
    }
    assert(sorted_positions(p, start.a, start.b) =~= sorted_positions(q, start.a, start.b));
    assert(partition_selectors(p, start, k) == partition_selectors(q, start, k));
    let probe = Candidate { a: 0, b: 0, selectors: partition_selectors(p, start, k), error: 0, three: start.three };
    lemma_least_squares_agree(p, q, probe);
    lemma_solid_agree(p, q, start.three);
    if let Some((a, b)) = spec_least_squares(p, probe) {
        lemma_full_eval_agree(p, q, a, b, start.three);
    }
}

proof fn lemma_scan_agree(p: [[u8; 4]; 16], q: [[u8; 4]; 16], start: Candidate, k: int)
    requires
        rgb_agrees(p, q),
    ensures
        cluster_scan(p, start, k) == cluster_scan(q, start, k),
    decreases k,
{
    if k > 0 {
        lemma_scan_agree(p, q, start, k - 1);
        lemma_trial_agree(p, q, start, k - 1);
    }
}

proof fn lemma_cluster_agree(p: [[u8; 4]; 16], q: [[u8; 4]; 16], best: Candidate, passes: nat)
    requires
        rgb_agrees(p, q),
    ensures
        spec_cluster(p, best, passes) == spec_cluster(q, best, passes),
    decreases passes,
{
    if passes > 0 {
        lemma_scan_agree(p, q, best, partitions(best.three));
        lemma_cluster_agree(p, q, cluster_scan(p, best, partitions(best.three)), (passes - 1) as nat);
    }
}

proof fn lemma_search_agree(p: [[u8; 4]; 16], q: [[u8; 4]; 16], start: Candidate, n: int)
    requires
        rgb_agrees(p, q),
    ensures
        search_state(p, start, n) == search_state(q, start, n),
    decreases n,
{
    if n > 0 {
        lemma_search_agree(p, q, start, n - 1);
        let st = search_state(p, start, n - 1);
        let i = n - 1;
        let d = crate::color::spec_direction(i % 16);
        lemma_full_eval_agree(p, q, crate::color::moved_endpoint(st.0.a, d.0, d.1, d.2), st.0.b, st.0.three);
        lemma_full_eval_agree(p, q, st.0.a, crate::color::moved_endpoint(st.0.b, d.0, d.1, d.2), st.0.three);
        assert(search_trial(p, st.0, i) == search_trial(q, st.0, i));
        assert(search_step(p, st, i) == search_step(q, st, i));
    }
}

/// The color fit reads only the red, green and blue channels: blocks that agree in them
/// get the same fit, whatever their alpha.
pub proof fn lemma_fit_color_reads_rgb(p: [[u8; 4]; 16], q: [[u8; 4]; 16], quality: Quality, allow_three: bool)
    requires
        rgb_agrees(p, q),
    ensures
        spec_fit_color(p, quality, allow_three) == spec_fit_color(q, quality, allow_three),
{
    lemma_solid_agree(p, q, false);
    lemma_solid_agree(p, q, true);
    assert(all_same_rgb(p) == all_same_rgb(q)) by {
        assert(p[0][0] == q[0][0] && p[0][1] == q[0][1] && p[0][2] == q[0][2]);
    }
    if !all_same_rgb(p) {
        let three = crate::color::uses_three(quality, allow_three);
        let high = quality == Quality::High;
        lemma_initial_agree(p, q, high);
        lemma_bounding_box_agree(p, q);
        let (a, b) = spec_initial(p, high);
        let (c, d) = spec_bounding_box(p);
        lemma_full_eval_agree(p, q, a, b, false);
        lemma_full_eval_agree(p, q, a, b, true);
        lemma_full_eval_agree(p, q, c, d, false);
        lemma_polish_agree(p, q, full_eval(p, a, b, false));
        lemma_polish_agree(p, q, full_eval(p, a, b, true));
        lemma_polish_agree(p, q, full_eval(p, c, d, false));
        let b1 = crate::color::accepted(spec_solid(p, false), spec_polish(p, full_eval(p, a, b, false)));
        let b2 = if high {
            crate::color::accepted(b1, spec_polish(p, full_eval(p, c, d, false)))
        } else {
            b1
        };
        lemma_cluster_agree(p, q, b2, crate::color::cluster_passes(quality));
        lemma_cluster_agree(p, q, spec_polish(p, full_eval(p, a, b, true)), 1);
        let b3 = if quality != Quality::Fast {
            spec_cluster(p, b2, crate::color::cluster_passes(quality))
        } else {
            b2
        };
        let b4 = if three {
            crate::color::accepted(b3, spec_cluster(p, spec_polish(p, full_eval(p, a, b, true)), 1))
        } else {
            b3
        };
        lemma_search_agree(p, q, b4, 256);
    }
}

/// Format `format` encodes channel `c` of each pixel: red, green and blue for BC1, all
/// four for BC3, red for BC4, red and green for BC5.
pub open spec fn reads_channel(format: Format, c: int) -> bool {
    match format {
        Format::Bc1 => c < 3,
        Format::Bc3 => c < 4,
        Format::Bc4 => c == 0,
        Format::Bc5 => c < 2,
    }
}

/// The two blocks agree in every channel that `format` encodes.
pub open spec fn agree_in_read(format: Format, p: [[u8; 4]; 16], q: [[u8; 4]; 16]) -> bool {
    forall|i: int, c: int|
        #![trigger p[i][c]]
        #![trigger q[i][c]]
        0 <= i < 16 && 0 <= c < 4 && reads_channel(format, c) ==> p[i][c] == q[i][c]
}

/// The first `n` RGBA8 pixels of the two images agree in every channel that `format`
/// encodes.
pub open spec fn images_agree_in_read(format: Format, rgba: Seq<u8>, other: Seq<u8>, n: int) -> bool {
    forall|j: int, c: int|
        0 <= j < n && 0 <= c < 4 && reads_channel(format, c) ==> #[trigger] rgba[4 * j + c] == other[4 * j + c]
}

proof fn lemma_decoded_error_agree(p: [[u8; 4]; 16], q: [[u8; 4]; 16], c: Candidate, n: int)
    requires
        rgb_agrees(p, q),
        0 <= n <= 16,
    ensures
        decoded_error(p, Format::Bc1, c, n) == decoded_error(q, Format::Bc1, c, n),
        counted_samples(p, Format::Bc1, n) == counted_samples(q, Format::Bc1, n),
    decreases n,
{
    if n > 0 {
        lemma_decoded_error_agree(p, q, c, n - 1);
        let i = n - 1;
        assert(p[i][0] == q[i][0] && p[i][1] == q[i][1] && p[i][2] == q[i][2]);
    }
}

/// The encoding of a block reads only the channels of its format: a block that agrees
/// with an encoded block in those channels has the same encoding.
pub proof fn lemma_block_reads_used_channels(
    format: Format,
    quality: Quality,
    p: [[u8; 4]; 16],
    q: [[u8; 4]; 16],
    out: Seq<u8>,
    at: int,
)
    requires
        agree_in_read(format, p, q),
        is_encoded_block(format, quality, p, out, at),
    ensures
        is_encoded_block(format, quality, q, out, at),
{
    match format {
        Format::Bc1 => {
            assert(rgb_agrees(p, q));
            lemma_fit_color_reads_rgb(p, q, quality, true);
            lemma_fit_color_reads_rgb(p, q, Quality::High, true);
            lemma_decoded_error_agree(p, q, spec_fit_color(p, quality, true), 16);
            lemma_decoded_error_agree(p, q, spec_fit_color(p, Quality::High, true), 16);
            assert(block_color(p, format, quality) == block_color(q, format, quality));
        },
        Format::Bc3 => {
            assert forall|i: int| 0 <= i < 16 implies p[i] =~= q[i] by {
                assert(p[i][0] == q[i][0] && p[i][1] == q[i][1] && p[i][2] == q[i][2] && p[i][3] == q[i][3]);
            }
            assert(p =~= q);
        },
        Format::Bc4 => {
            assert(channel_values(p, 0) =~= channel_values(q, 0));
        },
        Format::Bc5 => {
            assert(channel_values(p, 0) =~= channel_values(q, 0));
            assert(channel_values(p, 1) =~= channel_values(q, 1));
        },
    }
}

proof fn lemma_image_blocks_agree(format: Format, width: u32, height: u32, rgba: Seq<u8>, other: Seq<u8>, k: int)
    requires
        0 <= k,
        valid_image(width, height, rgba.len() as int),
        other.len() == rgba.len(),
        images_agree_in_read(format, rgba, other, (width as int) * (height as int)),
    ensures
        agree_in_read(format, image_block(width, height, rgba, k), image_block(width, height, other, k)),
{
    let b1 = image_block(width, height, rgba, k);
    let b2 = image_block(width, height, other, k);
    lemma_image_block(width, height, rgba, k);
    lemma_image_block(width, height, other, k);
    assert forall|p: int, c: int| 0 <= p < 16 && 0 <= c < 4 && reads_channel(format, c) implies #[trigger] b1[p][c]
        == b2[p][c] by {
        let cols = crate::types::blocks_along(width) as int;
        let w = width as int;
        let h = height as int;
        let x = crate::image::clamp_below((k % cols) * 4 + p % 4, w);
        let y = crate::image::clamp_below((k / cols) * 4 + p / 4, h);
        assert(cols > 0);
        vstd::arithmetic::div_mod::lemma_mod_bound(k, cols);
        vstd::arithmetic::div_mod::lemma_div_pos_is_pos(k, cols);
        assert(0 <= x < w && 0 <= y < h);
        crate::image::lemma_pixel_in_bounds(w, h, x, y);
        let m = y * w + x;
        assert(crate::image::source_offset(width, height, k, p) == 4 * m);
        assert(rgba[4 * m + c] == other[4 * m + c]);
    }
}

/// Byte `i` of the encodings of two images that agree in the channels read.
#[verifier::rlimit(40)]
proof fn lemma_reads_byte(
    format: Format,
    quality: Quality,
    width: u32,
    height: u32,
    rgba: Seq<u8>,
    other: Seq<u8>,
    out: Seq<u8>,
    out_other: Seq<u8>,
    i: int,
)
    requires
        valid_image(width, height, rgba.len() as int),
        other.len() == rgba.len(),
        images_agree_in_read(format, rgba, other, (width as int) * (height as int)),
        out.len() == spec_encoded_len(format, width, height),
        out_other.len() == out.len(),
        is_encoded_range(format, quality, width, height, rgba, 0, block_count(width, height) as int, out),
        is_encoded_range(format, quality, width, height, other, 0, block_count(width, height) as int, out_other),
        0 <= i < out.len(),
    ensures
        out[i] == out_other[i],
{
    let bb = spec_block_bytes(format) as int;
    let n = block_count(width, height) as int;
    let k = i / bb;
    let t = i % bb;
    vstd::arithmetic::div_mod::lemma_fundamental_div_mod(i, bb);
    vstd::arithmetic::div_mod::lemma_div_pos_is_pos(i, bb);
    vstd::arithmetic::div_mod::lemma_mod_bound(i, bb);
    if k >= n {
        assert(bb * k >= bb * n) by (nonlinear_arith)
            requires
                k >= n,
                bb > 0,
        ;
    }
    assert(0 <= k < n);
    assert(k * bb + bb <= n * bb) by (nonlinear_arith)
        requires
            k < n,
            bb > 0,
    ;
    let b1 = image_block(width, height, rgba, 0 + k);
    let b2 = image_block(width, height, other, 0 + k);
    assert(is_encoded_block(format, quality, b1, out, k * bb));
    assert(is_encoded_block(format, quality, b2, out_other, k * bb));
    lemma_image_blocks_agree(format, width, height, rgba, other, k);
    lemma_block_reads_used_channels(format, quality, b1, b2, out, k * bb);
    lemma_block_bytes_determined(format, quality, b2, out, k * bb, out_other, k * bb);
    assert(out.subrange(k * bb, k * bb + bb)[t] == out_other.subrange(k * bb, k * bb + bb)[t]);
}

/// Encoding reads only the channels of its format: BC1 ignores alpha, BC4 reads red and
/// BC5 red and green. Images that agree in those channels encode to the same bytes.
pub proof fn lemma_encoding_reads_used_channels(
    format: Format,
    quality: Quality,
    width: u32,
    height: u32,
    rgba: Seq<u8>,
    other: Seq<u8>,
    out: Seq<u8>,
    out_other: Seq<u8>,
)
    requires
        valid_image(width, height, rgba.len() as int),
        other.len() == rgba.len(),
        images_agree_in_read(format, rgba, other, (width as int) * (height as int)),
        out.len() == spec_encoded_len(format, width, height),
        out_other.len() == out.len(),
        is_encoded_range(format, quality, width, height, rgba, 0, block_count(width, height) as int, out),
        is_encoded_range(format, quality, width, height, other, 0, block_count(width, height) as int, out_other),
    ensures
        out == out_other,
{
    assert forall|i: int| 0 <= i < out.len() implies out[i] == out_other[i] by {
        lemma_reads_byte(format, quality, width, height, rgba, other, out, out_other, i);
    }
    assert(out =~= out_other);
}

} // verus!
