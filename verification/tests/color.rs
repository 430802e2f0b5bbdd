use rgbcx::color::{block_averages, encode as encode_color, extremes, fit_color, initial};
use rgbcx::{decode, encode, Format, Quality};

#[test]
fn uniform_red_block_encodes_to_known_bytes() {
    // Red matches 31/31 exactly and green/blue 0/0; equal four-color endpoints are
    // separated by one step of the second endpoint, and every pixel takes entry 0.
    let rgba: Vec<u8> = [255, 0, 0, 255].repeat(16);
    for quality in [Quality::Fast, Quality::Balanced, Quality::High] {
        assert_eq!(
            encode(4, 4, &rgba, Format::Bc1, quality).unwrap(),
            vec![0x00, 0xF8, 0xFF, 0xF7, 0, 0, 0, 0]
        );
    }
}

#[test]
fn two_color_block_is_exact() {
    let pixels: [[u8; 4]; 16] =
        std::array::from_fn(|i| if i % 3 == 0 { [255, 255, 255, 255] } else { [0, 0, 0, 255] });
    let rgba: Vec<u8> = pixels.iter().flatten().copied().collect();
    for quality in [Quality::Fast, Quality::Balanced, Quality::High] {
        let block = encode(4, 4, &rgba, Format::Bc1, quality).unwrap();
        assert_eq!(decode(4, 4, &block, Format::Bc1).unwrap(), rgba, "{quality:?}");
        assert_eq!(fit_color(&pixels, quality, true).error, 0);
    }
}

#[test]
fn more_search_never_fits_worse() {
    // Balanced and High start from the Fast fit and only accept improvements.
    let mut seed = 97u32;
    for _ in 0..40 {
        let pixels: [[u8; 4]; 16] = std::array::from_fn(|_| {
            std::array::from_fn(|_| {
                seed ^= seed << 13;
                seed ^= seed >> 17;
                seed ^= seed << 5;
                (seed >> 8) as u8
            })
        });
        let fast = fit_color(&pixels, Quality::Fast, false).error;
        let balanced = fit_color(&pixels, Quality::Balanced, false).error;
        assert!(balanced <= fast, "{balanced} > {fast}");
    }
}

#[test]
fn gradient_block_improves_with_cluster_fit() {
    let pixels: [[u8; 4]; 16] = std::array::from_fn(|i| {
        let x = (i % 4) as u8;
        let y = (i / 4) as u8;
        [x * 60 + y * 3, 200 - y * 50, x * 20 + y * 40, 255]
    });
    let fast = fit_color(&pixels, Quality::Fast, true);
    let balanced = fit_color(&pixels, Quality::Balanced, true);
    assert!(balanced.error < fast.error, "{} !< {}", balanced.error, fast.error);
    let bytes = encode_color(&pixels, Quality::Balanced, true);
    assert_eq!(u16::from_le_bytes([bytes[0], bytes[1]]), balanced.a);
    assert_eq!(u16::from_le_bytes([bytes[2], bytes[3]]), balanced.b);
    assert_eq!(u32::from_le_bytes([bytes[4], bytes[5], bytes[6], bytes[7]]), balanced.selectors);
}

#[test]
fn encodings_read_only_their_channels() {
    let base: Vec<u8> = (0..9 * 7 * 4).map(|i| (i * 37 % 251) as u8).collect();
    for (format, read) in [
        (Format::Bc1, [true, true, true, false]),
        (Format::Bc4, [true, false, false, false]),
        (Format::Bc5, [true, true, false, false]),
    ] {
        let changed: Vec<u8> = base
            .iter()
            .enumerate()
            .map(|(i, &v)| if read[i % 4] { v } else { v ^ 0x5A })
            .collect();
        for quality in [Quality::Fast, Quality::Balanced, Quality::High] {
            assert_eq!(
                encode(9, 7, &base, format, quality).unwrap(),
                encode(9, 7, &changed, format, quality).unwrap(),
                "{format:?} {quality:?}"
            );
        }
    }
}

#[test]
fn faint_variation_falls_back_to_the_luminance_axis() {
    // The iterated axis stays below 2 in magnitude, so the extremes are taken along the
    // luminance axis: the last maximum is pixel 0, the first minimum pixel 2.
    let mut p = [[100u8, 100, 100, 255]; 16];
    p[0] = [100, 112, 100, 255];
    p[1] = [112, 100, 100, 255];
    let (low, high) = extremes(&p);
    let (a, b) = initial(&p, block_averages(&p), low, high, false);
    let levels = |v: u16| (v >> 11, (v >> 5) & 63, v & 31);
    assert_eq!(levels(a), (12, 25, 12));
    assert_eq!(levels(b), (12, 28, 12));
}

#[test]
fn clear_variation_follows_the_principal_axis() {
    // Red varies strongly and alone: the axis is pure red, the extremes are the darkest
    // and the brightest red.
    let p: [[u8; 4]; 16] = std::array::from_fn(|i| [(i * 16) as u8, 50, 50, 255]);
    let (low, high) = extremes(&p);
    for quality_high in [false, true] {
        let (a, b) = initial(&p, block_averages(&p), low, high, quality_high);
        assert_eq!(a >> 11, 0);
        assert_eq!(b >> 11, 29);
    }
}
