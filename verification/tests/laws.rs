use rgbcx::{decode, encode, encode_blocks, refine, Format, Quality};

fn gradient(w: usize, h: usize) -> Vec<u8> {
    (0..w * h)
        .flat_map(|i| {
            let (x, y) = (i % w, i / w);
            [(x * 29 + y * 3) as u8, (y * 31 + x) as u8, (x * y * 7) as u8, (x * 40 + y * 9) as u8]
        })
        .collect()
}

#[test]
fn batches_match_whole_image_encoding() {
    let (w, h) = (23u32, 17u32);
    let rgba = gradient(w as usize, h as usize);
    for format in [Format::Bc1, Format::Bc3, Format::Bc4, Format::Bc5] {
        for quality in [Quality::Fast, Quality::Balanced, Quality::High] {
            let whole = encode(w, h, &rgba, format, quality).unwrap();
            let stride = format.block_bytes();
            let mut batched = vec![0u8; whole.len()];
            for (batch, chunk) in batched.chunks_mut(stride * 5).enumerate() {
                encode_blocks(w, h, &rgba, format, quality, batch * 5, chunk);
            }
            assert_eq!(batched, whole);
        }
    }
}

#[test]
fn refined_bc1_stays_opaque_and_never_worse() {
    let (w, h) = (16u32, 12u32);
    let rgba = gradient(w as usize, h as usize);
    let blocks = encode(w, h, &rgba, Format::Bc1, Quality::Fast).unwrap();
    let mut refined = blocks.clone();
    refine(w, h, &rgba, Format::Bc1, &mut refined).unwrap();
    let decoded = decode(w, h, &refined, Format::Bc1).unwrap();
    assert!(decoded.chunks(4).all(|p| p[3] == 255));
    let error = |d: &[u8]| -> u64 {
        d.chunks(4)
            .zip(rgba.chunks(4))
            .map(|(a, b)| (0..3).map(|c| (a[c] as i64 - b[c] as i64).pow(2) as u64).sum::<u64>())
            .sum()
    };
    let before = decode(w, h, &blocks, Format::Bc1).unwrap();
    assert!(error(&decoded) <= error(&before));
}

#[test]
fn refining_twice_changes_nothing_more_than_once_allows() {
    let (w, h) = (8u32, 8u32);
    let rgba = gradient(w as usize, h as usize);
    let mut once = encode(w, h, &rgba, Format::Bc3, Quality::Balanced).unwrap();
    refine(w, h, &rgba, Format::Bc3, &mut once).unwrap();
    let mut twice = once.clone();
    refine(w, h, &rgba, Format::Bc3, &mut twice).unwrap();
    for (a, b) in once.chunks(16).zip(twice.chunks(16)) {
        assert_eq!(&a[..8], &b[..8]);
    }
}

#[test]
fn uniform_image_round_trips_exactly_in_single_channel_formats() {
    let rgba = [33u8, 211, 5, 99].repeat(6 * 5);
    let bc4 = decode(6, 5, &encode(6, 5, &rgba, Format::Bc4, Quality::High).unwrap(), Format::Bc4).unwrap();
    assert_eq!(bc4, [33, 0, 0, 255].repeat(30));
    let bc5 = decode(6, 5, &encode(6, 5, &rgba, Format::Bc5, Quality::Fast).unwrap(), Format::Bc5).unwrap();
    assert_eq!(bc5, [33, 211, 0, 255].repeat(30));
    let bc3 = decode(6, 5, &encode(6, 5, &rgba, Format::Bc3, Quality::Fast).unwrap(), Format::Bc3).unwrap();
    assert!(bc3.chunks(4).all(|p| p == &bc3[..4] && p[3] == 99));
}

#[test]
fn gpu_batches_round_trip_through_block_storage() {
    let (w, h) = (9u32, 6u32);
    let rgba = gradient(w as usize, h as usize);
    let blocks = encode(w, h, &rgba, Format::Bc3, Quality::Fast).unwrap();
    rgbcx::gpu::validate_input(w, h, &rgba, Format::Bc3, &blocks).unwrap();
    let (pixels, originals) = rgbcx::gpu::prepare_batch(w, h, &rgba, Format::Bc3, &blocks, 1, 3);
    assert_eq!(pixels.len(), 48);
    assert_eq!(originals.len(), 6);
    assert_eq!(originals[0], u32::from_le_bytes(blocks[24..28].try_into().unwrap()));
    // Block 1 starts at x = 4: its first pixel is image pixel 4.
    assert_eq!(pixels[0], u32::from_le_bytes(rgba[16..20].try_into().unwrap()));
    let mut copy = blocks.clone();
    rgbcx::gpu::apply_batch(&mut copy, Format::Bc3, 1, &originals);
    assert_eq!(copy, blocks);
    rgbcx::gpu::apply_batch(&mut copy, Format::Bc3, 1, &[1, 2]);
    assert_eq!(&copy[24..32], &[1, 0, 0, 0, 2, 0, 0, 0]);
    assert_eq!(&copy[..24], &blocks[..24]);
    assert_eq!(&copy[32..], &blocks[32..]);
}

#[test]
fn gpu_input_errors_wrap_library_errors() {
    match rgbcx::gpu::validate_input(4, 4, &[0; 64], Format::Bc5, &[0; 16]) {
        Err(rgbcx::gpu::Error::Input(e)) => assert_eq!(e, rgbcx::Error::UnsupportedRefinementFormat(Format::Bc5)),
        other => panic!("unexpected {other:?}"),
    }
}

#[test]
fn block_extremes_of_ramp_channels_round_trip() {
    let (w, h) = (11usize, 6usize);
    let rgba: Vec<u8> = (0..w * h)
        .flat_map(|i| {
            let (x, y) = (i % w, i / w);
            let two = if (x + y) % 3 == 0 { 255 } else { 0 };
            [(x * 23 + y * 7) as u8, two, (x * 5) as u8, two]
        })
        .collect();
    for quality in [Quality::Fast, Quality::Balanced, Quality::High] {
        let bc3 = decode(w as u32, h as u32, &encode(w as u32, h as u32, &rgba, Format::Bc3, quality).unwrap(), Format::Bc3).unwrap();
        let bc5 = decode(w as u32, h as u32, &encode(w as u32, h as u32, &rgba, Format::Bc5, quality).unwrap(), Format::Bc5).unwrap();
        for i in 0..w * h {
            // Alpha (BC3) and green (BC5) take two values per block: both round-trip.
            assert_eq!(bc3[4 * i + 3], rgba[4 * i + 3]);
            assert_eq!(bc5[4 * i + 1], rgba[4 * i + 1]);
        }
        // Red in BC5: the block extremes round-trip.
        let (x, y) = (4usize, 4usize);
        let block: Vec<u8> = (0..16)
            .map(|p| {
                let (px, py) = ((x + p % 4).min(w - 1), (y + p / 4).min(h - 1));
                rgba[4 * (py * w + px)]
            })
            .collect();
        let (lo, hi) = (*block.iter().min().unwrap(), *block.iter().max().unwrap());
        for p in 0..16 {
            let (px, py) = ((x + p % 4).min(w - 1), (y + p / 4).min(h - 1));
            let j = py * w + px;
            if rgba[4 * j] == lo || rgba[4 * j] == hi {
                assert_eq!(bc5[4 * j], rgba[4 * j]);
            }
        }
    }
}
