use rgbcx::{alpha, decode, decode_into, encode, encode_into, refine, Error, Format, Quality};

#[test]
fn block_sizes_and_encoded_lengths() {
    assert_eq!(Format::Bc1.block_bytes(), 8);
    assert_eq!(Format::Bc3.block_bytes(), 16);
    assert_eq!(Format::Bc4.block_bytes(), 8);
    assert_eq!(Format::Bc5.block_bytes(), 16);
    assert_eq!(Format::Bc1.encoded_len(1, 1), Ok(8));
    assert_eq!(Format::Bc3.encoded_len(5, 9), Ok(2 * 3 * 16));
    assert_eq!(Format::Bc5.encoded_len(8, 4), Ok(2 * 16));
    assert_eq!(Format::Bc4.encoded_len(0, 4), Err(Error::Dimensions));
    assert_eq!(Format::Bc4.encoded_len(4, 0), Err(Error::Dimensions));
    let huge = Format::Bc3.encoded_len(u32::MAX, u32::MAX);
    if usize::BITS == 64 {
        // 2^30 * 2^30 blocks of 16 bytes = 2^64 bytes: beyond isize::MAX.
        assert_eq!(huge, Err(Error::Dimensions));
    }
}

#[test]
fn default_quality_is_balanced() {
    assert_eq!(Quality::default(), Quality::Balanced);
}

#[test]
fn alpha_block_of_two_values() {
    let values = std::array::from_fn(|i| if i % 2 == 0 { 0 } else { 255 });
    // Endpoints: maximum then minimum; minimum takes index 1, maximum index 0.
    assert_eq!(alpha::encode(&values), [255, 0, 65, 16, 4, 65, 16, 4]);
}

#[test]
fn alpha_block_of_equal_values_has_no_indices() {
    assert_eq!(alpha::encode(&[77; 16]), [77, 77, 0, 0, 0, 0, 0, 0]);
}

#[test]
fn alpha_block_keeps_minimum_and_maximum() {
    let values: [u8; 16] = std::array::from_fn(|i| (i as u8) * 9 + 30);
    let block = alpha::encode(&values);
    assert_eq!(block[0], 15 * 9 + 30);
    assert_eq!(block[1], 30);
    let decoded = decode(4, 4, &block, Format::Bc4).unwrap();
    assert_eq!(decoded[0], 30);
    assert_eq!(decoded[15 * 4], 15 * 9 + 30);
}

#[test]
fn bc1_four_color_interpolant() {
    // Red 0xF800 > blue 0x001F: four-color mode; all selectors 2.
    let block = [0x00, 0xF8, 0x1F, 0x00, 0xAA, 0xAA, 0xAA, 0xAA];
    let decoded = decode(4, 4, &block, Format::Bc1).unwrap();
    assert_eq!(&decoded[..4], &[170, 0, 85, 255]);
    assert!(decoded.chunks(4).all(|p| p == [170, 0, 85, 255]));
}

#[test]
fn bc1_three_color_midpoint_and_transparent_entry() {
    // Blue 0x001F <= red 0xF800: three-color mode; selector 2 is the midpoint.
    let block = [0x1F, 0x00, 0x00, 0xF8, 0xAA, 0xAA, 0xAA, 0xFF];
    let decoded = decode(4, 4, &block, Format::Bc1).unwrap();
    assert_eq!(&decoded[..4], &[127, 0, 127, 255]);
    // The last four pixels use selector 3: transparent black.
    assert_eq!(&decoded[12 * 4..13 * 4], &[0, 0, 0, 0]);
}

#[test]
fn bc4_ramps() {
    // e0 = 200 > e1 = 100, index 2: (6 * 200 + 100) / 7 = 185.
    let block = [200, 100, 2, 0, 0, 0, 0, 0];
    let decoded = decode(4, 4, &block, Format::Bc4).unwrap();
    assert_eq!(&decoded[..4], &[185, 0, 0, 255]);
    assert_eq!(&decoded[4..8], &[200, 0, 0, 255]);
    // e0 = 100 <= e1 = 200: index 2 is (4 * 100 + 200) / 5 = 120, 6 is 0 and 7 is 255.
    let block = [100, 200, 2 | (6 << 3) | (7 << 6 & 0xC0), 7 >> 2, 0, 0, 0, 0];
    let decoded = decode(4, 4, &block, Format::Bc4).unwrap();
    assert_eq!(decoded[0], 120);
    assert_eq!(decoded[4], 0);
    assert_eq!(decoded[8], 255);
    assert_eq!(decoded[12], 100);
}

#[test]
fn bc5_writes_red_and_green() {
    let mut block = vec![10, 10, 0, 0, 0, 0, 0, 0];
    block.extend([20, 20, 0, 0, 0, 0, 0, 0]);
    assert_eq!(decode(4, 4, &block, Format::Bc5).unwrap(), [10, 20, 0, 255].repeat(16));
}

#[test]
fn decode_crops_partial_blocks() {
    // 5 x 1 image: two blocks; the second contributes only its first pixel.
    let mut blocks = vec![0u8; 16];
    blocks[0] = 50;
    blocks[1] = 50;
    blocks[8] = 90;
    blocks[9] = 90;
    let decoded = decode(5, 1, &blocks, Format::Bc4).unwrap();
    assert_eq!(decoded, [[50, 0, 0, 255]; 4].concat().into_iter().chain([90, 0, 0, 255]).collect::<Vec<u8>>());
}

#[test]
fn every_error_variant() {
    assert_eq!(encode(0, 4, &[], Format::Bc1, Quality::Fast), Err(Error::Dimensions));
    assert_eq!(encode(4, 4, &[0; 63], Format::Bc1, Quality::Fast), Err(Error::InputLength));
    let mut out = [0u8; 7];
    assert_eq!(encode_into(4, 4, &[0; 64], Format::Bc1, Quality::Fast, &mut out), Err(Error::OutputLength));
    assert_eq!(decode(4, 4, &[0; 9], Format::Bc1), Err(Error::InputLength));
    let mut rgba = [0u8; 60];
    assert_eq!(decode_into(4, 4, &[0; 8], Format::Bc1, &mut rgba), Err(Error::OutputLength));
    assert_eq!(decode(4, 0, &[], Format::Bc1), Err(Error::Dimensions));
    let mut blocks = [0u8; 8];
    assert_eq!(refine(4, 4, &[0; 64], Format::Bc4, &mut blocks), Err(Error::UnsupportedRefinementFormat(Format::Bc4)));
    assert_eq!(refine(4, 4, &[0; 63], Format::Bc1, &mut blocks), Err(Error::InputLength));
    assert_eq!(refine(4, 4, &[0; 64], Format::Bc1, &mut [0u8; 16]), Err(Error::OutputLength));
    let mut transparent = [0, 0, 0, 0, 3, 0, 0, 0];
    assert_eq!(refine(4, 4, &[0; 64], Format::Bc1, &mut transparent), Err(Error::TransparentBc1));
    assert_eq!(transparent, [0, 0, 0, 0, 3, 0, 0, 0]);
}

#[test]
fn solid_color_blocks_round_trip_closely() {
    for color in [[0u8, 0, 0], [255, 255, 255], [64, 128, 192], [13, 200, 77]] {
        let rgba: Vec<u8> = [color[0], color[1], color[2], 255].repeat(16);
        for quality in [Quality::Fast, Quality::Balanced, Quality::High] {
            let block = encode(4, 4, &rgba, Format::Bc1, quality).unwrap();
            let decoded = decode(4, 4, &block, Format::Bc1).unwrap();
            for c in 0..3 {
                assert!((decoded[c] as i32 - color[c] as i32).abs() <= 8, "{color:?} {quality:?}");
            }
        }
    }
}
