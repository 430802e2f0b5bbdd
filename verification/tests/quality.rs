use rgbcx::{decode, encode, Format, Quality};

#[test]
fn arbitrary_color_blocks_are_valid_and_opaque() {
    let mut seed = 711u32;
    let rgba: Vec<_> = (0..128 * 128 * 4)
        .map(|_| {
            seed ^= seed << 13;
            seed ^= seed >> 17;
            seed ^= seed << 5;
            seed as u8
        })
        .collect();
    for q in [Quality::Fast, Quality::Balanced, Quality::High] {
        let blocks = encode(128, 128, &rgba, Format::Bc1, q).unwrap();
        assert!(
            decode(128, 128, &blocks, Format::Bc1)
                .unwrap()
                .as_chunks::<4>()
                .0
                .iter()
                .all(|p| p[3] == 255)
        );
    }
}
