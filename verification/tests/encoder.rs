use rgbcx::{encode, refine, Format, Quality};

fn pixels(w: usize, h: usize) -> Vec<u8> {
    (0..w * h)
        .flat_map(|i| {
            let x = i % w;
            let y = i / w;
            [
                (x * 13 + y * 7) as u8,
                (x * 2 + y * 21) as u8,
                (x * 19 + y * 3) as u8,
                if x.is_multiple_of(3) {
                    0
                } else if y.is_multiple_of(3) {
                    255
                } else {
                    (i * 23) as u8
                },
            ]
        })
        .collect()
}

#[test]
fn refinement_preserves_alpha_and_never_increases_error() {
    let rgba = pixels(32, 32);
    let original = encode(32, 32, &rgba, Format::Bc3, Quality::Balanced).unwrap();
    let mut refined = original.clone();
    refine(32, 32, &rgba, Format::Bc3, &mut refined).unwrap();
    for (a, b) in original
        .as_chunks::<16>()
        .0
        .iter()
        .zip(refined.as_chunks::<16>().0.iter())
    {
        assert_eq!(&a[..8], &b[..8]);
    }
    // Independent BC palette decoder and per-block SSE oracle.
    fn errors(rgba: &[u8], blocks: &[u8]) -> Vec<u32> {
        blocks
            .as_chunks::<16>()
            .0
            .iter()
            .enumerate()
            .map(|(i, b)| {
                let e0 = u16::from_le_bytes(b[8..10].try_into().unwrap());
                let e1 = u16::from_le_bytes(b[10..12].try_into().unwrap());
                let expand = |e: u16| {
                    let r = (e >> 11) & 31;
                    let g = (e >> 5) & 63;
                    let b = e & 31;
                    [
                        (r << 3 | r >> 2) as i32,
                        (g << 2 | g >> 4) as i32,
                        (b << 3 | b >> 2) as i32,
                    ]
                };
                let a = expand(e0);
                let c = expand(e1);
                let pal = [
                    a,
                    c,
                    std::array::from_fn(|j| (2 * a[j] + c[j]) / 3),
                    std::array::from_fn(|j| (a[j] + 2 * c[j]) / 3),
                ];
                let bits = u32::from_le_bytes(b[12..16].try_into().unwrap());
                (0..16)
                    .map(|p| {
                        let at = (((i / 8) * 4 + p / 4) * 32 + (i % 8) * 4 + p % 4) * 4;
                        let sel = ((bits >> (2 * p)) & 3) as usize;
                        (0..3)
                            .map(|j| (rgba[at + j] as i32 - pal[sel][j]).pow(2) as u32)
                            .sum::<u32>()
                    })
                    .sum()
            })
            .collect()
    }
    for (a, b) in errors(&rgba, &original)
        .into_iter()
        .zip(errors(&rgba, &refined))
    {
        assert!(b <= a);
    }
}
