//! Integer BC4 channel encoding, also used for BC3 alpha blocks.
use vstd::prelude::*;

use crate::bits::{byte_of, le48, lemma_le_bytes, lemma_sel3_push, sel3};

verus! {

/// Number of the thresholds 13, 11, 9, 7, 5, 3, 1 (in units of `hi - lo`) that the scaled
/// offset `14 * (v - lo) + 4` of `v` reaches.
pub open spec fn alpha_level(v: int, lo: int, hi: int) -> int {
    let x = 14 * (v - lo) + 4;
    let d = hi - lo;
    if x >= 13 * d {
        7
    } else if x >= 11 * d {
        6
    } else if x >= 9 * d {
        5
    } else if x >= 7 * d {
        4
    } else if x >= 5 * d {
        3
    } else if x >= 3 * d {
        2
    } else if x >= d {
        1
    } else {
        0
    }
}

/// Palette index of level `l`: the ramp from `lo` (index 1) through the six
/// interpolants (7 down to 2) to `hi` (index 0).
pub open spec fn alpha_index(l: int) -> int {
    if l == 0 {
        1
    } else if l == 7 {
        0
    } else {
        8 - l
    }
}

/// `lo` is the least of the sixteen values.
pub open spec fn is_min(values: Seq<u8>, lo: u8) -> bool {
    &&& forall|i: int| 0 <= i < 16 ==> lo <= #[trigger] values[i]
    &&& exists|i: int| 0 <= i < 16 && values[i] == lo
}

/// `hi` is the greatest of the sixteen values.
pub open spec fn is_max(values: Seq<u8>, hi: u8) -> bool {
    &&& forall|i: int| 0 <= i < 16 ==> #[trigger] values[i] <= hi
    &&& exists|i: int| 0 <= i < 16 && values[i] == hi
}

/// The BC4 block for `values`: endpoints `hi`, `lo`, then sixteen three-bit indices.
pub open spec fn is_alpha_block(values: Seq<u8>, out: Seq<u8>) -> bool {
    &&& out.len() == 8
    &&& is_max(values, out[0])
    &&& is_min(values, out[1])
    &&& out[0] == out[1] ==> forall|k: int| 2 <= k < 8 ==> out[k] == 0
    &&& out[0] != out[1] ==> forall|i: int|
        0 <= i < 16 ==> #[trigger] sel3(le48(out, 2) as u64, i) == alpha_index(
            alpha_level(values[i] as int, out[1] as int, out[0] as int),
        )
}

fn level(v: u8, lo: u8, hi: u8) -> (l: u64)
    requires
        lo < hi,
        lo <= v <= hi,
    ensures
        l == alpha_level(v as int, lo as int, hi as int),
        l < 8,
{
    let x: i32 = (v as i32 - lo as i32) * 14 + 4;
    let d: i32 = hi as i32 - lo as i32;
    if x >= d * 13 {
        7
    } else if x >= d * 11 {
        6
    } else if x >= d * 9 {
        5
    } else if x >= d * 7 {
        4
    } else if x >= d * 5 {
        3
    } else if x >= d * 3 {
        2
    } else if x >= d {
        1
    } else {
        0
    }
}

/// Encode sixteen scalar values. Preserves the input minimum and maximum.
pub fn encode(values: &[u8; 16]) -> (out: [u8; 8])
    ensures
        is_alpha_block(values@, out@),
{
    let mut lo = values[0];
    let mut hi = values[0];
    let mut i: usize = 1;
    while i < 16
        invariant
            1 <= i <= 16,
            forall|k: int| 0 <= k < i ==> lo <= #[trigger] values@[k] <= hi,
            exists|k: int| 0 <= k < i && values@[k] == lo,
            exists|k: int| 0 <= k < i && values@[k] == hi,
        decreases 16 - i,
    {
        if values[i] < lo {
            lo = values[i];
        }
        if values[i] > hi {
            hi = values[i];
        }
        i += 1;
    }
    let mut out = [0u8; 8];
    out[0] = hi;
    out[1] = lo;
    if lo == hi {
        return out;
    }
    let mut bits: u64 = 0;
    let mut i: usize = 0;
    assert(0u64 < (1u64 << (3 * 0u64))) by (bit_vector);
    while i < 16
        invariant
            i <= 16,
            lo < hi,
            forall|k: int| 0 <= k < 16 ==> lo <= #[trigger] values@[k] <= hi,
            bits < (1u64 << (3 * i as u64)),
            forall|k: int|
                0 <= k < i ==> #[trigger] sel3(bits, k) == alpha_index(
                    alpha_level(values@[k] as int, lo as int, hi as int),
                ),
        decreases 16 - i,
    {
        let l = level(values[i], lo, hi);
        let index: u64 = if l == 0 {
            1
        } else if l == 7 {
            0
        } else {
            8 - l
        };
        proof {
            lemma_sel3_push(bits, index, i as u64);
            assert forall|k: int| 0 <= k < i implies #[trigger] sel3(bits | (index << (3 * i as u64)), k)
                == sel3(bits, k) by {
                assert((k as u64) < (i as u64));
            }
        }
        bits = bits | (index << (3 * i as u64));
        i += 1;
    }
    proof {
        assert(1u64 << 48u64 == 0x1_0000_0000_0000) by (bit_vector);
        lemma_le_bytes(bits as int);
    }
    out[2] = (bits % 256) as u8;
    out[3] = ((bits / 256) % 256) as u8;
    out[4] = ((bits / 65536) % 256) as u8;
    out[5] = ((bits / 16777216) % 256) as u8;
    out[6] = ((bits / 4294967296) % 256) as u8;
    out[7] = ((bits / 1099511627776) % 256) as u8;
    proof {
        reveal_with_fuel(byte_of, 6);
        assert(le48(out@, 2) == bits);
    }
    out
}

} // verus!
