//! Little-endian fields and packed selector indices.
use vstd::prelude::*;

verus! {

broadcast use vstd::slice::group_slice_axioms;

/// Unsigned little-endian value of the two bytes at `at`.
pub open spec fn le16(s: Seq<u8>, at: int) -> int {
    s[at] + 256 * s[at + 1]
}

/// Unsigned little-endian value of the four bytes at `at`.
pub open spec fn le32(s: Seq<u8>, at: int) -> int {
    le16(s, at) + 65536 * le16(s, at + 2)
}

/// Unsigned little-endian value of the six bytes at `at`.
pub open spec fn le48(s: Seq<u8>, at: int) -> int {
    le32(s, at) + 4294967296 * le16(s, at + 4)
}

/// Byte `k` (least significant first) of `v`.
pub open spec fn byte_of(v: int, k: int) -> int
    decreases k,
{
    if k <= 0 {
        v % 256
    } else {
        byte_of(v / 256, k - 1)
    }
}

/// Two-bit index `i` of a packed 16-entry selector word.
pub open spec fn sel2(bits: u32, i: int) -> u32 {
    (bits >> ((2 * i) as u32)) & 3u32
}

/// Three-bit index `i` of a packed 16-entry selector word.
pub open spec fn sel3(bits: u64, i: int) -> u64 {
    (bits >> ((3 * i) as u64)) & 7u64
}

pub fn read_u16(s: &[u8], at: usize) -> (r: u16)
    requires
        at + 2 <= s.len(),
    ensures
        r == le16(s@, at as int),
{
    s[at] as u16 + (s[at + 1] as u16) * 256
}

pub fn read_u32(s: &[u8], at: usize) -> (r: u32)
    requires
        at + 4 <= s.len(),
    ensures
        r == le32(s@, at as int),
{
    let lo = read_u16(s, at);
    let hi = read_u16(s, at + 2);
    lo as u32 + (hi as u32) * 65536
}

pub fn read_u48(s: &[u8], at: usize) -> (r: u64)
    requires
        at + 6 <= s.len(),
    ensures
        r == le48(s@, at as int),
        r < 0x1_0000_0000_0000,
{
    let lo = read_u32(s, at);
    let hi = read_u16(s, at + 4);
    lo as u64 + (hi as u64) * 4294967296
}

pub proof fn lemma_byte_of_small(v: int, k: int)
    requires
        0 <= v,
        0 <= k,
    ensures
        0 <= byte_of(v, k) < 256,
    decreases k,
{
    if k > 0 {
        lemma_byte_of_small(v / 256, k - 1);
    }
}

/// Reassembling the low bytes of a value gives the value back.
pub proof fn lemma_le_bytes(v: int)
    requires
        0 <= v < 0x1_0000_0000_0000,
    ensures
        byte_of(v, 0) + 256 * byte_of(v, 1) + 65536 * byte_of(v, 2) + 16777216 * byte_of(v, 3)
            + 4294967296 * byte_of(v, 4) + 1099511627776 * byte_of(v, 5) == v,
{
    reveal_with_fuel(byte_of, 6);
    let v1 = v / 256;
    let v2 = v1 / 256;
    let v3 = v2 / 256;
    let v4 = v3 / 256;
    let v5 = v4 / 256;
    assert(v5 < 256);
    assert(v == (v % 256) + 256 * v1);
    assert(v1 == (v1 % 256) + 256 * v2);
    assert(v2 == (v2 % 256) + 256 * v3);
    assert(v3 == (v3 % 256) + 256 * v4);
    assert(v4 == (v4 % 256) + 256 * v5);
    assert(v5 % 256 == v5);
}

/// Write `v` little-endian into the four bytes at `at`.
pub fn write_u32(s: &mut [u8], at: usize, v: u32)
    requires
        at + 4 <= old(s).len(),
    ensures
        final(s)@.len() == old(s)@.len(),
        forall|k: int|
            0 <= k < final(s)@.len() && !(at <= k < at + 4) ==> final(s)@[k] == old(s)@[k],
        forall|k: int| 0 <= k < 4 ==> final(s)@[at + k] == byte_of(v as int, k),
        le32(final(s)@, at as int) == v,
{
    proof {
        reveal_with_fuel(byte_of, 4);
        lemma_le_bytes(v as int);
        lemma_byte_of_small(v as int, 4);
        lemma_byte_of_small(v as int, 5);
        assert(byte_of(v as int, 4) == 0);
        assert(byte_of(v as int, 5) == 0);
    }
    s[at] = (v % 256) as u8;
    s[at + 1] = ((v / 256) % 256) as u8;
    s[at + 2] = ((v / 65536) % 256) as u8;
    s[at + 3] = ((v / 16777216) % 256) as u8;
}

/// Write `v` little-endian into the two bytes at `at`.
pub fn write_u16(s: &mut [u8], at: usize, v: u16)
    requires
        at + 2 <= old(s).len(),
    ensures
        final(s)@.len() == old(s)@.len(),
        forall|k: int|
            0 <= k < final(s)@.len() && !(at <= k < at + 2) ==> final(s)@[k] == old(s)@[k],
        le16(final(s)@, at as int) == v,
{
    s[at] = (v % 256) as u8;
    s[at + 1] = (v / 256) as u8;
}

/// Setting selector `i` of a word whose higher selectors are clear.
pub proof fn lemma_sel2_push(bits: u32, s: u32, i: u32)
    requires
        i < 16,
        s < 4,
        bits < (1u32 << (2 * i)),
    ensures
        forall|j: u32|
            j < i ==> #[trigger] ((bits | (s << (2 * i))) >> (2 * j)) & 3u32 == (bits >> (2 * j))
                & 3u32,
        ((bits | (s << (2 * i))) >> (2 * i)) & 3u32 == s,
        i < 15 ==> (bits | (s << (2 * i))) < (1u32 << (2 * (i + 1))),
{
    assert(forall|j: u32|
        j < i ==> #[trigger] ((bits | (s << (2 * i))) >> (2 * j)) & 3u32 == (bits >> (2 * j))
            & 3u32) by (bit_vector)
        requires
            i < 16,
            s < 4,
            bits < (1u32 << (2 * i)),
    ;
    assert(((bits | (s << (2 * i))) >> (2 * i)) & 3u32 == s) by (bit_vector)
        requires
            i < 16,
            s < 4,
            bits < (1u32 << (2 * i)),
    ;
    assert(i < 15 ==> (bits | (s << (2 * i))) < (1u32 << (2 * (i + 1)))) by (bit_vector)
        requires
            i < 16,
            s < 4,
            bits < (1u32 << (2 * i)),
    ;
}

/// Setting selector `i` of a word whose higher selectors are clear.
pub proof fn lemma_sel3_push(bits: u64, s: u64, i: u64)
    requires
        i < 16,
        s < 8,
        bits < (1u64 << (3 * i)),
    ensures
        forall|j: u64|
            j < i ==> #[trigger] ((bits | (s << (3 * i))) >> (3 * j)) & 7u64 == (bits >> (3 * j))
                & 7u64,
        ((bits | (s << (3 * i))) >> (3 * i)) & 7u64 == s,
        (bits | (s << (3 * i))) < (1u64 << (3 * (i + 1))),
{
    assert(forall|j: u64|
        j < i ==> #[trigger] ((bits | (s << (3 * i))) >> (3 * j)) & 7u64 == (bits >> (3 * j))
            & 7u64) by (bit_vector)
        requires
            i < 16,
            s < 8,
            bits < (1u64 << (3 * i)),
    ;
    assert(((bits | (s << (3 * i))) >> (3 * i)) & 7u64 == s) by (bit_vector)
        requires
            i < 16,
            s < 8,
            bits < (1u64 << (3 * i)),
    ;
    assert((bits | (s << (3 * i))) < (1u64 << (3 * (i + 1)))) by (bit_vector)
        requires
            i < 16,
            s < 8,
            bits < (1u64 << (3 * i)),
    ;
}

} // verus!
