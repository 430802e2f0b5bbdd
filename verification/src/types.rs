use vstd::prelude::*;

verus! {

/// Unsigned, normalized block-compressed pixel format.
#[derive(Clone, Copy, Debug, PartialEq, Eq, Structural)]
pub enum Format {
    /// RGB blocks with optional one-bit transparency when decoding.
    Bc1,
    /// RGB blocks with a separately encoded alpha channel.
    Bc3,
    /// One unsigned normalized channel.
    Bc4,
    /// Two unsigned normalized channels.
    Bc5,
}

/// Color fitting effort. Alpha uses the same integer encoder in every mode.
#[derive(Clone, Copy, Debug, PartialEq, Eq, Structural)]
pub enum Quality {
    /// Principal-axis fitting and least-squares refinement.
    Fast,
    /// Cluster fitting with a high-quality retry for difficult blocks.
    Balanced,
    /// Extended partition and endpoint search.
    High,
}

impl Default for Quality {
    fn default() -> (q: Quality)
        ensures
            q == Quality::Balanced,
    {
        Quality::Balanced
    }
}

/// Invalid input or output buffer.
#[derive(Clone, Copy, Debug, PartialEq, Eq, Structural)]
pub enum Error {
    /// Zero dimensions or a size that exceeds addressable storage.
    Dimensions,
    /// Input length does not match the image dimensions and format.
    InputLength,
    /// Output length does not match the image dimensions and format.
    OutputLength,
    /// Endpoint refinement supports BC1 and BC3 only.
    UnsupportedRefinementFormat(Format),
    /// Endpoint refinement requires opaque BC1 blocks.
    TransparentBc1,
}

/// Bytes in one 4x4 block of `format`.
pub open spec fn spec_block_bytes(format: Format) -> nat {
    match format {
        Format::Bc1 | Format::Bc4 => 8,
        _ => 16,
    }
}

/// Number of 4x4 blocks needed to cover `n` pixels along one axis.
pub open spec fn blocks_along(n: u32) -> nat {
    ((n as nat) + 3) / 4
}

/// Number of blocks in a `width` x `height` image.
pub open spec fn block_count(width: u32, height: u32) -> nat {
    blocks_along(width) * blocks_along(height)
}

/// Bytes of block storage for a `width` x `height` image.
pub open spec fn spec_encoded_len(format: Format, width: u32, height: u32) -> nat {
    block_count(width, height) * spec_block_bytes(format)
}

/// Whether the dimensions are nonzero and the block storage is addressable.
pub open spec fn encoded_len_fits(format: Format, width: u32, height: u32) -> bool {
    &&& width > 0
    &&& height > 0
    &&& spec_encoded_len(format, width, height) <= isize::MAX
}

/// What `Format::encoded_len` returns.
pub open spec fn encoded_len_result(format: Format, width: u32, height: u32) -> Result<usize, Error> {
    if encoded_len_fits(format, width, height) {
        Ok(spec_encoded_len(format, width, height) as usize)
    } else {
        Err(Error::Dimensions)
    }
}

/// Bytes of tightly packed RGBA8 pixels for a `width` x `height` image.
pub open spec fn spec_rgba_len(width: u32, height: u32) -> nat {
    (width as nat) * (height as nat) * 4
}

/// What the RGBA length check returns.
pub open spec fn rgba_len_result(width: u32, height: u32) -> Result<usize, Error> {
    if width > 0 && height > 0 && spec_rgba_len(width, height) <= isize::MAX {
        Ok(spec_rgba_len(width, height) as usize)
    } else {
        Err(Error::Dimensions)
    }
}

pub proof fn lemma_blocks_along_bounds(n: u32)
    ensures
        blocks_along(n) <= 0x4000_0000,
        n > 0 ==> blocks_along(n) >= 1,
        4 * blocks_along(n) >= n,
        4 * blocks_along(n) < n + 4,
{
}

impl Format {
    /// Bytes in one 4x4 block.
    pub fn block_bytes(self) -> (n: usize)
        ensures
            n == spec_block_bytes(self),
    {
        match self {
            Format::Bc1 | Format::Bc4 => 8,
            _ => 16,
        }
    }

    /// Storage required, including partial blocks along the image edges.
    pub fn encoded_len(self, width: u32, height: u32) -> (r: Result<usize, Error>)
        ensures
            r == encoded_len_result(self, width, height),
    {
        if width == 0 || height == 0 {
            return Err(Error::Dimensions);
        }
        let cols: u128 = (width as u128 + 3) / 4;
        let rows: u128 = (height as u128 + 3) / 4;
        let bytes: u128 = self.block_bytes() as u128;
        proof {
            lemma_blocks_along_bounds(width);
            lemma_blocks_along_bounds(height);
            assert(cols * rows <= 0x4000_0000 * 0x4000_0000) by (nonlinear_arith)
                requires
                    cols <= 0x4000_0000,
                    rows <= 0x4000_0000,
            ;
            assert(cols * rows * bytes <= 0x4000_0000 * 0x4000_0000 * 16) by (nonlinear_arith)
                requires
                    cols * rows <= 0x4000_0000 * 0x4000_0000,
                    bytes <= 16,
            ;
        }
        let total: u128 = cols * rows * bytes;
        if total > isize::MAX as u128 {
            return Err(Error::Dimensions);
        }
        Ok(total as usize)
    }
}

/// Bytes of RGBA8 input for the dimensions, or `Error::Dimensions`.
pub fn rgba_len(width: u32, height: u32) -> (r: Result<usize, Error>)
    ensures
        r == rgba_len_result(width, height),
{
    if width == 0 || height == 0 {
        return Err(Error::Dimensions);
    }
    proof {
        assert((width as nat) * (height as nat) <= 0xffff_ffff * 0xffff_ffff) by (nonlinear_arith)
            requires
                width <= 0xffff_ffff,
                height <= 0xffff_ffff,
        ;
    }
    let total: u128 = (width as u128) * (height as u128) * 4;
    if total > isize::MAX as u128 {
        return Err(Error::Dimensions);
    }
    Ok(total as usize)
}

} // verus!
