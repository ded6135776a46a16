//! Frame staging for the OpenGL presentation backend.

use vstd::prelude::*;

verus! {

/// Errors returned by the OpenGL presentation backend.
#[derive(Debug)]
pub enum Error {
    /// The requested target dimensions are zero, overflow addressable memory,
    /// or exceed the GL signed-dimension range.
    BadTarget,
    /// A shader or GL object could not be created.
    Gl(String),
}

/// Whether `width` by `height` is a valid GL draw target.
pub open spec fn valid_target(width: u32, height: u32) -> bool {
    &&& width != 0
    &&& height != 0
    &&& width <= i32::MAX
    &&& height <= i32::MAX
    &&& width * height * 4 <= usize::MAX
}

/// Pixel and byte lengths of a `width` by `height` RGBA target.
pub fn target_lengths(width: u32, height: u32) -> (res: Result<(usize, usize), Error>)
    ensures
        match res {
            Ok((pixels, bytes)) => valid_target(width, height) && pixels == width * height
                && bytes == width * height * 4,
            Err(e) => !valid_target(width, height) && e is BadTarget,
        },
{
    if width == 0 || height == 0 || width > 0x7fff_ffffu32 || height > 0x7fff_ffffu32 {
        return Err(Error::BadTarget);
    }
    let w = width as usize;
    let h = height as usize;
    let pixels = match w.checked_mul(h) {
        Some(p) => p,
        None => {
            assert(width * height * 4 > usize::MAX) by (nonlinear_arith)
                requires width * height > usize::MAX;
            return Err(Error::BadTarget);
        },
    };
    let bytes = match pixels.checked_mul(4) {
        Some(b) => b,
        None => return Err(Error::BadTarget),
    };
    Ok((pixels, bytes))
}

/// Byte `k` (0 = least significant) of a packed `0xAABBGGRR` pixel.
pub open spec fn pixel_byte(pixel: u32, k: int) -> u8 {
    if k == 0 {
        (pixel % 256) as u8
    } else if k == 1 {
        ((pixel / 256) % 256) as u8
    } else if k == 2 {
        ((pixel / 65536) % 256) as u8
    } else {
        (pixel / 16777216) as u8
    }
}

/// Number of whole pixels copied from `src_len` packed pixels into a byte
/// buffer of `dst_len` bytes.
pub open spec fn copied_pixels(src_len: int, dst_len: int) -> int {
    if src_len < dst_len / 4 { src_len } else { dst_len / 4 }
}

/// Unpacks premultiplied `0xAABBGGRR` pixels into `[R, G, B, A]` bytes, as
/// many as both buffers hold; bytes past the copied pixels are unchanged.
pub fn copy_premultiplied_rgba(src: &[u32], dst: &mut [u8])
    ensures
        final(dst)@.len() == old(dst)@.len(),
        forall|i: int, k: int|
            0 <= i < copied_pixels(src@.len() as int, old(dst)@.len() as int) && 0 <= k < 4
                ==> #[trigger] final(dst)@[4 * i + k] == pixel_byte(src@[i], k),
        forall|j: int|
            4 * copied_pixels(src@.len() as int, old(dst)@.len() as int) <= j < old(dst)@.len()
                ==> #[trigger] final(dst)@[j] == old(dst)@[j],
{
    let dst_len = dst.len();
    let n: usize = if src.len() < dst_len / 4 { src.len() } else { dst_len / 4 };
    let mut i: usize = 0;
    while i < n
        invariant
            n == copied_pixels(src@.len() as int, old(dst)@.len() as int),
            n <= src@.len(),
            dst_len == old(dst)@.len(),
            4 * n <= old(dst)@.len(),
            0 <= i <= n,
            dst@.len() == old(dst)@.len(),
            forall|a: int, k: int|
                0 <= a < i && 0 <= k < 4 ==> #[trigger] dst@[4 * a + k] == pixel_byte(src@[a], k),
            forall|j: int| 4 * i <= j < old(dst)@.len() ==> #[trigger] dst@[j] == old(dst)@[j],
        decreases n - i,
    {
        let pixel = src[i];
        let base = 4 * i;
        let red = pixel as u8;
        let green = (pixel >> 8u32) as u8;
        let blue = (pixel >> 16u32) as u8;
        let alpha = (pixel >> 24u32) as u8;
        assert(red == pixel_byte(pixel, 0)) by (bit_vector)
            requires red == pixel as u8;
        assert(green == pixel_byte(pixel, 1)) by (bit_vector)
            requires green == (pixel >> 8u32) as u8;
        assert(blue == pixel_byte(pixel, 2)) by (bit_vector)
            requires blue == (pixel >> 16u32) as u8;
        assert(alpha == pixel_byte(pixel, 3)) by (bit_vector)
            requires alpha == (pixel >> 24u32) as u8;
        dst[base] = red;
        dst[base + 1] = green;
        dst[base + 2] = blue;
        dst[base + 3] = alpha;
        assert forall|a: int, k: int| 0 <= a < i + 1 && 0 <= k < 4 implies #[trigger] dst@[4 * a + k]
            == pixel_byte(src@[a], k) by {
            if a == i {
                assert(4 * a + k == base + k);
            }
        }
        i = i + 1;
    }
}

/// How the frame texture is refreshed with a new frame.
#[derive(Clone, Copy, Debug, PartialEq, Eq, Structural)]
pub enum TextureUpload {
    /// The texture already has the frame's size: its pixels are replaced.
    Replace,
    /// The texture is reallocated at the frame's size.
    Reallocate,
}

/// CPU-side frame buffers of the presentation backend and the size of its
/// texture.
pub struct FrameStaging {
    /// Packed `0xAABBGGRR` pixels of the frame.
    pub pixels: Vec<u32>,
    /// `[R, G, B, A]` bytes uploaded to the texture.
    pub rgba: Vec<u8>,
    /// Size the texture was last allocated at.
    pub texture_size: (u32, u32),
}

impl FrameStaging {
    /// Empty buffers and no texture storage.
    pub fn new() -> (s: Self)
        ensures
            s.pixels@.len() == 0,
            s.rgba@.len() == 0,
            s.texture_size == (0u32, 0u32),
    {
        FrameStaging { pixels: Vec::new(), rgba: Vec::new(), texture_size: (0, 0) }
    }

    /// Sizes the pixel buffer for a `width` by `height` frame, keeping it
    /// when it already has that size; returns the frame's byte count.
    pub fn size_pixels(&mut self, width: u32, height: u32) -> (res: Result<usize, Error>)
        ensures
            res is Ok <==> valid_target(width, height),
            res is Err ==> (res matches Err(Error::BadTarget)),
            res is Err ==> final(self).pixels@ == old(self).pixels@,
            res matches Ok(bytes) ==> bytes == width * height * 4 && final(self).pixels@.len() == width * height && (
            old(self).pixels@.len() == width * height ==> final(self).pixels@ == old(self).pixels@),
            final(self).rgba@ == old(self).rgba@,
            final(self).texture_size == old(self).texture_size,
    {
        let (pixel_count, byte_count) = match target_lengths(width, height) {
            Ok(lengths) => lengths,
            Err(e) => return Err(e),
        };
        if self.pixels.len() != pixel_count {
            self.pixels.resize(pixel_count, 0);
        }
        Ok(byte_count)
    }

    /// Unpacks the rendered pixels into `byte_count` texture bytes.
    pub fn stage_rgba(&mut self, byte_count: usize)
        requires
            byte_count == 4 * old(self).pixels@.len(),
        ensures
            final(self).rgba@.len() == byte_count,
            forall|i: int, k: int|
                0 <= i < old(self).pixels@.len() && 0 <= k < 4 ==> #[trigger] final(self).rgba@[4 * i + k] == pixel_byte(
                    old(self).pixels@[i],
                    k,
                ),
            final(self).pixels@ == old(self).pixels@,
            final(self).texture_size == old(self).texture_size,
    {
        if self.rgba.len() != byte_count {
            self.rgba.resize(byte_count, 0);
        }
        copy_premultiplied_rgba(self.pixels.as_slice(), self.rgba.as_mut_slice());
    }

    /// How to refresh the texture with a `width` by `height` frame; the
    /// texture then has that size.
    pub fn texture_upload(&mut self, width: u32, height: u32) -> (u: TextureUpload)
        ensures
            u == if old(self).texture_size == (width, height) {
                TextureUpload::Replace
            } else {
                TextureUpload::Reallocate
            },
            final(self).texture_size == (width, height),
            final(self).pixels@ == old(self).pixels@,
            final(self).rgba@ == old(self).rgba@,
    {
        if self.texture_size.0 == width && self.texture_size.1 == height {
            TextureUpload::Replace
        } else {
            self.texture_size = (width, height);
            TextureUpload::Reallocate
        }
    }
}

} // verus!
