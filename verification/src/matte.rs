//! Integer semantics of track-matte factors.

use vstd::prelude::*;

verus! {

/// Alpha matte: the matte's alpha.
pub const MATTE_ALPHA: u8 = 1;
/// Inverted alpha matte: the complement of the matte's alpha.
pub const MATTE_ALPHA_INVERTED: u8 = 2;
/// Luma matte: the matte's luma.
pub const MATTE_LUMA: u8 = 3;

/// Channel `c` of a pixel premultiplied by `alpha`, unpremultiplied with
/// integer division.
pub open spec fn unpremultiplied(c: int, alpha: int) -> int {
    if alpha == 255 { c } else { c * 255 / alpha }
}

/// Luma of a premultiplied `0xAABBGGRR` pixel: Rec. 601 weights in
/// thousandths over the unpremultiplied channels, at most 255; zero for a
/// transparent pixel.
pub open spec fn luma(rgba: u32) -> int {
    let alpha = (rgba / 0x100_0000) as int;
    if alpha == 0 {
        0
    } else {
        let red = unpremultiplied((rgba % 0x100) as int, alpha);
        let green = unpremultiplied(((rgba / 0x100) % 0x100) as int, alpha);
        let blue = unpremultiplied(((rgba / 0x1_0000) % 0x100) as int, alpha);
        let l = (red * 299 + green * 587 + blue * 114) / 1000;
        if l > 255 { 255 } else { l }
    }
}

/// Factor a matte pixel applies to its target for matte `kind`: alpha,
/// inverted alpha, luma, or (any other kind) inverted luma.
pub open spec fn matte_factor_of(rgba: u32, kind: u8) -> int {
    let alpha = (rgba / 0x100_0000) as int;
    if kind == MATTE_ALPHA {
        alpha
    } else if kind == MATTE_ALPHA_INVERTED {
        255 - alpha
    } else if kind == MATTE_LUMA {
        luma(rgba)
    } else {
        255 - luma(rgba)
    }
}

proof fn lemma_scaled_bound(c: int, alpha: int)
    requires
        0 <= c <= 255,
        alpha >= 1,
    ensures
        0 <= c * 255 / alpha <= 65025,
{
    assert(c * 255 / alpha <= c * 255) by (nonlinear_arith)
        requires c * 255 >= 0, alpha >= 1;
    assert(c * 255 / alpha >= 0) by (nonlinear_arith)
        requires c * 255 >= 0, alpha >= 1;
}

/// Factor a matte pixel applies to its target for matte `kind`.
pub fn matte_factor(rgba: u32, kind: u8) -> (f: u32)
    ensures
        f == matte_factor_of(rgba, kind),
        f <= 255,
{
    let alpha = rgba >> 24u32;
    assert(alpha == rgba / 0x100_0000) by (bit_vector)
        requires alpha == rgba >> 24u32;
    if kind == MATTE_ALPHA {
        return alpha;
    }
    if kind == MATTE_ALPHA_INVERTED {
        return 255 - alpha;
    }
    let luma_value: u32 = if alpha == 0 {
        0
    } else {
        let mut red = rgba & 255;
        let mut green = (rgba >> 8u32) & 255;
        let mut blue = (rgba >> 16u32) & 255;
        assert(red == rgba % 0x100 && green == (rgba / 0x100) % 0x100 && blue == (rgba / 0x1_0000) % 0x100)
            by (bit_vector)
            requires
                red == rgba & 255,
                green == (rgba >> 8u32) & 255,
                blue == (rgba >> 16u32) & 255;
        if alpha != 255 {
            proof {
                lemma_scaled_bound(red as int, alpha as int);
                lemma_scaled_bound(green as int, alpha as int);
                lemma_scaled_bound(blue as int, alpha as int);
            }
            red = red * 255 / alpha;
            green = green * 255 / alpha;
            blue = blue * 255 / alpha;
        }
        let weighted = (red * 299 + green * 587 + blue * 114) / 1000;
        if weighted > 255 { 255 } else { weighted }
    };
    if kind == MATTE_LUMA {
        luma_value
    } else {
        255 - luma_value
    }
}

} // verus!
