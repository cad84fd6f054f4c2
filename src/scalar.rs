use vstd::prelude::*;

verus! {

/// Grayscale blending for RGB and RGBA paint: the blended level of the red channel is
/// spread over red, green and blue; alpha is copied unscaled.
pub struct GrayscaleRgbScalar;

impl GrayscaleRgbScalar {
    /// RGB paint with `level` in each of its three channels.
    pub fn shade_rgb(level: u8) -> (r: [u8; 3])
        ensures
            r@ == seq![level, level, level],
    {
        let r = [level, level, level];
        assert(r@ =~= seq![level, level, level]);
        r
    }

    /// RGBA paint with `level` in red, green and blue, and the alpha of `paint`.
    pub fn shade_rgba(paint: &[u8; 4], level: u8) -> (r: [u8; 4])
        ensures
            r@ == seq![level, level, level, paint@[3]],
    {
        let r = [level, level, level, paint[3]];
        assert(r@ =~= seq![level, level, level, paint@[3]]);
        r
    }
}

} // verus!
