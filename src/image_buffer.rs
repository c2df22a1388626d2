//! Size of an interleaved RGB buffer, one entry per channel of each pixel.
use vstd::prelude::*;

verus! {

/// Whether a buffer of `len` entries holds exactly the three channels of each
/// pixel of a `width` by `height` image.
pub fn rgb_buffer_fits(width: u32, height: u32, len: usize) -> (r: bool)
    ensures
        r == (len as nat == 3 * width as nat * height as nat),
{
    let w = width as u128;
    let h = height as u128;
    assert(w * h <= u32::MAX as u128 * u32::MAX as u128) by (nonlinear_arith)
        requires
            w <= u32::MAX,
            h <= u32::MAX,
    ;
    let channels: u128 = 3 * (w * h);
    assert(3 * (w * h) == 3 * width as nat * height as nat) by (nonlinear_arith)
        requires
            w == width as nat,
            h == height as nat,
    ;
    (len as u128) == channels
}

} // verus!
