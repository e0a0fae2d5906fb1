//! Packed 24-bit RGB color values stored in a 32-bit slot.

use vstd::prelude::*;

verus! {

/// The red, green and blue channels of a packed color, as mathematical values.
pub open spec fn spec_rgb(r: u8, g: u8, b: u8) -> int {
    r * 0x10000 + g * 0x100 + b
}

/// Pack three 8-bit channels into one 32-bit color:
/// R in bits 16-23, G in bits 8-15, B in bits 0-7.
pub fn u8_rgb_color(r: u8, g: u8, b: u8) -> (c: u32)
    ensures
        c == spec_rgb(r, g, b),
        c & 0xff == b,
        (c >> 8) & 0xff == g,
        (c >> 16) & 0xff == r,
{
    let (r, g, b) = (r as u32, g as u32, b as u32);
    let c = (r << 16) | (g << 8) | b;
    proof {
        assert(c == r * 0x10000 + g * 0x100 + b && c & 0xff == b && (c >> 8) & 0xff == g && (c
            >> 16) & 0xff == r) by (bit_vector)
            requires
                r < 0x100 && g < 0x100 && b < 0x100 && c == (r << 16) | (g << 8) | b,
        ;
    }
    c
}

} // verus!
