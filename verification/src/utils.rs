use vstd::prelude::*;

verus! {

/// The Win32 `COLORREF` value of a colour: red in the low byte, then green,
/// then blue, as the `RGB` macro builds it.
pub fn colorref_from_rgb(r: u8, g: u8, b: u8) -> (c: u32)
    ensures
        c == r + 256 * g + 65536 * b,
{
    let c = (r as u32) | ((g as u32) << 8) | ((b as u32) << 16);
    assert(c == r + 256 * g + 65536 * b) by (bit_vector)
        requires
            c == (r as u32) | ((g as u32) << 8) | ((b as u32) << 16),
    ;
    c
}

} // verus!
