use vstd::prelude::*;
use vstd::arithmetic::div_mod::{lemma_fundamental_div_mod_converse, lemma_fundamental_div_mod};
use vstd::arithmetic::mul::lemma_mul_inequality;

verus! {

/// One finished pixel of the image: its grid position and its three channels.
#[derive(Clone, Copy, Debug, PartialEq, Eq, Structural)]
pub struct Pixel {
    pub x: usize,
    pub y: usize,
    pub r: u8,
    pub b: u8,
    pub g: u8,
}

/// The packed colour word `0x00RRGGBB` of three 8-bit channels.
pub open spec fn packed(r: u8, g: u8, b: u8) -> u32 {
    ((r as u32) << 16u32) | ((g as u32) << 8u32) | (b as u32)
}

/// Row-major position of grid cell `(x, y)` in a framebuffer whose rows are `width` long.
pub open spec fn pixel_index(x: int, y: int, width: int) -> int {
    y * width + x
}

/// The grid cell `(x, y)` stored at row-major position `i`.
pub open spec fn index_pixel(i: int, width: int) -> (int, int) {
    (i % width, i / width)
}

/// Packs three channels into one word, red in bits 23-16, green in 15-8, blue in 7-0.
pub fn rgb_to_u32(r: u8, g: u8, b: u8) -> (c: u32)
    ensures
        c == packed(r, g, b),
        c as int == (r as int) * 65536 + (g as int) * 256 + (b as int),
{
    let (r32, g32, b32) = (r as u32, g as u32, b as u32);
    assert(((r32 << 16u32) | (g32 << 8u32) | b32) as int == (r32 as int) * 65536 + (g32 as int)
        * 256 + (b32 as int)) by (bit_vector)
        requires
            r32 < 256,
            g32 < 256,
            b32 < 256,
    ;
    (r32 << 16u32) | (g32 << 8u32) | b32
}

/// Row-major framebuffer position of the cell `(x, y)`.
pub fn pixel_to_index(x: usize, y: usize, width: usize) -> (i: usize)
    requires
        pixel_index(x as int, y as int, width as int) <= usize::MAX,
    ensures
        i == pixel_index(x as int, y as int, width as int),
{
    proof {
        vstd::arithmetic::mul::lemma_mul_nonnegative(y as int, width as int);
    }
    y * width + x
}

/// The cell `(x, y)` at row-major framebuffer position `i`.
pub fn index_to_pixel(i: usize, width: usize) -> (p: (usize, usize))
    requires
        width > 0,
    ensures
        p.0 as int == index_pixel(i as int, width as int).0,
        p.1 as int == index_pixel(i as int, width as int).1,
{
    (i % width, i / width)
}

/// Where a pixel goes in a framebuffer of rows `width` long, and the word written there.
pub fn pixel_to_values(pixel: Pixel, width: usize) -> (v: (usize, u32))
    requires
        pixel_index(pixel.x as int, pixel.y as int, width as int) <= usize::MAX,
    ensures
        v.0 == pixel_index(pixel.x as int, pixel.y as int, width as int),
        v.1 == packed(pixel.r, pixel.g, pixel.b),
{
    let idx = pixel_to_index(pixel.x, pixel.y, width);
    let color = rgb_to_u32(pixel.r, pixel.g, pixel.b);
    (idx, color)
}

/// A cell inside a `width`-wide grid goes to a position from which `index_pixel`
/// gives the same cell back, and each position below `width * width` comes from
/// the cell inside the grid that `index_pixel` names.
pub proof fn lemma_index_round_trip(x: int, y: int, i: int, width: int)
    requires
        0 <= x < width,
        0 <= y < width,
        0 <= i < width * width,
    ensures
        index_pixel(pixel_index(x, y, width), width) == (x, y),
        0 <= pixel_index(x, y, width) < width * width,
        0 <= index_pixel(i, width).0 < width,
        0 <= index_pixel(i, width).1 < width,
        pixel_index(index_pixel(i, width).0, index_pixel(i, width).1, width) == i,
{
    lemma_fundamental_div_mod_converse(y * width + x, width, y, x);
    lemma_mul_inequality(y, width - 1, width);
    assert((width - 1) * width == width * width - width) by (nonlinear_arith);
    lemma_fundamental_div_mod(i, width);
    let q = i / width;
    if q >= width {
        lemma_mul_inequality(width, q, width);
        assert(width * q == q * width) by (nonlinear_arith);
    }
    assert(q >= 0) by {
        vstd::arithmetic::div_mod::lemma_div_pos_is_pos(i, width);
    }
    assert(width * q == q * width) by (nonlinear_arith);
}

} // verus!
