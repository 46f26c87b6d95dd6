use mandelbrot::pixel::{index_to_pixel, pixel_to_index, pixel_to_values, rgb_to_u32, Pixel};

#[test]
fn test_rgb_to_u32() {
    assert_eq!(0, rgb_to_u32(0, 0, 0));
    assert_eq!(16777215, rgb_to_u32(255, 255, 255));
    assert_eq!(16711680, rgb_to_u32(255, 0, 0));
    assert_eq!(65280, rgb_to_u32(0, 255, 0));
    assert_eq!(255, rgb_to_u32(0, 0, 255));
}

#[test]
fn rgb_to_u32_is_bit_pack() {
    assert_eq!(0x123456, rgb_to_u32(0x12, 0x34, 0x56));
    assert_eq!((9u32 << 16) | 255, rgb_to_u32(9, 0, 255));
}

#[test]
fn test_pixel_to_values() {
    assert_eq!((793441, 590079), pixel_to_values(Pixel { x: 441, y: 793, r: 9, g: 0, b: 255 }, 1000));
    assert_eq!((853494, 65361), pixel_to_values(Pixel { x: 494, y: 853, r: 0, g: 255, b: 81 }, 1000));
    assert_eq!((566341, 0), pixel_to_values(Pixel { x: 341, y: 566, r: 0, g: 0, b: 0 }, 1000));
    assert_eq!((885684, 10944767), pixel_to_values(Pixel { x: 684, y: 885, r: 167, g: 0, b: 255 }, 1000));
    assert_eq!((675756, 0), pixel_to_values(Pixel { x: 756, y: 675, r: 0, g: 0, b: 0 }, 1000));
    assert_eq!((923890, 16711875), pixel_to_values(Pixel { x: 890, y: 923, r: 255, g: 0, b: 195 }, 1000));
    assert_eq!((404979, 5869454), pixel_to_values(Pixel { x: 979, y: 404, r: 89, g: 143, b: 142 }, 1000));
}

#[test]
fn index_round_trip() {
    assert_eq!(pixel_to_index(7, 3, 10), 37);
    assert_eq!(index_to_pixel(37, 10), (7, 3));
    for width in [1usize, 2, 7, 100] {
        for y in 0..width {
            for x in 0..width {
                let i = pixel_to_index(x, y, width);
                assert_eq!(i, y * width + x);
                assert_eq!(index_to_pixel(i, width), (x, y));
            }
        }
    }
}
