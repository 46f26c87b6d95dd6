use vstd::prelude::*;

use crate::config::Config;
use crate::pixel::{Pixel, packed, pixel_index, pixel_to_values};

verus! {

/// The framebuffer position a pixel is written to, for rows `width` long.
pub open spec fn target(p: Pixel, width: int) -> int {
    pixel_index(p.x as int, p.y as int, width)
}

/// The framebuffer after the pixels are written one after the other, each
/// replacing the word at its position with its packed colour.
pub open spec fn written(buf: Seq<u32>, pixels: Seq<Pixel>, width: int) -> Seq<u32>
    decreases pixels.len(),
{
    if pixels.len() == 0 {
        buf
    } else {
        let p = pixels.last();
        written(buf, pixels.drop_last(), width).update(target(p, width), packed(p.r, p.g, p.b))
    }
}

proof fn lemma_written_len(buf: Seq<u32>, pixels: Seq<Pixel>, width: int)
    requires
        forall|k: int|
            0 <= k < pixels.len() ==> 0 <= #[trigger] target(pixels[k], width) < buf.len(),
    ensures
        written(buf, pixels, width).len() == buf.len(),
    decreases pixels.len(),
{
    if pixels.len() > 0 {
        lemma_written_len(buf, pixels.drop_last(), width);
    }
}

/// Writes one pixel's packed colour at its row-major position.
pub fn write_pixel(buffer: &mut Vec<u32>, pixel: Pixel, width: usize)
    requires
        0 <= target(pixel, width as int) < old(buffer)@.len(),
    ensures
        final(buffer)@ == old(buffer)@.update(
            target(pixel, width as int),
            packed(pixel.r, pixel.g, pixel.b),
        ),
{
    let _len = buffer.len();
    let (idx, color) = pixel_to_values(pixel, width);
    buffer.set(idx, color);
}

/// Writes the pixels into a framebuffer of rows `config.side_lengths` long, in
/// the order they come; a later pixel at the same position wins.
pub fn buffer_updater(buffer: &mut Vec<u32>, pixels: &Vec<Pixel>, config: Config)
    requires
        forall|k: int|
            0 <= k < pixels@.len() ==> 0 <= #[trigger] target(
                pixels@[k],
                config.side_lengths as int,
            ) < old(buffer)@.len(),
    ensures
        final(buffer)@ == written(old(buffer)@, pixels@, config.side_lengths as int),
{
    let width = config.side_lengths;
    let ghost start = buffer@;
    let mut i: usize = 0;
    while i < pixels.len()
        invariant
            width == config.side_lengths,
            i <= pixels@.len(),
            start.len() == buffer@.len(),
            forall|k: int|
                0 <= k < pixels@.len() ==> 0 <= #[trigger] target(pixels@[k], width as int)
                    < start.len(),
            buffer@ == written(start, pixels@.take(i as int), width as int),
        decreases pixels@.len() - i,
    {
        proof {
            assert(pixels@.take(i as int + 1).drop_last() =~= pixels@.take(i as int));
            assert(pixels@.take(i as int + 1).last() == pixels@[i as int]);
        }
        write_pixel(buffer, pixels[i], width);
        proof {
            assert forall|k: int| 0 <= k < pixels@.take(i as int + 1).len() implies 0
                <= #[trigger] target(pixels@.take(i as int + 1)[k], width as int) < start.len() by {
                assert(pixels@.take(i as int + 1)[k] == pixels@[k]);
            }
            lemma_written_len(start, pixels@.take(i as int + 1), width as int);
        }
        i = i + 1;
    }
    proof {
        assert(pixels@.take(pixels@.len() as int) =~= pixels@);
    }
}

} // verus!
