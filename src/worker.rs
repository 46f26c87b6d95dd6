use vstd::prelude::*;
use vstd::arithmetic::div_mod::{lemma_fundamental_div_mod_converse, lemma_fundamental_div_mod, lemma_div_is_ordered, lemma_div_pos_is_pos, lemma_mod_bound};
use vstd::arithmetic::mul::lemma_mul_inequality;

use crate::pixel::Pixel;
use crate::tiles::{WorkItem, in_tile};

verus! {

/// The colour of one sample: three 8-bit channels, in the order in which
/// they become the pixel's red, green and blue.
pub type Sample = (u8, u8, u8);

/// Number of columns of a tile (none when its bounds are reversed).
pub open spec fn tile_width(t: WorkItem) -> nat {
    if t.final_x > t.initial_x {
        (t.final_x - t.initial_x) as nat
    } else {
        0
    }
}

/// Number of rows of a tile (none when its bounds are reversed).
pub open spec fn tile_height(t: WorkItem) -> nat {
    if t.final_y > t.initial_y {
        (t.final_y - t.initial_y) as nat
    } else {
        0
    }
}

/// The `k`-th cell visited in a tile: columns left to right, each column top
/// to bottom.
pub open spec fn tile_cell(t: WorkItem, k: int) -> (int, int) {
    (t.initial_x + k / (tile_height(t) as int), t.initial_y + k % (tile_height(t) as int))
}

/// Channel `c` (0, 1 or 2) of a sample.
pub open spec fn channel(p: Sample, c: int) -> nat {
    if c == 0 {
        p.0 as nat
    } else if c == 1 {
        p.1 as nat
    } else {
        p.2 as nat
    }
}

/// Sum of channel `c` over the samples.
pub open spec fn channel_sum(s: Seq<Sample>, c: int) -> nat
    decreases s.len(),
{
    if s.len() == 0 {
        0
    } else {
        channel_sum(s.drop_last(), c) + channel(s.last(), c)
    }
}

/// Mean of channel `c` over the samples, rounded down; no samples give 0.
pub open spec fn channel_mean(s: Seq<Sample>, c: int) -> nat {
    if s.len() == 0 {
        0
    } else {
        channel_sum(s, c) / s.len()
    }
}

/// The pixel at `cell` whose colour is the mean of the samples.
pub open spec fn shaded(cell: (int, int), s: Seq<Sample>) -> Pixel {
    Pixel {
        x: cell.0 as usize,
        y: cell.1 as usize,
        r: channel_mean(s, 0) as u8,
        g: channel_mean(s, 1) as u8,
        b: channel_mean(s, 2) as u8,
    }
}

/// The per-channel sums of the samples fit in 64 bits.
pub open spec fn summable(s: Seq<Sample>) -> bool {
    255 * s.len() <= u64::MAX
}

proof fn lemma_channel_sum_bound(s: Seq<Sample>, c: int)
    ensures
        channel_sum(s, c) <= 255 * s.len(),
    decreases s.len(),
{
    if s.len() > 0 {
        lemma_channel_sum_bound(s.drop_last(), c);
    }
}

proof fn lemma_mean_fits(sum: int, n: int)
    requires
        0 <= sum <= 255 * n,
        n > 0,
    ensures
        0 <= sum / n <= 255,
{
    lemma_div_is_ordered(sum, 255 * n, n);
    lemma_fundamental_div_mod_converse(255 * n, n, 255, 0);
    lemma_div_pos_is_pos(sum, n);
}

/// The mean colour of a pixel's samples: each channel summed and divided by the
/// number of samples, rounded down; a pixel without samples is black.
pub fn mean_color(samples: &Vec<Sample>) -> (c: Sample)
    requires
        summable(samples@),
    ensures
        c.0 as nat == channel_mean(samples@, 0),
        c.1 as nat == channel_mean(samples@, 1),
        c.2 as nat == channel_mean(samples@, 2),
{
    let n = samples.len();
    let mut sum_r: u64 = 0;
    let mut sum_g: u64 = 0;
    let mut sum_b: u64 = 0;
    let mut i: usize = 0;
    while i < n
        invariant
            n == samples@.len(),
            summable(samples@),
            i <= n,
            sum_r as nat == channel_sum(samples@.take(i as int), 0),
            sum_g as nat == channel_sum(samples@.take(i as int), 1),
            sum_b as nat == channel_sum(samples@.take(i as int), 2),
        decreases n - i,
    {
        let ghost before = samples@.take(i as int);
        let ghost after = samples@.take(i as int + 1);
        proof {
            assert(after.drop_last() =~= before);
            lemma_channel_sum_bound(after, 0);
            lemma_channel_sum_bound(after, 1);
            lemma_channel_sum_bound(after, 2);
            assert(255 * after.len() <= 255 * samples@.len());
        }
        let (r, g, b) = samples[i];
        sum_r = sum_r + r as u64;
        sum_g = sum_g + g as u64;
        sum_b = sum_b + b as u64;
        i = i + 1;
    }
    proof {
        assert(samples@.take(n as int) =~= samples@);
    }
    if n == 0 {
        return (0, 0, 0);
    }
    let count = n as u64;
    proof {
        lemma_channel_sum_bound(samples@, 0);
        lemma_channel_sum_bound(samples@, 1);
        lemma_channel_sum_bound(samples@, 2);
        lemma_mean_fits(sum_r as int, n as int);
        lemma_mean_fits(sum_g as int, n as int);
        lemma_mean_fits(sum_b as int, n as int);
    }
    ((sum_r / count) as u8, (sum_g / count) as u8, (sum_b / count) as u8)
}

proof fn lemma_cell_number(t: WorkItem, x: int, y: int)
    requires
        t.initial_x <= x < t.final_x,
        t.initial_y <= y < t.final_y,
    ensures
        ({
            let k = (x - t.initial_x) * tile_height(t) + (y - t.initial_y);
            0 <= k < tile_width(t) * tile_height(t) && tile_cell(t, k) == (x, y)
        }),
{
    let h = tile_height(t) as int;
    let w = tile_width(t) as int;
    let i = x - t.initial_x;
    let j = y - t.initial_y;
    lemma_fundamental_div_mod_converse(i * h + j, h, i, j);
    lemma_mul_inequality(i + 1, w, h);
    assert((i + 1) * h == i * h + h) by (nonlinear_arith);
    assert(i * h >= 0) by (nonlinear_arith)
        requires
            i >= 0,
            h >= 0,
    ;
}

/// The cells of a tile in the order its pixels are made: columns left to
/// right, each column top to bottom.
pub fn tile_cells(work_item: &WorkItem) -> (cells: Vec<(usize, usize)>)
    requires
        tile_width(*work_item) * tile_height(*work_item) <= usize::MAX,
    ensures
        cells@.len() == tile_width(*work_item) * tile_height(*work_item),
        forall|k: int|
            0 <= k < cells@.len() ==> (cells@[k].0 as int, cells@[k].1 as int) == tile_cell(
                *work_item,
                k,
            ),
{
    let t = *work_item;
    let mut cells: Vec<(usize, usize)> = Vec::new();
    let mut x = t.initial_x;
    while x < t.final_x
        invariant
            t == *work_item,
            t.initial_x <= x,
            t.initial_x < t.final_x ==> x <= t.final_x,
            t.initial_x >= t.final_x ==> x == t.initial_x,
            cells@.len() == (x - t.initial_x) * tile_height(t),
            forall|k: int|
                0 <= k < cells@.len() ==> (cells@[k].0 as int, cells@[k].1 as int) == tile_cell(
                    t,
                    k,
                ),
        decreases t.final_x - x,
    {
        let mut y = t.initial_y;
        while y < t.final_y
            invariant
                t == *work_item,
                t.initial_x <= x < t.final_x,
                t.initial_y <= y,
                t.initial_y < t.final_y ==> y <= t.final_y,
                t.initial_y >= t.final_y ==> y == t.initial_y,
                cells@.len() == (x - t.initial_x) * tile_height(t) + (y - t.initial_y),
                forall|k: int|
                    0 <= k < cells@.len() ==> (cells@[k].0 as int, cells@[k].1 as int)
                        == tile_cell(t, k),
            decreases t.final_y - y,
        {
            proof {
                lemma_cell_number(t, x as int, y as int);
            }
            cells.push((x, y));
            y = y + 1;
        }
        proof {
            assert(y - t.initial_y == tile_height(t));
            assert((x - t.initial_x + 1) * tile_height(t) == (x - t.initial_x) * tile_height(t)
                + tile_height(t)) by (nonlinear_arith);
        }
        x = x + 1;
    }
    proof {
        if t.initial_x >= t.final_x {
            assert(tile_width(t) == 0);
        } else {
            assert(x - t.initial_x == tile_width(t));
        }
    }
    cells
}

/// Makes the pixels of one tile, in the order of `tile_cells`: the `k`-th pixel
/// stands at the `k`-th cell and its colour is the mean of `samples[k]`.
pub fn worker(work_item: &WorkItem, samples: &Vec<Vec<Sample>>) -> (pixels: Vec<Pixel>)
    requires
        samples@.len() == tile_width(*work_item) * tile_height(*work_item),
        forall|k: int| 0 <= k < samples@.len() ==> summable(#[trigger] samples@[k]@),
    ensures
        pixels@.len() == samples@.len(),
        forall|k: int|
            0 <= k < pixels@.len() ==> pixels@[k] == shaded(
                tile_cell(*work_item, k),
                samples@[k]@,
            ),
{
    let t = *work_item;
    let mut pixels: Vec<Pixel> = Vec::new();
    let mut x = t.initial_x;
    while x < t.final_x
        invariant
            t == *work_item,
            samples@.len() == tile_width(t) * tile_height(t),
            forall|k: int| 0 <= k < samples@.len() ==> summable(#[trigger] samples@[k]@),
            t.initial_x <= x,
            t.initial_x < t.final_x ==> x <= t.final_x,
            t.initial_x >= t.final_x ==> x == t.initial_x,
            pixels@.len() == (x - t.initial_x) * tile_height(t),
            forall|k: int|
                0 <= k < pixels@.len() ==> pixels@[k] == shaded(tile_cell(t, k), samples@[k]@),
        decreases t.final_x - x,
    {
        let mut y = t.initial_y;
        while y < t.final_y
            invariant
                t == *work_item,
                samples@.len() == tile_width(t) * tile_height(t),
                forall|k: int| 0 <= k < samples@.len() ==> summable(#[trigger] samples@[k]@),
                t.initial_x <= x < t.final_x,
                t.initial_y <= y,
                t.initial_y < t.final_y ==> y <= t.final_y,
                t.initial_y >= t.final_y ==> y == t.initial_y,
                pixels@.len() == (x - t.initial_x) * tile_height(t) + (y - t.initial_y),
                forall|k: int|
                    0 <= k < pixels@.len() ==> pixels@[k] == shaded(
                        tile_cell(t, k),
                        samples@[k]@,
                    ),
            decreases t.final_y - y,
        {
            proof {
                lemma_cell_number(t, x as int, y as int);
            }
            let k = pixels.len();
            let (r, g, b) = mean_color(&samples[k]);
            let p = Pixel { x, y, r, g, b };
            proof {
                assert(p == shaded(tile_cell(t, k as int), samples@[k as int]@));
            }
            pixels.push(p);
            y = y + 1;
        }
        proof {
            assert(y - t.initial_y == tile_height(t));
            assert((x - t.initial_x + 1) * tile_height(t) == (x - t.initial_x) * tile_height(t)
                + tile_height(t)) by (nonlinear_arith);
        }
        x = x + 1;
    }
    proof {
        if t.initial_x >= t.final_x {
            assert(tile_width(t) == 0);
        } else {
            assert(x - t.initial_x == tile_width(t));
        }
    }
    pixels
}

/// A tile of `w` columns and `h` rows has `w * h` pixels, one per cell: the
/// `k`-th cell lies in the tile, every cell of the tile is the `k`-th for some
/// `k < w * h`, and no two numbers give the same cell.
pub proof fn lemma_tile_cells_cover(t: WorkItem)
    ensures
        forall|k: int|
            0 <= k < tile_width(t) * tile_height(t) ==> {
                let c = #[trigger] tile_cell(t, k);
                in_tile(t, c.0, c.1)
            },
        forall|x: int, y: int|
            #[trigger] in_tile(t, x, y) ==> exists|k: int|
                0 <= k < tile_width(t) * tile_height(t) && #[trigger] tile_cell(t, k) == (x, y),
        forall|k1: int, k2: int|
            0 <= k1 < tile_width(t) * tile_height(t) && 0 <= k2 < tile_width(t) * tile_height(t)
                && k1 != k2 ==> #[trigger] tile_cell(t, k1) != #[trigger] tile_cell(t, k2),
{
    let w = tile_width(t) as int;
    let h = tile_height(t) as int;
    assert forall|k: int| 0 <= k < w * h implies {
        let c = #[trigger] tile_cell(t, k);
        in_tile(t, c.0, c.1)
    } by {
        lemma_cell_bounds(t, k);
    }
    assert forall|x: int, y: int| #[trigger] in_tile(t, x, y) implies exists|k: int|
            0 <= k < w * h && #[trigger] tile_cell(t, k) == (x, y) by {
        lemma_cell_number(t, x, y);
    }
    assert forall|k1: int, k2: int|
        0 <= k1 < w * h && 0 <= k2 < w * h && k1 != k2 implies #[trigger] tile_cell(t, k1)
        != #[trigger] tile_cell(t, k2) by {
        lemma_cell_bounds(t, k1);
        lemma_fundamental_div_mod(k1, h);
        lemma_fundamental_div_mod(k2, h);
    }
}

proof fn lemma_cell_bounds(t: WorkItem, k: int)
    requires
        0 <= k < tile_width(t) * tile_height(t),
    ensures
        tile_height(t) > 0,
        tile_width(t) > 0,
        t.initial_x <= tile_cell(t, k).0 < t.final_x,
        t.initial_y <= tile_cell(t, k).1 < t.final_y,
{
    let w = tile_width(t) as int;
    let h = tile_height(t) as int;
    assert(w > 0 && h > 0) by {
        if w == 0 || h == 0 {
            assert(w * h == 0) by (nonlinear_arith)
                requires
                    w == 0 || h == 0,
            ;
        }
    }
    lemma_fundamental_div_mod(k, h);
    lemma_div_pos_is_pos(k, h);
    lemma_mod_bound(k, h);
    let i = k / h;
    if i >= w {
        lemma_mul_inequality(w, i, h);
    }
}

} // verus!
