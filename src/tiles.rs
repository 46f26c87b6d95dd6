use vstd::prelude::*;
use vstd::arithmetic::div_mod::{lemma_fundamental_div_mod_converse, lemma_fundamental_div_mod, lemma_div_pos_is_pos, lemma_mod_bound};
use vstd::arithmetic::mul::{lemma_mul_inequality, lemma_mul_strict_inequality};

use crate::config::Config;

verus! {

/// A rectangle of the image, `initial_x <= x < final_x` and `initial_y <= y < final_y`:
/// the unit of work handed to one worker.
#[derive(Clone, Copy, Debug, PartialEq, Eq, Structural)]
pub struct WorkItem {
    pub initial_x: usize,
    pub final_x: usize,
    pub initial_y: usize,
    pub final_y: usize,
}

/// The integer square root, `floor(sqrt(n))`.
pub open spec fn floor_sqrt(n: nat) -> nat
    decreases n,
{
    if n == 0 {
        0
    } else {
        let r = floor_sqrt((n - 1) as nat);
        if (r + 1) * (r + 1) <= n {
            r + 1
        } else {
            r
        }
    }
}

/// `s` is the integer square root of `n`.
pub open spec fn is_floor_sqrt(n: int, s: int) -> bool {
    0 <= s && s * s <= n < (s + 1) * (s + 1)
}

/// Tile number `k` of an `s` by `s` grid over a `side`-long square: column `k / s`,
/// row `k % s`, each tile `side / s` wide and high.
pub open spec fn grid_tile(side: nat, s: nat, k: int) -> WorkItem {
    let w = side / s;
    let i = k / (s as int);
    let j = k % (s as int);
    WorkItem {
        initial_x: (i * w) as usize,
        final_x: ((i + 1) * w) as usize,
        initial_y: (j * w) as usize,
        final_y: ((j + 1) * w) as usize,
    }
}

/// The tiles made for an image of side `side` cut in `blocks` tiles: a grid of
/// `floor_sqrt(blocks)` columns, each column emitted top to bottom.
pub open spec fn tile_grid(side: nat, blocks: nat) -> Seq<WorkItem> {
    let s = floor_sqrt(blocks);
    Seq::new(s * s, |k: int| grid_tile(side, s, k))
}

/// The cell `(x, y)` lies in the tile.
pub open spec fn in_tile(t: WorkItem, x: int, y: int) -> bool {
    t.initial_x <= x < t.final_x && t.initial_y <= y < t.final_y
}

/// Two tiles share no cell.
pub open spec fn disjoint(a: WorkItem, b: WorkItem) -> bool {
    a.final_x <= b.initial_x || b.final_x <= a.initial_x || a.final_y <= b.initial_y
        || b.final_y <= a.initial_y
}

proof fn lemma_floor_sqrt_bounds(n: nat)
    ensures
        is_floor_sqrt(n as int, floor_sqrt(n) as int),
    decreases n,
{
    if n > 0 {
        lemma_floor_sqrt_bounds((n - 1) as nat);
        let r = floor_sqrt((n - 1) as nat) as int;
        assert((r + 1) * (r + 1) < (r + 2) * (r + 2)) by (nonlinear_arith)
            requires
                r >= 0,
        ;
    }
}

proof fn lemma_floor_sqrt_unique(n: int, s: int, t: int)
    requires
        is_floor_sqrt(n, s),
        is_floor_sqrt(n, t),
    ensures
        s == t,
{
    if s < t {
        lemma_mul_inequality(s + 1, t, s + 1);
        lemma_mul_inequality(s + 1, t, t);
    } else if t < s {
        lemma_mul_inequality(t + 1, s, t + 1);
        lemma_mul_inequality(t + 1, s, s);
    }
}

/// Any `s` with `s * s <= n < (s + 1) * (s + 1)` is `floor_sqrt(n)`.
pub proof fn lemma_floor_sqrt_is(n: nat, s: nat)
    requires
        is_floor_sqrt(n as int, s as int),
    ensures
        floor_sqrt(n) == s,
{
    lemma_floor_sqrt_bounds(n);
    lemma_floor_sqrt_unique(n as int, s as int, floor_sqrt(n) as int);
}

/// The integer square root of `n`, found by bisection.
pub fn integer_sqrt(n: usize) -> (s: usize)
    ensures
        s as nat == floor_sqrt(n as nat),
{
    let m: u64 = n as u64;
    let mut lo: u64 = 0;
    let mut hi: u64 = 4294967296;
    assert(n as int <= u64::MAX);
    assert(4294967296int * 4294967296int == u64::MAX + 1);
    while hi - lo > 1
        invariant
            lo < hi <= 4294967296,
            m as int == n as int,
            lo * lo <= m as int,
            (m as int) < hi * hi,
        decreases hi - lo,
    {
        let mid: u64 = lo + (hi - lo) / 2;
        assert(mid < 4294967296);
        assert(mid * mid < 4294967296int * 4294967296int) by {
            lemma_mul_strict_inequality(mid as int, 4294967296, mid as int);
            lemma_mul_strict_inequality(mid as int, 4294967296, 4294967296);
        }
        if mid * mid <= m {
            lo = mid;
        } else {
            hi = mid;
        }
    }
    proof {
        assert(hi == lo + 1);
        lemma_floor_sqrt_is(n as nat, lo as nat);
        if lo > n {
            lemma_mul_inequality(1, lo as int, lo as int);
        }
    }
    lo as usize
}

proof fn lemma_grid_cell(side: nat, s: nat, k: int)
    requires
        0 <= k < s * s,
        s <= side,
    ensures
        0 <= k / (s as int) < s,
        0 <= k % (s as int) < s,
        side / s >= 1,
        (k / (s as int) + 1) * ((side / s) as int) <= side,
        (k % (s as int) + 1) * ((side / s) as int) <= side,
        (k / (s as int)) * ((side / s) as int) >= 0,
        (k % (s as int)) * ((side / s) as int) >= 0,
        (k / (s as int)) * ((side / s) as int) < (k / (s as int) + 1) * ((side / s) as int),
        (k % (s as int)) * ((side / s) as int) < (k % (s as int) + 1) * ((side / s) as int),
{
    let si = s as int;
    let w = ((side as nat) / s) as int;
    assert(si > 0) by {
        if s == 0 {
            assert(s * s == 0);
        }
    }
    lemma_fundamental_div_mod(k, si);
    lemma_div_pos_is_pos(k, si);
    lemma_mod_bound(k, si);
    let i = k / si;
    let j = k % si;
    if i >= si {
        lemma_mul_inequality(si, i, si);
        assert(si * i == i * si) by (nonlinear_arith);
    }
    lemma_fundamental_div_mod(side as int, si);
    lemma_mod_bound(side as int, si);
    assert(w >= 1) by {
        if w < 1 {
            lemma_div_pos_is_pos(side as int, si);
            assert(si * w == 0) by (nonlinear_arith)
                requires
                    w == 0,
            ;
        }
    }
    assert(si * w <= side);
    assert(w * si == si * w) by (nonlinear_arith);
    lemma_mul_inequality(i + 1, si, w);
    lemma_mul_inequality(j + 1, si, w);
    assert(i * w >= 0) by (nonlinear_arith)
        requires
            i >= 0,
            w >= 0,
    ;
    assert(j * w >= 0) by (nonlinear_arith)
        requires
            j >= 0,
            w >= 0,
    ;
    assert((i + 1) * w == i * w + w) by (nonlinear_arith);
    assert((j + 1) * w == j * w + w) by (nonlinear_arith);
}

/// Cuts a square image of side `config.side_lengths` into a grid of
/// `floor_sqrt(config.num_blocks)` by `floor_sqrt(config.num_blocks)` equal tiles,
/// each `side_lengths / floor_sqrt(num_blocks)` wide; columns come one after
/// the other, each from top to bottom.
pub fn work_item_creator(config: Config) -> (tiles: Vec<WorkItem>)
    ensures
        tiles@ == tile_grid(config.side_lengths as nat, config.num_blocks as nat),
{
    let side = config.side_lengths;
    let s = integer_sqrt(config.num_blocks);
    let ghost sn = s as nat;
    proof {
        lemma_floor_sqrt_bounds(config.num_blocks as nat);
    }
    let mut tiles: Vec<WorkItem> = Vec::new();
    if s == 0 {
        proof {
            assert(tiles@ =~= tile_grid(side as nat, config.num_blocks as nat));
        }
        return tiles;
    }
    let w = side / s;
    proof {
        lemma_fundamental_div_mod(side as int, s as int);
        lemma_mod_bound(side as int, s as int);
        lemma_div_pos_is_pos(side as int, s as int);
    }
    let mut i: usize = 0;
    while i < s
        invariant
            0 < s,
            sn == s as nat,
            sn == floor_sqrt(config.num_blocks as nat),
            s * s <= config.num_blocks,
            side == config.side_lengths,
            w == side / s,
            s * w <= side,
            i <= s,
            tiles@.len() == i * s,
            forall|k: int| 0 <= k < tiles@.len() ==> tiles@[k] == grid_tile(side as nat, sn, k),
        decreases s - i,
    {
        let mut j: usize = 0;
        proof {
            assert(i * s + s == (i + 1) * s) by (nonlinear_arith);
            lemma_mul_inequality(i as int + 1, s as int, s as int);
            lemma_mul_inequality(i as int + 1, s as int, w as int);
            assert((i + 1) * w == i * w + w) by (nonlinear_arith);
            assert(w * s == s * w) by (nonlinear_arith);
        }
        while j < s
            invariant
                0 < s,
                sn == s as nat,
                side == config.side_lengths,
                w == side / s,
                i < s,
                j <= s,
                (i + 1) * s <= s * s,
                s * s <= config.num_blocks,
                (i + 1) * w <= side,
                (i + 1) * w == i * w + w,
                s * w <= side,
                tiles@.len() == i * s + j,
                forall|k: int| 0 <= k < tiles@.len() ==> tiles@[k] == grid_tile(side as nat, sn, k),
            decreases s - j,
        {
            proof {
                lemma_mul_inequality(j as int + 1, s as int, w as int);
                assert((j + 1) * w == j * w + w) by (nonlinear_arith);
                assert(w * s == s * w) by (nonlinear_arith);
            }
            let item = WorkItem {
                initial_x: i * w,
                final_x: (i + 1) * w,
                initial_y: j * w,
                final_y: (j + 1) * w,
            };
            proof {
                let k = (i * s + j) as int;
                lemma_fundamental_div_mod_converse(k, s as int, i as int, j as int);
                assert(item == grid_tile(side as nat, sn, k));
            }
            tiles.push(item);
            j = j + 1;
        }
        i = i + 1;
    }
    proof {
        assert(tiles@ =~= tile_grid(side as nat, config.num_blocks as nat));
    }
    tiles
}

/// For an image of side `side` cut in `blocks == s * s` tiles with `s <= side`:
/// there are exactly `s * s` tiles, each has positive area and lies inside the
/// image, and no two of them share a cell.
pub proof fn lemma_tiles_partition(side: usize, blocks: usize, s: nat)
    requires
        blocks as int == s * s,
        s <= side,
    ensures
        tile_grid(side as nat, blocks as nat).len() == s * s,
        forall|k: int|
            #![trigger tile_grid(side as nat, blocks as nat)[k]]
            0 <= k < s * s ==> {
                let t = tile_grid(side as nat, blocks as nat)[k];
                t.initial_x < t.final_x <= side && t.initial_y < t.final_y <= side
            },
        forall|k1: int, k2: int|
            0 <= k1 < s * s && 0 <= k2 < s * s && k1 != k2 ==> disjoint(
                #[trigger] tile_grid(side as nat, blocks as nat)[k1],
                #[trigger] tile_grid(side as nat, blocks as nat)[k2],
            ),
{
    assert((s as int) * (s as int) < (s + 1) * (s + 1)) by (nonlinear_arith);
    lemma_floor_sqrt_is(blocks as nat, s);
    let g = tile_grid(side as nat, blocks as nat);
    assert forall|k: int|
        #![trigger tile_grid(side as nat, blocks as nat)[k]]
        0 <= k < s * s implies {
            let t = tile_grid(side as nat, blocks as nat)[k];
            t.initial_x < t.final_x <= side && t.initial_y < t.final_y <= side
        } by {
        lemma_grid_cell(side as nat, s, k);
    }
    assert forall|k1: int, k2: int|
        0 <= k1 < s * s && 0 <= k2 < s * s && k1 != k2 implies disjoint(
            #[trigger] tile_grid(side as nat, blocks as nat)[k1],
            #[trigger] tile_grid(side as nat, blocks as nat)[k2],
        ) by {
        lemma_grid_cell(side as nat, s, k1);
        lemma_grid_cell(side as nat, s, k2);
        lemma_separated_cells(side as nat, s, k1, k2);
    }
}

/// When the side `side` is a multiple of `s` and `blocks == s * s`, every cell
/// `(x, y)` of the image lies in one of the tiles.
pub proof fn lemma_tiles_cover(side: usize, blocks: usize, s: nat, x: int, y: int)
    requires
        blocks as int == s * s,
        s > 0,
        (side as nat) % s == 0,
        0 <= x < side,
        0 <= y < side,
    ensures
        exists|k: int|
            0 <= k < s * s && #[trigger] in_tile(tile_grid(side as nat, blocks as nat)[k], x, y),
{
    assert((s as int) * (s as int) < (s + 1) * (s + 1)) by (nonlinear_arith);
    lemma_floor_sqrt_is(blocks as nat, s);
    let si = s as int;
    let w = ((side as nat) / s) as int;
    lemma_fundamental_div_mod(side as int, si);
    assert(w * si == si * w) by (nonlinear_arith);
    {
        assert(w > 0) by {
            if w <= 0 {
                lemma_div_pos_is_pos(side as int, si);
                assert(si * w == 0) by (nonlinear_arith)
                    requires
                        w == 0,
                ;
            }
        }
        lemma_fundamental_div_mod(x, w);
        lemma_fundamental_div_mod(y, w);
        lemma_div_pos_is_pos(x, w);
        lemma_div_pos_is_pos(y, w);
        lemma_mod_bound(x, w);
        lemma_mod_bound(y, w);
        let i = x / w;
        let j = y / w;
        if i >= si {
            lemma_mul_inequality(si, i, w);
        }
        if j >= si {
            lemma_mul_inequality(si, j, w);
        }
        let k = i * si + j;
        lemma_fundamental_div_mod_converse(k, si, i, j);
        assert(k < si * si) by {
            lemma_mul_inequality(i + 1, si, si);
            assert((i + 1) * si == i * si + si) by (nonlinear_arith);
        }
        assert(i * w == w * i && (i + 1) * w == w * i + w && j * w == w * j && (j + 1) * w
            == w * j + w) by (nonlinear_arith);
        lemma_mul_inequality(i + 1, si, w);
        lemma_mul_inequality(j + 1, si, w);
        assert(w * i >= 0) by (nonlinear_arith)
            requires
                w > 0,
                i >= 0,
        ;
        assert(w * j >= 0) by (nonlinear_arith)
            requires
                w > 0,
                j >= 0,
        ;
        assert(in_tile(tile_grid(side as nat, blocks as nat)[k], x, y));
    }
}

proof fn lemma_separated_cells(side: nat, s: nat, k1: int, k2: int)
    requires
        0 <= k1 < s * s,
        0 <= k2 < s * s,
        k1 != k2,
        s <= side <= usize::MAX,
    ensures
        disjoint(grid_tile(side, s, k1), grid_tile(side, s, k2)),
{
    lemma_grid_cell(side, s, k1);
    lemma_grid_cell(side, s, k2);
    let si = s as int;
    let w = ((side as nat) / s) as int;
    lemma_fundamental_div_mod(k1, si);
    lemma_fundamental_div_mod(k2, si);
    let (i1, j1, i2, j2) = (k1 / si, k1 % si, k2 / si, k2 % si);
    if i1 < i2 {
        lemma_mul_inequality(i1 + 1, i2, w);
    } else if i2 < i1 {
        lemma_mul_inequality(i2 + 1, i1, w);
    } else if j1 < j2 {
        lemma_mul_inequality(j1 + 1, j2, w);
    } else if j2 < j1 {
        lemma_mul_inequality(j2 + 1, j1, w);
    }
}

} // verus!
