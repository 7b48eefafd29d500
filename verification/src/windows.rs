//! The low-order bit plane seen through square windows: the grid is tiled
//! with windows of a given side, row by row; windows at the right and bottom
//! edges are clipped to the grid. Each window gets the histogram of the bits of
//! its own pixels.

use crate::error::StegoError;
use crate::grid::{BitWidth, GridView, PixelGrid, MAX_CHANNELS};
use crate::stats::{count_below, lemma_count_below_total, ones_below, Histogram};
use vstd::arithmetic::div_mod::{lemma_fundamental_div_mod, lemma_fundamental_div_mod_converse};
use vstd::prelude::*;

verus! {

/// The side, in pixels, of the windows over which local entropy is taken.
pub const WINDOW_SIDE: u32 = 8;

/// A rectangle of pixels: columns `x0..x1` of rows `y0..y1`.
pub struct Block {
    pub x0: int,
    pub x1: int,
    pub y0: int,
    pub y1: int,
}

/// How many of the low `k` bits of the three channels of the pixel in column
/// `x` of row `y` equal `value`.
pub open spec fn pixel_count(grid: GridView, x: int, y: int, k: int, value: bool) -> nat {
    count_below(grid.samples[grid.index_of(x, y, 0)], k, value) + count_below(
        grid.samples[grid.index_of(x, y, 1)],
        k,
        value,
    ) + count_below(grid.samples[grid.index_of(x, y, 2)], k, value)
}

/// The same over the pixels in columns `x0..x1` of row `y`.
pub open spec fn row_count(grid: GridView, y: int, x0: int, x1: int, k: int, value: bool) -> nat
    decreases x1 - x0,
{
    if x1 <= x0 {
        0
    } else {
        row_count(grid, y, x0, x1 - 1, k, value) + pixel_count(grid, x1 - 1, y, k, value)
    }
}

/// The same over all pixels of `block`.
pub open spec fn block_count(grid: GridView, block: Block, k: int, value: bool) -> nat
    decreases block.y1 - block.y0,
{
    if block.y1 <= block.y0 {
        0
    } else {
        block_count(grid, Block { y1: block.y1 - 1, ..block }, k, value) + row_count(
            grid,
            block.y1 - 1,
            block.x0,
            block.x1,
            k,
            value,
        )
    }
}

/// How many windows of side `side` it takes to cover `extent` pixels.
pub open spec fn windows_along(extent: nat, side: int) -> int {
    (extent + side - 1) / side
}

/// The pixels of window `index`, counting the windows row by row.
pub open spec fn window_block(grid: GridView, side: int, index: int) -> Block {
    let across = windows_along(grid.width, side);
    let left = (index % across) * side;
    let top = (index / across) * side;
    Block {
        x0: left,
        x1: if left + side < grid.width { left + side } else { grid.width as int },
        y0: top,
        y1: if top + side < grid.height { top + side } else { grid.height as int },
    }
}

/// The bits counted as 0 and those counted as 1 in a row are together `3 k`
/// for each pixel.
pub proof fn lemma_row_count_total(grid: GridView, y: int, x0: int, x1: int, k: int)
    requires
        0 <= k,
        x0 <= x1,
    ensures
        row_count(grid, y, x0, x1, k, false) + row_count(grid, y, x0, x1, k, true) == 3 * k * (x1 - x0),
    decreases x1 - x0,
{
    if x1 > x0 {
        lemma_row_count_total(grid, y, x0, x1 - 1, k);
        lemma_count_below_total(grid.samples[grid.index_of(x1 - 1, y, 0)], k);
        lemma_count_below_total(grid.samples[grid.index_of(x1 - 1, y, 1)], k);
        lemma_count_below_total(grid.samples[grid.index_of(x1 - 1, y, 2)], k);
        assert(3 * k * (x1 - 1 - x0) + 3 * k == 3 * k * (x1 - x0)) by (nonlinear_arith);
    } else {
        assert(3 * k * (x1 - x0) == 0) by (nonlinear_arith)
            requires
                x1 - x0 == 0,
        ;
    }
}

/// The bits counted as 0 and those counted as 1 in a block are together `3 k`
/// for each pixel of the block.
pub proof fn lemma_block_count_total(grid: GridView, block: Block, k: int)
    requires
        0 <= k,
        block.x0 <= block.x1,
        block.y0 <= block.y1,
    ensures
        block_count(grid, block, k, false) + block_count(grid, block, k, true) == 3 * k * (block.x1
            - block.x0) * (block.y1 - block.y0),
    decreases block.y1 - block.y0,
{
    let across = block.x1 - block.x0;
    let down = block.y1 - block.y0;
    if block.y1 > block.y0 {
        lemma_block_count_total(grid, Block { y1: block.y1 - 1, ..block }, k);
        lemma_row_count_total(grid, block.y1 - 1, block.x0, block.x1, k);
        assert(3 * k * across * (down - 1) + 3 * k * across == 3 * k * across * down) by (nonlinear_arith);
    } else {
        assert(3 * k * across * down == 0) by (nonlinear_arith)
            requires
                down == 0,
        ;
    }
}

/// Counts the ones among the low `k` bits of the pixels in columns `x0..x1` of
/// row `y`.
fn row_ones(grid: &PixelGrid, y: u64, x0: u64, x1: u64, k: u8) -> (ones: u64)
    requires
        1 <= k <= 8,
        x0 <= x1 <= grid@.width,
        y < grid@.height,
    ensures
        ones == row_count(grid@, y as int, x0 as int, x1 as int, k as int, true),
        ones <= 3 * k * (x1 - x0),
{
    let samples: &[u8] = grid.samples();
    let width: u64 = grid.width() as u64;
    let mut ones: u64 = 0;
    let mut x: u64 = x0;
    assert(y * width + width <= grid@.width * grid@.height) by (nonlinear_arith)
        requires
            y < grid@.height,
            width == grid@.width,
    ;
    assert(3 * grid@.width * grid@.height == 3 * (grid@.width * grid@.height)) by (nonlinear_arith);
    while x < x1
        invariant
            1 <= k <= 8,
            x0 <= x <= x1 <= width,
            width == grid@.width,
            width <= u32::MAX,
            samples@ == grid@.samples,
            grid@.wf(),
            y * width + width <= grid@.width * grid@.height,
            3 * grid@.width * grid@.height == 3 * (grid@.width * grid@.height),
            ones == row_count(grid@, y as int, x0 as int, x as int, k as int, true),
            ones <= 24 * (x - x0),
        decreases x1 - x,
    {
        let base: u64 = 3 * (y * width + x);
        let r: u8 = ones_below(samples[base as usize], k);
        let g: u8 = ones_below(samples[(base + 1) as usize], k);
        let b: u8 = ones_below(samples[(base + 2) as usize], k);
        ones += (r as u64) + (g as u64) + (b as u64);
        x += 1;
    }
    proof {
        lemma_row_count_total(grid@, y as int, x0 as int, x1 as int, k as int);
    }
    ones
}

/// The histogram of the low `k` bits of the pixels in columns `x0..x1` of
/// rows `y0..y1`.
fn block_histogram(grid: &PixelGrid, x0: u64, x1: u64, y0: u64, y1: u64, k: u8) -> (h: Histogram)
    requires
        1 <= k <= 8,
        x0 <= x1 <= grid@.width,
        y0 <= y1 <= grid@.height,
    ensures
        h.count0 == block_count(grid@, block_of(x0, x1, y0, y1), k as int, false),
        h.count1 == block_count(grid@, block_of(x0, x1, y0, y1), k as int, true),
        h.count0 + h.count1 == 3 * k * (x1 - x0) * (y1 - y0),
{
    let ghost view = grid@;
    let ghost block = block_of(x0, x1, y0, y1);
    let width: u32 = grid.width();
    let height: u32 = grid.height();
    let channels: usize = grid.channel_count();
    assert(width == view.width && height == view.height && channels == view.samples.len());
    assert(3 * k * (x1 - x0) <= 24 * view.width) by (nonlinear_arith)
        requires
            1 <= k <= 8,
            0 <= x1 - x0 <= view.width,
    ;
    let per_row: u64 = 3 * (k as u64) * (x1 - x0);
    let mut count0: u64 = 0;
    let mut count1: u64 = 0;
    let mut y: u64 = y0;
    while y < y1
        invariant
            1 <= k <= 8,
            x0 <= x1 <= view.width,
            y0 <= y <= y1 <= view.height,
            view == grid@,
            view.wf(),
            view.width <= u32::MAX,
            view.height <= u32::MAX,
            block == block_of(x0, x1, y0, y1),
            per_row == 3 * k * (x1 - x0),
            per_row <= 24 * view.width,
            count0 == block_count(view, Block { y1: y as int, ..block }, k as int, false),
            count1 == block_count(view, Block { y1: y as int, ..block }, k as int, true),
            count0 + count1 == per_row * (y - y0),
        decreases y1 - y,
    {
        let ones: u64 = row_ones(grid, y, x0, x1, k);
        proof {
            lemma_row_count_total(view, y as int, x0 as int, x1 as int, k as int);
            assert(per_row * (y - y0) + per_row == per_row * (y + 1 - y0)) by (nonlinear_arith);
            assert(per_row * (y + 1 - y0) <= 24 * view.width * view.height) by (nonlinear_arith)
                requires
                    per_row <= 24 * view.width,
                    0 <= y + 1 - y0 <= view.height,
            ;
            assert(24 * view.width * view.height == 8 * (3 * view.width * view.height)) by (nonlinear_arith);
            assert((Block { y1: (Block { y1: y + 1, ..block }).y1 - 1, ..(Block { y1: y + 1, ..block }) })
                == (Block { y1: y as int, ..block }));
        }
        count1 += ones;
        count0 += per_row - ones;
        y += 1;
    }
    proof {
        assert((Block { y1: y1 as int, ..block }) == block);
        assert(per_row * (y1 - y0) == 3 * k * (x1 - x0) * (y1 - y0)) by (nonlinear_arith)
            requires
                per_row == 3 * k * (x1 - x0),
        ;
    }
    Histogram { count0, count1 }
}

/// The block of columns `x0..x1` of rows `y0..y1`.
pub open spec fn block_of(x0: u64, x1: u64, y0: u64, y1: u64) -> Block {
    Block { x0: x0 as int, x1: x1 as int, y0: y0 as int, y1: y1 as int }
}

/// Window `i` along an extent begins inside the extent.
proof fn lemma_window_origin(extent: nat, side: int, i: int)
    requires
        0 < side,
        0 <= i < windows_along(extent, side),
    ensures
        0 <= i * side < extent,
{
    let across = windows_along(extent, side);
    lemma_fundamental_div_mod(extent + side - 1, side);
    assert(0 <= i * side <= (across - 1) * side) by (nonlinear_arith)
        requires
            0 <= i <= across - 1,
            0 < side,
    ;
    assert((across - 1) * side == side * across - side) by (nonlinear_arith);
}

/// A non-empty extent takes at least one window, and no more windows than it
/// has pixels.
proof fn lemma_windows_along_bounds(extent: nat, side: int)
    requires
        0 < side,
        0 < extent,
    ensures
        1 <= windows_along(extent, side) <= extent,
{
    let across = windows_along(extent, side);
    lemma_fundamental_div_mod(extent + side - 1, side);
    if across < 1 {
        assert(side * across <= 0) by (nonlinear_arith)
            requires
                across <= 0,
                0 < side,
        ;
    }
    if across > extent {
        assert(side * across >= side * (extent + 1)) by (nonlinear_arith)
            requires
                across >= extent + 1,
                0 < side,
        ;
        assert(side * (extent + 1) >= extent + side) by (nonlinear_arith)
            requires
                1 <= side,
                0 < extent,
        ;
    }
}

/// The histogram of the low `bit_width` bits of each window of side
/// `window_side` over `grid`, the windows taken row by row.
///
/// Fails with `DegenerateInput` when no window would hold a pixel: on a grid
/// without pixels, and for a window side of 0.
pub fn window_histograms(grid: &PixelGrid, bit_width: BitWidth, window_side: u32) -> (r: Result<
    Vec<Histogram>,
    StegoError,
>)
    ensures
        r is Err <==> grid@.samples.len() == 0 || window_side == 0,
        r matches Err(e) ==> e == StegoError::DegenerateInput,
        r matches Ok(v) ==> {
            &&& v@.len() == windows_along(grid@.width, window_side as int) * windows_along(
                grid@.height,
                window_side as int,
            )
            &&& v@.len() > 0
            &&& forall|i: int|
                0 <= i < v@.len() ==> {
                    &&& (#[trigger] v@[i]).count0 == block_count(
                        grid@,
                        window_block(grid@, window_side as int, i),
                        bit_width@,
                        false,
                    )
                    &&& v@[i].count1 == block_count(
                        grid@,
                        window_block(grid@, window_side as int, i),
                        bit_width@,
                        true,
                    )
                    &&& v@[i].count0 + v@[i].count1 > 0
                }
        },
{
    let k: u8 = bit_width.get();
    let n: usize = grid.channel_count();
    let width: u64 = grid.width() as u64;
    let height: u64 = grid.height() as u64;
    let side: u64 = window_side as u64;
    let ghost view = grid@;
    assert(n == 0 <==> (width == 0 || height == 0)) by (nonlinear_arith)
        requires
            n == 3 * width * height,
    ;
    if width == 0 || height == 0 || side == 0 {
        return Err(StegoError::DegenerateInput);
    }
    let across: u64 = (width + side - 1) / side;
    let down: u64 = (height + side - 1) / side;
    proof {
        lemma_windows_along_bounds(width as nat, side as int);
        lemma_windows_along_bounds(height as nat, side as int);
    }
    let mut out: Vec<Histogram> = Vec::new();
    let mut wy: u64 = 0;
    while wy < down
        invariant
            1 <= k <= 8,
            k == bit_width@,
            view == grid@,
            width == view.width,
            height == view.height,
            0 < side == window_side,
            across == windows_along(view.width, side as int),
            down == windows_along(view.height, side as int),
            1 <= across <= width <= u32::MAX,
            1 <= down <= height <= u32::MAX,
            wy <= down,
            out@.len() == wy * across,
            forall|i: int|
                0 <= i < out@.len() ==> {
                    &&& (#[trigger] out@[i]).count0 == block_count(
                        view,
                        window_block(view, side as int, i),
                        k as int,
                        false,
                    )
                    &&& out@[i].count1 == block_count(view, window_block(view, side as int, i), k as int, true)
                    &&& out@[i].count0 + out@[i].count1 > 0
                },
        decreases down - wy,
    {
        proof {
            lemma_window_origin(height as nat, side as int, wy as int);
        }
        let top: u64 = wy * side;
        let bottom: u64 = if top + side < height { top + side } else { height };
        let mut wx: u64 = 0;
        while wx < across
            invariant
                1 <= k <= 8,
                k == bit_width@,
                view == grid@,
                width == view.width,
                height == view.height,
                0 < side == window_side,
                across == windows_along(view.width, side as int),
                1 <= across <= width <= u32::MAX,
                height <= u32::MAX,
                wy < down,
                wx <= across,
                top == wy * side,
                top < bottom <= height,
                bottom == if top + side < height { top + side } else { height as int },
                out@.len() == wy * across + wx,
                forall|i: int|
                    0 <= i < out@.len() ==> {
                        &&& (#[trigger] out@[i]).count0 == block_count(
                            view,
                            window_block(view, side as int, i),
                            k as int,
                            false,
                        )
                        &&& out@[i].count1 == block_count(
                            view,
                            window_block(view, side as int, i),
                            k as int,
                            true,
                        )
                        &&& out@[i].count0 + out@[i].count1 > 0
                    },
            decreases across - wx,
        {
            proof {
                lemma_window_origin(width as nat, side as int, wx as int);
            }
            let left: u64 = wx * side;
            let right: u64 = if left + side < width { left + side } else { width };
            let h: Histogram = block_histogram(grid, left, right, top, bottom, k);
            proof {
                let index = wy * across + wx;
                lemma_fundamental_div_mod_converse(index, across as int, wy as int, wx as int);
                assert(window_block(view, side as int, index) == block_of(left, right, top, bottom));
                assert(3 * k * (right - left) * (bottom - top) > 0) by (nonlinear_arith)
                    requires
                        1 <= k,
                        left < right,
                        top < bottom,
                ;
            }
            out.push(h);
            wx += 1;
        }
        wy += 1;
        assert((wy - 1) * across + across == wy * across) by (nonlinear_arith);
    }
    assert(out@.len() == down * across);
    assert(down * across == across * down) by (nonlinear_arith);
    assert(down * across > 0) by (nonlinear_arith)
        requires
            down >= 1,
            across >= 1,
    ;
    Ok(out)
}

} // verus!
