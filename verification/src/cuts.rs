//! Where one shot ends and the next begins. Each frame's luma is reduced to a
//! small grid of cell averages and compared with the previous frame's: a mean
//! absolute difference above `THRESHOLD` is a cut.

use crate::prep::PixFmt;
use vstd::prelude::*;

verus! {

/// Cells a frame is reduced to, per side. Small enough that a moving subject
/// barely moves the average, large enough that a new picture moves all of them.
pub const GRID: usize = 32;

/// Cells a frame is reduced to.
pub const CELLS: usize = 1024;

/// Well clear of the frame-to-frame difference ordinary motion produces, and
/// well below what a hard cut produces, in luma steps.
pub const THRESHOLD: usize = 12;

/// Bytes one pixel of the plane that luma is read from takes.
pub open spec fn pixel_bytes(pix_fmt: PixFmt) -> int {
    match pix_fmt {
        PixFmt::Yuv420p => 1,
        PixFmt::Rgba => 4,
    }
}

/// The luma of pixel `i`, counted row by row. yuv420p carries luma in the
/// first plane; rgba is converted with the standard weights, each pixel
/// rounded down on its own.
pub open spec fn luma(frame: Seq<u8>, pix_fmt: PixFmt, i: int) -> int {
    match pix_fmt {
        PixFmt::Yuv420p => frame[i] as int,
        PixFmt::Rgba => (frame[4 * i] * 299 + frame[4 * i + 1] * 587 + frame[4 * i + 2] * 114)
            / 1000,
    }
}

/// The luma of pixels `from` to `to`, totalled.
pub open spec fn run_sum(frame: Seq<u8>, pix_fmt: PixFmt, from: int, to: int) -> int
    decreases to - from,
{
    if from >= to {
        0
    } else {
        run_sum(frame, pix_fmt, from, to - 1) + luma(frame, pix_fmt, to - 1)
    }
}

/// The luma of a block, rows `y0` to `y1` and columns `x0` to `x1`, totalled.
pub open spec fn block_sum(
    frame: Seq<u8>,
    pix_fmt: PixFmt,
    width: int,
    y0: int,
    y1: int,
    x0: int,
    x1: int,
) -> int
    decreases y1 - y0,
{
    if y0 >= y1 {
        0
    } else {
        block_sum(frame, pix_fmt, width, y0, y1 - 1, x0, x1) + run_sum(
            frame,
            pix_fmt,
            (y1 - 1) * width + x0,
            (y1 - 1) * width + x1,
        )
    }
}

/// Where cell `c` begins along an axis.
pub open spec fn cell_from(c: int, size: int) -> int {
    c * size / GRID as int
}

/// Where cell `c` ends along an axis: where the next begins, and at least one
/// pixel on.
pub open spec fn cell_to(c: int, size: int) -> int {
    if cell_from(c + 1, size) > cell_from(c, size) {
        cell_from(c + 1, size)
    } else {
        cell_from(c, size) + 1
    }
}

/// The average luma of the cell in row `cy` and column `cx` of the grid.
pub open spec fn cell_of(
    frame: Seq<u8>,
    pix_fmt: PixFmt,
    width: int,
    height: int,
    cy: int,
    cx: int,
) -> int {
    let (y0, y1) = (cell_from(cy, height), cell_to(cy, height));
    let (x0, x1) = (cell_from(cx, width), cell_to(cx, width));
    block_sum(frame, pix_fmt, width, y0, y1, x0, x1) / ((y1 - y0) * (x1 - x0))
}

/// How many pixels the grid reaches over: all of the frame's, and a first
/// one even of a frame with no columns or no rows.
pub open spec fn pixels_read(width: int, height: int) -> int {
    if width <= 0 {
        1
    } else if height <= 0 {
        width
    } else {
        width * height
    }
}

proof fn lemma_luma_range(frame: Seq<u8>, pix_fmt: PixFmt, i: int)
    ensures
        0 <= luma(frame, pix_fmt, i) <= 255,
{
}

proof fn lemma_run_sum_range(frame: Seq<u8>, pix_fmt: PixFmt, from: int, to: int)
    requires
        from <= to,
    ensures
        0 <= run_sum(frame, pix_fmt, from, to) <= 255 * (to - from),
    decreases to - from,
{
    if from < to {
        lemma_run_sum_range(frame, pix_fmt, from, to - 1);
        lemma_luma_range(frame, pix_fmt, to - 1);
    }
}

proof fn lemma_block_sum_range(
    frame: Seq<u8>,
    pix_fmt: PixFmt,
    width: int,
    y0: int,
    y1: int,
    x0: int,
    x1: int,
)
    requires
        y0 <= y1,
        x0 <= x1,
    ensures
        0 <= block_sum(frame, pix_fmt, width, y0, y1, x0, x1) <= 255 * ((y1 - y0) * (x1 - x0)),
    decreases y1 - y0,
{
    if y0 < y1 {
        lemma_block_sum_range(frame, pix_fmt, width, y0, y1 - 1, x0, x1);
        lemma_run_sum_range(frame, pix_fmt, (y1 - 1) * width + x0, (y1 - 1) * width + x1);
        assert((y1 - y0) * (x1 - x0) == (y1 - 1 - y0) * (x1 - x0) + (x1 - x0)) by (nonlinear_arith);
    }
}

/// A cell's edges lie in the frame, or on its first pixel where an axis has
/// none.
proof fn lemma_cell_edges(c: int, size: int)
    requires
        0 <= c < GRID,
        0 <= size,
    ensures
        0 <= cell_from(c, size) < cell_to(c, size),
        cell_from(c, size) <= size,
        size > 0 ==> cell_to(c, size) <= size,
        size == 0 ==> cell_from(c, size) == 0 && cell_to(c, size) == 1,
{
    assert(0 <= c * size <= 31 * size && (c + 1) * size == c * size + size) by (nonlinear_arith)
        requires
            0 <= c <= 31,
            0 <= size,
    ;
}

/// The luma of one run of one row, totalled.
pub fn row_luma_sum(
    frame: &[u8],
    pix_fmt: PixFmt,
    width: usize,
    y: usize,
    x0: usize,
    x1: usize,
) -> (total: u128)
    requires
        x0 <= x1,
        (y * width + x1) * pixel_bytes(pix_fmt) <= frame@.len(),
    ensures
        total == run_sum(frame@, pix_fmt, y * width + x0, y * width + x1),
{
    let len: usize = frame.len();
    assert(0 <= y * width) by (nonlinear_arith)
        requires
            y >= 0,
            width >= 0,
    ;
    let base: usize = y * width;
    let mut total: u128 = 0;
    let mut x: usize = x0;
    while x < x1
        invariant
            x0 <= x <= x1,
            base == y * width,
            len == frame@.len(),
            (base + x1) * pixel_bytes(pix_fmt) <= len,
            total == run_sum(frame@, pix_fmt, base + x0, base + x),
            total <= 255 * (x - x0),
        decreases x1 - x,
    {
        let i: usize = base + x;
        proof {
            lemma_luma_range(frame@, pix_fmt, i as int);
        }
        let level: u32 = match pix_fmt {
            PixFmt::Yuv420p => frame[i] as u32,
            PixFmt::Rgba => {
                let r: u32 = frame[4 * i] as u32;
                let g: u32 = frame[4 * i + 1] as u32;
                let b: u32 = frame[4 * i + 2] as u32;
                (r * 299 + g * 587 + b * 114) / 1000
            },
        };
        total = total + level as u128;
        x = x + 1;
    }
    total
}

fn cell_edges(c: usize, size: usize) -> (edges: (usize, usize))
    requires
        c < GRID,
    ensures
        edges.0 == cell_from(c as int, size as int),
        edges.1 == cell_to(c as int, size as int),
{
    proof {
        lemma_cell_edges(c as int, size as int);
        assert(0 <= c * size <= 32 * size && 0 <= (c + 1) * size <= 32 * size) by (nonlinear_arith)
            requires
                0 <= c <= 31,
                0 <= size,
        ;
    }
    let from: u128 = (c as u128) * (size as u128) / 32;
    let next: u128 = ((c + 1) as u128) * (size as u128) / 32;
    let to: u128 = if next > from {
        next
    } else {
        from + 1
    };
    (from as usize, to as usize)
}

proof fn lemma_rows_in_frame(y: int, width: int, height: int, x1: int)
    requires
        0 <= width,
        0 <= height,
        0 <= x1,
        0 <= y,
        height > 0 ==> y < height,
        height == 0 ==> y == 0,
        width > 0 ==> x1 <= width,
        width == 0 ==> x1 <= 1,
    ensures
        0 <= y * width + x1 <= pixels_read(width, height),
{
    if width > 0 && height > 0 {
        assert(0 <= y * width + x1 <= width * height) by (nonlinear_arith)
            requires
                0 <= y < height,
                0 <= x1 <= width,
        ;
    } else if width == 0 {
        assert(y * 0 == 0);
    }
}

proof fn lemma_pixels_fit(width: int, height: int, pix_fmt: PixFmt, len: int)
    requires
        0 <= width,
        0 <= height,
        pixels_read(width, height) * pixel_bytes(pix_fmt) <= len,
    ensures
        0 <= pixels_read(width, height) <= len,
{
    assert(0 <= width * height) by (nonlinear_arith)
        requires
            0 <= width,
            0 <= height,
    ;
}

/// A block of the grid has a pixel, and no more than fit in a frame or along
/// one side.
proof fn lemma_block_fits(rows: int, columns: int, width: int, height: int, len: int)
    requires
        1 <= rows,
        1 <= columns,
        0 <= width <= usize::MAX,
        0 <= height <= usize::MAX,
        rows <= height || rows == 1,
        columns <= width || columns == 1,
        pixels_read(width, height) <= len,
        len <= usize::MAX,
    ensures
        1 <= rows * columns <= usize::MAX,
{
    assert(1 <= rows * columns) by (nonlinear_arith)
        requires
            1 <= rows,
            1 <= columns,
    ;
    if rows == 1 || columns == 1 {
        assert(rows * columns == rows || rows * columns == columns) by (nonlinear_arith)
            requires
                rows == 1 || columns == 1,
        ;
    } else {
        assert(rows * columns <= height * width && height * width == width * height)
            by (nonlinear_arith)
            requires
                1 <= rows <= height,
                1 <= columns <= width,
        ;
    }
}

/// The frame's luma as `GRID`x`GRID` cell averages, written into `cells`. A
/// frame smaller than the grid repeats pixels rather than leaving cells empty.
///
/// A cell's columns are one contiguous run of each of its rows, so it is
/// totalled a run at a time.
pub fn downsample(frame: &[u8], pix_fmt: PixFmt, width: usize, height: usize, cells: &mut Vec<u8>)
    requires
        pixels_read(width as int, height as int) * pixel_bytes(pix_fmt) <= frame@.len(),
    ensures
        final(cells)@.len() == CELLS,
        forall|cy: int, cx: int|
            0 <= cy < GRID && 0 <= cx < GRID ==> #[trigger] final(cells)@[cy * GRID + cx]
                == cell_of(frame@, pix_fmt, width as int, height as int, cy, cx),
{
    cells.clear();
    let mut cy: usize = 0;
    while cy < GRID
        invariant
            cy <= GRID,
            pixels_read(width as int, height as int) * pixel_bytes(pix_fmt) <= frame@.len(),
            cells@.len() == cy * GRID,
            forall|b: int, a: int|
                0 <= b < cy && 0 <= a < GRID ==> #[trigger] cells@[b * GRID + a] == cell_of(
                    frame@,
                    pix_fmt,
                    width as int,
                    height as int,
                    b,
                    a,
                ),
        decreases GRID - cy,
    {
        let (y0, y1) = cell_edges(cy, height);
        let mut cx: usize = 0;
        while cx < GRID
            invariant
                cy < GRID,
                cx <= GRID,
                pixels_read(width as int, height as int) * pixel_bytes(pix_fmt) <= frame@.len(),
                y0 == cell_from(cy as int, height as int),
                y1 == cell_to(cy as int, height as int),
                cells@.len() == cy * GRID + cx,
                forall|b: int, a: int|
                    0 <= b < cy && 0 <= a < GRID ==> #[trigger] cells@[b * GRID + a] == cell_of(
                        frame@,
                        pix_fmt,
                        width as int,
                        height as int,
                        b,
                        a,
                    ),
                forall|a: int|
                    0 <= a < cx ==> #[trigger] cells@[cy * GRID + a] == cell_of(
                        frame@,
                        pix_fmt,
                        width as int,
                        height as int,
                        cy as int,
                        a,
                    ),
            decreases GRID - cx,
        {
            let (x0, x1) = cell_edges(cx, width);
            let level: u8 = block_mean(frame, pix_fmt, width, height, y0, y1, x0, x1, cy, cx);
            cells.push(level);
            cx = cx + 1;
        }
        cy = cy + 1;
    }
}

/// The average luma of one block of the grid.
fn block_mean(
    frame: &[u8],
    pix_fmt: PixFmt,
    width: usize,
    height: usize,
    y0: usize,
    y1: usize,
    x0: usize,
    x1: usize,
    cy: usize,
    cx: usize,
) -> (level: u8)
    requires
        pixels_read(width as int, height as int) * pixel_bytes(pix_fmt) <= frame@.len(),
        cy < GRID,
        cx < GRID,
        y0 == cell_from(cy as int, height as int),
        y1 == cell_to(cy as int, height as int),
        x0 == cell_from(cx as int, width as int),
        x1 == cell_to(cx as int, width as int),
    ensures
        level == cell_of(frame@, pix_fmt, width as int, height as int, cy as int, cx as int),
{
    proof {
        lemma_cell_edges(cy as int, height as int);
        lemma_cell_edges(cx as int, width as int);
    }
    let len: usize = frame.len();
    let mut total: u128 = 0;
    let mut y: usize = y0;
    assert((y0 - y0) * (x1 - x0) == 0) by (nonlinear_arith);
    while y < y1
        invariant
            y0 <= y <= y1,
            x0 < x1,
            len == frame@.len(),
            pixels_read(width as int, height as int) * pixel_bytes(pix_fmt) <= frame@.len(),
            height > 0 ==> y1 <= height,
            height == 0 ==> y1 == 1,
            width > 0 ==> x1 <= width,
            width == 0 ==> x1 == 1,
            total == block_sum(
                frame@,
                pix_fmt,
                width as int,
                y0 as int,
                y as int,
                x0 as int,
                x1 as int,
            ),
            total <= 255 * ((y - y0) * (x1 - x0)),
        decreases y1 - y,
    {
        proof {
            lemma_rows_in_frame(y as int, width as int, height as int, x1 as int);
            lemma_run_sum_range(frame@, pix_fmt, y * width + x0, y * width + x1);
            assert((y - y0) * (x1 - x0) + (x1 - x0) == (y + 1 - y0) * (x1 - x0))
                by (nonlinear_arith);
            lemma_pixels_fit(width as int, height as int, pix_fmt, len as int);
            lemma_block_fits(
                y + 1 - y0,
                x1 - x0,
                width as int,
                height as int,
                frame@.len() as int,
            );
        }
        total = total + row_luma_sum(frame, pix_fmt, width, y, x0, x1);
        y = y + 1;
    }
    proof {
        lemma_block_sum_range(
            frame@,
            pix_fmt,
            width as int,
            y0 as int,
            y1 as int,
            x0 as int,
            x1 as int,
        );
        let area = (y1 - y0) * (x1 - x0);
        lemma_pixels_fit(width as int, height as int, pix_fmt, len as int);
        lemma_block_fits(y1 - y0, x1 - x0, width as int, height as int, len as int);
        assert(0 <= total as int / area <= 255) by (nonlinear_arith)
            requires
                area >= 1,
                0 <= total <= 255 * area,
        ;
    }
    let area: u128 = ((y1 - y0) as u128) * ((x1 - x0) as u128);
    (total / area) as u8
}

/// How far apart two bytes are.
pub open spec fn byte_gap(a: u8, b: u8) -> int {
    if a >= b {
        a - b
    } else {
        b - a
    }
}

/// The absolute differences of the first `count` cells of two frames,
/// totalled.
pub open spec fn gap_sum(a: Seq<u8>, b: Seq<u8>, count: int) -> int
    decreases count,
{
    if count <= 0 {
        0
    } else {
        gap_sum(a, b, count - 1) + byte_gap(a[count - 1], b[count - 1])
    }
}

/// How many cells two frames can be compared over.
pub open spec fn shared(a: Seq<u8>, b: Seq<u8>) -> int {
    if a.len() <= b.len() {
        a.len() as int
    } else {
        b.len() as int
    }
}

/// Whether the mean absolute difference, taken over the previous frame's
/// cells, is above the threshold.
pub open spec fn cut_between(previous: Seq<u8>, current: Seq<u8>) -> bool {
    gap_sum(previous, current, shared(previous, current)) > THRESHOLD * previous.len()
}

/// The absolute differences between two frames' cells, in luma steps,
/// totalled: `previous.len()` times their mean.
fn total_abs_diff(a: &[u8], b: &[u8]) -> (total: u128)
    ensures
        total == gap_sum(a@, b@, shared(a@, b@)),
{
    let count: usize = if a.len() <= b.len() {
        a.len()
    } else {
        b.len()
    };
    let mut total: u128 = 0;
    let mut i: usize = 0;
    while i < count
        invariant
            i <= count,
            count == shared(a@, b@),
            total == gap_sum(a@, b@, i as int),
            total <= 255 * i,
        decreases count - i,
    {
        let (p, q) = (a[i], b[i]);
        let gap: u8 = if p >= q {
            p - q
        } else {
            q - p
        };
        total = total + gap as u128;
        i = i + 1;
    }
    total
}

/// Whether the picture changed enough between two frames' cells to be a cut.
pub fn is_cut(previous: &[u8], current: &[u8]) -> (cut: bool)
    ensures
        cut == cut_between(previous@, current@),
{
    total_abs_diff(previous, current) > 12 * (previous.len() as u128)
}

/// A still frame is never a cut.
pub proof fn law_a_still_frame_is_no_cut(cells: Seq<u8>)
    ensures
        !cut_between(cells, cells),
{
    lemma_no_gap(cells, cells.len() as int);
}

proof fn lemma_no_gap(cells: Seq<u8>, count: int)
    requires
        0 <= count <= cells.len(),
    ensures
        gap_sum(cells, cells, count) == 0,
    decreases count,
{
    if count > 0 {
        lemma_no_gap(cells, count - 1);
    }
}

/// A cut between two frames is a cut either way round.
pub proof fn law_a_cut_reads_the_same_backwards(a: Seq<u8>, b: Seq<u8>)
    requires
        a.len() == b.len(),
    ensures
        cut_between(a, b) == cut_between(b, a),
{
    lemma_gap_sum_symmetric(a, b, a.len() as int);
}

proof fn lemma_gap_sum_symmetric(a: Seq<u8>, b: Seq<u8>, count: int)
    ensures
        gap_sum(a, b, count) == gap_sum(b, a, count),
    decreases count,
{
    if count > 0 {
        lemma_gap_sum_symmetric(a, b, count - 1);
    }
}

/// Two flat pictures are a cut exactly when their levels are more than twelve
/// apart, whichever is the lighter.
pub proof fn law_flat_pictures_cut_by_their_levels(a: Seq<u8>, b: Seq<u8>, p: u8, q: u8)
    requires
        a.len() == b.len(),
        a.len() > 0,
        forall|i: int| 0 <= i < a.len() ==> a[i] == p,
        forall|i: int| 0 <= i < b.len() ==> b[i] == q,
    ensures
        cut_between(a, b) == (p - q > 12 || q - p > 12),
{
    lemma_flat_gap_sum(a, b, p, q, a.len() as int);
    let n = a.len() as int;
    let gap = byte_gap(p, q);
    assert((n * gap > 12 * n) == (gap > 12)) by (nonlinear_arith)
        requires
            n > 0,
    ;
}

proof fn lemma_flat_gap_sum(a: Seq<u8>, b: Seq<u8>, p: u8, q: u8, count: int)
    requires
        0 <= count <= a.len(),
        count <= b.len(),
        forall|i: int| 0 <= i < a.len() ==> a[i] == p,
        forall|i: int| 0 <= i < b.len() ==> b[i] == q,
    ensures
        gap_sum(a, b, count) == count * byte_gap(p, q),
    decreases count,
{
    if count > 0 {
        lemma_flat_gap_sum(a, b, p, q, count - 1);
        assert((count - 1) * byte_gap(p, q) + byte_gap(p, q) == count * byte_gap(p, q))
            by (nonlinear_arith);
    } else {
        assert(0 * byte_gap(p, q) == 0);
    }
}

/// Every cell of a flat frame holds the frame's level, whatever its size.
pub proof fn law_a_flat_frame_is_flat_in_every_cell(
    frame: Seq<u8>,
    pix_fmt: PixFmt,
    width: int,
    height: int,
    level: int,
    cy: int,
    cx: int,
)
    requires
        0 <= width,
        0 <= height,
        0 <= cy < GRID,
        0 <= cx < GRID,
        forall|i: int|
            0 <= i < pixels_read(width, height) ==> #[trigger] luma(frame, pix_fmt, i) == level,
    ensures
        cell_of(frame, pix_fmt, width, height, cy, cx) == level,
{
    lemma_cell_edges(cy, height);
    lemma_cell_edges(cx, width);
    let (y0, y1) = (cell_from(cy, height), cell_to(cy, height));
    let (x0, x1) = (cell_from(cx, width), cell_to(cx, width));
    lemma_flat_block(frame, pix_fmt, width, height, level, y0, y1, x0, x1);
    let area = (y1 - y0) * (x1 - x0);
    assert(area >= 1) by (nonlinear_arith)
        requires
            area == (y1 - y0) * (x1 - x0),
            y1 - y0 >= 1,
            x1 - x0 >= 1,
    ;
    assert((level * area) / area == level) by (nonlinear_arith)
        requires
            area >= 1,
    ;
}

proof fn lemma_flat_run(
    frame: Seq<u8>,
    pix_fmt: PixFmt,
    pixels: int,
    level: int,
    from: int,
    to: int,
)
    requires
        0 <= from <= to <= pixels,
        forall|i: int| 0 <= i < pixels ==> #[trigger] luma(frame, pix_fmt, i) == level,
    ensures
        run_sum(frame, pix_fmt, from, to) == level * (to - from),
    decreases to - from,
{
    if from < to {
        lemma_flat_run(frame, pix_fmt, pixels, level, from, to - 1);
        assert(luma(frame, pix_fmt, to - 1) == level);
        assert(level * (to - 1 - from) + level == level * (to - from)) by (nonlinear_arith);
    } else {
        assert(level * 0 == 0);
    }
}

proof fn lemma_flat_block(
    frame: Seq<u8>,
    pix_fmt: PixFmt,
    width: int,
    height: int,
    level: int,
    y0: int,
    y1: int,
    x0: int,
    x1: int,
)
    requires
        0 <= width,
        0 <= height,
        0 <= y0 <= y1,
        0 <= x0 < x1,
        height > 0 ==> y1 <= height,
        height == 0 ==> y1 <= 1,
        width > 0 ==> x1 <= width,
        width == 0 ==> x1 <= 1,
        forall|i: int|
            0 <= i < pixels_read(width, height) ==> #[trigger] luma(frame, pix_fmt, i) == level,
    ensures
        block_sum(frame, pix_fmt, width, y0, y1, x0, x1) == level * ((y1 - y0) * (x1 - x0)),
    decreases y1 - y0,
{
    if y0 < y1 {
        lemma_flat_block(frame, pix_fmt, width, height, level, y0, y1 - 1, x0, x1);
        lemma_rows_in_frame(y1 - 1, width, height, x1);
        lemma_rows_in_frame(y1 - 1, width, height, x0);
        lemma_flat_run(
            frame,
            pix_fmt,
            pixels_read(width, height),
            level,
            (y1 - 1) * width + x0,
            (y1 - 1) * width + x1,
        );
        assert(level * ((y1 - 1 - y0) * (x1 - x0)) + level * (x1 - x0) == level * ((y1 - y0) * (x1
            - x0))) by (nonlinear_arith);
    } else {
        assert(level * (0 * (x1 - x0)) == 0) by (nonlinear_arith);
    }
}

/// A grey rgba pixel's luma is its level: the three weights make a whole.
pub proof fn law_grey_is_its_own_luma(frame: Seq<u8>, i: int, level: u8)
    requires
        frame[4 * i] == level,
        frame[4 * i + 1] == level,
        frame[4 * i + 2] == level,
    ensures
        luma(frame, PixFmt::Rgba, i) == level,
{
}

/// A pixel's luma is its own byte of the first plane, or of an rgba pixel the
/// whole part of 299 thousandths of its red, 587 of its green and 114 of its
/// blue.
pub proof fn law_luma_weighs_red_green_and_blue(frame: Seq<u8>, i: int)
    ensures
        luma(frame, PixFmt::Yuv420p, i) == frame[i],
        ({
            let (red, green, blue) = (frame[4 * i], frame[4 * i + 1], frame[4 * i + 2]);
            1000 * luma(frame, PixFmt::Rgba, i) <= 299 * red + 587 * green + 114 * blue < 1000 * luma(
                frame,
                PixFmt::Rgba,
                i,
            ) + 1000
        }),
{
}

/// A run totals its pixels, each once: nothing totals nothing, one pixel its
/// own luma, and two runs that meet the two totals together.
pub proof fn law_a_run_totals_its_pixels(
    frame: Seq<u8>,
    pix_fmt: PixFmt,
    from: int,
    mid: int,
    to: int,
)
    requires
        from <= mid <= to,
    ensures
        run_sum(frame, pix_fmt, from, from) == 0,
        run_sum(frame, pix_fmt, from, from + 1) == luma(frame, pix_fmt, from),
        run_sum(frame, pix_fmt, from, to) == run_sum(frame, pix_fmt, from, mid) + run_sum(
            frame,
            pix_fmt,
            mid,
            to,
        ),
    decreases to - mid,
{
    assert(run_sum(frame, pix_fmt, from, from) == 0);
    if mid < to {
        law_a_run_totals_its_pixels(frame, pix_fmt, from, mid, to - 1);
    }
}

/// A block totals its pixels, each once: an empty one nothing, one of a single
/// pixel the luma at that row and column, and two that meet along a row or
/// along a column the two totals together.
pub proof fn law_a_block_totals_its_pixels(
    frame: Seq<u8>,
    pix_fmt: PixFmt,
    width: int,
    y0: int,
    y: int,
    y1: int,
    x0: int,
    x: int,
    x1: int,
)
    requires
        y0 <= y <= y1,
        x0 <= x <= x1,
    ensures
        block_sum(frame, pix_fmt, width, y0, y0, x0, x1) == 0,
        block_sum(frame, pix_fmt, width, y, y + 1, x, x + 1) == luma(frame, pix_fmt, y * width + x),
        block_sum(frame, pix_fmt, width, y0, y1, x0, x1) == block_sum(
            frame,
            pix_fmt,
            width,
            y0,
            y,
            x0,
            x1,
        ) + block_sum(frame, pix_fmt, width, y, y1, x0, x1),
        block_sum(frame, pix_fmt, width, y0, y1, x0, x1) == block_sum(
            frame,
            pix_fmt,
            width,
            y0,
            y1,
            x0,
            x,
        ) + block_sum(frame, pix_fmt, width, y0, y1, x, x1),
    decreases y1 - y0,
{
    let one = y * width + x;
    assert(block_sum(frame, pix_fmt, width, y, y, x, x + 1) == 0);
    law_a_run_totals_its_pixels(frame, pix_fmt, one, one, one + 1);
    if y0 < y1 {
        let base = (y1 - 1) * width;
        law_a_run_totals_its_pixels(frame, pix_fmt, base + x0, base + x, base + x1);
        if y < y1 {
            law_a_block_totals_its_pixels(frame, pix_fmt, width, y0, y, y1 - 1, x0, x, x1);
        } else {
            law_a_block_totals_its_pixels(frame, pix_fmt, width, y0, y1 - 1, y1 - 1, x0, x, x1);
            assert(block_sum(frame, pix_fmt, width, y, y1, x0, x1) == 0);
        }
    }
}

/// A cell begins as far along an axis as its share of the thirty-two, rounded
/// down, and ends where the next begins. On an axis of thirty-two pixels or
/// more the cells meet without a gap and cover it all; on a shorter one a cell
/// that would be empty is the pixel it begins at.
pub proof fn law_cells_share_an_axis_evenly(c: int, size: int)
    requires
        0 <= c < 32,
        0 <= size,
    ensures
        cell_from(0, size) == 0,
        cell_from(32, size) == size,
        32 * cell_from(c, size) <= c * size < 32 * cell_from(c, size) + 32,
        size >= 32 ==> cell_from(c, size) < cell_to(c, size) == cell_from(c + 1, size),
        cell_to(c, size) == cell_from(c, size) + 1 || cell_to(c, size) == cell_from(c + 1, size),
        cell_to(c, size) >= cell_from(c, size) + 1,
        cell_to(c, size) >= cell_from(c + 1, size),
{
    assert((c + 1) * size == c * size + size) by (nonlinear_arith);
    assert(0 * size == 0);
}

/// A cell is the whole part of the mean over its own block, so it lies between
/// the darkest and the lightest of that block's pixels, and no pixel outside
/// the block has any part in it.
pub proof fn law_a_cell_is_its_blocks_mean(
    frame: Seq<u8>,
    other: Seq<u8>,
    pix_fmt: PixFmt,
    width: int,
    height: int,
    cy: int,
    cx: int,
    low: int,
    high: int,
)
    requires
        0 <= width,
        0 <= height,
        0 <= cy < 32,
        0 <= cx < 32,
        forall|y: int, x: int|
            cell_from(cy, height) <= y < cell_to(cy, height) && cell_from(cx, width) <= x < cell_to(
                cx,
                width,
            ) ==> low <= #[trigger] luma(frame, pix_fmt, y * width + x) <= high && luma(
                other,
                pix_fmt,
                y * width + x,
            ) == luma(frame, pix_fmt, y * width + x),
    ensures
        ({
            let (y0, y1) = (cell_from(cy, height), cell_to(cy, height));
            let (x0, x1) = (cell_from(cx, width), cell_to(cx, width));
            let cell = cell_of(frame, pix_fmt, width, height, cy, cx);
            let area = (y1 - y0) * (x1 - x0);
            &&& area * cell <= block_sum(frame, pix_fmt, width, y0, y1, x0, x1) < area * cell + area
            &&& low <= cell <= high
            &&& cell_of(other, pix_fmt, width, height, cy, cx) == cell
        }),
{
    lemma_cell_edges(cy, height);
    lemma_cell_edges(cx, width);
    let (y0, y1) = (cell_from(cy, height), cell_to(cy, height));
    let (x0, x1) = (cell_from(cx, width), cell_to(cx, width));
    let area = (y1 - y0) * (x1 - x0);
    let total = block_sum(frame, pix_fmt, width, y0, y1, x0, x1);
    assert(area >= 1) by (nonlinear_arith)
        requires
            area == (y1 - y0) * (x1 - x0),
            y1 - y0 >= 1,
            x1 - x0 >= 1,
    ;
    lemma_block_between(frame, other, pix_fmt, width, y0, y1, x0, x1, low, high);
    let cell = total / area;
    assert(area * cell <= total < area * cell + area && low <= cell <= high) by (nonlinear_arith)
        requires
            cell == total / area,
            area >= 1,
            low * area <= total <= high * area,
    ;
}

proof fn lemma_run_between(
    frame: Seq<u8>,
    other: Seq<u8>,
    pix_fmt: PixFmt,
    base: int,
    x0: int,
    x1: int,
    low: int,
    high: int,
)
    requires
        x0 <= x1,
        forall|x: int|
            x0 <= x < x1 ==> low <= #[trigger] luma(frame, pix_fmt, base + x) <= high && luma(
                other,
                pix_fmt,
                base + x,
            ) == luma(frame, pix_fmt, base + x),
    ensures
        low * (x1 - x0) <= run_sum(frame, pix_fmt, base + x0, base + x1) <= high * (x1 - x0),
        run_sum(other, pix_fmt, base + x0, base + x1) == run_sum(
            frame,
            pix_fmt,
            base + x0,
            base + x1,
        ),
    decreases x1 - x0,
{
    if x0 < x1 {
        lemma_run_between(frame, other, pix_fmt, base, x0, x1 - 1, low, high);
        assert(low <= luma(frame, pix_fmt, base + (x1 - 1)) <= high);
        assert(base + (x1 - 1) == base + x1 - 1);
        assert(low * (x1 - x0) == low * (x1 - 1 - x0) + low) by (nonlinear_arith);
        assert(high * (x1 - x0) == high * (x1 - 1 - x0) + high) by (nonlinear_arith);
    } else {
        assert(low * 0 == 0 && high * 0 == 0);
    }
}

proof fn lemma_block_between(
    frame: Seq<u8>,
    other: Seq<u8>,
    pix_fmt: PixFmt,
    width: int,
    y0: int,
    y1: int,
    x0: int,
    x1: int,
    low: int,
    high: int,
)
    requires
        y0 <= y1,
        x0 <= x1,
        forall|y: int, x: int|
            y0 <= y < y1 && x0 <= x < x1 ==> low <= #[trigger] luma(frame, pix_fmt, y * width + x)
                <= high && luma(other, pix_fmt, y * width + x) == luma(
                frame,
                pix_fmt,
                y * width + x,
            ),
    ensures
        low * ((y1 - y0) * (x1 - x0)) <= block_sum(frame, pix_fmt, width, y0, y1, x0, x1) <= high * (
        (y1 - y0) * (x1 - x0)),
        block_sum(other, pix_fmt, width, y0, y1, x0, x1) == block_sum(
            frame,
            pix_fmt,
            width,
            y0,
            y1,
            x0,
            x1,
        ),
    decreases y1 - y0,
{
    if y0 < y1 {
        lemma_block_between(frame, other, pix_fmt, width, y0, y1 - 1, x0, x1, low, high);
        let base = (y1 - 1) * width;
        assert forall|x: int| x0 <= x < x1 implies low <= #[trigger] luma(frame, pix_fmt, base + x)
            <= high && luma(other, pix_fmt, base + x) == luma(frame, pix_fmt, base + x) by {
            assert(low <= luma(frame, pix_fmt, (y1 - 1) * width + x) <= high);
        }
        lemma_run_between(frame, other, pix_fmt, base, x0, x1, low, high);
        assert((y1 - y0) * (x1 - x0) == (y1 - 1 - y0) * (x1 - x0) + (x1 - x0)) by (nonlinear_arith);
        let (rest, row) = ((y1 - 1 - y0) * (x1 - x0), x1 - x0);
        assert(low * (rest + row) == low * rest + low * row) by (nonlinear_arith);
        assert(high * (rest + row) == high * rest + high * row) by (nonlinear_arith);
    } else {
        assert(low * (0 * (x1 - x0)) == 0 && high * (0 * (x1 - x0)) == 0) by (nonlinear_arith);
    }
}

/// Differences add up cell by cell, each as much as the two bytes are apart,
/// whichever is the larger.
pub proof fn law_differences_add_up(a: Seq<u8>, b: Seq<u8>, count: int)
    requires
        0 <= count < a.len(),
        count < b.len(),
    ensures
        gap_sum(a, b, 0) == 0,
        a[count] >= b[count] ==> gap_sum(a, b, count + 1) == gap_sum(a, b, count) + (a[count]
            - b[count]),
        a[count] < b[count] ==> gap_sum(a, b, count + 1) == gap_sum(a, b, count) + (b[count]
            - a[count]),
{
}

/// A cut is a mean difference above twelve over the cells of the frame before:
/// cells past those both frames have add nothing, but those of the frame
/// before still count.
pub proof fn law_a_cut_is_a_mean_above_twelve(previous: Seq<u8>, current: Seq<u8>, shared: int)
    requires
        0 <= shared,
        shared <= previous.len(),
        shared <= current.len(),
        shared == previous.len() || shared == current.len(),
    ensures
        cut_between(previous, current) <==> gap_sum(previous, current, shared) > 12
            * previous.len(),
{
}

} // verus!
