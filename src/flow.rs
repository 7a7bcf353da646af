//! Block-matching optical flow on the green channel of interleaved
//! three-channel frames.
use vstd::prelude::*;

verus! {

/// Cells per side of the sampling grid.
pub const GRID_SIZE: usize = 10;

/// Number of cells in the sampling grid.
pub const GRID_CELLS: usize = 100;

/// Distance of the outermost sample centers from the frame border.
pub const FLOW_MARGIN: usize = 20;

/// Largest displacement searched on each axis.
pub const SEARCH_RANGE: i32 = 4;

/// Block SAD below which a cell takes part in the aggregate velocity.
pub const CONFIDENCE_SAD: u32 = 800;

/// Largest SAD of one 8×8 block.
pub const MAX_BLOCK_SAD: u32 = 16320;

pub open spec fn abs(v: int) -> int {
    if v < 0 {
        -v
    } else {
        v
    }
}

/// Green sample of pixel `(x, y)`.
pub open spec fn green(frame: Seq<u8>, width: int, x: int, y: int) -> int {
    frame[(y * width + x) * 3 + 1] as int
}

/// Difference between pixel `(px, py)` of `prev` and pixel `(qx, qy)` of `current`.
pub open spec fn pixel_diff(
    current: Seq<u8>,
    prev: Seq<u8>,
    width: int,
    px: int,
    py: int,
    qx: int,
    qy: int,
) -> int {
    abs(green(prev, width, px, py) - green(current, width, qx, qy))
}

/// SAD of the first `n` pixels of row `by` of the 8×8 patches whose
/// top-left corners are `(px0, py0)` in `prev` and `(qx0, qy0)` in `current`.
pub open spec fn row_sad(
    current: Seq<u8>,
    prev: Seq<u8>,
    width: int,
    px0: int,
    py0: int,
    qx0: int,
    qy0: int,
    by: int,
    n: int,
) -> int
    decreases n,
{
    if n <= 0 {
        0
    } else {
        row_sad(current, prev, width, px0, py0, qx0, qy0, by, n - 1) + pixel_diff(
            current,
            prev,
            width,
            px0 + n - 1,
            py0 + by,
            qx0 + n - 1,
            qy0 + by,
        )
    }
}

/// SAD of the first `m` rows of the two 8×8 patches.
pub open spec fn patch_sad(
    current: Seq<u8>,
    prev: Seq<u8>,
    width: int,
    px0: int,
    py0: int,
    qx0: int,
    qy0: int,
    m: int,
) -> int
    decreases m,
{
    if m <= 0 {
        0
    } else {
        patch_sad(current, prev, width, px0, py0, qx0, qy0, m - 1) + row_sad(
            current,
            prev,
            width,
            px0,
            py0,
            qx0,
            qy0,
            m - 1,
            8,
        )
    }
}

/// SAD between the 8×8 block around `(cx, cy)` in `prev` and the block
/// displaced by `(dx, dy)` in `current`.
pub open spec fn block_sad(
    current: Seq<u8>,
    prev: Seq<u8>,
    width: int,
    cx: int,
    cy: int,
    dx: int,
    dy: int,
) -> int {
    patch_sad(current, prev, width, cx - 4, cy - 4, cx + dx - 4, cy + dy - 4, 8)
}

/// `(dx1, dy1)` comes before `(dx2, dy2)` in raster order (rows outer).
pub open spec fn raster_before(dx1: int, dy1: int, dx2: int, dy2: int) -> bool {
    dy1 < dy2 || (dy1 == dy2 && dx1 < dx2)
}

pub open spec fn in_range(range: int, d: int) -> bool {
    -range <= d <= range
}

/// `(dx, dy)` is the first displacement in raster order with the least block SAD.
pub open spec fn is_best_match(
    current: Seq<u8>,
    prev: Seq<u8>,
    width: int,
    cx: int,
    cy: int,
    range: int,
    dx: int,
    dy: int,
    score: int,
) -> bool {
    &&& in_range(range, dx) && in_range(range, dy)
    &&& score == block_sad(current, prev, width, cx, cy, dx, dy)
    &&& forall|ex: int, ey: int|
        in_range(range, ex) && in_range(range, ey) ==> #[trigger] block_sad(
            current,
            prev,
            width,
            cx,
            cy,
            ex,
            ey,
        ) >= score
    &&& forall|ex: int, ey: int|
        in_range(range, ex) && in_range(range, ey) && raster_before(ex, ey, dx, dy)
            ==> #[trigger] block_sad(current, prev, width, cx, cy, ex, ey) > score
}

/// At most one displacement is the best match: the contract of the search
/// determines its result.
pub proof fn lemma_best_match_unique(
    current: Seq<u8>,
    prev: Seq<u8>,
    width: int,
    cx: int,
    cy: int,
    range: int,
    dx1: int,
    dy1: int,
    score1: int,
    dx2: int,
    dy2: int,
    score2: int,
)
    requires
        is_best_match(current, prev, width, cx, cy, range, dx1, dy1, score1),
        is_best_match(current, prev, width, cx, cy, range, dx2, dy2, score2),
    ensures
        dx1 == dx2,
        dy1 == dy2,
        score1 == score2,
{
    assert(block_sad(current, prev, width, cx, cy, dx1, dy1) >= score2);
    assert(block_sad(current, prev, width, cx, cy, dx2, dy2) >= score1);
    if raster_before(dx1, dy1, dx2, dy2) {
        assert(block_sad(current, prev, width, cx, cy, dx1, dy1) > score2);
    }
    if raster_before(dx2, dy2, dx1, dy1) {
        assert(block_sad(current, prev, width, cx, cy, dx2, dy2) > score1);
    }
}

/// The green sample of pixel `(x, y)` lies within `len` bytes when row `y`
/// ends within them, and its offset can be computed row first.
proof fn lemma_green_index(width: int, x: int, y: int, len: int)
    requires
        0 <= x < width,
        0 <= y,
        (y + 1) * width * 3 <= len,
    ensures
        y * width * 3 + x * 3 + 1 < len,
        (y * width + x) * 3 + 1 == y * width * 3 + x * 3 + 1,
        0 <= y * width * 3,
        y * width <= y * width * 3,
{
    assert(y * width * 3 + x * 3 + 1 < (y + 1) * width * 3) by (nonlinear_arith)
        requires 0 <= x < width, 0 <= y;
    assert((y * width + x) * 3 + 1 == y * width * 3 + x * 3 + 1) by (nonlinear_arith);
    assert(0 <= y * width <= y * width * 3) by (nonlinear_arith)
        requires 0 <= y, 0 < width;
}

/// Row `y + 1` ends no later than row `rows` when `y < rows`.
proof fn lemma_rows_fit(width: int, y: int, rows: int, len: int)
    requires
        0 <= y < rows,
        0 < width,
        rows * width * 3 <= len,
    ensures
        (y + 1) * width * 3 <= len,
{
    assert((y + 1) * width * 3 <= rows * width * 3) by (nonlinear_arith)
        requires 0 <= y < rows, 0 < width;
}

/// A row SAD lies between 0 and 255 per pixel.
proof fn lemma_row_sad_bounds(
    current: Seq<u8>,
    prev: Seq<u8>,
    width: int,
    px0: int,
    py0: int,
    qx0: int,
    qy0: int,
    by: int,
    n: int,
)
    requires
        0 <= n,
        forall|bx: int|
            0 <= bx < n ==> 0 <= #[trigger] pixel_diff(current, prev, width, px0 + bx, py0 + by, qx0 + bx, qy0 + by) <= 255,
    ensures
        0 <= row_sad(current, prev, width, px0, py0, qx0, qy0, by, n) <= 255 * n,
    decreases n,
{
    if n > 0 {
        lemma_row_sad_bounds(current, prev, width, px0, py0, qx0, qy0, by, n - 1);
        assert(0 <= pixel_diff(current, prev, width, px0 + (n - 1), py0 + by, qx0 + (n - 1), qy0 + by) <= 255);
    }
}

/// SAD of the 8×8 patches at the given corners, each inside its frame.
fn patch_sad_exec(
    current: &[u8],
    prev: &[u8],
    width: usize,
    px0: usize,
    py0: usize,
    qx0: usize,
    qy0: usize,
) -> (r: u32)
    requires
        px0 + 8 <= width,
        qx0 + 8 <= width,
        (py0 + 8) * width * 3 <= prev@.len(),
        (qy0 + 8) * width * 3 <= current@.len(),
    ensures
        r == patch_sad(current@, prev@, width as int, px0 as int, py0 as int, qx0 as int, qy0 as int, 8),
        r <= MAX_BLOCK_SAD,
{
    let ghost c = current@;
    let ghost p = prev@;
    let ghost w = width as int;
    let plen: usize = prev.len();
    let clen: usize = current.len();
    proof {
        assert(py0 + 8 <= (py0 + 8) * width * 3) by (nonlinear_arith)
            requires px0 + 8 <= width;
        assert(qy0 + 8 <= (qy0 + 8) * width * 3) by (nonlinear_arith)
            requires qx0 + 8 <= width;
    }
    let mut sad: u32 = 0;
    let mut by: usize = 0;
    while by < 8
        invariant
            by <= 8,
            px0 + 8 <= width,
            qx0 + 8 <= width,
            (py0 + 8) * width * 3 <= p.len(),
            (qy0 + 8) * width * 3 <= c.len(),
            py0 + 8 <= plen,
            qy0 + 8 <= clen,
            plen == p.len(),
            clen == c.len(),
            c == current@,
            p == prev@,
            w == width,
            sad == patch_sad(c, p, w, px0 as int, py0 as int, qx0 as int, qy0 as int, by as int),
            sad <= 2040 * by,
        decreases 8 - by,
    {
        let p_row_y: usize = py0 + by;
        let c_row_y: usize = qy0 + by;
        proof {
            lemma_rows_fit(w, p_row_y as int, py0 + 8, p.len() as int);
            lemma_rows_fit(w, c_row_y as int, qy0 + 8, c.len() as int);
            lemma_green_index(w, 0, p_row_y as int, p.len() as int);
            lemma_green_index(w, 0, c_row_y as int, c.len() as int);
        }
        let p_row_offset: usize = p_row_y * width * 3;
        let c_row_offset: usize = c_row_y * width * 3;
        let mut row: u32 = 0;
        let mut bx: usize = 0;
        while bx < 8
            invariant
                bx <= 8,
                by < 8,
                px0 + 8 <= width,
                qx0 + 8 <= width,
                (p_row_y + 1) * width * 3 <= plen,
                (c_row_y + 1) * width * 3 <= clen,
                plen == p.len(),
                clen == c.len(),
                p_row_y == py0 + by,
                c_row_y == qy0 + by,
                p_row_offset == p_row_y * width * 3,
                c_row_offset == c_row_y * width * 3,
                c == current@,
                p == prev@,
                w == width,
                row == row_sad(c, p, w, px0 as int, py0 as int, qx0 as int, qy0 as int, by as int, bx as int),
                row <= 255 * bx,
            decreases 8 - bx,
        {
            let p_x: usize = px0 + bx;
            let c_x: usize = qx0 + bx;
            proof {
                lemma_green_index(w, p_x as int, p_row_y as int, p.len() as int);
                lemma_green_index(w, c_x as int, c_row_y as int, c.len() as int);
            }
            let p_val = prev[p_row_offset + p_x * 3 + 1] as i32;
            let c_val = current[c_row_offset + c_x * 3 + 1] as i32;
            let d: u32 = if p_val >= c_val {
                (p_val - c_val) as u32
            } else {
                (c_val - p_val) as u32
            };
            proof {
                assert(d == pixel_diff(c, p, w, px0 + bx, py0 + by, qx0 + bx, qy0 + by));
            }
            row = row + d;
            bx = bx + 1;
        }
        sad = sad + row;
        by = by + 1;
    }
    sad
}

/// Finds the displacement within `±range` on both axes whose 8×8 block in
/// `current` best matches the block around `(cx, cy)` in `prev`. Returns the
/// displacement and its SAD; ties go to the first candidate in raster order.
pub fn find_best_block_match(
    current: &[u8],
    prev: &[u8],
    cx: usize,
    cy: usize,
    width: usize,
    range: i32,
) -> (r: (i32, i32, u32))
    requires
        0 <= range,
        2 * range <= i32::MAX,
        cx >= range + 4,
        cy >= range + 4,
        cx + range + 4 <= width,
        (cy + range + 4) * width * 3 <= prev@.len(),
        (cy + range + 4) * width * 3 <= current@.len(),
    ensures
        is_best_match(current@, prev@, width as int, cx as int, cy as int, range as int, r.0 as int, r.1 as int, r.2 as int),
{
    let ghost c = current@;
    let ghost p = prev@;
    let ghost w = width as int;
    let rr: usize = range as usize;
    let clen: usize = current.len();
    proof {
        assert(cy + range + 4 <= (cy + range + 4) * width * 3) by (nonlinear_arith)
            requires cx + range + 4 <= width, cx >= 0, range >= 0;
    }
    let mut best_sad: u32 = u32::MAX;
    let mut best_dx: i32 = 0;
    let mut best_dy: i32 = 0;
    let mut oy: usize = 0;
    while oy <= 2 * rr
        invariant
            rr == range,
            0 <= range,
            2 * range <= i32::MAX,
            cx >= range + 4,
            cy >= range + 4,
            cx + range + 4 <= width,
            (cy + range + 4) * width * 3 <= p.len(),
            (cy + range + 4) * width * 3 <= c.len(),
            cy + range + 4 <= clen,
            clen == c.len(),
            c == current@,
            p == prev@,
            w == width,
            oy <= 2 * rr + 1,
            oy == 0 ==> best_sad == u32::MAX,
            oy > 0 ==> in_range(range as int, best_dx as int) && in_range(range as int, best_dy as int),
            oy > 0 ==> best_dy + range < oy,
            oy > 0 ==> best_sad == block_sad(c, p, w, cx as int, cy as int, best_dx as int, best_dy as int),
            forall|ex: int, ey: int|
                in_range(range as int, ex) && ey + range < oy && -range <= ey ==> #[trigger] block_sad(
                    c,
                    p,
                    w,
                    cx as int,
                    cy as int,
                    ex,
                    ey,
                ) >= best_sad,
            forall|ex: int, ey: int|
                in_range(range as int, ex) && -range <= ey && ey + range < oy && raster_before(ex, ey, best_dx as int, best_dy as int)
                    ==> #[trigger] block_sad(c, p, w, cx as int, cy as int, ex, ey) > best_sad,
        decreases 2 * rr + 1 - oy,
    {
        let dy: i32 = oy as i32 - range;
        let mut ox: usize = 0;
        while ox <= 2 * rr
            invariant
                rr == range,
                0 <= range,
                2 * range <= i32::MAX,
                cx >= range + 4,
                cy >= range + 4,
                cx + range + 4 <= width,
                (cy + range + 4) * width * 3 <= p.len(),
                (cy + range + 4) * width * 3 <= c.len(),
                cy + range + 4 <= clen,
                clen == c.len(),
                c == current@,
                p == prev@,
                w == width,
                oy <= 2 * rr,
                dy == oy - range,
                ox <= 2 * rr + 1,
                oy == 0 && ox == 0 ==> best_sad == u32::MAX,
                oy > 0 || ox > 0 ==> in_range(range as int, best_dx as int) && in_range(range as int, best_dy as int),
                oy > 0 || ox > 0 ==> raster_before(best_dx as int, best_dy as int, ox - range, dy as int),
                oy > 0 || ox > 0 ==> best_sad == block_sad(c, p, w, cx as int, cy as int, best_dx as int, best_dy as int),
                forall|ex: int, ey: int|
                    in_range(range as int, ex) && -range <= ey && raster_before(ex, ey, ox - range, dy as int)
                        ==> #[trigger] block_sad(c, p, w, cx as int, cy as int, ex, ey) >= best_sad,
                forall|ex: int, ey: int|
                    in_range(range as int, ex) && -range <= ey && raster_before(ex, ey, ox - range, dy as int) && raster_before(
                        ex,
                        ey,
                        best_dx as int,
                        best_dy as int,
                    ) ==> #[trigger] block_sad(c, p, w, cx as int, cy as int, ex, ey) > best_sad,
            decreases 2 * rr + 1 - ox,
        {
            let dx: i32 = ox as i32 - range;
            let qx0: usize = cx - rr - 4 + ox;
            let qy0: usize = cy - rr - 4 + oy;
            proof {
                assert((qy0 + 8) * width * 3 <= (cy + range + 4) * width * 3) by (nonlinear_arith)
                    requires qy0 + 8 <= cy + range + 4;
                assert((cy - 4 + 8) * width * 3 <= (cy + range + 4) * width * 3) by (nonlinear_arith)
                    requires range >= 0;
            }
            let sad = patch_sad_exec(current, prev, width, cx - 4, cy - 4, qx0, qy0);
            proof {
                assert(sad == block_sad(c, p, w, cx as int, cy as int, dx as int, dy as int));
            }
            if sad < best_sad {
                best_sad = sad;
                best_dx = dx;
                best_dy = dy;
            }
            ox = ox + 1;
        }
        oy = oy + 1;
    }
    (best_dx, best_dy, best_sad)
}

/// Sums of the confident cells of one estimate; the aggregate velocity is
/// `(sum_dx / points, sum_dy / points)`, or `(0, 0)` when `points` is zero.
#[derive(Debug, Clone, Copy, PartialEq, Eq, Structural)]
pub struct FlowTotals {
    pub sum_dx: i32,
    pub sum_dy: i32,
    pub points: u32,
}

/// Spacing of the sample centers along an axis of `dim` pixels.
pub open spec fn grid_step(dim: int) -> int {
    (dim - 2 * FLOW_MARGIN) / 9
}

/// Column of the center of cell `c` (cells in row-major order).
pub open spec fn cell_x(width: int, c: int) -> int {
    FLOW_MARGIN + (c % 10) * grid_step(width)
}

/// Row of the center of cell `c`.
pub open spec fn cell_y(height: int, c: int) -> int {
    FLOW_MARGIN + (c / 10) * grid_step(height)
}

/// Block SAD of the displacement recorded for cell `c` in `grid`.
pub open spec fn cell_sad(current: Seq<u8>, prev: Seq<u8>, width: int, height: int, grid: Seq<i32>, c: int) -> int {
    block_sad(current, prev, width, cell_x(width, c), cell_y(height, c), grid[2 * c] as int, grid[2 * c + 1] as int)
}

/// Cell `c` of `grid` holds the best match around its center.
pub open spec fn cell_is_best(current: Seq<u8>, prev: Seq<u8>, width: int, height: int, grid: Seq<i32>, c: int) -> bool {
    is_best_match(
        current,
        prev,
        width,
        cell_x(width, c),
        cell_y(height, c),
        SEARCH_RANGE as int,
        grid[2 * c] as int,
        grid[2 * c + 1] as int,
        cell_sad(current, prev, width, height, grid, c),
    )
}

/// Cell `c` matched well enough to count in the aggregate.
pub open spec fn is_confident(current: Seq<u8>, prev: Seq<u8>, width: int, height: int, grid: Seq<i32>, c: int) -> bool {
    cell_sad(current, prev, width, height, grid, c) < CONFIDENCE_SAD
}

/// Sum of component `axis` (0 for x, 1 for y) over the confident cells among the first `n`.
pub open spec fn confident_sum(
    current: Seq<u8>,
    prev: Seq<u8>,
    width: int,
    height: int,
    grid: Seq<i32>,
    axis: int,
    n: int,
) -> int
    decreases n,
{
    if n <= 0 {
        0
    } else {
        confident_sum(current, prev, width, height, grid, axis, n - 1) + if is_confident(
            current,
            prev,
            width,
            height,
            grid,
            n - 1,
        ) {
            grid[2 * (n - 1) + axis] as int
        } else {
            0
        }
    }
}

/// Number of confident cells among the first `n`.
pub open spec fn confident_count(current: Seq<u8>, prev: Seq<u8>, width: int, height: int, grid: Seq<i32>, n: int) -> int
    decreases n,
{
    if n <= 0 {
        0
    } else {
        confident_count(current, prev, width, height, grid, n - 1) + if is_confident(
            current,
            prev,
            width,
            height,
            grid,
            n - 1,
        ) {
            1int
        } else {
            0
        }
    }
}

/// Frame dimensions the estimator accepts: both sides at least twice the margin.
pub open spec fn valid_dims(width: int, height: int, len: int) -> bool {
    width >= 2 * FLOW_MARGIN && height >= 2 * FLOW_MARGIN && len == width * height * 3
}

/// `grid` and `totals` are the estimate for the frame pair: each cell holds
/// the best match around its center, and the totals cover the confident cells.
pub open spec fn is_flow_estimate(
    current: Seq<u8>,
    prev: Seq<u8>,
    width: int,
    height: int,
    grid: Seq<i32>,
    totals: FlowTotals,
) -> bool {
    &&& grid.len() == 2 * GRID_CELLS
    &&& forall|c: int| 0 <= c < GRID_CELLS ==> #[trigger] cell_is_best(current, prev, width, height, grid, c)
    &&& totals.sum_dx == confident_sum(current, prev, width, height, grid, 0, GRID_CELLS as int)
    &&& totals.sum_dy == confident_sum(current, prev, width, height, grid, 1, GRID_CELLS as int)
    &&& totals.points == confident_count(current, prev, width, height, grid, GRID_CELLS as int)
}

/// Each sample center of an axis of `dim` pixels leaves room for the
/// search and the block on both sides.
proof fn lemma_cell_geometry(dim: int, g: int)
    requires
        dim >= 2 * FLOW_MARGIN,
        0 <= g < 10,
    ensures
        0 <= g * grid_step(dim) <= dim,
        FLOW_MARGIN + g * grid_step(dim) + FLOW_MARGIN <= dim,
{
    let st = grid_step(dim);
    assert(0 <= st && 9 * st <= dim - 2 * FLOW_MARGIN) by (nonlinear_arith)
        requires st == (dim - 2 * FLOW_MARGIN) / 9, dim >= 2 * FLOW_MARGIN;
    assert(0 <= g * st <= 9 * st) by (nonlinear_arith)
        requires 0 <= g < 10, st >= 0;
}

/// The sums over the first `n` cells read only the first `2 * n` entries.
proof fn lemma_sums_frame(
    current: Seq<u8>,
    prev: Seq<u8>,
    width: int,
    height: int,
    g1: Seq<i32>,
    g2: Seq<i32>,
    n: int,
)
    requires
        0 <= n,
        2 * n <= g1.len(),
        2 * n <= g2.len(),
        forall|i: int| 0 <= i < 2 * n ==> g1[i] == g2[i],
    ensures
        confident_sum(current, prev, width, height, g1, 0, n) == confident_sum(current, prev, width, height, g2, 0, n),
        confident_sum(current, prev, width, height, g1, 1, n) == confident_sum(current, prev, width, height, g2, 1, n),
        confident_count(current, prev, width, height, g1, n) == confident_count(current, prev, width, height, g2, n),
    decreases n,
{
    if n > 0 {
        lemma_sums_frame(current, prev, width, height, g1, g2, n - 1);
        assert(g1[2 * (n - 1)] == g2[2 * (n - 1)]);
        assert(g1[2 * (n - 1) + 1] == g2[2 * (n - 1) + 1]);
    }
}

/// Estimates the motion between `prev` and `current`: writes the best
/// displacement of each of the 100 grid cells into `grid_out` as
/// `dx, dy` pairs in row-major order, and returns the sums over the cells
/// whose best SAD is below `CONFIDENCE_SAD`.
pub fn calculate_optical_flow(
    current: &[u8],
    prev: &[u8],
    width: usize,
    height: usize,
    grid_out: &mut Vec<i32>,
) -> (r: FlowTotals)
    requires
        valid_dims(width as int, height as int, current@.len() as int),
        prev@.len() == current@.len(),
        old(grid_out)@.len() == 2 * GRID_CELLS,
    ensures
        is_flow_estimate(current@, prev@, width as int, height as int, final(grid_out)@, r),
{
    let ghost c = current@;
    let ghost p = prev@;
    let ghost w = width as int;
    let ghost h = height as int;
    let step_x: usize = (width - 2 * FLOW_MARGIN) / 9;
    let step_y: usize = (height - 2 * FLOW_MARGIN) / 9;
    let mut total_dx: i32 = 0;
    let mut total_dy: i32 = 0;
    let mut points: u32 = 0;
    let mut cell: usize = 0;
    while cell < GRID_CELLS
        invariant
            valid_dims(w, h, c.len() as int),
            p.len() == c.len(),
            c == current@,
            p == prev@,
            w == width,
            h == height,
            step_x == grid_step(w),
            step_y == grid_step(h),
            cell <= GRID_CELLS,
            grid_out@.len() == 2 * GRID_CELLS,
            forall|j: int| 0 <= j < cell ==> #[trigger] cell_is_best(c, p, w, h, grid_out@, j),
            total_dx == confident_sum(c, p, w, h, grid_out@, 0, cell as int),
            total_dy == confident_sum(c, p, w, h, grid_out@, 1, cell as int),
            points == confident_count(c, p, w, h, grid_out@, cell as int),
            -4 * cell <= total_dx <= 4 * cell,
            -4 * cell <= total_dy <= 4 * cell,
            points <= cell,
        decreases GRID_CELLS - cell,
    {
        let gx: usize = cell % GRID_SIZE;
        let gy: usize = cell / GRID_SIZE;
        proof {
            lemma_cell_geometry(w, gx as int);
            lemma_cell_geometry(h, gy as int);
        }
        let x: usize = FLOW_MARGIN + gx * step_x;
        let y: usize = FLOW_MARGIN + gy * step_y;
        proof {
            assert((y + SEARCH_RANGE + 4) * width * 3 <= width * height * 3) by (nonlinear_arith)
                requires y + SEARCH_RANGE + 4 <= height;
        }
        let (dx, dy, score) = find_best_block_match(current, prev, x, y, width, SEARCH_RANGE);
        let ghost before = grid_out@;
        let idx: usize = cell * 2;
        grid_out.set(idx, dx);
        grid_out.set(idx + 1, dy);
        proof {
            let g = grid_out@;
            assert(g[2 * cell as int] == dx && g[2 * cell as int + 1] == dy);
            assert(cell_x(w, cell as int) == x && cell_y(h, cell as int) == y);
            assert(cell_sad(c, p, w, h, g, cell as int) == score);
            assert(cell_is_best(c, p, w, h, g, cell as int));
            assert forall|j: int| 0 <= j < cell + 1 implies #[trigger] cell_is_best(c, p, w, h, g, j) by {
                if j < cell {
                    assert(cell_is_best(c, p, w, h, before, j));
                    assert(g[2 * j] == before[2 * j] && g[2 * j + 1] == before[2 * j + 1]);
                }
            }
            lemma_sums_frame(c, p, w, h, before, g, cell as int);
        }
        if score < CONFIDENCE_SAD {
            total_dx = total_dx + dx;
            total_dy = total_dy + dy;
            points = points + 1;
        }
        cell = cell + 1;
    }
    FlowTotals { sum_dx: total_dx, sum_dy: total_dy, points }
}

/// A block SAD is never negative.
pub proof fn lemma_block_sad_nonneg(current: Seq<u8>, prev: Seq<u8>, width: int, cx: int, cy: int, dx: int, dy: int)
    ensures
        block_sad(current, prev, width, cx, cy, dx, dy) >= 0,
{
    lemma_patch_sad_bounds(current, prev, width, cx - 4, cy - 4, cx + dx - 4, cy + dy - 4, 8);
}

proof fn lemma_patch_sad_bounds(
    current: Seq<u8>,
    prev: Seq<u8>,
    width: int,
    px0: int,
    py0: int,
    qx0: int,
    qy0: int,
    m: int,
)
    requires
        0 <= m,
    ensures
        0 <= patch_sad(current, prev, width, px0, py0, qx0, qy0, m),
    decreases m,
{
    if m > 0 {
        lemma_patch_sad_bounds(current, prev, width, px0, py0, qx0, qy0, m - 1);
        lemma_row_sad_bounds(current, prev, width, px0, py0, qx0, qy0, m - 1, 8);
    }
}

/// Patches whose green samples agree pixel for pixel have SAD zero.
proof fn lemma_equal_patches_zero(
    current: Seq<u8>,
    prev: Seq<u8>,
    width: int,
    px0: int,
    py0: int,
    qx0: int,
    qy0: int,
    m: int,
)
    requires
        0 <= m <= 8,
        forall|bx: int, by: int|
            0 <= bx < 8 && 0 <= by < 8 ==> #[trigger] green(current, width, qx0 + bx, qy0 + by) == green(
                prev,
                width,
                px0 + bx,
                py0 + by,
            ),
    ensures
        patch_sad(current, prev, width, px0, py0, qx0, qy0, m) == 0,
    decreases m,
{
    if m > 0 {
        lemma_equal_patches_zero(current, prev, width, px0, py0, qx0, qy0, m - 1);
        lemma_equal_rows_zero(current, prev, width, px0, py0, qx0, qy0, m - 1, 8);
    }
}

proof fn lemma_equal_rows_zero(
    current: Seq<u8>,
    prev: Seq<u8>,
    width: int,
    px0: int,
    py0: int,
    qx0: int,
    qy0: int,
    by: int,
    n: int,
)
    requires
        0 <= n <= 8,
        0 <= by < 8,
        forall|bx: int, by: int|
            0 <= bx < 8 && 0 <= by < 8 ==> #[trigger] green(current, width, qx0 + bx, qy0 + by) == green(
                prev,
                width,
                px0 + bx,
                py0 + by,
            ),
    ensures
        row_sad(current, prev, width, px0, py0, qx0, qy0, by, n) == 0,
    decreases n,
{
    if n > 0 {
        lemma_equal_rows_zero(current, prev, width, px0, py0, qx0, qy0, by, n - 1);
        assert(green(current, width, qx0 + (n - 1), qy0 + by) == green(prev, width, px0 + (n - 1), py0 + by));
    }
}

/// A displacement whose block matches exactly, while every displacement
/// scanned before it matches less well, is the one the search reports.
pub proof fn lemma_exact_match_wins(
    current: Seq<u8>,
    prev: Seq<u8>,
    width: int,
    cx: int,
    cy: int,
    range: int,
    dx: int,
    dy: int,
    best_dx: int,
    best_dy: int,
    score: int,
)
    requires
        is_best_match(current, prev, width, cx, cy, range, best_dx, best_dy, score),
        in_range(range, dx) && in_range(range, dy),
        block_sad(current, prev, width, cx, cy, dx, dy) == 0,
        forall|ex: int, ey: int|
            in_range(range, ex) && in_range(range, ey) && raster_before(ex, ey, dx, dy) ==> #[trigger] block_sad(
                current,
                prev,
                width,
                cx,
                cy,
                ex,
                ey,
            ) > 0,
    ensures
        best_dx == dx,
        best_dy == dy,
        score == 0,
{
    lemma_block_sad_nonneg(current, prev, width, cx, cy, best_dx, best_dy);
    assert(block_sad(current, prev, width, cx, cy, dx, dy) >= score);
    if raster_before(best_dx, best_dy, dx, dy) {
        assert(block_sad(current, prev, width, cx, cy, best_dx, best_dy) > 0);
    }
    if raster_before(dx, dy, best_dx, best_dy) {
        assert(block_sad(current, prev, width, cx, cy, dx, dy) > score);
    }
}

/// When the 8×8 block around `(cx, cy)` of `prev` reappears in `current`
/// shifted by `(dx, dy)` within the search range, and no displacement scanned
/// before it matches exactly, the search recovers `(dx, dy)` with SAD zero.
pub proof fn lemma_shifted_patch_recovered(
    current: Seq<u8>,
    prev: Seq<u8>,
    width: int,
    cx: int,
    cy: int,
    range: int,
    dx: int,
    dy: int,
    best_dx: int,
    best_dy: int,
    score: int,
)
    requires
        is_best_match(current, prev, width, cx, cy, range, best_dx, best_dy, score),
        in_range(range, dx) && in_range(range, dy),
        forall|bx: int, by: int|
            0 <= bx < 8 && 0 <= by < 8 ==> #[trigger] green(current, width, cx + dx - 4 + bx, cy + dy - 4 + by)
                == green(prev, width, cx - 4 + bx, cy - 4 + by),
        forall|ex: int, ey: int|
            in_range(range, ex) && in_range(range, ey) && raster_before(ex, ey, dx, dy) ==> #[trigger] block_sad(
                current,
                prev,
                width,
                cx,
                cy,
                ex,
                ey,
            ) > 0,
    ensures
        best_dx == dx,
        best_dy == dy,
        score == 0,
{
    lemma_equal_patches_zero(current, prev, width, cx - 4, cy - 4, cx + dx - 4, cy + dy - 4, 8);
    lemma_exact_match_wins(current, prev, width, cx, cy, range, dx, dy, best_dx, best_dy, score);
}

proof fn lemma_all_zero_sums(frame: Seq<u8>, width: int, height: int, grid: Seq<i32>, n: int)
    requires
        0 <= n <= GRID_CELLS,
        grid.len() == 2 * GRID_CELLS,
        forall|i: int| 0 <= i < 2 * GRID_CELLS ==> grid[i] == 0,
        forall|c: int| 0 <= c < GRID_CELLS ==> #[trigger] cell_sad(frame, frame, width, height, grid, c) == 0,
    ensures
        confident_sum(frame, frame, width, height, grid, 0, n) == 0,
        confident_sum(frame, frame, width, height, grid, 1, n) == 0,
        confident_count(frame, frame, width, height, grid, n) == n,
    decreases n,
{
    if n > 0 {
        lemma_all_zero_sums(frame, width, height, grid, n - 1);
        assert(cell_sad(frame, frame, width, height, grid, n - 1) == 0);
        assert(grid[2 * (n - 1)] == 0 && grid[2 * (n - 1) + 1] == 0);
    }
}

/// On two identical frames every cell of the estimate is `(0, 0)`, every
/// cell is confident and the aggregate is `(0, 0)`; this holds wherever no
/// displacement scanned before `(0, 0)` also matches exactly (on a frame of
/// uniform brightness every displacement ties and the first one wins).
pub proof fn lemma_identical_frames_zero_flow(
    frame: Seq<u8>,
    width: int,
    height: int,
    grid: Seq<i32>,
    totals: FlowTotals,
)
    requires
        is_flow_estimate(frame, frame, width, height, grid, totals),
        forall|c: int, ex: int, ey: int|
            0 <= c < GRID_CELLS && in_range(SEARCH_RANGE as int, ex) && in_range(SEARCH_RANGE as int, ey)
                && raster_before(ex, ey, 0, 0) ==> #[trigger] block_sad(
                frame,
                frame,
                width,
                cell_x(width, c),
                cell_y(height, c),
                ex,
                ey,
            ) > 0,
    ensures
        forall|i: int| 0 <= i < 2 * GRID_CELLS ==> grid[i] == 0,
        totals.sum_dx == 0,
        totals.sum_dy == 0,
        totals.points == GRID_CELLS,
{
    assert forall|c: int| 0 <= c < GRID_CELLS implies grid[2 * c] == 0 && grid[2 * c + 1] == 0
        && #[trigger] cell_sad(frame, frame, width, height, grid, c) == 0 by {
        assert(cell_is_best(frame, frame, width, height, grid, c));
        let cx = cell_x(width, c);
        let cy = cell_y(height, c);
        assert forall|bx: int, by: int| 0 <= bx < 8 && 0 <= by < 8 implies #[trigger] green(
            frame,
            width,
            cx + 0 - 4 + bx,
            cy + 0 - 4 + by,
        ) == green(frame, width, cx - 4 + bx, cy - 4 + by) by {}
        assert forall|ex: int, ey: int|
            in_range(SEARCH_RANGE as int, ex) && in_range(SEARCH_RANGE as int, ey) && raster_before(
                ex,
                ey,
                0,
                0,
            ) implies #[trigger] block_sad(frame, frame, width, cx, cy, ex, ey) > 0 by {}
        lemma_shifted_patch_recovered(
            frame,
            frame,
            width,
            cx,
            cy,
            SEARCH_RANGE as int,
            0,
            0,
            grid[2 * c] as int,
            grid[2 * c + 1] as int,
            cell_sad(frame, frame, width, height, grid, c),
        );
    }
    assert forall|i: int| 0 <= i < 2 * GRID_CELLS implies grid[i] == 0 by {
        let c = i / 2;
        assert(cell_sad(frame, frame, width, height, grid, c) == 0);
        assert(i == 2 * c || i == 2 * c + 1);
    }
    lemma_all_zero_sums(frame, width, height, grid, GRID_CELLS as int);
}

} // verus!
