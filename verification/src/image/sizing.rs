//! How many terminal cells a picture takes.
//!
//! All sizes are worked out in exact integer arithmetic: a ratio is rounded
//! to the nearest whole number, halves rounded up.
use vstd::prelude::*;

verus! {

/// The ratio `p / q` rounded to the nearest integer, halves rounded up.
pub open spec fn round_ratio(p: int, q: int) -> int
    recommends
        q > 0,
{
    (2 * p + q) / (2 * q)
}

/// `v` raised to at least 1.
pub open spec fn at_least_one(v: int) -> int {
    if v < 1 {
        1
    } else {
        v
    }
}

/// `v` capped at `cap`.
pub open spec fn capped(v: int, cap: int) -> int {
    if v > cap {
        cap
    } else {
        v
    }
}

/// A limit given in cells, where 0 counts as 1.
pub open spec fn limit(v: u16) -> int {
    at_least_one(v as int)
}

/// Rows of half blocks for a `width` x `height` picture shown at most
/// `max_cols` wide and `max_rows` tall: one row carries two pixels.
pub open spec fn half_block_rows(width: u32, height: u32, max_cols: u16, max_rows: u16) -> int {
    capped(
        at_least_one(round_ratio(height * limit(max_cols), 2 * width)),
        limit(max_rows),
    )
}

/// Columns of half blocks: recomputed from the rows, so that a capped height
/// does not stretch the picture.
pub open spec fn half_block_cols(width: u32, height: u32, max_cols: u16, max_rows: u16) -> int {
    capped(
        at_least_one(
            round_ratio(2 * half_block_rows(width, height, max_cols, max_rows) * width, height as int),
        ),
        limit(max_cols),
    )
}

/// Whether a picture scaled to the full width still fits under the row cap,
/// with cells `cell_w` x `cell_h` pixels.
pub open spec fn fits_by_width(
    width: u32,
    height: u32,
    max_cols: u16,
    max_rows: u16,
    cell_w: u16,
    cell_h: u16,
) -> bool {
    height * limit(max_cols) * limit(cell_w) <= limit(max_rows) * width * limit(cell_h)
}

/// Columns of the cell box a pixel protocol fills.
pub open spec fn pixel_box_cols(
    width: u32,
    height: u32,
    max_cols: u16,
    max_rows: u16,
    cell_w: u16,
    cell_h: u16,
) -> int {
    if fits_by_width(width, height, max_cols, max_rows, cell_w, cell_h) {
        limit(max_cols)
    } else {
        capped(
            at_least_one(
                round_ratio(limit(max_rows) * width * limit(cell_h), height * limit(cell_w)),
            ),
            limit(max_cols),
        )
    }
}

/// Rows of the cell box a pixel protocol fills.
pub open spec fn pixel_box_rows(
    width: u32,
    height: u32,
    max_cols: u16,
    max_rows: u16,
    cell_w: u16,
    cell_h: u16,
) -> int {
    if fits_by_width(width, height, max_cols, max_rows, cell_w, cell_h) {
        at_least_one(
            round_ratio(height * limit(max_cols) * limit(cell_w), width * limit(cell_h)),
        )
    } else {
        limit(max_rows)
    }
}

fn round_ratio_exec(p: u128, q: u128) -> (out: u128)
    requires
        q > 0,
        p <= u64::MAX,
        q <= u64::MAX,
    ensures
        out == round_ratio(p as int, q as int),
{
    (2 * p + q) / (2 * q)
}

fn limit_exec(v: u16) -> (out: u128)
    ensures
        out == limit(v),
        1 <= out <= 65535,
{
    if v == 0 {
        1
    } else {
        v as u128
    }
}

proof fn lemma_round_ratio_le(p: int, q: int, cap: int)
    requires
        q > 0,
        p >= 0,
        p <= cap * q,
    ensures
        round_ratio(p, q) <= cap,
{
    assert(2 * p + q < (2 * q) * (cap + 1)) by (nonlinear_arith)
        requires
            q > 0,
            p <= cap * q,
    ;
    assert((2 * p + q) / (2 * q) < cap + 1) by (nonlinear_arith)
        requires
            q > 0,
            p >= 0,
            2 * p + q < (2 * q) * (cap + 1),
    ;
}

/// The half-block cell box `(cols, rows)` of a non-empty picture.
pub fn half_block_box(width: u32, height: u32, max_cols: u16, max_rows: u16) -> (out: (u16, u16))
    requires
        width > 0,
        height > 0,
    ensures
        out.0 == half_block_cols(width, height, max_cols, max_rows),
        out.1 == half_block_rows(width, height, max_cols, max_rows),
{
    let cols_limit = limit_exec(max_cols);
    let rows_limit = limit_exec(max_rows);
    let w = width as u128;
    let h = height as u128;
    assert(h * cols_limit <= 0xffff_ffff * 65535) by (nonlinear_arith)
        requires
            h <= 0xffff_ffff,
            cols_limit <= 65535,
    ;
    let mut rows = round_ratio_exec(h * cols_limit, 2 * w);
    if rows < 1 {
        rows = 1;
    }
    if rows > rows_limit {
        rows = rows_limit;
    }
    assert(2 * rows * w <= 2 * 65535 * 0xffff_ffff) by (nonlinear_arith)
        requires
            rows <= 65535,
            w <= 0xffff_ffff,
    ;
    let mut cols = round_ratio_exec(2 * rows * w, h);
    if cols < 1 {
        cols = 1;
    }
    if cols > cols_limit {
        cols = cols_limit;
    }
    (cols as u16, rows as u16)
}

/// The cell box `(cols, rows)` a pixel protocol fills with a non-empty
/// picture, keeping its proportions, for cells of `cell_w` x `cell_h` pixels.
pub fn pixel_box(
    width: u32,
    height: u32,
    max_cols: u16,
    max_rows: u16,
    cell_w: u16,
    cell_h: u16,
) -> (out: (u16, u16))
    requires
        width > 0,
        height > 0,
    ensures
        out.0 == pixel_box_cols(width, height, max_cols, max_rows, cell_w, cell_h),
        out.1 == pixel_box_rows(width, height, max_cols, max_rows, cell_w, cell_h),
{
    let cols_limit = limit_exec(max_cols);
    let rows_limit = limit_exec(max_rows);
    let cw = limit_exec(cell_w);
    let ch = limit_exec(cell_h);
    let w = width as u128;
    let h = height as u128;
    assert(h * cols_limit <= 0xffff_ffff * 65535) by (nonlinear_arith)
        requires
            h <= 0xffff_ffff,
            cols_limit <= 65535,
    ;
    assert(rows_limit * w <= 0xffff_ffff * 65535) by (nonlinear_arith)
        requires
            w <= 0xffff_ffff,
            rows_limit <= 65535,
    ;
    assert(h * cols_limit * cw <= 0xffff_ffff * 65535 * 65535) by (nonlinear_arith)
        requires
            h <= 0xffff_ffff,
            cols_limit <= 65535,
            cw <= 65535,
    ;
    assert(rows_limit * w * ch <= 65535 * 0xffff_ffff * 65535) by (nonlinear_arith)
        requires
            w <= 0xffff_ffff,
            rows_limit <= 65535,
            ch <= 65535,
    ;
    assert(w * ch <= 0xffff_ffff * 65535 && w * ch > 0) by (nonlinear_arith)
        requires
            0 < w <= 0xffff_ffff,
            1 <= ch <= 65535,
    ;
    assert(h * cw <= 0xffff_ffff * 65535 && h * cw > 0) by (nonlinear_arith)
        requires
            0 < h <= 0xffff_ffff,
            1 <= cw <= 65535,
    ;
    if h * cols_limit * cw <= rows_limit * w * ch {
        let mut rows = round_ratio_exec(h * cols_limit * cw, w * ch);
        if rows < 1 {
            rows = 1;
        }
        proof {
            assert(rows_limit * w * ch == rows_limit * (w * ch)) by (nonlinear_arith);
            lemma_round_ratio_le(
                (h * cols_limit * cw) as int,
                (w * ch) as int,
                rows_limit as int,
            );
        }
        (cols_limit as u16, rows as u16)
    } else {
        let mut cols = round_ratio_exec(rows_limit * w * ch, h * cw);
        if cols < 1 {
            cols = 1;
        }
        if cols > cols_limit {
            cols = cols_limit;
        }
        (cols as u16, rows_limit as u16)
    }
}

/// A half-block picture is at least one cell each way and stays within the
/// given limits.
pub proof fn lemma_half_block_box_within_limits(width: u32, height: u32, max_cols: u16, max_rows: u16)
    ensures
        1 <= half_block_cols(width, height, max_cols, max_rows) <= limit(max_cols),
        1 <= half_block_rows(width, height, max_cols, max_rows) <= limit(max_rows),
{
}

/// A half-block picture is never wider than its proportions allow for its
/// height, give or take rounding, so a capped height does not stretch it; and
/// unless the column limit or the one-column minimum cuts in, it is as wide
/// as they allow, again give or take rounding.
pub proof fn lemma_half_block_keeps_proportions(width: u32, height: u32, max_cols: u16, max_rows: u16)
    requires
        width > 0,
        height > 0,
    ensures
        ({
            let cols = half_block_cols(width, height, max_cols, max_rows);
            let rows = half_block_rows(width, height, max_cols, max_rows);
            &&& cols > 1 ==> 2 * cols * height <= 4 * rows * width + height
            &&& 1 < cols < limit(max_cols) ==> 4 * rows * width < 2 * cols * height + height
        }),
{
    let cols = half_block_cols(width, height, max_cols, max_rows);
    let rows = half_block_rows(width, height, max_cols, max_rows);
    let p = 2 * rows * width;
    let q = height as int;
    let c0 = round_ratio(p, q);
    assert(2 * q * c0 <= 2 * p + q && 2 * p + q < 2 * q * c0 + 2 * q) by (nonlinear_arith)
        requires
            q > 0,
            c0 == (2 * p + q) / (2 * q),
    ;
    assert(cols > 1 ==> cols <= c0);
    assert(cols > 1 ==> 2 * cols * q <= 2 * q * c0) by (nonlinear_arith)
        requires
            q > 0,
            cols > 1 ==> cols <= c0,
    ;
    assert(1 < cols < limit(max_cols) ==> cols == c0);
    assert(2 * p == 4 * rows * width) by (nonlinear_arith)
        requires
            p == 2 * rows * width,
    ;
    if 1 < cols < limit(max_cols) {
        assert(2 * cols * q == 2 * q * c0) by (nonlinear_arith)
            requires
                cols == c0,
        ;
    }
}

/// A square picture whose height the row limit does not cut comes out about
/// twice as many columns as rows: each row carries two pixels.
pub proof fn lemma_square_stays_square(side: u32, max_cols: u16, max_rows: u16)
    requires
        side > 0,
        round_ratio(side * limit(max_cols), 2 * side) <= limit(max_rows),
    ensures
        ({
            let cols = half_block_cols(side, side, max_cols, max_rows);
            let rows = half_block_rows(side, side, max_cols, max_rows);
            cols <= 2 * rows + 1 && 2 * rows <= cols + 1
        }),
{
    let c = limit(max_cols);
    let s = side as int;
    assert(round_ratio(s * c, 2 * s) == (c + 1) / 2) by (nonlinear_arith)
        requires
            s > 0,
            round_ratio(s * c, 2 * s) == (2 * (s * c) + 2 * s) / (2 * (2 * s)),
    ;
    let rows = half_block_rows(side, side, max_cols, max_rows);
    assert(rows == (c + 1) / 2);
    assert(round_ratio(2 * rows * s, s) == 2 * rows) by (nonlinear_arith)
        requires
            s > 0,
            round_ratio(2 * rows * s, s) == (2 * (2 * rows * s) + s) / (2 * s),
    ;
}

/// A picture for a pixel protocol is at least one cell each way, stays
/// within the given limits, and takes the full width where its height allows.
pub proof fn lemma_pixel_box_within_limits(
    width: u32,
    height: u32,
    max_cols: u16,
    max_rows: u16,
    cell_w: u16,
    cell_h: u16,
)
    requires
        width > 0,
        height > 0,
    ensures
        1 <= pixel_box_cols(width, height, max_cols, max_rows, cell_w, cell_h) <= limit(max_cols),
        1 <= pixel_box_rows(width, height, max_cols, max_rows, cell_w, cell_h) <= limit(max_rows),
        fits_by_width(width, height, max_cols, max_rows, cell_w, cell_h) ==> pixel_box_cols(
            width,
            height,
            max_cols,
            max_rows,
            cell_w,
            cell_h,
        ) == limit(max_cols),
{
    if fits_by_width(width, height, max_cols, max_rows, cell_w, cell_h) {
        let p = height * limit(max_cols) * limit(cell_w);
        let q = width * limit(cell_h);
        assert(q > 0) by (nonlinear_arith)
            requires
                width > 0,
                limit(cell_h) >= 1,
                q == width * limit(cell_h),
        ;
        assert(limit(max_rows) * width * limit(cell_h) == limit(max_rows) * q) by (nonlinear_arith)
            requires
                q == width * limit(cell_h),
        ;
        assert(p >= 0) by (nonlinear_arith)
            requires
                p == height * limit(max_cols) * limit(cell_w),
                limit(max_cols) >= 1,
                limit(cell_w) >= 1,
        ;
        lemma_round_ratio_le(p, q, limit(max_rows));
    }
}

} // verus!
