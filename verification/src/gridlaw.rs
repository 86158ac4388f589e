//! What height maps are for, in exact arithmetic: where the points of a surface lie,
//! and what the brightness of an image comes to.

use crate::builtins::HUNDRED;
use crate::exact::{
    exact, lemma_add, lemma_div, lemma_mul, lemma_own, lemma_ring, lemma_same, lemma_sub, Numbers,
};
use crate::heightmap::{
    brightness, heights, pixel_height, sample, sample_bytes, BLUE, GREEN, PER_HUNDRED, RED,
};
use crate::hull::FOUR;
use crate::num::{NumOp, Reading, ONE, TWO};
use crate::surface::{
    bottom_of, bottom_place, height, low_grid, middle_place, middles, offset_of, row_middles,
    row_points, sheet, surface_points, top_place, Grid,
};
use crate::tessellate::HALF;
use vstd::prelude::*;

verus! {

/// A grid is centered by half of its width: twice the offset is one less than the
/// points.
pub proof fn law_grid_centered(m: Reading, n: Numbers, count: int)
    requires
        exact(m, n),
        n.divides(2),
        1 <= count <= u64::MAX,
    ensures
        n.same(2 * (n.of)(offset_of(m, count, true)), count - 1),
        n.same((n.of)(offset_of(m, count, false)), 0),
{
    lemma_own(m, n);
    lemma_div(m, n, m.at(NumOp::FromInt, (count - 1) as u64, 0), TWO, count - 1, 2);
}

/// The points of a row lie one apart, from the negative offset on, at the height of
/// the grid or on a plane.
pub proof fn law_row_points(
    m: Reading,
    n: Numbers,
    rows: Seq<Vec<u64>>,
    r: int,
    ox: u64,
    oy: u64,
    flat: Option<u64>,
    k: int,
    c: int,
)
    requires
        exact(m, n),
        0 <= c < k <= u64::MAX,
        0 <= r <= u64::MAX,
    ensures
        ({
            let p = row_points(m, rows, r, ox, oy, flat, k)[c];
            &&& row_points(m, rows, r, ox, oy, flat, k).len() == k
            &&& n.same((n.of)(p.x) + (n.of)(ox), c)
            &&& n.same((n.of)(p.y) + (n.of)(oy), r)
            &&& p.z == match flat {
                Some(z) => z,
                None => height(rows, r, c),
            }
        }),
{
    lemma_own(m, n);
    let (a, b) = ((n.of)(ox), (n.of)(oy));
    lemma_sub(m, n, m.at(NumOp::FromInt, c as u64, 0), ox, c, a);
    lemma_sub(m, n, m.at(NumOp::FromInt, r as u64, 0), oy, r, b);
    let p = row_points(m, rows, r, ox, oy, flat, k)[c];
    lemma_ring(n, (n.of)(p.x), c - a, a, a);
    lemma_ring(n, (n.of)(p.y), r - b, b, b);
}

/// The middle of a cell lies halfway between its sides, at the mean of the heights of
/// its four corners.
pub proof fn law_cell_middles(
    m: Reading,
    n: Numbers,
    rows: Seq<Vec<u64>>,
    r: int,
    ox: u64,
    oy: u64,
    k: int,
    c: int,
)
    requires
        exact(m, n),
        n.same(2 * (n.of)(HALF), 1),
        n.same((n.of)(FOUR), 4),
        n.divides(4),
        0 <= c < k <= u64::MAX,
        0 <= r <= u64::MAX,
    ensures
        ({
            let p = row_middles(m, rows, r, ox, oy, k)[c];
            &&& row_middles(m, rows, r, ox, oy, k).len() == k
            &&& n.same(2 * ((n.of)(p.x) + (n.of)(ox)), c + (c + 1))
            &&& n.same(2 * ((n.of)(p.y) + (n.of)(oy)), r + (r + 1))
            &&& n.same(
                4 * (n.of)(p.z),
                (n.of)(height(rows, r, c)) + (n.of)(height(rows, r, c + 1)) + (n.of)(
                    height(rows, r + 1, c),
                ) + (n.of)(height(rows, r + 1, c + 1)),
            )
        }),
{
    lemma_own(m, n);
    lemma_halfway(m, n, c, ox);
    lemma_halfway(m, n, r, oy);
    let (h1, h2, h3, h4) = (
        height(rows, r, c),
        height(rows, r, c + 1),
        height(rows, r + 1, c),
        height(rows, r + 1, c + 1),
    );
    let (a, b, d, e) = ((n.of)(h1), (n.of)(h2), (n.of)(h3), (n.of)(h4));
    lemma_add(m, n, h1, h2, a, b);
    let s2 = m.at(NumOp::Add, h1, h2);
    lemma_add(m, n, s2, h3, a + b, d);
    let s3 = m.at(NumOp::Add, s2, h3);
    lemma_add(m, n, s3, h4, a + b + d, e);
    lemma_div(m, n, m.at(NumOp::Add, s3, h4), FOUR, a + b + d + e, 4);
}

proof fn lemma_halfway(m: Reading, n: Numbers, c: int, o: u64)
    requires
        exact(m, n),
        n.same(2 * (n.of)(HALF), 1),
        0 <= c <= u64::MAX,
    ensures
        n.same(
            2 * ((n.of)(
                m.at(NumOp::Sub, m.at(NumOp::Add, m.at(NumOp::FromInt, c as u64, 0), HALF), o),
            ) + (n.of)(o)),
            c + (c + 1),
        ),
{
    lemma_own(m, n);
    let (h, a) = ((n.of)(HALF), (n.of)(o));
    let x = m.at(NumOp::FromInt, c as u64, 0);
    lemma_add(m, n, x, HALF, c, h);
    let y = m.at(NumOp::Add, x, HALF);
    lemma_sub(m, n, y, o, c + h, a);
    let z = (n.of)(m.at(NumOp::Sub, y, o));
    lemma_ring(n, z, c + h - a, a, a);
    lemma_same(n, 2, 2, 2);
    lemma_ring(n, 2, 2, z + a, c + h);
    lemma_same(n, 2 * c, 2 * c, 2 * c);
    lemma_ring(n, 2 * c, 2 * c, 2 * h, 1);
    assert(2 * (c + h) == 2 * c + 2 * h);
    lemma_same(n, 2 * (z + a), 2 * c + 2 * h, 2 * c + 1);
}

/// The points of a sheet stand row by row: the one over row `r` and column `c` stands
/// behind those of the rows before.
pub proof fn law_sheet_in_rows(
    m: Reading,
    rows: Seq<Vec<u64>>,
    w: int,
    ox: u64,
    oy: u64,
    flat: Option<u64>,
    count: int,
    r: int,
    c: int,
)
    requires
        0 <= r < count,
        0 <= c < w,
    ensures
        sheet(m, rows, w, ox, oy, flat, count).len() == count * w,
        0 <= r * w + c < count * w,
        sheet(m, rows, w, ox, oy, flat, count)[r * w + c] == row_points(
            m,
            rows,
            r,
            ox,
            oy,
            flat,
            w,
        )[c],
    decreases count,
{
    lemma_sheet_length(m, rows, w, ox, oy, flat, count);
    lemma_sheet_length(m, rows, w, ox, oy, flat, count - 1);
    assert(0 <= r * w) by (nonlinear_arith)
        requires
            r >= 0,
            w >= 0,
    ;
    assert(r * w + w <= count * w) by (nonlinear_arith)
        requires
            r + 1 <= count,
            w >= 0,
    ;
    if r < count - 1 {
        law_sheet_in_rows(m, rows, w, ox, oy, flat, count - 1, r, c);
    }
}

proof fn lemma_sheet_length(
    m: Reading,
    rows: Seq<Vec<u64>>,
    w: int,
    ox: u64,
    oy: u64,
    flat: Option<u64>,
    count: int,
)
    requires
        0 <= count,
        0 <= w,
    ensures
        sheet(m, rows, w, ox, oy, flat, count).len() == count * w,
    decreases count,
{
    if count > 0 {
        lemma_sheet_length(m, rows, w, ox, oy, flat, count - 1);
        assert((count - 1) * w + w == count * w) by (nonlinear_arith);
    }
}

/// The bottom of the surface of an image lies one below its lowest point.
pub proof fn law_bottom_below(m: Reading, n: Numbers, rows: Seq<Vec<u64>>, w: int)
    requires
        exact(m, n),
    ensures
        n.same(
            (n.of)(bottom_of(m, rows, w, true)) + 1,
            (n.of)(low_grid(rows, w, rows.len() as int)),
        ),
{
    let low = low_grid(rows, w, rows.len() as int);
    lemma_own(m, n);
    lemma_sub(m, n, low, ONE, (n.of)(low), 1);
    lemma_same(n, 1, 1, 1);
    lemma_ring(n, (n.of)(bottom_of(m, rows, w, true)), (n.of)(low) - 1, 1, 1);
}

// ---- images ------------------------------------------------------------------------------------

/// The height of a pixel is its brightness in hundredths of the brightest, and what
/// is missing to a hundred where the image is inverted.
pub proof fn law_pixel_heights(
    m: Reading,
    n: Numbers,
    channels: u8,
    depth: u8,
    data: Seq<u8>,
    pixel: int,
)
    requires
        exact(m, n),
        n.divides((n.of)(PER_HUNDRED)),
    ensures
        ({
            let z = (n.of)(pixel_height(m, channels, depth, data, false, pixel));
            let i = (n.of)(pixel_height(m, channels, depth, data, true, pixel));
            &&& n.same(
                z * (n.of)(PER_HUNDRED),
                (n.of)(brightness(m, channels, depth, data, pixel)),
            )
            &&& n.same(z + i, (n.of)(HUNDRED))
        }),
{
    lemma_own(m, n);
    let b = brightness(m, channels, depth, data, pixel);
    lemma_div(m, n, b, PER_HUNDRED, (n.of)(b), (n.of)(PER_HUNDRED));
    let q = m.at(NumOp::Div, b, PER_HUNDRED);
    let z = (n.of)(q);
    lemma_sub(m, n, HUNDRED, q, (n.of)(HUNDRED), z);
    lemma_ring(n, (n.of)(m.at(NumOp::Sub, HUNDRED, q)), (n.of)(HUNDRED) - z, z, z);
}

/// A gray pixel has its own brightness, whether it is written with one channel or
/// with three, where the weights of the colors make up one.
pub proof fn law_gray_stays_gray(
    m: Reading,
    n: Numbers,
    channels: u8,
    depth: u8,
    data: Seq<u8>,
    pixel: int,
    v: u8,
)
    requires
        exact(m, n),
        n.same((n.of)(RED) + (n.of)(GREEN) + (n.of)(BLUE), 1),
        ({
            let k = pixel * channels;
            &&& data[k * sample_bytes(depth)] == v
            &&& channels > 2 ==> data[(k + 1) * sample_bytes(depth)] == v && data[(k + 2)
                * sample_bytes(depth)] == v
        }),
    ensures
        n.same((n.of)(brightness(m, channels, depth, data, pixel)), v as int),
{
    lemma_own(m, n);
    let x = m.at(NumOp::FromInt, v as u64, 0);
    let g = v as int;
    let (r, e, b) = ((n.of)(RED), (n.of)(GREEN), (n.of)(BLUE));
    let k = pixel * channels;
    assert(sample(m, depth, data, k) == x);
    if channels > 2 {
        assert(sample(m, depth, data, k + 1) == x && sample(m, depth, data, k + 2) == x);
        lemma_mul(m, n, RED, x, r, g);
        lemma_mul(m, n, GREEN, x, e, g);
        lemma_mul(m, n, BLUE, x, b, g);
        let (p, q, s) = (
            m.at(NumOp::Mul, RED, x),
            m.at(NumOp::Mul, GREEN, x),
            m.at(NumOp::Mul, BLUE, x),
        );
        lemma_add(m, n, p, q, r * g, e * g);
        lemma_add(m, n, m.at(NumOp::Add, p, q), s, r * g + e * g, b * g);
        assert(r * g + e * g + b * g == (r + e + b) * g) by (nonlinear_arith);
        lemma_same(n, g, g, g);
        lemma_ring(n, r + e + b, 1, g, g);
        lemma_same(n, (n.of)(brightness(m, channels, depth, data, pixel)), (r + e + b) * g, g);
    }
}

/// The heights of an image stand upside down: its last row comes first.
pub proof fn law_rows_upside_down(
    m: Reading,
    w: u32,
    h: u32,
    channels: u8,
    depth: u8,
    data: Seq<u8>,
    invert: bool,
    r: int,
    x: int,
)
    requires
        0 <= r < h,
        0 <= x < w,
    ensures
        heights(m, w, h, channels, depth, data, invert).len() == h,
        heights(m, w, h, channels, depth, data, invert)[r].len() == w,
        heights(m, w, h, channels, depth, data, invert)[h - 1 - r][x] == pixel_height(
            m,
            channels,
            depth,
            data,
            invert,
            r * w + x,
        ),
{
}

proof fn lemma_middles_length(
    m: Reading,
    rows: Seq<Vec<u64>>,
    w: int,
    ox: u64,
    oy: u64,
    count: int,
)
    requires
        0 <= count,
        1 <= w,
    ensures
        middles(m, rows, w, ox, oy, count).len() == count * (w - 1),
    decreases count,
{
    if count > 0 {
        lemma_middles_length(m, rows, w, ox, oy, count - 1);
        assert((count - 1) * (w - 1) + (w - 1) == count * (w - 1)) by (nonlinear_arith);
    }
}

proof fn lemma_middle_in_rows(
    m: Reading,
    rows: Seq<Vec<u64>>,
    w: int,
    ox: u64,
    oy: u64,
    count: int,
    r: int,
    c: int,
)
    requires
        0 <= r < count,
        0 <= c < w - 1,
    ensures
        0 <= r * (w - 1) + c < count * (w - 1),
        middles(m, rows, w, ox, oy, count)[r * (w - 1) + c] == row_middles(
            m,
            rows,
            r,
            ox,
            oy,
            w - 1,
        )[c],
    decreases count,
{
    let k = w - 1;
    lemma_middles_length(m, rows, w, ox, oy, count);
    lemma_middles_length(m, rows, w, ox, oy, count - 1);
    assert(0 <= r * k) by (nonlinear_arith)
        requires
            r >= 0,
            k >= 0,
    ;
    assert(r * k + k <= count * k) by (nonlinear_arith)
        requires
            r + 1 <= count,
            k >= 0,
    ;
    if r < count - 1 {
        lemma_middle_in_rows(m, rows, w, ox, oy, count - 1, r, c);
    }
}

/// The points of a surface stand where its faces look for them: the top over row `r`
/// and column `c`, the bottom below it, and the middle of the cell behind it.
pub proof fn law_surface_places(
    m: Reading,
    rows: Seq<Vec<u64>>,
    g: Grid,
    center: bool,
    png: bool,
    r: int,
    c: int,
)
    requires
        g.rows == rows.len(),
        0 <= r < g.rows,
        0 <= c < g.width,
    ensures
        ({
            let w = g.width as int;
            let pts = surface_points(m, rows, w, center, png);
            let (ox, oy) = (offset_of(m, w, center), offset_of(m, rows.len() as int, center));
            let flat = Some(bottom_of(m, rows, w, png));
            &&& pts[top_place(g, r, c)] == row_points(m, rows, r, ox, oy, None, w)[c]
            &&& pts[bottom_place(g, r, c)] == row_points(m, rows, r, ox, oy, flat, w)[c]
            &&& r < g.rows - 1 && c < g.width - 1 ==> pts[middle_place(g, r, c)] == row_middles(
                m,
                rows,
                r,
                ox,
                oy,
                w - 1,
            )[c]
        }),
{
    let w = g.width as int;
    let n = rows.len() as int;
    let (ox, oy) = (offset_of(m, w, center), offset_of(m, n, center));
    let flat = Some(bottom_of(m, rows, w, png));
    law_sheet_in_rows(m, rows, w, ox, oy, None, n, r, c);
    law_sheet_in_rows(m, rows, w, ox, oy, flat, n, r, c);
    lemma_middles_length(m, rows, w, ox, oy, n - 1);
    if r < g.rows - 1 && c < g.width - 1 {
        lemma_middle_in_rows(m, rows, w, ox, oy, n - 1, r, c);
    }
}

} // verus!
