//! Height maps, and the solids drawn from them.

use crate::hull::FOUR;
use crate::mesh::Point3;
use crate::node::Node;
use crate::num::{
    at_most, is_at_most, is_less, less, Arithmetic, Calc, INFINITY, NumOp, ONE, Reading, TWO, ZERO,
};
use crate::solid::{lesser, min_of};
use crate::tessellate::HALF;
use crate::vector::{cross, cross_of, difference_of, dot, dot_of, sub_points, MINUS_ONE};
use vstd::prelude::*;

verus! {

/// The square of the area below which a triangle counts as none: 1e-18.
pub const NO_AREA: u64 = 0x3c32_725d_d1d2_43ac;

// ---- grids --------------------------------------------------------------------------------------

/// The height at a place, zero where the row is too short.
pub open spec fn height(rows: Seq<Vec<u64>>, r: int, c: int) -> u64 {
    if c < rows[r]@.len() {
        rows[r]@[c]
    } else {
        ZERO
    }
}

fn height_at(rows: &Vec<Vec<u64>>, r: usize, c: usize) -> (z: u64)
    requires
        r < rows@.len(),
    ensures
        z == height(rows@, r as int, c as int),
{
    if c < rows[r].len() {
        rows[r][c]
    } else {
        ZERO
    }
}

/// The length of the longest of the first `n` rows.
pub open spec fn grid_width(rows: Seq<Vec<u64>>, n: int) -> nat
    decreases n,
{
    if n <= 0 {
        0
    } else if grid_width(rows, n - 1) < rows[n - 1]@.len() {
        rows[n - 1]@.len()
    } else {
        grid_width(rows, n - 1)
    }
}

fn width_of(rows: &Vec<Vec<u64>>) -> (w: usize)
    ensures
        w == grid_width(rows@, rows@.len() as int),
{
    let mut w: usize = 0;
    let mut i: usize = 0;
    while i < rows.len()
        invariant
            i <= rows@.len(),
            w == grid_width(rows@, i as int),
        decreases rows.len() - i,
    {
        if w < rows[i].len() {
            w = rows[i].len();
        }
        i = i + 1;
    }
    w
}

/// The least of a start and the first `k` heights of a row.
pub open spec fn low_row(rows: Seq<Vec<u64>>, r: int, start: u64, k: int) -> u64
    decreases k,
{
    if k <= 0 {
        start
    } else {
        lesser(low_row(rows, r, start, k - 1), height(rows, r, k - 1))
    }
}

/// The least height in the first `n` rows of a grid `w` wide.
pub open spec fn low_grid(rows: Seq<Vec<u64>>, w: int, n: int) -> u64
    decreases n,
{
    if n <= 0 {
        INFINITY
    } else {
        low_row(rows, n - 1, low_grid(rows, w, n - 1), w)
    }
}

fn lowest(rows: &Vec<Vec<u64>>, w: usize) -> (z: u64)
    ensures
        z == low_grid(rows@, w as int, rows@.len() as int),
{
    let mut z: u64 = INFINITY;
    let mut r: usize = 0;
    while r < rows.len()
        invariant
            r <= rows@.len(),
            z == low_grid(rows@, w as int, r as int),
        decreases rows.len() - r,
    {
        let ghost start = z;
        let mut c: usize = 0;
        while c < w
            invariant
                r < rows@.len(),
                c <= w,
                z == low_row(rows@, r as int, start, c as int),
            decreases w - c,
        {
            z = min_of(z, height_at(rows, r, c));
            c = c + 1;
        }
        r = r + 1;
    }
    z
}

/// Where the flat bottom lies.
pub open spec fn bottom_of(m: Reading, rows: Seq<Vec<u64>>, w: int, png: bool) -> u64 {
    let z = m.at(NumOp::Sub, low_grid(rows, w, rows.len() as int), ONE);
    if png {
        z
    } else {
        lesser(z, ZERO)
    }
}

/// How far a grid of `n` is moved to be centered.
pub open spec fn offset_of(m: Reading, n: int, center: bool) -> u64 {
    if center {
        m.at(NumOp::Div, m.at(NumOp::FromInt, (n - 1) as u64, 0), TWO)
    } else {
        ZERO
    }
}

/// The first `k` points over a row; at `flat` where the points lie on a plane.
pub open spec fn row_points(
    m: Reading,
    rows: Seq<Vec<u64>>,
    r: int,
    ox: u64,
    oy: u64,
    flat: Option<u64>,
    k: int,
) -> Seq<Point3> {
    Seq::new(
        k as nat,
        |c: int|
            Point3 {
                x: m.at(NumOp::Sub, m.at(NumOp::FromInt, c as u64, 0), ox),
                y: m.at(NumOp::Sub, m.at(NumOp::FromInt, r as u64, 0), oy),
                z: match flat {
                    Some(z) => z,
                    None => height(rows, r, c),
                },
            },
    )
}

/// The points over the first `n` rows.
pub open spec fn sheet(
    m: Reading,
    rows: Seq<Vec<u64>>,
    w: int,
    ox: u64,
    oy: u64,
    flat: Option<u64>,
    n: int,
) -> Seq<Point3>
    decreases n,
{
    if n <= 0 {
        Seq::empty()
    } else {
        sheet(m, rows, w, ox, oy, flat, n - 1) + row_points(m, rows, n - 1, ox, oy, flat, w)
    }
}

/// The mean height of a cell.
pub open spec fn cell_height(m: Reading, rows: Seq<Vec<u64>>, r: int, c: int) -> u64 {
    m.at(
        NumOp::Div,
        m.at(
            NumOp::Add,
            m.at(
                NumOp::Add,
                m.at(NumOp::Add, height(rows, r, c), height(rows, r, c + 1)),
                height(rows, r + 1, c),
            ),
            height(rows, r + 1, c + 1),
        ),
        FOUR,
    )
}

/// The middles of the first `k` cells above a row.
pub open spec fn row_middles(m: Reading, rows: Seq<Vec<u64>>, r: int, ox: u64, oy: u64, k: int) -> Seq<
    Point3,
> {
    Seq::new(
        k as nat,
        |c: int|
            Point3 {
                x: m.at(
                    NumOp::Sub,
                    m.at(NumOp::Add, m.at(NumOp::FromInt, c as u64, 0), HALF),
                    ox,
                ),
                y: m.at(
                    NumOp::Sub,
                    m.at(NumOp::Add, m.at(NumOp::FromInt, r as u64, 0), HALF),
                    oy,
                ),
                z: cell_height(m, rows, r, c),
            },
    )
}

/// The middles of the cells in the first `n` rows of cells.
pub open spec fn middles(m: Reading, rows: Seq<Vec<u64>>, w: int, ox: u64, oy: u64, n: int) -> Seq<Point3>
    decreases n,
{
    if n <= 0 {
        Seq::empty()
    } else {
        middles(m, rows, w, ox, oy, n - 1) + row_middles(m, rows, n - 1, ox, oy, w - 1)
    }
}

/// All points: the top, the bottom, and the middles of the cells.
pub open spec fn surface_points(m: Reading, rows: Seq<Vec<u64>>, w: int, center: bool, png: bool) -> Seq<
    Point3,
> {
    let n = rows.len() as int;
    let ox = offset_of(m, w, center);
    let oy = offset_of(m, n, center);
    sheet(m, rows, w, ox, oy, None, n) + sheet(
        m,
        rows,
        w,
        ox,
        oy,
        Some(bottom_of(m, rows, w, png)),
        n,
    ) + middles(m, rows, w, ox, oy, n - 1)
}

fn grid_point<A: Arithmetic>(calc: &mut Calc<A>, r: usize, c: usize, ox: u64, oy: u64, z: u64) -> (p: Point3)
    ensures
        forall|m: Reading| #[trigger]
            final(calc).agrees(m) ==> old(calc).agrees(m) && p == (Point3 {
                x: m.at(NumOp::Sub, m.at(NumOp::FromInt, c as u64, 0), ox),
                y: m.at(NumOp::Sub, m.at(NumOp::FromInt, r as u64, 0), oy),
                z,
            }),
{
    let cx: u64 = calc.apply(NumOp::FromInt, c as u64, 0);
    let x: u64 = calc.apply(NumOp::Sub, cx, ox);
    let ry: u64 = calc.apply(NumOp::FromInt, r as u64, 0);
    let y: u64 = calc.apply(NumOp::Sub, ry, oy);
    Point3 { x, y, z }
}

fn push_row<A: Arithmetic>(
    calc: &mut Calc<A>,
    points: &mut Vec<Point3>,
    rows: &Vec<Vec<u64>>,
    r: usize,
    w: usize,
    ox: u64,
    oy: u64,
    flat: Option<u64>,
)
    requires
        r < rows@.len(),
    ensures
        final(points)@.len() == old(points)@.len() + w,
        forall|m: Reading| #[trigger]
            final(calc).agrees(m) ==> old(calc).agrees(m) && final(points)@ == old(points)@
                + row_points(m, rows@, r as int, ox, oy, flat, w as int),
{
    let ghost before = points@;
    let mut c: usize = 0;
    assert forall|m: Reading| before + row_points(m, rows@, r as int, ox, oy, flat, 0) =~= before by {}
    while c < w
        invariant
            r < rows@.len(),
            c <= w,
            points@.len() == before.len() + c,
            forall|m: Reading| #[trigger]
                calc.agrees(m) ==> old(calc).agrees(m) && points@ == before + row_points(
                    m,
                    rows@,
                    r as int,
                    ox,
                    oy,
                    flat,
                    c as int,
                ),
        decreases w - c,
    {
        let z: u64 = match flat {
            Some(z) => z,
            None => height_at(rows, r, c),
        };
        let p = grid_point(calc, r, c, ox, oy, z);
        points.push(p);
        proof {
            assert forall|m: Reading| #[trigger] calc.agrees(m) implies points@ == before
                + row_points(m, rows@, r as int, ox, oy, flat, c + 1) by {
                assert(points@ =~= before + row_points(
                    m,
                    rows@,
                    r as int,
                    ox,
                    oy,
                    flat,
                    c + 1,
                ));
            }
        }
        c = c + 1;
    }
}

fn push_sheet<A: Arithmetic>(
    calc: &mut Calc<A>,
    points: &mut Vec<Point3>,
    rows: &Vec<Vec<u64>>,
    w: usize,
    ox: u64,
    oy: u64,
    flat: Option<u64>,
)
    ensures
        final(points)@.len() == old(points)@.len() + rows@.len() * w,
        forall|m: Reading| #[trigger]
            final(calc).agrees(m) ==> old(calc).agrees(m) && final(points)@ == old(points)@ + sheet(
                m,
                rows@,
                w as int,
                ox,
                oy,
                flat,
                rows@.len() as int,
            ),
{
    let ghost before = points@;
    let mut r: usize = 0;
    assert(before + Seq::<Point3>::empty() =~= before);
    while r < rows.len()
        invariant
            r <= rows@.len(),
            points@.len() == before.len() + r * w,
            forall|m: Reading| #[trigger]
                calc.agrees(m) ==> old(calc).agrees(m) && points@ == before + sheet(
                    m,
                    rows@,
                    w as int,
                    ox,
                    oy,
                    flat,
                    r as int,
                ),
        decreases rows.len() - r,
    {
        let ghost c0 = *calc;
        push_row(calc, points, rows, r, w, ox, oy, flat);
        proof {
            assert((r + 1) * w == r * w + w) by (nonlinear_arith);
            assert forall|m: Reading| #[trigger] calc.agrees(m) implies points@ == before + sheet(
                m,
                rows@,
                w as int,
                ox,
                oy,
                flat,
                r + 1,
            ) by {
                assert(c0.agrees(m));
                assert(points@ =~= before + sheet(m, rows@, w as int, ox, oy, flat, r + 1));
            }
        }
        r = r + 1;
    }
}

fn middle_point<A: Arithmetic>(
    calc: &mut Calc<A>,
    rows: &Vec<Vec<u64>>,
    r: usize,
    c: usize,
    ox: u64,
    oy: u64,
) -> (p: Point3)
    requires
        r + 1 < rows@.len(),
        c < usize::MAX,
    ensures
        forall|m: Reading| #[trigger]
            final(calc).agrees(m) ==> old(calc).agrees(m) && p == row_middles(
                m,
                rows@,
                r as int,
                ox,
                oy,
                c + 1,
            )[c as int],
{
    let n: usize = rows.len();
    assert(r + 1 < n);
    let a: u64 = calc.apply(NumOp::Add, height_at(rows, r, c), height_at(rows, r, c + 1));
    let b: u64 = calc.apply(NumOp::Add, a, height_at(rows, r + 1, c));
    let s: u64 = calc.apply(NumOp::Add, b, height_at(rows, r + 1, c + 1));
    let z: u64 = calc.apply(NumOp::Div, s, FOUR);
    let cx: u64 = calc.apply(NumOp::FromInt, c as u64, 0);
    let ch: u64 = calc.apply(NumOp::Add, cx, HALF);
    let x: u64 = calc.apply(NumOp::Sub, ch, ox);
    let ry: u64 = calc.apply(NumOp::FromInt, r as u64, 0);
    let rh: u64 = calc.apply(NumOp::Add, ry, HALF);
    let y: u64 = calc.apply(NumOp::Sub, rh, oy);
    Point3 { x, y, z }
}

fn push_middles<A: Arithmetic>(
    calc: &mut Calc<A>,
    points: &mut Vec<Point3>,
    rows: &Vec<Vec<u64>>,
    w: usize,
    ox: u64,
    oy: u64,
)
    requires
        rows@.len() >= 2,
        w >= 2,
    ensures
        final(points)@.len() == old(points)@.len() + (rows@.len() - 1) * (w - 1),
        forall|m: Reading| #[trigger]
            final(calc).agrees(m) ==> old(calc).agrees(m) && final(points)@ == old(points)@
                + middles(m, rows@, w as int, ox, oy, rows@.len() - 1),
{
    let ghost before = points@;
    let n: usize = rows.len();
    let mut r: usize = 0;
    assert(before + Seq::<Point3>::empty() =~= before);
    while r < n - 1
        invariant
            n == rows@.len(),
            r <= n - 1,
            w >= 2,
            points@.len() == before.len() + r * (w - 1),
            forall|m: Reading| #[trigger]
                calc.agrees(m) ==> old(calc).agrees(m) && points@ == before + middles(
                    m,
                    rows@,
                    w as int,
                    ox,
                    oy,
                    r as int,
                ),
        decreases n - r,
    {
        let ghost held = points@;
        let ghost c0 = *calc;
        let mut c: usize = 0;
        assert forall|m: Reading| held + row_middles(m, rows@, r as int, ox, oy, 0) =~= held by {}
        while c < w - 1
            invariant
                n == rows@.len(),
                r < n - 1,
                w >= 2,
                c <= w - 1,
                points@.len() == held.len() + c,
                forall|m: Reading| #[trigger]
                    calc.agrees(m) ==> c0.agrees(m) && points@ == held + row_middles(
                        m,
                        rows@,
                        r as int,
                        ox,
                        oy,
                        c as int,
                    ),
            decreases w - c,
        {
            let p = middle_point(calc, rows, r, c, ox, oy);
            points.push(p);
            proof {
                assert forall|m: Reading| #[trigger] calc.agrees(m) implies points@ == held
                    + row_middles(m, rows@, r as int, ox, oy, c + 1) by {
                    assert(points@ =~= held + row_middles(m, rows@, r as int, ox, oy, c + 1));
                }
            }
            c = c + 1;
        }
        proof {
            assert((r + 1) * (w - 1) == r * (w - 1) + (w - 1)) by (nonlinear_arith);
            assert forall|m: Reading| #[trigger] calc.agrees(m) implies points@ == before
                + middles(m, rows@, w as int, ox, oy, r + 1) by {
                assert(c0.agrees(m));
                assert(points@ =~= before + middles(m, rows@, w as int, ox, oy, r + 1));
            }
        }
        r = r + 1;
    }
}

// ---- faces ----------------------------------------------------------------------------------------

/// What faces hold.
pub open spec fn face_lists(v: Seq<Vec<u32>>) -> Seq<Seq<u32>> {
    v.map_values(|f: Vec<u32>| f@)
}

/// The faces with one more triangle, turned so that it faces `out`; a triangle
/// without an area is left out. A face lists its corners clockwise.
pub open spec fn with_face(
    m: Reading,
    pts: Seq<Point3>,
    faces: Seq<Seq<u32>>,
    a: int,
    b: int,
    c: int,
    out: Point3,
) -> Seq<Seq<u32>> {
    let n = cross_of(
        m,
        difference_of(m, pts[b], pts[a]),
        difference_of(m, pts[c], pts[a]),
    );
    if less(dot_of(m, n, n), NO_AREA) {
        faces
    } else if at_most(ZERO, dot_of(m, n, out)) {
        faces.push(seq![a as u32, c as u32, b as u32])
    } else {
        faces.push(seq![a as u32, b as u32, c as u32])
    }
}

fn surf_face<A: Arithmetic>(
    calc: &mut Calc<A>,
    faces: &mut Vec<Vec<u32>>,
    pts: &Vec<Point3>,
    a: u32,
    b: u32,
    c: u32,
    out: Point3,
)
    requires
        a < pts@.len(),
        b < pts@.len(),
        c < pts@.len(),
    ensures
        forall|m: Reading| #[trigger]
            final(calc).agrees(m) ==> old(calc).agrees(m) && face_lists(final(faces)@) == with_face(
                m,
                pts@,
                face_lists(old(faces)@),
                a as int,
                b as int,
                c as int,
                out,
            ),
{
    let pa = pts[a as usize];
    let u = sub_points(calc, pts[b as usize], pa);
    let v = sub_points(calc, pts[c as usize], pa);
    let n = cross(calc, u, v);
    let size: u64 = dot(calc, n, n);
    if is_less(size, NO_AREA) {
        return;
    }
    let facing: u64 = dot(calc, n, out);
    let ghost before = face_lists(faces@);
    let mut f: Vec<u32> = Vec::new();
    f.push(a);
    if is_at_most(ZERO, facing) {
        f.push(c);
        f.push(b);
        assert(f@ =~= seq![a, c, b]);
    } else {
        f.push(b);
        f.push(c);
        assert(f@ =~= seq![a, b, c]);
    }
    let ghost fv = f@;
    faces.push(f);
    assert(face_lists(faces@) =~= before.push(fv));
}

/// The size of a grid.
#[derive(Clone, Copy)]
pub struct Grid {
    pub rows: usize,
    pub width: usize,
}

/// The place of a point of the top.
pub open spec fn top_place(g: Grid, r: int, c: int) -> int {
    r * g.width + c
}

/// The place of a point of the bottom.
pub open spec fn bottom_place(g: Grid, r: int, c: int) -> int {
    g.rows * g.width + r * g.width + c
}

/// The place of the middle of a cell.
pub open spec fn middle_place(g: Grid, r: int, c: int) -> int {
    2 * (g.rows * g.width) + r * (g.width - 1) + c
}

/// All points.
pub open spec fn point_count(g: Grid) -> int {
    2 * (g.rows * g.width) + (g.rows - 1) * (g.width - 1)
}

/// A grid with cells, whose points can be numbered.
pub open spec fn grid_fits(g: Grid) -> bool {
    g.rows >= 2 && g.width >= 2 && point_count(g) <= u32::MAX
}

proof fn lemma_places(g: Grid, r: int, c: int)
    requires
        grid_fits(g),
        0 <= r < g.rows,
        0 <= c < g.width,
    ensures
        0 <= r * g.width,
        0 <= top_place(g, r, c) < g.rows * g.width,
        0 <= bottom_place(g, r, c) < 2 * (g.rows * g.width),
        2 * (g.rows * g.width) <= point_count(g),
        r < g.rows - 1 && c < g.width - 1 ==> 0 <= r * (g.width - 1) && middle_place(g, r, c)
            < point_count(g),
{
    assert(0 <= r * g.width) by (nonlinear_arith)
        requires
            0 <= r,
            0 <= g.width,
    ;
    assert(r * g.width + g.width <= g.rows * g.width) by (nonlinear_arith)
        requires
            r + 1 <= g.rows,
            0 <= g.width,
    ;
    assert(0 <= (g.rows - 1) * (g.width - 1)) by (nonlinear_arith)
        requires
            g.rows >= 2,
            g.width >= 2,
    ;
    if r < g.rows - 1 && c < g.width - 1 {
        assert(0 <= r * (g.width - 1)) by (nonlinear_arith)
            requires
                0 <= r,
                g.width >= 2,
        ;
        assert(r * (g.width - 1) + (g.width - 1) <= (g.rows - 1) * (g.width - 1)) by (nonlinear_arith)
            requires
                r + 1 <= g.rows - 1,
                g.width >= 2,
        ;
    }
}

fn top_at(g: Grid, r: usize, c: usize) -> (p: u32)
    requires
        grid_fits(g),
        r < g.rows,
        c < g.width,
    ensures
        p == top_place(g, r as int, c as int),
        p < point_count(g),
{
    proof {
        lemma_places(g, r as int, c as int);
    }
    (r * g.width + c) as u32
}

fn bottom_at(g: Grid, r: usize, c: usize) -> (p: u32)
    requires
        grid_fits(g),
        r < g.rows,
        c < g.width,
    ensures
        p == bottom_place(g, r as int, c as int),
        p < point_count(g),
{
    proof {
        lemma_places(g, r as int, c as int);
        lemma_places(g, 0, 0);
    }
    (g.rows * g.width + r * g.width + c) as u32
}

fn middle_at(g: Grid, r: usize, c: usize) -> (p: u32)
    requires
        grid_fits(g),
        r < g.rows - 1,
        c < g.width - 1,
    ensures
        p == middle_place(g, r as int, c as int),
        p < point_count(g),
{
    proof {
        lemma_places(g, r as int, c as int);
    }
    (2 * (g.rows * g.width) + r * (g.width - 1) + c) as u32
}

pub open spec fn axis(x: u64, y: u64, z: u64) -> Point3 {
    Point3 { x, y, z }
}

/// The faces with those of one cell: four triangles round its middle on top,
/// two below.
pub open spec fn with_cell(
    m: Reading,
    pts: Seq<Point3>,
    faces: Seq<Seq<u32>>,
    g: Grid,
    r: int,
    c: int,
) -> Seq<Seq<u32>> {
    let up = axis(ZERO, ZERO, ONE);
    let down = axis(ZERO, ZERO, MINUS_ONE);
    let mid = middle_place(g, r, c);
    let t00 = top_place(g, r, c);
    let t01 = top_place(g, r, c + 1);
    let t10 = top_place(g, r + 1, c);
    let t11 = top_place(g, r + 1, c + 1);
    let b00 = bottom_place(g, r, c);
    let b01 = bottom_place(g, r, c + 1);
    let b10 = bottom_place(g, r + 1, c);
    let b11 = bottom_place(g, r + 1, c + 1);
    let f1 = with_face(m, pts, faces, t00, t01, mid, up);
    let f2 = with_face(m, pts, f1, t01, t11, mid, up);
    let f3 = with_face(m, pts, f2, t11, t10, mid, up);
    let f4 = with_face(m, pts, f3, t10, t00, mid, up);
    let f5 = with_face(m, pts, f4, b00, b01, b11, down);
    with_face(m, pts, f5, b00, b11, b10, down)
}

/// The faces with two triangles of a wall over two neighbouring points.
pub open spec fn with_wall(
    m: Reading,
    pts: Seq<Point3>,
    faces: Seq<Seq<u32>>,
    g: Grid,
    r0: int,
    c0: int,
    r1: int,
    c1: int,
    out: Point3,
) -> Seq<Seq<u32>> {
    let f1 = with_face(
        m,
        pts,
        faces,
        top_place(g, r0, c0),
        top_place(g, r1, c1),
        bottom_place(g, r1, c1),
        out,
    );
    with_face(
        m,
        pts,
        f1,
        top_place(g, r0, c0),
        bottom_place(g, r1, c1),
        bottom_place(g, r0, c0),
        out,
    )
}

/// The faces with those of the first `k` cells of a row.
pub open spec fn with_cells(
    m: Reading,
    pts: Seq<Point3>,
    faces: Seq<Seq<u32>>,
    g: Grid,
    r: int,
    k: int,
) -> Seq<Seq<u32>>
    decreases k,
{
    if k <= 0 {
        faces
    } else {
        with_cell(m, pts, with_cells(m, pts, faces, g, r, k - 1), g, r, k - 1)
    }
}

/// The faces of the cells in the first `n` rows of cells.
pub open spec fn cell_faces(m: Reading, pts: Seq<Point3>, g: Grid, n: int) -> Seq<Seq<u32>>
    decreases n,
{
    if n <= 0 {
        Seq::empty()
    } else {
        with_cells(m, pts, cell_faces(m, pts, g, n - 1), g, n - 1, g.width - 1)
    }
}

/// The faces with those of the first `k` columns of the front and the back wall.
pub open spec fn with_front_back(
    m: Reading,
    pts: Seq<Point3>,
    faces: Seq<Seq<u32>>,
    g: Grid,
    k: int,
) -> Seq<Seq<u32>>
    decreases k,
{
    if k <= 0 {
        faces
    } else {
        let c = k - 1;
        let f0 = with_front_back(m, pts, faces, g, c);
        let f1 = with_wall(m, pts, f0, g, 0, c, 0, c + 1, axis(ZERO, MINUS_ONE, ZERO));
        with_wall(m, pts, f1, g, g.rows - 1, c, g.rows - 1, c + 1, axis(ZERO, ONE, ZERO))
    }
}

/// The faces with those of the first `k` rows of the left and the right wall.
pub open spec fn with_left_right(
    m: Reading,
    pts: Seq<Point3>,
    faces: Seq<Seq<u32>>,
    g: Grid,
    k: int,
) -> Seq<Seq<u32>>
    decreases k,
{
    if k <= 0 {
        faces
    } else {
        let r = k - 1;
        let f0 = with_left_right(m, pts, faces, g, r);
        let f1 = with_wall(m, pts, f0, g, r, 0, r + 1, 0, axis(MINUS_ONE, ZERO, ZERO));
        with_wall(m, pts, f1, g, r, g.width - 1, r + 1, g.width - 1, axis(ONE, ZERO, ZERO))
    }
}

/// All faces of a height map's solid.
pub open spec fn surface_faces(m: Reading, pts: Seq<Point3>, g: Grid) -> Seq<Seq<u32>> {
    with_left_right(
        m,
        pts,
        with_front_back(m, pts, cell_faces(m, pts, g, g.rows - 1), g, g.width - 1),
        g,
        g.rows - 1,
    )
}

fn point(x: u64, y: u64, z: u64) -> (p: Point3)
    ensures
        p == axis(x, y, z),
{
    Point3 { x, y, z }
}

fn push_cell<A: Arithmetic>(
    calc: &mut Calc<A>,
    faces: &mut Vec<Vec<u32>>,
    pts: &Vec<Point3>,
    g: Grid,
    r: usize,
    c: usize,
)
    requires
        grid_fits(g),
        pts@.len() == point_count(g),
        r < g.rows - 1,
        c < g.width - 1,
    ensures
        forall|m: Reading| #[trigger]
            final(calc).agrees(m) ==> old(calc).agrees(m) && face_lists(final(faces)@) == with_cell(
                m,
                pts@,
                face_lists(old(faces)@),
                g,
                r as int,
                c as int,
            ),
{
    let up = point(ZERO, ZERO, ONE);
    let down = point(ZERO, ZERO, MINUS_ONE);
    let mid: u32 = middle_at(g, r, c);
    let t00: u32 = top_at(g, r, c);
    let t01: u32 = top_at(g, r, c + 1);
    let t10: u32 = top_at(g, r + 1, c);
    let t11: u32 = top_at(g, r + 1, c + 1);
    let b00: u32 = bottom_at(g, r, c);
    let b01: u32 = bottom_at(g, r, c + 1);
    let b10: u32 = bottom_at(g, r + 1, c);
    let b11: u32 = bottom_at(g, r + 1, c + 1);
    surf_face(calc, faces, pts, t00, t01, mid, up);
    surf_face(calc, faces, pts, t01, t11, mid, up);
    surf_face(calc, faces, pts, t11, t10, mid, up);
    surf_face(calc, faces, pts, t10, t00, mid, up);
    surf_face(calc, faces, pts, b00, b01, b11, down);
    surf_face(calc, faces, pts, b00, b11, b10, down);
}

fn push_wall<A: Arithmetic>(
    calc: &mut Calc<A>,
    faces: &mut Vec<Vec<u32>>,
    pts: &Vec<Point3>,
    g: Grid,
    r0: usize,
    c0: usize,
    r1: usize,
    c1: usize,
    out: Point3,
)
    requires
        grid_fits(g),
        pts@.len() == point_count(g),
        r0 < g.rows,
        r1 < g.rows,
        c0 < g.width,
        c1 < g.width,
    ensures
        forall|m: Reading| #[trigger]
            final(calc).agrees(m) ==> old(calc).agrees(m) && face_lists(final(faces)@) == with_wall(
                m,
                pts@,
                face_lists(old(faces)@),
                g,
                r0 as int,
                c0 as int,
                r1 as int,
                c1 as int,
                out,
            ),
{
    let t0: u32 = top_at(g, r0, c0);
    let t1: u32 = top_at(g, r1, c1);
    let b0: u32 = bottom_at(g, r0, c0);
    let b1: u32 = bottom_at(g, r1, c1);
    surf_face(calc, faces, pts, t0, t1, b1, out);
    surf_face(calc, faces, pts, t0, b1, b0, out);
}

fn draw_faces<A: Arithmetic>(calc: &mut Calc<A>, pts: &Vec<Point3>, g: Grid) -> (faces: Vec<Vec<u32>>)
    requires
        grid_fits(g),
        pts@.len() == point_count(g),
    ensures
        forall|m: Reading| #[trigger]
            final(calc).agrees(m) ==> old(calc).agrees(m) && face_lists(faces@) == surface_faces(
                m,
                pts@,
                g,
            ),
{
    let mut faces: Vec<Vec<u32>> = Vec::new();
    assert(face_lists(faces@) =~= Seq::empty());
    let mut r: usize = 0;
    while r < g.rows - 1
        invariant
            grid_fits(g),
            pts@.len() == point_count(g),
            r <= g.rows - 1,
            forall|m: Reading| #[trigger]
                calc.agrees(m) ==> old(calc).agrees(m) && face_lists(faces@) == cell_faces(
                    m,
                    pts@,
                    g,
                    r as int,
                ),
        decreases g.rows - r,
    {
        let ghost c0 = *calc;
        let ghost held = face_lists(faces@);
        let mut c: usize = 0;
        while c < g.width - 1
            invariant
                grid_fits(g),
                pts@.len() == point_count(g),
                r < g.rows - 1,
                c <= g.width - 1,
                forall|m: Reading| #[trigger]
                    calc.agrees(m) ==> c0.agrees(m) && face_lists(faces@) == with_cells(
                        m,
                        pts@,
                        held,
                        g,
                        r as int,
                        c as int,
                    ),
            decreases g.width - c,
        {
            push_cell(calc, &mut faces, pts, g, r, c);
            c = c + 1;
        }
        r = r + 1;
    }
    let ghost c1 = *calc;
    let ghost cells = face_lists(faces@);
    let mut c: usize = 0;
    while c < g.width - 1
        invariant
            grid_fits(g),
            pts@.len() == point_count(g),
            c <= g.width - 1,
            forall|m: Reading| #[trigger]
                calc.agrees(m) ==> c1.agrees(m) && face_lists(faces@) == with_front_back(
                    m,
                    pts@,
                    cells,
                    g,
                    c as int,
                ),
        decreases g.width - c,
    {
        push_wall(calc, &mut faces, pts, g, 0, c, 0, c + 1, point(ZERO, MINUS_ONE, ZERO));
        push_wall(
            calc,
            &mut faces,
            pts,
            g,
            g.rows - 1,
            c,
            g.rows - 1,
            c + 1,
            point(ZERO, ONE, ZERO),
        );
        c = c + 1;
    }
    let ghost c2 = *calc;
    let ghost most = face_lists(faces@);
    let mut r: usize = 0;
    while r < g.rows - 1
        invariant
            grid_fits(g),
            pts@.len() == point_count(g),
            r <= g.rows - 1,
            forall|m: Reading| #[trigger]
                calc.agrees(m) ==> c2.agrees(m) && face_lists(faces@) == with_left_right(
                    m,
                    pts@,
                    most,
                    g,
                    r as int,
                ),
        decreases g.rows - r,
    {
        push_wall(calc, &mut faces, pts, g, r, 0, r + 1, 0, point(MINUS_ONE, ZERO, ZERO));
        push_wall(
            calc,
            &mut faces,
            pts,
            g,
            r,
            g.width - 1,
            r + 1,
            g.width - 1,
            point(ONE, ZERO, ZERO),
        );
        r = r + 1;
    }
    faces
}

/// `node` is the solid over a height map: nothing where it has no cell.
pub open spec fn is_surface(m: Reading, rows: Seq<Vec<u64>>, center: bool, png: bool, node: Node) -> bool {
    let w = grid_width(rows, rows.len() as int) as int;
    if rows.len() < 2 || w < 2 {
        node == Node::Empty
    } else {
        let pts = surface_points(m, rows, w, center, png);
        node matches Node::Polyhedron { points, faces } && points@ == pts && face_lists(faces@)
            == surface_faces(
            m,
            pts,
            (Grid { rows: rows.len() as usize, width: w as usize }),
        )
    }
}

/// A height map has more points than can be numbered.
pub open spec fn too_fine(rows: Seq<Vec<u64>>) -> bool {
    let w = grid_width(rows, rows.len() as int) as int;
    let n = rows.len() as int;
    n >= 2 && w >= 2 && 2 * (n * w) + (n - 1) * (w - 1) > u32::MAX
}

/// The solid over a height map: the top follows the heights, the bottom is
/// flat, and walls join them. `None` where it has more points than can be
/// numbered.
pub fn surface_polyhedron<A: Arithmetic>(
    calc: &mut Calc<A>,
    rows: &Vec<Vec<u64>>,
    center: bool,
    png: bool,
) -> (r: Option<Node>)
    ensures
        r is None <==> too_fine(rows@),
        forall|m: Reading| #[trigger]
            final(calc).agrees(m) ==> old(calc).agrees(m) && (r matches Some(node) ==> is_surface(
                m,
                rows@,
                center,
                png,
                node,
            )),
{
    let n: usize = rows.len();
    let w: usize = width_of(rows);
    if n < 2 || w < 2 {
        return Some(Node::Empty);
    }
    let ghost n1 = n - 1;
    let ghost w1 = w - 1;
    proof {
        assert(n * w <= usize::MAX * usize::MAX) by (nonlinear_arith)
            requires
                0 <= n <= usize::MAX,
                0 <= w <= usize::MAX,
        ;
        assert(0 <= n1 * w1 <= usize::MAX * usize::MAX) by (nonlinear_arith)
            requires
                0 <= n1 <= usize::MAX,
                0 <= w1 <= usize::MAX,
        ;
    }
    if n > 0xffff_ffff || w > 0xffff_ffff {
        proof {
            assert(n * w >= 2 * 0xffff_ffff) by (nonlinear_arith)
                requires
                    n >= 2,
                    w >= 2,
                    n > 0xffff_ffff || w > 0xffff_ffff,
            ;
        }
        return None;
    }
    proof {
        assert(n * w <= 0xffff_ffff * 0xffff_ffff) by (nonlinear_arith)
            requires
                0 <= n <= 0xffff_ffff,
                0 <= w <= 0xffff_ffff,
        ;
        assert(n1 * w1 <= 0xffff_ffff * 0xffff_ffff) by (nonlinear_arith)
            requires
                0 <= n1 <= 0xffff_ffff,
                0 <= w1 <= 0xffff_ffff,
        ;
    }
    let total: u128 = 2 * (n as u128 * w as u128) + (n as u128 - 1) * (w as u128 - 1);
    if total > 0xffff_ffff {
        return None;
    }
    let g = Grid { rows: n, width: w };
    let low: u64 = lowest(rows, w);
    let under: u64 = calc.apply(NumOp::Sub, low, ONE);
    let floor: u64 = if png {
        under
    } else {
        min_of(under, ZERO)
    };
    let mut ox: u64 = ZERO;
    let mut oy: u64 = ZERO;
    if center {
        let fx: u64 = calc.apply(NumOp::FromInt, (w - 1) as u64, 0);
        ox = calc.apply(NumOp::Div, fx, TWO);
        let fy: u64 = calc.apply(NumOp::FromInt, (n - 1) as u64, 0);
        oy = calc.apply(NumOp::Div, fy, TWO);
    }
    let mut pts: Vec<Point3> = Vec::new();
    let ghost nothing = pts@;
    push_sheet(calc, &mut pts, rows, w, ox, oy, None);
    push_sheet(calc, &mut pts, rows, w, ox, oy, Some(floor));
    push_middles(calc, &mut pts, rows, w, ox, oy);
    proof {
        assert(rows@.len() * w == g.rows * g.width);
        assert(pts@.len() == point_count(g));
        assert forall|m: Reading| #[trigger] calc.agrees(m) implies pts@ == surface_points(
            m,
            rows@,
            w as int,
            center,
            png,
        ) by {
            assert(pts@ =~= surface_points(m, rows@, w as int, center, png));
        }
    }
    let faces = draw_faces(calc, &pts, g);
    Some(Node::Polyhedron { points: pts, faces })
}

} // verus!
