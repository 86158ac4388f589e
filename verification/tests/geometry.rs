use geo::{BooleanOps, LineString, MultiPolygon, Polygon};
use openrscad::clip::{Bop, Clip, PlaneLog};
use openrscad::contours::{group_contours, signed_area, Region};
use openrscad::extrude::{dedup_consecutive, flat_mesh, linear_extrude, Draw};
use openrscad::faces::{polyhedron, triangulate_face, EarLog, Ears};
use openrscad::flat::{minkowski_pair_2d, render2d, Plane};
use openrscad::hull::convex_hull;
use openrscad::hull2d::hull_2d;
use openrscad::mesh::{Mesh, Point3, Triangle};
use openrscad::node::{FragmentSpec, Node, Point2, ProfileBoundary};
use openrscad::num::{Arithmetic, Calc, NumOp, TextOp};
use openrscad::offset::offset;
use openrscad::patches::{linear_extrude_patch_ids, number_keys, rotate_extrude_patch_ids};
use openrscad::revolve::{rotate_extrude, triangulate_simple};
use openrscad::slice::{chain_segments, silhouette, slice_z0, Segment};
use openrscad::sources::{hull_patch_ids, source_patch_ids};
use openrscad::tessellate::{cube, cylinder, fragments, sphere};

struct Unit;

fn f(b: u64) -> f64 {
    f64::from_bits(b)
}

fn s(b: u64) -> f32 {
    f32::from_bits(b as u32)
}

impl Arithmetic for Unit {
    fn apply(&mut self, op: NumOp, x: u64, y: u64) -> u64 {
        let (a, b) = (f(x), f(y));
        let one = |v: f64| v.to_bits();
        let single = |v: f32| v.to_bits() as u64;
        match op {
            NumOp::Add => one(a + b),
            NumOp::Sub => one(a - b),
            NumOp::Mul => one(a * b),
            NumOp::Div => one(a / b),
            NumOp::Rem => one(a % b),
            NumOp::Pow => one(libm::pow(a, b)),
            NumOp::Min => one(a.min(b)),
            NumOp::Max => one(a.max(b)),
            NumOp::Hypot => one(a.hypot(b)),
            NumOp::Atan2 => one(libm::atan2(a, b)),
            NumOp::Sqrt => one(a.sqrt()),
            NumOp::Exp => one(libm::exp(a)),
            NumOp::Ln => one(libm::log(a)),
            NumOp::Log10 => one(libm::log10(a)),
            NumOp::Floor => one(a.floor()),
            NumOp::Ceil => one(a.ceil()),
            NumOp::Round => one(a.round()),
            NumOp::Sin => one(libm::sin(a)),
            NumOp::Cos => one(libm::cos(a)),
            NumOp::Tan => one(libm::tan(a)),
            NumOp::Asin => one(libm::asin(a)),
            NumOp::Acos => one(libm::acos(a)),
            NumOp::Atan => one(libm::atan(a)),
            NumOp::ToRadians => one(a.to_radians()),
            NumOp::ToDegrees => one(a.to_degrees()),
            NumOp::FromInt => one(x as f64),
            NumOp::ToInt => a as u64,
            NumOp::ToSingle => single(a as f32),
            NumOp::FromSingle => one(s(x) as f64),
            NumOp::SingleFromInt => single(x as f32),
            NumOp::SingleToInt => s(x) as u64,
            NumOp::SingleAdd => single(s(x) + s(y)),
            NumOp::SingleMul => single(s(x) * s(y)),
            NumOp::SingleDiv => single(s(x) / s(y)),
            NumOp::SinglePow => single(s(x).powf(s(y))),
            NumOp::SingleMin => single(s(x).min(s(y))),
            NumOp::SingleMax => single(s(x).max(s(y))),
            NumOp::SingleRound => single(s(x).round()),
        }
    }

    fn write(&mut self, op: TextOp, x: u64, _y: u64) -> String {
        match op {
            TextOp::Json => serde_json::to_string(&f(x)).unwrap(),
            TextOp::JsonSingle => serde_json::to_string(&s(x)).unwrap(),
            TextOp::Plain => format!("{}", f(x)),
            TextOp::Scientific => format!("{:e}", f(x)),
        }
    }
}

fn calc() -> Calc<Unit> {
    Calc::new(Unit)
}

fn b(v: f64) -> u64 {
    v.to_bits()
}

fn p3(x: f64, y: f64, z: f64) -> Point3 {
    Point3 { x: b(x), y: b(y), z: b(z) }
}

fn p2(x: f64, y: f64) -> Point2 {
    Point2 { x: b(x), y: b(y) }
}

struct Host;

impl Ears for Host {
    fn cut(&mut self, outline: &Vec<Point2>, holes: &Vec<usize>) -> Option<Vec<usize>> {
        let flat: Vec<f64> = outline.iter().flat_map(|p| [f(p.x), f(p.y)]).collect();
        earcutr::earcut(&flat, holes, 2).ok()
    }
}

fn ring(c: &Vec<Point2>) -> LineString<f64> {
    LineString::from(c.iter().map(|p| (f(p.x), f(p.y))).collect::<Vec<_>>())
}

fn multi(v: &Vec<Region>) -> MultiPolygon<f64> {
    MultiPolygon::new(
        v.iter().map(|r| Polygon::new(ring(&r.outer), r.holes.iter().map(ring).collect())).collect(),
    )
}

fn back(m: MultiPolygon<f64>) -> Vec<Region> {
    let line = |l: &LineString<f64>| l.0.iter().map(|p| p2(p.x, p.y)).collect::<Vec<_>>();
    m.into_iter()
        .map(|p| Region {
            outer: line(p.exterior()),
            holes: p.interiors().iter().map(line).collect(),
        })
        .collect()
}

impl Clip for Host {
    fn union(&mut self, a: &Vec<Region>, b: &Vec<Region>) -> Vec<Region> {
        back(multi(a).union(&multi(b)))
    }

    fn boolean(&mut self, a: &Vec<Region>, b: &Vec<Region>, op: Bop) -> Vec<Region> {
        match op {
            Bop::Difference => back(multi(a).difference(&multi(b))),
            Bop::Intersection => back(multi(a).intersection(&multi(b))),
        }
    }

    fn import(&mut self, _data: &Vec<u8>, _format: &str) -> Vec<Region> {
        Vec::new()
    }
}

fn spec(fn_: f64) -> FragmentSpec {
    FragmentSpec { fn_: b(fn_), fa: b(12.0), fs: b(2.0) }
}

fn at(m: &Mesh, i: u32) -> [f64; 3] {
    let v = m.verts[i as usize];
    [f(v.x), f(v.y), f(v.z)]
}

fn sub(a: [f64; 3], b: [f64; 3]) -> [f64; 3] {
    [a[0] - b[0], a[1] - b[1], a[2] - b[2]]
}

fn cross(u: [f64; 3], v: [f64; 3]) -> [f64; 3] {
    [u[1] * v[2] - u[2] * v[1], u[2] * v[0] - u[0] * v[2], u[0] * v[1] - u[1] * v[0]]
}

fn signed_volume(m: &Mesh) -> f64 {
    m.tris
        .iter()
        .map(|t| {
            let c = cross(at(m, t.b), at(m, t.c));
            let a = at(m, t.a);
            (a[0] * c[0] + a[1] * c[1] + a[2] * c[2]) / 6.0
        })
        .sum()
}

fn surface_area(m: &Mesh) -> f64 {
    m.tris
        .iter()
        .map(|t| {
            let a = at(m, t.a);
            let c = cross(sub(at(m, t.b), a), sub(at(m, t.c), a));
            (c[0] * c[0] + c[1] * c[1] + c[2] * c[2]).sqrt() / 2.0
        })
        .sum()
}

fn tris(m: &Mesh) -> Vec<[u32; 3]> {
    m.tris.iter().map(|t| [t.a, t.b, t.c]).collect()
}

fn poly(points: &[[f64; 3]], faces: &[Vec<u32>]) -> Mesh {
    let pts: Vec<Point3> = points.iter().map(|p| p3(p[0], p[1], p[2])).collect();
    polyhedron(&mut calc(), &mut EarLog::new(), &mut Host, &pts, &faces.to_vec())
}

#[test]
fn fragment_formula() {
    let mut c = calc();
    assert_eq!(fragments(&mut c, b(10.0), spec(6.0)), 6);
    assert_eq!(fragments(&mut c, b(10.0), spec(1.0)), 3);
    assert_eq!(fragments(&mut c, b(10.0), spec(0.0)), 30);
    assert_eq!(fragments(&mut c, b(1e-9), spec(0.0)), 3);
    assert_eq!(fragments(&mut c, b(0.1), spec(0.0)), 5);
}

#[test]
fn fragments_of_unusable_numbers_are_three() {
    let mut c = calc();
    assert_eq!(fragments(&mut c, b(10.0), spec(f64::NAN)), 3);
    assert_eq!(fragments(&mut c, b(10.0), spec(f64::INFINITY)), 3);
    assert_eq!(fragments(&mut c, b(10.0), spec(1e30)), u32::MAX);
}

#[test]
fn cube_volume_and_outward() {
    let m = cube(&mut calc(), p3(2.0, 3.0, 4.0), false);
    assert_eq!(m.tris.len(), 12);
    assert!((signed_volume(&m).abs() - 24.0).abs() < 1e-9);
    assert!(signed_volume(&m) > 0.0, "cube must be outward-facing");
}

#[test]
fn centered_cube_lies_around_the_origin() {
    let m = cube(&mut calc(), p3(2.0, 4.0, 6.0), true);
    assert_eq!(at(&m, 0), [-1.0, -2.0, -3.0]);
    assert_eq!(at(&m, 6), [1.0, 2.0, 3.0]);
}

#[test]
fn sphere_outward_and_approx_volume() {
    let m = sphere(&mut calc(), b(10.0), spec(64.0)).unwrap();
    assert!(signed_volume(&m) > 0.0, "sphere must be outward-facing");
    let analytic = 4.0 / 3.0 * std::f64::consts::PI * 1000.0;
    let rel = (signed_volume(&m) - analytic).abs() / analytic;
    assert!(rel < 0.02, "sphere volume off by {rel}");
}

#[test]
fn too_fine_solids_are_refused() {
    assert!(sphere(&mut calc(), b(10.0), spec(1e9)).is_none());
    assert!(cylinder(&mut calc(), b(1.0), b(1.0), b(1.0), false, spec(4e9)).is_none());
    let nothing = sphere(&mut calc(), b(-1.0), spec(8.0)).unwrap();
    assert!(nothing.verts.is_empty() && nothing.tris.is_empty());
}

#[test]
fn cylinder_outward_and_volume() {
    let m = cylinder(&mut calc(), b(10.0), b(5.0), b(5.0), false, spec(128.0)).unwrap();
    assert!(signed_volume(&m) > 0.0);
    let analytic = std::f64::consts::PI * 25.0 * 10.0;
    let rel = (signed_volume(&m) - analytic).abs() / analytic;
    assert!(rel < 0.01, "cylinder volume off by {rel}");
}

#[test]
fn polyhedron_convex_face_preserves_fan() {
    let pts = vec![[0., 0., 0.], [1., 0., 0.], [1., 1., 0.], [0., 1., 0.]];
    let m = poly(&pts, &[vec![0u32, 1, 2, 3]]);
    assert_eq!(tris(&m), vec![[0, 2, 1], [0, 3, 2]]);
    assert_eq!(m.verts.len(), 4);
}

fn concave_prism() -> (Vec<[f64; 3]>, Vec<Vec<u32>>) {
    let outline = [
        [0.0, 0.0],
        [4.0, 0.0],
        [4.0, 4.0],
        [3.0, 4.0],
        [3.0, 1.0],
        [1.0, 1.0],
        [1.0, 4.0],
        [0.0, 4.0],
    ];
    let mut points = Vec::new();
    for z in [0.0, 2.0] {
        points.extend(outline.iter().map(|p| [p[0], p[1], z]));
    }
    let mut faces = vec![vec![0, 1, 2, 3, 4, 5, 6, 7], vec![15, 14, 13, 12, 11, 10, 9, 8]];
    for i in 0..8_u32 {
        let j = (i + 1) % 8;
        faces.push(vec![i, i + 8, j + 8, j]);
    }
    (points, faces)
}

#[test]
fn polyhedron_triangulates_concave_faces_without_overlap() {
    let (points, faces) = concave_prism();
    let mesh = poly(&points, &faces);
    assert_eq!(mesh.tris.len(), 28);
    assert!((signed_volume(&mesh).abs() - 20.0).abs() < 1e-9);
    assert!((surface_area(&mesh) - 64.0).abs() < 1e-9);
    assert!(signed_volume(&mesh) > 0.0);
}

#[test]
fn polyhedron_triangulates_concave_slanted_face() {
    let uv = [
        [0.0, 0.0],
        [4.0, 0.0],
        [4.0, 4.0],
        [3.0, 4.0],
        [3.0, 1.0],
        [1.0, 1.0],
        [1.0, 4.0],
        [0.0, 4.0],
    ];
    let points: Vec<_> = uv.iter().map(|p| [p[0], p[1], p[0] + 2.0 * p[1]]).collect();
    let mesh = poly(&points, &[vec![0, 1, 2, 3, 4, 5, 6, 7]]);
    assert_eq!(mesh.tris.len(), 6);
    assert!((surface_area(&mesh) - 10.0 * 6.0_f64.sqrt()).abs() < 1e-9);
}

#[test]
fn polyhedron_preserves_small_faces_far_from_origin() {
    let base = 10_000_000_000.0;
    let points = vec![
        [base, base, 0.0],
        [base + 1.0, base, 0.0],
        [base + 1.0, base + 1.0, 0.0],
        [base, base + 1.0, 0.0],
    ];
    let mesh = poly(&points, &[vec![0, 1, 2, 3]]);
    assert_eq!(tris(&mesh), vec![[0, 2, 1], [0, 3, 2]]);
    assert!((surface_area(&mesh) - 1.0).abs() < 1e-9);
}

#[test]
fn polyhedron_skips_invalid_degenerate_and_nonplanar_faces() {
    let points = vec![
        [0.0, 0.0, 0.0],
        [2.0, 0.0, 0.0],
        [2.0, 2.0, 0.0],
        [0.0, 2.0, 0.0],
        [1.0, 0.0, 0.0],
        [1.0, 3.0, 0.1],
    ];
    let mesh = poly(
        &points,
        &[
            vec![0, 1, 99],
            vec![0, 4, 1],
            vec![0, 1, 2, 5, 3],
            vec![0, 1, 2, 1, 3],
            vec![0, 1, 2],
        ],
    );
    assert_eq!(tris(&mesh), vec![[0, 2, 1]]);
}

#[test]
fn stuttering_and_closed_faces_are_cleaned() {
    let pts: Vec<Point3> =
        vec![p3(0., 0., 0.), p3(1., 0., 0.), p3(1., 1., 0.), p3(0., 1., 0.)];
    let face = vec![0u32, 0, 1, 2, 2, 3, 0];
    let t = triangulate_face(&mut calc(), &mut EarLog::new(), &mut Host, &pts, &face);
    assert_eq!(t, vec![Triangle { a: 0, b: 2, c: 1 }, Triangle { a: 0, b: 3, c: 2 }]);
}

#[test]
fn cone_is_manifold_shape() {
    let m = cylinder(&mut calc(), b(10.0), b(5.0), b(0.0), false, spec(32.0)).unwrap();
    assert!(signed_volume(&m) > 0.0);
    assert!(!m.verts.is_empty());
}

#[test]
fn hull_of_cube_corners() {
    let mut pts = Vec::new();
    for x in [0.0, 2.0] {
        for y in [0.0, 2.0] {
            for z in [0.0, 2.0] {
                pts.push(p3(x, y, z));
            }
        }
    }
    pts.push(p3(1.0, 1.0, 1.0));
    let m = convex_hull(&mut calc(), &pts);
    assert!((signed_volume(&m).abs() - 8.0).abs() < 1e-6);
    assert!(signed_volume(&m) > 0.0);
}

#[test]
fn flat_clouds_have_no_hull() {
    let pts: Vec<Point3> = (0..10).map(|i| p3(i as f64, (i * i) as f64, 0.0)).collect();
    let m = convex_hull(&mut calc(), &pts);
    assert!(m.verts.is_empty() && m.tris.is_empty());
    let few = convex_hull(&mut calc(), &vec![p3(0.0, 0.0, 0.0), p3(1.0, 0.0, 0.0)]);
    assert!(few.tris.is_empty());
}

#[test]
fn convex_hull_triangle_order_is_deterministic() {
    let mut points: Vec<Point3> = Vec::new();
    for (cx, cy) in [(0.0, 0.0), (60.0, 0.0), (0.0, 30.0), (60.0, 30.0)] {
        for step in 0..32 {
            let angle = f64::from(step) * std::f64::consts::TAU / 32.0;
            for z in [0.0f64, 6.0] {
                points.push(p3(cx + 6.0 * libm::cos(angle), cy + 6.0 * libm::sin(angle), z));
            }
        }
    }
    let orders: std::collections::BTreeSet<Vec<[u32; 3]>> =
        (0..20).map(|_| tris(&convex_hull(&mut calc(), &points))).collect();
    assert_eq!(orders.len(), 1, "{} distinct hull triangle orders in 20 calls", orders.len());
}

fn rect(x0: f64, x1: f64) -> Vec<Point2> {
    vec![p2(x0, 0.0), p2(x1, 0.0), p2(x1, 3.0), p2(x0, 3.0)]
}

#[test]
fn rotate_extrude_negative_x_keeps_side_and_resolution() {
    let mesh =
        rotate_extrude(&mut calc(), &vec![rect(-12.0, -10.0)], b(90.0), spec(24.0)).unwrap();
    let xs: Vec<f64> = mesh.verts.iter().map(|v| f(v.x)).collect();
    let ys: Vec<f64> = mesh.verts.iter().map(|v| f(v.y)).collect();
    let lo = [
        xs.iter().copied().fold(f64::INFINITY, f64::min),
        ys.iter().copied().fold(f64::INFINITY, f64::min),
    ];
    let hi = [
        xs.iter().copied().fold(f64::NEG_INFINITY, f64::max),
        ys.iter().copied().fold(f64::NEG_INFINITY, f64::max),
    ];
    assert_eq!(mesh.tris.len(), 52);
    assert!((lo[0] + 12.0).abs() < 1e-9 && hi[0].abs() < 1e-9);
    assert!((lo[1] + 12.0).abs() < 1e-9 && hi[1].abs() < 1e-9);
}

#[test]
fn rotate_extrude_rejects_profile_crossing_axis() {
    let mesh = rotate_extrude(&mut calc(), &vec![rect(-1.0, 1.0)], b(360.0), spec(24.0)).unwrap();
    assert!(mesh.tris.is_empty());
}

#[test]
fn rotate_extrude_partial_sweep_scales_fragments() {
    let mesh = rotate_extrude(&mut calc(), &vec![rect(10.0, 12.0)], b(90.0), spec(24.0)).unwrap();
    assert_eq!(mesh.tris.len(), 52);
    assert_eq!(mesh.verts.len(), 28);
}

#[test]
fn rotate_extrude_clamps_sweep_to_one_turn() {
    let full = rotate_extrude(&mut calc(), &vec![rect(10.0, 12.0)], b(360.0), spec(24.0)).unwrap();
    let over = rotate_extrude(&mut calc(), &vec![rect(10.0, 12.0)], b(450.0), spec(24.0)).unwrap();
    assert_eq!(over.verts, full.verts);
    assert_eq!(over.tris, full.tris);
}

#[test]
fn rotate_extrude_zero_sweep_is_empty() {
    let m = rotate_extrude(&mut calc(), &vec![rect(10.0, 12.0)], b(0.0), spec(24.0)).unwrap();
    assert!(m.tris.is_empty());
}

#[test]
fn ears_are_cut_from_a_square() {
    let t = triangulate_simple(&mut calc(), &rect(0.0, 2.0));
    assert_eq!(t.len(), 2);
    assert_eq!(t[0], Triangle { a: 3, b: 0, c: 1 });
    assert!(triangulate_simple(&mut calc(), &vec![p2(0.0, 0.0), p2(1.0, 0.0)]).is_empty());
}

fn square(s: f64) -> Vec<Point2> {
    vec![p2(0.0, 0.0), p2(s, 0.0), p2(s, s), p2(0.0, s)]
}

fn area(cs: &[Vec<Point2>]) -> f64 {
    cs.iter().map(|c| f(signed_area(&mut calc(), c))).sum::<f64>().abs()
}

fn grown(c: Vec<Point2>, delta: f64) -> Vec<Vec<Point2>> {
    offset(
        &mut calc(),
        &mut PlaneLog::new(),
        &mut Host,
        &vec![c],
        b(0.0),
        b(delta),
        false,
        spec(0.0),
    )
}

#[test]
fn offset_grow_miter_square() {
    let r = grown(square(10.0), 2.0);
    assert!((area(&r) - 196.0).abs() < 1e-6, "grow area {}", area(&r));
}

#[test]
fn offset_mild_inset_square() {
    let r = grown(square(10.0), -2.0);
    assert!((area(&r) - 36.0).abs() < 1e-6, "inset area {}", area(&r));
}

#[test]
fn offset_over_inset_collapses_to_empty() {
    let r = grown(square(10.0), -10.0);
    assert!(r.is_empty(), "over-inset should be empty, got {r:?}");
}

#[test]
fn offset_by_a_radius_rounds_corners() {
    let r = offset(
        &mut calc(),
        &mut PlaneLog::new(),
        &mut Host,
        &vec![square(10.0)],
        b(2.0),
        b(0.0),
        false,
        spec(64.0),
    );
    let round = 100.0 + 80.0 + std::f64::consts::PI * 4.0;
    assert!((area(&r) - round).abs() < 0.1, "rounded area {}", area(&r));
}

fn plane() -> Plane<Host, Unit> {
    Plane { host: Host, calc: calc(), ears: EarLog::new(), clips: PlaneLog::new() }
}

#[test]
fn minkowski_2d_convex_is_exact() {
    let r = minkowski_pair_2d(&mut plane(), &vec![square(10.0)], &vec![square(2.0)]);
    assert!((area(&r) - 144.0).abs() < 1e-6, "square⊕square area {}", area(&r));
}

#[test]
fn minkowski_2d_nonconvex_beats_convex_hull() {
    let l: Vec<Point2> = vec![
        p2(0.0, 0.0),
        p2(24.0, 0.0),
        p2(24.0, 6.0),
        p2(6.0, 6.0),
        p2(6.0, 24.0),
        p2(0.0, 24.0),
    ];
    let got = area(&minkowski_pair_2d(&mut plane(), &vec![l.clone()], &vec![square(2.0)]));
    let mut sums = Vec::new();
    for a in &l {
        for c in &square(2.0) {
            sums.push(p2(f(a.x) + f(c.x), f(a.y) + f(c.y)));
        }
    }
    let convex_area = area(&hull_2d(&mut calc(), &sums));
    assert!(got > 252.0, "should exceed the L's own area (252): {got}");
    assert!(got < convex_area - 10.0, "exact {got} not below convex approx {convex_area}");
}

#[test]
fn flat_trees_are_drawn() {
    let ring = Node::Difference(vec![
        Node::Square { size: p2(10.0, 10.0), center: true },
        Node::Translate {
            v: p3(1.0, 0.0, 0.0),
            child: Box::new(Node::Square { size: p2(4.0, 4.0), center: true }),
        },
    ]);
    let r = render2d(&mut plane(), &ring);
    assert_eq!(r.len(), 2);
    assert!((area(&r) - 84.0).abs() < 1e-9);
    let both = Node::Intersection(vec![
        Node::Square { size: p2(10.0, 10.0), center: false },
        Node::Scale {
            v: p3(2.0, 3.0, 1.0),
            child: Box::new(Node::Square { size: p2(1.0, 1.0), center: false }),
        },
    ]);
    assert!((area(&render2d(&mut plane(), &both)) - 6.0).abs() < 1e-9);
    let nothing = Node::Background(Box::new(Node::Square { size: p2(1.0, 1.0), center: false }));
    assert!(render2d(&mut plane(), &nothing).is_empty());
    let big = Node::Resize {
        new: p3(20.0, 0.0, 0.0),
        auto_x: true,
        auto_y: true,
        auto_z: false,
        child: Box::new(Node::Square { size: p2(5.0, 2.0), center: false }),
    };
    assert!((area(&render2d(&mut plane(), &big)) - 160.0).abs() < 1e-9);
}

#[test]
fn holes_are_grouped_and_cut_out() {
    let outer = square(10.0);
    let hole = vec![p2(4.0, 4.0), p2(6.0, 4.0), p2(6.0, 6.0), p2(4.0, 6.0)];
    let groups = group_contours(&mut calc(), &vec![outer.clone(), hole.clone()]);
    assert_eq!(groups.len(), 1);
    assert_eq!(groups[0].holes.len(), 1);
    assert!(f(signed_area(&mut calc(), &groups[0].outer)) > 0.0);
    assert!(f(signed_area(&mut calc(), &groups[0].holes[0])) < 0.0);
    let flat = flat_mesh(&mut calc(), &mut EarLog::new(), &mut Host, &vec![outer, hole]).unwrap();
    assert!((surface_area(&flat) - 96.0).abs() < 1e-9);
}

#[test]
fn linear_extrusion_of_an_annulus_is_hollow() {
    let outer = square(10.0);
    let hole = vec![p2(4.0, 4.0), p2(6.0, 4.0), p2(6.0, 6.0), p2(4.0, 6.0)];
    let draw = Draw { height: b(2.0), center: true, twist: b(0.0), scale: p2(1.0, 1.0), slices: 0 };
    let m = linear_extrude(&mut calc(), &mut EarLog::new(), &mut Host, &vec![outer, hole], draw)
        .unwrap();
    assert!((signed_volume(&m) - 192.0).abs() < 1e-9);
    assert_eq!(m.verts.len(), 16);
}

#[test]
fn repeated_points_are_welded() {
    let c = vec![p2(0.0, 0.0), p2(0.0, 1e-9), p2(1.0, 0.0), p2(1.0, 1.0), p2(0.0, 0.0)];
    let r = dedup_consecutive(&mut calc(), &c);
    assert_eq!(r, vec![p2(0.0, 0.0), p2(1.0, 0.0), p2(1.0, 1.0)]);
}

#[test]
fn slicing_a_cube_gives_its_outline() {
    let m = cube(&mut calc(), p3(2.0, 3.0, 4.0), true);
    let r = slice_z0(&mut calc(), &m);
    assert_eq!(r.len(), 1);
    assert!((area(&r) - 6.0).abs() < 1e-6);
    let shade = silhouette(&mut calc(), &mut PlaneLog::new(), &mut Host, &m);
    assert!((area(&shade) - 6.0).abs() < 1e-9);
}

#[test]
fn segments_chain_in_any_order() {
    let q = square(1.0);
    let seg = |i: usize, j: usize| Segment { a: q[i], b: q[j] };
    let r = chain_segments(&mut calc(), &vec![seg(0, 1), seg(3, 2), seg(0, 3), seg(1, 2)]);
    assert_eq!(r, vec![vec![q[0], q[1], q[2], q[3]]]);
    assert!(chain_segments(&mut calc(), &vec![seg(0, 1)]).is_empty());
}

#[test]
fn cube_tessellation_has_six_source_patches() {
    let mesh = cube(&mut calc(), p3(1.0, 1.0, 1.0), false);
    let node = Node::Cube { size: p3(1.0, 1.0, 1.0), center: false };
    let ids = source_patch_ids(&mut calc(), &node, &mesh);
    assert_eq!(ids.len(), 12);
    assert_eq!(ids.into_iter().collect::<std::collections::HashSet<_>>().len(), 6);
}

#[test]
fn cylinder_patches_are_caps_and_wall() {
    let mesh = cylinder(&mut calc(), b(4.0), b(2.0), b(2.0), false, spec(8.0)).unwrap();
    let node = Node::Cylinder {
        h: b(4.0),
        r1: b(2.0),
        r2: b(2.0),
        center: false,
        frags: spec(8.0),
    };
    let ids = source_patch_ids(&mut calc(), &node, &mesh);
    assert_eq!(ids.iter().filter(|i| **i == 0).count(), 16);
    assert_eq!(ids.iter().filter(|i| **i == 1).count(), 6);
    assert_eq!(ids.iter().filter(|i| **i == 2).count(), 6);
}

#[test]
fn extrusion_patches_follow_the_profile() {
    let draw = Draw { height: b(2.0), center: false, twist: b(0.0), scale: p2(1.0, 1.0), slices: 1 };
    let m = linear_extrude(&mut calc(), &mut EarLog::new(), &mut Host, &vec![square(3.0)], draw)
        .unwrap();
    let ids = linear_extrude_patch_ids(&mut calc(), &m, 1, ProfileBoundary::Polygonal);
    assert_eq!(ids.iter().collect::<std::collections::HashSet<_>>().len(), 6);
    let smooth = linear_extrude_patch_ids(&mut calc(), &m, 1, ProfileBoundary::Smooth);
    assert_eq!(smooth.iter().collect::<std::collections::HashSet<_>>().len(), 3);
    let hole = vec![p2(1.0, 1.0), p2(2.0, 1.0), p2(2.0, 2.0), p2(1.0, 2.0)];
    let tube =
        linear_extrude(&mut calc(), &mut EarLog::new(), &mut Host, &vec![square(3.0), hole], draw)
            .unwrap();
    let walls = linear_extrude_patch_ids(&mut calc(), &tube, 1, ProfileBoundary::Polygonal);
    assert_eq!(walls.iter().collect::<std::collections::HashSet<_>>().len(), 10);
}

#[test]
fn sweep_patches_are_caps_and_stretches() {
    let m = rotate_extrude(&mut calc(), &vec![rect(10.0, 12.0)], b(90.0), spec(24.0)).unwrap();
    let ids = rotate_extrude_patch_ids(
        &mut calc(),
        &m,
        b(90.0),
        spec(24.0),
        ProfileBoundary::Polygonal,
    );
    assert_eq!(ids.len(), 52);
    assert_eq!(ids.iter().collect::<std::collections::HashSet<_>>().len(), 6);
    let none = rotate_extrude_patch_ids(
        &mut calc(),
        &m,
        b(0.0),
        spec(24.0),
        ProfileBoundary::Polygonal,
    );
    assert!(none.is_empty());
}

#[test]
fn hull_patches_follow_operands_and_creases() {
    let one = cube(&mut calc(), p3(2.0, 2.0, 2.0), false);
    let hull = convex_hull(&mut calc(), &one.verts);
    let ids = hull_patch_ids(&mut calc(), &hull, &vec![one]);
    assert_eq!(ids.len(), 12);
    assert_eq!(ids.iter().collect::<std::collections::HashSet<_>>().len(), 6);
    let stranger = cube(&mut calc(), p3(9.0, 9.0, 9.0), true);
    let lost = hull_patch_ids(&mut calc(), &hull, &vec![stranger]);
    assert!(lost.iter().all(|i| *i == u64::MAX));
}

#[test]
fn keys_are_numbered_as_they_come() {
    let keys = vec![Some(7), None, Some(9), Some(7), Some(1)];
    assert_eq!(number_keys(&keys), vec![0, u64::MAX, 1, 0, 2]);
}

#[test]
fn polyhedron_patches_are_its_faces() {
    let pts = vec![p3(0., 0., 0.), p3(1., 0., 0.), p3(1., 1., 0.), p3(0., 1., 0.)];
    let faces = vec![vec![0u32, 1, 2, 3]];
    let mesh = polyhedron(&mut calc(), &mut EarLog::new(), &mut Host, &pts, &faces);
    let node = Node::Polyhedron { points: pts, faces };
    assert_eq!(source_patch_ids(&mut calc(), &node, &mesh), vec![0, 0]);
}
