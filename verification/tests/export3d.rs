use geo::{BooleanOps, LineString, MultiPolygon, Polygon};
use manifold_rust::manifold::Manifold;
use manifold_rust::types::{Error, MeshGL64};
use openrscad::clip::{Bop, Clip, PlaneLog};
use openrscad::compiled::compile_glb;
use openrscad::contours::Region;
use openrscad::error::GeomError;
use openrscad::extrude::{flat_mesh, linear_extrude, Draw};
use openrscad::faces::{polyhedron, EarLog, Ears};
use openrscad::flat::{render2d, Plane};
use openrscad::hull::convex_hull;
use openrscad::kernel::{all_points, balanced_reduce};
use openrscad::mesh::{Mesh, Point3, Triangle};
use openrscad::node::{FragmentSpec, Node, Point2};
use openrscad::num::{Arithmetic, Calc, NumOp, TextOp};
use openrscad::provenance::{ProvenanceFrame, SourceSpan};
use openrscad::relation::{
    relation_from_parts, AttributedMesh, RelationMesh, RelationParts, RunKeys, SurfaceAttributionId,
};
use openrscad::revolve::rotate_extrude;
use openrscad::runs::relation_buffers;
use openrscad::scene::{Geometry, Log, Scene};
use openrscad::slice::{silhouette, slice_z0};
use openrscad::solid::{Bounds3, MeshSelection, StructuredMesh};
use openrscad::structured::render_structured_with;
use openrscad::surfaces::{
    AttributionStatus, ContributionKind, DisplayMode, Rgba, SurfaceAttribution, SurfaceTable,
};
use openrscad::tessellate::{cube, cylinder, sphere};
use openrscad::edges::feature_edges;
use openrscad::glb::{serialize_glb, Export3DOptions};
use openrscad::pipeline::ExportFormat3D;
use openrscad::threemf::{export_3d, serialize_3mf, Exported};
use serde_json::Value;
use std::cell::Cell;
use std::collections::{BTreeMap, BTreeSet};
use std::rc::Rc;

struct Unit;

fn f(b: u64) -> f64 {
    f64::from_bits(b)
}

fn s(b: u64) -> f32 {
    f32::from_bits(b as u32)
}

impl Arithmetic for Unit {
    fn apply(&mut self, op: NumOp, x: u64, y: u64) -> u64 {
        let (a, b) = (f(x), f(y));
        let one = |v: f64| v.to_bits();
        let single = |v: f32| v.to_bits() as u64;
        match op {
            NumOp::Add => one(a + b),
            NumOp::Sub => one(a - b),
            NumOp::Mul => one(a * b),
            NumOp::Div => one(a / b),
            NumOp::Rem => one(a % b),
            NumOp::Pow => one(libm::pow(a, b)),
            NumOp::Min => one(a.min(b)),
            NumOp::Max => one(a.max(b)),
            NumOp::Hypot => one(a.hypot(b)),
            NumOp::Atan2 => one(libm::atan2(a, b)),
            NumOp::Sqrt => one(a.sqrt()),
            NumOp::Exp => one(libm::exp(a)),
            NumOp::Ln => one(libm::log(a)),
            NumOp::Log10 => one(libm::log10(a)),
            NumOp::Floor => one(a.floor()),
            NumOp::Ceil => one(a.ceil()),
            NumOp::Round => one(a.round()),
            NumOp::Sin => one(libm::sin(a)),
            NumOp::Cos => one(libm::cos(a)),
            NumOp::Tan => one(libm::tan(a)),
            NumOp::Asin => one(libm::asin(a)),
            NumOp::Acos => one(libm::acos(a)),
            NumOp::Atan => one(libm::atan(a)),
            NumOp::ToRadians => one(a.to_radians()),
            NumOp::ToDegrees => one(a.to_degrees()),
            NumOp::FromInt => one(x as f64),
            NumOp::ToInt => a as u64,
            NumOp::ToSingle => single(a as f32),
            NumOp::FromSingle => one(s(x) as f64),
            NumOp::SingleFromInt => single(x as f32),
            NumOp::SingleToInt => s(x) as u64,
            NumOp::SingleAdd => single(s(x) + s(y)),
            NumOp::SingleMul => single(s(x) * s(y)),
            NumOp::SingleDiv => single(s(x) / s(y)),
            NumOp::SinglePow => single(s(x).powf(s(y))),
            NumOp::SingleMin => single(s(x).min(s(y))),
            NumOp::SingleMax => single(s(x).max(s(y))),
            NumOp::SingleRound => single(s(x).round()),
        }
    }

    fn write(&mut self, op: TextOp, x: u64, _y: u64) -> String {
        match op {
            TextOp::Json => serde_json::to_string(&f(x)).unwrap(),
            TextOp::JsonSingle => serde_json::to_string(&s(x)).unwrap(),
            TextOp::Plain => format!("{}", f(x)),
            TextOp::Scientific => format!("{:e}", f(x)),
        }
    }
}

fn calc() -> Calc<Unit> {
    Calc::new(Unit)
}

fn b(v: f64) -> u64 {
    v.to_bits()
}

fn p3(x: f64, y: f64, z: f64) -> Point3 {
    Point3 { x: b(x), y: b(y), z: b(z) }
}

fn p2(x: f64, y: f64) -> Point2 {
    Point2 { x: b(x), y: b(y) }
}

struct Host;

impl Ears for Host {
    fn cut(&mut self, outline: &Vec<Point2>, holes: &Vec<usize>) -> Option<Vec<usize>> {
        let flat: Vec<f64> = outline.iter().flat_map(|p| [f(p.x), f(p.y)]).collect();
        earcutr::earcut(&flat, holes, 2).ok()
    }
}

fn ring(c: &Vec<Point2>) -> LineString<f64> {
    LineString::from(c.iter().map(|p| (f(p.x), f(p.y))).collect::<Vec<_>>())
}

fn multi(v: &Vec<Region>) -> MultiPolygon<f64> {
    MultiPolygon::new(
        v.iter().map(|r| Polygon::new(ring(&r.outer), r.holes.iter().map(ring).collect())).collect(),
    )
}

fn back(m: MultiPolygon<f64>) -> Vec<Region> {
    let line = |l: &LineString<f64>| l.0.iter().map(|p| p2(p.x, p.y)).collect::<Vec<_>>();
    m.into_iter()
        .map(|p| Region {
            outer: line(p.exterior()),
            holes: p.interiors().iter().map(line).collect(),
        })
        .collect()
}

impl Clip for Host {
    fn union(&mut self, a: &Vec<Region>, b: &Vec<Region>) -> Vec<Region> {
        back(multi(a).union(&multi(b)))
    }

    fn boolean(&mut self, a: &Vec<Region>, b: &Vec<Region>, op: Bop) -> Vec<Region> {
        match op {
            Bop::Difference => back(multi(a).difference(&multi(b))),
            Bop::Intersection => back(multi(a).intersection(&multi(b))),
        }
    }

    fn import(&mut self, _data: &Vec<u8>, _format: &str) -> Vec<Region> {
        Vec::new()
    }
}

struct Shop {
    keys: RunKeys,
}

fn checked(m: Manifold) -> Result<Manifold, GeomError> {
    match m.status() {
        Error::NoError => Ok(m),
        status => Err(GeomError::Kernel(status.to_string())),
    }
}

fn said(e: GeomError) -> String {
    match e {
        GeomError::Kernel(s) | GeomError::NonManifold(s) | GeomError::Invariant(s) => s,
    }
}

fn empty() -> Mesh {
    Mesh { verts: Vec::new(), tris: Vec::new() }
}

fn no_relation() -> RelationMesh {
    RelationMesh {
        attributed: AttributedMesh {
            mesh: empty(),
            surface_ids: Vec::new(),
            source_face_ids: Vec::new(),
        },
        backside: Vec::new(),
    }
}

fn solid(m: &Mesh) -> Result<Manifold, GeomError> {
    let mesh = MeshGL64 {
        num_prop: 3,
        vert_properties: m.verts.iter().flat_map(|p| [f(p.x), f(p.y), f(p.z)]).collect(),
        tri_verts: m.tris.iter().flat_map(|t| [t.a as u64, t.b as u64, t.c as u64]).collect(),
        ..MeshGL64::default()
    };
    checked(Manifold::from_mesh_gl64(&mesh))
}

fn unsolid(m: &Manifold) -> Mesh {
    let mesh = m.get_mesh_gl64(-1);
    let n = (mesh.num_prop as usize).max(3);
    Mesh {
        verts: mesh.vert_properties.chunks(n).map(|p| p3(p[0], p[1], p[2])).collect(),
        tris: mesh
            .tri_verts
            .chunks(3)
            .map(|t| Triangle { a: t[0] as u32, b: t[1] as u32, c: t[2] as u32 })
            .collect(),
    }
}

fn matrix(node: &Node) -> [[f64; 4]; 3] {
    let id = [[1.0, 0.0, 0.0, 0.0], [0.0, 1.0, 0.0, 0.0], [0.0, 0.0, 1.0, 0.0]];
    match node {
        Node::Translate { v, .. } => {
            let mut m = id;
            m[0][3] = f(v.x);
            m[1][3] = f(v.y);
            m[2][3] = f(v.z);
            m
        }
        Node::Scale { v, .. } => {
            let mut m = id;
            m[0][0] = f(v.x);
            m[1][1] = f(v.y);
            m[2][2] = f(v.z);
            m
        }
        Node::Rotate { deg, .. } => {
            let (sx, cx) = f(deg.x).to_radians().sin_cos();
            let (sy, cy) = f(deg.y).to_radians().sin_cos();
            let (sz, cz) = f(deg.z).to_radians().sin_cos();
            [
                [cy * cz, sx * sy * cz - cx * sz, cx * sy * cz + sx * sz, 0.0],
                [cy * sz, sx * sy * sz + cx * cz, cx * sy * sz - sx * cz, 0.0],
                [-sy, sx * cy, cx * cy, 0.0],
            ]
        }
        Node::Mirror { v, .. } => {
            let n = [f(v.x), f(v.y), f(v.z)];
            let l = n[0] * n[0] + n[1] * n[1] + n[2] * n[2];
            let mut m = id;
            if l > 0.0 {
                for i in 0..3 {
                    for j in 0..3 {
                        m[i][j] -= 2.0 * n[i] * n[j] / l;
                    }
                }
            }
            m
        }
        Node::MultMatrix { m: rows, .. } => {
            let mut m = id;
            for i in 0..3 {
                for j in 0..4 {
                    m[i][j] = f(rows[4 * i + j]);
                }
            }
            m
        }
        _ => id,
    }
}

fn carried(node: &Node, mesh: &Mesh) -> Mesh {
    let m = matrix(node);
    let det = m[0][0] * (m[1][1] * m[2][2] - m[1][2] * m[2][1])
        - m[0][1] * (m[1][0] * m[2][2] - m[1][2] * m[2][0])
        + m[0][2] * (m[1][0] * m[2][1] - m[1][1] * m[2][0]);
    let row = |r: &[f64; 4], p: &Point3| r[0] * f(p.x) + r[1] * f(p.y) + r[2] * f(p.z) + r[3];
    Mesh {
        verts: mesh.verts.iter().map(|p| p3(row(&m[0], p), row(&m[1], p), row(&m[2], p))).collect(),
        tris: mesh
            .tris
            .iter()
            .map(|t| if det < 0.0 { Triangle { a: t.a, b: t.c, c: t.b } } else { *t })
            .collect(),
    }
}

fn flat_node(node: &Node) -> bool {
    match node {
        Node::Square { .. } | Node::Circle { .. } | Node::Polygon { .. } => true,
        Node::Offset { .. } | Node::Projection { .. } => true,
        Node::Import { format, .. } => format == "svg" || format == "dxf",
        Node::Translate { child, .. }
        | Node::Rotate { child, .. }
        | Node::Scale { child, .. }
        | Node::Mirror { child, .. }
        | Node::MultMatrix { child, .. }
        | Node::Resize { child, .. }
        | Node::Color { child, .. }
        | Node::Provenance { child, .. } => flat_node(child),
        Node::Highlight(child) | Node::Background(child) => flat_node(child),
        Node::Union(v)
        | Node::Difference(v)
        | Node::Intersection(v)
        | Node::Hull(v)
        | Node::Minkowski(v)
        | Node::Group(v) => v.iter().any(flat_node),
        _ => false,
    }
}

impl Shop {
    fn new() -> Shop {
        Shop { keys: RunKeys::new() }
    }

    fn cast(&mut self, mesh: &RelationMesh) -> Result<Manifold, GeomError> {
        let buffers = relation_buffers(mesh, &mut self.keys)?;
        let mesh = MeshGL64 {
            num_prop: 3,
            vert_properties: buffers.vertices.iter().map(|v| f(*v)).collect(),
            tri_verts: buffers.triangles,
            merge_from_vert: buffers.merge_from_vert,
            merge_to_vert: buffers.merge_to_vert,
            run_index: buffers.run_index,
            run_original_id: buffers.run_original_id,
            ..MeshGL64::default()
        };
        checked(Manifold::from_mesh_gl64(&mesh))
    }

    fn uncast(&self, m: &Manifold) -> Result<RelationMesh, GeomError> {
        let mesh = m.get_mesh_gl64(-1);
        let parts = RelationParts {
            num_prop: mesh.num_prop as usize,
            vertex_properties: mesh.vert_properties.iter().map(|v| b(*v)).collect(),
            triangle_vertices: mesh.tri_verts,
            run_index: mesh.run_index,
            run_original_id: mesh.run_original_id,
            merge_from_vert: mesh.merge_from_vert,
            merge_to_vert: mesh.merge_to_vert,
            run_flags: mesh.run_flags,
        };
        relation_from_parts(&parts, &self.keys)
    }

    fn cast_all(&mut self, meshes: &Vec<RelationMesh>) -> Result<Vec<Manifold>, GeomError> {
        let mut out = Vec::new();
        for mesh in meshes.iter().filter(|m| !m.attributed.mesh.tris.is_empty()) {
            out.push(self.cast(mesh)?);
        }
        Ok(out)
    }

    fn joined(&mut self, meshes: &Vec<RelationMesh>) -> Result<RelationMesh, GeomError> {
        let all = self.cast_all(meshes)?;
        match balanced_reduce(all, |l: &Manifold, r: &Manifold| checked(l.union(r)))? {
            Some(m) => self.uncast(&m),
            None => Ok(no_relation()),
        }
    }

    fn cut(&mut self, base: &RelationMesh, tools: &Vec<RelationMesh>) -> Result<RelationMesh, GeomError> {
        if base.attributed.mesh.tris.is_empty() {
            return Ok(no_relation());
        }
        let base = self.cast(base)?;
        let all = self.cast_all(tools)?;
        let m = match balanced_reduce(all, |l: &Manifold, r: &Manifold| checked(l.union(r)))? {
            Some(tool) => checked(base.difference(&tool))?,
            None => base,
        };
        self.uncast(&m)
    }

    fn common(&mut self, meshes: &Vec<RelationMesh>) -> Result<RelationMesh, GeomError> {
        if meshes.iter().any(|m| m.attributed.mesh.tris.is_empty()) {
            return Ok(no_relation());
        }
        let all = self.cast_all(meshes)?;
        match balanced_reduce(all, |l: &Manifold, r: &Manifold| checked(l.intersection(r)))? {
            Some(m) => self.uncast(&m),
            None => Ok(no_relation()),
        }
    }

    fn meshes(&mut self, nodes: &Vec<Node>) -> Result<Vec<Mesh>, GeomError> {
        nodes.iter().map(|n| self.mesh(n)).collect()
    }

    fn fused(&mut self, nodes: &Vec<Node>) -> Result<Mesh, GeomError> {
        let mut all = Vec::new();
        for m in self.meshes(nodes)?.iter().filter(|m| !m.tris.is_empty()) {
            all.push(solid(m)?);
        }
        let r = balanced_reduce(all, |l: &Manifold, r: &Manifold| checked(l.union(r)))?;
        Ok(r.map_or(empty(), |m| unsolid(&m)))
    }

    fn settled_all(&mut self, nodes: &Vec<Node>) -> Result<Vec<Node>, GeomError> {
        nodes.iter().map(|n| self.settled(n)).collect()
    }

    fn settled_child(&mut self, child: &Node) -> Result<Box<Node>, GeomError> {
        Ok(Box::new(self.settled(child)?))
    }

    /// The same flat tree with every projection computed.
    fn settled(&mut self, node: &Node) -> Result<Node, GeomError> {
        Ok(match node {
            Node::Square { size, center } => Node::Square { size: *size, center: *center },
            Node::Circle { r, frags } => Node::Circle { r: *r, frags: *frags },
            Node::Polygon { points, paths } => {
                Node::Polygon { points: points.clone(), paths: paths.clone() }
            }
            Node::Import { data, format } => {
                Node::Import { data: data.clone(), format: format.clone() }
            }
            Node::Translate { v, child } => {
                Node::Translate { v: *v, child: self.settled_child(child)? }
            }
            Node::Rotate { deg, child } => {
                Node::Rotate { deg: *deg, child: self.settled_child(child)? }
            }
            Node::Scale { v, child } => Node::Scale { v: *v, child: self.settled_child(child)? },
            Node::Mirror { v, child } => Node::Mirror { v: *v, child: self.settled_child(child)? },
            Node::MultMatrix { m, child } => {
                Node::MultMatrix { m: m.clone(), child: self.settled_child(child)? }
            }
            Node::Resize { new, auto_x, auto_y, auto_z, child } => Node::Resize {
                new: *new,
                auto_x: *auto_x,
                auto_y: *auto_y,
                auto_z: *auto_z,
                child: self.settled_child(child)?,
            },
            Node::Offset { r, delta, chamfer, frags, child } => Node::Offset {
                r: *r,
                delta: *delta,
                chamfer: *chamfer,
                frags: *frags,
                child: self.settled_child(child)?,
            },
            Node::Color { child, .. } | Node::Provenance { child, .. } => self.settled(child)?,
            Node::Highlight(child) => self.settled(child)?,
            Node::Union(v) => Node::Union(self.settled_all(v)?),
            Node::Group(v) => Node::Group(self.settled_all(v)?),
            Node::Difference(v) => Node::Difference(self.settled_all(v)?),
            Node::Intersection(v) => Node::Intersection(self.settled_all(v)?),
            Node::Hull(v) => Node::Hull(self.settled_all(v)?),
            Node::Minkowski(v) => Node::Minkowski(self.settled_all(v)?),
            Node::Projection { cut, child } => {
                let mesh = self.mesh(child)?;
                let contours = if *cut {
                    slice_z0(&mut calc(), &mesh)
                } else {
                    silhouette(&mut calc(), &mut PlaneLog::new(), &mut Host, &mesh)
                };
                let mut points = Vec::new();
                let mut paths = Vec::new();
                for c in contours {
                    let first = points.len() as u32;
                    paths.push((first..first + c.len() as u32).collect());
                    points.extend(c);
                }
                Node::Polygon { points, paths: Some(paths) }
            }
            _ => Node::Empty,
        })
    }

    fn outline(&mut self, node: &Node) -> Result<Vec<Vec<Point2>>, GeomError> {
        let settled = self.settled(node)?;
        let mut p = Plane { host: Host, calc: calc(), ears: EarLog::new(), clips: PlaneLog::new() };
        Ok(render2d(&mut p, &settled))
    }

    fn mesh(&mut self, node: &Node) -> Result<Mesh, GeomError> {
        let fine = || GeomError::Invariant("too many vertices".to_string());
        if flat_node(node) {
            let c = self.outline(node)?;
            return flat_mesh(&mut calc(), &mut EarLog::new(), &mut Host, &c).ok_or_else(fine);
        }
        match node {
            Node::Cube { size, center } => Ok(cube(&mut calc(), *size, *center)),
            Node::Sphere { r, frags } => sphere(&mut calc(), *r, *frags).ok_or_else(fine),
            Node::Cylinder { h, r1, r2, center, frags } => {
                cylinder(&mut calc(), *h, *r1, *r2, *center, *frags).ok_or_else(fine)
            }
            Node::Polyhedron { points, faces } => {
                Ok(polyhedron(&mut calc(), &mut EarLog::new(), &mut Host, points, faces))
            }
            Node::Translate { child, .. }
            | Node::Rotate { child, .. }
            | Node::Scale { child, .. }
            | Node::Mirror { child, .. }
            | Node::MultMatrix { child, .. } => Ok(carried(node, &self.mesh(child)?)),
            Node::Color { child, .. } | Node::Provenance { child, .. } => self.mesh(child),
            Node::Highlight(child) => self.mesh(child),
            Node::Union(v) | Node::Group(v) => self.fused(v),
            Node::Difference(v) => {
                let mut all = self.meshes(v)?.into_iter();
                let base = match all.next() {
                    Some(m) if !m.tris.is_empty() => solid(&m)?,
                    _ => return Ok(empty()),
                };
                let mut tools = Vec::new();
                for m in all.filter(|m| !m.tris.is_empty()) {
                    tools.push(solid(&m)?);
                }
                match balanced_reduce(tools, |l: &Manifold, r: &Manifold| checked(l.union(r)))? {
                    Some(tool) => Ok(unsolid(&checked(base.difference(&tool))?)),
                    None => Ok(unsolid(&base)),
                }
            }
            Node::Intersection(v) => {
                let mut all = Vec::new();
                for m in self.meshes(v)? {
                    if m.tris.is_empty() {
                        return Ok(empty());
                    }
                    all.push(solid(&m)?);
                }
                let r = balanced_reduce(all, |l: &Manifold, r: &Manifold| checked(l.intersection(r)))?;
                Ok(r.map_or(empty(), |m| unsolid(&m)))
            }
            Node::Hull(v) => {
                let all = self.meshes(v)?;
                Ok(convex_hull(&mut calc(), &all_points(&all)))
            }
            Node::LinearExtrude { height, center, twist, scale, slices, child } => {
                let c = self.outline(child)?;
                let d = Draw {
                    height: *height,
                    center: *center,
                    twist: *twist,
                    scale: *scale,
                    slices: *slices,
                };
                linear_extrude(&mut calc(), &mut EarLog::new(), &mut Host, &c, d).ok_or_else(fine)
            }
            Node::RotateExtrude { angle, frags, child } => {
                let c = self.outline(child)?;
                rotate_extrude(&mut calc(), &c, *angle, *frags).ok_or_else(fine)
            }
            _ => Ok(empty()),
        }
    }
}

impl Geometry for Shop {
    fn union(&mut self, meshes: &Vec<RelationMesh>) -> Result<RelationMesh, String> {
        self.joined(meshes).map_err(said)
    }

    fn difference(
        &mut self,
        base: &RelationMesh,
        tools: &Vec<RelationMesh>,
    ) -> Result<RelationMesh, String> {
        self.cut(base, tools).map_err(said)
    }

    fn intersection(&mut self, meshes: &Vec<RelationMesh>) -> Result<RelationMesh, String> {
        self.common(meshes).map_err(said)
    }

    fn render(&mut self, node: &Node) -> Result<Mesh, GeomError> {
        self.mesh(node)
    }

    fn moved(&mut self, node: &Node, mesh: &Mesh) -> Mesh {
        carried(node, mesh)
    }

    fn is_2d(&mut self, node: &Node) -> bool {
        flat_node(node)
    }

    fn decode_3mf(&mut self, _data: &Vec<u8>) -> Option<(Mesh, Vec<Option<Rgba>>)> {
        None
    }

    fn reports(&mut self) -> (Vec<String>, Vec<String>) {
        (Vec::new(), Vec::new())
    }
}

fn plain() -> FragmentSpec {
    FragmentSpec { fn_: b(0.0), fa: b(12.0), fs: b(2.0) }
}

fn rgba(r: f32, g: f32, b: f32, a: f32) -> Rgba {
    Rgba { r: r.to_bits(), g: g.to_bits(), b: b.to_bits(), a: a.to_bits() }
}

fn default_color() -> Rgba {
    rgba(245.0 / 255.0, 165.0 / 255.0, 35.0 / 255.0, 1.0)
}

fn stage(shown: bool) -> Scene<Shop, Unit> {
    Scene {
        host: Shop::new(),
        log: Log::new(),
        calc: calc(),
        table: SurfaceTable::new(),
        next: 0,
        errors: Vec::new(),
        shown,
    }
}

fn rendered(node: &Node) -> StructuredMesh {
    render_structured_with(&mut stage(false), default_color(), node).unwrap().mesh
}

fn volume(m: &Mesh) -> f64 {
    let at = |i: u32| {
        let p = m.verts[i as usize];
        [f(p.x), f(p.y), f(p.z)]
    };
    m.tris
        .iter()
        .map(|t| {
            let (p, q, r) = (at(t.a), at(t.b), at(t.c));
            p[0] * (q[1] * r[2] - q[2] * r[1]) + p[1] * (q[2] * r[0] - q[0] * r[2])
                + p[2] * (q[0] * r[1] - q[1] * r[0])
        })
        .sum::<f64>()
        / 6.0
}

fn authored(name: &str, call_start: u32, child: Node) -> Node {
    Node::Provenance {
        frame: ProvenanceFrame {
            call_site: SourceSpan {
                source_id: 0,
                start: call_start,
                end: call_start + name.len() as u32,
            },
            definition_site: Some(SourceSpan {
                source_id: 0,
                start: call_start + 1_000,
                end: call_start + 1_100,
            }),
            module_name: Some(name.to_string()),
        },
        child: Box::new(child),
    }
}

fn two_cubes() -> StructuredMesh {
    rendered(&Node::Union(vec![
        Node::Cube { size: p3(1.0, 1.0, 1.0), center: false },
        Node::Translate {
            v: p3(0.0, 0.0, 2.0),
            child: Box::new(Node::Cube { size: p3(1.0, 1.0, 1.0), center: false }),
        },
    ]))
}

fn shown(node: &Node) -> StructuredMesh {
    render_structured_with(&mut stage(true), default_color(), node).unwrap().mesh
}

fn parsed(text: &str) -> Value {
    serde_json::from_str(text).unwrap()
}

fn glb_json(bytes: &[u8]) -> Value {
    let length = u32::from_le_bytes(bytes[12..16].try_into().unwrap()) as usize;
    serde_json::from_slice(&bytes[20..20 + length]).unwrap()
}

fn exported(structured: &StructuredMesh, options: &Export3DOptions) -> Vec<u8> {
    match export_3d(&mut calc(), structured, ExportFormat3D::Glb, options).unwrap() {
        Exported::Glb(bytes) => bytes,
        Exported::Model(_) => panic!("not a model"),
    }
}

fn primitives(mesh: &Value, mode: u64) -> Vec<Value> {
    mesh["primitives"]
        .as_array()
        .into_iter()
        .flatten()
        .filter(|primitive| primitive["mode"] == mode)
        .cloned()
        .collect()
}

fn index_count(document: &Value, primitive: &Value) -> u64 {
    let accessor = primitive["indices"].as_u64().unwrap() as usize;
    document["accessors"][accessor]["count"].as_u64().unwrap()
}

fn line_segment_count(document: &Value) -> u64 {
    document["meshes"]
        .as_array()
        .into_iter()
        .flatten()
        .flat_map(|mesh| primitives(mesh, 1))
        .map(|primitive| index_count(document, &primitive) / 2)
        .sum()
}

fn surface_triangle_count(document: &Value) -> u64 {
    document["meshes"]
        .as_array()
        .unwrap()
        .iter()
        .flat_map(|mesh| primitives(mesh, 4))
        .map(|primitive| index_count(document, &primitive) / 3)
        .sum()
}

fn node_surface_triangle_count(document: &Value, node_index: usize) -> u64 {
    let Some(mesh_index) = document["nodes"][node_index]["mesh"].as_u64() else {
        return 0;
    };
    primitives(&document["meshes"][mesh_index as usize], 4)
        .iter()
        .map(|primitive| index_count(document, primitive) / 3)
        .sum()
}

fn between<'a>(text: &'a str, open: &str, close: &str) -> Vec<&'a str> {
    text.split(open).skip(1).map(|rest| rest.split(close).next().unwrap()).collect()
}

fn threemf_object_names(model: &str) -> Vec<String> {
    between(model, "<object ", ">")
        .into_iter()
        .map(|tag| between(tag, "name=\"", "\"")[0].to_string())
        .collect()
}

fn threemf_owners(model: &str) -> Vec<Value> {
    between(model, "<metadata name=\"openrscad:semanticOwners\" preserve=\"true\">", "</metadata>")
        .into_iter()
        .map(|text| parsed(&text.replace("&quot;", "\"").replace("&lt;", "<").replace("&gt;", ">")))
        .collect()
}

/// Counts the angles between faces, which only the search for edges measures.
struct Tally(Rc<Cell<usize>>);

impl Arithmetic for Tally {
    fn apply(&mut self, op: NumOp, x: u64, y: u64) -> u64 {
        if matches!(op, NumOp::ToDegrees) {
            self.0.set(self.0.get() + 1);
        }
        Unit.apply(op, x, y)
    }

    fn write(&mut self, op: TextOp, x: u64, y: u64) -> String {
        Unit.write(op, x, y)
    }
}

fn angles_measured(structured: &StructuredMesh, options: &Export3DOptions) -> usize {
    let tally = Rc::new(Cell::new(0));
    serialize_glb(&mut Calc::new(Tally(tally.clone())), structured, options).unwrap();
    tally.get()
}

fn edge_group_count(structured: &StructuredMesh) -> usize {
    compile_glb(&mut calc(), structured).components.iter().map(|c| c.edge_groups.len()).sum()
}

#[test]
fn threemf_rejects_open_physical_objects() {
    let scene = AttributedMesh {
        mesh: Mesh {
            verts: vec![p3(0.0, 0.0, 0.0), p3(1.0, 0.0, 0.0), p3(0.0, 1.0, 0.0)],
            tris: vec![Triangle { a: 0, b: 1, c: 2 }],
        },
        surface_ids: vec![SurfaceAttributionId(0)],
        source_face_ids: vec![0],
    };
    let selection = MeshSelection {
        triangles: vec![0],
        bounds: Bounds3 {
            min: p3(0.0, 0.0, 0.0),
            max: p3(1.0, 1.0, 0.0),
        },
        provenance: Vec::new(),
        attribution: AttributionStatus::Exact,
        geometry_hash: 0,
    };
    let structured = StructuredMesh {
        aggregate: scene.mesh.duplicate(),
        exact: scene,
        include_display_modes: false,
        solid_components: vec![selection],
        attributions: vec![SurfaceAttribution {
            rgba: rgba(1.0, 0.0, 0.0, 1.0),
            mode: DisplayMode::Solid,
            provenance: Vec::new(),
            contributors: Vec::new(),
            contribution: ContributionKind::Boundary,
            status: AttributionStatus::Exact,
        }],
    };

    let error = serialize_3mf(&mut calc(), &structured, &Export3DOptions::default()).unwrap_err();
    assert!(matches!(error, GeomError::NonManifold(_)));
}

#[test]
fn touching_authored_modules_emit_exact_nested_semantic_nodes() {
    let node = authored(
        "assembly",
        10,
        Node::Union(vec![
            authored(
                "lower_frame",
                20,
                Node::Cube {
                    size: p3(10.0, 10.0, 2.0),
                    center: false,
                },
            ),
            authored(
                "roof_frame",
                30,
                Node::Translate {
                    v: p3(0.0, 0.0, 2.0),
                    child: Box::new(Node::Cube {
                        size: p3(10.0, 10.0, 2.0),
                        center: false,
                    }),
                },
            ),
        ]),
    );
    let structured = rendered(&node);
    assert_eq!(structured.exact.mesh.tris.len(), 20);

    let bytes = serialize_glb(&mut calc(), &structured, &Export3DOptions::default()).unwrap();
    let document = glb_json(&bytes);
    assert_eq!(surface_triangle_count(&document), 20);
    assert_eq!(document["scenes"][0]["nodes"], Value::from(vec![0]));
    assert_eq!(document["nodes"][0]["name"], "Assembly");
    assert_eq!(document["nodes"][0]["children"], Value::from(vec![1, 2]));
    assert_eq!(document["nodes"][1]["name"], "Lower Frame");
    assert_eq!(document["nodes"][2]["name"], "Roof Frame");
    assert_eq!(
        document["nodes"][2]["extras"]["openrscad"]["moduleName"],
        "roof_frame"
    );
    assert_eq!(
        document["nodes"][2]["extras"]["openrscad"]["callSite"],
        parsed(r#"{ "sourceId": 0, "source": "<main>", "start": 30, "end": 40 }"#)
    );
}

#[test]
fn overlapping_structural_siblings_keep_complete_authored_geometry() {
    let node = Node::Group(vec![
        authored(
            "left_part",
            10,
            Node::Cube {
                size: p3(2.0, 2.0, 2.0),
                center: false,
            },
        ),
        authored(
            "right_part",
            20,
            Node::Translate {
                v: p3(1.0, 0.0, 0.0),
                child: Box::new(Node::Cube {
                    size: p3(2.0, 2.0, 2.0),
                    center: false,
                }),
            },
        ),
    ]);
    let structured = rendered(&node);
    let document = glb_json(&serialize_glb(&mut calc(), &structured, &Export3DOptions::default()).unwrap());
    let names: Vec<_> = document["nodes"]
        .as_array()
        .unwrap()
        .iter()
        .map(|node| node["name"].as_str().unwrap())
        .collect();

    assert_eq!(names, ["Left Part", "Right Part"]);
    assert_eq!(node_surface_triangle_count(&document, 0), 12);
    assert_eq!(node_surface_triangle_count(&document, 1), 12);
    assert!((volume(&structured.aggregate) - 12.0).abs() < 1e-6);

    let model = serialize_3mf(&mut calc(), &structured, &Export3DOptions::default()).unwrap();
    assert_eq!(threemf_object_names(&model), ["Left Part", "Right Part"]);
}

#[test]
fn smooth_sphere_has_no_tessellation_feature_lines() {
    let structured = rendered(&Node::Sphere {
        r: b(10.0),
        frags: FragmentSpec {
            fn_: b(32.0),
            ..plain()
        },
    });
    let document = glb_json(
        &serialize_glb(&mut calc(), 
            &structured,
            &Export3DOptions {
                include_edges: true,
                ..Export3DOptions::default()
            },
        )
        .unwrap(),
    );
    let primitives = document["meshes"][0]["primitives"].as_array().unwrap();

    assert_eq!(primitives.len(), 1);
    assert_eq!(primitives[0]["mode"], 4);
}

#[test]
fn export_omits_preview_policy_while_render_glb_keeps_factual_display_modes() {
    let node = Node::Group(vec![
        Node::Highlight(Box::new(Node::Cube {
            size: p3(1.0, 1.0, 1.0),
            center: false,
        })),
        Node::Background(Box::new(Node::Translate {
            v: p3(0.0, 0.0, 2.0),
            child: Box::new(Node::Cube {
                size: p3(1.0, 1.0, 1.0),
                center: false,
            }),
        })),
    ]);
    let export =
        glb_json(&serialize_glb(&mut calc(), &rendered(&node), &Export3DOptions::default()).unwrap());
    let render = shown(&node);
    let render = glb_json(&serialize_glb(&mut calc(), &render, &Export3DOptions::default()).unwrap());

    assert_eq!(surface_triangle_count(&export), 12);
    assert!(export["meshes"][0]["primitives"][0]["extras"].is_null());
    let modes: BTreeSet<_> = render["meshes"]
        .as_array()
        .unwrap()
        .iter()
        .flat_map(|mesh| mesh["primitives"].as_array().unwrap())
        .map(|primitive| {
            primitive["extras"]["openrscad"]["displayMode"]
                .as_str()
                .unwrap()
        })
        .collect();
    assert_eq!(modes, BTreeSet::from(["background", "highlight"]));
}

#[test]
fn glb_vendor_contract_is_declared_experimental_version_one() {
    let document = glb_json(&serialize_glb(&mut calc(), &two_cubes(), &Export3DOptions::default()).unwrap());

    assert_eq!(document["asset"]["extras"]["openrscad"]["schemaVersion"], 1);
    assert_eq!(
        document["asset"]["extras"]["openrscad"]["status"],
        "experimental"
    );
    assert_eq!(
        document["materials"][0]["pbrMetallicRoughness"]["metallicFactor"],
        0.1
    );
    assert_eq!(
        document["materials"][0]["pbrMetallicRoughness"]["roughnessFactor"],
        0.6
    );
    assert_eq!(document["materials"][0]["doubleSided"], true);
    assert_eq!(document["materials"][0]["name"], "#F5A523FF Material");
}

#[test]
fn degenerate_faces_still_export_unit_normals() {
    let frags = FragmentSpec {
        fn_: b(48.0),
        ..plain()
    };
    let structured = rendered(&Node::LinearExtrude {
        height: b(2.0),
        center: false,
        twist: b(0.0),
        scale: p2(1.0, 1.0),
        slices: 1,
        child: Box::new(Node::Hull(vec![Node::Projection {
            cut: true,
            child: Box::new(Node::Sphere { r: b(8.0), frags }),
        }])),
    });
    let bytes = exported(&structured, &Export3DOptions::default());
    let document = glb_json(&bytes);

    let json_length = u32::from_le_bytes(bytes[12..16].try_into().unwrap()) as usize;
    let binary = &bytes[20 + json_length + 8..];
    let mut checked = 0;
    for mesh in document["meshes"].as_array().unwrap() {
        for primitive in mesh["primitives"].as_array().unwrap() {
            let Some(accessor_index) = primitive["attributes"]["NORMAL"].as_u64() else {
                continue;
            };
            let accessor = &document["accessors"][accessor_index as usize];
            let view =
                &document["bufferViews"][accessor["bufferView"].as_u64().unwrap() as usize];
            let start = view["byteOffset"].as_u64().unwrap_or(0) as usize;
            for index in 0..accessor["count"].as_u64().unwrap() as usize {
                let at = start + index * 12;
                let component = |offset: usize| {
                    f32::from_le_bytes(binary[at + offset..at + offset + 4].try_into().unwrap())
                        as f64
                };
                let length =
                    (component(0).powi(2) + component(4).powi(2) + component(8).powi(2)).sqrt();
                assert!(
                    (length - 1.0).abs() < 1e-5,
                    "normal {index} has length {length}"
                );
                checked += 1;
            }
        }
    }
    assert!(checked > 0);
}

#[test]
fn a_model_that_renders_to_nothing_exports_a_valid_empty_document() {
    let structured = rendered(&Node::Difference(vec![
        Node::Cube {
            size: p3(1.0, 1.0, 1.0),
            center: true,
        },
        Node::Cube {
            size: p3(4.0, 4.0, 4.0),
            center: true,
        },
    ]));
    let options = Export3DOptions {
        include_edges: true,
        ..Export3DOptions::default()
    };
    let bytes = exported(&structured, &options);
    let document = glb_json(&bytes);

    for key in ["accessors", "bufferViews", "buffers", "meshes", "nodes"] {
        assert!(
            document.get(key).is_none(),
            "{key} must be omitted, not empty"
        );
    }
    assert!(document["scenes"][0].get("nodes").is_none());
    assert_eq!(document["scene"], 0);
    let json_length = u32::from_le_bytes(bytes[12..16].try_into().unwrap()) as usize;
    assert_eq!(bytes.len(), 12 + 8 + json_length);
}

#[test]
fn smooth_extrusions_do_not_emit_tessellation_edges() {
    let circle = || Node::Circle {
        r: b(10.0),
        frags: FragmentSpec {
            fn_: b(16.0),
            ..plain()
        },
    };
    let linear = rendered(&Node::LinearExtrude {
        height: b(10.0),
        center: false,
        twist: b(0.0),
        scale: p2(1.0, 1.0),
        slices: 1,
        child: Box::new(circle()),
    });
    let revolved = rendered(&Node::RotateExtrude {
        angle: b(360.0),
        frags: FragmentSpec {
            fn_: b(16.0),
            ..plain()
        },
        child: Box::new(Node::Translate {
            v: p3(20.0, 0.0, 0.0),
            child: Box::new(circle()),
        }),
    });
    let options = Export3DOptions {
        include_edges: true,
        ..Export3DOptions::default()
    };

    assert_eq!(
        line_segment_count(&glb_json(&serialize_glb(&mut calc(), &linear, &options).unwrap())),
        32
    );
    assert_eq!(
        line_segment_count(&glb_json(&serialize_glb(&mut calc(), &revolved, &options).unwrap())),
        0
    );
}

#[test]
fn cylinder_edges_are_only_cap_boundaries() {
    let structured = rendered(&Node::Cylinder {
        h: b(10.0),
        r1: b(4.0),
        r2: b(4.0),
        center: false,
        frags: FragmentSpec {
            fn_: b(16.0),
            ..plain()
        },
    });
    let document = glb_json(
        &serialize_glb(&mut calc(), 
            &structured,
            &Export3DOptions {
                include_edges: true,
                ..Export3DOptions::default()
            },
        )
        .unwrap(),
    );

    assert_eq!(line_segment_count(&document), 32);
}

fn extruded(child: Node, height: f64) -> Node {
    Node::LinearExtrude {
        height: b(height),
        center: false,
        twist: b(0.0),
        scale: p2(1.0, 1.0),
        slices: 1,
        child: Box::new(child),
    }
}

fn edged_line_count(node: &Node) -> u64 {
    let options = Export3DOptions {
        include_edges: true,
        ..Export3DOptions::default()
    };
    line_segment_count(&glb_json(
        &serialize_glb(&mut calc(), &rendered(node), &options).unwrap(),
    ))
}

fn circle(radius: f64) -> Node {
    Node::Circle {
        r: b(radius),
        frags: FragmentSpec {
            fn_: b(48.0),
            ..plain()
        },
    }
}

#[test]
fn extruded_annulus_draws_both_rims() {
    let annulus = Node::Difference(vec![circle(10.0), circle(5.0)]);

    assert_eq!(edged_line_count(&extruded(annulus, 4.0)), 192);
}

#[test]
fn extruded_disc_draws_only_its_rims() {
    assert_eq!(edged_line_count(&extruded(circle(10.0), 4.0)), 96);
}

#[test]
fn extruded_hexagon_keeps_every_vertical_edge() {
    let hexagon = Node::Circle {
        r: b(10.0),
        frags: FragmentSpec {
            fn_: b(6.0),
            ..plain()
        },
    };

    assert_eq!(edged_line_count(&extruded(hexagon, 20.0)), 12);
}

#[test]
fn flush_union_draws_no_seam() {
    let stacked = Node::Union(vec![
        Node::Cube {
            size: p3(20.0, 20.0, 10.0),
            center: false,
        },
        Node::Translate {
            v: p3(0.0, 0.0, 10.0),
            child: Box::new(Node::Cube {
                size: p3(20.0, 20.0, 10.0),
                center: false,
            }),
        },
    ]);

    assert_eq!(edged_line_count(&stacked), 16);
}

fn feature_segments(structured: &StructuredMesh) -> Vec<[[f64; 3]; 2]> {
    let compiled = compile_glb(&mut calc(), structured);
    let mut segments: BTreeMap<[[u64; 3]; 2], [[f64; 3]; 2]> = BTreeMap::new();
    for component in &compiled.components {
        for group in &component.edge_groups {
            let exact = &structured.exact;
            let list = &group.triangles;
            for edge in feature_edges(&mut calc(), &exact.mesh, &exact.source_face_ids, list) {
                let points = [edge.a, edge.b].map(|vertex| {
                    let p = exact.mesh.verts[vertex as usize];
                    [f(p.x), f(p.y), f(p.z)]
                });
                let mut key = points.map(|point| point.map(|value| value.to_bits()));
                key.sort_unstable();
                segments.insert(key, points);
            }
        }
    }
    segments.into_values().collect()
}

fn stroke(from: [f64; 2], to: [f64; 2], diameter: f64, height: f64) -> Node {
    let end = |at: [f64; 2]| Node::Translate {
        v: p3(at[0], at[1], 0.0),
        child: Box::new(Node::Cylinder {
            h: b(height),
            r1: b(diameter / 2.0),
            r2: b(diameter / 2.0),
            center: false,
            frags: FragmentSpec {
                fa: b(2.0),
                fs: b(0.4),
                ..plain()
            },
        }),
    };
    Node::Hull(vec![end(from), end(to)])
}

#[test]
fn hulled_letter_draws_a_closed_top_rim_and_no_wall_seams() {
    let letter = Node::Union(vec![
        stroke([-9.0, -13.0], [0.0, 11.0], 5.0, 3.1),
        stroke([9.0, -13.0], [0.0, 11.0], 5.0, 3.1),
        stroke([-5.5, -3.0], [5.5, -3.0], 4.0, 3.1),
    ]);
    let structured = rendered(&Node::Union(vec![
        Node::Translate {
            v: p3(-20.0, -20.0, 0.0),
            child: Box::new(Node::Cube {
                size: p3(40.0, 40.0, 6.0),
                center: false,
            }),
        },
        Node::Translate {
            v: p3(0.0, 0.0, 5.9),
            child: Box::new(letter),
        },
    ]));
    let segments = feature_segments(&structured);

    let on_plate_wall = |segment: &[[f64; 3]; 2]| {
        segment.iter().all(|point| {
            (point[0].abs() - 20.0).abs() < 1e-6 || (point[1].abs() - 20.0).abs() < 1e-6
        })
    };
    let in_plane = |segment: &[[f64; 3]; 2], z: f64| {
        segment.iter().all(|point| (point[2] - z).abs() < 1e-6)
    };
    let length = |segment: &[[f64; 3]; 2]| -> f64 {
        (0..3)
            .map(|axis| (segment[1][axis] - segment[0][axis]).powi(2))
            .sum::<f64>()
            .sqrt()
    };
    let total = |group: &[&[[f64; 3]; 2]]| group.iter().copied().map(length).sum::<f64>();

    let base: Vec<_> = segments
        .iter()
        .filter(|segment| in_plane(segment, 6.0) && !on_plate_wall(segment))
        .collect();
    let rim: Vec<_> = segments
        .iter()
        .filter(|segment| in_plane(segment, 9.0))
        .collect();

    let mut degrees: BTreeMap<[u64; 3], usize> = BTreeMap::new();
    for segment in &rim {
        for point in segment.iter() {
            *degrees
                .entry(point.map(|value| (value + 0.0).to_bits()))
                .or_default() += 1;
        }
    }
    assert!(
        degrees.values().all(|degree| *degree == 2),
        "top rim is not a set of closed loops: {:?}",
        degrees.values().filter(|degree| **degree != 2).count()
    );
    let (base_length, rim_length) = (total(&base), total(&rim));
    assert!(
        (rim_length - base_length).abs() / base_length < 0.02,
        "top rim {rim_length} mm should match the base outline {base_length} mm"
    );

    let mut junctions: Vec<i64> = segments
        .iter()
        .filter(|segment| {
            (segment[0][2] - segment[1][2]).abs() > 1e-6 && !on_plate_wall(segment)
        })
        .map(|segment| (segment[0][0] * 1e3).round() as i64)
        .collect();
    junctions.sort_unstable();
    assert_eq!(junctions, [-3333, -1833, 0, 1833, 3333]);
}

#[test]
fn one_authored_module_with_two_colors_emits_one_mesh_with_two_primitives() {
    let node = authored(
        "painted_part",
        10,
        Node::Union(vec![
            Node::Color {
                rgba: rgba(1.0, 0.0, 0.0, 1.0),
                child: Box::new(Node::Cube {
                    size: p3(1.0, 1.0, 1.0),
                    center: false,
                }),
            },
            Node::Color {
                rgba: rgba(0.0, 0.0, 1.0, 1.0),
                child: Box::new(Node::Translate {
                    v: p3(0.0, 0.0, 2.0),
                    child: Box::new(Node::Cube {
                        size: p3(1.0, 1.0, 1.0),
                        center: false,
                    }),
                }),
            },
        ]),
    );
    let document =
        glb_json(&serialize_glb(&mut calc(), &rendered(&node), &Export3DOptions::default()).unwrap());

    assert_eq!(document["nodes"].as_array().unwrap().len(), 1);
    assert_eq!(document["nodes"][0]["name"], "Painted Part");
    assert_eq!(document["meshes"].as_array().unwrap().len(), 1);
    assert_eq!(
        document["meshes"][0]["primitives"]
            .as_array()
            .unwrap()
            .len(),
        2
    );
}

#[test]
fn authored_parent_can_own_direct_geometry_and_children_without_duplicate_triangles() {
    let node = authored(
        "assembly",
        10,
        Node::Union(vec![
            Node::Cube {
                size: p3(1.0, 1.0, 1.0),
                center: false,
            },
            authored(
                "cap",
                20,
                Node::Translate {
                    v: p3(0.0, 0.0, 1.0),
                    child: Box::new(Node::Cube {
                        size: p3(1.0, 1.0, 1.0),
                        center: false,
                    }),
                },
            ),
        ]),
    );
    let structured = rendered(&node);
    let document = glb_json(&serialize_glb(&mut calc(), &structured, &Export3DOptions::default()).unwrap());

    assert_eq!(document["nodes"][0]["name"], "Assembly");
    assert!(document["nodes"][0]["mesh"].is_number());
    assert_eq!(document["nodes"][0]["children"], Value::from(vec![1]));
    assert_eq!(document["nodes"][1]["name"], "Cap");
    assert_eq!(
        surface_triangle_count(&document),
        structured.exact.mesh.tris.len() as u64
    );
}

#[test]
fn ownerless_geometry_uses_deterministic_spatial_fallback_names() {
    let document = glb_json(&serialize_glb(&mut calc(), &two_cubes(), &Export3DOptions::default()).unwrap());

    assert_eq!(document["scenes"][0]["nodes"], Value::from(vec![0, 1]));
    assert_eq!(document["nodes"][0]["name"], "#F5A523FF Shape 1");
    assert_eq!(document["nodes"][1]["name"], "#F5A523FF Shape 2");
    assert!(document["nodes"][0]["extras"]["openrscad"]["moduleName"].is_null());
}

#[test]
fn duplicate_authored_siblings_are_source_ordered_while_same_call_site_collapses() {
    let cube = || Node::Cube {
        size: p3(1.0, 1.0, 1.0),
        center: false,
    };
    let node = authored(
        "assembly",
        10,
        Node::Union(vec![
            authored("bench", 30, cube()),
            authored(
                "bench",
                20,
                Node::Translate {
                    v: p3(0.0, 0.0, 2.0),
                    child: Box::new(cube()),
                },
            ),
            authored(
                "arch_loop",
                40,
                Node::Translate {
                    v: p3(0.0, 0.0, 4.0),
                    child: Box::new(cube()),
                },
            ),
            authored(
                "arch_loop",
                40,
                Node::Translate {
                    v: p3(0.0, 0.0, 6.0),
                    child: Box::new(cube()),
                },
            ),
        ]),
    );
    let document =
        glb_json(&serialize_glb(&mut calc(), &rendered(&node), &Export3DOptions::default()).unwrap());
    let children = document["nodes"][0]["children"].as_array().unwrap();
    let names: Vec<_> = children
        .iter()
        .map(|child| {
            document["nodes"][child.as_u64().unwrap() as usize]["name"]
                .as_str()
                .unwrap()
        })
        .collect();

    assert_eq!(names, ["Bench 1", "Bench 2", "Arch Loop"]);
    let arch = children[2].as_u64().unwrap() as usize;
    let mesh = document["nodes"][arch]["mesh"].as_u64().unwrap() as usize;
    let accessor = document["meshes"][mesh]["primitives"][0]["indices"]
        .as_u64()
        .unwrap() as usize;
    assert_eq!(document["accessors"][accessor]["count"], 72);
}

#[test]
fn threemf_names_unchanged_physical_solids_from_authored_provenance() {
    let roof = authored(
        "roof_frame",
        20,
        Node::Union(vec![
            Node::Cube {
                size: p3(1.0, 1.0, 1.0),
                center: false,
            },
            Node::Translate {
                v: p3(0.0, 0.0, 2.0),
                child: Box::new(Node::Cube {
                    size: p3(1.0, 1.0, 1.0),
                    center: false,
                }),
            },
        ]),
    );
    let structured = rendered(&roof);
    assert_eq!(structured.solid_components.len(), 2);
    let model = serialize_3mf(&mut calc(), &structured, &Export3DOptions::default()).unwrap();

    assert_eq!(
        threemf_object_names(&model),
        ["Roof Frame 1", "Roof Frame 2"]
    );
    assert!(model.contains("xmlns:openrscad=\"https://openrscad.com/3mf/metadata/1\""));
    for owners in threemf_owners(&model) {
        assert_eq!(owners[0][0]["moduleName"], "roof_frame");
        assert_eq!(owners[0][0]["callSite"]["start"], 20);
    }
}

#[test]
fn threemf_fused_sibling_modules_use_their_common_authored_owner() {
    let node = authored(
        "assembly",
        10,
        Node::Union(vec![
            authored(
                "lower_frame",
                20,
                Node::Cube {
                    size: p3(10.0, 10.0, 2.0),
                    center: false,
                },
            ),
            authored(
                "roof_frame",
                30,
                Node::Translate {
                    v: p3(0.0, 0.0, 2.0),
                    child: Box::new(Node::Cube {
                        size: p3(10.0, 10.0, 2.0),
                        center: false,
                    }),
                },
            ),
        ]),
    );
    let structured = rendered(&node);
    assert_eq!(structured.solid_components.len(), 1);
    let model = serialize_3mf(&mut calc(), &structured, &Export3DOptions::default()).unwrap();

    assert_eq!(threemf_object_names(&model), ["Assembly Solid"]);
}

#[test]
fn threemf_fused_roots_without_common_owner_use_shape_fallback() {
    let node = Node::Union(vec![
        authored(
            "left_part",
            10,
            Node::Cube {
                size: p3(1.0, 1.0, 1.0),
                center: false,
            },
        ),
        authored(
            "right_part",
            20,
            Node::Translate {
                v: p3(0.0, 0.0, 1.0),
                child: Box::new(Node::Cube {
                    size: p3(1.0, 1.0, 1.0),
                    center: false,
                }),
            },
        ),
    ]);
    let structured = rendered(&node);
    assert_eq!(structured.solid_components.len(), 1);
    let model = serialize_3mf(&mut calc(), &structured, &Export3DOptions::default()).unwrap();

    assert_eq!(threemf_object_names(&model), ["Shape"]);
    let owners = &threemf_owners(&model)[0];
    assert_eq!(owners.as_array().unwrap().len(), 2);
}

#[test]
fn structured_3mf_has_one_object_per_spatial_solid() {
    let structured = two_cubes();
    let model = serialize_3mf(&mut calc(), &structured, &Export3DOptions::default()).unwrap();
    assert_eq!(model.matches("<object ").count(), 2);
    assert_eq!(model.matches("<item ").count(), 2);
    assert_eq!(
        serialize_3mf(&mut calc(), &structured, &Export3DOptions::default()).unwrap(),
        model
    );
}

#[test]
fn invalid_glb_scale_is_typed_error() {
    let options = Export3DOptions {
        source_unit_to_meters: b(0.0),
        ..Export3DOptions::default()
    };
    assert!(serialize_glb(&mut calc(), &two_cubes(), &options).is_err());
}

#[test]
fn optional_edges_are_owner_local_deterministic_and_do_no_disabled_work() {
    let structured = two_cubes();
    let plain = serialize_glb(&mut calc(), &structured, &Export3DOptions::default()).unwrap();
    assert_eq!(angles_measured(&structured, &Export3DOptions::default()), 0);
    let plain = glb_json(&plain);
    assert_eq!(plain["nodes"].as_array().unwrap().len(), 2);
    assert!(plain["meshes"]
        .as_array()
        .unwrap()
        .iter()
        .all(|mesh| mesh["primitives"].as_array().unwrap().len() == 1));

    let options = Export3DOptions {
        include_edges: true,
        ..Export3DOptions::default()
    };
    let edged = serialize_glb(&mut calc(), &structured, &options).unwrap();
    assert!(angles_measured(&structured, &options) > 0);
    assert_eq!(edge_group_count(&structured), 2);
    assert_eq!(serialize_glb(&mut calc(), &structured, &options).unwrap(), edged);
    let edged = glb_json(&edged);
    assert_eq!(edged["nodes"].as_array().unwrap().len(), 2);
    for mesh in edged["meshes"].as_array().unwrap() {
        let primitives = mesh["primitives"].as_array().unwrap();
        assert_eq!(primitives.len(), 2);
        assert_eq!(primitives[0]["mode"], 4);
        assert_eq!(primitives[1]["mode"], 1);
        let line_accessor = primitives[1]["indices"].as_u64().unwrap() as usize;
        assert_eq!(edged["accessors"][line_accessor]["count"], 24);
    }
}

#[test]
fn multicolor_owner_derives_one_edge_group_after_all_surface_primitives() {
    let node = authored(
        "painted_part",
        10,
        Node::Union(vec![
            Node::Color {
                rgba: rgba(1.0, 0.0, 0.0, 1.0),
                child: Box::new(Node::Cube {
                    size: p3(1.0, 1.0, 1.0),
                    center: false,
                }),
            },
            Node::Color {
                rgba: rgba(0.0, 0.0, 1.0, 1.0),
                child: Box::new(Node::Translate {
                    v: p3(0.0, 0.0, 2.0),
                    child: Box::new(Node::Cube {
                        size: p3(1.0, 1.0, 1.0),
                        center: false,
                    }),
                }),
            },
        ]),
    );
    let document = glb_json(
        &serialize_glb(&mut calc(), 
            &rendered(&node),
            &Export3DOptions {
                include_edges: true,
                ..Export3DOptions::default()
            },
        )
        .unwrap(),
    );

    assert_eq!(edge_group_count(&rendered(&node)), 1);
    assert_eq!(document["nodes"].as_array().unwrap().len(), 1);
    let primitives = document["meshes"][0]["primitives"].as_array().unwrap();
    assert_eq!(primitives.len(), 3);
    assert_eq!(primitives[0]["mode"], 4);
    assert_eq!(primitives[1]["mode"], 4);
    assert_eq!(primitives[2]["mode"], 1);
}

#[test]
fn booleans_draw_the_edges_of_a_pocket() {
    let node = Node::Difference(vec![
        Node::Cube { size: p3(4.0, 4.0, 4.0), center: false },
        Node::Translate {
            v: p3(1.0, 1.0, 2.0),
            child: Box::new(Node::Cube { size: p3(2.0, 2.0, 4.0), center: false }),
        },
    ]);
    assert_eq!(edged_line_count(&node), 24);
}

#[test]
fn hulled_balls_are_two_surfaces_and_a_band() {
    let ball = |x: f64, radius: f64| Node::Translate {
        v: p3(x, 0.0, 0.0),
        child: Box::new(Node::Sphere {
            r: b(radius),
            frags: FragmentSpec { fn_: b(24.0), ..plain() },
        }),
    };
    let structured = rendered(&Node::Hull(vec![ball(-10.0, 6.0), ball(10.0, 3.0)]));
    let patches: BTreeSet<_> = structured.exact.source_face_ids.iter().copied().collect();
    assert!(!patches.contains(&u64::MAX));
    assert_eq!(patches.len(), 3);
}
