use geo::{BooleanOps, LineString, MultiPolygon, Polygon};
use manifold_rust::manifold::Manifold;
use manifold_rust::types::{Error, MeshGL64};
use openrscad::clip::{Bop, Clip, PlaneLog};
use openrscad::components::components_for_triangles;
use openrscad::contours::Region;
use openrscad::error::GeomError;
use openrscad::extrude::{flat_mesh, linear_extrude, Draw};
use openrscad::faces::{polyhedron, EarLog, Ears};
use openrscad::flat::{render2d, Plane};
use openrscad::hull::convex_hull;
use openrscad::kernel::{all_points, balanced_reduce};
use openrscad::mesh::{Mesh, Point3, Triangle};
use openrscad::node::{FragmentSpec, Node, Point2};
use openrscad::num::{Arithmetic, Calc, NumOp, TextOp};
use openrscad::provenance::{ProvenanceFrame, SourceSpan};
use openrscad::relation::{
    relation_from_parts, AttributedMesh, RelationMesh, RelationParts, RunKeys, SurfaceAttributionId,
};
use openrscad::revolve::rotate_extrude;
use openrscad::runs::relation_buffers;
use openrscad::scene::{Geometry, Log, Scene};
use openrscad::slice::{silhouette, slice_z0};
use openrscad::solid::{partition, StructuredMesh};
use openrscad::structured::render_structured_with;
use openrscad::surfaces::{
    AttributionStatus, ContributionKind, DisplayMode, Rgba, SurfaceAttribution, SurfaceTable, UNCLASSIFIED_PATCH_ID,
};
use openrscad::tessellate::{cube, cylinder, sphere};
use std::collections::BTreeSet;

struct Unit;

fn f(b: u64) -> f64 {
    f64::from_bits(b)
}

fn s(b: u64) -> f32 {
    f32::from_bits(b as u32)
}

impl Arithmetic for Unit {
    fn apply(&mut self, op: NumOp, x: u64, y: u64) -> u64 {
        let (a, b) = (f(x), f(y));
        let one = |v: f64| v.to_bits();
        let single = |v: f32| v.to_bits() as u64;
        match op {
            NumOp::Add => one(a + b),
            NumOp::Sub => one(a - b),
            NumOp::Mul => one(a * b),
            NumOp::Div => one(a / b),
            NumOp::Rem => one(a % b),
            NumOp::Pow => one(libm::pow(a, b)),
            NumOp::Min => one(a.min(b)),
            NumOp::Max => one(a.max(b)),
            NumOp::Hypot => one(a.hypot(b)),
            NumOp::Atan2 => one(libm::atan2(a, b)),
            NumOp::Sqrt => one(a.sqrt()),
            NumOp::Exp => one(libm::exp(a)),
            NumOp::Ln => one(libm::log(a)),
            NumOp::Log10 => one(libm::log10(a)),
            NumOp::Floor => one(a.floor()),
            NumOp::Ceil => one(a.ceil()),
            NumOp::Round => one(a.round()),
            NumOp::Sin => one(libm::sin(a)),
            NumOp::Cos => one(libm::cos(a)),
            NumOp::Tan => one(libm::tan(a)),
            NumOp::Asin => one(libm::asin(a)),
            NumOp::Acos => one(libm::acos(a)),
            NumOp::Atan => one(libm::atan(a)),
            NumOp::ToRadians => one(a.to_radians()),
            NumOp::ToDegrees => one(a.to_degrees()),
            NumOp::FromInt => one(x as f64),
            NumOp::ToInt => a as u64,
            NumOp::ToSingle => single(a as f32),
            NumOp::FromSingle => one(s(x) as f64),
            NumOp::SingleFromInt => single(x as f32),
            NumOp::SingleToInt => s(x) as u64,
            NumOp::SingleAdd => single(s(x) + s(y)),
            NumOp::SingleMul => single(s(x) * s(y)),
            NumOp::SingleDiv => single(s(x) / s(y)),
            NumOp::SinglePow => single(s(x).powf(s(y))),
            NumOp::SingleMin => single(s(x).min(s(y))),
            NumOp::SingleMax => single(s(x).max(s(y))),
            NumOp::SingleRound => single(s(x).round()),
        }
    }

    fn write(&mut self, op: TextOp, x: u64, _y: u64) -> String {
        match op {
            TextOp::Json => serde_json::to_string(&f(x)).unwrap(),
            TextOp::JsonSingle => serde_json::to_string(&s(x)).unwrap(),
            TextOp::Plain => format!("{}", f(x)),
            TextOp::Scientific => format!("{:e}", f(x)),
        }
    }
}

fn calc() -> Calc<Unit> {
    Calc::new(Unit)
}

fn b(v: f64) -> u64 {
    v.to_bits()
}

fn p3(x: f64, y: f64, z: f64) -> Point3 {
    Point3 { x: b(x), y: b(y), z: b(z) }
}

fn p2(x: f64, y: f64) -> Point2 {
    Point2 { x: b(x), y: b(y) }
}

struct Host;

impl Ears for Host {
    fn cut(&mut self, outline: &Vec<Point2>, holes: &Vec<usize>) -> Option<Vec<usize>> {
        let flat: Vec<f64> = outline.iter().flat_map(|p| [f(p.x), f(p.y)]).collect();
        earcutr::earcut(&flat, holes, 2).ok()
    }
}

fn ring(c: &Vec<Point2>) -> LineString<f64> {
    LineString::from(c.iter().map(|p| (f(p.x), f(p.y))).collect::<Vec<_>>())
}

fn multi(v: &Vec<Region>) -> MultiPolygon<f64> {
    MultiPolygon::new(
        v.iter().map(|r| Polygon::new(ring(&r.outer), r.holes.iter().map(ring).collect())).collect(),
    )
}

fn back(m: MultiPolygon<f64>) -> Vec<Region> {
    let line = |l: &LineString<f64>| l.0.iter().map(|p| p2(p.x, p.y)).collect::<Vec<_>>();
    m.into_iter()
        .map(|p| Region {
            outer: line(p.exterior()),
            holes: p.interiors().iter().map(line).collect(),
        })
        .collect()
}

impl Clip for Host {
    fn union(&mut self, a: &Vec<Region>, b: &Vec<Region>) -> Vec<Region> {
        back(multi(a).union(&multi(b)))
    }

    fn boolean(&mut self, a: &Vec<Region>, b: &Vec<Region>, op: Bop) -> Vec<Region> {
        match op {
            Bop::Difference => back(multi(a).difference(&multi(b))),
            Bop::Intersection => back(multi(a).intersection(&multi(b))),
        }
    }

    fn import(&mut self, _data: &Vec<u8>, _format: &str) -> Vec<Region> {
        Vec::new()
    }
}

struct Shop {
    keys: RunKeys,
}

fn checked(m: Manifold) -> Result<Manifold, GeomError> {
    match m.status() {
        Error::NoError => Ok(m),
        status => Err(GeomError::Kernel(status.to_string())),
    }
}

fn said(e: GeomError) -> String {
    match e {
        GeomError::Kernel(s) | GeomError::NonManifold(s) | GeomError::Invariant(s) => s,
    }
}

fn empty() -> Mesh {
    Mesh { verts: Vec::new(), tris: Vec::new() }
}

fn no_relation() -> RelationMesh {
    RelationMesh {
        attributed: AttributedMesh {
            mesh: empty(),
            surface_ids: Vec::new(),
            source_face_ids: Vec::new(),
        },
        backside: Vec::new(),
    }
}

fn solid(m: &Mesh) -> Result<Manifold, GeomError> {
    let mesh = MeshGL64 {
        num_prop: 3,
        vert_properties: m.verts.iter().flat_map(|p| [f(p.x), f(p.y), f(p.z)]).collect(),
        tri_verts: m.tris.iter().flat_map(|t| [t.a as u64, t.b as u64, t.c as u64]).collect(),
        ..MeshGL64::default()
    };
    checked(Manifold::from_mesh_gl64(&mesh))
}

fn unsolid(m: &Manifold) -> Mesh {
    let mesh = m.get_mesh_gl64(-1);
    let n = (mesh.num_prop as usize).max(3);
    Mesh {
        verts: mesh.vert_properties.chunks(n).map(|p| p3(p[0], p[1], p[2])).collect(),
        tris: mesh
            .tri_verts
            .chunks(3)
            .map(|t| Triangle { a: t[0] as u32, b: t[1] as u32, c: t[2] as u32 })
            .collect(),
    }
}

fn matrix(node: &Node) -> [[f64; 4]; 3] {
    let id = [[1.0, 0.0, 0.0, 0.0], [0.0, 1.0, 0.0, 0.0], [0.0, 0.0, 1.0, 0.0]];
    match node {
        Node::Translate { v, .. } => {
            let mut m = id;
            m[0][3] = f(v.x);
            m[1][3] = f(v.y);
            m[2][3] = f(v.z);
            m
        }
        Node::Scale { v, .. } => {
            let mut m = id;
            m[0][0] = f(v.x);
            m[1][1] = f(v.y);
            m[2][2] = f(v.z);
            m
        }
        Node::Rotate { deg, .. } => {
            let (sx, cx) = f(deg.x).to_radians().sin_cos();
            let (sy, cy) = f(deg.y).to_radians().sin_cos();
            let (sz, cz) = f(deg.z).to_radians().sin_cos();
            [
                [cy * cz, sx * sy * cz - cx * sz, cx * sy * cz + sx * sz, 0.0],
                [cy * sz, sx * sy * sz + cx * cz, cx * sy * sz - sx * cz, 0.0],
                [-sy, sx * cy, cx * cy, 0.0],
            ]
        }
        Node::Mirror { v, .. } => {
            let n = [f(v.x), f(v.y), f(v.z)];
            let l = n[0] * n[0] + n[1] * n[1] + n[2] * n[2];
            let mut m = id;
            if l > 0.0 {
                for i in 0..3 {
                    for j in 0..3 {
                        m[i][j] -= 2.0 * n[i] * n[j] / l;
                    }
                }
            }
            m
        }
        Node::MultMatrix { m: rows, .. } => {
            let mut m = id;
            for i in 0..3 {
                for j in 0..4 {
                    m[i][j] = f(rows[4 * i + j]);
                }
            }
            m
        }
        _ => id,
    }
}

fn carried(node: &Node, mesh: &Mesh) -> Mesh {
    let m = matrix(node);
    let det = m[0][0] * (m[1][1] * m[2][2] - m[1][2] * m[2][1])
        - m[0][1] * (m[1][0] * m[2][2] - m[1][2] * m[2][0])
        + m[0][2] * (m[1][0] * m[2][1] - m[1][1] * m[2][0]);
    let row = |r: &[f64; 4], p: &Point3| r[0] * f(p.x) + r[1] * f(p.y) + r[2] * f(p.z) + r[3];
    Mesh {
        verts: mesh.verts.iter().map(|p| p3(row(&m[0], p), row(&m[1], p), row(&m[2], p))).collect(),
        tris: mesh
            .tris
            .iter()
            .map(|t| if det < 0.0 { Triangle { a: t.a, b: t.c, c: t.b } } else { *t })
            .collect(),
    }
}

fn flat_node(node: &Node) -> bool {
    match node {
        Node::Square { .. } | Node::Circle { .. } | Node::Polygon { .. } => true,
        Node::Offset { .. } | Node::Projection { .. } => true,
        Node::Import { format, .. } => format == "svg" || format == "dxf",
        Node::Translate { child, .. }
        | Node::Rotate { child, .. }
        | Node::Scale { child, .. }
        | Node::Mirror { child, .. }
        | Node::MultMatrix { child, .. }
        | Node::Resize { child, .. }
        | Node::Color { child, .. }
        | Node::Provenance { child, .. } => flat_node(child),
        Node::Highlight(child) | Node::Background(child) => flat_node(child),
        Node::Union(v)
        | Node::Difference(v)
        | Node::Intersection(v)
        | Node::Hull(v)
        | Node::Minkowski(v)
        | Node::Group(v) => v.iter().any(flat_node),
        _ => false,
    }
}

impl Shop {
    fn new() -> Shop {
        Shop { keys: RunKeys::new() }
    }

    fn cast(&mut self, mesh: &RelationMesh) -> Result<Manifold, GeomError> {
        let buffers = relation_buffers(mesh, &mut self.keys)?;
        let mesh = MeshGL64 {
            num_prop: 3,
            vert_properties: buffers.vertices.iter().map(|v| f(*v)).collect(),
            tri_verts: buffers.triangles,
            merge_from_vert: buffers.merge_from_vert,
            merge_to_vert: buffers.merge_to_vert,
            run_index: buffers.run_index,
            run_original_id: buffers.run_original_id,
            ..MeshGL64::default()
        };
        checked(Manifold::from_mesh_gl64(&mesh))
    }

    fn uncast(&self, m: &Manifold) -> Result<RelationMesh, GeomError> {
        let mesh = m.get_mesh_gl64(-1);
        let parts = RelationParts {
            num_prop: mesh.num_prop as usize,
            vertex_properties: mesh.vert_properties.iter().map(|v| b(*v)).collect(),
            triangle_vertices: mesh.tri_verts,
            run_index: mesh.run_index,
            run_original_id: mesh.run_original_id,
            merge_from_vert: mesh.merge_from_vert,
            merge_to_vert: mesh.merge_to_vert,
            run_flags: mesh.run_flags,
        };
        relation_from_parts(&parts, &self.keys)
    }

    fn cast_all(&mut self, meshes: &Vec<RelationMesh>) -> Result<Vec<Manifold>, GeomError> {
        let mut out = Vec::new();
        for mesh in meshes.iter().filter(|m| !m.attributed.mesh.tris.is_empty()) {
            out.push(self.cast(mesh)?);
        }
        Ok(out)
    }

    fn joined(&mut self, meshes: &Vec<RelationMesh>) -> Result<RelationMesh, GeomError> {
        let all = self.cast_all(meshes)?;
        match balanced_reduce(all, |l: &Manifold, r: &Manifold| checked(l.union(r)))? {
            Some(m) => self.uncast(&m),
            None => Ok(no_relation()),
        }
    }

    fn cut(&mut self, base: &RelationMesh, tools: &Vec<RelationMesh>) -> Result<RelationMesh, GeomError> {
        if base.attributed.mesh.tris.is_empty() {
            return Ok(no_relation());
        }
        let base = self.cast(base)?;
        let all = self.cast_all(tools)?;
        let m = match balanced_reduce(all, |l: &Manifold, r: &Manifold| checked(l.union(r)))? {
            Some(tool) => checked(base.difference(&tool))?,
            None => base,
        };
        self.uncast(&m)
    }

    fn common(&mut self, meshes: &Vec<RelationMesh>) -> Result<RelationMesh, GeomError> {
        if meshes.iter().any(|m| m.attributed.mesh.tris.is_empty()) {
            return Ok(no_relation());
        }
        let all = self.cast_all(meshes)?;
        match balanced_reduce(all, |l: &Manifold, r: &Manifold| checked(l.intersection(r)))? {
            Some(m) => self.uncast(&m),
            None => Ok(no_relation()),
        }
    }

    fn meshes(&mut self, nodes: &Vec<Node>) -> Result<Vec<Mesh>, GeomError> {
        nodes.iter().map(|n| self.mesh(n)).collect()
    }

    fn fused(&mut self, nodes: &Vec<Node>) -> Result<Mesh, GeomError> {
        let mut all = Vec::new();
        for m in self.meshes(nodes)?.iter().filter(|m| !m.tris.is_empty()) {
            all.push(solid(m)?);
        }
        let r = balanced_reduce(all, |l: &Manifold, r: &Manifold| checked(l.union(r)))?;
        Ok(r.map_or(empty(), |m| unsolid(&m)))
    }

    fn settled_all(&mut self, nodes: &Vec<Node>) -> Result<Vec<Node>, GeomError> {
        nodes.iter().map(|n| self.settled(n)).collect()
    }

    fn settled_child(&mut self, child: &Node) -> Result<Box<Node>, GeomError> {
        Ok(Box::new(self.settled(child)?))
    }

    /// The same flat tree with every projection computed.
    fn settled(&mut self, node: &Node) -> Result<Node, GeomError> {
        Ok(match node {
            Node::Square { size, center } => Node::Square { size: *size, center: *center },
            Node::Circle { r, frags } => Node::Circle { r: *r, frags: *frags },
            Node::Polygon { points, paths } => {
                Node::Polygon { points: points.clone(), paths: paths.clone() }
            }
            Node::Import { data, format } => {
                Node::Import { data: data.clone(), format: format.clone() }
            }
            Node::Translate { v, child } => {
                Node::Translate { v: *v, child: self.settled_child(child)? }
            }
            Node::Rotate { deg, child } => {
                Node::Rotate { deg: *deg, child: self.settled_child(child)? }
            }
            Node::Scale { v, child } => Node::Scale { v: *v, child: self.settled_child(child)? },
            Node::Mirror { v, child } => Node::Mirror { v: *v, child: self.settled_child(child)? },
            Node::MultMatrix { m, child } => {
                Node::MultMatrix { m: m.clone(), child: self.settled_child(child)? }
            }
            Node::Resize { new, auto_x, auto_y, auto_z, child } => Node::Resize {
                new: *new,
                auto_x: *auto_x,
                auto_y: *auto_y,
                auto_z: *auto_z,
                child: self.settled_child(child)?,
            },
            Node::Offset { r, delta, chamfer, frags, child } => Node::Offset {
                r: *r,
                delta: *delta,
                chamfer: *chamfer,
                frags: *frags,
                child: self.settled_child(child)?,
            },
            Node::Color { child, .. } | Node::Provenance { child, .. } => self.settled(child)?,
            Node::Highlight(child) => self.settled(child)?,
            Node::Union(v) => Node::Union(self.settled_all(v)?),
            Node::Group(v) => Node::Group(self.settled_all(v)?),
            Node::Difference(v) => Node::Difference(self.settled_all(v)?),
            Node::Intersection(v) => Node::Intersection(self.settled_all(v)?),
            Node::Hull(v) => Node::Hull(self.settled_all(v)?),
            Node::Minkowski(v) => Node::Minkowski(self.settled_all(v)?),
            Node::Projection { cut, child } => {
                let mesh = self.mesh(child)?;
                let contours = if *cut {
                    slice_z0(&mut calc(), &mesh)
                } else {
                    silhouette(&mut calc(), &mut PlaneLog::new(), &mut Host, &mesh)
                };
                let mut points = Vec::new();
                let mut paths = Vec::new();
                for c in contours {
                    let first = points.len() as u32;
                    paths.push((first..first + c.len() as u32).collect());
                    points.extend(c);
                }
                Node::Polygon { points, paths: Some(paths) }
            }
            _ => Node::Empty,
        })
    }

    fn outline(&mut self, node: &Node) -> Result<Vec<Vec<Point2>>, GeomError> {
        let settled = self.settled(node)?;
        let mut p = Plane { host: Host, calc: calc(), ears: EarLog::new(), clips: PlaneLog::new() };
        Ok(render2d(&mut p, &settled))
    }

    fn mesh(&mut self, node: &Node) -> Result<Mesh, GeomError> {
        let fine = || GeomError::Invariant("too many vertices".to_string());
        if flat_node(node) {
            let c = self.outline(node)?;
            return flat_mesh(&mut calc(), &mut EarLog::new(), &mut Host, &c).ok_or_else(fine);
        }
        match node {
            Node::Cube { size, center } => Ok(cube(&mut calc(), *size, *center)),
            Node::Sphere { r, frags } => sphere(&mut calc(), *r, *frags).ok_or_else(fine),
            Node::Cylinder { h, r1, r2, center, frags } => {
                cylinder(&mut calc(), *h, *r1, *r2, *center, *frags).ok_or_else(fine)
            }
            Node::Polyhedron { points, faces } => {
                Ok(polyhedron(&mut calc(), &mut EarLog::new(), &mut Host, points, faces))
            }
            Node::Translate { child, .. }
            | Node::Rotate { child, .. }
            | Node::Scale { child, .. }
            | Node::Mirror { child, .. }
            | Node::MultMatrix { child, .. } => Ok(carried(node, &self.mesh(child)?)),
            Node::Color { child, .. } | Node::Provenance { child, .. } => self.mesh(child),
            Node::Highlight(child) => self.mesh(child),
            Node::Union(v) | Node::Group(v) => self.fused(v),
            Node::Difference(v) => {
                let mut all = self.meshes(v)?.into_iter();
                let base = match all.next() {
                    Some(m) if !m.tris.is_empty() => solid(&m)?,
                    _ => return Ok(empty()),
                };
                let mut tools = Vec::new();
                for m in all.filter(|m| !m.tris.is_empty()) {
                    tools.push(solid(&m)?);
                }
                match balanced_reduce(tools, |l: &Manifold, r: &Manifold| checked(l.union(r)))? {
                    Some(tool) => Ok(unsolid(&checked(base.difference(&tool))?)),
                    None => Ok(unsolid(&base)),
                }
            }
            Node::Intersection(v) => {
                let mut all = Vec::new();
                for m in self.meshes(v)? {
                    if m.tris.is_empty() {
                        return Ok(empty());
                    }
                    all.push(solid(&m)?);
                }
                let r = balanced_reduce(all, |l: &Manifold, r: &Manifold| checked(l.intersection(r)))?;
                Ok(r.map_or(empty(), |m| unsolid(&m)))
            }
            Node::Hull(v) => {
                let all = self.meshes(v)?;
                Ok(convex_hull(&mut calc(), &all_points(&all)))
            }
            Node::LinearExtrude { height, center, twist, scale, slices, child } => {
                let c = self.outline(child)?;
                let d = Draw {
                    height: *height,
                    center: *center,
                    twist: *twist,
                    scale: *scale,
                    slices: *slices,
                };
                linear_extrude(&mut calc(), &mut EarLog::new(), &mut Host, &c, d).ok_or_else(fine)
            }
            Node::RotateExtrude { angle, frags, child } => {
                let c = self.outline(child)?;
                rotate_extrude(&mut calc(), &c, *angle, *frags).ok_or_else(fine)
            }
            _ => Ok(empty()),
        }
    }
}

impl Geometry for Shop {
    fn union(&mut self, meshes: &Vec<RelationMesh>) -> Result<RelationMesh, String> {
        self.joined(meshes).map_err(said)
    }

    fn difference(
        &mut self,
        base: &RelationMesh,
        tools: &Vec<RelationMesh>,
    ) -> Result<RelationMesh, String> {
        self.cut(base, tools).map_err(said)
    }

    fn intersection(&mut self, meshes: &Vec<RelationMesh>) -> Result<RelationMesh, String> {
        self.common(meshes).map_err(said)
    }

    fn render(&mut self, node: &Node) -> Result<Mesh, GeomError> {
        self.mesh(node)
    }

    fn moved(&mut self, node: &Node, mesh: &Mesh) -> Mesh {
        carried(node, mesh)
    }

    fn is_2d(&mut self, node: &Node) -> bool {
        flat_node(node)
    }

    fn decode_3mf(&mut self, _data: &Vec<u8>) -> Option<(Mesh, Vec<Option<Rgba>>)> {
        None
    }

    fn reports(&mut self) -> (Vec<String>, Vec<String>) {
        (Vec::new(), Vec::new())
    }
}

fn plain() -> FragmentSpec {
    FragmentSpec { fn_: b(0.0), fa: b(12.0), fs: b(2.0) }
}

fn rgba(r: f32, g: f32, b: f32, a: f32) -> Rgba {
    Rgba { r: r.to_bits(), g: g.to_bits(), b: b.to_bits(), a: a.to_bits() }
}

fn default_color() -> Rgba {
    rgba(245.0 / 255.0, 165.0 / 255.0, 35.0 / 255.0, 1.0)
}

fn stage(shown: bool) -> Scene<Shop, Unit> {
    Scene {
        host: Shop::new(),
        log: Log::new(),
        calc: calc(),
        table: SurfaceTable::new(),
        next: 0,
        errors: Vec::new(),
        shown,
    }
}

fn rendered(node: &Node) -> StructuredMesh {
    render_structured_with(&mut stage(false), default_color(), node).unwrap().mesh
}

fn volume(m: &Mesh) -> f64 {
    let at = |i: u32| {
        let p = m.verts[i as usize];
        [f(p.x), f(p.y), f(p.z)]
    };
    m.tris
        .iter()
        .map(|t| {
            let (p, q, r) = (at(t.a), at(t.b), at(t.c));
            p[0] * (q[1] * r[2] - q[2] * r[1]) + p[1] * (q[2] * r[0] - q[0] * r[2])
                + p[2] * (q[0] * r[1] - q[1] * r[0])
        })
        .sum::<f64>()
        / 6.0
}

fn color(rgba: Rgba, child: Node) -> Node {
    Node::Color { rgba, child: Box::new(child) }
}

fn cube_at(z: f64) -> Node {
    Node::Translate {
        v: p3(0.0, 0.0, z),
        child: Box::new(Node::Cube { size: p3(1.0, 1.0, 1.0), center: false }),
    }
}

#[test]
fn relation_output_merge_metadata_restores_indexed_topology() {
    let mut keys = RunKeys::new();
    let run = keys.intern(SurfaceAttributionId(0), 7).unwrap();
    let relation = relation_from_parts(
        &RelationParts {
            num_prop: 3,
            vertex_properties: [
                0.0, 0.0, 0.0, 1.0, 0.0, 0.0, 0.0, 1.0, 0.0, 0.0, 0.0, 0.0, 0.0, 0.0, 1.0,
            ]
            .into_iter()
            .map(b)
            .collect(),
            triangle_vertices: vec![0, 1, 2, 3, 2, 4],
            run_index: vec![0, 6],
            run_original_id: vec![run],
            merge_from_vert: vec![3],
            merge_to_vert: vec![0],
            run_flags: Vec::new(),
        },
        &keys,
    )
    .unwrap();
    let triangles = vec![0, 1];

    assert_eq!(
        components_for_triangles(&relation.attributed.mesh, &triangles).len(),
        1
    );
    assert_eq!(relation.attributed.mesh.tris[1].a, 0);
    assert_eq!(relation.attributed.surface_ids[0], SurfaceAttributionId(0));
    assert_eq!(relation.attributed.source_face_ids, vec![7, 7]);
}

fn authored(name: &str, call_start: u32, child: Node) -> Node {
    Node::Provenance {
        frame: ProvenanceFrame {
            call_site: SourceSpan {
                source_id: 0,
                start: call_start,
                end: call_start + name.len() as u32,
            },
            definition_site: None,
            module_name: Some(name.to_string()),
        },
        child: Box::new(child),
    }
}

fn referenced_surfaces(
    structured: &StructuredMesh,
    contribution: ContributionKind,
) -> Vec<&SurfaceAttribution> {
    let ids: BTreeSet<_> = structured.exact.surface_ids.iter().map(|id| id.0).collect();
    ids.into_iter()
        .map(|id| &structured.attributions[id as usize])
        .filter(|surface| surface.contribution == contribution)
        .collect()
}

#[test]
fn same_color_separated_cubes_are_two_min_z_ordered_parts() {
    let node = color(rgba(1.0, 0.0, 0.0, 1.0),
        Node::Union(vec![cube_at(5.0), cube_at(-5.0)]),
    );
    let structured = rendered(&node);

    assert_eq!(structured.solid_components.len(), 2);
    assert_eq!(f(structured.solid_components[0].bounds.min.z), -5.0);
    assert_eq!(f(structured.solid_components[1].bounds.min.z), 5.0);
}

#[test]
fn connected_multicolor_boundary_has_color_parts_but_one_solid() {
    let node = Node::Union(vec![
        color(rgba(1.0, 0.0, 0.0, 1.0),
            Node::Cube {
                size: p3(2.0, 2.0, 2.0),
                center: false,
            },
        ),
        color(rgba(0.0, 0.0, 1.0, 1.0),
            Node::Translate {
                v: p3(1.0, 0.0, 0.0),
                child: Box::new(Node::Cube {
                    size: p3(2.0, 2.0, 2.0),
                    center: false,
                }),
            },
        ),
    ]);
    let structured = rendered(&node);

    assert_eq!(structured.solid_components.len(), 1);
    assert_eq!(
        structured
            .exact
            .surface_ids
            .iter()
            .map(|id| id.0)
            .collect::<BTreeSet<_>>()
            .len(),
        2
    );
}

#[test]
fn overlapping_same_color_inputs_are_one_exact_component() {
    let node = color(rgba(1.0, 0.0, 0.0, 1.0),
        Node::Union(vec![
            Node::Cube {
                size: p3(2.0, 2.0, 2.0),
                center: false,
            },
            Node::Translate {
                v: p3(1.0, 0.0, 0.0),
                child: Box::new(Node::Cube {
                    size: p3(2.0, 2.0, 2.0),
                    center: false,
                }),
            },
        ]),
    );
    let structured = rendered(&node);

    assert_eq!(structured.solid_components.len(), 1);
    assert!((volume(&structured.exact.mesh) - 12.0).abs() < 1e-6);
}

#[test]
fn partition_uses_indexed_connectivity_without_spatial_welding() {
    let mut first = cube(&mut calc(), p3(1.0, 1.0, 1.0), false);
    let mut second = cube(&mut calc(), p3(1.0, 1.0, 1.0), false);
    let shift = Node::Translate { v: p3(1.0, 1.0, 1.0), child: Box::new(Node::Empty) };
    second = carried(&shift, &second);
    let base = first.verts.len() as u32;
    first.verts.extend(second.verts);
    first.tris.extend(
        second.tris.iter().map(|t| Triangle { a: base + t.a, b: base + t.b, c: base + t.c }),
    );
    let triangle_count = first.tris.len();
    let exact = AttributedMesh {
        mesh: first,
        surface_ids: vec![SurfaceAttributionId(0); triangle_count],
        source_face_ids: (0..triangle_count as u64).collect(),
    };
    let aggregate = exact.mesh.duplicate();
    let structured = partition(
        exact,
        aggregate,
        false,
        vec![SurfaceAttribution {
            rgba: default_color(),
            mode: DisplayMode::Solid,
            provenance: Vec::new(),
            contributors: Vec::new(),
            contribution: ContributionKind::Boundary,
            status: AttributionStatus::Exact,
        }],
    )
    .unwrap();

    assert_eq!(structured.solid_components.len(), 2);
}

#[test]
fn partition_rejects_invalid_relation_lengths() {
    let exact = AttributedMesh {
        mesh: cube(&mut calc(), p3(1.0, 1.0, 1.0), false),
        surface_ids: vec![SurfaceAttributionId(0)],
        source_face_ids: vec![0],
    };
    let aggregate = exact.mesh.duplicate();
    let error = partition(exact, aggregate, false, Vec::new()).unwrap_err();
    assert!(matches!(error, GeomError::Invariant(_)));
}

#[test]
fn structured_result_is_deterministic_and_retains_provenance() {
    let frame = ProvenanceFrame {
        call_site: SourceSpan {
            source_id: 0,
            start: 10,
            end: 20,
        },
        definition_site: None,
        module_name: Some("part".to_string()),
    };
    let node = Node::Provenance {
        frame: frame.duplicate(),
        child: Box::new(Node::Union(vec![cube_at(2.0), cube_at(-2.0)])),
    };
    let render = || {
        rendered(&node)
    };

    let first = render();
    assert_eq!(format!("{:?}", first), format!("{:?}", render()));
    assert!(first.attributions.iter().all(|surface| {
        surface.provenance.is_empty() || (surface.provenance.len() == 1 && surface.provenance[0].same(&frame))
    }));
}

#[test]
fn difference_generated_faces_use_enclosing_owner_with_all_contributor_evidence() {
    let base = Node::Union(vec![
        authored(
            "left",
            20,
            Node::Cube {
                size: p3(2.0, 2.0, 2.0),
                center: false,
            },
        ),
        authored(
            "right",
            30,
            Node::Translate {
                v: p3(2.0, 0.0, 0.0),
                child: Box::new(Node::Cube {
                    size: p3(2.0, 2.0, 2.0),
                    center: false,
                }),
            },
        ),
    ]);
    let node = authored(
        "assembly",
        10,
        Node::Difference(vec![
            base,
            Node::Translate {
                v: p3(1.5, -1.0, 0.5),
                child: Box::new(Node::Cube {
                    size: p3(1.0, 4.0, 1.0),
                    center: false,
                }),
            },
        ]),
    );
    let structured = rendered(&node);
    let generated = referenced_surfaces(&structured, ContributionKind::DifferenceTool);

    assert_eq!(generated.len(), 1);
    assert_eq!(
        generated[0]
            .provenance
            .iter()
            .map(|frame| frame.module_name.as_deref().unwrap())
            .collect::<Vec<_>>(),
        ["assembly"]
    );
    assert_eq!(generated[0].contributors.len(), 3);
    assert_eq!(generated[0].status, AttributionStatus::Ambiguous);
}

#[test]
fn generated_faces_with_one_authored_owner_are_exact_even_across_colors() {
    let node = authored(
        "painted_part",
        10,
        Node::Difference(vec![
            Node::Union(vec![
                color(rgba(1.0, 0.0, 0.0, 1.0),
                    Node::Cube {
                        size: p3(2.0, 2.0, 2.0),
                        center: false,
                    },
                ),
                color(rgba(0.0, 0.0, 1.0, 1.0),
                    Node::Translate {
                        v: p3(2.0, 0.0, 0.0),
                        child: Box::new(Node::Cube {
                            size: p3(2.0, 2.0, 2.0),
                            center: false,
                        }),
                    },
                ),
            ]),
            Node::Translate {
                v: p3(1.5, -1.0, 0.5),
                child: Box::new(Node::Cube {
                    size: p3(1.0, 4.0, 1.0),
                    center: false,
                }),
            },
        ]),
    );
    let structured = rendered(&node);
    let generated = referenced_surfaces(&structured, ContributionKind::DifferenceTool);

    assert_eq!(generated.len(), 1);
    assert_eq!(generated[0].contributors.len(), 1);
    assert_eq!(generated[0].status, AttributionStatus::Exact);
    assert_eq!(
        generated[0].provenance[0].module_name.as_deref(),
        Some("painted_part")
    );
}

#[test]
fn generated_faces_without_common_authored_owner_remain_anonymous() {
    let node = Node::Difference(vec![
        Node::Union(vec![
            authored(
                "left",
                10,
                Node::Cube {
                    size: p3(2.0, 2.0, 2.0),
                    center: false,
                },
            ),
            authored(
                "right",
                20,
                Node::Translate {
                    v: p3(2.0, 0.0, 0.0),
                    child: Box::new(Node::Cube {
                        size: p3(2.0, 2.0, 2.0),
                        center: false,
                    }),
                },
            ),
        ]),
        Node::Translate {
            v: p3(1.5, -1.0, 0.5),
            child: Box::new(Node::Cube {
                size: p3(1.0, 4.0, 1.0),
                center: false,
            }),
        },
    ]);
    let structured = rendered(&node);
    let generated = referenced_surfaces(&structured, ContributionKind::DifferenceTool);

    assert_eq!(generated.len(), 1);
    assert!(generated[0].provenance.is_empty());
    assert_eq!(generated[0].contributors.len(), 2);
    assert_eq!(generated[0].status, AttributionStatus::Ambiguous);
}

#[test]
fn intersection_generated_faces_use_first_operands_common_owner() {
    let first = authored(
        "assembly",
        10,
        Node::Union(vec![
            authored(
                "left",
                20,
                Node::Cube {
                    size: p3(2.0, 2.0, 2.0),
                    center: false,
                },
            ),
            authored(
                "right",
                30,
                Node::Translate {
                    v: p3(2.0, 0.0, 0.0),
                    child: Box::new(Node::Cube {
                        size: p3(2.0, 2.0, 2.0),
                        center: false,
                    }),
                },
            ),
        ]),
    );
    let node = Node::Intersection(vec![
        first,
        Node::Translate {
            v: p3(1.0, -1.0, -1.0),
            child: Box::new(Node::Cube {
                size: p3(2.0, 4.0, 4.0),
                center: false,
            }),
        },
    ]);
    let structured = rendered(&node);
    let generated = referenced_surfaces(&structured, ContributionKind::IntersectionOperand);

    assert_eq!(generated.len(), 1);
    assert_eq!(generated[0].provenance.len(), 1);
    assert_eq!(
        generated[0].provenance[0].module_name.as_deref(),
        Some("assembly")
    );
    assert_eq!(generated[0].contributors.len(), 2);
    assert_eq!(generated[0].status, AttributionStatus::Ambiguous);
}

#[test]
fn opaque_operations_keep_the_active_authored_owner() {
    let node = authored(
        "rounded_part",
        10,
        Node::Hull(vec![
            Node::Cube {
                size: p3(1.0, 1.0, 1.0),
                center: false,
            },
            Node::Translate {
                v: p3(2.0, 0.0, 0.0),
                child: Box::new(Node::Cube {
                    size: p3(1.0, 1.0, 1.0),
                    center: false,
                }),
            },
        ]),
    );
    let structured = rendered(&node);
    let generated =
        referenced_surfaces(&structured, ContributionKind::GeneratedOpaqueOperation);

    assert_eq!(generated.len(), 1);
    assert_eq!(
        generated[0].provenance[0].module_name.as_deref(),
        Some("rounded_part")
    );
    assert!(generated[0].contributors.is_empty());
    assert_eq!(generated[0].status, AttributionStatus::Exact);
}

#[test]
fn hulled_capsule_splits_into_its_smooth_surfaces() {
        let end = |x: f64| Node::Translate {
        v: p3(x, 0.0, 0.0),
        child: Box::new(Node::Cylinder {
            h: b(4.0),
            r1: b(2.5),
            r2: b(2.5),
            center: false,
            frags: FragmentSpec {
                fn_: b(32.0),
                ..plain()
            },
        }),
    };
    let structured = rendered(&Node::Hull(vec![end(-8.0), end(8.0)]));
    let patches: BTreeSet<_> = structured.exact.source_face_ids.iter().copied().collect();

    assert!(!patches.contains(&UNCLASSIFIED_PATCH_ID));
    assert_eq!(patches.len(), 10);
}

#[test]
fn booleans_of_a_cube_and_a_ball_have_seven_patches() {
    let frags = FragmentSpec { fn_: b(32.0), ..plain() };
    let cube = || Node::Cube { size: p3(20.0, 20.0, 20.0), center: true };
    for node in [
        Node::Difference(vec![cube(), Node::Sphere { r: b(12.0), frags }]),
        Node::Intersection(vec![cube(), Node::Sphere { r: b(13.0), frags }]),
    ] {
        let structured = rendered(&node);
        let patches: BTreeSet<_> = structured.exact.source_face_ids.iter().copied().collect();
        assert!(!patches.contains(&UNCLASSIFIED_PATCH_ID));
        assert_eq!(patches.len(), 7);
    }
}
