//! What a tree of operations says.

use crate::mesh::Point3;
use crate::node::{FragmentSpec, Node, Point2};
use crate::provenance::{FrameView, ProvenanceFrame};
use crate::surfaces::Rgba;
use vstd::prelude::*;

verus! {

/// What an operation on one child does.
pub ghost enum Act {
    Translate(Point3),
    Rotate(Point3),
    Scale(Point3),
    Mirror(Point3),
    Matrix(Seq<u64>),
    Resize { new: Point3, auto_x: bool, auto_y: bool, auto_z: bool },
    Offset { r: u64, delta: u64, chamfer: bool, frags: FragmentSpec },
    Projection(bool),
    LinearExtrude { height: u64, center: bool, twist: u64, scale: Point2, slices: u32 },
    RotateExtrude { angle: u64, frags: FragmentSpec },
    Color(Rgba),
    Highlight,
    Background,
    Provenance(FrameView),
}

/// What an operation on several children does.
pub ghost enum Join {
    Union,
    Difference,
    Intersection,
    Hull,
    Minkowski,
    Group,
}

/// What a node says.
#[allow(inconsistent_fields)]
pub ghost enum Tree {
    Empty,
    Cube { size: Point3, center: bool },
    Sphere { r: u64, frags: FragmentSpec },
    Cylinder { h: u64, r1: u64, r2: u64, center: bool, frags: FragmentSpec },
    Polyhedron { points: Seq<Point3>, faces: Seq<Seq<u32>> },
    Square { size: Point2, center: bool },
    Circle { r: u64, frags: FragmentSpec },
    Polygon { points: Seq<Point2>, paths: Option<Seq<Seq<u32>>> },
    Import { data: Seq<u8>, format: Seq<char> },
    Over(Act, Box<Tree>),
    Many(Join, Seq<Tree>),
}

/// What lists of numbers hold.
pub open spec fn lists_of(v: Seq<Vec<u32>>) -> Seq<Seq<u32>> {
    v.map_values(|f: Vec<u32>| f@)
}

/// An operation on a child.
pub open spec fn over(a: Act, child: Tree) -> Tree {
    Tree::Over(a, Box::new(child))
}

/// What nodes say.
pub open spec fn trees(v: Vec<Node>) -> Seq<Tree>
    decreases v,
{
    Seq::new(
        v@.len(),
        |i: int|
            if 0 <= i < v@.len() {
                tree(v@[i])
            } else {
                Tree::Empty
            },
    )
}

/// What a node says.
pub open spec fn tree(n: Node) -> Tree
    decreases n,
{
    match n {
        Node::Empty => Tree::Empty,
        Node::Cube { size, center } => Tree::Cube { size, center },
        Node::Sphere { r, frags } => Tree::Sphere { r, frags },
        Node::Cylinder { h, r1, r2, center, frags } => Tree::Cylinder { h, r1, r2, center, frags },
        Node::Polyhedron { points, faces } => Tree::Polyhedron {
            points: points@,
            faces: lists_of(faces@),
        },
        Node::Square { size, center } => Tree::Square { size, center },
        Node::Circle { r, frags } => Tree::Circle { r, frags },
        Node::Polygon { points, paths } => Tree::Polygon {
            points: points@,
            paths: match paths {
                Some(p) => Some(lists_of(p@)),
                None => None,
            },
        },
        Node::Import { data, format } => Tree::Import { data: data@, format: format@ },
        Node::Translate { v, child } => over(Act::Translate(v), tree(*child)),
        Node::Rotate { deg, child } => over(Act::Rotate(deg), tree(*child)),
        Node::Scale { v, child } => over(Act::Scale(v), tree(*child)),
        Node::Mirror { v, child } => over(Act::Mirror(v), tree(*child)),
        Node::MultMatrix { m, child } => over(Act::Matrix(m@), tree(*child)),
        Node::Resize { new, auto_x, auto_y, auto_z, child } => over(
            Act::Resize { new, auto_x, auto_y, auto_z },
            tree(*child),
        ),
        Node::Offset { r, delta, chamfer, frags, child } => over(
            Act::Offset { r, delta, chamfer, frags },
            tree(*child),
        ),
        Node::Projection { cut, child } => over(Act::Projection(cut), tree(*child)),
        Node::LinearExtrude { height, center, twist, scale, slices, child } => over(
            Act::LinearExtrude { height, center, twist, scale, slices },
            tree(*child),
        ),
        Node::RotateExtrude { angle, frags, child } => over(
            Act::RotateExtrude { angle, frags },
            tree(*child),
        ),
        Node::Color { rgba, child } => over(Act::Color(rgba), tree(*child)),
        Node::Highlight(child) => over(Act::Highlight, tree(*child)),
        Node::Background(child) => over(Act::Background, tree(*child)),
        Node::Provenance { frame, child } => over(Act::Provenance(frame@), tree(*child)),
        Node::Union(v) => Tree::Many(Join::Union, trees(v)),
        Node::Difference(v) => Tree::Many(Join::Difference, trees(v)),
        Node::Intersection(v) => Tree::Many(Join::Intersection, trees(v)),
        Node::Hull(v) => Tree::Many(Join::Hull, trees(v)),
        Node::Minkowski(v) => Tree::Many(Join::Minkowski, trees(v)),
        Node::Group(v) => Tree::Many(Join::Group, trees(v)),
    }
}

/// What a list of nodes says.
pub open spec fn tree_list(v: Seq<Node>) -> Seq<Tree> {
    v.map_values(|n: Node| tree(n))
}

/// The two ways to say what a list of nodes says agree.
pub proof fn lemma_trees(v: Vec<Node>)
    ensures
        trees(v) == tree_list(v@),
{
    assert(trees(v) =~= tree_list(v@));
}

/// A copy of a list of numbers or points.
fn copy_list<T: Copy>(v: &Vec<T>) -> (r: Vec<T>)
    ensures
        r@ == v@,
{
    let mut out: Vec<T> = Vec::new();
    for i in 0..v.len()
        invariant
            out@ =~= v@.take(i as int),
    {
        out.push(v[i]);
    }
    assert(v@.take(v@.len() as int) =~= v@);
    out
}

/// A copy of lists of numbers.
fn copy_lists(v: &Vec<Vec<u32>>) -> (r: Vec<Vec<u32>>)
    ensures
        lists_of(r@) == lists_of(v@),
{
    let mut out: Vec<Vec<u32>> = Vec::new();
    for i in 0..v.len()
        invariant
            lists_of(out@) =~= lists_of(v@).take(i as int),
    {
        let ghost before = lists_of(out@);
        let one = copy_list(&v[i]);
        let ghost l = one@;
        out.push(one);
        assert(lists_of(out@) =~= before.push(l));
    }
    assert(lists_of(v@).take(v@.len() as int) =~= lists_of(v@));
    out
}

fn copy_frame(f: &ProvenanceFrame) -> (r: ProvenanceFrame)
    ensures
        r@ == f@,
{
    ProvenanceFrame {
        call_site: f.call_site,
        definition_site: f.definition_site,
        module_name: match &f.module_name {
            Some(n) => Some(n.clone()),
            None => None,
        },
    }
}

/// A copy of nodes.
fn copy_nodes(v: &Vec<Node>) -> (r: Vec<Node>)
    ensures
        trees(r) == trees(*v),
    decreases *v,
{
    let mut out: Vec<Node> = Vec::new();
    let mut i: usize = 0;
    while i < v.len()
        invariant
            i <= v@.len(),
            tree_list(out@) =~= tree_list(v@).take(i as int),
        decreases v.len() - i,
    {
        let ghost before = tree_list(out@);
        let n = copy_node(&v[i]);
        let ghost t = tree(n);
        out.push(n);
        assert(tree_list(out@) =~= before.push(t));
        i = i + 1;
    }
    proof {
        assert(tree_list(v@).take(v@.len() as int) =~= tree_list(v@));
        lemma_trees(out);
        lemma_trees(*v);
    }
    out
}

/// A copy of a node.
pub fn copy_node(n: &Node) -> (r: Node)
    ensures
        tree(r) == tree(*n),
    decreases *n,
{
    match n {
        Node::Empty => Node::Empty,
        Node::Cube { size, center } => Node::Cube { size: *size, center: *center },
        Node::Sphere { r, frags } => Node::Sphere { r: *r, frags: *frags },
        Node::Cylinder { h, r1, r2, center, frags } => Node::Cylinder {
            h: *h,
            r1: *r1,
            r2: *r2,
            center: *center,
            frags: *frags,
        },
        Node::Polyhedron { points, faces } => Node::Polyhedron {
            points: copy_list(points),
            faces: copy_lists(faces),
        },
        Node::Square { size, center } => Node::Square { size: *size, center: *center },
        Node::Circle { r, frags } => Node::Circle { r: *r, frags: *frags },
        Node::Polygon { points, paths } => Node::Polygon {
            points: copy_list(points),
            paths: match paths {
                Some(p) => Some(copy_lists(p)),
                None => None,
            },
        },
        Node::Import { data, format } => Node::Import {
            data: copy_list(data),
            format: format.clone(),
        },
        Node::Translate { v, child } => Node::Translate {
            v: *v,
            child: Box::new(copy_node(&**child)),
        },
        Node::Rotate { deg, child } => Node::Rotate {
            deg: *deg,
            child: Box::new(copy_node(&**child)),
        },
        Node::Scale { v, child } => Node::Scale { v: *v, child: Box::new(copy_node(&**child)) },
        Node::Mirror { v, child } => Node::Mirror { v: *v, child: Box::new(copy_node(&**child)) },
        Node::MultMatrix { m, child } => Node::MultMatrix {
            m: copy_list(m),
            child: Box::new(copy_node(&**child)),
        },
        Node::Resize { new, auto_x, auto_y, auto_z, child } => Node::Resize {
            new: *new,
            auto_x: *auto_x,
            auto_y: *auto_y,
            auto_z: *auto_z,
            child: Box::new(copy_node(&**child)),
        },
        Node::Offset { r, delta, chamfer, frags, child } => Node::Offset {
            r: *r,
            delta: *delta,
            chamfer: *chamfer,
            frags: *frags,
            child: Box::new(copy_node(&**child)),
        },
        Node::Projection { cut, child } => Node::Projection {
            cut: *cut,
            child: Box::new(copy_node(&**child)),
        },
        Node::LinearExtrude { height, center, twist, scale, slices, child } => Node::LinearExtrude {
            height: *height,
            center: *center,
            twist: *twist,
            scale: *scale,
            slices: *slices,
            child: Box::new(copy_node(&**child)),
        },
        Node::RotateExtrude { angle, frags, child } => Node::RotateExtrude {
            angle: *angle,
            frags: *frags,
            child: Box::new(copy_node(&**child)),
        },
        Node::Color { rgba, child } => Node::Color {
            rgba: *rgba,
            child: Box::new(copy_node(&**child)),
        },
        Node::Provenance { frame, child } => Node::Provenance {
            frame: copy_frame(frame),
            child: Box::new(copy_node(&**child)),
        },
        Node::Highlight(child) => Node::Highlight(Box::new(copy_node(&**child))),
        Node::Background(child) => Node::Background(Box::new(copy_node(&**child))),
        Node::Union(list) => Node::Union(copy_nodes(list)),
        Node::Difference(list) => Node::Difference(copy_nodes(list)),
        Node::Intersection(list) => Node::Intersection(copy_nodes(list)),
        Node::Hull(list) => Node::Hull(copy_nodes(list)),
        Node::Minkowski(list) => Node::Minkowski(copy_nodes(list)),
        Node::Group(list) => Node::Group(copy_nodes(list)),
    }
}

} // verus!
