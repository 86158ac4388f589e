//! The tree of operations that a program comes to.

use crate::mesh::Point3;
use crate::num::{is_zero, zero};
use crate::provenance::ProvenanceFrame;
use crate::surfaces::Rgba;
use vstd::prelude::*;

verus! {

/// How finely curves are drawn: `$fn`, `$fa` and `$fs`.
#[derive(Clone, Copy, Debug, PartialEq, Eq, Structural)]
pub struct FragmentSpec {
    pub fn_: u64,
    pub fa: u64,
    pub fs: u64,
}

/// A point of the plane, each coordinate as its bits.
#[derive(Clone, Copy, Debug, PartialEq, Eq, Structural)]
pub struct Point2 {
    pub x: u64,
    pub y: u64,
}

/// An operation and what it works on. Numbers are bits.
#[allow(inconsistent_fields)]
#[derive(Debug)]
pub enum Node {
    Empty,
    Cube { size: Point3, center: bool },
    Sphere { r: u64, frags: FragmentSpec },
    Cylinder { h: u64, r1: u64, r2: u64, center: bool, frags: FragmentSpec },
    Polyhedron { points: Vec<Point3>, faces: Vec<Vec<u32>> },
    Square { size: Point2, center: bool },
    Circle { r: u64, frags: FragmentSpec },
    Polygon { points: Vec<Point2>, paths: Option<Vec<Vec<u32>>> },
    Import { data: Vec<u8>, format: String },
    Translate { v: Point3, child: Box<Node> },
    Rotate { deg: Point3, child: Box<Node> },
    Scale { v: Point3, child: Box<Node> },
    Mirror { v: Point3, child: Box<Node> },
    /// The rows of an affine matrix, sixteen numbers.
    MultMatrix { m: Vec<u64>, child: Box<Node> },
    Resize { new: Point3, auto_x: bool, auto_y: bool, auto_z: bool, child: Box<Node> },
    Offset { r: u64, delta: u64, chamfer: bool, frags: FragmentSpec, child: Box<Node> },
    Projection { cut: bool, child: Box<Node> },
    LinearExtrude {
        height: u64,
        center: bool,
        twist: u64,
        scale: Point2,
        slices: u32,
        child: Box<Node>,
    },
    RotateExtrude { angle: u64, frags: FragmentSpec, child: Box<Node> },
    Color { rgba: Rgba, child: Box<Node> },
    Highlight(Box<Node>),
    Background(Box<Node>),
    Provenance { frame: ProvenanceFrame, child: Box<Node> },
    Union(Vec<Node>),
    Difference(Vec<Node>),
    Intersection(Vec<Node>),
    Hull(Vec<Node>),
    Minkowski(Vec<Node>),
    Group(Vec<Node>),
}

/// What the outline of a profile is made of.
#[derive(Clone, Copy, Debug, PartialEq, Eq, Structural)]
pub enum ProfileBoundary {
    Smooth,
    Polygonal,
    Unknown,
}

/// The outline of a combination: that of its parts where they agree.
pub open spec fn combined_outline(children: Vec<Node>) -> ProfileBoundary
    decreases children,
{
    if children@.len() == 0 {
        ProfileBoundary::Unknown
    } else if forall|i: int|
        0 <= i < children@.len() ==> outline(#[trigger] children@[i]) == ProfileBoundary::Smooth {
        ProfileBoundary::Smooth
    } else if forall|i: int|
        0 <= i < children@.len() ==> outline(#[trigger] children@[i]) == ProfileBoundary::Polygonal {
        ProfileBoundary::Polygonal
    } else {
        ProfileBoundary::Unknown
    }
}

/// What the outline of a profile is made of: arcs, straight runs, or unknown. A
/// rounding offset makes arcs of corners.
pub open spec fn outline(node: Node) -> ProfileBoundary
    decreases node,
{
    match node {
        Node::Circle { .. } => ProfileBoundary::Smooth,
        Node::Square { .. } => ProfileBoundary::Polygonal,
        Node::Polygon { .. } => ProfileBoundary::Polygonal,
        Node::Translate { child, .. } => outline(*child),
        Node::Rotate { child, .. } => outline(*child),
        Node::Scale { child, .. } => outline(*child),
        Node::Mirror { child, .. } => outline(*child),
        Node::MultMatrix { child, .. } => outline(*child),
        Node::Resize { child, .. } => outline(*child),
        Node::Color { child, .. } => outline(*child),
        Node::Highlight(child) => outline(*child),
        Node::Background(child) => outline(*child),
        Node::Provenance { child, .. } => outline(*child),
        Node::Union(children) => combined_outline(children),
        Node::Difference(children) => combined_outline(children),
        Node::Intersection(children) => combined_outline(children),
        Node::Hull(children) => combined_outline(children),
        Node::Minkowski(children) => combined_outline(children),
        Node::Group(children) => combined_outline(children),
        Node::Offset { r, child, .. } => if !zero(r) {
            ProfileBoundary::Smooth
        } else {
            outline(*child)
        },
        _ => ProfileBoundary::Unknown,
    }
}

/// The outline of a combination.
pub fn combined_boundary(children: &Vec<Node>) -> (r: ProfileBoundary)
    ensures
        r == combined_outline(*children),
    decreases *children,
{
    let mut smooth: bool = true;
    let mut polygonal: bool = true;
    let mut i: usize = 0;
    while i < children.len()
        invariant
            i <= children@.len(),
            smooth == forall|k: int|
                0 <= k < i ==> outline(#[trigger] children@[k]) == ProfileBoundary::Smooth,
            polygonal == forall|k: int|
                0 <= k < i ==> outline(#[trigger] children@[k]) == ProfileBoundary::Polygonal,
        decreases children.len() - i,
    {
        let kind = profile_boundary(&children[i]);
        assert(outline(children@[i as int]) == kind);
        if kind != ProfileBoundary::Smooth {
            smooth = false;
        }
        if kind != ProfileBoundary::Polygonal {
            polygonal = false;
        }
        i = i + 1;
    }
    if children.len() == 0 {
        ProfileBoundary::Unknown
    } else if smooth {
        ProfileBoundary::Smooth
    } else if polygonal {
        ProfileBoundary::Polygonal
    } else {
        ProfileBoundary::Unknown
    }
}

/// What the outline of a profile is made of.
pub fn profile_boundary(node: &Node) -> (r: ProfileBoundary)
    ensures
        r == outline(*node),
    decreases *node,
{
    match node {
        Node::Circle { .. } => ProfileBoundary::Smooth,
        Node::Square { .. } => ProfileBoundary::Polygonal,
        Node::Polygon { .. } => ProfileBoundary::Polygonal,
        Node::Translate { child, .. } => profile_boundary(child),
        Node::Rotate { child, .. } => profile_boundary(child),
        Node::Scale { child, .. } => profile_boundary(child),
        Node::Mirror { child, .. } => profile_boundary(child),
        Node::MultMatrix { child, .. } => profile_boundary(child),
        Node::Resize { child, .. } => profile_boundary(child),
        Node::Color { child, .. } => profile_boundary(child),
        Node::Highlight(child) => profile_boundary(child),
        Node::Background(child) => profile_boundary(child),
        Node::Provenance { child, .. } => profile_boundary(child),
        Node::Union(children) => combined_boundary(children),
        Node::Difference(children) => combined_boundary(children),
        Node::Intersection(children) => combined_boundary(children),
        Node::Hull(children) => combined_boundary(children),
        Node::Minkowski(children) => combined_boundary(children),
        Node::Group(children) => combined_boundary(children),
        Node::Offset { r, child, .. } => if !is_zero(*r) {
            ProfileBoundary::Smooth
        } else {
            profile_boundary(child)
        },
        _ => ProfileBoundary::Unknown,
    }
}

/// The node is a solid of its own, not made by an operation.
pub open spec fn is_primitive(node: Node) -> bool {
    match node {
        Node::Cube { .. } => true,
        Node::Sphere { .. } => true,
        Node::Cylinder { .. } => true,
        Node::Polyhedron { .. } => true,
        Node::Import { .. } => true,
        _ => false,
    }
}

/// Whether the node is a solid of its own.
pub fn is_boundary_node(node: &Node) -> (r: bool)
    ensures
        r == is_primitive(*node),
{
    match node {
        Node::Cube { .. } => true,
        Node::Sphere { .. } => true,
        Node::Cylinder { .. } => true,
        Node::Polyhedron { .. } => true,
        Node::Import { .. } => true,
        _ => false,
    }
}

} // verus!
