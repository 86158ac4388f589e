//! Running the statements of a program.

use crate::ast::{Arg, Binding, Expr};
use crate::diag::{EvalError, NoteView, Span};
use crate::eval::{entries, passed, Entry, PassedArg};
use crate::iterate::{iter_values, iterated};
use crate::mesh::Point3;
use crate::modules::{
    angles_of, axis_of, axis_rows, bind_named, bound_args, circle_node, color_node, cube_node,
    cube_node_of, cylinder_node, default_tint, direction_of, end_radius_of, factors_of, faces_of,
    follows, fragments_for, group, leaning, linear_extrude_node, matrix_of, multmatrix_node,
    named_faces, names_of, null_point, number_arg, number_arg_or, offset_node, points2_of,
    points3_of, polygon_node, polyhedron_node, projection_node, radius_of, resize_node,
    rotate_extrude_node, scale_of, shear, slices_of, sphere_node, square_node, straight, swept,
    square_node_of, transform, truth_arg, turn_rows, unit_point, vec3_arg_or, Ambient,
    TransformKind,
};
use crate::node::{FragmentSpec, Node};
use crate::nodeview::{lemma_trees, over, tree, tree_list, Act, Join, Tree};
use crate::num::{less, zero, Arithmetic, Calc, Reading, ONE, ZERO};
use crate::planar::size_of;
use crate::play::Prog;
use crate::player::{ask_call, ask_define, ask_spliced, Stage};
use crate::program::{
    assigned, evaluated, is_local, overwritten, place_of, plan_assignments, source_span, stmt_span,
    Modifier, Spanned, Stmt,
};
use crate::provenance::{FrameView, ProvenanceFrame, SourceSpan};
use crate::sem::{found, Env, Passed};
use crate::splice::{FileOracle, Library};
use crate::surfaces::Rgba;
use crate::text::same_text;
use crate::value::{truth, vals, Val, Value};
use std::rc::Rc;
use vstd::prelude::*;

verus! {

// ---- the surrounding program -----------------------------------------------------------------------

/// Where a module that was called is defined, where that is kept.
#[derive(Clone, Copy, Debug, PartialEq, Eq, Structural)]
pub struct Definition {
    pub site: Option<SourceSpan>,
}

/// A question to the surrounding program.
pub ghost enum StageAsk {
    Eval(Expr),
    Bind(Seq<char>, Val),
    Enter,
    Leave,
    Define(Spanned),
    Spliced(Vec<Spanned>),
    Call { name: Seq<char>, args: Vec<Arg>, children: Vec<Spanned> },
    Around(Seq<char>),
    Burn,
    Root(Tree),
    Tint(Val, Option<u64>),
    UnknownColor(Val),
    At(Option<Span>),
    Dead(Seq<char>, Option<Span>),
    Given(Seq<char>),
    /// Print a line of values.
    Echo(Passed),
    /// Check an assertion.
    Check(Vec<Arg>),
}

/// An answer of the surrounding program.
pub ghost enum StageSaid {
    Val(Result<Val, NoteView>),
    Done(Result<(), NoteView>),
    Nodes(Result<Seq<Tree>, NoteView>),
    Called(Result<(Tree, Option<Definition>), NoteView>),
    Tint(Option<Rgba>),
    Given(Option<Val>),
}

/// What answers questions: each comes to an answer and to the program after it.
pub type StageOracle = spec_fn(Prog, StageAsk) -> (StageSaid, Prog);

pub open spec fn value_note(r: Result<Value, EvalError>) -> Result<Val, NoteView> {
    match r {
        Ok(v) => Ok(v@),
        Err(e) => Err(e@),
    }
}

pub open spec fn done_note(r: Result<(), EvalError>) -> Result<(), NoteView> {
    match r {
        Ok(_) => Ok(()),
        Err(e) => Err(e@),
    }
}

pub open spec fn nodes_note(r: Result<Vec<Node>, EvalError>) -> Result<Seq<Tree>, NoteView> {
    match r {
        Ok(v) => Ok(tree_list(v@)),
        Err(e) => Err(e@),
    }
}

pub open spec fn call_note(r: Result<(Node, Option<Definition>), EvalError>) -> Result<
    (Tree, Option<Definition>),
    NoteView,
> {
    match r {
        Ok((n, d)) => Ok((tree(n), d)),
        Err(e) => Err(e@),
    }
}

pub open spec fn given_note(r: Option<Value>) -> Option<Val> {
    match r {
        Some(v) => Some(v@),
        None => None,
    }
}

/// What the statements stand in.
#[derive(Clone, Copy)]
pub struct Ctx {
    pub in_main: bool,
    pub detailed: bool,
}

// ---- the built-in modules ------------------------------------------------------------------------------

/// A module that draws from its arguments alone.
#[derive(Clone, Copy, Debug, PartialEq, Eq, Structural)]
pub enum Solid {
    Cube,
    Sphere,
    Cylinder,
    Polyhedron,
    Square,
    Circle,
    Polygon,
}

/// A module that reads its arguments, then its children.
#[derive(Clone, Copy, Debug, PartialEq, Eq, Structural)]
pub enum Wrap {
    LinearExtrude,
    RotateExtrude,
    Offset,
    Projection,
}

/// A built-in module.
#[derive(Clone, Copy, Debug, PartialEq, Eq, Structural)]
pub enum Known {
    Solid(Solid),
    Wrap(Wrap),
    Move(TransformKind),
    Matrix,
    Resize,
    Color,
    Group,
    Union,
    Difference,
    Intersection,
    Hull,
    Minkowski,
    IntersectionFor,
    Echo,
    Assert,
    /// A module of the program, or one that reads files.
    Other,
}

/// The module of a name.
pub open spec fn known(name: Seq<char>) -> Known {
    if name == "cube"@ {
        Known::Solid(Solid::Cube)
    } else if name == "sphere"@ {
        Known::Solid(Solid::Sphere)
    } else if name == "cylinder"@ {
        Known::Solid(Solid::Cylinder)
    } else if name == "polyhedron"@ {
        Known::Solid(Solid::Polyhedron)
    } else if name == "square"@ {
        Known::Solid(Solid::Square)
    } else if name == "circle"@ {
        Known::Solid(Solid::Circle)
    } else if name == "polygon"@ {
        Known::Solid(Solid::Polygon)
    } else if name == "linear_extrude"@ {
        Known::Wrap(Wrap::LinearExtrude)
    } else if name == "rotate_extrude"@ {
        Known::Wrap(Wrap::RotateExtrude)
    } else if name == "offset"@ {
        Known::Wrap(Wrap::Offset)
    } else if name == "projection"@ {
        Known::Wrap(Wrap::Projection)
    } else if name == "translate"@ {
        Known::Move(TransformKind::Translate)
    } else if name == "rotate"@ {
        Known::Move(TransformKind::Rotate)
    } else {
        known_rest(name)
    }
}

/// The module of a name, beyond solids and extrusions.
pub open spec fn known_rest(name: Seq<char>) -> Known {
    if name == "scale"@ {
        Known::Move(TransformKind::Scale)
    } else if name == "mirror"@ {
        Known::Move(TransformKind::Mirror)
    } else if name == "multmatrix"@ {
        Known::Matrix
    } else if name == "resize"@ {
        Known::Resize
    } else if name == "color"@ {
        Known::Color
    } else if name == "render"@ {
        Known::Group
    } else if name == "group"@ {
        Known::Group
    } else if name == "union"@ {
        Known::Union
    } else if name == "difference"@ {
        Known::Difference
    } else if name == "intersection"@ {
        Known::Intersection
    } else if name == "hull"@ {
        Known::Hull
    } else if name == "minkowski"@ {
        Known::Minkowski
    } else if name == "intersection_for"@ {
        Known::IntersectionFor
    } else if name == "echo"@ {
        Known::Echo
    } else if name == "assert"@ {
        Known::Assert
    } else {
        Known::Other
    }
}

fn find_rest(name: &str) -> (r: Known)
    ensures
        r == known_rest(name@),
{
    if same_text(name, "scale") {
        Known::Move(TransformKind::Scale)
    } else if same_text(name, "mirror") {
        Known::Move(TransformKind::Mirror)
    } else if same_text(name, "multmatrix") {
        Known::Matrix
    } else if same_text(name, "resize") {
        Known::Resize
    } else if same_text(name, "color") {
        Known::Color
    } else if same_text(name, "render") {
        Known::Group
    } else if same_text(name, "group") {
        Known::Group
    } else if same_text(name, "union") {
        Known::Union
    } else if same_text(name, "difference") {
        Known::Difference
    } else if same_text(name, "intersection") {
        Known::Intersection
    } else if same_text(name, "hull") {
        Known::Hull
    } else if same_text(name, "minkowski") {
        Known::Minkowski
    } else if same_text(name, "intersection_for") {
        Known::IntersectionFor
    } else if same_text(name, "echo") {
        Known::Echo
    } else if same_text(name, "assert") {
        Known::Assert
    } else {
        Known::Other
    }
}

fn find_known(name: &str) -> (r: Known)
    ensures
        r == known(name@),
{
    if same_text(name, "cube") {
        Known::Solid(Solid::Cube)
    } else if same_text(name, "sphere") {
        Known::Solid(Solid::Sphere)
    } else if same_text(name, "cylinder") {
        Known::Solid(Solid::Cylinder)
    } else if same_text(name, "polyhedron") {
        Known::Solid(Solid::Polyhedron)
    } else if same_text(name, "square") {
        Known::Solid(Solid::Square)
    } else if same_text(name, "circle") {
        Known::Solid(Solid::Circle)
    } else if same_text(name, "polygon") {
        Known::Solid(Solid::Polygon)
    } else if same_text(name, "linear_extrude") {
        Known::Wrap(Wrap::LinearExtrude)
    } else if same_text(name, "rotate_extrude") {
        Known::Wrap(Wrap::RotateExtrude)
    } else if same_text(name, "offset") {
        Known::Wrap(Wrap::Offset)
    } else if same_text(name, "projection") {
        Known::Wrap(Wrap::Projection)
    } else if same_text(name, "translate") {
        Known::Move(TransformKind::Translate)
    } else if same_text(name, "rotate") {
        Known::Move(TransformKind::Rotate)
    } else {
        find_rest(name)
    }
}

/// The names of a module's unnamed arguments.
pub open spec fn positional(k: Known) -> Seq<Seq<char>> {
    match k {
        Known::Solid(Solid::Cube) => seq!["size"@, "center"@],
        Known::Solid(Solid::Sphere) => seq!["r"@],
        Known::Solid(Solid::Cylinder) => seq!["h"@, "r1"@, "r2"@, "center"@],
        Known::Solid(Solid::Polyhedron) => seq!["points"@, "faces"@, "convexity"@],
        Known::Solid(Solid::Square) => seq!["size"@, "center"@],
        Known::Solid(Solid::Circle) => seq!["r"@],
        Known::Solid(Solid::Polygon) => seq!["points"@, "paths"@],
        Known::Wrap(Wrap::LinearExtrude) => seq!["height"@],
        Known::Wrap(Wrap::RotateExtrude) => seq!["angle"@],
        Known::Wrap(Wrap::Offset) => seq!["r"@, "delta"@],
        Known::Wrap(Wrap::Projection) => seq!["cut"@],
        Known::Move(TransformKind::Translate) => seq!["v"@],
        Known::Move(TransformKind::Rotate) => seq!["a"@, "v"@],
        Known::Move(TransformKind::Scale) => seq!["v"@],
        Known::Move(TransformKind::Mirror) => seq!["v"@],
        Known::Matrix => seq!["m"@],
        Known::Resize => seq!["newsize"@, "auto"@],
        Known::Color => seq!["c"@, "alpha"@],
        _ => Seq::empty(),
    }
}

fn push_name(v: &mut Vec<String>, name: &str)
    ensures
        names_of(final(v)@) == names_of(old(v)@).push(name@),
{
    let ghost held = names_of(v@);
    v.push(name.to_owned());
    assert(names_of(v@) =~= held.push(name@));
}

fn positional_names(k: Known) -> (r: Vec<String>)
    ensures
        names_of(r@) == positional(k),
{
    let mut v: Vec<String> = Vec::new();
    assert(names_of(v@) =~= Seq::empty());
    match k {
        Known::Solid(Solid::Cube) => {
            push_name(&mut v, "size");
            push_name(&mut v, "center");
        },
        Known::Solid(Solid::Sphere) => {
            push_name(&mut v, "r");
        },
        Known::Solid(Solid::Cylinder) => {
            push_name(&mut v, "h");
            push_name(&mut v, "r1");
            push_name(&mut v, "r2");
            push_name(&mut v, "center");
        },
        Known::Solid(Solid::Polyhedron) => {
            push_name(&mut v, "points");
            push_name(&mut v, "faces");
            push_name(&mut v, "convexity");
        },
        Known::Solid(Solid::Square) => {
            push_name(&mut v, "size");
            push_name(&mut v, "center");
        },
        Known::Solid(Solid::Circle) => {
            push_name(&mut v, "r");
        },
        Known::Solid(Solid::Polygon) => {
            push_name(&mut v, "points");
            push_name(&mut v, "paths");
        },
        Known::Wrap(Wrap::LinearExtrude) => {
            push_name(&mut v, "height");
        },
        Known::Wrap(Wrap::RotateExtrude) => {
            push_name(&mut v, "angle");
        },
        Known::Wrap(Wrap::Offset) => {
            push_name(&mut v, "r");
            push_name(&mut v, "delta");
        },
        Known::Wrap(Wrap::Projection) => {
            push_name(&mut v, "cut");
        },
        Known::Move(TransformKind::Translate) => {
            push_name(&mut v, "v");
        },
        Known::Move(TransformKind::Rotate) => {
            push_name(&mut v, "a");
            push_name(&mut v, "v");
        },
        Known::Move(TransformKind::Scale) => {
            push_name(&mut v, "v");
        },
        Known::Move(TransformKind::Mirror) => {
            push_name(&mut v, "v");
        },
        Known::Matrix => {
            push_name(&mut v, "m");
        },
        Known::Resize => {
            push_name(&mut v, "newsize");
            push_name(&mut v, "auto");
        },
        Known::Color => {
            push_name(&mut v, "c");
            push_name(&mut v, "alpha");
        },
        _ => {},
    }
    assert(names_of(v@) =~= positional(k));
    v
}

/// How finely curves are drawn, from the arguments and what is said around.
pub open spec fn fineness(m: Env, a: Val, b: Val, c: Val) -> FragmentSpec {
    FragmentSpec {
        fn_: crate::modules::picked(m, "$fn"@, a, ZERO),
        fa: crate::modules::picked(m, "$fa"@, b, crate::modules::TWELVE),
        fs: crate::modules::picked(m, "$fs"@, c, crate::num::TWO),
    }
}

/// What a module draws from its arguments.
pub open spec fn solid_tree(r: Reading, s: Solid, m: Env, f: FragmentSpec) -> Tree {
    match s {
        Solid::Cube => tree(cube_node_of(m)),
        Solid::Sphere => Tree::Sphere { r: radius_of(r, m), frags: f },
        Solid::Cylinder => Tree::Cylinder {
            h: number_arg_or(m, "h"@, ONE),
            r1: end_radius_of(r, m, "d1"@, "r1"@),
            r2: end_radius_of(r, m, "d2"@, "r2"@),
            center: truth_arg(m, "center"@),
            frags: f,
        },
        Solid::Polyhedron => Tree::Polyhedron {
            points: points3_of(found(m, "points"@)),
            faces: named_faces(
                r,
                if found(m, "faces"@) is Some {
                    found(m, "faces"@)
                } else {
                    found(m, "triangles"@)
                },
            ),
        },
        Solid::Square => tree(square_node_of(m)),
        Solid::Circle => Tree::Circle { r: radius_of(r, m), frags: f },
        Solid::Polygon => Tree::Polygon {
            points: points2_of(found(m, "points"@)),
            paths: match found(m, "paths"@) {
                Some(v) => faces_of(r, v),
                None => None,
            },
        },
    }
}

/// An extrusion straight up.
pub open spec fn straight_tree(r: Reading, m: Env, height: u64, child: Tree) -> Tree {
    over(
        Act::LinearExtrude {
            height,
            center: truth_arg(m, "center"@),
            twist: number_arg_or(m, "twist"@, ZERO),
            scale: scale_of(m),
            slices: slices_of(r, m),
        },
        child,
    )
}

/// An extrusion, sheared where it follows a vector.
pub open spec fn extruded_tree(r: Reading, m: Env, child: Tree) -> Tree {
    let height = number_arg_or(m, "height"@, crate::builtins::HUNDRED);
    match direction_of(m) {
        Some(v) => {
            let d = leaning(r, height, v);
            if less(crate::faces::PICO, crate::vector::length_of(r, v)) && less(
                crate::faces::NANO,
                size_of(d.z),
            ) {
                over(Act::Matrix(shear(r, d)), straight_tree(r, m, d.z, child))
            } else {
                straight_tree(r, m, height, child)
            }
        },
        None => straight_tree(r, m, height, child),
    }
}

/// What a module makes of its children.
pub open spec fn wrapped_tree(r: Reading, w: Wrap, m: Env, f: FragmentSpec, child: Tree) -> Tree {
    match w {
        Wrap::LinearExtrude => extruded_tree(r, m, child),
        Wrap::RotateExtrude => {
            let start = number_arg_or(m, "start"@, ZERO);
            let inner = over(
                Act::RotateExtrude {
                    angle: number_arg_or(m, "angle"@, crate::tessellate::FULL_TURN),
                    frags: f,
                },
                child,
            );
            if zero(start) {
                inner
            } else {
                over(Act::Matrix(turn_rows(r, start)), inner)
            }
        },
        Wrap::Offset => over(
            Act::Offset {
                r: match (number_arg(m, "r"@), number_arg(m, "delta"@)) {
                    (Some(x), _) => x,
                    (None, Some(_)) => ZERO,
                    (None, None) => ONE,
                },
                delta: match (number_arg(m, "r"@), number_arg(m, "delta"@)) {
                    (None, Some(d)) => d,
                    _ => ZERO,
                },
                chamfer: truth_arg(m, "chamfer"@),
                frags: f,
            },
            child,
        ),
        Wrap::Projection => over(Act::Projection(truth_arg(m, "cut"@)), child),
    }
}

/// What a motion makes of children that draw something.
pub open spec fn moved_tree(r: Reading, kind: TransformKind, m: Env, child: Tree) -> Tree {
    match kind {
        TransformKind::Translate => over(
            Act::Translate(vec3_arg_or(m, "v"@, null_point())),
            child,
        ),
        TransformKind::Scale => over(
            Act::Scale(
                match found(m, "v"@) {
                    Some(v) => factors_of(v),
                    None => unit_point(),
                },
            ),
            child,
        ),
        TransformKind::Mirror => over(
            Act::Mirror(vec3_arg_or(m, "v"@, (Point3 { x: ONE, y: ZERO, z: ZERO }))),
            child,
        ),
        TransformKind::Rotate => match (number_arg(m, "a"@), axis_of(r, m)) {
            (Some(angle), Some(axis)) => over(Act::Matrix(axis_rows(r, axis, angle)), child),
            _ => over(Act::Rotate(angles_of(m)), child),
        },
    }
}

/// The tree of several: nothing, the only one, or a group.
pub open spec fn grouped_tree(v: Seq<Tree>) -> Tree {
    if v.len() == 0 {
        Tree::Empty
    } else if v.len() == 1 {
        v[0]
    } else {
        Tree::Many(Join::Group, v)
    }
}

fn draw_solid<A: Arithmetic>(
    calc: &mut Calc<A>,
    s: Solid,
    m: &Vec<Entry>,
    a: &Ambient,
) -> (node: Node)
    ensures
        forall|r: Reading| #[trigger]
            final(calc).agrees(r) ==> old(calc).agrees(r) && tree(node) == solid_tree(
                r,
                s,
                entries(m@),
                fineness(entries(m@), a.fn_@, a.fa@, a.fs@),
            ),
{
    match s {
        Solid::Cube => cube_node(m),
        Solid::Sphere => sphere_node(calc, m, a),
        Solid::Cylinder => cylinder_node(calc, m, a),
        Solid::Polyhedron => polyhedron_node(calc, m),
        Solid::Square => square_node(m),
        Solid::Circle => circle_node(calc, m, a),
        Solid::Polygon => polygon_node(calc, m),
    }
}

fn draw_wrap<A: Arithmetic>(
    calc: &mut Calc<A>,
    w: Wrap,
    m: &Vec<Entry>,
    a: &Ambient,
    child: Node,
) -> (node:
    Node)
    ensures
        forall|r: Reading| #[trigger]
            final(calc).agrees(r) ==> old(calc).agrees(r) && tree(node) == wrapped_tree(
                r,
                w,
                entries(m@),
                fineness(entries(m@), a.fn_@, a.fa@, a.fs@),
                tree(child),
            ),
{
    match w {
        Wrap::LinearExtrude => {
            let ghost cv = child;
            let node = linear_extrude_node(calc, m, child);
            proof {
                let e = entries(m@);
                assert forall|r: Reading| #[trigger] calc.agrees(r) implies tree(node)
                    == extruded_tree(r, e, tree(cv)) by {
                    reveal_with_fuel(tree, 3);
                    let height = number_arg_or(e, "height"@, crate::builtins::HUNDRED);
                    assert forall|h: u64| tree(#[trigger] straight(r, e, h, cv)) == straight_tree(
                        r,
                        e,
                        h,
                        tree(cv),
                    ) by {}
                    match direction_of(e) {
                        Some(v) => {
                            let d = leaning(r, height, v);
                            assert(tree(straight(r, e, d.z, cv)) == straight_tree(
                                r,
                                e,
                                d.z,
                                tree(cv),
                            ));
                        },
                        None => {},
                    }
                    assert(tree(straight(r, e, height, cv)) == straight_tree(
                        r,
                        e,
                        height,
                        tree(cv),
                    ));
                }
            }
            node
        },
        Wrap::RotateExtrude => {
            let ghost cv = child;
            let node = rotate_extrude_node(calc, m, a, child);
            proof {
                let e = entries(m@);
                assert(fragments_for(e, *a) == fineness(e, a.fn_@, a.fa@, a.fs@));
                assert(tree(swept(e, *a, cv)) == over(
                    Act::RotateExtrude {
                        angle: number_arg_or(e, "angle"@, crate::tessellate::FULL_TURN),
                        frags: fineness(e, a.fn_@, a.fa@, a.fs@),
                    },
                    tree(cv),
                ));
            }
            node
        },
        Wrap::Offset => offset_node(m, a, child),
        Wrap::Projection => projection_node(m, child),
    }
}

pub(crate) fn draw_group(nodes: Vec<Node>) -> (node: Node)
    ensures
        tree(node) == grouped_tree(tree_list(nodes@)),
{
    proof {
        lemma_trees(nodes);
    }
    group(nodes)
}

fn is_nothing(node: &Node) -> (r: bool)
    ensures
        r == (*node == Node::Empty),
        r == (tree(*node) == Tree::Empty),
{
    match node {
        Node::Empty => true,
        _ => false,
    }
}

// ---- what statements come to ----------------------------------------------------------------------------

/// What statements come to: what they draw or an error, and the questions that
/// have been put by then.
pub ghost struct Outcome {
    pub r: Result<Seq<Tree>, NoteView>,
    pub t: Prog,
}

/// What arguments come to.
pub ghost struct ArgsOut {
    pub r: Result<Passed, NoteView>,
    pub t: Prog,
}

/// What a step without a value comes to.
pub ghost struct StepOut {
    pub r: Result<(), NoteView>,
    pub t: Prog,
}

/// What a call comes to, and where the module is defined.
pub ghost struct CallOut {
    pub r: Result<(Tree, Option<Definition>), NoteView>,
    pub t: Prog,
}

pub open spec fn blank() -> NoteView {
    NoteView { message: Seq::empty(), span: None }
}

pub open spec fn said_value(s: StageSaid) -> Result<Val, NoteView> {
    match s {
        StageSaid::Val(r) => r,
        _ => Err(blank()),
    }
}

pub open spec fn said_done(s: StageSaid) -> Result<(), NoteView> {
    match s {
        StageSaid::Done(r) => r,
        _ => Err(blank()),
    }
}

pub open spec fn said_nodes(s: StageSaid) -> Result<Seq<Tree>, NoteView> {
    match s {
        StageSaid::Nodes(r) => r,
        _ => Err(blank()),
    }
}

pub open spec fn said_called(s: StageSaid) -> Result<(Tree, Option<Definition>), NoteView> {
    match s {
        StageSaid::Called(r) => r,
        _ => Err(blank()),
    }
}

pub open spec fn said_tint(s: StageSaid) -> Option<Rgba> {
    match s {
        StageSaid::Tint(r) => r,
        _ => None,
    }
}

pub open spec fn said_given(s: StageSaid) -> Option<Val> {
    match s {
        StageSaid::Given(r) => r,
        _ => None,
    }
}

pub open spec fn said_or_undef(s: StageSaid) -> Val {
    match said_value(s) {
        Ok(v) => v,
        Err(_) => Val::Undef,
    }
}

/// The answer to the next question.
pub open spec fn reply(o: StageOracle, t: Prog, q: StageAsk) -> StageSaid {
    o(t, q).0
}

/// The program after a question.
pub open spec fn next(o: StageOracle, t: Prog, q: StageAsk) -> Prog {
    o(t, q).1
}

/// An error that points at a statement, unless it points somewhere already.
pub open spec fn pointed(e: NoteView, span: Option<Span>) -> NoteView {
    NoteView {
        message: e.message,
        span: if e.span is Some {
            e.span
        } else {
            span
        },
    }
}

pub open spec fn range_fault() -> NoteView {
    NoteView { message: "range too large"@, span: None }
}

/// The name of an argument.
pub open spec fn arg_label(a: Arg) -> Option<Seq<char>> {
    match a.name {
        Some(n) => Some(n@),
        None => None,
    }
}

/// The arguments from the `i`-th on, after `done`.
pub open spec fn st_args(o: StageOracle, t: Prog, args: Vec<Arg>, i: int, done: Passed) -> ArgsOut
    decreases args@.len() - i,
{
    if i < 0 || i >= args@.len() {
        ArgsOut { r: Ok(done), t }
    } else {
        let q = StageAsk::Eval(args@[i].value);
        match said_value(reply(o, t, q)) {
            Ok(v) => st_args(o, next(o, t, q), args, i + 1, done.push((arg_label(args@[i]), v))),
            Err(e) => ArgsOut { r: Err(e), t: next(o, t, q) },
        }
    }
}

/// A statement takes in a definition.
pub open spec fn defines(s: Stmt) -> bool {
    match s {
        Stmt::FunctionDef { .. } => true,
        Stmt::ModuleDef { .. } => true,
        Stmt::Use { .. } => true,
        _ => false,
    }
}

/// The definitions from the `i`-th statement on.
pub open spec fn st_defs(o: StageOracle, t: Prog, stmts: Vec<Spanned>, i: int) -> StepOut
    decreases stmts@.len() - i,
{
    if i < 0 || i >= stmts@.len() {
        StepOut { r: Ok(()), t }
    } else if defines(*stmts@[i].node) {
        let q = StageAsk::Define(stmts@[i]);
        match said_done(reply(o, t, q)) {
            Ok(_) => st_defs(o, next(o, t, q), stmts, i + 1),
            Err(e) => StepOut { r: Err(e), t: next(o, t, q) },
        }
    } else {
        st_defs(o, t, stmts, i + 1)
    }
}

/// The name that a statement assigns.
pub open spec fn assigned_name(s: Spanned) -> Seq<char> {
    match assigned(s) {
        Some(n) => n,
        None => Seq::empty(),
    }
}

/// The warnings of the dead assignments from the `i`-th on.
pub open spec fn st_dead(
    o: StageOracle,
    c: Ctx,
    t: Prog,
    stmts: Vec<Spanned>,
    dead: Seq<int>,
    i: int,
) -> Prog
    decreases dead.len() - i,
{
    if i < 0 || i >= dead.len() {
        t
    } else {
        let s = stmts@[dead[i]];
        st_dead(
            o,
            c,
            next(o, t, StageAsk::Dead(assigned_name(s), place_of(c.in_main, s))),
            stmts,
            dead,
            i + 1,
        )
    }
}

/// The value that a statement assigns.
pub open spec fn assigned_value(s: Spanned) -> Expr {
    match *s.node {
        Stmt::Assign { value, .. } => value,
        _ => Expr::Undef,
    }
}

/// The assignments to evaluate from the `i`-th on. At the top a value given from
/// outside wins.
pub open spec fn st_assigns(
    o: StageOracle,
    c: Ctx,
    t: Prog,
    top: bool,
    here: Option<Span>,
    stmts: Vec<Spanned>,
    run: Seq<int>,
    i: int,
) -> StepOut
    decreases run.len() - i,
{
    if i < 0 || i >= run.len() {
        StepOut { r: Ok(()), t }
    } else {
        let s = stmts@[run[i]];
        let name = assigned_name(s);
        let place = place_of(c.in_main, s);
        let t1 = next(o, t, StageAsk::At(place));
        let given = if top {
            said_given(reply(o, t1, StageAsk::Given(name)))
        } else {
            None
        };
        let t2 = if top {
            next(o, t1, StageAsk::Given(name))
        } else {
            t1
        };
        let value = match given {
            Some(v) => Ok(v),
            None => said_value(reply(o, t2, StageAsk::Eval(assigned_value(s)))),
        };
        let t3 = match given {
            Some(_) => t2,
            None => next(o, t2, StageAsk::Eval(assigned_value(s))),
        };
        let t4 = next(o, t3, StageAsk::At(here));
        match value {
            Ok(v) => st_assigns(
                o,
                c,
                next(o, t4, StageAsk::Bind(name, v)),
                top,
                here,
                stmts,
                run,
                i + 1,
            ),
            Err(e) => StepOut { r: Err(pointed(e, place)), t: t4 },
        }
    }
}

/// Definitions first, then assignments.
pub open spec fn st_locals(
    o: StageOracle,
    c: Ctx,
    t: Prog,
    top: bool,
    here: Option<Span>,
    stmts: Vec<Spanned>,
) -> StepOut {
    let d = st_defs(o, t, stmts, 0);
    match d.r {
        Err(e) => StepOut { r: Err(e), t: d.t },
        Ok(_) => st_assigns(
            o,
            c,
            st_dead(o, c, d.t, stmts, overwritten(stmts@, stmts@.len() as int), 0),
            top,
            here,
            stmts,
            evaluated(stmts@),
            0,
        ),
    }
}

/// A statement is to be replaced by those of a file.
pub open spec fn has_splice(stmts: Seq<Spanned>) -> bool {
    exists|i: int| 0 <= i < stmts.len() && *(#[trigger] stmts[i]).node is Splice
}

/// Where a call on a statement is placed: in its own source where that is kept,
/// else in the main source.
pub open spec fn site_of(c: Ctx, s: Spanned) -> Option<SourceSpan> {
    if c.detailed {
        Some(
            SourceSpan {
                source_id: s.source_id,
                start: (s.start as int % 0x1_0000_0000) as u32,
                end: (s.end as int % 0x1_0000_0000) as u32,
            },
        )
    } else {
        match place_of(c.in_main, s) {
            Some(p) => Some(
                SourceSpan {
                    source_id: 0,
                    start: (p.start as int % 0x1_0000_0000) as u32,
                    end: (p.end as int % 0x1_0000_0000) as u32,
                },
            ),
            None => None,
        }
    }
}

/// The statements of a block: definitions, assignments, and what draws.
pub open spec fn st_stmts(
    m: Reading,
    o: StageOracle,
    c: Ctx,
    t: Prog,
    top: bool,
    here: Option<Span>,
    stmts: Vec<Spanned>,
) -> Outcome
    decreases stmts, 3int, 0int, 0int,
{
    if has_splice(stmts@) {
        let q = StageAsk::Spliced(stmts);
        Outcome { r: said_nodes(reply(o, t, q)), t: next(o, t, q) }
    } else {
        let l = st_locals(o, c, t, top, here, stmts);
        match l.r {
            Err(e) => Outcome { r: Err(e), t: l.t },
            Ok(_) => st_geoms(m, o, c, l.t, here, stmts, 0, Seq::empty()),
        }
    }
}

/// What the statements from the `i`-th on draw, after `done`.
pub open spec fn st_geoms(
    m: Reading,
    o: StageOracle,
    c: Ctx,
    t: Prog,
    here: Option<Span>,
    stmts: Vec<Spanned>,
    i: int,
    done: Seq<Tree>,
) -> Outcome
    decreases stmts, 2int, stmts@.len() - i, 0int,
{
    if i < 0 || i >= stmts@.len() {
        Outcome { r: Ok(done), t }
    } else {
        let s = stmts@[i];
        if is_local(*s.node) {
            st_geoms(m, o, c, t, here, stmts, i + 1, done)
        } else {
            let place = place_of(c.in_main, s);
            let g = st_geom(
                m,
                o,
                c,
                next(o, t, StageAsk::At(place)),
                place,
                site_of(c, s),
                *s.node,
            );
            let t2 = next(o, g.t, StageAsk::At(here));
            match g.r {
                Ok(v) => st_geoms(m, o, c, t2, here, stmts, i + 1, done + v),
                Err(e) => Outcome { r: Err(pointed(e, place)), t: t2 },
            }
        }
    }
}

/// Statements in a scope of their own.
pub open spec fn st_inner(
    m: Reading,
    o: StageOracle,
    c: Ctx,
    t: Prog,
    here: Option<Span>,
    stmts: Vec<Spanned>,
) -> Outcome
    decreases stmts, 4int, 0int, 0int,
{
    let g = st_stmts(m, o, c, next(o, t, StageAsk::Enter), false, here, stmts);
    Outcome { r: g.r, t: next(o, g.t, StageAsk::Leave) }
}

/// The bindings from the `i`-th on, each seeing those before it.
pub open spec fn st_lets(o: StageOracle, t: Prog, list: Vec<Binding>, i: int) -> StepOut
    decreases list@.len() - i,
{
    if i < 0 || i >= list@.len() {
        StepOut { r: Ok(()), t }
    } else {
        let q = StageAsk::Eval(list@[i].value);
        match said_value(reply(o, t, q)) {
            Ok(v) => st_lets(
                o,
                next(o, next(o, t, q), StageAsk::Bind(list@[i].name@, v)),
                list,
                i + 1,
            ),
            Err(e) => StepOut { r: Err(e), t: next(o, t, q) },
        }
    }
}

/// What a statement draws.
pub open spec fn st_geom(
    m: Reading,
    o: StageOracle,
    c: Ctx,
    t: Prog,
    here: Option<Span>,
    site: Option<SourceSpan>,
    s: Stmt,
) -> Outcome
    decreases s, 0int, 0int, 0int,
{
    match s {
        Stmt::Block(stmts) => st_inner(m, o, c, t, here, stmts),
        Stmt::If { cond, yes, no } => {
            let q = StageAsk::Eval(cond);
            match said_value(reply(o, t, q)) {
                Ok(v) => if truth(v) {
                    st_inner(m, o, c, next(o, t, q), here, yes)
                } else {
                    st_inner(m, o, c, next(o, t, q), here, no)
                },
                Err(e) => Outcome { r: Err(e), t: next(o, t, q) },
            }
        },
        Stmt::For { bindings, body } => st_for(m, o, c, t, here, bindings, body, 0, Seq::empty()),
        Stmt::Let { bindings, body } => {
            let l = st_lets(o, next(o, t, StageAsk::Enter), bindings, 0);
            match l.r {
                Ok(_) => {
                    let g = st_stmts(m, o, c, l.t, false, here, body);
                    Outcome { r: g.r, t: next(o, g.t, StageAsk::Leave) }
                },
                Err(e) => Outcome { r: Err(e), t: next(o, l.t, StageAsk::Leave) },
            }
        },
        Stmt::ModuleCall { modifier, name, args, children } => st_call(
            m,
            o,
            c,
            t,
            here,
            site,
            modifier,
            name@,
            args,
            *children,
        ),
        _ => Outcome { r: Ok(Seq::empty()), t },
    }
}

/// A loop from its `b`-th variable on, after `done`.
pub open spec fn st_for(
    m: Reading,
    o: StageOracle,
    c: Ctx,
    t: Prog,
    here: Option<Span>,
    bindings: Vec<Binding>,
    body: Vec<Spanned>,
    b: int,
    done: Seq<Tree>,
) -> Outcome
    decreases body, 5int, bindings@.len() - b, 0int,
{
    if b < 0 || b >= bindings@.len() {
        let g = st_inner(m, o, c, t, here, body);
        match g.r {
            Ok(v) => Outcome { r: Ok(done + v), t: g.t },
            Err(e) => Outcome { r: Err(e), t: g.t },
        }
    } else {
        let q = StageAsk::Eval(bindings@[b].value);
        match said_value(reply(o, t, q)) {
            Ok(v) => match iterated(m, v) {
                Some(values) => st_each(
                    m,
                    o,
                    c,
                    next(o, t, q),
                    here,
                    bindings,
                    body,
                    b,
                    values,
                    0,
                    done,
                ),
                None => Outcome { r: Err(range_fault()), t: next(o, t, q) },
            },
            Err(e) => Outcome { r: Err(e), t: next(o, t, q) },
        }
    }
}

/// The values of a loop's variable from the `i`-th on. Each takes a step from
/// the budget.
pub open spec fn st_each(
    m: Reading,
    o: StageOracle,
    c: Ctx,
    t: Prog,
    here: Option<Span>,
    bindings: Vec<Binding>,
    body: Vec<Spanned>,
    b: int,
    values: Seq<Val>,
    i: int,
    done: Seq<Tree>,
) -> Outcome
    decreases body, 5int, bindings@.len() - b - 1, values.len() - i + 1,
{
    if i < 0 || i >= values.len() || b < 0 || b >= bindings@.len() {
        Outcome { r: Ok(done), t }
    } else {
        match said_done(reply(o, t, StageAsk::Burn)) {
            Err(e) => Outcome { r: Err(e), t: next(o, t, StageAsk::Burn) },
            Ok(_) => {
                let t1 = next(o, next(o, next(o, t, StageAsk::Burn), StageAsk::Enter), StageAsk::Bind(bindings@[b].name@, values[i]));
                let g = st_for(m, o, c, t1, here, bindings, body, b + 1, done);
                let t2 = next(o, g.t, StageAsk::Leave);
                match g.r {
                    Ok(v) => st_each(m, o, c, t2, here, bindings, body, b, values, i + 1, v),
                    Err(e) => Outcome { r: Err(e), t: t2 },
                }
            },
        }
    }
}

/// The operands of an intersection over loops, from the `a`-th variable on.
pub open spec fn st_meet(
    m: Reading,
    o: StageOracle,
    c: Ctx,
    t: Prog,
    here: Option<Span>,
    args: Vec<Arg>,
    children: Vec<Spanned>,
    a: int,
    done: Seq<Tree>,
) -> Outcome
    decreases children, 5int, args@.len() - a, 0int,
{
    if a < 0 || a >= args@.len() {
        let g = st_inner(m, o, c, t, here, children);
        match g.r {
            Ok(v) => Outcome { r: Ok(done.push(grouped_tree(v))), t: g.t },
            Err(e) => Outcome { r: Err(e), t: g.t },
        }
    } else {
        let q = StageAsk::Eval(args@[a].value);
        match said_value(reply(o, t, q)) {
            Ok(v) => match iterated(m, v) {
                Some(values) => st_meet_each(
                    m,
                    o,
                    c,
                    next(o, t, q),
                    here,
                    args,
                    children,
                    a,
                    values,
                    0,
                    done,
                ),
                None => Outcome { r: Err(range_fault()), t: next(o, t, q) },
            },
            Err(e) => Outcome { r: Err(e), t: next(o, t, q) },
        }
    }
}

/// The values of one variable from the `i`-th on. A variable without a name is
/// bound to nothing.
pub open spec fn st_meet_each(
    m: Reading,
    o: StageOracle,
    c: Ctx,
    t: Prog,
    here: Option<Span>,
    args: Vec<Arg>,
    children: Vec<Spanned>,
    a: int,
    values: Seq<Val>,
    i: int,
    done: Seq<Tree>,
) -> Outcome
    decreases children, 5int, args@.len() - a - 1, values.len() - i + 1,
{
    if i < 0 || i >= values.len() || a < 0 || a >= args@.len() {
        Outcome { r: Ok(done), t }
    } else {
        match said_done(reply(o, t, StageAsk::Burn)) {
            Err(e) => Outcome { r: Err(e), t: next(o, t, StageAsk::Burn) },
            Ok(_) => {
                let t1 = next(o, next(o, t, StageAsk::Burn), StageAsk::Enter);
                let t2 = match arg_label(args@[a]) {
                    Some(name) => next(o, t1, StageAsk::Bind(name, values[i])),
                    None => t1,
                };
                let g = st_meet(m, o, c, t2, here, args, children, a + 1, done);
                let t3 = next(o, g.t, StageAsk::Leave);
                match g.r {
                    Ok(v) => st_meet_each(
                        m,
                        o,
                        c,
                        t3,
                        here,
                        args,
                        children,
                        a,
                        values,
                        i + 1,
                        v,
                    ),
                    Err(e) => Outcome { r: Err(e), t: t3 },
                }
            },
        }
    }
}

/// The questions on how finely curves are drawn.
pub open spec fn asked_around(o: StageOracle, t: Prog) -> Prog {
    next(o, next(o, next(o, t, StageAsk::Around("$fn"@)), StageAsk::Around("$fa"@)), StageAsk::Around("$fs"@))
}

/// How finely curves are drawn.
pub open spec fn st_fineness(o: StageOracle, t: Prog, m: Env) -> FragmentSpec {
    fineness(
        m,
        said_or_undef(reply(o, t, StageAsk::Around("$fn"@))),
        said_or_undef(reply(o, next(o, t, StageAsk::Around("$fn"@)), StageAsk::Around("$fa"@))),
        said_or_undef(reply(o, next(o, next(o, t, StageAsk::Around("$fn"@)), StageAsk::Around("$fa"@)), StageAsk::Around("$fs"@))),
    )
}

/// A call that no authored module answers.
pub open spec fn plain(r: Result<Tree, NoteView>, t: Prog) -> CallOut {
    CallOut {
        r: match r {
            Ok(n) => Ok((n, None)),
            Err(e) => Err(e),
        },
        t,
    }
}

/// The arguments by name.
pub open spec fn env_of(k: Known, p: Passed) -> Env {
    bound_args(positional(k), p, p.len() as int)
}

/// A color over children that draw something: the one that the value stands for,
/// else the default with the given transparency, else none.
pub open spec fn st_color(m: Reading, o: StageOracle, t: Prog, e: Env, child: Tree) -> CallOut {
    let alpha = number_arg(e, "alpha"@);
    let tint = match found(e, "c"@) {
        Some(v) => said_tint(reply(o, t, StageAsk::Tint(v, alpha))),
        None => None,
    };
    let t1 = match found(e, "c"@) {
        Some(v) => {
            let asked = next(o, t, StageAsk::Tint(v, alpha));
            if tint is None {
                next(o, asked, StageAsk::UnknownColor(v))
            } else {
                asked
            }
        },
        None => t,
    };
    plain(
        Ok(
            match (tint, alpha) {
                (Some(rgba), _) => over(Act::Color(rgba), child),
                (None, Some(a)) => over(Act::Color(default_tint(m, a)), child),
                (None, None) => child,
            },
        ),
        t1,
    )
}

/// What a call of a module comes to.
pub open spec fn st_dispatch(
    m: Reading,
    o: StageOracle,
    c: Ctx,
    t: Prog,
    here: Option<Span>,
    name: Seq<char>,
    args: Vec<Arg>,
    children: Vec<Spanned>,
) -> CallOut
    decreases children, 6int, 0int, 0int,
{
    let k = known(name);
    match k {
        Known::Solid(s) => {
            let a = st_args(o, t, args, 0, Seq::empty());
            match a.r {
                Ok(p) => plain(
                    Ok(solid_tree(m, s, env_of(k, p), st_fineness(o, a.t, env_of(k, p)))),
                    asked_around(o, a.t),
                ),
                Err(e) => plain(Err(e), a.t),
            }
        },
        Known::Wrap(w) => {
            let a = st_args(o, t, args, 0, Seq::empty());
            match a.r {
                Ok(p) => {
                    let g = st_inner(m, o, c, asked_around(o, a.t), here, children);
                    match g.r {
                        Ok(v) => plain(
                            Ok(
                                wrapped_tree(
                                    m,
                                    w,
                                    env_of(k, p),
                                    st_fineness(o, a.t, env_of(k, p)),
                                    grouped_tree(v),
                                ),
                            ),
                            g.t,
                        ),
                        Err(e) => plain(Err(e), g.t),
                    }
                },
                Err(e) => plain(Err(e), a.t),
            }
        },
        Known::Color => {
            let a = st_args(o, t, args, 0, Seq::empty());
            match a.r {
                Ok(p) => {
                    let g = st_inner(m, o, c, a.t, here, children);
                    match g.r {
                        Ok(v) => if grouped_tree(v) == Tree::Empty {
                            plain(Ok(Tree::Empty), g.t)
                        } else {
                            st_color(m, o, g.t, env_of(k, p), grouped_tree(v))
                        },
                        Err(e) => plain(Err(e), g.t),
                    }
                },
                Err(e) => plain(Err(e), a.t),
            }
        },
        Known::IntersectionFor => if args@.len() == 0 {
            plain(Ok(Tree::Many(Join::Intersection, Seq::empty())), t)
        } else {
            let g = st_meet(m, o, c, t, here, args, children, 0, Seq::empty());
            match g.r {
                Ok(v) => plain(Ok(Tree::Many(Join::Intersection, v)), g.t),
                Err(e) => plain(Err(e), g.t),
            }
        },
        Known::Echo => {
            let a = st_args(o, t, args, 0, Seq::empty());
            match a.r {
                Ok(p) => {
                    let g = st_inner(m, o, c, next(o, a.t, StageAsk::Echo(p)), here, children);
                    match g.r {
                        Ok(v) => plain(Ok(grouped_tree(v)), g.t),
                        Err(e) => plain(Err(e), g.t),
                    }
                },
                Err(e) => plain(Err(e), a.t),
            }
        },
        Known::Assert => {
            let q = StageAsk::Check(args);
            match said_value(reply(o, t, q)) {
                Ok(_) => {
                    let g = st_inner(m, o, c, next(o, t, q), here, children);
                    match g.r {
                        Ok(v) => plain(Ok(grouped_tree(v)), g.t),
                        Err(e) => plain(Err(e), g.t),
                    }
                },
                Err(e) => plain(Err(e), next(o, t, q)),
            }
        },
        Known::Other => {
            let q = StageAsk::Call { name, args, children };
            CallOut { r: said_called(reply(o, t, q)), t: next(o, t, q) }
        },
        _ => {
            let g = st_inner(m, o, c, t, here, children);
            match g.r {
                Err(e) => plain(Err(e), g.t),
                Ok(v) => match k {
                    Known::Group => plain(Ok(grouped_tree(v)), g.t),
                    Known::Union => plain(Ok(Tree::Many(Join::Union, v)), g.t),
                    Known::Difference => plain(Ok(Tree::Many(Join::Difference, v)), g.t),
                    Known::Intersection => plain(Ok(Tree::Many(Join::Intersection, v)), g.t),
                    Known::Hull => plain(Ok(Tree::Many(Join::Hull, v)), g.t),
                    Known::Minkowski => plain(Ok(Tree::Many(Join::Minkowski, v)), g.t),
                    _ => st_moved(m, o, g.t, k, args, grouped_tree(v)),
                },
            }
        },
    }
}

/// A motion of children: nothing stays nothing, and the arguments are not read
/// for it.
pub open spec fn st_moved(
    m: Reading,
    o: StageOracle,
    t: Prog,
    k: Known,
    args: Vec<Arg>,
    child: Tree,
) -> CallOut {
    if child == Tree::Empty {
        plain(Ok(Tree::Empty), t)
    } else {
        let a = st_args(o, t, args, 0, Seq::empty());
        match a.r {
            Err(e) => plain(Err(e), a.t),
            Ok(p) => {
                let e = env_of(k, p);
                match k {
                    Known::Move(kind) => plain(Ok(moved_tree(m, kind, e, child)), a.t),
                    Known::Matrix => plain(
                        Ok(
                            over(
                                Act::Matrix(
                                    matrix_of(
                                        match found(e, "m"@) {
                                            Some(v) => v,
                                            None => Val::Undef,
                                        },
                                    ),
                                ),
                                child,
                            ),
                        ),
                        a.t,
                    ),
                    _ => plain(
                        Ok(
                            over(
                                Act::Resize {
                                    new: vec3_arg_or(e, "newsize"@, null_point()),
                                    auto_x: follows(e, 0),
                                    auto_y: follows(e, 1),
                                    auto_z: follows(e, 2),
                                },
                                child,
                            ),
                        ),
                        a.t,
                    ),
                }
            },
        }
    }
}

/// What was drawn, marked as the call says and placed where it stands.
pub open spec fn marked(
    modifier: Option<Modifier>,
    site: Option<SourceSpan>,
    name: Seq<char>,
    node: Tree,
    d: Option<Definition>,
) -> Tree {
    if node == Tree::Empty {
        Tree::Empty
    } else {
        let shown = match modifier {
            Some(Modifier::Highlight) => over(Act::Highlight, node),
            Some(Modifier::Background) => over(Act::Background, node),
            _ => node,
        };
        match site {
            Some(call_site) => over(
                Act::Provenance(
                    FrameView {
                        call_site,
                        definition_site: match d {
                            Some(x) => x.site,
                            None => None,
                        },
                        module_name: match d {
                            Some(_) => Some(name),
                            None => None,
                        },
                    },
                ),
                shown,
            ),
            None => shown,
        }
    }
}

/// What a module call draws.
pub open spec fn st_call(
    m: Reading,
    o: StageOracle,
    c: Ctx,
    t: Prog,
    here: Option<Span>,
    site: Option<SourceSpan>,
    modifier: Option<Modifier>,
    name: Seq<char>,
    args: Vec<Arg>,
    children: Vec<Spanned>,
) -> Outcome
    decreases children, 7int, 0int, 0int,
{
    if modifier == Some(Modifier::Disable) {
        Outcome { r: Ok(Seq::empty()), t }
    } else {
        let d = st_dispatch(m, o, c, t, here, name, args, children);
        match d.r {
            Err(e) => Outcome { r: Err(e), t: d.t },
            Ok((node, def)) => {
                let n = marked(modifier, site, name, node, def);
                let t1 = if modifier == Some(Modifier::Root) {
                    next(o, d.t, StageAsk::Root(n))
                } else {
                    d.t
                };
                Outcome {
                    r: Ok(
                        if n == Tree::Empty {
                            Seq::empty()
                        } else {
                            seq![n]
                        },
                    ),
                    t: t1,
                }
            },
        }
    }
}

// ---- running statements -------------------------------------------------------------------------------------

/// What arguments say, or why they cannot be evaluated.
pub open spec fn args_note(r: Result<Vec<PassedArg>, EvalError>) -> Result<Passed, NoteView> {
    match r {
        Ok(v) => Ok(passed(v@)),
        Err(e) => Err(e@),
    }
}

/// Evaluates the arguments of a call.
fn run_args<L: Library, A: Arithmetic>(s: &mut Stage<L, A>, args: &Vec<Arg>) -> (r: Result<
    Vec<PassedArg>,
    EvalError,
>)
    requires
        old(s).wf(),
    ensures
        final(s).wf(),
        final(s).keeps(*old(s)),
        forall|m: Reading, o: FileOracle|
            #![trigger final(s).it.calc.agrees(m), final(s).log.agrees(o)]
            final(s).it.calc.agrees(m) && final(s).log.agrees(o) ==> old(s).it.calc.agrees(m) && old(
                s,
            ).log.agrees(o) && (ArgsOut { r: args_note(r), t: final(s).prog() }) == st_args(
                old(s).world(m, o),
                old(s).prog(),
                *args,
                0,
                Seq::empty(),
            ),
{
    let ghost s0 = *s;
    let mut out: Vec<PassedArg> = Vec::new();
    let mut i: usize = 0;
    assert(passed(out@) =~= Seq::empty());
    while i < args.len()
        invariant
            *old(s) == s0,
            i <= args@.len(),
            s.wf(),
            s.keeps(s0),
            forall|m: Reading, o: FileOracle|
                #![trigger s.it.calc.agrees(m), s.log.agrees(o)]
                s.it.calc.agrees(m) && s.log.agrees(o) ==> s0.it.calc.agrees(m) && s0.log.agrees(o)
                    && st_args(old(s).world(m, o), s0.prog(), *args, 0, Seq::empty()) == st_args(
                    old(s).world(m, o),
                    s.prog(),
                    *args,
                    i as int,
                    passed(out@),
                ),
        decreases args.len() - i,
    {
        match s.ask_eval(&args[i].value) {
            Ok(value) => {
                let ghost held = passed(out@);
                let ghost vv = value@;
                let name = match &args[i].name {
                    Some(n) => Some(n.clone()),
                    None => None,
                };
                let one = PassedArg { name, value };
                out.push(one);
                assert(passed(out@) =~= held.push((arg_label(args@[i as int]), vv)));
            },
            Err(e) => return Err(e),
        }
        i = i + 1;
    }
    Ok(out)
}

/// Takes in the definitions of a block.
fn run_defs<L: Library, A: Arithmetic>(
    s: &mut Stage<L, A>,
    stmts: &Vec<Spanned>,
) -> (r: Result<(), EvalError>)
    requires
        old(s).wf(),
    ensures
        final(s).wf(),
        final(s).keeps(*old(s)),
        forall|m: Reading, o: FileOracle|
            #![trigger final(s).it.calc.agrees(m), final(s).log.agrees(o)]
            final(s).it.calc.agrees(m) && final(s).log.agrees(o) ==> old(s).it.calc.agrees(m) && old(
                s,
            ).log.agrees(o) && (StepOut { r: done_note(r), t: final(s).prog() }) == st_defs(
                old(s).world(m, o),
                old(s).prog(),
                *stmts,
                0,
            ),
    decreases old(s).nesting, old(s).it.depth, old(s).frames@.len(), 7int,
{
    let ghost s0 = *s;
    let mut i: usize = 0;
    while i < stmts.len()
        invariant
            *old(s) == s0,
            i <= stmts@.len(),
            s.wf(),
            s.keeps(s0),
            forall|m: Reading, o: FileOracle|
                #![trigger s.it.calc.agrees(m), s.log.agrees(o)]
                s.it.calc.agrees(m) && s.log.agrees(o) ==> s0.it.calc.agrees(m) && s0.log.agrees(o)
                    && st_defs(old(s).world(m, o), s0.prog(), *stmts, 0) == st_defs(
                    old(s).world(m, o),
                    s.prog(),
                    *stmts,
                    i as int,
                ),
        decreases stmts.len() - i,
    {
        let takes: bool = match &*stmts[i].node {
            Stmt::FunctionDef { .. } => true,
            Stmt::ModuleDef { .. } => true,
            Stmt::Use { .. } => true,
            _ => false,
        };
        assert(takes == defines(*stmts@[i as int].node));
        if takes {
            match ask_define(s, &stmts[i]) {
                Ok(_) => {},
                Err(e) => return Err(e),
            }
        }
        i = i + 1;
    }
    Ok(())
}

/// Places as whole numbers.
pub open spec fn as_places(v: Seq<usize>) -> Seq<int> {
    v.map_values(|i: usize| i as int)
}

fn name_of(s: &Spanned) -> (r: &str)
    ensures
        r@ == assigned_name(*s),
{
    match &*s.node {
        Stmt::Assign { name, .. } => name.as_str(),
        _ => {
            let none = "";
            proof {
                reveal_strlit("");
                assert(none@ =~= Seq::empty());
            }
            none
        },
    }
}

/// Warns of the dead assignments of a block.
fn run_dead<L: Library, A: Arithmetic>(s: &mut Stage<L, A>, stmts: &Vec<Spanned>, dead: &Vec<usize>)
    requires
        old(s).wf(),
        forall|i: int| 0 <= i < dead@.len() ==> (#[trigger] dead@[i]) < stmts@.len(),
    ensures
        final(s).wf(),
        final(s).keeps(*old(s)),
        forall|m: Reading, o: FileOracle|
            #![trigger final(s).it.calc.agrees(m), final(s).log.agrees(o)]
            final(s).it.calc.agrees(m) && final(s).log.agrees(o) ==> old(s).it.calc.agrees(m) && old(
                s,
            ).log.agrees(o) && final(s).prog() == st_dead(
                old(s).world(m, o),
                old(s).ctx(),
                old(s).prog(),
                *stmts,
                as_places(dead@),
                0,
            ),
{
    let ghost s0 = *s;
    let ghost dv = as_places(dead@);
    let mut i: usize = 0;
    while i < dead.len()
        invariant
            *old(s) == s0,
            i <= dead@.len(),
            dv == as_places(dead@),
            forall|k: int| 0 <= k < dead@.len() ==> (#[trigger] dead@[k]) < stmts@.len(),
            s.wf(),
            s.keeps(s0),
            forall|m: Reading, o: FileOracle|
                #![trigger s.it.calc.agrees(m), s.log.agrees(o)]
                s.it.calc.agrees(m) && s.log.agrees(o) ==> s0.it.calc.agrees(m) && s0.log.agrees(o)
                    && st_dead(s0.world(m, o), s0.ctx(), s0.prog(), *stmts, dv, 0) == st_dead(
                    s0.world(m, o),
                    s0.ctx(),
                    s.prog(),
                    *stmts,
                    dv,
                    i as int,
                ),
        decreases dead.len() - i,
    {
        assert(dead@[i as int] < stmts@.len());
        let one = &stmts[dead[i]];
        assert(dv[i as int] == dead@[i as int]);
        let place = stmt_span(s.in_main, one);
        s.ask_dead(name_of(one), place);
        i = i + 1;
    }
}

/// Evaluates the assignments of a block.
fn run_assigns<L: Library, A: Arithmetic>(
    s: &mut Stage<L, A>,
    top: bool,
    here: Option<Span>,
    stmts: &Vec<Spanned>,
    run: &Vec<usize>,
) -> (r: Result<(), EvalError>)
    requires
        old(s).wf(),
        forall|i: int| 0 <= i < run@.len() ==> (#[trigger] run@[i]) < stmts@.len(),
    ensures
        final(s).wf(),
        final(s).keeps(*old(s)),
        forall|m: Reading, o: FileOracle|
            #![trigger final(s).it.calc.agrees(m), final(s).log.agrees(o)]
            final(s).it.calc.agrees(m) && final(s).log.agrees(o) ==> old(s).it.calc.agrees(m) && old(
                s,
            ).log.agrees(o) && (StepOut { r: done_note(r), t: final(s).prog() }) == st_assigns(
                old(s).world(m, o),
                old(s).ctx(),
                old(s).prog(),
                top,
                here,
                *stmts,
                as_places(run@),
                0,
            ),
{
    let ghost s0 = *s;
    let ghost rv = as_places(run@);
    let mut i: usize = 0;
    while i < run.len()
        invariant
            *old(s) == s0,
            i <= run@.len(),
            rv == as_places(run@),
            forall|k: int| 0 <= k < run@.len() ==> (#[trigger] run@[k]) < stmts@.len(),
            s.wf(),
            s.keeps(s0),
            forall|m: Reading, o: FileOracle|
                #![trigger s.it.calc.agrees(m), s.log.agrees(o)]
                s.it.calc.agrees(m) && s.log.agrees(o) ==> s0.it.calc.agrees(m) && s0.log.agrees(o)
                    && st_assigns(old(s).world(m, o), s0.ctx(), s0.prog(), top, here, *stmts, rv, 0) == st_assigns(
                    old(s).world(m, o),
                    s0.ctx(),
                    s.prog(),
                    top,
                    here,
                    *stmts,
                    rv,
                    i as int,
                ),
        decreases run.len() - i,
    {
        assert(run@[i as int] < stmts@.len());
        let one = &stmts[run[i]];
        assert(rv[i as int] == run@[i as int]);
        let place = stmt_span(s.in_main, one);
        let name = name_of(one);
        s.ask_at(place);
        let given = if top {
            s.ask_given(name)
        } else {
            None
        };
        let value = match given {
            Some(v) => Ok(v),
            None => run_value(s, one),
        };
        s.ask_at(here);
        match value {
            Ok(v) => {
                s.ask_bind(name, &v);
            },
            Err(e) => return Err(e.or_span(place)),
        }
        i = i + 1;
    }
    Ok(())
}

/// The value that a statement assigns.
fn run_value<L: Library, A: Arithmetic>(
    s: &mut Stage<L, A>,
    one: &Spanned,
) -> (r: Result<Value, EvalError>)
    requires
        old(s).wf(),
    ensures
        final(s).wf(),
        final(s).keeps(*old(s)),
        forall|m: Reading, o: FileOracle|
            #![trigger final(s).it.calc.agrees(m), final(s).log.agrees(o)]
            final(s).it.calc.agrees(m) && final(s).log.agrees(o) ==> old(s).it.calc.agrees(m) && old(
                s,
            ).log.agrees(o) && old(s).world(m, o)(
                old(s).prog(),
                StageAsk::Eval(assigned_value(*one)),
            ) == (StageSaid::Val(value_note(r)), final(s).prog()),
{
    match &*one.node {
        Stmt::Assign { value, .. } => s.ask_eval(value),
        _ => {
            let none = Expr::Undef;
            s.ask_eval(&none)
        },
    }
}

/// Runs the definitions and the assignments of a block.
pub fn run_locals<L: Library, A: Arithmetic>(
    s: &mut Stage<L, A>,
    top: bool,
    here: Option<Span>,
    stmts: &Vec<Spanned>,
) -> (r: Result<(), EvalError>)
    requires
        old(s).wf(),
    ensures
        final(s).wf(),
        final(s).keeps(*old(s)),
        forall|m: Reading, o: FileOracle|
            #![trigger final(s).it.calc.agrees(m), final(s).log.agrees(o)]
            final(s).it.calc.agrees(m) && final(s).log.agrees(o) ==> old(s).it.calc.agrees(m) && old(
                s,
            ).log.agrees(o) && (StepOut { r: done_note(r), t: final(s).prog() }) == st_locals(
                old(s).world(m, o),
                old(s).ctx(),
                old(s).prog(),
                top,
                here,
                *stmts,
            ),
    decreases old(s).nesting, old(s).it.depth, old(s).frames@.len(), 8int,
{
    match run_defs(s, stmts) {
        Ok(_) => {},
        Err(e) => return Err(e),
    }
    let plan = plan_assignments(stmts);
    proof {
        assert(as_places(plan.dead@) =~= overwritten(stmts@, stmts@.len() as int));
        assert(as_places(plan.run@) =~= evaluated(stmts@));
    }
    run_dead(s, stmts, &plan.dead);
    run_assigns(s, top, here, stmts, &plan.run)
}

fn any_splice(stmts: &Vec<Spanned>) -> (r: bool)
    ensures
        r == has_splice(stmts@),
{
    let mut i: usize = 0;
    while i < stmts.len()
        invariant
            i <= stmts@.len(),
            forall|k: int| 0 <= k < i ==> !(*(#[trigger] stmts@[k]).node is Splice),
        decreases stmts.len() - i,
    {
        match &*stmts[i].node {
            Stmt::Splice { .. } => {
                assert(*stmts@[i as int].node is Splice);
                return true;
            },
            _ => {},
        }
        i = i + 1;
    }
    false
}

fn find_site<L: Library, A: Arithmetic>(s: &Stage<L, A>, one: &Spanned) -> (r: Option<SourceSpan>)
    ensures
        r == site_of(s.ctx(), *one),
{
    let own = source_span(one);
    if s.detailed {
        Some(own)
    } else {
        match stmt_span(s.in_main, one) {
            Some(_) => Some(SourceSpan { source_id: 0, start: own.start, end: own.end }),
            None => None,
        }
    }
}

/// Runs the statements of a block: definitions, assignments, and what draws.
pub fn eval_stmts<L: Library, A: Arithmetic>(
    s: &mut Stage<L, A>,
    top: bool,
    here: Option<Span>,
    stmts: &Vec<Spanned>,
) -> (r: Result<Vec<Node>, EvalError>)
    requires
        old(s).wf(),
    ensures
        final(s).wf(),
        final(s).keeps(*old(s)),
        forall|m: Reading, o: FileOracle|
            #![trigger final(s).it.calc.agrees(m), final(s).log.agrees(o)]
            final(s).it.calc.agrees(m) && final(s).log.agrees(o) ==> old(s).it.calc.agrees(m) && old(
                s,
            ).log.agrees(o) && (Outcome { r: nodes_note(r), t: final(s).prog() }) == st_stmts(
                m,
                old(s).world(m, o),
                old(s).ctx(),
                old(s).prog(),
                top,
                here,
                *stmts,
            ),
    decreases old(s).nesting, old(s).it.depth, old(s).frames@.len(), 9int, *stmts, 3int, 0int, 0int,
{
    if any_splice(stmts) {
        return ask_spliced(s, stmts);
    }
    match run_locals(s, top, here, stmts) {
        Ok(_) => {},
        Err(e) => return Err(e),
    }
    let ghost s0 = *s;
    let mut out: Vec<Node> = Vec::new();
    let mut i: usize = 0;
    assert(tree_list(out@) =~= Seq::empty());
    let ghost start = *old(s);
    while i < stmts.len()
        invariant
            i <= stmts@.len(),
            start == *old(s),
            !has_splice(stmts@),
            s0.keeps(start),
            s.wf(),
            s.keeps(start),
            forall|m: Reading, o: FileOracle|
                #![trigger s0.it.calc.agrees(m), s0.log.agrees(o)]
                s0.it.calc.agrees(m) && s0.log.agrees(o) ==> start.it.calc.agrees(m) && start.log.agrees(o)
                    && st_stmts(m, old(s).world(m, o), start.ctx(), start.prog(), top, here, *stmts) == st_geoms(
                    m,
                    old(s).world(m, o),
                    start.ctx(),
                    s0.prog(),
                    here,
                    *stmts,
                    0,
                    Seq::empty(),
                ),
            forall|m: Reading, o: FileOracle|
                #![trigger s.it.calc.agrees(m), s.log.agrees(o)]
                s.it.calc.agrees(m) && s.log.agrees(o) ==> s0.it.calc.agrees(m) && s0.log.agrees(o)
                    && st_geoms(
                    m,
                    old(s).world(m, o),
                    start.ctx(),
                    s0.prog(),
                    here,
                    *stmts,
                    0,
                    Seq::empty(),
                ) == st_geoms(
                    m,
                    old(s).world(m, o),
                    start.ctx(),
                    s.prog(),
                    here,
                    *stmts,
                    i as int,
                    tree_list(out@),
                ),
        decreases stmts.len() - i,
    {
        let one = &stmts[i];
        let local: bool = match &*one.node {
            Stmt::Assign { .. } => true,
            Stmt::FunctionDef { .. } => true,
            Stmt::ModuleDef { .. } => true,
            Stmt::Use { .. } => true,
            Stmt::Splice { .. } => true,
            _ => false,
        };
        assert(local == is_local(*one.node));
        if !local {
            let place = stmt_span(s.in_main, one);
            let site = find_site(s, one);
            s.ask_at(place);
            let drawn = eval_geom(s, place, site, &*one.node);
            s.ask_at(here);
            match drawn {
                Ok(v) => {
                    let ghost held = tree_list(out@);
                    let ghost added = tree_list(v@);
                    let mut more = v;
                    out.append(&mut more);
                    assert(tree_list(out@) =~= held + added);
                },
                Err(e) => return Err(e.or_span(place)),
            }
        }
        i = i + 1;
    }
    Ok(out)
}

/// Runs statements in a scope of their own.
fn eval_children<L: Library, A: Arithmetic>(
    s: &mut Stage<L, A>,
    here: Option<Span>,
    stmts: &Vec<Spanned>,
) -> (r: Result<Vec<Node>, EvalError>)
    requires
        old(s).wf(),
    ensures
        final(s).wf(),
        final(s).keeps(*old(s)),
        forall|m: Reading, o: FileOracle|
            #![trigger final(s).it.calc.agrees(m), final(s).log.agrees(o)]
            final(s).it.calc.agrees(m) && final(s).log.agrees(o) ==> old(s).it.calc.agrees(m) && old(
                s,
            ).log.agrees(o) && (Outcome { r: nodes_note(r), t: final(s).prog() }) == st_inner(
                m,
                old(s).world(m, o),
                old(s).ctx(),
                old(s).prog(),
                here,
                *stmts,
            ),
    decreases old(s).nesting, old(s).it.depth, old(s).frames@.len(), 9int, *stmts, 4int, 0int, 0int,
{
    s.ask_enter();
    let r = eval_stmts(s, false, here, stmts);
    s.ask_leave();
    r
}

/// Binds the names of a `let`, each seeing those before it.
fn run_lets<L: Library, A: Arithmetic>(
    s: &mut Stage<L, A>,
    list: &Vec<Binding>,
) -> (r: Result<(), EvalError>)
    requires
        old(s).wf(),
    ensures
        final(s).wf(),
        final(s).keeps(*old(s)),
        forall|m: Reading, o: FileOracle|
            #![trigger final(s).it.calc.agrees(m), final(s).log.agrees(o)]
            final(s).it.calc.agrees(m) && final(s).log.agrees(o) ==> old(s).it.calc.agrees(m) && old(
                s,
            ).log.agrees(o) && (StepOut { r: done_note(r), t: final(s).prog() }) == st_lets(
                old(s).world(m, o),
                old(s).prog(),
                *list,
                0,
            ),
{
    let ghost s0 = *s;
    let mut i: usize = 0;
    while i < list.len()
        invariant
            *old(s) == s0,
            i <= list@.len(),
            s.wf(),
            s.keeps(s0),
            forall|m: Reading, o: FileOracle|
                #![trigger s.it.calc.agrees(m), s.log.agrees(o)]
                s.it.calc.agrees(m) && s.log.agrees(o) ==> s0.it.calc.agrees(m) && s0.log.agrees(o)
                    && st_lets(old(s).world(m, o), s0.prog(), *list, 0) == st_lets(
                    old(s).world(m, o),
                    s.prog(),
                    *list,
                    i as int,
                ),
        decreases list.len() - i,
    {
        match s.ask_eval(&list[i].value) {
            Ok(v) => {
                s.ask_bind(list[i].name.as_str(), &v);
            },
            Err(e) => return Err(e),
        }
        i = i + 1;
    }
    Ok(())
}

fn no_nodes() -> (r: Vec<Node>)
    ensures
        tree_list(r@) == Seq::<Tree>::empty(),
{
    let r: Vec<Node> = Vec::new();
    assert(tree_list(r@) =~= Seq::empty());
    r
}

/// Runs a statement that draws.
pub fn eval_geom<L: Library, A: Arithmetic>(
    s: &mut Stage<L, A>,
    here: Option<Span>,
    site: Option<SourceSpan>,
    stmt: &Stmt,
) -> (r: Result<Vec<Node>, EvalError>)
    requires
        old(s).wf(),
    ensures
        final(s).wf(),
        final(s).keeps(*old(s)),
        forall|m: Reading, o: FileOracle|
            #![trigger final(s).it.calc.agrees(m), final(s).log.agrees(o)]
            final(s).it.calc.agrees(m) && final(s).log.agrees(o) ==> old(s).it.calc.agrees(m) && old(
                s,
            ).log.agrees(o) && (Outcome { r: nodes_note(r), t: final(s).prog() }) == st_geom(
                m,
                old(s).world(m, o),
                old(s).ctx(),
                old(s).prog(),
                here,
                site,
                *stmt,
            ),
    decreases old(s).nesting, old(s).it.depth, old(s).frames@.len(), 9int, *stmt, 0int, 0int, 0int,
{
    match stmt {
        Stmt::Block(stmts) => eval_children(s, here, stmts),
        Stmt::If { cond, yes, no } => {
            let v = match s.ask_eval(cond) {
                Ok(v) => v,
                Err(e) => return Err(e),
            };
            if v.truthy() {
                eval_children(s, here, yes)
            } else {
                eval_children(s, here, no)
            }
        },
        Stmt::For { bindings, body } => {
            let out = no_nodes();
            eval_for_rec(s, here, bindings, body, 0, out)
        },
        Stmt::Let { bindings, body } => {
            s.ask_enter();
            let r = match run_lets(s, bindings) {
                Ok(_) => eval_stmts(s, false, here, body),
                Err(e) => Err(e),
            };
            s.ask_leave();
            r
        },
        Stmt::ModuleCall { modifier, name, args, children } => eval_module_call(
            s,
            here,
            site,
            *modifier,
            name.as_str(),
            args,
            children,
        ),
        _ => Ok(no_nodes()),
    }
}

fn too_large() -> (e: EvalError)
    ensures
        e@ == range_fault(),
{
    EvalError::new("range too large".to_owned())
}

/// Runs a loop from its `b`-th variable on.
fn eval_for_rec<L: Library, A: Arithmetic>(
    s: &mut Stage<L, A>,
    here: Option<Span>,
    bindings: &Vec<Binding>,
    body: &Vec<Spanned>,
    b: usize,
    done: Vec<Node>,
) -> (r: Result<Vec<Node>, EvalError>)
    requires
        old(s).wf(),
        b <= bindings@.len(),
    ensures
        final(s).wf(),
        final(s).keeps(*old(s)),
        forall|m: Reading, o: FileOracle|
            #![trigger final(s).it.calc.agrees(m), final(s).log.agrees(o)]
            final(s).it.calc.agrees(m) && final(s).log.agrees(o) ==> old(s).it.calc.agrees(m) && old(
                s,
            ).log.agrees(o) && (Outcome { r: nodes_note(r), t: final(s).prog() }) == st_for(
                m,
                old(s).world(m, o),
                old(s).ctx(),
                old(s).prog(),
                here,
                *bindings,
                *body,
                b as int,
                tree_list(done@),
            ),
    decreases old(s).nesting, old(s).it.depth, old(s).frames@.len(), 9int, *body, 5int, bindings@.len() - b, 0int,
{
    let mut out = done;
    let count: usize = bindings.len();
    if b == count {
        match eval_children(s, here, body) {
            Ok(v) => {
                let ghost held = tree_list(out@);
                let ghost added = tree_list(v@);
                let mut more = v;
                out.append(&mut more);
                assert(tree_list(out@) =~= held + added);
                return Ok(out);
            },
            Err(e) => return Err(e),
        }
    }
    let v = match s.ask_eval(&bindings[b].value) {
        Ok(v) => v,
        Err(e) => return Err(e),
    };
    let values = match iter_values(&mut s.it.calc, &v) {
        Some(values) => values,
        None => return Err(too_large()),
    };
    let ghost s0 = *s;
    let ghost start = *old(s);
    let ghost vv = vals(values@);
    let ghost first = tree_list(out@);
    let mut i: usize = 0;
    while i < values.len()
        invariant
            start == *old(s),
            i <= values@.len(),
            b < bindings@.len(),
            count == bindings@.len(),
            vv == vals(values@),
            first == tree_list(done@),
            s0.keeps(start),
            s.wf(),
            s.keeps(start),
            forall|m: Reading, o: FileOracle|
                #![trigger s0.it.calc.agrees(m), s0.log.agrees(o)]
                s0.it.calc.agrees(m) && s0.log.agrees(o) ==> start.it.calc.agrees(m) && start.log.agrees(o)
                    && st_for(
                    m,
                    old(s).world(m, o),
                    start.ctx(),
                    start.prog(),
                    here,
                    *bindings,
                    *body,
                    b as int,
                    first,
                ) == st_each(
                    m,
                    old(s).world(m, o),
                    start.ctx(),
                    s0.prog(),
                    here,
                    *bindings,
                    *body,
                    b as int,
                    vv,
                    0,
                    first,
                ),
            forall|m: Reading, o: FileOracle|
                #![trigger s.it.calc.agrees(m), s.log.agrees(o)]
                s.it.calc.agrees(m) && s.log.agrees(o) ==> s0.it.calc.agrees(m) && s0.log.agrees(o)
                    && st_each(
                    m,
                    old(s).world(m, o),
                    start.ctx(),
                    s0.prog(),
                    here,
                    *bindings,
                    *body,
                    b as int,
                    vv,
                    0,
                    first,
                ) == st_each(
                    m,
                    old(s).world(m, o),
                    start.ctx(),
                    s.prog(),
                    here,
                    *bindings,
                    *body,
                    b as int,
                    vv,
                    i as int,
                    tree_list(out@),
                ),
        decreases values.len() - i,
    {
        match s.ask_burn() {
            Ok(_) => {},
            Err(e) => return Err(e),
        }
        assert(vv[i as int] == values@[i as int]@);
        s.ask_enter();
        s.ask_bind(bindings[b].name.as_str(), &values[i]);
        let r = eval_for_rec(s, here, bindings, body, b + 1, out);
        s.ask_leave();
        match r {
            Ok(v) => {
                out = v;
            },
            Err(e) => return Err(e),
        }
        i = i + 1;
    }
    Ok(out)
}

/// Runs an intersection over loops from the `a`-th variable on.
fn intersection_for_rec<L: Library, A: Arithmetic>(
    s: &mut Stage<L, A>,
    here: Option<Span>,
    args: &Vec<Arg>,
    children: &Rc<Vec<Spanned>>,
    a: usize,
    done: Vec<Node>,
) -> (r: Result<Vec<Node>, EvalError>)
    requires
        old(s).wf(),
        a <= args@.len(),
    ensures
        final(s).wf(),
        final(s).keeps(*old(s)),
        forall|m: Reading, o: FileOracle|
            #![trigger final(s).it.calc.agrees(m), final(s).log.agrees(o)]
            final(s).it.calc.agrees(m) && final(s).log.agrees(o) ==> old(s).it.calc.agrees(m) && old(
                s,
            ).log.agrees(o) && (Outcome { r: nodes_note(r), t: final(s).prog() }) == st_meet(
                m,
                old(s).world(m, o),
                old(s).ctx(),
                old(s).prog(),
                here,
                *args,
                **children,
                a as int,
                tree_list(done@),
            ),
    decreases old(s).nesting, old(s).it.depth, old(s).frames@.len(), 9int, **children, 5int, args@.len() - a, 0int,
{
    let mut out = done;
    let count: usize = args.len();
    if a == count {
        match eval_children(s, here, children) {
            Ok(v) => {
                let ghost held = tree_list(out@);
                let one = draw_group(v);
                let ghost ov = tree(one);
                out.push(one);
                assert(tree_list(out@) =~= held.push(ov));
                return Ok(out);
            },
            Err(e) => return Err(e),
        }
    }
    let v = match s.ask_eval(&args[a].value) {
        Ok(v) => v,
        Err(e) => return Err(e),
    };
    let values = match iter_values(&mut s.it.calc, &v) {
        Some(values) => values,
        None => return Err(too_large()),
    };
    let ghost s0 = *s;
    let ghost start = *old(s);
    let ghost vv = vals(values@);
    let ghost first = tree_list(out@);
    let mut i: usize = 0;
    while i < values.len()
        invariant
            start == *old(s),
            i <= values@.len(),
            a < args@.len(),
            count == args@.len(),
            vv == vals(values@),
            first == tree_list(done@),
            s0.keeps(start),
            s.wf(),
            s.keeps(start),
            forall|m: Reading, o: FileOracle|
                #![trigger s0.it.calc.agrees(m), s0.log.agrees(o)]
                s0.it.calc.agrees(m) && s0.log.agrees(o) ==> start.it.calc.agrees(m) && start.log.agrees(o)
                    && st_meet(
                    m,
                    old(s).world(m, o),
                    start.ctx(),
                    start.prog(),
                    here,
                    *args,
                    **children,
                    a as int,
                    first,
                ) == st_meet_each(
                    m,
                    old(s).world(m, o),
                    start.ctx(),
                    s0.prog(),
                    here,
                    *args,
                    **children,
                    a as int,
                    vv,
                    0,
                    first,
                ),
            forall|m: Reading, o: FileOracle|
                #![trigger s.it.calc.agrees(m), s.log.agrees(o)]
                s.it.calc.agrees(m) && s.log.agrees(o) ==> s0.it.calc.agrees(m) && s0.log.agrees(o)
                    && st_meet_each(
                    m,
                    old(s).world(m, o),
                    start.ctx(),
                    s0.prog(),
                    here,
                    *args,
                    **children,
                    a as int,
                    vv,
                    0,
                    first,
                ) == st_meet_each(
                    m,
                    old(s).world(m, o),
                    start.ctx(),
                    s.prog(),
                    here,
                    *args,
                    **children,
                    a as int,
                    vv,
                    i as int,
                    tree_list(out@),
                ),
        decreases values.len() - i,
    {
        match s.ask_burn() {
            Ok(_) => {},
            Err(e) => return Err(e),
        }
        assert(vv[i as int] == values@[i as int]@);
        s.ask_enter();
        match &args[a].name {
            Some(name) => {
                s.ask_bind(name.as_str(), &values[i]);
            },
            None => {},
        }
        let r = intersection_for_rec(s, here, args, children, a + 1, out);
        s.ask_leave();
        match r {
            Ok(v) => {
                out = v;
            },
            Err(e) => return Err(e),
        }
        i = i + 1;
    }
    Ok(out)
}


/// What is said around on how finely curves are drawn.
fn ask_ambient<L: Library, A: Arithmetic>(s: &mut Stage<L, A>) -> (a: Ambient)
    requires
        old(s).wf(),
    ensures
        final(s).wf(),
        final(s).keeps(*old(s)),
        forall|m: Reading, o: FileOracle|
            #![trigger final(s).it.calc.agrees(m), final(s).log.agrees(o)]
            final(s).it.calc.agrees(m) && final(s).log.agrees(o) ==> old(s).it.calc.agrees(m) && old(
                s,
            ).log.agrees(o) && final(s).prog() == asked_around(old(s).world(m, o), old(s).prog()),
        forall|m: Reading, o: FileOracle, e: Env|
            #![trigger final(s).it.calc.agrees(m), st_fineness(old(s).world(m, o), old(s).prog(), e)]
            final(s).it.calc.agrees(m) && final(s).log.agrees(o) ==> st_fineness(
                old(s).world(m, o),
                old(s).prog(),
                e,
            ) == fineness(e, a.fn_@, a.fa@, a.fs@),
{
    let fn_ = s.ask_around("$fn");
    let fa = s.ask_around("$fa");
    let fs = s.ask_around("$fs");
    Ambient { fn_, fa, fs }
}

fn bind_for(k: Known, args: &Vec<PassedArg>) -> (r: Vec<Entry>)
    ensures
        entries(r@) == env_of(k, passed(args@)),
{
    let names = positional_names(k);
    bind_named(&names, args)
}

/// Colors children that draw something.
fn run_color<L: Library, A: Arithmetic>(
    s: &mut Stage<L, A>,
    e: &Vec<Entry>,
    child: Node,
) -> (r: Node)
    requires
        old(s).wf(),
        child != Node::Empty,
    ensures
        final(s).wf(),
        final(s).keeps(*old(s)),
        forall|m: Reading, o: FileOracle|
            #![trigger final(s).it.calc.agrees(m), final(s).log.agrees(o)]
            final(s).it.calc.agrees(m) && final(s).log.agrees(o) ==> old(s).it.calc.agrees(m) && old(
                s,
            ).log.agrees(o) && plain(Ok(tree(r)), final(s).prog()) == st_color(
                m,
                old(s).world(m, o),
                old(s).prog(),
                entries(e@),
                tree(child),
            ),
{
    let alpha = match crate::eval::find(e, "alpha") {
        Some(v) => v.as_number(),
        None => None,
    };
    let mut tint: Option<Rgba> = None;
    match crate::eval::find(e, "c") {
        Some(c) => {
            tint = s.ask_tint(&c, alpha);
            if tint.is_none() {
                s.ask_unknown_color(&c);
            }
        },
        None => {},
    }
    color_node(&mut s.it.calc, e, tint, child)
}

/// Moves children.
fn run_moved<L: Library, A: Arithmetic>(
    s: &mut Stage<L, A>,
    k: Known,
    args: &Vec<Arg>,
    child: Node,
) -> (r: Result<
    Node,
    EvalError,
>)
    requires
        old(s).wf(),
        k is Move || k is Matrix || k is Resize,
    ensures
        final(s).wf(),
        final(s).keeps(*old(s)),
        forall|m: Reading, o: FileOracle|
            #![trigger final(s).it.calc.agrees(m), final(s).log.agrees(o)]
            final(s).it.calc.agrees(m) && final(s).log.agrees(o) ==> old(s).it.calc.agrees(m) && old(
                s,
            ).log.agrees(o) && plain(tree_note(r), final(s).prog()) == st_moved(
                m,
                old(s).world(m, o),
                old(s).prog(),
                k,
                *args,
                tree(child),
            ),
{
    if is_nothing(&child) {
        return Ok(Node::Empty);
    }
    let passed_args = match run_args(s, args) {
        Ok(v) => v,
        Err(e) => return Err(e),
    };
    let e = bind_for(k, &passed_args);
    match k {
        Known::Move(kind) => {
            let node = transform(&mut s.it.calc, kind, &e, child);
            Ok(node)
        },
        Known::Matrix => Ok(multmatrix_node(&e, child)),
        _ => Ok(resize_node(&e, child)),
    }
}

/// What a node or an error says.
pub open spec fn tree_note(r: Result<Node, EvalError>) -> Result<Tree, NoteView> {
    match r {
        Ok(n) => Ok(tree(n)),
        Err(e) => Err(e@),
    }
}

fn undefined(r: Result<Node, EvalError>) -> (out: Result<(Node, Option<Definition>), EvalError>)
    ensures
        forall|t: Prog| #[trigger] plain(tree_note(r), t) == (CallOut { r: call_note(out), t }),
{
    match r {
        Ok(n) => Ok((n, None)),
        Err(e) => Err(e),
    }
}

/// Calls a module: a built-in one here, all others through the surrounding
/// program.
fn dispatch_module<L: Library, A: Arithmetic>(
    s: &mut Stage<L, A>,
    here: Option<Span>,
    name: &str,
    args: &Vec<Arg>,
    children: &Rc<Vec<Spanned>>,
) -> (r: Result<(Node, Option<Definition>), EvalError>)
    requires
        old(s).wf(),
    ensures
        final(s).wf(),
        final(s).keeps(*old(s)),
        forall|m: Reading, o: FileOracle|
            #![trigger final(s).it.calc.agrees(m), final(s).log.agrees(o)]
            final(s).it.calc.agrees(m) && final(s).log.agrees(o) ==> old(s).it.calc.agrees(m) && old(
                s,
            ).log.agrees(o) && (CallOut { r: call_note(r), t: final(s).prog() }) == st_dispatch(
                m,
                old(s).world(m, o),
                old(s).ctx(),
                old(s).prog(),
                here,
                name@,
                *args,
                **children,
            ),
    decreases old(s).nesting, old(s).it.depth, old(s).frames@.len(), 9int, **children, 6int, 0int, 0int,
{
    let k = find_known(name);
    match k {
        Known::Solid(kind) => {
            let passed_args = match run_args(s, args) {
                Ok(v) => v,
                Err(e) => return Err(e),
            };
            let e = bind_for(k, &passed_args);
            let a = ask_ambient(s);
            let node = draw_solid(&mut s.it.calc, kind, &e, &a);
            Ok((node, None))
        },
        Known::Wrap(kind) => {
            let passed_args = match run_args(s, args) {
                Ok(v) => v,
                Err(e) => return Err(e),
            };
            let e = bind_for(k, &passed_args);
            let a = ask_ambient(s);
            let v = match eval_children(s, here, children) {
                Ok(v) => v,
                Err(e) => return Err(e),
            };
            let child = draw_group(v);
            let node = draw_wrap(&mut s.it.calc, kind, &e, &a, child);
            Ok((node, None))
        },
        Known::Color => {
            let passed_args = match run_args(s, args) {
                Ok(v) => v,
                Err(e) => return Err(e),
            };
            let e = bind_for(k, &passed_args);
            let v = match eval_children(s, here, children) {
                Ok(v) => v,
                Err(e) => return Err(e),
            };
            let child = draw_group(v);
            if is_nothing(&child) {
                return Ok((Node::Empty, None));
            }
            let node = run_color(s, &e, child);
            Ok((node, None))
        },
        Known::IntersectionFor => {
            if args.len() == 0 {
                let none: Vec<Node> = Vec::new();
                proof {
                    lemma_trees(none);
                    assert(tree_list(none@) =~= Seq::empty());
                }
                return Ok((Node::Intersection(none), None));
            }
            let start = no_nodes();
            match intersection_for_rec(s, here, args, children, 0, start) {
                Ok(v) => {
                    proof {
                        lemma_trees(v);
                    }
                    Ok((Node::Intersection(v), None))
                },
                Err(e) => Err(e),
            }
        },
        Known::Echo => {
            let passed_args = match run_args(s, args) {
                Ok(v) => v,
                Err(e) => return Err(e),
            };
            s.ask_echo(&passed_args);
            let v = match eval_children(s, here, children) {
                Ok(v) => v,
                Err(e) => return Err(e),
            };
            Ok((draw_group(v), None))
        },
        Known::Assert => {
            match s.ask_check(args) {
                Ok(_) => {},
                Err(e) => return Err(e),
            }
            let v = match eval_children(s, here, children) {
                Ok(v) => v,
                Err(e) => return Err(e),
            };
            Ok((draw_group(v), None))
        },
        Known::Other => ask_call(s, name, args, children),
        _ => {
            let v = match eval_children(s, here, children) {
                Ok(v) => v,
                Err(e) => return Err(e),
            };
            proof {
                lemma_trees(v);
            }
            match k {
                Known::Group => Ok((draw_group(v), None)),
                Known::Union => Ok((Node::Union(v), None)),
                Known::Difference => Ok((Node::Difference(v), None)),
                Known::Intersection => Ok((Node::Intersection(v), None)),
                Known::Hull => Ok((Node::Hull(v), None)),
                Known::Minkowski => Ok((Node::Minkowski(v), None)),
                _ => {
                    let child = draw_group(v);
                    let r = run_moved(s, k, args, child);
                    undefined(r)
                },
            }
        },
    }
}

/// Marks what was drawn as the call says, and places it where the call stands.
pub fn mark(
    modifier: Option<Modifier>,
    site: Option<SourceSpan>,
    name: &str,
    node: Node,
    d: Option<Definition>,
) -> (r: Node)
    ensures
        tree(r) == marked(modifier, site, name@, tree(node), d),
{
    if is_nothing(&node) {
        return Node::Empty;
    }
    let ghost nv = tree(node);
    let shown = match modifier {
        Some(Modifier::Highlight) => Node::Highlight(Box::new(node)),
        Some(Modifier::Background) => Node::Background(Box::new(node)),
        _ => node,
    };
    let ghost sv = tree(shown);
    assert(sv == match modifier {
        Some(Modifier::Highlight) => over(Act::Highlight, nv),
        Some(Modifier::Background) => over(Act::Background, nv),
        _ => nv,
    });
    match site {
        Some(call_site) => {
            let definition_site = match d {
                Some(x) => x.site,
                None => None,
            };
            let module_name = match d {
                Some(_) => Some(name.to_owned()),
                None => None,
            };
            let frame = ProvenanceFrame { call_site, definition_site, module_name };
            let ghost fv = frame@;
            let r = Node::Provenance { frame, child: Box::new(shown) };
            assert(tree(r) == over(Act::Provenance(fv), sv));
            r
        },
        None => shown,
    }
}

/// Runs a module call.
fn eval_module_call<L: Library, A: Arithmetic>(
    s: &mut Stage<L, A>,
    here: Option<Span>,
    site: Option<SourceSpan>,
    modifier: Option<Modifier>,
    name: &str,
    args: &Vec<Arg>,
    children: &Rc<Vec<Spanned>>,
) -> (r: Result<Vec<Node>, EvalError>)
    requires
        old(s).wf(),
    ensures
        final(s).wf(),
        final(s).keeps(*old(s)),
        forall|m: Reading, o: FileOracle|
            #![trigger final(s).it.calc.agrees(m), final(s).log.agrees(o)]
            final(s).it.calc.agrees(m) && final(s).log.agrees(o) ==> old(s).it.calc.agrees(m) && old(
                s,
            ).log.agrees(o) && (Outcome { r: nodes_note(r), t: final(s).prog() }) == st_call(
                m,
                old(s).world(m, o),
                old(s).ctx(),
                old(s).prog(),
                here,
                site,
                modifier,
                name@,
                *args,
                **children,
            ),
    decreases old(s).nesting, old(s).it.depth, old(s).frames@.len(), 9int, **children, 7int, 0int, 0int,
{
    let (disabled, rooted) = match modifier {
        Some(Modifier::Disable) => (true, false),
        Some(Modifier::Root) => (false, true),
        _ => (false, false),
    };
    if disabled {
        return Ok(no_nodes());
    }
    let (node, d) = match dispatch_module(s, here, name, args, children) {
        Ok(v) => v,
        Err(e) => return Err(e),
    };
    let n = mark(modifier, site, name, node, d);
    if rooted {
        s.ask_root(&n);
    }
    if is_nothing(&n) {
        return Ok(no_nodes());
    }
    let ghost nv = tree(n);
    let mut out: Vec<Node> = Vec::new();
    out.push(n);
    assert(tree_list(out@) =~= seq![nv]);
    Ok(out)
}

} // verus!
