//! The built-in modules of the language: what their arguments draw.

use crate::builtins::{items_of, HUNDRED};
use crate::eval::{entries, find, passed, Entry, PassedArg};
use crate::faces::{NANO, PICO};
use crate::mesh::Point3;
use crate::node::{FragmentSpec, Node, Point2};
use crate::nodeview::lists_of;
use crate::num::{
    absolute, is_less, is_zero, less, negate, negative, zero, Arithmetic, Calc, NumOp, Reading,
    ONE, TWO, ZERO,
};
use crate::planar::size_of;
use crate::sem::{found, Env, Passed};
use crate::solid::{greater, max_of};
use crate::surfaces::Rgba;
use crate::tessellate::{count, counted, FULL_TURN};
use crate::value::{number_of, truth, vals, vec3_of, Val, Value};
use crate::vector::{length_of, norm};
use vstd::prelude::*;

verus! {

// ---- arguments -------------------------------------------------------------------------------------

/// The arguments up to the `n`-th by name: a named one under its name, an
/// unnamed one under the next of the given names, where there is one.
pub open spec fn bound_args(names: Seq<Seq<char>>, args: Passed, n: int) -> Env
    decreases n,
{
    if n <= 0 {
        Seq::empty()
    } else {
        let done = bound_args(names, args, n - 1);
        match args[n - 1].0 {
            Some(name) => done.push((name, args[n - 1].1)),
            None => {
                let pos = unnamed(args, n - 1);
                if pos < names.len() {
                    done.push((names[pos], args[n - 1].1))
                } else {
                    done
                }
            },
        }
    }
}

/// How many of the first `n` arguments have no name.
pub open spec fn unnamed(args: Passed, n: int) -> int
    decreases n,
{
    if n <= 0 {
        0
    } else {
        unnamed(args, n - 1) + if args[n - 1].0 is None {
            1int
        } else {
            0int
        }
    }
}

/// What names say.
pub open spec fn names_of(v: Seq<String>) -> Seq<Seq<char>> {
    v.map_values(|s: String| s@)
}

/// Binds arguments by name: the last one given under a name counts.
pub fn bind_named(names: &Vec<String>, args: &Vec<PassedArg>) -> (r: Vec<Entry>)
    ensures
        entries(r@) == bound_args(names_of(names@), passed(args@), args@.len() as int),
{
    let ghost pv = passed(args@);
    let ghost nv = names_of(names@);
    let mut out: Vec<Entry> = Vec::new();
    let mut pos: usize = 0;
    let mut i: usize = 0;
    assert(entries(out@) =~= Seq::empty());
    while i < args.len()
        invariant
            i <= args@.len(),
            pos <= i,
            pv == passed(args@),
            nv == names_of(names@),
            pos == unnamed(pv, i as int),
            entries(out@) == bound_args(nv, pv, i as int),
        decreases args.len() - i,
    {
        let ghost held = entries(out@);
        let value = args[i].value.duplicate();
        let ghost vv = value@;
        assert(pv[i as int].1 == vv);
        match &args[i].name {
            Some(n) => {
                out.push(Entry { name: n.clone(), value });
                assert(entries(out@) =~= held.push((n@, vv)));
            },
            None => {
                if pos < names.len() {
                    assert(nv[pos as int] == names@[pos as int]@);
                    let name = names[pos].clone();
                    let ghost nn = name@;
                    out.push(Entry { name, value });
                    assert(entries(out@) =~= held.push((nn, vv)));
                }
                pos = pos + 1;
            },
        }
        i = i + 1;
    }
    out
}

/// The number that a name is given.
pub open spec fn number_arg(m: Env, name: Seq<char>) -> Option<u64> {
    match found(m, name) {
        Some(v) => number_of(v),
        None => None,
    }
}

/// The number that a name is given, or else another.
pub open spec fn number_arg_or(m: Env, name: Seq<char>, other: u64) -> u64 {
    match number_arg(m, name) {
        Some(n) => n,
        None => other,
    }
}

/// Whether a name is given what counts as true.
pub open spec fn truth_arg(m: Env, name: Seq<char>) -> bool {
    match found(m, name) {
        Some(v) => truth(v),
        None => false,
    }
}

/// The three numbers that a name is given, or else others.
pub open spec fn vec3_arg_or(m: Env, name: Seq<char>, other: Point3) -> Point3 {
    match found(m, name) {
        Some(v) => match vec3_of(v) {
            Some((x, y, z)) => Point3 { x, y, z },
            None => other,
        },
        None => other,
    }
}

fn get_number(m: &Vec<Entry>, name: &str) -> (r: Option<u64>)
    ensures
        r == number_arg(entries(m@), name@),
{
    match find(m, name) {
        Some(v) => v.as_number(),
        None => None,
    }
}

fn get_number_or(m: &Vec<Entry>, name: &str, other: u64) -> (r: u64)
    ensures
        r == number_arg_or(entries(m@), name@, other),
{
    match get_number(m, name) {
        Some(n) => n,
        None => other,
    }
}

fn get_truth(m: &Vec<Entry>, name: &str) -> (r: bool)
    ensures
        r == truth_arg(entries(m@), name@),
{
    match find(m, name) {
        Some(v) => v.truthy(),
        None => false,
    }
}

fn get_vec3_or(m: &Vec<Entry>, name: &str, other: Point3) -> (r: Point3)
    ensures
        r == vec3_arg_or(entries(m@), name@, other),
{
    match find(m, name) {
        Some(v) => match v.as_vec3() {
            Some((x, y, z)) => Point3 { x, y, z },
            None => other,
        },
        None => other,
    }
}

/// The `i`-th item of a list as a number, or else another.
pub open spec fn item_or(items: Seq<Val>, i: int, other: u64) -> u64 {
    if i < items.len() {
        match number_of(items[i]) {
            Some(n) => n,
            None => other,
        }
    } else {
        other
    }
}

fn get_item_or(items: &Vec<Value>, i: usize, other: u64) -> (r: u64)
    ensures
        r == item_or(vals(items@), i as int, other),
{
    if i < items.len() {
        assert(vals(items@)[i as int] == items@[i as int]@);
        match items[i].as_number() {
            Some(n) => n,
            None => other,
        }
    } else {
        other
    }
}

/// 12.
pub const TWELVE: u64 = 0x4028_0000_0000_0000;

/// 15.
pub const FIFTEEN: u64 = 0x402e_0000_0000_0000;

/// What the surrounding program says of `$fn`, `$fa` and `$fs`.
pub struct Ambient {
    pub fn_: Value,
    pub fa: Value,
    pub fs: Value,
}

/// A number given under a name, or the one around, or else another.
pub open spec fn picked(m: Env, name: Seq<char>, around: Val, other: u64) -> u64 {
    match number_arg(m, name) {
        Some(n) => n,
        None => match number_of(around) {
            Some(n) => n,
            None => other,
        },
    }
}

/// How finely curves are drawn.
pub open spec fn fragments_for(m: Env, a: Ambient) -> FragmentSpec {
    FragmentSpec {
        fn_: picked(m, "$fn"@, a.fn_@, ZERO),
        fa: picked(m, "$fa"@, a.fa@, TWELVE),
        fs: picked(m, "$fs"@, a.fs@, TWO),
    }
}

fn pick(m: &Vec<Entry>, name: &str, around: &Value, other: u64) -> (r: u64)
    ensures
        r == picked(entries(m@), name@, around@, other),
{
    match get_number(m, name) {
        Some(n) => n,
        None => match around.as_number() {
            Some(n) => n,
            None => other,
        },
    }
}

/// How finely curves are drawn: as the arguments say, or as is said around.
pub fn frag_spec(m: &Vec<Entry>, a: &Ambient) -> (r: FragmentSpec)
    ensures
        r == fragments_for(entries(m@), *a),
{
    FragmentSpec {
        fn_: pick(m, "$fn", &a.fn_, ZERO),
        fa: pick(m, "$fa", &a.fa, TWELVE),
        fs: pick(m, "$fs", &a.fs, TWO),
    }
}

// ---- solids and outlines ------------------------------------------------------------------------------

/// The node of several: nothing, the only one, or a group.
pub open spec fn grouped_node(nodes: Vec<Node>) -> Node {
    if nodes@.len() == 0 {
        Node::Empty
    } else if nodes@.len() == 1 {
        nodes@[0]
    } else {
        Node::Group(nodes)
    }
}

/// The node of several: nothing, the only one, or a group.
pub fn group(nodes: Vec<Node>) -> (r: Node)
    ensures
        r == grouped_node(nodes),
{
    if nodes.len() > 1 {
        return Node::Group(nodes);
    }
    let mut rest = nodes;
    match rest.pop() {
        Some(n) => n,
        None => Node::Empty,
    }
}

/// What a program draws: the node that replaces all others where there is one,
/// and else everything together.
pub fn program_node(root: Option<Node>, nodes: Vec<Node>) -> (r: Node)
    ensures
        r == match root {
            Some(node) => node,
            None => grouped_node(nodes),
        },
{
    match root {
        Some(node) => node,
        None => group(nodes),
    }
}

pub open spec fn unit_point() -> Point3 {
    Point3 { x: ONE, y: ONE, z: ONE }
}

/// A box, from its size and whether it is centered.
pub open spec fn cube_node_of(m: Env) -> Node {
    Node::Cube {
        size: match found(m, "size"@) {
            Some(Val::Number(n)) => Point3 { x: n, y: n, z: n },
            Some(Val::Vector(_)) => vec3_arg_or(m, "size"@, unit_point()),
            _ => unit_point(),
        },
        center: truth_arg(m, "center"@),
    }
}

/// The node of a cube.
pub fn cube_node(m: &Vec<Entry>) -> (r: Node)
    ensures
        r == cube_node_of(entries(m@)),
{
    let one = Point3 { x: ONE, y: ONE, z: ONE };
    let size = match find(m, "size") {
        Some(Value::Number(n)) => Point3 { x: n, y: n, z: n },
        Some(Value::Vector(_)) => get_vec3_or(m, "size", one),
        _ => one,
    };
    Node::Cube { size, center: get_truth(m, "center") }
}

/// A radius: half of the diameter where that is given, else the radius, else 1.
pub open spec fn radius_of(r: Reading, m: Env) -> u64 {
    match number_arg(m, "d"@) {
        Some(d) => r.at(NumOp::Div, d, TWO),
        None => number_arg_or(m, "r"@, ONE),
    }
}

fn radius<A: Arithmetic>(calc: &mut Calc<A>, m: &Vec<Entry>) -> (out: u64)
    ensures
        forall|r: Reading| #[trigger]
            final(calc).agrees(r) ==> old(calc).agrees(r) && out == radius_of(r, entries(m@)),
{
    match get_number(m, "d") {
        Some(d) => calc.apply(NumOp::Div, d, TWO),
        None => get_number_or(m, "r", ONE),
    }
}

/// The node of a ball.
pub fn sphere_node<A: Arithmetic>(calc: &mut Calc<A>, m: &Vec<Entry>, a: &Ambient) -> (node: Node)
    ensures
        forall|r: Reading| #[trigger]
            final(calc).agrees(r) ==> old(calc).agrees(r) && node == (Node::Sphere {
                r: radius_of(r, entries(m@)),
                frags: fragments_for(entries(m@), *a),
            }),
{
    let r: u64 = radius(calc, m);
    Node::Sphere { r, frags: frag_spec(m, a) }
}

/// The node of a circle.
pub fn circle_node<A: Arithmetic>(calc: &mut Calc<A>, m: &Vec<Entry>, a: &Ambient) -> (node: Node)
    ensures
        forall|r: Reading| #[trigger]
            final(calc).agrees(r) ==> old(calc).agrees(r) && node == (Node::Circle {
                r: radius_of(r, entries(m@)),
                frags: fragments_for(entries(m@), *a),
            }),
{
    let r: u64 = radius(calc, m);
    Node::Circle { r, frags: frag_spec(m, a) }
}

/// The radius of one end of a cylinder: its own diameter or radius, else those of
/// both ends, else 1.
pub open spec fn end_radius_of(r: Reading, m: Env, d: Seq<char>, own: Seq<char>) -> u64 {
    match number_arg(m, d) {
        Some(x) => r.at(NumOp::Div, x, TWO),
        None => match number_arg(m, own) {
            Some(x) => x,
            None => match number_arg(m, "d"@) {
                Some(x) => r.at(NumOp::Div, x, TWO),
                None => number_arg_or(m, "r"@, ONE),
            },
        },
    }
}

fn end_radius<A: Arithmetic>(calc: &mut Calc<A>, m: &Vec<Entry>, d: &str, own: &str) -> (out: u64)
    ensures
        forall|r: Reading| #[trigger]
            final(calc).agrees(r) ==> old(calc).agrees(r) && out == end_radius_of(
                r,
                entries(m@),
                d@,
                own@,
            ),
{
    match get_number(m, d) {
        Some(x) => calc.apply(NumOp::Div, x, TWO),
        None => match get_number(m, own) {
            Some(x) => x,
            None => match get_number(m, "d") {
                Some(x) => calc.apply(NumOp::Div, x, TWO),
                None => get_number_or(m, "r", ONE),
            },
        },
    }
}

/// The node of a cylinder or a cone.
pub fn cylinder_node<A: Arithmetic>(calc: &mut Calc<A>, m: &Vec<Entry>, a: &Ambient) -> (node: Node)
    ensures
        forall|r: Reading| #[trigger]
            final(calc).agrees(r) ==> old(calc).agrees(r) && node == (Node::Cylinder {
                h: number_arg_or(entries(m@), "h"@, ONE),
                r1: end_radius_of(r, entries(m@), "d1"@, "r1"@),
                r2: end_radius_of(r, entries(m@), "d2"@, "r2"@),
                center: truth_arg(entries(m@), "center"@),
                frags: fragments_for(entries(m@), *a),
            }),
{
    let h: u64 = get_number_or(m, "h", ONE);
    let r1: u64 = end_radius(calc, m, "d1", "r1");
    let r2: u64 = end_radius(calc, m, "d2", "r2");
    Node::Cylinder { h, r1, r2, center: get_truth(m, "center"), frags: frag_spec(m, a) }
}

/// A rectangle, from its size and whether it is centered.
pub open spec fn square_node_of(m: Env) -> Node {
    Node::Square {
        size: match found(m, "size"@) {
            Some(Val::Number(n)) => Point2 { x: n, y: n },
            Some(Val::Vector(items)) => Point2 {
                x: item_or(items, 0, ZERO),
                y: item_or(items, 1, ZERO),
            },
            _ => Point2 { x: ONE, y: ONE },
        },
        center: truth_arg(m, "center"@),
    }
}

/// The node of a square.
pub fn square_node(m: &Vec<Entry>) -> (r: Node)
    ensures
        r == square_node_of(entries(m@)),
{
    let size = match find(m, "size") {
        Some(v) => match &v {
            Value::Number(n) => Point2 { x: *n, y: *n },
            Value::Vector(items) => {
                let list: &Vec<Value> = &**items;
                assert(v@ matches Val::Vector(s) && s =~= vals(list@));
                Point2 { x: get_item_or(list, 0, ZERO), y: get_item_or(list, 1, ZERO) }
            },
            _ => Point2 { x: ONE, y: ONE },
        },
        None => Point2 { x: ONE, y: ONE },
    };
    Node::Square { size, center: get_truth(m, "center") }
}

/// A value as a point of the plane: the first two numbers of a list, or zero.
pub open spec fn point2_of(v: Val) -> Point2 {
    match items_of(v) {
        Some(items) => Point2 { x: item_or(items, 0, ZERO), y: item_or(items, 1, ZERO) },
        None => Point2 { x: ZERO, y: ZERO },
    }
}

/// A value as a point of space: the first three numbers of a list, or zero.
pub open spec fn point3_of(v: Val) -> Point3 {
    match items_of(v) {
        Some(items) => Point3 {
            x: item_or(items, 0, ZERO),
            y: item_or(items, 1, ZERO),
            z: item_or(items, 2, ZERO),
        },
        None => Point3 { x: ZERO, y: ZERO, z: ZERO },
    }
}

/// The whole numbers among the first `n` items.
pub open spec fn places_of(r: Reading, items: Seq<Val>, n: int) -> Seq<u32>
    decreases n,
{
    if n <= 0 {
        Seq::empty()
    } else {
        match number_of(items[n - 1]) {
            Some(x) => places_of(r, items, n - 1).push(counted(r, x)),
            None => places_of(r, items, n - 1),
        }
    }
}

/// A value as a face or a path: the whole numbers of a list.
pub open spec fn face_of(r: Reading, v: Val) -> Seq<u32> {
    match items_of(v) {
        Some(items) => places_of(r, items, items.len() as int),
        None => Seq::empty(),
    }
}

fn value_to_point2(v: &Value) -> (p: Point2)
    ensures
        p == point2_of(v@),
{
    match v {
        Value::Vector(items) => {
            let list: &Vec<Value> = &**items;
            assert(v@ matches Val::Vector(s) && s =~= vals(list@));
            Point2 { x: get_item_or(list, 0, ZERO), y: get_item_or(list, 1, ZERO) }
        },
        _ => Point2 { x: ZERO, y: ZERO },
    }
}

/// The point that a value stands for.
pub fn value_to_point3(v: &Value) -> (p: Point3)
    ensures
        p == point3_of(v@),
{
    match v {
        Value::Vector(items) => {
            let list: &Vec<Value> = &**items;
            assert(v@ matches Val::Vector(s) && s =~= vals(list@));
            Point3 {
                x: get_item_or(list, 0, ZERO),
                y: get_item_or(list, 1, ZERO),
                z: get_item_or(list, 2, ZERO),
            }
        },
        _ => Point3 { x: ZERO, y: ZERO, z: ZERO },
    }
}

/// The face that a value stands for.
pub fn value_to_face<A: Arithmetic>(calc: &mut Calc<A>, v: &Value) -> (out: Vec<u32>)
    ensures
        forall|r: Reading| #[trigger]
            final(calc).agrees(r) ==> old(calc).agrees(r) && out@ == face_of(r, v@),
{
    let mut out: Vec<u32> = Vec::new();
    match v {
        Value::Vector(items) => {
            let list: &Vec<Value> = &**items;
            assert(v@ matches Val::Vector(s) && s =~= vals(list@));
            let mut i: usize = 0;
            while i < list.len()
                invariant
                    i <= list@.len(),
                    forall|r: Reading| #[trigger]
                        calc.agrees(r) ==> old(calc).agrees(r) && out@ == places_of(
                            r,
                            vals(list@),
                            i as int,
                        ),
                decreases list.len() - i,
            {
                assert(vals(list@)[i as int] == list@[i as int]@);
                match list[i].as_number() {
                    Some(n) => {
                        let k: u32 = count(calc, n);
                        out.push(k);
                    },
                    None => {},
                }
                i = i + 1;
            }
        },
        _ => {},
    }
    out
}

/// The faces or paths of a list.
pub open spec fn faces_of(r: Reading, v: Val) -> Option<Seq<Seq<u32>>> {
    match items_of(v) {
        Some(items) => Some(items.map_values(|f: Val| face_of(r, f))),
        None => None,
    }
}

fn read_faces<A: Arithmetic>(calc: &mut Calc<A>, v: &Value) -> (out: Option<Vec<Vec<u32>>>)
    ensures
        forall|r: Reading| #[trigger]
            final(calc).agrees(r) ==> old(calc).agrees(r) && faces_of(r, v@) == match out {
                Some(f) => Some(lists_of(f@)),
                None => None,
            },
{
    match v {
        Value::Vector(items) => {
            let list: &Vec<Value> = &**items;
            assert(v@ matches Val::Vector(s) && s =~= vals(list@));
            let mut out: Vec<Vec<u32>> = Vec::new();
            let mut i: usize = 0;
            while i < list.len()
                invariant
                    i <= list@.len(),
                    out@.len() == i,
                    forall|r: Reading| #[trigger]
                        calc.agrees(r) ==> old(calc).agrees(r) && forall|k: int|
                            0 <= k < i ==> (#[trigger] out@[k])@ == face_of(r, list@[k]@),
                decreases list.len() - i,
            {
                let f = value_to_face(calc, &list[i]);
                out.push(f);
                i = i + 1;
            }
            proof {
                assert forall|r: Reading| #[trigger] calc.agrees(r) implies faces_of(r, v@) == Some(
                    lists_of(out@),
                ) by {
                    assert(lists_of(out@) =~= vals(list@).map_values(|f: Val| face_of(r, f)));
                }
            }
            Some(out)
        },
        _ => None,
    }
}

/// The points of a list.
pub open spec fn points3_of(v: Option<Val>) -> Seq<Point3> {
    match v {
        Some(Val::Vector(items)) => items.map_values(|p: Val| point3_of(p)),
        _ => Seq::empty(),
    }
}

/// The points of a list.
pub open spec fn points2_of(v: Option<Val>) -> Seq<Point2> {
    match v {
        Some(Val::Vector(items)) => items.map_values(|p: Val| point2_of(p)),
        _ => Seq::empty(),
    }
}

/// The faces that a name is given, none where it is given no list.
pub open spec fn named_faces(r: Reading, v: Option<Val>) -> Seq<Seq<u32>> {
    match v {
        Some(x) => match faces_of(r, x) {
            Some(f) => f,
            None => Seq::empty(),
        },
        None => Seq::empty(),
    }
}

/// `node` is the polyhedron of the arguments; faces may also be given as
/// triangles.
pub open spec fn is_polyhedron(r: Reading, m: Env, node: Node) -> bool {
    let listed = if found(m, "faces"@) is Some {
        found(m, "faces"@)
    } else {
        found(m, "triangles"@)
    };
    node matches Node::Polyhedron { points, faces } && points@ == points3_of(found(m, "points"@))
        && lists_of(faces@) == named_faces(r, listed)
}

fn read_points3(v: &Option<Value>) -> (r: Vec<Point3>)
    ensures
        r@ == points3_of(
            match *v {
                Some(x) => Some(x@),
                None => None,
            },
        ),
{
    let mut out: Vec<Point3> = Vec::new();
    match v {
        Some(x) => match x {
            Value::Vector(items) => {
                let list: &Vec<Value> = &**items;
                assert(x@ matches Val::Vector(s) && s =~= vals(list@));
                let ghost whole = vals(list@).map_values(|p: Val| point3_of(p));
                for i in 0..list.len()
                    invariant
                        whole == vals(list@).map_values(|p: Val| point3_of(p)),
                        out@ =~= whole.take(i as int),
                {
                    out.push(value_to_point3(&list[i]));
                }
                assert(out@ =~= whole);
            },
            _ => {
                assert(out@ =~= Seq::empty());
            },
        },
        None => {
            assert(out@ =~= Seq::empty());
        },
    }
    out
}

fn read_points2(v: &Option<Value>) -> (r: Vec<Point2>)
    ensures
        r@ == points2_of(
            match *v {
                Some(x) => Some(x@),
                None => None,
            },
        ),
{
    let mut out: Vec<Point2> = Vec::new();
    match v {
        Some(x) => match x {
            Value::Vector(items) => {
                let list: &Vec<Value> = &**items;
                assert(x@ matches Val::Vector(s) && s =~= vals(list@));
                let ghost whole = vals(list@).map_values(|p: Val| point2_of(p));
                for i in 0..list.len()
                    invariant
                        whole == vals(list@).map_values(|p: Val| point2_of(p)),
                        out@ =~= whole.take(i as int),
                {
                    out.push(value_to_point2(&list[i]));
                }
                assert(out@ =~= whole);
            },
            _ => {
                assert(out@ =~= Seq::empty());
            },
        },
        None => {
            assert(out@ =~= Seq::empty());
        },
    }
    out
}

/// The node of a polyhedron.
pub fn polyhedron_node<A: Arithmetic>(calc: &mut Calc<A>, m: &Vec<Entry>) -> (node: Node)
    ensures
        forall|r: Reading| #[trigger]
            final(calc).agrees(r) ==> old(calc).agrees(r) && is_polyhedron(
                r,
                entries(m@),
                node,
            ),
{
    let points = read_points3(&find(m, "points"));
    let listed = match find(m, "faces") {
        Some(v) => Some(v),
        None => find(m, "triangles"),
    };
    let faces = match listed {
        Some(v) => match read_faces(calc, &v) {
            Some(f) => f,
            None => Vec::new(),
        },
        None => Vec::new(),
    };
    proof {
        if faces@.len() == 0 {
            assert(lists_of(faces@) =~= Seq::empty());
        }
    }
    Node::Polyhedron { points, faces }
}

/// `node` is the polygon of the arguments.
pub open spec fn is_polygon(r: Reading, m: Env, node: Node) -> bool {
    node matches Node::Polygon { points, paths } && points@ == points2_of(found(m, "points"@)) && (
    match found(m, "paths"@) {
        Some(v) => faces_of(r, v),
        None => None,
    }) == (match paths {
        Some(p) => Some(lists_of(p@)),
        None => None,
    })
}

/// The node of a polygon.
pub fn polygon_node<A: Arithmetic>(calc: &mut Calc<A>, m: &Vec<Entry>) -> (node: Node)
    ensures
        forall|r: Reading| #[trigger]
            final(calc).agrees(r) ==> old(calc).agrees(r) && is_polygon(r, entries(m@), node),
{
    let points = read_points2(&find(m, "points"));
    let paths = match find(m, "paths") {
        Some(v) => read_faces(calc, &v),
        None => None,
    };
    Node::Polygon { points, paths }
}

// ---- operations on children ------------------------------------------------------------------------------

/// `node` is the child, moved by a matrix given row by row.
pub open spec fn is_matrix_node(node: Node, rows: Seq<u64>, child: Node) -> bool {
    node matches Node::MultMatrix { m, child: c } && m@ == rows && *c == child
}

/// How an outline is scaled on the way up.
pub open spec fn scale_of(m: Env) -> Point2 {
    match found(m, "scale"@) {
        Some(Val::Number(n)) => Point2 { x: n, y: n },
        Some(Val::Vector(items)) => Point2 {
            x: item_or(items, 0, ONE),
            y: item_or(items, 1, ONE),
        },
        _ => Point2 { x: ONE, y: ONE },
    }
}

/// The slices of an extrusion: as many as asked for, or else one, or one to
/// every 15 degrees of twist; at least one.
pub open spec fn slices_of(r: Reading, m: Env) -> u32 {
    let twist = number_arg_or(m, "twist"@, ZERO);
    let n = match number_arg(m, "slices"@) {
        Some(s) => counted(r, s),
        None => if zero(twist) {
            1
        } else {
            counted(
                r,
                greater(
                    r.at(NumOp::Ceil, r.at(NumOp::Div, size_of(twist), FIFTEEN), 0),
                    ONE,
                ),
            )
        },
    };
    if n < 1 {
        1
    } else {
        n
    }
}

/// An extrusion to a height.
pub open spec fn straight(r: Reading, m: Env, height: u64, child: Node) -> Node {
    Node::LinearExtrude {
        height,
        center: truth_arg(m, "center"@),
        twist: number_arg_or(m, "twist"@, ZERO),
        scale: scale_of(m),
        slices: slices_of(r, m),
        child: Box::new(child),
    }
}

/// The vector that an extrusion follows, where it is given one.
pub open spec fn direction_of(m: Env) -> Option<Point3> {
    match found(m, "v"@) {
        Some(Val::Vector(items)) => Some(point3_of(Val::Vector(items))),
        _ => None,
    }
}

/// Where the top of an extrusion lies that follows a vector.
pub open spec fn leaning(r: Reading, height: u64, v: Point3) -> Point3 {
    let length = length_of(r, v);
    Point3 {
        x: r.at(NumOp::Div, r.at(NumOp::Mul, height, v.x), length),
        y: r.at(NumOp::Div, r.at(NumOp::Mul, height, v.y), length),
        z: r.at(NumOp::Div, r.at(NumOp::Mul, height, v.z), length),
    }
}

/// The shear that puts the top of an extrusion over a point.
pub open spec fn shear(r: Reading, d: Point3) -> Seq<u64> {
    seq![
        ONE, ZERO, r.at(NumOp::Div, d.x, d.z), ZERO,
        ZERO, ONE, r.at(NumOp::Div, d.y, d.z), ZERO,
        ZERO, ZERO, ONE, ZERO,
        ZERO, ZERO, ZERO, ONE,
    ]
}

/// `node` is the extrusion of a child: straight up, or sheared where a vector is
/// given that has a length and a height.
pub open spec fn is_linear_extrude(r: Reading, m: Env, child: Node, node: Node) -> bool {
    let height = number_arg_or(m, "height"@, HUNDRED);
    match direction_of(m) {
        Some(v) => {
            let d = leaning(r, height, v);
            if less(PICO, length_of(r, v)) && less(NANO, size_of(d.z)) {
                is_matrix_node(node, shear(r, d), straight(r, m, d.z, child))
            } else {
                node == straight(r, m, height, child)
            }
        },
        None => node == straight(r, m, height, child),
    }
}

fn matrix16(
    a: (u64, u64, u64, u64),
    b: (u64, u64, u64, u64),
    c: (u64, u64, u64, u64),
    d: (u64, u64, u64, u64),
) -> (v: Vec<u64>)
    ensures
        v@ == seq![
            a.0, a.1, a.2, a.3,
            b.0, b.1, b.2, b.3,
            c.0, c.1, c.2, c.3,
            d.0, d.1, d.2, d.3,
        ],
{
    let mut v: Vec<u64> = Vec::new();
    v.push(a.0);
    v.push(a.1);
    v.push(a.2);
    v.push(a.3);
    v.push(b.0);
    v.push(b.1);
    v.push(b.2);
    v.push(b.3);
    v.push(c.0);
    v.push(c.1);
    v.push(c.2);
    v.push(c.3);
    v.push(d.0);
    v.push(d.1);
    v.push(d.2);
    v.push(d.3);
    assert(v@ =~= seq![
        a.0, a.1, a.2, a.3,
        b.0, b.1, b.2, b.3,
        c.0, c.1, c.2, c.3,
        d.0, d.1, d.2, d.3,
    ]);
    v
}

fn get_scale(m: &Vec<Entry>) -> (r: Point2)
    ensures
        r == scale_of(entries(m@)),
{
    match find(m, "scale") {
        Some(v) => match &v {
            Value::Number(n) => Point2 { x: *n, y: *n },
            Value::Vector(items) => {
                let list: &Vec<Value> = &**items;
                assert(v@ matches Val::Vector(s) && s =~= vals(list@));
                Point2 { x: get_item_or(list, 0, ONE), y: get_item_or(list, 1, ONE) }
            },
            _ => Point2 { x: ONE, y: ONE },
        },
        None => Point2 { x: ONE, y: ONE },
    }
}

fn get_slices<A: Arithmetic>(calc: &mut Calc<A>, m: &Vec<Entry>) -> (out: u32)
    ensures
        forall|r: Reading| #[trigger]
            final(calc).agrees(r) ==> old(calc).agrees(r) && out == slices_of(r, entries(m@)),
{
    let twist: u64 = get_number_or(m, "twist", ZERO);
    let n: u32 = match get_number(m, "slices") {
        Some(s) => count(calc, s),
        None => if is_zero(twist) {
            1
        } else {
            let q: u64 = calc.apply(NumOp::Div, absolute(twist), FIFTEEN);
            let up: u64 = calc.apply(NumOp::Ceil, q, 0);
            count(calc, max_of(up, ONE))
        },
    };
    if n < 1 {
        1
    } else {
        n
    }
}

fn get_direction(m: &Vec<Entry>) -> (r: Option<Point3>)
    ensures
        r == direction_of(entries(m@)),
{
    match find(m, "v") {
        Some(v) => match &v {
            Value::Vector(_) => Some(value_to_point3(&v)),
            _ => None,
        },
        None => None,
    }
}

/// An extrusion of a child, straight up or along a vector.
pub fn linear_extrude_node<A: Arithmetic>(calc: &mut Calc<A>, m: &Vec<Entry>, child: Node) -> (node: Node)
    ensures
        forall|r: Reading| #[trigger]
            final(calc).agrees(r) ==> old(calc).agrees(r) && is_linear_extrude(
                r,
                entries(m@),
                child,
                node,
            ),
{
    let height: u64 = get_number_or(m, "height", HUNDRED);
    let center: bool = get_truth(m, "center");
    let twist: u64 = get_number_or(m, "twist", ZERO);
    let scale = get_scale(m);
    let slices: u32 = get_slices(calc, m);
    match get_direction(m) {
        Some(v) => {
            let length: u64 = norm(calc, v);
            let hx: u64 = calc.apply(NumOp::Mul, height, v.x);
            let hy: u64 = calc.apply(NumOp::Mul, height, v.y);
            let hz: u64 = calc.apply(NumOp::Mul, height, v.z);
            let dx: u64 = calc.apply(NumOp::Div, hx, length);
            let dy: u64 = calc.apply(NumOp::Div, hy, length);
            let dz: u64 = calc.apply(NumOp::Div, hz, length);
            if is_less(PICO, length) && is_less(NANO, absolute(dz)) {
                let sx: u64 = calc.apply(NumOp::Div, dx, dz);
                let sy: u64 = calc.apply(NumOp::Div, dy, dz);
                let rows = matrix16(
                    (ONE, ZERO, sx, ZERO),
                    (ZERO, ONE, sy, ZERO),
                    (ZERO, ZERO, ONE, ZERO),
                    (ZERO, ZERO, ZERO, ONE),
                );
                let inner = Node::LinearExtrude {
                    height: dz,
                    center,
                    twist,
                    scale,
                    slices,
                    child: Box::new(child),
                };
                return Node::MultMatrix { m: rows, child: Box::new(inner) };
            }
        },
        None => {},
    }
    Node::LinearExtrude { height, center, twist, scale, slices, child: Box::new(child) }
}

/// The turn about z by an angle, row by row.
pub open spec fn turn_rows(r: Reading, deg: u64) -> Seq<u64> {
    let t = r.at(NumOp::ToRadians, deg, 0);
    let s = r.at(NumOp::Sin, t, 0);
    let c = r.at(NumOp::Cos, t, 0);
    seq![
        c, negative(s), ZERO, ZERO,
        s, c, ZERO, ZERO,
        ZERO, ZERO, ONE, ZERO,
        ZERO, ZERO, ZERO, ONE,
    ]
}

/// A rotational extrusion of a child.
pub open spec fn swept(m: Env, a: Ambient, child: Node) -> Node {
    Node::RotateExtrude {
        angle: number_arg_or(m, "angle"@, FULL_TURN),
        frags: fragments_for(m, a),
        child: Box::new(child),
    }
}

/// A rotational extrusion of a child, turned where it starts elsewhere.
pub fn rotate_extrude_node<A: Arithmetic>(
    calc: &mut Calc<A>,
    m: &Vec<Entry>,
    a: &Ambient,
    child: Node,
) -> (node: Node)
    ensures
        forall|r: Reading| #[trigger]
            final(calc).agrees(r) ==> old(calc).agrees(r) && ({
                let start = number_arg_or(entries(m@), "start"@, ZERO);
                if zero(start) {
                    node == swept(entries(m@), *a, child)
                } else {
                    is_matrix_node(
                        node,
                        turn_rows(r, start),
                        swept(entries(m@), *a, child),
                    )
                }
            }),
{
    let angle: u64 = get_number_or(m, "angle", FULL_TURN);
    let start: u64 = get_number_or(m, "start", ZERO);
    let inner = Node::RotateExtrude { angle, frags: frag_spec(m, a), child: Box::new(child) };
    if is_zero(start) {
        return inner;
    }
    let t: u64 = calc.apply(NumOp::ToRadians, start, 0);
    let s: u64 = calc.apply(NumOp::Sin, t, 0);
    let c: u64 = calc.apply(NumOp::Cos, t, 0);
    let rows = matrix16(
        (c, negate(s), ZERO, ZERO),
        (s, c, ZERO, ZERO),
        (ZERO, ZERO, ONE, ZERO),
        (ZERO, ZERO, ZERO, ONE),
    );
    Node::MultMatrix { m: rows, child: Box::new(inner) }
}

/// An offset of a child: by a radius, or else by a distance, or else by a radius
/// of 1.
pub fn offset_node(m: &Vec<Entry>, a: &Ambient, child: Node) -> (node: Node)
    ensures
        node == (Node::Offset {
            r: match (number_arg(entries(m@), "r"@), number_arg(entries(m@), "delta"@)) {
                (Some(r), _) => r,
                (None, Some(_)) => ZERO,
                (None, None) => ONE,
            },
            delta: match (number_arg(entries(m@), "r"@), number_arg(entries(m@), "delta"@)) {
                (None, Some(d)) => d,
                _ => ZERO,
            },
            chamfer: truth_arg(entries(m@), "chamfer"@),
            frags: fragments_for(entries(m@), *a),
            child: Box::new(child),
        }),
{
    let (r, delta) = match (get_number(m, "r"), get_number(m, "delta")) {
        (Some(r), _) => (r, ZERO),
        (None, Some(d)) => (ZERO, d),
        (None, None) => (ONE, ZERO),
    };
    Node::Offset {
        r,
        delta,
        chamfer: get_truth(m, "chamfer"),
        frags: frag_spec(m, a),
        child: Box::new(child),
    }
}

/// The node of a projection.
pub fn projection_node(m: &Vec<Entry>, child: Node) -> (node: Node)
    ensures
        node == (Node::Projection {
            cut: truth_arg(entries(m@), "cut"@),
            child: Box::new(child),
        }),
{
    Node::Projection { cut: get_truth(m, "cut"), child: Box::new(child) }
}

/// A plain motion of a child.
#[derive(Clone, Copy, Debug, PartialEq, Eq, Structural)]
pub enum TransformKind {
    Translate,
    Rotate,
    Scale,
    Mirror,
}

/// The factors of a scaling: one number for all axes, or those of a list.
pub open spec fn factors_of(v: Val) -> Point3 {
    match v {
        Val::Number(n) => Point3 { x: n, y: n, z: n },
        Val::Vector(items) => Point3 {
            x: item_or(items, 0, ONE),
            y: item_or(items, 1, ONE),
            z: item_or(items, 2, ONE),
        },
        _ => unit_point(),
    }
}

/// The factors that a value stands for.
pub fn scale_vec3(v: &Value) -> (r: Point3)
    ensures
        r == factors_of(v@),
{
    match v {
        Value::Number(n) => Point3 { x: *n, y: *n, z: *n },
        Value::Vector(items) => {
            let list: &Vec<Value> = &**items;
            assert(v@ matches Val::Vector(s) && s =~= vals(list@));
            Point3 {
                x: get_item_or(list, 0, ONE),
                y: get_item_or(list, 1, ONE),
                z: get_item_or(list, 2, ONE),
            }
        },
        _ => Point3 { x: ONE, y: ONE, z: ONE },
    }
}

/// `a * b * k`.
pub open spec fn mul3(r: Reading, a: u64, b: u64, k: u64) -> u64 {
    r.at(NumOp::Mul, r.at(NumOp::Mul, a, b), k)
}

/// The turn by an angle about an axis, row by row.
pub open spec fn axis_rows(r: Reading, axis: Point3, deg: u64) -> Seq<u64> {
    let length = length_of(r, axis);
    let x = r.at(NumOp::Div, axis.x, length);
    let y = r.at(NumOp::Div, axis.y, length);
    let z = r.at(NumOp::Div, axis.z, length);
    let t = r.at(NumOp::ToRadians, deg, 0);
    let c = r.at(NumOp::Cos, t, 0);
    let s = r.at(NumOp::Sin, t, 0);
    let k = r.at(NumOp::Sub, ONE, c);
    seq![
        r.at(NumOp::Add, c, mul3(r, x, x, k)),
        r.at(NumOp::Sub, mul3(r, x, y, k), r.at(NumOp::Mul, z, s)),
        r.at(NumOp::Add, mul3(r, x, z, k), r.at(NumOp::Mul, y, s)),
        ZERO,
        r.at(NumOp::Add, mul3(r, y, x, k), r.at(NumOp::Mul, z, s)),
        r.at(NumOp::Add, c, mul3(r, y, y, k)),
        r.at(NumOp::Sub, mul3(r, y, z, k), r.at(NumOp::Mul, x, s)),
        ZERO,
        r.at(NumOp::Sub, mul3(r, z, x, k), r.at(NumOp::Mul, y, s)),
        r.at(NumOp::Add, mul3(r, z, y, k), r.at(NumOp::Mul, x, s)),
        r.at(NumOp::Add, c, mul3(r, z, z, k)),
        ZERO,
        ZERO, ZERO, ZERO, ONE,
    ]
}

fn times3<A: Arithmetic>(calc: &mut Calc<A>, a: u64, b: u64, k: u64) -> (out: u64)
    ensures
        forall|r: Reading| #[trigger]
            final(calc).agrees(r) ==> old(calc).agrees(r) && out == mul3(r, a, b, k),
{
    let p: u64 = calc.apply(NumOp::Mul, a, b);
    calc.apply(NumOp::Mul, p, k)
}

/// `a * b * k` with `c * s` added or taken away.
fn mixed<A: Arithmetic>(calc: &mut Calc<A>, op: NumOp, a: u64, b: u64, k: u64, c: u64, s: u64) -> (out: u64)
    ensures
        forall|r: Reading| #[trigger]
            final(calc).agrees(r) ==> old(calc).agrees(r) && out == r.at(
                op,
                mul3(r, a, b, k),
                r.at(NumOp::Mul, c, s),
            ),
{
    let p: u64 = times3(calc, a, b, k);
    let q: u64 = calc.apply(NumOp::Mul, c, s);
    calc.apply(op, p, q)
}

/// The turn by an angle about an axis, row by row.
pub fn axis_angle_matrix<A: Arithmetic>(calc: &mut Calc<A>, axis: Point3, deg: u64) -> (out: Vec<u64>)
    ensures
        forall|r: Reading| #[trigger]
            final(calc).agrees(r) ==> old(calc).agrees(r) && out@ == axis_rows(r, axis, deg),
{
    let length: u64 = norm(calc, axis);
    let x: u64 = calc.apply(NumOp::Div, axis.x, length);
    let y: u64 = calc.apply(NumOp::Div, axis.y, length);
    let z: u64 = calc.apply(NumOp::Div, axis.z, length);
    let t: u64 = calc.apply(NumOp::ToRadians, deg, 0);
    let c: u64 = calc.apply(NumOp::Cos, t, 0);
    let s: u64 = calc.apply(NumOp::Sin, t, 0);
    let k: u64 = calc.apply(NumOp::Sub, ONE, c);
    let xx: u64 = times3(calc, x, x, k);
    let m00: u64 = calc.apply(NumOp::Add, c, xx);
    let m01: u64 = mixed(calc, NumOp::Sub, x, y, k, z, s);
    let m02: u64 = mixed(calc, NumOp::Add, x, z, k, y, s);
    let m10: u64 = mixed(calc, NumOp::Add, y, x, k, z, s);
    let yy: u64 = times3(calc, y, y, k);
    let m11: u64 = calc.apply(NumOp::Add, c, yy);
    let m12: u64 = mixed(calc, NumOp::Sub, y, z, k, x, s);
    let m20: u64 = mixed(calc, NumOp::Sub, z, x, k, y, s);
    let m21: u64 = mixed(calc, NumOp::Add, z, y, k, x, s);
    let zz: u64 = times3(calc, z, z, k);
    let m22: u64 = calc.apply(NumOp::Add, c, zz);
    matrix16(
        (m00, m01, m02, ZERO),
        (m10, m11, m12, ZERO),
        (m20, m21, m22, ZERO),
        (ZERO, ZERO, ZERO, ONE),
    )
}

pub open spec fn null_point() -> Point3 {
    Point3 { x: ZERO, y: ZERO, z: ZERO }
}

/// The axis that a rotation is given, where it has a length.
pub open spec fn axis_of(r: Reading, m: Env) -> Option<Point3> {
    match found(m, "v"@) {
        Some(v) => match vec3_of(v) {
            Some((x, y, z)) => if less(
                NANO,
                r.at(NumOp::Hypot, r.at(NumOp::Hypot, x, y), z),
            ) {
                Some(Point3 { x, y, z })
            } else {
                None
            },
            None => None,
        },
        None => None,
    }
}

/// The angles of a rotation: one about z, or one about each axis.
pub open spec fn angles_of(m: Env) -> Point3 {
    match found(m, "a"@) {
        Some(Val::Number(n)) => Point3 { x: ZERO, y: ZERO, z: n },
        _ => vec3_arg_or(m, "a"@, null_point()),
    }
}

/// `node` is the child rotated: about an axis where an angle and an axis with a
/// length are given, else by angles.
pub open spec fn is_rotated(r: Reading, m: Env, child: Node, node: Node) -> bool {
    match (number_arg(m, "a"@), axis_of(r, m)) {
        (Some(angle), Some(axis)) => is_matrix_node(node, axis_rows(r, axis, angle), child),
        _ => node == (Node::Rotate { deg: angles_of(m), child: Box::new(child) }),
    }
}

/// `node` is the child moved.
pub open spec fn is_transformed(r: Reading, kind: TransformKind, m: Env, child: Node, node: Node) -> bool {
    match kind {
        TransformKind::Translate => node == (Node::Translate {
            v: vec3_arg_or(m, "v"@, null_point()),
            child: Box::new(child),
        }),
        TransformKind::Scale => node == (Node::Scale {
            v: match found(m, "v"@) {
                Some(v) => factors_of(v),
                None => unit_point(),
            },
            child: Box::new(child),
        }),
        TransformKind::Mirror => node == (Node::Mirror {
            v: vec3_arg_or(m, "v"@, (Point3 { x: ONE, y: ZERO, z: ZERO })),
            child: Box::new(child),
        }),
        TransformKind::Rotate => is_rotated(r, m, child, node),
    }
}

fn get_axis<A: Arithmetic>(calc: &mut Calc<A>, m: &Vec<Entry>) -> (out: Option<Point3>)
    ensures
        forall|r: Reading| #[trigger]
            final(calc).agrees(r) ==> old(calc).agrees(r) && out == axis_of(r, entries(m@)),
{
    match find(m, "v") {
        Some(v) => match v.as_vec3() {
            Some((x, y, z)) => {
                let h: u64 = calc.apply(NumOp::Hypot, x, y);
                let l: u64 = calc.apply(NumOp::Hypot, h, z);
                if is_less(NANO, l) {
                    Some(Point3 { x, y, z })
                } else {
                    None
                }
            },
            None => None,
        },
        None => None,
    }
}

/// Moves a child; nothing stays nothing.
pub fn transform<A: Arithmetic>(
    calc: &mut Calc<A>,
    kind: TransformKind,
    m: &Vec<Entry>,
    child: Node,
) -> (node: Node)
    ensures
        forall|r: Reading| #[trigger]
            final(calc).agrees(r) ==> old(calc).agrees(r) && if child == Node::Empty {
                node == Node::Empty
            } else {
                is_transformed(r, kind, entries(m@), child, node)
            },
{
    let nothing: bool = match &child {
        Node::Empty => true,
        _ => false,
    };
    if nothing {
        return Node::Empty;
    }
    match kind {
        TransformKind::Translate => Node::Translate {
            v: get_vec3_or(m, "v", Point3 { x: ZERO, y: ZERO, z: ZERO }),
            child: Box::new(child),
        },
        TransformKind::Scale => {
            let v = match find(m, "v") {
                Some(v) => scale_vec3(&v),
                None => Point3 { x: ONE, y: ONE, z: ONE },
            };
            Node::Scale { v, child: Box::new(child) }
        },
        TransformKind::Mirror => Node::Mirror {
            v: get_vec3_or(m, "v", Point3 { x: ONE, y: ZERO, z: ZERO }),
            child: Box::new(child),
        },
        TransformKind::Rotate => {
            let axis = get_axis(calc, m);
            match (get_number(m, "a"), axis) {
                (Some(angle), Some(axis)) => {
                    let rows = axis_angle_matrix(calc, axis, angle);
                    Node::MultMatrix { m: rows, child: Box::new(child) }
                },
                _ => {
                    let deg = match find(m, "a") {
                        Some(Value::Number(n)) => Point3 { x: ZERO, y: ZERO, z: n },
                        _ => get_vec3_or(m, "a", Point3 { x: ZERO, y: ZERO, z: ZERO }),
                    };
                    Node::Rotate { deg, child: Box::new(child) }
                },
            }
        },
    }
}

/// An entry of a matrix given as rows: what is given, and else that of the
/// matrix that moves nothing.
pub open spec fn matrix_entry(v: Val, i: int, j: int) -> u64 {
    let own = if i == j {
        ONE
    } else {
        ZERO
    };
    match items_of(v) {
        Some(rows) => if i < rows.len() {
            match items_of(rows[i]) {
                Some(row) => item_or(row, j, own),
                None => own,
            }
        } else {
            own
        },
        None => own,
    }
}

/// A matrix given as rows, sixteen numbers.
pub open spec fn matrix_of(v: Val) -> Seq<u64> {
    Seq::new(16, |k: int| matrix_entry(v, k / 4, k % 4))
}

fn get_entry(v: &Value, i: usize, j: usize) -> (r: u64)
    ensures
        r == matrix_entry(v@, i as int, j as int),
{
    let own: u64 = if i == j {
        ONE
    } else {
        ZERO
    };
    match v {
        Value::Vector(items) => {
            let rows: &Vec<Value> = &**items;
            assert(v@ matches Val::Vector(s) && s =~= vals(rows@));
            if i < rows.len() {
                assert(vals(rows@)[i as int] == rows@[i as int]@);
                match &rows[i] {
                    Value::Vector(inner) => {
                        let row: &Vec<Value> = &**inner;
                        assert(rows@[i as int]@ matches Val::Vector(s) && s =~= vals(row@));
                        get_item_or(row, j, own)
                    },
                    _ => own,
                }
            } else {
                own
            }
        },
        _ => own,
    }
}

/// A matrix given as rows, filled up from the one that moves nothing.
pub fn matrix_from_value(v: &Value) -> (r: Vec<u64>)
    ensures
        r@ == matrix_of(v@),
{
    let mut out: Vec<u64> = Vec::new();
    let mut k: usize = 0;
    while k < 16
        invariant
            k <= 16,
            out@ =~= matrix_of(v@).take(k as int),
        decreases 16 - k,
    {
        out.push(get_entry(v, k / 4, k % 4));
        k = k + 1;
    }
    assert(out@ =~= matrix_of(v@));
    out
}

/// Moves a child by a matrix; nothing stays nothing.
pub fn multmatrix_node(m: &Vec<Entry>, child: Node) -> (node: Node)
    ensures
        if child == Node::Empty {
            node == Node::Empty
        } else {
            is_matrix_node(
                node,
                matrix_of(
                    match found(entries(m@), "m"@) {
                        Some(v) => v,
                        None => Val::Undef,
                    },
                ),
                child,
            )
        },
{
    let nothing: bool = match &child {
        Node::Empty => true,
        _ => false,
    };
    if nothing {
        return Node::Empty;
    }
    let rows = match find(m, "m") {
        Some(v) => matrix_from_value(&v),
        None => matrix_from_value(&Value::Undef),
    };
    Node::MultMatrix { m: rows, child: Box::new(child) }
}

/// Whether the `i`-th axis follows the others.
pub open spec fn follows(m: Env, i: int) -> bool {
    match found(m, "auto"@) {
        Some(Val::Bool(b)) => b,
        Some(Val::Vector(items)) => i < items.len() && truth(items[i]),
        _ => false,
    }
}

fn get_follows(m: &Vec<Entry>, i: usize) -> (r: bool)
    ensures
        r == follows(entries(m@), i as int),
{
    match find(m, "auto") {
        Some(v) => match &v {
            Value::Bool(b) => *b,
            Value::Vector(items) => {
                let list: &Vec<Value> = &**items;
                assert(v@ matches Val::Vector(s) && s =~= vals(list@));
                if i < list.len() {
                    assert(vals(list@)[i as int] == list@[i as int]@);
                    list[i].truthy()
                } else {
                    false
                }
            },
            _ => false,
        },
        None => false,
    }
}

/// Resizes a child; nothing stays nothing.
pub fn resize_node(m: &Vec<Entry>, child: Node) -> (node: Node)
    ensures
        node == if child == Node::Empty {
            Node::Empty
        } else {
            Node::Resize {
                new: vec3_arg_or(entries(m@), "newsize"@, null_point()),
                auto_x: follows(entries(m@), 0),
                auto_y: follows(entries(m@), 1),
                auto_z: follows(entries(m@), 2),
                child: Box::new(child),
            }
        },
{
    let nothing: bool = match &child {
        Node::Empty => true,
        _ => false,
    };
    if nothing {
        return Node::Empty;
    }
    Node::Resize {
        new: get_vec3_or(m, "newsize", Point3 { x: ZERO, y: ZERO, z: ZERO }),
        auto_x: get_follows(m, 0),
        auto_y: get_follows(m, 1),
        auto_z: get_follows(m, 2),
        child: Box::new(child),
    }
}

/// The color that only its transparency was given for.
pub open spec fn default_tint(r: Reading, alpha: u64) -> Rgba {
    Rgba {
        r: 0x3f76_0419,
        g: 0x3f25_a1cb,
        b: 0x3e0c_49ba,
        a: r.at(NumOp::ToSingle, alpha, 0) as u32,
    }
}

/// Colors a child; nothing stays nothing. `parsed` is the color that the value
/// stands for. Where it stands for none, a given transparency is taken with the
/// default color.
pub fn color_node<A: Arithmetic>(
    calc: &mut Calc<A>,
    m: &Vec<Entry>,
    parsed: Option<Rgba>,
    child: Node,
) -> (node: Node)
    ensures
        forall|r: Reading| #[trigger]
            final(calc).agrees(r) ==> old(calc).agrees(r) && node == if child == Node::Empty {
                Node::Empty
            } else {
                match (parsed, number_arg(entries(m@), "alpha"@)) {
                    (Some(rgba), _) => Node::Color { rgba, child: Box::new(child) },
                    (None, Some(a)) => Node::Color {
                        rgba: default_tint(r, a),
                        child: Box::new(child),
                    },
                    (None, None) => child,
                }
            },
{
    let nothing: bool = match &child {
        Node::Empty => true,
        _ => false,
    };
    if nothing {
        return Node::Empty;
    }
    match parsed {
        Some(rgba) => Node::Color { rgba, child: Box::new(child) },
        None => match get_number(m, "alpha") {
            Some(alpha) => {
                let a: u64 = calc.apply(NumOp::ToSingle, alpha, 0);
                let rgba = Rgba {
                    r: 0x3f76_0419,
                    g: 0x3f25_a1cb,
                    b: 0x3e0c_49ba,
                    a: (a % 0x1_0000_0000) as u32,
                };
                assert((a % 0x1_0000_0000) as u32 == a as u32) by (bit_vector);
                Node::Color { rgba, child: Box::new(child) }
            },
            None => child,
        },
    }
}

} // verus!
