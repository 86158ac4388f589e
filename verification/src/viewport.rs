//! What a program starts from, the camera that it leaves behind, and the lines
//! that it prints.

use crate::blob::texts;
use crate::eval::{entries, find, passed, special, Entry, PassedArg};
use crate::format::repr_of;
use crate::json::{array, json_array, json_field, json_object, object, put};
use crate::modules::TWELVE;
use crate::num::{Arithmetic, Calc, Reading, TextOp, TWO, ZERO};
use crate::sem::{found, is_special, Env, Passed};
use crate::text::{join, joined, same_text};
use crate::value::{number_of, vals, vec3_of, vector, Val, Value};
use vstd::prelude::*;

verus! {

/// 55.
pub const TILT: u64 = 0x404b_8000_0000_0000;

/// 25.
pub const PAN: u64 = 0x4039_0000_0000_0000;

/// 140.
pub const DISTANCE: u64 = 0x4061_8000_0000_0000;

/// 45.
pub const FIELD: u64 = 0x4046_8000_0000_0000;

// ---- the first dynamic names ------------------------------------------------------------------------

pub open spec fn three(x: u64, y: u64, z: u64) -> Val {
    Val::Vector(seq![Val::Number(x), Val::Number(y), Val::Number(z)])
}

/// The dynamic names that every program starts from.
pub open spec fn first_names(preview: bool) -> Env {
    seq![
        ("$fn"@, Val::Number(ZERO)),
        ("$fa"@, Val::Number(TWELVE)),
        ("$fs"@, Val::Number(TWO)),
        ("$t"@, Val::Number(ZERO)),
        ("$preview"@, Val::Bool(preview)),
        ("$vpr"@, three(TILT, ZERO, PAN)),
        ("$vpt"@, three(ZERO, ZERO, ZERO)),
        ("$vpd"@, Val::Number(DISTANCE)),
        ("$vpf"@, Val::Number(FIELD)),
    ]
}

/// The names with the first `n` overrides of dynamic names; `$preview` cannot be
/// overridden.
pub open spec fn with_overrides(names: Env, overrides: Env, n: int) -> Env
    decreases n,
{
    if n <= 0 {
        names
    } else {
        let done = with_overrides(names, overrides, n - 1);
        let o = overrides[n - 1];
        if is_special(o.0) && o.0 != "$preview"@ {
            done.push(o)
        } else {
            done
        }
    }
}

fn push_entry(list: &mut Vec<Entry>, name: &str, value: Value)
    ensures
        entries(final(list)@) == entries(old(list)@).push((name@, value@)),
{
    let ghost held = entries(list@);
    let ghost vv = value@;
    list.push(Entry { name: name.to_owned(), value });
    assert(entries(list@) =~= held.push((name@, vv)));
}

fn vector3(x: u64, y: u64, z: u64) -> (r: Value)
    ensures
        r@ == three(x, y, z),
{
    let mut v: Vec<Value> = Vec::new();
    v.push(Value::Number(x));
    v.push(Value::Number(y));
    v.push(Value::Number(z));
    assert(vals(v@) =~= seq![Val::Number(x), Val::Number(y), Val::Number(z)]);
    vector(v)
}

/// The dynamic names that a program starts from: the usual ones, and those given
/// from outside, which do not change `$preview`.
pub fn initial_specials(preview: bool, overrides: &Vec<Entry>) -> (r: Vec<Entry>)
    ensures
        entries(r@) == with_overrides(
            first_names(preview),
            entries(overrides@),
            overrides@.len() as int,
        ),
{
    let mut list: Vec<Entry> = Vec::new();
    assert(entries(list@) =~= Seq::empty());
    push_entry(&mut list, "$fn", Value::Number(ZERO));
    push_entry(&mut list, "$fa", Value::Number(TWELVE));
    push_entry(&mut list, "$fs", Value::Number(TWO));
    push_entry(&mut list, "$t", Value::Number(ZERO));
    push_entry(&mut list, "$preview", Value::Bool(preview));
    push_entry(&mut list, "$vpr", vector3(TILT, ZERO, PAN));
    push_entry(&mut list, "$vpt", vector3(ZERO, ZERO, ZERO));
    push_entry(&mut list, "$vpd", Value::Number(DISTANCE));
    push_entry(&mut list, "$vpf", Value::Number(FIELD));
    assert(entries(list@) =~= first_names(preview));
    let ghost ov = entries(overrides@);
    let mut i: usize = 0;
    while i < overrides.len()
        invariant
            i <= overrides@.len(),
            ov == entries(overrides@),
            entries(list@) == with_overrides(first_names(preview), ov, i as int),
        decreases overrides.len() - i,
    {
        let one = &overrides[i];
        assert(ov[i as int] == (one.name@, one.value@));
        if special(one.name.as_str()) && !same_text(one.name.as_str(), "$preview") {
            push_entry(&mut list, one.name.as_str(), one.value.duplicate());
        }
        i = i + 1;
    }
    list
}

/// Overrides cannot change whether a program is previewed.
pub proof fn law_preview_is_fixed(preview: bool, overrides: Env)
    ensures
        found(
            with_overrides(first_names(preview), overrides, overrides.len() as int),
            "$preview"@,
        ) == Some(Val::Bool(preview)),
{
    lemma_preview(preview, overrides, overrides.len() as int);
}

proof fn lemma_preview(preview: bool, overrides: Env, n: int)
    requires
        n <= overrides.len(),
    ensures
        found(with_overrides(first_names(preview), overrides, n), "$preview"@) == Some(
            Val::Bool(preview),
        ),
    decreases n,
{
    let names = first_names(preview);
    if n <= 0 {
        reveal_strlit("$preview");
        reveal_strlit("$vpr");
        reveal_strlit("$vpt");
        reveal_strlit("$vpd");
        reveal_strlit("$vpf");
        assert("$vpf"@.len() == 4 && "$vpd"@.len() == 4 && "$vpt"@.len() == 4 && "$vpr"@.len() == 4);
        assert("$preview"@.len() == 8);
        let a = names.drop_last();
        let b = a.drop_last();
        let c = b.drop_last();
        let d = c.drop_last();
        assert(d.last() == ("$preview"@, Val::Bool(preview)));
        assert(found(d, "$preview"@) == Some(Val::Bool(preview)));
        assert(c.last().0 == "$vpr"@);
        assert(found(c, "$preview"@) == found(d, "$preview"@));
        assert(b.last().0 == "$vpt"@);
        assert(found(b, "$preview"@) == found(c, "$preview"@));
        assert(a.last().0 == "$vpd"@);
        assert(found(a, "$preview"@) == found(b, "$preview"@));
        assert(names.last().0 == "$vpf"@);
    } else {
        lemma_preview(preview, overrides, n - 1);
        let done = with_overrides(names, overrides, n - 1);
        let o = overrides[n - 1];
        if is_special(o.0) && o.0 != "$preview"@ {
            let all = done.push(o);
            assert(all.drop_last() =~= done);
            assert(all.last() == o);
        }
    }
}

// ---- the camera ------------------------------------------------------------------------------------------

/// The camera that a program leaves behind.
#[derive(Clone, Copy, Debug)]
pub struct Viewport {
    pub vpr: Option<(u64, u64, u64)>,
    pub vpt: Option<(u64, u64, u64)>,
    pub vpd: Option<u64>,
    pub vpf: Option<u64>,
}

/// Three numbers that a name holds.
pub open spec fn vector_at(names: Env, name: Seq<char>) -> Option<(u64, u64, u64)> {
    match found(names, name) {
        Some(v) => vec3_of(v),
        None => None,
    }
}

/// A number that a name holds.
pub open spec fn number_at(names: Env, name: Seq<char>) -> Option<u64> {
    match found(names, name) {
        Some(v) => number_of(v),
        None => None,
    }
}

fn get_vector(names: &Vec<Entry>, name: &str) -> (r: Option<(u64, u64, u64)>)
    ensures
        r == vector_at(entries(names@), name@),
{
    match find(names, name) {
        Some(v) => v.as_vec3(),
        None => None,
    }
}

fn get_number(names: &Vec<Entry>, name: &str) -> (r: Option<u64>)
    ensures
        r == number_at(entries(names@), name@),
{
    match find(names, name) {
        Some(v) => v.as_number(),
        None => None,
    }
}

/// The camera that the dynamic names say.
pub fn viewport_of(names: &Vec<Entry>) -> (r: Viewport)
    ensures
        r == (Viewport {
            vpr: vector_at(entries(names@), "$vpr"@),
            vpt: vector_at(entries(names@), "$vpt"@),
            vpd: number_at(entries(names@), "$vpd"@),
            vpf: number_at(entries(names@), "$vpf"@),
        }),
{
    Viewport {
        vpr: get_vector(names, "$vpr"),
        vpt: get_vector(names, "$vpt"),
        vpd: get_number(names, "$vpd"),
        vpf: get_number(names, "$vpf"),
    }
}

/// Three numbers as JSON, `null` where there are none.
pub open spec fn vector_json(m: Reading, v: Option<(u64, u64, u64)>) -> Seq<char> {
    match v {
        Some((x, y, z)) => json_array(
            seq![
                m.written(TextOp::Json, x, 0),
                m.written(TextOp::Json, y, 0),
                m.written(TextOp::Json, z, 0),
            ],
        ),
        None => "null"@,
    }
}

/// A number as JSON, `null` where there is none.
pub open spec fn number_json(m: Reading, v: Option<u64>) -> Seq<char> {
    match v {
        Some(n) => m.written(TextOp::Json, n, 0),
        None => "null"@,
    }
}

/// The camera as JSON.
pub open spec fn camera_json(m: Reading, v: Viewport) -> Seq<char> {
    json_object(
        seq![
            json_field("vpr"@, vector_json(m, v.vpr)),
            json_field("vpt"@, vector_json(m, v.vpt)),
            json_field("vpd"@, number_json(m, v.vpd)),
            json_field("vpf"@, number_json(m, v.vpf)),
        ],
    )
}

fn write_vector<A: Arithmetic>(calc: &mut Calc<A>, v: Option<(u64, u64, u64)>) -> (r: String)
    ensures
        forall|m: Reading| #[trigger]
            final(calc).agrees(m) ==> old(calc).agrees(m) && r@ == vector_json(m, v),
{
    match v {
        Some((x, y, z)) => {
            let a = calc.write(TextOp::Json, x, 0);
            let b = calc.write(TextOp::Json, y, 0);
            let c = calc.write(TextOp::Json, z, 0);
            let ghost parts = seq![a@, b@, c@];
            let mut items: Vec<String> = Vec::new();
            items.push(a);
            items.push(b);
            items.push(c);
            assert(texts(items@) =~= parts);
            array(&items)
        },
        None => "null".to_owned(),
    }
}

fn write_number<A: Arithmetic>(calc: &mut Calc<A>, v: Option<u64>) -> (r: String)
    ensures
        forall|m: Reading| #[trigger]
            final(calc).agrees(m) ==> old(calc).agrees(m) && r@ == number_json(m, v),
{
    match v {
        Some(n) => calc.write(TextOp::Json, n, 0),
        None => "null".to_owned(),
    }
}

/// The camera as JSON, `null` for what is not set.
pub fn viewport_json<A: Arithmetic>(calc: &mut Calc<A>, v: &Viewport) -> (r: String)
    ensures
        forall|m: Reading| #[trigger]
            final(calc).agrees(m) ==> old(calc).agrees(m) && r@ == camera_json(m, *v),
{
    let vpr = write_vector(calc, v.vpr);
    let vpt = write_vector(calc, v.vpt);
    let vpd = write_number(calc, v.vpd);
    let vpf = write_number(calc, v.vpf);
    let mut fields: Vec<String> = Vec::new();
    assert(texts(fields@) =~= Seq::empty());
    put(&mut fields, "vpr", vpr.as_str());
    put(&mut fields, "vpt", vpt.as_str());
    put(&mut fields, "vpd", vpd.as_str());
    put(&mut fields, "vpf", vpf.as_str());
    assert(texts(fields@) =~= seq![
        json_field("vpr"@, vpr@),
        json_field("vpt"@, vpt@),
        json_field("vpd"@, vpd@),
        json_field("vpf"@, vpf@),
    ]);
    object(&fields)
}

// ---- printing --------------------------------------------------------------------------------------------

/// One argument of a printed line: its value, after its name where it has one.
pub open spec fn echo_part(m: Reading, functions: Seq<Seq<char>>, a: (Option<Seq<char>>, Val)) -> Seq<char> {
    match a.0 {
        Some(n) => n + " = "@ + repr_of(m, a.1, functions),
        None => repr_of(m, a.1, functions),
    }
}

/// A printed line.
pub open spec fn echoed(m: Reading, functions: Seq<Seq<char>>, args: Passed) -> Seq<char> {
    "ECHO: "@ + joined(
        args.map_values(|a: (Option<Seq<char>>, Val)| echo_part(m, functions, a)),
        ", "@,
    )
}

/// The line that `echo` prints.
pub fn echo_line<A: Arithmetic>(calc: &mut Calc<A>, functions: &Vec<String>, args: &Vec<PassedArg>) -> (r:
    String)
    ensures
        forall|m: Reading| #[trigger]
            final(calc).agrees(m) ==> old(calc).agrees(m) && r@ == echoed(
                m,
                texts(functions@),
                passed(args@),
            ),
{
    let ghost pv = passed(args@);
    let ghost fv = texts(functions@);
    let mut parts: Vec<String> = Vec::new();
    let mut i: usize = 0;
    while i < args.len()
        invariant
            i <= args@.len(),
            pv == passed(args@),
            fv == texts(functions@),
            parts@.len() == i,
            forall|m: Reading| #[trigger]
                calc.agrees(m) ==> old(calc).agrees(m) && forall|k: int|
                    0 <= k < i ==> (#[trigger] texts(parts@)[k]) == echo_part(m, fv, pv[k]),
        decreases args.len() - i,
    {
        let ghost held = texts(parts@);
        let value = args[i].value.repr(calc, functions);
        let part = match &args[i].name {
            Some(n) => {
                let mut s = n.clone();
                s.append(" = ");
                s.append(value.as_str());
                s
            },
            None => value,
        };
        let ghost tv = part@;
        parts.push(part);
        assert(texts(parts@) =~= held.push(tv));
        i = i + 1;
    }
    proof {
        assert forall|m: Reading| #[trigger] calc.agrees(m) implies texts(parts@) == pv.map_values(
            |a: (Option<Seq<char>>, Val)| echo_part(m, fv, a),
        ) by {
            assert(texts(parts@) =~= pv.map_values(
                |a: (Option<Seq<char>>, Val)| echo_part(m, fv, a),
            ));
        }
    }
    let mut line = "ECHO: ".to_owned();
    let inner = join(&parts, ", ");
    line.append(inner.as_str());
    line
}

} // verus!
