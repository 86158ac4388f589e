//! A scene as a binary glTF file.

use crate::blob::texts;
use crate::canonical::{canonical_triangles, is_canonical, Turned};
use crate::compiled::{
    compile_with, compiled, lemma_scene_fits, positions, CompiledGlb, Component, Primitive,
};
use crate::edges::{feature_edges, feature_edges_of, Edge};
use crate::error::{misfit, GeomError, GeomFault};
use crate::gltf::{
    add_index_accessor, add_vec3_accessor, add_view, container, container_length, corner_normals,
    corner_positions, counting_bytes, end_positions, ends_of, f32_bytes, frame_glb, normals_of,
    positions_of, single, u32_bytes, vertex_bytes, with_indices, with_vertices, with_view, Bin,
    BinView,
};
use crate::json::{array, json_array, json_field, json_object, json_quoted, object, put, quote};
use crate::mesh::{Mesh, MeshView, Triangle};
use crate::names::{name_sources, safe_source_keys};
use crate::num::{finite, is_finite, is_less, less, Arithmetic, Calc, NumOp, Reading, TextOp, ZERO};
use crate::palette::{
    hex_color, materials, materials_of, mode_name, rgba_hex, Color, MaterialKey,
};
use crate::pipeline::CoordinateSystem;
use crate::provenance::{path, paths, FrameView, ProvenanceFrame};
use crate::provtext::{
    definition_json, definition_text, module_json, module_text, paths_json, paths_text,
    provenance_json, provenance_text, sources_json, sources_text, span_json, span_text,
};
use crate::rank::{ascending, sorted, Ranked};
use crate::solid::{add_frames, attributed, with_frames, StructuredMesh};
use crate::surfaces::{surface_views, AttributionStatus};
use crate::text::{concat2, decimal, decimal_text};
use vstd::prelude::*;
use vstd::utf8::encode_utf8;

verus! {

// ---- materials -----------------------------------------------------------------------------

/// The linear value of a color component.
pub open spec fn linear(m: Reading, v: u8) -> u32 {
    let value = single(
        m.at(NumOp::SingleDiv, single(m.at(NumOp::SingleFromInt, v as u64, 0)) as u64, 0x437f_0000),
    );
    if value <= 0x3d25_aee6 {
        single(m.at(NumOp::SingleDiv, value as u64, 0x414e_b852))
    } else {
        let sum = single(m.at(NumOp::SingleAdd, value as u64, 0x3d61_47ae));
        let base = single(m.at(NumOp::SingleDiv, sum as u64, 0x3f87_0a3d));
        single(m.at(NumOp::SinglePow, base as u64, 0x4019_999a))
    }
}

/// An opacity between 0 and 1.
pub open spec fn opacity(m: Reading, v: u8) -> u32 {
    single(
        m.at(NumOp::SingleDiv, single(m.at(NumOp::SingleFromInt, v as u64, 0)) as u64, 0x437f_0000),
    )
}

fn low_half(b: u64) -> (r: u64)
    ensures
        r == single(b) as u64,
{
    b % 0x1_0000_0000
}

/// An opacity between 0 and 1.
fn to_opacity<A: Arithmetic>(calc: &mut Calc<A>, v: u8) -> (r: u64)
    ensures
        forall|m: Reading| #[trigger]
            final(calc).agrees(m) ==> old(calc).agrees(m) && r == opacity(m, v) as u64,
{
    let whole: u64 = calc.apply(NumOp::SingleFromInt, v as u64, 0);
    let part: u64 = calc.apply(NumOp::SingleDiv, low_half(whole), 0x437f_0000);
    low_half(part)
}

/// The linear value of a color component.
pub fn srgb_to_linear<A: Arithmetic>(calc: &mut Calc<A>, v: u8) -> (r: u64)
    ensures
        forall|m: Reading| #[trigger]
            final(calc).agrees(m) ==> old(calc).agrees(m) && r == linear(m, v) as u64,
{
    let value: u64 = to_opacity(calc, v);
    if value <= 0x3d25_aee6 {
        let r: u64 = calc.apply(NumOp::SingleDiv, value, 0x414e_b852);
        low_half(r)
    } else {
        let sum: u64 = calc.apply(NumOp::SingleAdd, value, 0x3d61_47ae);
        let base: u64 = calc.apply(NumOp::SingleDiv, low_half(sum), 0x3f87_0a3d);
        let r: u64 = calc.apply(NumOp::SinglePow, low_half(base), 0x4019_999a);
        low_half(r)
    }
}

/// The base color of a material, as an array.
pub open spec fn factor_text(m: Reading, c: Color) -> Seq<char> {
    json_array(
        seq![
            m.written(TextOp::JsonSingle, linear(m, c.r) as u64, 0),
            m.written(TextOp::JsonSingle, linear(m, c.g) as u64, 0),
            m.written(TextOp::JsonSingle, linear(m, c.b) as u64, 0),
            m.written(TextOp::JsonSingle, opacity(m, c.a) as u64, 0),
        ],
    )
}

/// The finish of a material.
pub open spec fn finish_text(factor: Seq<char>, metallic: Seq<char>, roughness: Seq<char>) -> Seq<
    char,
> {
    json_object(
        seq![
            json_field("baseColorFactor"@, factor),
            json_field("metallicFactor"@, metallic),
            json_field("roughnessFactor"@, roughness),
        ],
    )
}

/// A material of one color, blended where it is not opaque.
pub open spec fn material_text(m: Reading, c: Color) -> Seq<char> {
    let rest = seq![
        json_field("doubleSided"@, "true"@),
        json_field("name"@, json_quoted(hex_color(c) + " Material"@)),
        json_field("pbrMetallicRoughness"@, finish_text(factor_text(m, c), "0.1"@, "0.6"@)),
    ];
    json_object(
        if c.a < 255 {
            seq![json_field("alphaMode"@, json_quoted("BLEND"@))] + rest
        } else {
            rest
        },
    )
}

/// The material of feature edges: black, without shading.
pub open spec fn line_material_text() -> Seq<char> {
    json_object(
        seq![
            json_field("alphaMode"@, json_quoted("OPAQUE"@)),
            json_field("doubleSided"@, "true"@),
            json_field(
                "extensions"@,
                json_object(seq![json_field("KHR_materials_unlit"@, json_object(Seq::empty()))]),
            ),
            json_field("name"@, json_quoted("Feature Edges"@)),
            json_field(
                "pbrMetallicRoughness"@,
                finish_text(json_array(seq!["0.0"@, "0.0"@, "0.0"@, "1.0"@]), "0.0"@, "1.0"@),
            ),
        ],
    )
}

fn finish_json(factor: &str, metallic: &str, roughness: &str) -> (r: String)
    ensures
        r@ == finish_text(factor@, metallic@, roughness@),
{
    let mut fields: Vec<String> = Vec::new();
    put(&mut fields, "baseColorFactor", factor);
    put(&mut fields, "metallicFactor", metallic);
    put(&mut fields, "roughnessFactor", roughness);
    assert(texts(fields@) =~= seq![
        json_field("baseColorFactor"@, factor@),
        json_field("metallicFactor"@, metallic@),
        json_field("roughnessFactor"@, roughness@),
    ]);
    object(&fields)
}

fn material_json<A: Arithmetic>(calc: &mut Calc<A>, c: Color) -> (r: String)
    ensures
        forall|m: Reading| #[trigger]
            final(calc).agrees(m) ==> old(calc).agrees(m) && r@ == material_text(m, c),
{
    let red: u64 = srgb_to_linear(calc, c.r);
    let green: u64 = srgb_to_linear(calc, c.g);
    let blue: u64 = srgb_to_linear(calc, c.b);
    let alpha: u64 = to_opacity(calc, c.a);
    let mut items: Vec<String> = Vec::new();
    let r = calc.write(TextOp::JsonSingle, red, 0);
    let g = calc.write(TextOp::JsonSingle, green, 0);
    let b = calc.write(TextOp::JsonSingle, blue, 0);
    let a = calc.write(TextOp::JsonSingle, alpha, 0);
    let ghost parts = seq![r@, g@, b@, a@];
    items.push(r);
    items.push(g);
    items.push(b);
    items.push(a);
    assert(texts(items@) =~= parts);
    let factor = array(&items);
    let mut fields: Vec<String> = Vec::new();
    if c.a < 255 {
        let blend = quote("BLEND");
        put(&mut fields, "alphaMode", blend.as_str());
    }
    put(&mut fields, "doubleSided", "true");
    let hex = rgba_hex(c);
    let name = concat2(hex.as_str(), " Material");
    let quoted = quote(name.as_str());
    put(&mut fields, "name", quoted.as_str());
    let finish = finish_json(factor.as_str(), "0.1", "0.6");
    put(&mut fields, "pbrMetallicRoughness", finish.as_str());
    proof {
        let rest = seq![
            json_field("doubleSided"@, "true"@),
            json_field("name"@, json_quoted(hex_color(c) + " Material"@)),
            json_field("pbrMetallicRoughness"@, finish@),
        ];
        if c.a < 255 {
            assert(texts(fields@) =~= seq![json_field("alphaMode"@, json_quoted("BLEND"@))] + rest);
        } else {
            assert(texts(fields@) =~= rest);
        }
    }
    object(&fields)
}

fn line_material_json() -> (r: String)
    ensures
        r@ == line_material_text(),
{
    let mut fields: Vec<String> = Vec::new();
    let opaque = quote("OPAQUE");
    put(&mut fields, "alphaMode", opaque.as_str());
    put(&mut fields, "doubleSided", "true");
    let none: Vec<String> = Vec::new();
    assert(texts(none@) =~= Seq::empty());
    let empty = object(&none);
    let mut ext: Vec<String> = Vec::new();
    put(&mut ext, "KHR_materials_unlit", empty.as_str());
    assert(texts(ext@) =~= seq![
        json_field("KHR_materials_unlit"@, json_object(Seq::empty())),
    ]);
    let extensions = object(&ext);
    put(&mut fields, "extensions", extensions.as_str());
    let name = quote("Feature Edges");
    put(&mut fields, "name", name.as_str());
    let mut items: Vec<String> = Vec::new();
    items.push("0.0".to_owned());
    items.push("0.0".to_owned());
    items.push("0.0".to_owned());
    items.push("1.0".to_owned());
    assert(texts(items@) =~= seq!["0.0"@, "0.0"@, "0.0"@, "1.0"@]);
    let factor = array(&items);
    let finish = finish_json(factor.as_str(), "0.0", "1.0");
    put(&mut fields, "pbrMetallicRoughness", finish.as_str());
    assert(texts(fields@) =~= seq![
        json_field("alphaMode"@, json_quoted("OPAQUE"@)),
        json_field("doubleSided"@, "true"@),
        json_field(
            "extensions"@,
            json_object(seq![json_field("KHR_materials_unlit"@, json_object(Seq::empty()))]),
        ),
        json_field("name"@, json_quoted("Feature Edges"@)),
        json_field(
            "pbrMetallicRoughness"@,
            finish_text(json_array(seq!["0.0"@, "0.0"@, "0.0"@, "1.0"@]), "0.0"@, "1.0"@),
        ),
    ]);
    object(&fields)
}

/// The table of materials: one for each color, then that of edges.
pub open spec fn material_texts(m: Reading, colors: Seq<Color>, lines: bool) -> Seq<Seq<char>> {
    let filled = colors.map_values(|c: Color| material_text(m, c));
    if lines {
        filled.push(line_material_text())
    } else {
        filled
    }
}

fn materials_json<A: Arithmetic>(calc: &mut Calc<A>, colors: &Vec<Color>, lines: bool) -> (r: Vec<
    String,
>)
    ensures
        forall|m: Reading| #[trigger]
            final(calc).agrees(m) ==> old(calc).agrees(m) && texts(r@) == material_texts(
                m,
                colors@,
                lines,
            ),
{
    let mut out: Vec<String> = Vec::new();
    let mut i: usize = 0;
    while i < colors.len()
        invariant
            i <= colors@.len(),
            out@.len() == i,
            forall|m: Reading| #[trigger]
                calc.agrees(m) ==> old(calc).agrees(m) && texts(out@) =~= colors@.map_values(
                    |c: Color| material_text(m, c),
                ).take(i as int),
        decreases colors.len() - i,
    {
        let text = material_json(calc, colors[i]);
        let ghost before = texts(out@);
        out.push(text);
        proof {
            assert(texts(out@) =~= before.push(text@));
            assert forall|m: Reading| #[trigger] calc.agrees(m) implies texts(out@)
                =~= colors@.map_values(|c: Color| material_text(m, c)).take(i + 1) by {
                let all = colors@.map_values(|c: Color| material_text(m, c));
                assert(before =~= all.take(i as int));
                assert(all[i as int] == text@);
            }
        }
        i = i + 1;
    }
    let ghost filled = texts(out@);
    if lines {
        out.push(line_material_json());
        assert(texts(out@) =~= filled.push(line_material_text()));
    }
    proof {
        assert forall|m: Reading| #[trigger] calc.agrees(m) implies texts(out@) == material_texts(
            m,
            colors@,
            lines,
        ) by {
            let all = colors@.map_values(|c: Color| material_text(m, c));
            assert(all.take(colors@.len() as int) =~= all);
        }
    }
    out
}

// ---- primitives -------------------------------------------------------------------------------

/// What the file is made from, beside the components.
pub struct SceneView {
    pub mesh: MeshView,
    pub scale: u64,
    pub up: CoordinateSystem,
    /// The colors of all materials, in order, each once.
    pub colors: Seq<Color>,
    /// Whether primitives say how they are displayed.
    pub modes: bool,
    /// Whether feature edges are drawn.
    pub lines: bool,
    pub keys: Seq<Seq<char>>,
}

/// The data so far, and the primitives of the component at hand.
pub struct Drawn {
    pub bin: BinView,
    pub primitives: Seq<Seq<char>>,
}

/// The number of a color's material.
pub open spec fn color_number(colors: Seq<Color>, c: Color) -> int {
    colors.index_of(c)
}

pub open spec fn mode_extras(mode: Seq<char>) -> Seq<char> {
    json_object(
        seq![
            json_field(
                "openrscad"@,
                json_object(seq![json_field("displayMode"@, json_quoted(mode))]),
            ),
        ],
    )
}

/// A primitive of triangles whose accessors start at `first`.
pub open spec fn primitive_text(s: SceneView, first: nat, key: MaterialKey) -> Seq<char> {
    let head = seq![
        json_field(
            "attributes"@,
            json_object(
                seq![
                    json_field("NORMAL"@, decimal_text(first + 1)),
                    json_field("POSITION"@, decimal_text(first)),
                ],
            ),
        ),
    ];
    let extras = if s.modes {
        seq![json_field("extras"@, mode_extras(mode_name(key.mode)))]
    } else {
        Seq::empty()
    };
    json_object(
        head + extras + seq![
            json_field("indices"@, decimal_text(first + 2)),
            json_field("material"@, decimal_text(color_number(s.colors, key.rgba) as nat)),
            json_field("mode"@, decimal_text(4)),
        ],
    )
}

/// A primitive of edges whose accessors start at `first`.
pub open spec fn line_text(s: SceneView, first: nat) -> Seq<char> {
    json_object(
        seq![
            json_field(
                "attributes"@,
                json_object(seq![json_field("POSITION"@, decimal_text(first))]),
            ),
            json_field("indices"@, decimal_text(first + 1)),
            json_field("material"@, decimal_text(s.colors.len())),
            json_field("mode"@, decimal_text(1)),
        ],
    )
}

/// Draws the triangles of one material.
pub open spec fn draw_triangles(
    m: Reading,
    s: SceneView,
    d: Drawn,
    key: MaterialKey,
    tris: Seq<Triangle>,
) -> Drawn {
    let at = corner_positions(m, s.mesh, tris, s.scale, s.up);
    let normals = corner_normals(m, s.mesh, tris, s.up);
    let view = d.bin.views.len();
    let b1 = with_view(d.bin, vertex_bytes(at), 34962);
    let b2 = with_view(b1, vertex_bytes(normals), 34962);
    let b3 = with_view(b2, counting_bytes(3 * tris.len()), 34963);
    let b4 = with_vertices(m, b3, view, at, true);
    let b5 = with_vertices(m, b4, view + 1, normals, false);
    Drawn {
        bin: with_indices(b5, view + 2, 3 * tris.len()),
        primitives: d.primitives.push(primitive_text(s, d.bin.accessors.len(), key)),
    }
}

/// Draws edges, unless there are none.
pub open spec fn draw_lines(m: Reading, s: SceneView, d: Drawn, edges: Seq<Edge>) -> Drawn {
    if edges.len() == 0 {
        d
    } else {
        let at = end_positions(m, s.mesh, edges, s.scale, s.up);
        let view = d.bin.views.len();
        let b1 = with_view(d.bin, vertex_bytes(at), 34962);
        let b2 = with_view(b1, counting_bytes(2 * edges.len()), 34963);
        let b3 = with_vertices(m, b2, view, at, true);
        Drawn {
            bin: with_indices(b3, view + 1, 2 * edges.len()),
            primitives: d.primitives.push(line_text(s, d.bin.accessors.len())),
        }
    }
}

/// What is settled for all components: the scene.
#[derive(Debug)]
pub struct Scene {
    pub scale: u64,
    pub up: CoordinateSystem,
    pub colors: Vec<Color>,
    pub modes: bool,
    pub lines: bool,
    pub keys: Vec<String>,
}

/// The scene over a mesh.
pub open spec fn over(s: Scene, mesh: MeshView) -> SceneView {
    SceneView {
        mesh,
        scale: s.scale,
        up: s.up,
        colors: s.colors@,
        modes: s.modes,
        lines: s.lines,
        keys: texts(s.keys@),
    }
}

fn number_field(fields: &mut Vec<String>, key: &str, n: u64)
    ensures
        texts(final(fields)@) == texts(old(fields)@).push(json_field(key@, decimal_text(n as nat))),
{
    let t = decimal(n);
    put(fields, key, t.as_str());
}

pub(crate) fn color_place(colors: &Vec<Color>, c: Color) -> (r: usize)
    requires
        colors@.contains(c),
        colors@.no_duplicates(),
    ensures
        r == color_number(colors@, c),
{
    let mut i: usize = 0;
    while colors[i] != c
        invariant
            i < colors@.len(),
            colors@.contains(c),
            forall|k: int| 0 <= k < i ==> #[trigger] colors@[k] != c,
        decreases colors.len() - i,
    {
        proof {
            let k = choose|k: int| 0 <= k < colors@.len() && colors@[k] == c;
            assert(k > i);
        }
        i = i + 1;
    }
    proof {
        let j = colors@.index_of(c);
        assert(0 <= j < colors@.len() && colors@[j] == c);
        assert(j == i);
    }
    i
}

fn primitive_json(s: &Scene, mesh: &Mesh, first: usize, key: MaterialKey) -> (r: String)
    requires
        s.colors@.contains(key.rgba),
        s.colors@.no_duplicates(),
        first + 2 <= usize::MAX,
    ensures
        r@ == primitive_text(over(*s, mesh@), first as nat, key),
{
    let mut attributes: Vec<String> = Vec::new();
    number_field(&mut attributes, "NORMAL", (first + 1) as u64);
    number_field(&mut attributes, "POSITION", first as u64);
    assert(texts(attributes@) =~= seq![
        json_field("NORMAL"@, decimal_text((first + 1) as nat)),
        json_field("POSITION"@, decimal_text(first as nat)),
    ]);
    let attribute_text = object(&attributes);
    let mut fields: Vec<String> = Vec::new();
    put(&mut fields, "attributes", attribute_text.as_str());
    let ghost head = seq![json_field("attributes"@, attribute_text@)];
    assert(texts(fields@) =~= head);
    if s.modes {
        let mode = quote(key.display_mode());
        let mut inner: Vec<String> = Vec::new();
        put(&mut inner, "displayMode", mode.as_str());
        assert(texts(inner@) =~= seq![json_field("displayMode"@, json_quoted(mode_name(key.mode)))]);
        let inner_text = object(&inner);
        let mut outer: Vec<String> = Vec::new();
        put(&mut outer, "openrscad", inner_text.as_str());
        assert(texts(outer@) =~= seq![json_field("openrscad"@, inner_text@)]);
        let extras = object(&outer);
        put(&mut fields, "extras", extras.as_str());
    }
    let ghost extras = if s.modes {
        seq![json_field("extras"@, mode_extras(mode_name(key.mode)))]
    } else {
        Seq::empty()
    };
    assert(texts(fields@) =~= head + extras);
    number_field(&mut fields, "indices", (first + 2) as u64);
    let place: usize = color_place(&s.colors, key.rgba);
    number_field(&mut fields, "material", place as u64);
    number_field(&mut fields, "mode", 4);
    assert(texts(fields@) =~= head + extras + seq![
        json_field("indices"@, decimal_text((first + 2) as nat)),
        json_field("material"@, decimal_text(color_number(s.colors@, key.rgba) as nat)),
        json_field("mode"@, decimal_text(4)),
    ]);
    object(&fields)
}

fn line_json(s: &Scene, mesh: &Mesh, first: usize) -> (r: String)
    requires
        first + 1 <= usize::MAX,
    ensures
        r@ == line_text(over(*s, mesh@), first as nat),
{
    let mut attributes: Vec<String> = Vec::new();
    number_field(&mut attributes, "POSITION", first as u64);
    assert(texts(attributes@) =~= seq![json_field("POSITION"@, decimal_text(first as nat))]);
    let attribute_text = object(&attributes);
    let mut fields: Vec<String> = Vec::new();
    put(&mut fields, "attributes", attribute_text.as_str());
    number_field(&mut fields, "indices", (first + 1) as u64);
    number_field(&mut fields, "material", s.colors.len() as u64);
    number_field(&mut fields, "mode", 1);
    assert(texts(fields@) =~= seq![
        json_field("attributes"@, attribute_text@),
        json_field("indices"@, decimal_text((first + 1) as nat)),
        json_field("material"@, decimal_text(s.colors@.len())),
        json_field("mode"@, decimal_text(1)),
    ]);
    object(&fields)
}

/// The data and primitives that an executable pair holds.
pub open spec fn drawn(bin: Bin, primitives: Vec<String>) -> Drawn {
    Drawn { bin: bin@, primitives: texts(primitives@) }
}

fn add_triangles<A: Arithmetic>(
    calc: &mut Calc<A>,
    s: &Scene,
    mesh: &Mesh,
    bin: &mut Bin,
    primitives: &mut Vec<String>,
    key: MaterialKey,
    tris: &Vec<Triangle>,
)
    requires
        s.colors@.contains(key.rgba),
        s.colors@.no_duplicates(),
        forall|i: int| 0 <= i < tris@.len() ==> (#[trigger] tris@[i]).within(mesh@.verts.len()),
    ensures
        forall|m: Reading| #[trigger]
            final(calc).agrees(m) ==> old(calc).agrees(m) && drawn(*final(bin), *final(primitives))
                == draw_triangles(
                m,
                over(*s, mesh@),
                drawn(*old(bin), *old(primitives)),
                key,
                tris@,
            ),
{
    let at = positions_of(calc, mesh, tris, s.scale, s.up);
    let normals = normals_of(calc, mesh, tris, s.up);
    let first: usize = bin.accessors.len();
    let ghost start = bin@;
    let ghost b1 = with_view(start, vertex_bytes(at@), 34962);
    let ghost b2 = with_view(b1, vertex_bytes(normals@), 34962);
    let ghost b3 = with_view(b2, counting_bytes(3 * tris@.len()), 34963);
    let view: usize = bin.views.len();
    add_view(bin, f32_bytes(&at), 34962);
    add_view(bin, f32_bytes(&normals), 34962);
    add_view(bin, u32_bytes(at.len()), 34963);
    assert(bin@ == b3);
    let views_now: usize = bin.views.len();
    assert(views_now == view + 3) by {
        assert(start.views.len() == view && bin@.views.len() == views_now);
        assert(b1.views.len() == view + 1 && b2.views.len() == view + 2);
    }
    add_vec3_accessor(calc, bin, view, &at, true);
    let ghost b4 = bin@;
    add_vec3_accessor(calc, bin, view + 1, &normals, false);
    let ghost b5 = bin@;
    add_index_accessor(bin, view + 2, at.len());
    let accessors_now: usize = bin.accessors.len();
    assert(accessors_now == first + 3) by {
        assert(start.accessors.len() == first && bin@.accessors.len() == accessors_now);
        assert(b3.accessors == start.accessors);
        assert(b4.accessors.len() == first + 1 && b5.accessors.len() == first + 2);
    }
    let text = primitive_json(s, mesh, first, key);
    let ghost before = texts(primitives@);
    primitives.push(text);
    assert(texts(primitives@) =~= before.push(text@));
    proof {
        assert forall|m: Reading| #[trigger] calc.agrees(m) implies drawn(*bin, *primitives)
            == draw_triangles(
            m,
            over(*s, mesh@),
            drawn(*old(bin), *old(primitives)),
            key,
            tris@,
        ) by {
            let sv = over(*s, mesh@);
            assert(at@ == corner_positions(m, sv.mesh, tris@, sv.scale, sv.up));
            assert(normals@ == corner_normals(m, sv.mesh, tris@, sv.up));
            assert(b4 == with_vertices(m, b3, view as nat, at@, true));
            assert(b5 == with_vertices(m, b4, (view + 1) as nat, normals@, false));
        }
    }
}

fn add_lines<A: Arithmetic>(
    calc: &mut Calc<A>,
    s: &Scene,
    mesh: &Mesh,
    bin: &mut Bin,
    primitives: &mut Vec<String>,
    edges: &Vec<Edge>,
)
    requires
        forall|i: int|
            0 <= i < edges@.len() ==> (#[trigger] edges@[i]).a < mesh@.verts.len() && edges@[i].b
                < mesh@.verts.len(),
    ensures
        forall|m: Reading| #[trigger]
            final(calc).agrees(m) ==> old(calc).agrees(m) && drawn(*final(bin), *final(primitives))
                == draw_lines(
                m,
                over(*s, mesh@),
                drawn(*old(bin), *old(primitives)),
                edges@,
            ),
{
    if edges.len() == 0 {
        return;
    }
    let at = ends_of(calc, mesh, edges, s.scale, s.up);
    let first: usize = bin.accessors.len();
    let ghost start = bin@;
    let ghost b1 = with_view(start, vertex_bytes(at@), 34962);
    let ghost b2 = with_view(b1, counting_bytes(2 * edges@.len()), 34963);
    let view: usize = bin.views.len();
    add_view(bin, f32_bytes(&at), 34962);
    add_view(bin, u32_bytes(at.len()), 34963);
    assert(bin@ == b2);
    let views_now: usize = bin.views.len();
    assert(views_now == view + 2) by {
        assert(start.views.len() == view && bin@.views.len() == views_now);
        assert(b1.views.len() == view + 1);
    }
    add_vec3_accessor(calc, bin, view, &at, true);
    let ghost b3 = bin@;
    add_index_accessor(bin, view + 1, at.len());
    let accessors_now: usize = bin.accessors.len();
    assert(accessors_now == first + 2) by {
        assert(start.accessors.len() == first && bin@.accessors.len() == accessors_now);
        assert(b2.accessors == start.accessors);
        assert(b3.accessors.len() == first + 1);
    }
    let text = line_json(s, mesh, first);
    let ghost before = texts(primitives@);
    primitives.push(text);
    assert(texts(primitives@) =~= before.push(text@));
    proof {
        assert forall|m: Reading| #[trigger] calc.agrees(m) implies drawn(*bin, *primitives)
            == draw_lines(m, over(*s, mesh@), drawn(*old(bin), *old(primitives)), edges@) by {
            let sv = over(*s, mesh@);
            assert(at@ == end_positions(m, sv.mesh, edges@, sv.scale, sv.up));
            assert(b3 == with_vertices(m, b2, view as nat, at@, true));
        }
    }
}

// ---- components --------------------------------------------------------------------------------

/// What is drawn of a component: the triangles of each primitive and the edges
/// of each group.
#[derive(Debug)]
pub struct Resolved {
    pub triangles: Vec<Vec<Triangle>>,
    pub edges: Vec<Vec<Edge>>,
}

pub struct ResolvedView {
    pub triangles: Seq<Seq<Triangle>>,
    pub edges: Seq<Seq<Edge>>,
}

impl View for Resolved {
    type V = ResolvedView;

    open spec fn view(&self) -> ResolvedView {
        ResolvedView {
            triangles: self.triangles@.map_values(|v: Vec<Triangle>| v@),
            edges: self.edges@.map_values(|v: Vec<Edge>| v@),
        }
    }
}

/// The triangles without their places.
pub open spec fn corners_only(v: Seq<Turned>) -> Seq<Triangle> {
    v.map_values(|t: Turned| t.tri)
}

/// `tris` holds the listed triangles in their canonical order.
pub open spec fn in_canonical_order(mesh: MeshView, list: Seq<u32>, tris: Seq<Triangle>) -> bool {
    exists|v: Seq<Turned>| #[trigger] is_canonical(mesh, list, v) && tris == corners_only(v)
}

/// `r` is what is drawn of the component.
pub open spec fn resolves(
    m: Reading,
    mesh: MeshView,
    faces: Seq<u64>,
    lines: bool,
    c: Component,
    r: ResolvedView,
) -> bool {
    &&& r.triangles.len() == c.primitives@.len()
    &&& forall|i: int|
        0 <= i < r.triangles.len() ==> in_canonical_order(
            mesh,
            c.primitives@[i].selection.triangles@,
            #[trigger] r.triangles[i],
        )
    &&& r.edges.len() == if lines {
        c.edge_groups@.len()
    } else {
        0
    }
    &&& forall|i: int|
        0 <= i < r.edges.len() ==> feature_edges_of(
            m,
            mesh,
            faces,
            c.edge_groups@[i].triangles@,
            #[trigger] r.edges[i],
        )
}

/// Draws the first `n` primitives.
pub open spec fn draw_primitives(
    m: Reading,
    s: SceneView,
    d: Drawn,
    primitives: Seq<Primitive>,
    tris: Seq<Seq<Triangle>>,
    n: int,
) -> Drawn
    decreases n,
{
    if n <= 0 {
        d
    } else {
        draw_triangles(
            m,
            s,
            draw_primitives(m, s, d, primitives, tris, n - 1),
            primitives[n - 1].material,
            tris[n - 1],
        )
    }
}

/// Draws the first `n` groups of edges.
pub open spec fn draw_groups(
    m: Reading,
    s: SceneView,
    d: Drawn,
    edges: Seq<Seq<Edge>>,
    n: int,
) -> Drawn
    decreases n,
{
    if n <= 0 {
        d
    } else {
        draw_lines(m, s, draw_groups(m, s, d, edges, n - 1), edges[n - 1])
    }
}

/// Draws a component after what `bin` holds.
pub open spec fn draw_component(
    m: Reading,
    s: SceneView,
    bin: BinView,
    c: Component,
    r: ResolvedView,
) -> Drawn {
    let d = Drawn { bin, primitives: Seq::empty() };
    let filled = draw_primitives(m, s, d, c.primitives@, r.triangles, r.triangles.len() as int);
    draw_groups(m, s, filled, r.edges, r.edges.len() as int)
}

/// The frames of the first `n` primitives, each once.
pub open spec fn fallback_frames(primitives: Seq<Primitive>, n: int) -> Seq<FrameView>
    decreases n,
{
    if n <= 0 {
        Seq::empty()
    } else {
        with_frames(
            fallback_frames(primitives, n - 1),
            path(primitives[n - 1].selection.provenance@),
            0,
        )
    }
}

pub open spec fn attribution_text(a: AttributionStatus) -> Seq<char> {
    match a {
        AttributionStatus::Exact => "exact"@,
        AttributionStatus::Ambiguous => "ambiguous"@,
    }
}

/// What a node says of where its geometry comes from.
pub open spec fn origin_text(c: Component, keys: Seq<Seq<char>>) -> Seq<char> {
    let head = seq![json_field("attribution"@, json_quoted(attribution_text(c.attribution)))];
    let given = if c.contributors@.len() == 0 {
        Seq::empty()
    } else {
        seq![json_field("contributors"@, paths_text(paths(c.contributors@), keys))]
    };
    match c.frame {
        Some(f) => json_object(
            head.push(json_field("callSite"@, span_text(f.call_site, keys))) + given + seq![
                json_field("definitionSite"@, definition_text(f.definition_site, keys)),
                json_field("moduleName"@, module_text(f@.module_name)),
            ],
        ),
        None => json_object(
            head + given + seq![
                json_field("fallback"@, "true"@),
                json_field(
                    "provenance"@,
                    provenance_text(
                        fallback_frames(c.primitives@, c.primitives@.len() as int),
                        keys,
                    ),
                ),
            ],
        ),
    }
}

/// A list of numbers as an array.
pub open spec fn numbers_text(v: Seq<int>) -> Seq<char> {
    json_array(v.map_values(|n: int| decimal_text(n as nat)))
}

/// A node of the file.
pub open spec fn node_text(c: Component, keys: Seq<Seq<char>>, mesh: Option<nat>) -> Seq<char> {
    let children = if c.children@.len() == 0 {
        Seq::empty()
    } else {
        seq![json_field("children"@, numbers_text(positions(c.children@)))]
    };
    let extras = json_field(
        "extras"@,
        json_object(seq![json_field("openrscad"@, origin_text(c, keys))]),
    );
    let body = match mesh {
        Some(n) => seq![json_field("mesh"@, decimal_text(n))],
        None => Seq::empty(),
    };
    json_object(children.push(extras) + body + seq![json_field("name"@, json_quoted(c.name@))])
}

/// A mesh of the file.
pub open spec fn mesh_text(name: Seq<char>, primitives: Seq<Seq<char>>) -> Seq<char> {
    json_object(
        seq![
            json_field("name"@, json_quoted(name)),
            json_field("primitives"@, json_array(primitives)),
        ],
    )
}

/// The tables of a file.
pub struct FileView {
    pub bin: BinView,
    pub meshes: Seq<Seq<char>>,
    pub nodes: Seq<Seq<char>>,
}

/// The file with one more component.
pub open spec fn with_component(
    m: Reading,
    s: SceneView,
    f: FileView,
    c: Component,
    r: ResolvedView,
) -> FileView {
    with_drawn(s, f, c, draw_component(m, s, f.bin, c, r))
}

/// The tables for the first `n` components.
pub open spec fn file_of(
    m: Reading,
    s: SceneView,
    cs: Seq<Component>,
    rs: Seq<ResolvedView>,
    n: int,
) -> FileView
    decreases n,
{
    if n <= 0 {
        FileView {
            bin: BinView { buffer: Seq::empty(), views: Seq::empty(), accessors: Seq::empty() },
            meshes: Seq::empty(),
            nodes: Seq::empty(),
        }
    } else {
        with_component(m, s, file_of(m, s, cs, rs, n - 1), cs[n - 1], rs[n - 1])
    }
}

fn numbers_json(v: &Vec<usize>) -> (r: String)
    ensures
        r@ == numbers_text(positions(v@)),
{
    let mut items: Vec<String> = Vec::new();
    let ghost all = positions(v@).map_values(|n: int| decimal_text(n as nat));
    for i in 0..v.len()
        invariant
            all == positions(v@).map_values(|n: int| decimal_text(n as nat)),
            texts(items@) =~= all.take(i as int),
    {
        let ghost before = texts(items@);
        items.push(decimal(v[i] as u64));
        assert(texts(items@) =~= before.push(all[i as int]));
    }
    assert(all.take(v@.len() as int) =~= all);
    array(&items)
}

fn all_frames(primitives: &Vec<Primitive>) -> (r: Vec<ProvenanceFrame>)
    ensures
        path(r@) == fallback_frames(primitives@, primitives@.len() as int),
{
    let mut out: Vec<ProvenanceFrame> = Vec::new();
    assert(path(out@) =~= Seq::empty());
    for i in 0..primitives.len()
        invariant
            path(out@) == fallback_frames(primitives@, i as int),
    {
        add_frames(&mut out, &primitives[i].selection.provenance);
    }
    out
}

fn origin_json(c: &Component, keys: &Vec<String>) -> (r: String)
    ensures
        r@ == origin_text(*c, texts(keys@)),
{
    let ghost kv = texts(keys@);
    let status = match c.attribution {
        AttributionStatus::Exact => quote("exact"),
        AttributionStatus::Ambiguous => quote("ambiguous"),
    };
    let mut fields: Vec<String> = Vec::new();
    put(&mut fields, "attribution", status.as_str());
    let ghost head = seq![json_field("attribution"@, json_quoted(attribution_text(c.attribution)))];
    assert(texts(fields@) =~= head);
    let ghost given = if c.contributors@.len() == 0 {
        Seq::empty()
    } else {
        seq![json_field("contributors"@, paths_text(paths(c.contributors@), kv))]
    };
    match &c.frame {
        Some(f) => {
            let call = span_json(f.call_site, keys);
            put(&mut fields, "callSite", call.as_str());
            if c.contributors.len() > 0 {
                let list = paths_json(&c.contributors, keys);
                put(&mut fields, "contributors", list.as_str());
            }
            assert(texts(fields@) =~= head.push(
                json_field("callSite"@, span_text(f.call_site, kv)),
            ) + given);
            let definition = definition_json(f.definition_site, keys);
            put(&mut fields, "definitionSite", definition.as_str());
            let module = module_json(&f.module_name);
            put(&mut fields, "moduleName", module.as_str());
            assert(texts(fields@) =~= head.push(
                json_field("callSite"@, span_text(f.call_site, kv)),
            ) + given + seq![
                json_field("definitionSite"@, definition_text(f.definition_site, kv)),
                json_field("moduleName"@, module_text(f@.module_name)),
            ]);
        },
        None => {
            if c.contributors.len() > 0 {
                let list = paths_json(&c.contributors, keys);
                put(&mut fields, "contributors", list.as_str());
            }
            assert(texts(fields@) =~= head + given);
            put(&mut fields, "fallback", "true");
            let frames = all_frames(&c.primitives);
            let provenance = provenance_json(&frames, keys);
            put(&mut fields, "provenance", provenance.as_str());
            assert(texts(fields@) =~= head + given + seq![
                json_field("fallback"@, "true"@),
                json_field(
                    "provenance"@,
                    provenance_text(fallback_frames(c.primitives@, c.primitives@.len() as int), kv),
                ),
            ]);
        },
    }
    object(&fields)
}

fn node_json(c: &Component, keys: &Vec<String>, mesh: Option<usize>) -> (r: String)
    ensures
        r@ == node_text(
            *c,
            texts(keys@),
            match mesh {
                Some(n) => Some(n as nat),
                None => None,
            },
        ),
{
    let ghost kv = texts(keys@);
    let mut fields: Vec<String> = Vec::new();
    if c.children.len() > 0 {
        let list = numbers_json(&c.children);
        put(&mut fields, "children", list.as_str());
    }
    let ghost children = if c.children@.len() == 0 {
        Seq::empty()
    } else {
        seq![json_field("children"@, numbers_text(positions(c.children@)))]
    };
    assert(texts(fields@) =~= children);
    let origin = origin_json(c, keys);
    let mut inner: Vec<String> = Vec::new();
    put(&mut inner, "openrscad", origin.as_str());
    assert(texts(inner@) =~= seq![json_field("openrscad"@, origin_text(*c, kv))]);
    let extras = object(&inner);
    put(&mut fields, "extras", extras.as_str());
    let ghost front = children.push(
        json_field(
            "extras"@,
            json_object(seq![json_field("openrscad"@, origin_text(*c, kv))]),
        ),
    );
    assert(texts(fields@) =~= front);
    let ghost body = match mesh {
        Some(n) => seq![json_field("mesh"@, decimal_text(n as nat))],
        None => Seq::empty(),
    };
    if let Some(n) = mesh {
        number_field(&mut fields, "mesh", n as u64);
    }
    assert(texts(fields@) =~= front + body);
    let name = quote(c.name.as_str());
    put(&mut fields, "name", name.as_str());
    assert(texts(fields@) =~= front + body + seq![json_field("name"@, json_quoted(c.name@))]);
    object(&fields)
}

/// The tables of a file being written.
#[derive(Debug)]
pub struct File {
    pub bin: Bin,
    pub meshes: Vec<String>,
    pub nodes: Vec<String>,
}

impl View for File {
    type V = FileView;

    open spec fn view(&self) -> FileView {
        FileView { bin: self.bin@, meshes: texts(self.meshes@), nodes: texts(self.nodes@) }
    }
}

/// All corners and ends that are drawn are vertices.
pub open spec fn drawable(mesh: MeshView, r: ResolvedView) -> bool {
    &&& forall|i: int, k: int|
        0 <= i < r.triangles.len() && 0 <= k < r.triangles[i].len() ==> (
        #[trigger] r.triangles[i][k]).within(mesh.verts.len())
    &&& forall|i: int, k: int|
        0 <= i < r.edges.len() && 0 <= k < r.edges[i].len() ==> (#[trigger] r.edges[i][k]).a
            < mesh.verts.len() && r.edges[i][k].b < mesh.verts.len()
}

/// Every color of the component has a material.
pub open spec fn colored(colors: Seq<Color>, c: Component) -> bool {
    forall|i: int|
        0 <= i < c.primitives@.len() ==> colors.contains((#[trigger] c.primitives@[i]).material.rgba)
}

/// Draws the primitives of a component.
fn fill_primitives<A: Arithmetic>(
    calc: &mut Calc<A>,
    s: &Scene,
    mesh: &Mesh,
    bin: &mut Bin,
    primitives: &mut Vec<String>,
    c: &Component,
    r: &Resolved,
)
    requires
        s.colors@.no_duplicates(),
        colored(s.colors@, *c),
        drawable(mesh@, r@),
        r.triangles@.len() == c.primitives@.len(),
    ensures
        forall|m: Reading| #[trigger]
            final(calc).agrees(m) ==> old(calc).agrees(m) && drawn(*final(bin), *final(primitives))
                == draw_primitives(
                m,
                over(*s, mesh@),
                drawn(*old(bin), *old(primitives)),
                c.primitives@,
                r@.triangles,
                r@.triangles.len() as int,
            ),
{
    let ghost sv = over(*s, mesh@);
    let ghost rv = r@;
    let ghost d0 = drawn(*bin, *primitives);
    let mut i: usize = 0;
    while i < r.triangles.len()
        invariant
            sv == over(*s, mesh@),
            rv == r@,
            s.colors@.no_duplicates(),
            colored(s.colors@, *c),
            drawable(mesh@, rv),
            r.triangles@.len() == c.primitives@.len(),
            i <= r.triangles@.len(),
            forall|m: Reading| #[trigger]
                calc.agrees(m) ==> old(calc).agrees(m) && drawn(*bin, *primitives)
                    == draw_primitives(m, sv, d0, c.primitives@, rv.triangles, i as int),
        decreases r.triangles.len() - i,
    {
        assert(rv.triangles[i as int] == r.triangles@[i as int]@);
        assert forall|k: int| 0 <= k < r.triangles@[i as int]@.len() implies (
        #[trigger] r.triangles@[i as int]@[k]).within(mesh@.verts.len()) by {
            assert(rv.triangles[i as int][k].within(mesh@.verts.len()));
        }
        assert(s.colors@.contains(c.primitives@[i as int].material.rgba));
        let key = c.primitives[i].material;
        add_triangles(calc, s, mesh, bin, primitives, key, &r.triangles[i]);
        i = i + 1;
    }
}

/// Draws the edges of a component.
fn fill_lines<A: Arithmetic>(
    calc: &mut Calc<A>,
    s: &Scene,
    mesh: &Mesh,
    bin: &mut Bin,
    primitives: &mut Vec<String>,
    r: &Resolved,
)
    requires
        drawable(mesh@, r@),
    ensures
        forall|m: Reading| #[trigger]
            final(calc).agrees(m) ==> old(calc).agrees(m) && drawn(*final(bin), *final(primitives))
                == draw_groups(
                m,
                over(*s, mesh@),
                drawn(*old(bin), *old(primitives)),
                r@.edges,
                r@.edges.len() as int,
            ),
{
    let ghost sv = over(*s, mesh@);
    let ghost rv = r@;
    let ghost d0 = drawn(*bin, *primitives);
    let mut j: usize = 0;
    while j < r.edges.len()
        invariant
            sv == over(*s, mesh@),
            rv == r@,
            drawable(mesh@, rv),
            j <= r.edges@.len(),
            forall|m: Reading| #[trigger]
                calc.agrees(m) ==> old(calc).agrees(m) && drawn(*bin, *primitives) == draw_groups(
                    m,
                    sv,
                    d0,
                    rv.edges,
                    j as int,
                ),
        decreases r.edges.len() - j,
    {
        assert(rv.edges[j as int] == r.edges@[j as int]@);
        assert forall|k: int| 0 <= k < r.edges@[j as int]@.len() implies (
        #[trigger] r.edges@[j as int]@[k]).a < mesh@.verts.len() && r.edges@[j as int]@[k].b
            < mesh@.verts.len() by {
            assert(rv.edges[j as int][k].a < mesh@.verts.len());
        }
        add_lines(calc, s, mesh, bin, primitives, &r.edges[j]);
        j = j + 1;
    }
}

/// The tables with a component that was drawn.
pub open spec fn with_drawn(s: SceneView, f: FileView, c: Component, d: Drawn) -> FileView {
    if d.primitives.len() == 0 {
        FileView { bin: d.bin, meshes: f.meshes, nodes: f.nodes.push(node_text(c, s.keys, None)) }
    } else {
        FileView {
            bin: d.bin,
            meshes: f.meshes.push(mesh_text(c.name@, d.primitives)),
            nodes: f.nodes.push(node_text(c, s.keys, Some(f.meshes.len()))),
        }
    }
}

fn add_node(s: &Scene, mesh: &Mesh, file: &mut File, c: &Component, primitives: &Vec<String>)
    ensures
        final(file)@ == with_drawn(
            over(*s, mesh@),
            old(file)@,
            *c,
            drawn(old(file).bin, *primitives),
        ),
{
    let ghost sv = over(*s, mesh@);
    let ghost made = texts(primitives@);
    let ghost nodes0 = texts(file.nodes@);
    if primitives.len() == 0 {
        let text = node_json(c, &s.keys, None);
        file.nodes.push(text);
        assert(texts(file.nodes@) =~= nodes0.push(node_text(*c, sv.keys, None)));
    } else {
        let index: usize = file.meshes.len();
        let mut fields: Vec<String> = Vec::new();
        let name = quote(c.name.as_str());
        put(&mut fields, "name", name.as_str());
        let list = array(primitives);
        put(&mut fields, "primitives", list.as_str());
        assert(texts(fields@) =~= seq![
            json_field("name"@, json_quoted(c.name@)),
            json_field("primitives"@, json_array(made)),
        ]);
        let ghost meshes0 = texts(file.meshes@);
        file.meshes.push(object(&fields));
        assert(texts(file.meshes@) =~= meshes0.push(mesh_text(c.name@, made)));
        let text = node_json(c, &s.keys, Some(index));
        file.nodes.push(text);
        assert(texts(file.nodes@) =~= nodes0.push(node_text(*c, sv.keys, Some(meshes0.len()))));
    }
}

fn add_component<A: Arithmetic>(
    calc: &mut Calc<A>,
    s: &Scene,
    mesh: &Mesh,
    file: &mut File,
    c: &Component,
    r: &Resolved,
)
    requires
        s.colors@.no_duplicates(),
        colored(s.colors@, *c),
        drawable(mesh@, r@),
        r.triangles@.len() == c.primitives@.len(),
    ensures
        forall|m: Reading| #[trigger]
            final(calc).agrees(m) ==> old(calc).agrees(m) && final(file)@ == with_component(
                m,
                over(*s, mesh@),
                old(file)@,
                *c,
                r@,
            ),
{
    let mut primitives: Vec<String> = Vec::new();
    assert(texts(primitives@) =~= Seq::empty());
    fill_primitives(calc, s, mesh, &mut file.bin, &mut primitives, c, r);
    fill_lines(calc, s, mesh, &mut file.bin, &mut primitives, r);
    add_node(s, mesh, file, c, &primitives);
}

// ---- the document --------------------------------------------------------------------------------

/// A table of the document, unless it is empty.
pub open spec fn table_field(key: Seq<char>, items: Seq<Seq<char>>) -> Seq<Seq<char>> {
    if items.len() == 0 {
        Seq::empty()
    } else {
        seq![json_field(key, json_array(items))]
    }
}

/// What the document says of itself.
pub open spec fn asset_text(keys: Seq<Seq<char>>) -> Seq<char> {
    json_object(
        seq![
            json_field(
                "extras"@,
                json_object(
                    seq![
                        json_field(
                            "openrscad"@,
                            json_object(
                                seq![
                                    json_field("schemaVersion"@, decimal_text(1)),
                                    json_field("sources"@, sources_text(keys)),
                                    json_field("status"@, json_quoted("experimental"@)),
                                ],
                            ),
                        ),
                    ],
                ),
            ),
            json_field("generator"@, json_quoted("OpenRSCAD"@)),
            json_field("version"@, json_quoted("2.0"@)),
        ],
    )
}

/// The list of root nodes, unless there are none.
pub open spec fn scene_text(roots: Seq<int>) -> Seq<char> {
    json_object(
        if roots.len() == 0 {
            Seq::empty()
        } else {
            seq![json_field("nodes"@, numbers_text(roots))]
        },
    )
}

/// The document. Tables without entries are left out: the format has no empty
/// ones.
pub open spec fn document_text(m: Reading, s: SceneView, f: FileView, roots: Seq<int>) -> Seq<char> {
    let data = crate::gltf::aligned(f.bin.buffer, 0);
    let buffers = if data.len() == 0 {
        Seq::empty()
    } else {
        seq![
            json_field(
                "buffers"@,
                json_array(
                    seq![json_object(seq![json_field("byteLength"@, decimal_text(data.len()))])],
                ),
            ),
        ]
    };
    let extensions = if s.lines {
        seq![json_field("extensionsUsed"@, json_array(seq![json_quoted("KHR_materials_unlit"@)]))]
    } else {
        Seq::empty()
    };
    json_object(
        table_field("accessors"@, f.bin.accessors) + seq![
            json_field("asset"@, asset_text(s.keys)),
        ] + table_field("bufferViews"@, f.bin.views) + buffers + extensions + table_field(
            "materials"@,
            material_texts(m, s.colors, s.lines),
        ) + table_field("meshes"@, f.meshes) + table_field("nodes"@, f.nodes) + seq![
            json_field("scene"@, decimal_text(0)),
            json_field("scenes"@, json_array(seq![scene_text(roots)])),
        ],
    )
}

fn put_table(fields: &mut Vec<String>, key: &str, items: &Vec<String>)
    ensures
        texts(final(fields)@) == texts(old(fields)@) + table_field(key@, texts(items@)),
{
    let ghost before = texts(fields@);
    if items.len() > 0 {
        let list = array(items);
        put(fields, key, list.as_str());
    }
    assert(texts(fields@) =~= before + table_field(key@, texts(items@)));
}

fn asset_json(keys: &Vec<String>) -> (r: String)
    ensures
        r@ == asset_text(texts(keys@)),
{
    let ghost kv = texts(keys@);
    let mut inner: Vec<String> = Vec::new();
    number_field(&mut inner, "schemaVersion", 1);
    let sources = sources_json(keys);
    put(&mut inner, "sources", sources.as_str());
    let status = quote("experimental");
    put(&mut inner, "status", status.as_str());
    assert(texts(inner@) =~= seq![
        json_field("schemaVersion"@, decimal_text(1)),
        json_field("sources"@, sources_text(kv)),
        json_field("status"@, json_quoted("experimental"@)),
    ]);
    let inner_text = object(&inner);
    let mut middle: Vec<String> = Vec::new();
    put(&mut middle, "openrscad", inner_text.as_str());
    assert(texts(middle@) =~= seq![json_field("openrscad"@, inner_text@)]);
    let extras = object(&middle);
    let mut fields: Vec<String> = Vec::new();
    put(&mut fields, "extras", extras.as_str());
    let generator = quote("OpenRSCAD");
    put(&mut fields, "generator", generator.as_str());
    let version = quote("2.0");
    put(&mut fields, "version", version.as_str());
    assert(texts(fields@) =~= seq![
        json_field("extras"@, extras@),
        json_field("generator"@, json_quoted("OpenRSCAD"@)),
        json_field("version"@, json_quoted("2.0"@)),
    ]);
    object(&fields)
}

fn scene_json(roots: &Vec<usize>) -> (r: String)
    ensures
        r@ == scene_text(positions(roots@)),
{
    let mut fields: Vec<String> = Vec::new();
    assert(texts(fields@) =~= Seq::empty());
    if roots.len() > 0 {
        let list = numbers_json(roots);
        put(&mut fields, "nodes", list.as_str());
        assert(texts(fields@) =~= seq![json_field("nodes"@, numbers_text(positions(roots@)))]);
    }
    object(&fields)
}

/// A list with one entry.
fn only(item: String) -> (r: Vec<String>)
    ensures
        texts(r@) == seq![item@],
{
    let mut v: Vec<String> = Vec::new();
    let ghost t = item@;
    v.push(item);
    assert(texts(v@) =~= seq![t]);
    v
}

fn document_json<A: Arithmetic>(
    calc: &mut Calc<A>,
    s: &Scene,
    mesh: &Mesh,
    file: &File,
    length: u64,
    roots: &Vec<usize>,
) -> (r: String)
    requires
        length == crate::gltf::aligned(file@.bin.buffer, 0).len(),
    ensures
        forall|m: Reading| #[trigger]
            final(calc).agrees(m) ==> old(calc).agrees(m) && r@ == document_text(
                m,
                over(*s, mesh@),
                file@,
                positions(roots@),
            ),
{
    let ghost sv = over(*s, mesh@);
    let ghost fv = file@;
    let mut fields: Vec<String> = Vec::new();
    assert(texts(fields@) =~= Seq::empty());
    put_table(&mut fields, "accessors", &file.bin.accessors);
    let ghost t1 = table_field("accessors"@, fv.bin.accessors);
    assert(texts(fields@) =~= t1);
    let asset = asset_json(&s.keys);
    put(&mut fields, "asset", asset.as_str());
    let ghost t2 = t1 + seq![json_field("asset"@, asset_text(sv.keys))];
    assert(texts(fields@) =~= t2);
    put_table(&mut fields, "bufferViews", &file.bin.views);
    let ghost t3 = t2 + table_field("bufferViews"@, fv.bin.views);
    let ghost buffers = if length == 0 {
        Seq::empty()
    } else {
        seq![
            json_field(
                "buffers"@,
                json_array(
                    seq![json_object(seq![json_field("byteLength"@, decimal_text(length as nat))])],
                ),
            ),
        ]
    };
    if length > 0 {
        let mut inner: Vec<String> = Vec::new();
        number_field(&mut inner, "byteLength", length);
        assert(texts(inner@) =~= seq![json_field("byteLength"@, decimal_text(length as nat))]);
        let list = array(&only(object(&inner)));
        put(&mut fields, "buffers", list.as_str());
    }
    let ghost t4 = t3 + buffers;
    assert(texts(fields@) =~= t4);
    let ghost extensions = if s.lines {
        seq![json_field("extensionsUsed"@, json_array(seq![json_quoted("KHR_materials_unlit"@)]))]
    } else {
        Seq::empty()
    };
    if s.lines {
        let list = array(&only(quote("KHR_materials_unlit")));
        put(&mut fields, "extensionsUsed", list.as_str());
    }
    let ghost t5 = t4 + extensions;
    assert(texts(fields@) =~= t5);
    let material_list = materials_json(calc, &s.colors, s.lines);
    let ghost mats = texts(material_list@);
    put_table(&mut fields, "materials", &material_list);
    put_table(&mut fields, "meshes", &file.meshes);
    put_table(&mut fields, "nodes", &file.nodes);
    let ghost t6 = t5 + table_field("materials"@, mats) + table_field("meshes"@, fv.meshes)
        + table_field("nodes"@, fv.nodes);
    assert(texts(fields@) =~= t6);
    number_field(&mut fields, "scene", 0);
    let scenes = array(&only(scene_json(roots)));
    put(&mut fields, "scenes", scenes.as_str());
    let ghost t7 = t6 + seq![
        json_field("scene"@, decimal_text(0)),
        json_field("scenes"@, json_array(seq![scene_text(positions(roots@))])),
    ];
    assert(texts(fields@) =~= t7);
    object(&fields)
}

// ---- the whole file ---------------------------------------------------------------------------------

/// All coordinates are finite.
pub open spec fn finite_mesh(mesh: MeshView) -> bool {
    forall|i: int|
        0 <= i < mesh.verts.len() ==> finite((#[trigger] mesh.verts[i]).x) && finite(mesh.verts[i].y)
            && finite(mesh.verts[i].z)
}

/// Why geometry cannot be written.
pub open spec fn write_fault(mesh: MeshView, scale: u64) -> Option<Seq<char>> {
    if !finite(scale) || !less(ZERO, scale) {
        Some("source_unit_to_meters must be positive and finite"@)
    } else if !finite_mesh(mesh) {
        Some("cannot export non-finite geometry"@)
    } else {
        None
    }
}

/// Checks that geometry and scale can be written.
pub fn validate_finite(mesh: &Mesh, scale: u64) -> (r: Result<(), GeomError>)
    ensures
        match r {
            Ok(_) => write_fault(mesh@, scale) is None,
            Err(e) => write_fault(mesh@, scale) is Some && e@ == GeomFault::Invariant(
                write_fault(mesh@, scale)->0,
            ),
        },
{
    if !is_finite(scale) || !is_less(ZERO, scale) {
        return Err(misfit("source_unit_to_meters must be positive and finite"));
    }
    let mut i: usize = 0;
    while i < mesh.verts.len()
        invariant
            i <= mesh.verts@.len(),
            finite(scale),
            less(ZERO, scale),
            forall|k: int|
                0 <= k < i ==> finite((#[trigger] mesh@.verts[k]).x) && finite(mesh@.verts[k].y)
                    && finite(mesh@.verts[k].z),
        decreases mesh.verts.len() - i,
    {
        let p = mesh.verts[i];
        if !is_finite(p.x) || !is_finite(p.y) || !is_finite(p.z) {
            assert(!finite_mesh(mesh@)) by {
                assert(mesh@.verts[i as int] == p);
            }
            return Err(misfit("cannot export non-finite geometry"));
        }
        i = i + 1;
    }
    Ok(())
}

/// Some component has a primitive of this color.
pub open spec fn color_used(cs: Seq<Component>, c: Color) -> bool {
    exists|i: int, k: int|
        0 <= i < cs.len() && 0 <= k < cs[i].primitives@.len() && (
        #[trigger] cs[i].primitives@[k]).material.rgba == c
}

/// `colors` holds the colors of the components in order, each once.
pub open spec fn is_palette(cs: Seq<Component>, colors: Seq<Color>) -> bool {
    &&& forall|i: int, j: int|
        #![trigger colors[i], colors[j]]
        0 <= i < j < colors.len() ==> colors[i].number() < colors[j].number()
    &&& forall|c: Color| #[trigger] colors.contains(c) <==> color_used(cs, c)
}

/// Colors in order, each once.
pub fn arrange_colors(list: Vec<Color>) -> (r: Vec<Color>)
    ensures
        forall|i: int, j: int|
            #![trigger r@[i], r@[j]]
            0 <= i < j < r@.len() ==> r@[i].number() < r@[j].number(),
        forall|c: Color| #[trigger] r@.contains(c) <==> list@.contains(c),
{
    let ghost raw = list@;
    let order = sorted(list);
    let ghost ov = order@;
    let mut out: Vec<Color> = Vec::new();
    let mut i: usize = 0;
    assert(ov.take(0) =~= Seq::empty());
    while i < order.len()
        invariant
            ov == order@,
            ascending(ov),
            i <= ov.len(),
            forall|a: int, b: int|
                #![trigger out@[a], out@[b]]
                0 <= a < b < out@.len() ==> out@[a].number() < out@[b].number(),
            forall|c: Color| #[trigger] out@.contains(c) <==> ov.take(i as int).contains(c),
            i == 0 <==> out@.len() == 0,
            i > 0 ==> out@.last() == ov[i - 1],
        decreases order.len() - i,
    {
        let c = order[i];
        let ghost before = out@;
        let fresh: bool = if i == 0 {
            true
        } else {
            order[i - 1] != c
        };
        if fresh {
            out.push(c);
            proof {
                if i > 0 {
                    assert(ov[i - 1].rank_le(&ov[i as int]));
                    if ov[i - 1].number() == c.number() {
                        crate::palette::lemma_color_number(ov[i - 1], c);
                    }
                }
                assert forall|a: int, b: int|
                    #![trigger out@[a], out@[b]]
                    0 <= a < b < out@.len() implies out@[a].number() < out@[b].number() by {
                    if b == before.len() && a < before.len() - 1 {
                        assert(before[a].number() < before[before.len() - 1].number());
                    }
                }
            }
        }
        proof {
            assert(ov.take(i + 1) =~= ov.take(i as int).push(c));
            assert forall|x: Color| #[trigger] out@.contains(x) <==> ov.take(i + 1).contains(x) by {
                crate::surfaces::lemma_push_contains(before, c, x);
                crate::surfaces::lemma_push_contains(ov.take(i as int), c, x);
                if !fresh {
                    assert(before.last() == c);
                    assert(before.contains(c));
                }
            }
        }
        i = i + 1;
    }
    proof {
        assert(ov.take(ov.len() as int) =~= ov);
        raw.to_multiset_ensures();
        ov.to_multiset_ensures();
        assert forall|c: Color| #[trigger] out@.contains(c) <==> raw.contains(c) by {
            assert(ov.contains(c) <==> ov.to_multiset().count(c) > 0);
            assert(raw.contains(c) <==> raw.to_multiset().count(c) > 0);
        }
    }
    out
}

fn palette_of(cs: &Vec<Component>) -> (r: Vec<Color>)
    ensures
        is_palette(cs@, r@),
        r@.no_duplicates(),
{
    let mut list: Vec<Color> = Vec::new();
    let mut i: usize = 0;
    while i < cs.len()
        invariant
            i <= cs@.len(),
            forall|c: Color| #[trigger] list@.contains(c) <==> color_used(cs@.take(i as int), c),
        decreases cs.len() - i,
    {
        let ghost start = list@;
        let prims = &cs[i].primitives;
        let mut k: usize = 0;
        while k < prims.len()
            invariant
                i < cs@.len(),
                prims == cs@[i as int].primitives,
                k <= prims@.len(),
                forall|c: Color| #[trigger]
                    list@.contains(c) <==> start.contains(c) || exists|j: int|
                        0 <= j < k && (#[trigger] prims@[j]).material.rgba == c,
            decreases prims.len() - k,
        {
            let color = prims[k].material.rgba;
            let ghost before = list@;
            list.push(color);
            proof {
                assert forall|c: Color| #[trigger]
                    list@.contains(c) <==> start.contains(c) || exists|j: int|
                        0 <= j < k + 1 && (#[trigger] prims@[j]).material.rgba == c by {
                    crate::surfaces::lemma_push_contains(before, color, c);
                    if c == color {
                        assert(prims@[k as int].material.rgba == c);
                    }
                    if exists|j: int| 0 <= j < k && (#[trigger] prims@[j]).material.rgba == c {
                        let j = choose|j: int|
                            0 <= j < k && (#[trigger] prims@[j]).material.rgba == c;
                        assert(prims@[j].material.rgba == c);
                    }
                }
            }
            k = k + 1;
        }
        proof {
            let t0 = cs@.take(i as int);
            let t1 = cs@.take(i + 1);
            assert forall|c: Color| #[trigger] list@.contains(c) <==> color_used(t1, c) by {
                assert(start.contains(c) <==> color_used(t0, c));
                if color_used(t0, c) {
                    let (a, b) = choose|a: int, b: int|
                        0 <= a < t0.len() && 0 <= b < t0[a].primitives@.len() && (
                        #[trigger] t0[a].primitives@[b]).material.rgba == c;
                    assert(t1[a].primitives@[b].material.rgba == c);
                }
                if exists|j: int| 0 <= j < prims@.len() && (#[trigger] prims@[j]).material.rgba
                    == c {
                    let j = choose|j: int|
                        0 <= j < prims@.len() && (#[trigger] prims@[j]).material.rgba == c;
                    assert(t1[i as int].primitives@[j].material.rgba == c);
                }
                if color_used(t1, c) {
                    let (a, b) = choose|a: int, b: int|
                        0 <= a < t1.len() && 0 <= b < t1[a].primitives@.len() && (
                        #[trigger] t1[a].primitives@[b]).material.rgba == c;
                    if a < i {
                        assert(t0[a].primitives@[b].material.rgba == c);
                    } else {
                        assert(prims@[b].material.rgba == c);
                    }
                }
            }
        }
        i = i + 1;
    }
    assert(cs@.take(cs@.len() as int) =~= cs@);
    let r = arrange_colors(list);
    assert(r@.no_duplicates()) by {
        assert forall|i: int, j: int| 0 <= i < r@.len() && 0 <= j < r@.len() && i != j implies r@[i]
            != r@[j] by {
            if i < j {
                assert(r@[i].number() < r@[j].number());
            } else {
                assert(r@[j].number() < r@[i].number());
            }
        }
    }
    r
}

pub(crate) fn strip(v: &Vec<Turned>) -> (r: Vec<Triangle>)
    ensures
        r@ == corners_only(v@),
{
    let mut out: Vec<Triangle> = Vec::new();
    for i in 0..v.len()
        invariant
            out@ =~= corners_only(v@).take(i as int),
    {
        out.push(v[i].tri);
    }
    assert(corners_only(v@).take(v@.len() as int) =~= corners_only(v@));
    out
}

/// Finds what is drawn of a component.
fn resolve<A: Arithmetic>(
    calc: &mut Calc<A>,
    mesh: &Mesh,
    faces: &Vec<u64>,
    lines: bool,
    c: &Component,
    Ghost(m): Ghost<crate::relation::AttributedView>,
) -> (r: Resolved)
    requires
        mesh@ == m.mesh,
        mesh@.indexed(),
        faces@.len() == mesh@.tris.len(),
        3 * mesh@.tris.len() <= u32::MAX,
        crate::compiled::component_fits(m, *c),
    ensures
        drawable(mesh@, r@),
        r.triangles@.len() == c.primitives@.len(),
        forall|rd: Reading| #[trigger]
            final(calc).agrees(rd) ==> old(calc).agrees(rd) && resolves(
                rd,
                mesh@,
                faces@,
                lines,
                *c,
                r@,
            ),
{
    let ghost mv = mesh@;
    let mut triangles: Vec<Vec<Triangle>> = Vec::new();
    let mut i: usize = 0;
    while i < c.primitives.len()
        invariant
            mv == mesh@,
            mv == m.mesh,
            mv.indexed(),
            crate::compiled::component_fits(m, *c),
            i <= c.primitives@.len(),
            triangles@.len() == i,
            forall|k: int|
                0 <= k < i ==> in_canonical_order(
                    mv,
                    c.primitives@[k].selection.triangles@,
                    (#[trigger] triangles@[k])@,
                ),
            forall|k: int, x: int|
                0 <= k < i && 0 <= x < triangles@[k]@.len() ==> (
                #[trigger] triangles@[k]@[x]).within(mv.verts.len()),
        decreases c.primitives.len() - i,
    {
        assert(crate::compiled::selection_fits(m, c.primitives@[i as int].selection));
        let order = canonical_triangles(mesh, &c.primitives[i].selection.triangles);
        let part = strip(&order);
        assert(is_canonical(mv, c.primitives@[i as int].selection.triangles@, order@));
        assert forall|x: int| 0 <= x < part@.len() implies (#[trigger] part@[x]).within(
            mv.verts.len(),
        ) by {
            assert(order@[x].tri.within(mv.verts.len()));
        }
        triangles.push(part);
        i = i + 1;
    }
    let mut edges: Vec<Vec<Edge>> = Vec::new();
    if lines {
        let mut j: usize = 0;
        while j < c.edge_groups.len()
            invariant
                mv == mesh@,
                mv == m.mesh,
                mv.indexed(),
                faces@.len() == mv.tris.len(),
                3 * mv.tris.len() <= u32::MAX,
                crate::compiled::component_fits(m, *c),
                j <= c.edge_groups@.len(),
                edges@.len() == j,
                forall|k: int, x: int|
                    0 <= k < j && 0 <= x < edges@[k]@.len() ==> (#[trigger] edges@[k]@[x]).a
                        < mv.verts.len() && edges@[k]@[x].b < mv.verts.len(),
                forall|rd: Reading| #[trigger]
                    calc.agrees(rd) ==> old(calc).agrees(rd) && forall|k: int|
                        0 <= k < j ==> feature_edges_of(
                            rd,
                            mv,
                            faces@,
                            c.edge_groups@[k].triangles@,
                            (#[trigger] edges@[k])@,
                        ),
            decreases c.edge_groups.len() - j,
        {
            assert(crate::compiled::selection_fits(m, c.edge_groups@[j as int]));
            let found = feature_edges(calc, mesh, faces, &c.edge_groups[j].triangles);
            edges.push(found);
            j = j + 1;
        }
    }
    let r = Resolved { triangles, edges };
    proof {
        let rv = r@;
        assert forall|i: int, k: int|
            0 <= i < rv.triangles.len() && 0 <= k < rv.triangles[i].len() implies (
        #[trigger] rv.triangles[i][k]).within(mv.verts.len()) by {
            assert(r.triangles@[i]@[k].within(mv.verts.len()));
        }
        assert forall|i: int, k: int|
            0 <= i < rv.edges.len() && 0 <= k < rv.edges[i].len() implies (
        #[trigger] rv.edges[i][k]).a < mv.verts.len() && rv.edges[i][k].b < mv.verts.len() by {
            assert(r.edges@[i]@[k].a < mv.verts.len());
        }
        assert forall|rd: Reading| #[trigger] calc.agrees(rd) implies resolves(
            rd,
            mv,
            faces@,
            lines,
            *c,
            rv,
        ) by {
            assert forall|i: int| 0 <= i < rv.triangles.len() implies in_canonical_order(
                mv,
                c.primitives@[i].selection.triangles@,
                #[trigger] rv.triangles[i],
            ) by {
                assert(rv.triangles[i] == r.triangles@[i]@);
            }
            assert forall|i: int| 0 <= i < rv.edges.len() implies feature_edges_of(
                rd,
                mv,
                faces@,
                c.edge_groups@[i].triangles@,
                #[trigger] rv.edges[i],
            ) by {
                assert(rv.edges[i] == r.edges@[i]@);
            }
        }
    }
    r
}

/// How a scene is written.
#[derive(Debug)]
pub struct Export3DOptions {
    pub include_edges: bool,
    /// The bits of the scale factor.
    pub source_unit_to_meters: u64,
    pub coordinate_system: CoordinateSystem,
    pub source_keys: Vec<String>,
}

impl Default for Export3DOptions {
    fn default() -> (r: Self)
        ensures
            !r.include_edges,
            r.source_unit_to_meters == crate::pipeline::MILLI,
            r.coordinate_system == CoordinateSystem::YUp,
            texts(r.source_keys@) == seq!["<main>"@],
    {
        Export3DOptions {
            include_edges: false,
            source_unit_to_meters: crate::pipeline::MILLI,
            coordinate_system: CoordinateSystem::YUp,
            source_keys: only("<main>".to_owned()),
        }
    }
}

/// What a structured mesh keeps: its parts fit together.
pub open spec fn fit_for_export(st: StructuredMesh) -> bool {
    &&& st.exact.mesh@.indexed()
    &&& st.exact.mesh.tris@.len() <= u32::MAX
    &&& attributed(st.exact@, surface_views(st.attributions@))
    &&& st.exact.source_face_ids@.len() == st.exact.mesh.tris@.len()
}

/// The file of a scene cut into `c` and drawn as `rs`, as text and data.
pub open spec fn writes(
    m: Reading,
    st: StructuredMesh,
    options: Export3DOptions,
    c: CompiledGlb,
    rs: Seq<ResolvedView>,
    s: SceneView,
    json: Seq<u8>,
    bin: Seq<u8>,
) -> bool {
    let table = surface_views(st.attributions@);
    let f = file_of(m, s, c.components@, rs, c.components@.len() as int);
    &&& compiled(st.exact@, table, materials_of(m, table), c)
    &&& rs.len() == c.components@.len()
    &&& forall|i: int|
        0 <= i < rs.len() ==> resolves(
            m,
            st.exact.mesh@,
            st.exact.source_face_ids@,
            options.include_edges,
            c.components@[i],
            #[trigger] rs[i],
        )
    &&& s.mesh == st.exact.mesh@
    &&& s.scale == options.source_unit_to_meters
    &&& s.up == options.coordinate_system
    &&& is_palette(c.components@, s.colors)
    &&& s.modes == st.include_display_modes
    &&& s.lines == options.include_edges
    &&& name_sources(texts(options.source_keys@), s.keys)
    &&& json == encode_utf8(document_text(m, s, f, positions(c.roots@)))
    &&& bin == f.bin.buffer
}

/// `json` and `bin` are the text and the data of the scene's file.
pub open spec fn scene_written(
    m: Reading,
    st: StructuredMesh,
    options: Export3DOptions,
    json: Seq<u8>,
    bin: Seq<u8>,
) -> bool {
    exists|c: CompiledGlb, rs: Seq<ResolvedView>, s: SceneView| #[trigger]
        writes(m, st, options, c, rs, s, json, bin)
}

/// `b` is the scene's file.
pub open spec fn is_glb(m: Reading, st: StructuredMesh, options: Export3DOptions, b: Seq<u8>) -> bool {
    exists|json: Seq<u8>, bin: Seq<u8>| #[trigger]
        scene_written(m, st, options, json, bin) && container_length(json, bin) <= u32::MAX && b
            == container(json, bin)
}

/// The scene's file would be too long.
pub open spec fn too_long(m: Reading, st: StructuredMesh, options: Export3DOptions) -> bool {
    3 * st.exact.mesh.tris@.len() > u32::MAX || exists|json: Seq<u8>, bin: Seq<u8>| #[trigger]
        scene_written(m, st, options, json, bin) && container_length(json, bin) > u32::MAX
}

/// The contents of drawings.
pub open spec fn resolved_views(v: Seq<Resolved>) -> Seq<ResolvedView> {
    v.map_values(|r: Resolved| r@)
}

/// The drawings are those of the components.
pub open spec fn all_resolved(
    m: Reading,
    st: StructuredMesh,
    lines: bool,
    cs: Seq<Component>,
    rs: Seq<ResolvedView>,
) -> bool {
    &&& rs.len() == cs.len()
    &&& forall|i: int|
        0 <= i < rs.len() ==> resolves(
            m,
            st.exact.mesh@,
            st.exact.source_face_ids@,
            lines,
            cs[i],
            #[trigger] rs[i],
        )
}

/// The drawings can be written: all their corners are vertices.
pub open spec fn all_drawable(mesh: MeshView, cs: Seq<Component>, rs: Seq<ResolvedView>) -> bool {
    &&& rs.len() == cs.len()
    &&& forall|k: int|
        0 <= k < rs.len() ==> drawable(mesh, #[trigger] rs[k]) && rs[k].triangles.len()
            == cs[k].primitives@.len()
}

fn resolve_all<A: Arithmetic>(
    calc: &mut Calc<A>,
    structured: &StructuredMesh,
    lines: bool,
    components: &Vec<Component>,
) -> (r: Vec<Resolved>)
    requires
        fit_for_export(*structured),
        3 * structured.exact.mesh.tris@.len() <= u32::MAX,
        forall|k: int|
            0 <= k < components@.len() ==> crate::compiled::component_fits(
                structured.exact@,
                #[trigger] components@[k],
            ),
    ensures
        all_drawable(structured.exact.mesh@, components@, resolved_views(r@)),
        forall|m: Reading| #[trigger]
            final(calc).agrees(m) ==> old(calc).agrees(m) && all_resolved(
                m,
                *structured,
                lines,
                components@,
                resolved_views(r@),
            ),
{
    let mesh = &structured.exact.mesh;
    let faces = &structured.exact.source_face_ids;
    let ghost av = structured.exact@;
    let ghost cs = components@;
    let mut out: Vec<Resolved> = Vec::new();
    let mut i: usize = 0;
    while i < components.len()
        invariant
            mesh == structured.exact.mesh,
            faces == structured.exact.source_face_ids,
            av == structured.exact@,
            cs == components@,
            mesh@.indexed(),
            faces@.len() == mesh@.tris.len(),
            3 * mesh@.tris.len() <= u32::MAX,
            forall|k: int|
                0 <= k < cs.len() ==> crate::compiled::component_fits(av, #[trigger] cs[k]),
            i <= cs.len(),
            out@.len() == i,
            all_drawable(mesh@, cs.take(i as int), resolved_views(out@)),
            forall|m: Reading| #[trigger]
                calc.agrees(m) ==> old(calc).agrees(m) && all_resolved(
                    m,
                    *structured,
                    lines,
                    cs.take(i as int),
                    resolved_views(out@),
                ),
        decreases components.len() - i,
    {
        assert(crate::compiled::component_fits(av, cs[i as int]));
        let d = resolve(calc, mesh, faces, lines, &components[i], Ghost(av));
        let ghost dv = d@;
        let ghost before = resolved_views(out@);
        out.push(d);
        proof {
            let now = resolved_views(out@);
            assert(now =~= before.push(dv));
            assert(cs.take(i + 1) =~= cs.take(i as int).push(cs[i as int]));
            assert forall|k: int| 0 <= k < now.len() implies drawable(mesh@, #[trigger] now[k])
                && now[k].triangles.len() == cs.take(i + 1)[k].primitives@.len() by {
                if k < i {
                    assert(now[k] == before[k]);
                }
            }
            assert forall|m: Reading| #[trigger] calc.agrees(m) implies all_resolved(
                m,
                *structured,
                lines,
                cs.take(i + 1),
                now,
            ) by {
                assert forall|k: int| 0 <= k < now.len() implies resolves(
                    m,
                    mesh@,
                    faces@,
                    lines,
                    cs.take(i + 1)[k],
                    #[trigger] now[k],
                ) by {
                    if k < i {
                        assert(now[k] == before[k]);
                    }
                }
            }
        }
        i = i + 1;
    }
    assert(cs.take(cs.len() as int) =~= cs);
    out
}

fn write_tables<A: Arithmetic>(
    calc: &mut Calc<A>,
    s: &Scene,
    mesh: &Mesh,
    components: &Vec<Component>,
    drawings: &Vec<Resolved>,
) -> (r: File)
    requires
        s.colors@.no_duplicates(),
        is_palette(components@, s.colors@),
        all_drawable(mesh@, components@, resolved_views(drawings@)),
    ensures
        forall|m: Reading| #[trigger]
            final(calc).agrees(m) ==> old(calc).agrees(m) && r@ == file_of(
                m,
                over(*s, mesh@),
                components@,
                resolved_views(drawings@),
                components@.len() as int,
            ),
{
    let ghost cs = components@;
    let ghost rs = resolved_views(drawings@);
    let ghost sv = over(*s, mesh@);
    let mut file = File {
        bin: Bin { buffer: Vec::new(), views: Vec::new(), accessors: Vec::new() },
        meshes: Vec::new(),
        nodes: Vec::new(),
    };
    proof {
        assert(texts(file.bin.views@) =~= Seq::empty());
        assert(texts(file.bin.accessors@) =~= Seq::empty());
        assert(texts(file.meshes@) =~= Seq::empty());
        assert(texts(file.nodes@) =~= Seq::empty());
        assert(file.bin.buffer@ =~= Seq::empty());
    }
    let mut i: usize = 0;
    while i < components.len()
        invariant
            cs == components@,
            sv == over(*s, mesh@),
            rs == resolved_views(drawings@),
            s.colors@.no_duplicates(),
            is_palette(cs, s.colors@),
            all_drawable(mesh@, cs, rs),
            i <= cs.len(),
            forall|m: Reading| #[trigger]
                calc.agrees(m) ==> old(calc).agrees(m) && file@ == file_of(m, sv, cs, rs, i as int),
        decreases components.len() - i,
    {
        assert(colored(s.colors@, cs[i as int])) by {
            assert forall|k: int| 0 <= k < cs[i as int].primitives@.len() implies s.colors@.contains(
                (#[trigger] cs[i as int].primitives@[k]).material.rgba,
            ) by {
                assert(color_used(cs, cs[i as int].primitives@[k].material.rgba));
            }
        }
        assert(drawable(mesh@, rs[i as int]));
        assert(rs[i as int] == drawings@[i as int]@);
        add_component(calc, s, mesh, &mut file, &components[i], &drawings[i]);
        i = i + 1;
    }
    file
}

/// Writes a scene as binary glTF. A scene of so many triangles that their
/// vertices alone take 4 GiB is refused before it is drawn.
pub fn serialize_glb<A: Arithmetic>(
    calc: &mut Calc<A>,
    structured: &StructuredMesh,
    options: &Export3DOptions,
) -> (r: Result<Vec<u8>, GeomError>)
    requires
        fit_for_export(*structured),
    ensures
        write_fault(structured.exact.mesh@, options.source_unit_to_meters) is Some ==> r is Err
            && r->Err_0@ == GeomFault::Invariant(
            write_fault(structured.exact.mesh@, options.source_unit_to_meters)->0,
        ),
        write_fault(structured.exact.mesh@, options.source_unit_to_meters) is None && r is Err
            ==> r->Err_0@ == GeomFault::Invariant("GLB exceeds 4 GiB"@),
        forall|m: Reading| #[trigger]
            final(calc).agrees(m) ==> old(calc).agrees(m) && (write_fault(
                structured.exact.mesh@,
                options.source_unit_to_meters,
            ) is None ==> match r {
                Ok(b) => is_glb(m, *structured, *options, b@),
                Err(_) => too_long(m, *structured, *options),
            }),
{
    match validate_finite(&structured.exact.mesh, options.source_unit_to_meters) {
        Ok(_) => {},
        Err(e) => return Err(e),
    }
    if structured.exact.mesh.tris.len() > 0x5555_5555 {
        return Err(misfit("GLB exceeds 4 GiB"));
    }
    let ghost st = *structured;
    let ghost tv = surface_views(structured.attributions@);
    let keys = materials(calc, &structured.attributions);
    let c = compile_with(structured, &keys);
    proof {
        lemma_scene_fits(structured.exact@, tv, keys@, c);
    }
    let colors = palette_of(&c.components);
    let names = safe_source_keys(&options.source_keys);
    let s = Scene {
        scale: options.source_unit_to_meters,
        up: options.coordinate_system,
        colors,
        modes: structured.include_display_modes,
        lines: options.include_edges,
        keys: names,
    };
    let drawings = resolve_all(calc, structured, options.include_edges, &c.components);
    let ghost rs = resolved_views(drawings@);
    let mesh = &structured.exact.mesh;
    let ghost sv = over(s, mesh@);
    let file = write_tables(calc, &s, mesh, &c.components, &drawings);
    let ghost fv = file@;
    let n: usize = file.bin.buffer.len();
    if n > 0xffff_ffff {
        proof {
            assert forall|m: Reading| #[trigger] calc.agrees(m) implies too_long(m, st, *options) by {
                let json = encode_utf8(document_text(m, sv, fv, positions(c.roots@)));
                assert(writes(m, st, *options, c, rs, sv, json, fv.bin.buffer));
                assert(scene_written(m, st, *options, json, fv.bin.buffer));
                assert(container_length(json, fv.bin.buffer) > u32::MAX);
            }
        }
        return Err(misfit("GLB exceeds 4 GiB"));
    }
    let rest: u64 = n as u64 % 4;
    let length: u64 = if rest == 0 {
        n as u64
    } else {
        n as u64 - rest + 4
    };
    let text = document_json(calc, &s, mesh, &file, length, &c.roots);
    let json = text.as_bytes_vec();
    let ghost jv = json@;
    let r = frame_glb(json, file.bin.buffer);
    proof {
        assert forall|m: Reading| #[trigger] calc.agrees(m) implies scene_written(
            m,
            st,
            *options,
            jv,
            fv.bin.buffer,
        ) by {
            assert(writes(m, st, *options, c, rs, sv, jv, fv.bin.buffer));
        }
    }
    r
}

} // verus!
