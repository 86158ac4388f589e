//! How the parts of a document refer to each other: primitives to accessors, accessors
//! to data, items to objects, and triangles to colors.

use crate::canonical::Turned;
use crate::edges::Edge;
use crate::exact::{lemma_ring, lemma_same, Numbers};
use crate::glb::{color_number, draw_lines, draw_triangles, linear, opacity, Drawn, SceneView};
use crate::gltf::{
    aligned, corner_normals, corner_positions, counting_bytes, end_positions, single, vertex_bytes,
    vertex_fields, view_text,
};
use crate::json::{json_field, json_object, json_quoted};
use crate::mesh::Triangle;
use crate::modellaw::{attribute, lemma_attribute, lemma_decimal, number_in};
use crate::names::{is_separator, kept_word, numbered_names, tally, with_number, words_from};
use crate::num::{NumOp, Reading};
use crate::palette::{component_byte, hex_color, Color, MaterialKey};
use crate::relation::AttributedView;
use crate::sem::{found, is_special, Env};
use crate::text::{decimal_text, joined};
use crate::threemf::{
    base_text, color_shown, is_color_table, items_text, material_numbers, object_head,
    triangle_color, xml_text,
};
use crate::viewport::with_overrides;
use crate::writelaw::{law_indices_count, law_vertices_read_back, lemma_aligned, next_start};
use vstd::prelude::*;

verus! {

/// A text stands between two others.
pub open spec fn between(s: Seq<char>, pre: Seq<char>, part: Seq<char>, post: Seq<char>) -> bool {
    s == pre + part + post
}

/// A text holds another.
pub open spec fn says(s: Seq<char>, part: Seq<char>) -> bool {
    exists|pre: Seq<char>, post: Seq<char>| #[trigger] between(s, pre, part, post)
}

proof fn lemma_joined(parts: Seq<Seq<char>>, sep: Seq<char>, i: int)
    requires
        0 <= i < parts.len(),
    ensures
        says(joined(parts, sep), parts[i]),
    decreases parts.len(),
{
    let s = joined(parts, sep);
    if parts.len() == 1 {
        assert(s =~= Seq::<char>::empty() + parts[i] + Seq::<char>::empty());
        assert(between(s, Seq::empty(), parts[i], Seq::empty()));
    } else if i == parts.len() - 1 {
        let pre = joined(parts.drop_last(), sep) + sep;
        assert(s =~= pre + parts[i] + Seq::<char>::empty());
        assert(between(s, pre, parts[i], Seq::empty()));
    } else {
        lemma_joined(parts.drop_last(), sep, i);
        let t = joined(parts.drop_last(), sep);
        let part = parts[i];
        assert(parts.drop_last()[i] == part);
        let (pre, post) = choose|pre: Seq<char>, post: Seq<char>| #[trigger]
            between(t, pre, part, post);
        let more = post + sep + parts.last();
        assert(s =~= pre + part + more);
        assert(between(s, pre, part, more));
    }
}

/// An object says each of its members.
proof fn lemma_object(fields: Seq<Seq<char>>, i: int)
    requires
        0 <= i < fields.len(),
    ensures
        says(json_object(fields), fields[i]),
{
    let s = json_object(fields);
    let t = joined(fields, seq![',']);
    lemma_joined(fields, seq![','], i);
    let part = fields[i];
    let (pre, post) = choose|pre: Seq<char>, post: Seq<char>| #[trigger]
        between(t, pre, part, post);
    let (x, y) = (seq!['{'] + pre, post + seq!['}']);
    assert(s =~= x + part + y);
    assert(between(s, x, part, y));
}

// ---- accessors ---------------------------------------------------------------------------------

/// An accessor says which view it reads, and how many items of which kind.
pub open spec fn reads(accessor: Seq<char>, view: nat, kind: nat, count: nat, shape: Seq<char>) -> bool {
    &&& says(accessor, json_field("bufferView"@, decimal_text(view)))
    &&& says(accessor, json_field("componentType"@, decimal_text(kind)))
    &&& says(accessor, json_field("count"@, decimal_text(count)))
    &&& says(accessor, json_field("type"@, json_quoted(shape)))
}

/// A view says which bytes it shows.
pub open spec fn shows(view: Seq<char>, offset: int, length: nat) -> bool {
    &&& says(view, json_field("byteOffset"@, decimal_text(offset as nat)))
    &&& says(view, json_field("byteLength"@, decimal_text(length)))
}

proof fn lemma_view(offset: nat, length: nat, target: nat)
    ensures
        shows(view_text(offset, length, target), offset as int, length),
{
    let fields = seq![
        json_field("buffer"@, decimal_text(0)),
        json_field("byteLength"@, decimal_text(length)),
        json_field("byteOffset"@, decimal_text(offset)),
        json_field("target"@, decimal_text(target)),
    ];
    lemma_object(fields, 1);
    lemma_object(fields, 2);
}

proof fn lemma_vertex_accessor(
    m: Reading,
    view: nat,
    v: Seq<crate::gltf::Single3>,
    bounds: bool,
)
    ensures
        reads(
            json_object(vertex_fields(m, view, v, bounds)),
            view,
            5126,
            v.len(),
            "VEC3"@,
        ),
{
    let fields = vertex_fields(m, view, v, bounds);
    lemma_object(fields, 0);
    lemma_object(fields, 1);
    lemma_object(fields, 2);
    lemma_object(fields, fields.len() - 1);
}

proof fn lemma_index_accessor(view: nat, count: nat)
    ensures
        ({
            let fields = seq![
                json_field("bufferView"@, decimal_text(view)),
                json_field("componentType"@, decimal_text(5125)),
                json_field("count"@, decimal_text(count)),
                json_field("type"@, json_quoted("SCALAR"@)),
            ];
            reads(json_object(fields), view, 5125, count, "SCALAR"@)
        }),
{
    let fields = seq![
        json_field("bufferView"@, decimal_text(view)),
        json_field("componentType"@, decimal_text(5125)),
        json_field("count"@, decimal_text(count)),
        json_field("type"@, json_quoted("SCALAR"@)),
    ];
    lemma_object(fields, 0);
    lemma_object(fields, 1);
    lemma_object(fields, 2);
    lemma_object(fields, 3);
}

proof fn lemma_primitive(s: SceneView, first: nat, key: MaterialKey)
    ensures
        ({
            let p = crate::glb::primitive_text(s, first, key);
            &&& exists|roles: Seq<char>|
                says(p, #[trigger] json_field("attributes"@, roles)) && says(
                    roles,
                    json_field("POSITION"@, decimal_text(first)),
                ) && says(roles, json_field("NORMAL"@, decimal_text(first + 1)))
            &&& says(p, json_field("indices"@, decimal_text(first + 2)))
            &&& says(
                p,
                json_field("material"@, decimal_text(color_number(s.colors, key.rgba) as nat)),
            )
        }),
{
    let roles_list = seq![
        json_field("NORMAL"@, decimal_text(first + 1)),
        json_field("POSITION"@, decimal_text(first)),
    ];
    let roles = json_object(roles_list);
    lemma_object(roles_list, 0);
    lemma_object(roles_list, 1);
    let extras = if s.modes {
        seq![
            json_field(
                "extras"@,
                crate::glb::mode_extras(crate::palette::mode_name(key.mode)),
            ),
        ]
    } else {
        Seq::empty()
    };
    let fields = seq![json_field("attributes"@, roles)] + extras + seq![
        json_field("indices"@, decimal_text(first + 2)),
        json_field("material"@, decimal_text(color_number(s.colors, key.rgba) as nat)),
        json_field("mode"@, decimal_text(4)),
    ];
    let k = 1 + extras.len() as int;
    assert(crate::glb::primitive_text(s, first, key) == json_object(fields));
    lemma_object(fields, 0);
    lemma_object(fields, k);
    lemma_object(fields, k + 1);
}

#[verifier::rlimit(80)]
proof fn lemma_triangle_tables(
    m: Reading,
    s: SceneView,
    d: Drawn,
    key: MaterialKey,
    tris: Seq<Triangle>,
)
    requires
        0 < tris.len(),
        3 * tris.len() <= 0x1_0000_0000,
    ensures
        ({
            let b = draw_triangles(m, s, d, key, tris).bin;
            let (first, view) = (d.bin.accessors.len() as int, d.bin.views.len() as int);
            let (at, all) = (next_start(d), 3 * tris.len());
            let ps = corner_positions(m, s.mesh, tris, s.scale, s.up);
            let ns = corner_normals(m, s.mesh, tris, s.up);
            &&& b.accessors.len() == first + 3
            &&& b.views.len() == view + 3
            &&& ps.len() == all && ns.len() == all
            &&& b.accessors[first] == json_object(
                vertex_fields(m, view as nat, ps, true),
            )
            &&& b.accessors[first + 1] == json_object(
                vertex_fields(m, (view + 1) as nat, ns, false),
            )
            &&& b.accessors[first + 2] == json_object(
                seq![
                    json_field("bufferView"@, decimal_text((view + 2) as nat)),
                    json_field("componentType"@, decimal_text(5125)),
                    json_field("count"@, decimal_text(all)),
                    json_field("type"@, json_quoted("SCALAR"@)),
                ],
            )
            &&& b.views[view] == view_text(at as nat, 12 * all, 34962)
            &&& b.views[view + 1] == view_text((at + 12 * all) as nat, 12 * all, 34962)
            &&& b.views[view + 2] == view_text((at + 24 * all) as nat, 4 * all, 34963)
        }),
{
    let all = 3 * tris.len();
    let ps = corner_positions(m, s.mesh, tris, s.scale, s.up);
    let ns = corner_normals(m, s.mesh, tris, s.up);
    let (pb, nb, ib) = (vertex_bytes(ps), vertex_bytes(ns), counting_bytes(all));
    law_vertices_read_back(ps, 0);
    law_vertices_read_back(ns, 0);
    law_indices_count(all, 0);
    let (first, view) = (d.bin.accessors.len(), d.bin.views.len());
    let at = aligned(d.bin.buffer, 0).len();
    let b = draw_triangles(m, s, d, key, tris).bin;
    lemma_offsets(d.bin.buffer, pb, nb);
    let (v1, v2, v3) = (
        view_text(at, 12 * all, 34962),
        view_text(at + 12 * all, 12 * all, 34962),
        view_text(at + 24 * all, 4 * all, 34963),
    );
    assert(b.views == d.bin.views.push(v1).push(v2).push(v3));
    lemma_pushes(d.bin.views, v1, v2, v3);
    let (a1, a2) = (
        json_object(vertex_fields(m, view, ps, true)),
        json_object(vertex_fields(m, view + 1, ns, false)),
    );
    let a3 = json_object(
        seq![
            json_field("bufferView"@, decimal_text(view + 2)),
            json_field("componentType"@, decimal_text(5125)),
            json_field("count"@, decimal_text(all)),
            json_field("type"@, json_quoted("SCALAR"@)),
        ],
    );
    assert(b.accessors == d.bin.accessors.push(a1).push(a2).push(a3));
    lemma_pushes(d.bin.accessors, a1, a2, a3);
}

proof fn lemma_offsets(buffer: Seq<u8>, pb: Seq<u8>, nb: Seq<u8>)
    requires
        pb.len() % 4 == 0,
        nb.len() % 4 == 0,
    ensures
        ({
            let start = aligned(buffer, 0);
            &&& aligned(start + pb, 0) == start + pb
            &&& aligned(start + pb + nb, 0) == start + pb + nb
            &&& (start + pb).len() == start.len() + pb.len()
            &&& (start + pb + nb).len() == start.len() + pb.len() + nb.len()
        }),
{
    let start = aligned(buffer, 0);
    lemma_aligned(buffer);
    lemma_aligned(start + pb);
    lemma_aligned(start + pb + nb);
}

proof fn lemma_pushes(v: Seq<Seq<char>>, x: Seq<char>, y: Seq<char>, z: Seq<char>)
    ensures
        ({
            let r = v.push(x).push(y).push(z);
            let k = v.len() as int;
            r.len() == k + 3 && r[k] == x && r[k + 1] == y && r[k + 2] == z
        }),
{
}

proof fn lemma_pushes_two(v: Seq<Seq<char>>, x: Seq<char>, y: Seq<char>)
    ensures
        ({
            let r = v.push(x).push(y);
            let k = v.len() as int;
            r.len() == k + 2 && r[k] == x && r[k + 1] == y
        }),
{
}

/// What is drawn of triangles is found by its references: the primitive names the
/// accessors of its positions, its normals and its indices, these name the views, and
/// the views name the bytes where each of them was written.
#[verifier::rlimit(40)]
pub proof fn law_triangles_linked(
    m: Reading,
    s: SceneView,
    d: Drawn,
    key: MaterialKey,
    tris: Seq<Triangle>,
)
    requires
        0 < tris.len(),
        3 * tris.len() <= 0x1_0000_0000,
    ensures
        ({
            let r = draw_triangles(m, s, d, key, tris);
            let (first, view) = (d.bin.accessors.len(), d.bin.views.len());
            let (at, all) = (next_start(d), 3 * tris.len());
            let p = r.primitives.last();
            &&& exists|roles: Seq<char>|
                says(p, #[trigger] json_field("attributes"@, roles)) && says(
                    roles,
                    json_field("POSITION"@, decimal_text(first)),
                ) && says(roles, json_field("NORMAL"@, decimal_text(first + 1)))
            &&& says(p, json_field("indices"@, decimal_text(first + 2)))
            &&& says(
                p,
                json_field("material"@, decimal_text(color_number(s.colors, key.rgba) as nat)),
            )
            &&& r.primitives.len() == d.primitives.len() + 1
            &&& r.bin.accessors.len() == first + 3
            &&& r.bin.views.len() == view + 3
            &&& reads(r.bin.accessors[first as int], view, 5126, all, "VEC3"@)
            &&& reads(r.bin.accessors[(first + 1) as int], view + 1, 5126, all, "VEC3"@)
            &&& reads(r.bin.accessors[(first + 2) as int], view + 2, 5125, all, "SCALAR"@)
            &&& shows(r.bin.views[view as int], at, 12 * all)
            &&& shows(r.bin.views[(view + 1) as int], at + 12 * all, 12 * all)
            &&& shows(r.bin.views[(view + 2) as int], at + 24 * all, 4 * all)
        }),
{
    let (first, view) = (d.bin.accessors.len(), d.bin.views.len());
    let (at, all) = (next_start(d) as nat, 3 * tris.len());
    let ps = corner_positions(m, s.mesh, tris, s.scale, s.up);
    let ns = corner_normals(m, s.mesh, tris, s.up);
    lemma_triangle_tables(m, s, d, key, tris);
    lemma_primitive(s, first, key);
    assert(draw_triangles(m, s, d, key, tris).primitives == d.primitives.push(
        crate::glb::primitive_text(s, first, key),
    ));
    lemma_view(at, 12 * all, 34962);
    lemma_view(at + 12 * all, 12 * all, 34962);
    lemma_view(at + 24 * all, 4 * all, 34963);
    lemma_vertex_accessor(m, view, ps, true);
    lemma_vertex_accessor(m, view + 1, ns, false);
    lemma_index_accessor(view + 2, all);
}

/// What is drawn of edges is found by its references: the primitive names the
/// accessors of its positions and its indices, these name the views, and the views
/// name the bytes. Its material is the one behind those of all colors.
#[verifier::rlimit(80)]
pub proof fn law_lines_linked(m: Reading, s: SceneView, d: Drawn, edges: Seq<Edge>)
    requires
        0 < edges.len(),
        2 * edges.len() <= 0x1_0000_0000,
    ensures
        ({
            let r = draw_lines(m, s, d, edges);
            let (first, view) = (d.bin.accessors.len(), d.bin.views.len());
            let (at, all) = (next_start(d), 2 * edges.len());
            let p = r.primitives.last();
            &&& exists|roles: Seq<char>|
                says(p, #[trigger] json_field("attributes"@, roles)) && says(
                    roles,
                    json_field("POSITION"@, decimal_text(first)),
                )
            &&& says(p, json_field("indices"@, decimal_text(first + 1)))
            &&& says(p, json_field("material"@, decimal_text(s.colors.len())))
            &&& r.bin.accessors.len() == first + 2
            &&& r.bin.views.len() == view + 2
            &&& reads(r.bin.accessors[first as int], view, 5126, all, "VEC3"@)
            &&& reads(r.bin.accessors[(first + 1) as int], view + 1, 5125, all, "SCALAR"@)
            &&& shows(r.bin.views[view as int], at, 12 * all)
            &&& shows(r.bin.views[(view + 1) as int], at + 12 * all, 4 * all)
        }),
{
    let r = draw_lines(m, s, d, edges);
    let (first, view) = (d.bin.accessors.len(), d.bin.views.len());
    let (at, all) = (next_start(d) as nat, 2 * edges.len());
    let ps = end_positions(m, s.mesh, edges, s.scale, s.up);
    let (pb, ib) = (vertex_bytes(ps), counting_bytes(all));
    law_vertices_read_back(ps, 0);
    law_indices_count(all, 0);
    lemma_offsets(d.bin.buffer, pb, Seq::empty());
    let (v1, v2) = (view_text(at, 12 * all, 34962), view_text(at + 12 * all, 4 * all, 34963));
    assert(r.bin.views == d.bin.views.push(v1).push(v2));
    lemma_pushes_two(d.bin.views, v1, v2);
    let a1 = json_object(vertex_fields(m, view, ps, true));
    let a2 = json_object(
        seq![
            json_field("bufferView"@, decimal_text(view + 1)),
            json_field("componentType"@, decimal_text(5125)),
            json_field("count"@, decimal_text(all)),
            json_field("type"@, json_quoted("SCALAR"@)),
        ],
    );
    assert(r.bin.accessors == d.bin.accessors.push(a1).push(a2));
    lemma_pushes_two(d.bin.accessors, a1, a2);
    lemma_view(at, pb.len(), 34962);
    lemma_view(at + pb.len(), ib.len(), 34963);
    lemma_vertex_accessor(m, view, ps, true);
    lemma_index_accessor(view + 1, all);
    let roles_list = seq![json_field("POSITION"@, decimal_text(first))];
    let roles = json_object(roles_list);
    lemma_object(roles_list, 0);
    let fields = seq![
        json_field("attributes"@, roles),
        json_field("indices"@, decimal_text(first + 1)),
        json_field("material"@, decimal_text(s.colors.len())),
        json_field("mode"@, decimal_text(1)),
    ];
    assert(r.primitives.last() == json_object(fields));
    lemma_object(fields, 0);
    lemma_object(fields, 1);
    lemma_object(fields, 2);
}

/// The number of a color's material is the place of the color.
pub proof fn law_material_is_the_color(colors: Seq<Color>, c: Color)
    requires
        colors.contains(c),
    ensures
        0 <= color_number(colors, c) < colors.len(),
        colors[color_number(colors, c)] == c,
{
}

// ---- objects -----------------------------------------------------------------------------------

/// Every solid is built: the list of items names the object of each, under the number
/// that the object gives itself.
#[verifier::rlimit(40)]
pub proof fn law_items_name_objects(
    count: int,
    i: int,
    name: Seq<char>,
    material: nat,
    owners: Seq<char>,
    attribution: Seq<char>,
)
    requires
        0 <= i < count,
    ensures
        exists|id: Seq<char>|
            {
                &&& number_in(id) == i + 2
                &&& says(items_text(count), #[trigger] ("<item objectid=\""@ + id + "\"/>\n"@))
                &&& attribute(
                    object_head((i + 2) as nat, name, material, owners, attribution),
                    0,
                    "<object id=\""@,
                ) == Some((id, ("<object id=\""@.len() + id.len()) as int))
            },
    decreases count,
{
    let id = decimal_text((i + 2) as nat);
    lemma_decimal((i + 2) as nat);
    lemma_item(count, i);
    reveal_strlit("\" type=\"model\" name=\"");
    let lead = "<object id=\""@;
    let next = "\" type=\"model\" name=\""@;
    let post = next + xml_text(name) + "\" pid=\"1\" pindex=\""@ + decimal_text(material)
        + "\"><metadatagroup><metadata name=\"openrscad:semanticOwners\" preserve=\"true\">"@
        + xml_text(owners)
        + "</metadata><metadata name=\"openrscad:attribution\" preserve=\"true\">"@ + attribution
        + "</metadata></metadatagroup><mesh><vertices>\n"@;
    let s = object_head((i + 2) as nat, name, material, owners, attribution);
    assert(s =~= Seq::<char>::empty() + lead + id + post);
    assert(post[0] == next[0]);
    lemma_attribute(s, Seq::empty(), lead, id, post);
    assert(says(items_text(count), "<item objectid=\""@ + id + "\"/>\n"@));
}

proof fn lemma_item(count: int, i: int)
    requires
        0 <= i < count,
    ensures
        says(
            items_text(count),
            "<item objectid=\""@ + decimal_text((i + 2) as nat) + "\"/>\n"@,
        ),
    decreases count,
{
    let part = "<item objectid=\""@ + decimal_text((i + 2) as nat) + "\"/>\n"@;
    let last = "<item objectid=\""@ + decimal_text((count + 1) as nat) + "\"/>\n"@;
    let s = items_text(count);
    let t = items_text(count - 1);
    assert(s == t + last);
    if i < count - 1 {
        lemma_item(count - 1, i);
        let (pre, post) = choose|pre: Seq<char>, post: Seq<char>| #[trigger]
            between(t, pre, part, post);
        assert(s =~= pre + part + (post + last));
        assert(between(s, pre, part, post + last));
    } else {
        assert(s =~= t + part + Seq::<char>::empty());
        assert(between(s, t, part, Seq::empty()));
    }
}

/// A triangle of an object refers to its own color: the entry of the table that its
/// material names is the color of its surface.
pub proof fn law_triangle_has_its_color(
    m: AttributedView,
    mats: Seq<MaterialKey>,
    colors: Seq<Color>,
    order: Seq<Turned>,
    i: int,
)
    requires
        is_color_table(m, mats, colors),
        0 <= i < order.len(),
        order[i].id < m.mesh.tris.len(),
    ensures
        material_numbers(m, mats, colors, order).len() == order.len(),
        material_numbers(m, mats, colors, order)[i] < colors.len(),
        colors[material_numbers(m, mats, colors, order)[i] as int] == triangle_color(
            m,
            mats,
            order[i].id as int,
        ),
{
    let c = triangle_color(m, mats, order[i].id as int);
    assert(color_shown(m, mats, c));
    assert(colors.contains(c));
}

proof fn lemma_hex_unquoted(c: Color)
    ensures
        !hex_color(c).contains('"'),
        hex_color(c).len() == 9,
        forall|i: int| 0 <= i < 9 ==> (#[trigger] hex_color(c)[i]) as int != 38 && hex_color(c)[i] as int
            != 60 && hex_color(c)[i] as int != 62 && hex_color(c)[i] as int != 34 && hex_color(c)[i] as int
            != 39,
{
    let s = hex_color(c);
    assert forall|i: int| 0 <= i < 9 implies (#[trigger] s[i]) as int != 38 && s[i] as int != 60
        && s[i] as int != 62 && s[i] as int != 34 && s[i] as int != 39 by {
        assert(s[0] == '#');
    }
    assert forall|i: int| 0 <= i < s.len() implies s[i] != '"' by {
        assert(s[i] as int != 34);
    }
}

/// An entry of the table of colors shows its color.
pub proof fn law_base_shows_its_color(c: Color, post: Seq<char>)
    ensures
        ({
            let s = base_text(c) + post;
            attribute(s, 0, "<base name=\""@) matches Some((name, p)) && attribute(
                s,
                p,
                "\" displaycolor=\""@,
            ) matches Some((shown, e)) && shown == hex_color(c) && crate::textlaw::entities_read(
                name,
                0,
            ) == hex_color(c)
        }),
{
    reveal_strlit("\" displaycolor=\"");
    reveal_strlit("\"/>\n");
    let s = base_text(c) + post;
    let (a, b, e) = ("<base name=\""@, "\" displaycolor=\""@, "\"/>\n"@);
    let h = hex_color(c);
    let x = xml_text(h);
    lemma_hex_unquoted(c);
    crate::textlaw::law_xml_reads_back(h);
    let r2 = e + post;
    let r1 = b + h + r2;
    assert(s =~= Seq::<char>::empty() + a + x + r1);
    assert(s =~= (Seq::<char>::empty() + a + x) + b + h + r2);
    assert(r1[0] == b[0] && r2[0] == e[0]);
    lemma_attribute(s, Seq::empty(), a, x, r1);
    lemma_attribute(s, Seq::<char>::empty() + a + x, b, h, r2);
}

// ---- names -------------------------------------------------------------------------------------

proof fn lemma_tally_grows(s: Seq<Seq<char>>, i: int, j: int)
    requires
        0 <= i < j < s.len(),
        s[i] == s[j],
    ensures
        tally(s.take(i + 1), s[i]) < tally(s.take(j + 1), s[i]),
        tally(s.take(j + 1), s[i]) <= tally(s, s[i]),
        0 < tally(s.take(i + 1), s[i]),
{
    let x = s[i];
    lemma_tally_prefix(s, x, i + 1, j);
    lemma_tally_prefix(s, x, j + 1, s.len() as int);
    assert(s.take(j + 1).drop_last() =~= s.take(j));
    assert(s.take(j + 1).last() == x);
    assert(s.take(i + 1).last() == x);
    assert(s.take(s.len() as int) =~= s);
}

proof fn lemma_tally_prefix(s: Seq<Seq<char>>, x: Seq<char>, i: int, j: int)
    requires
        0 <= i <= j <= s.len(),
    ensures
        tally(s.take(i), x) <= tally(s.take(j), x),
    decreases j - i,
{
    if i < j {
        lemma_tally_prefix(s, x, i, j - 1);
        assert(s.take(j).drop_last() =~= s.take(j - 1));
    }
}

/// Solids of the same name are told apart by numbers: no two of them are called the
/// same.
pub proof fn law_same_names_numbered(bases: Seq<Seq<char>>, i: int, j: int)
    requires
        0 <= i < j < bases.len(),
        bases[i] == bases[j],
    ensures
        numbered_names(bases)[i] != numbered_names(bases)[j],
{
    lemma_tally_grows(bases, i, j);
    let x = bases[i];
    let (a, b) = (tally(bases.take(i + 1), x), tally(bases.take(j + 1), x));
    lemma_decimal(a);
    lemma_decimal(b);
    let (p, q) = (with_number(x, a), with_number(x, b));
    let k = x.len() as int + 1;
    assert(p.skip(k) =~= decimal_text(a));
    assert(q.skip(k) =~= decimal_text(b));
    assert(numbered_names(bases)[i] == p);
    assert(numbered_names(bases)[j] == q);
}

/// A special name that is overridden has the value of the last override for it, and
/// any other name the value that it had.
pub proof fn law_last_override_wins(names: Env, overrides: Env, k: int, name: Seq<char>)
    requires
        0 <= k <= overrides.len(),
    ensures
        ({
            let kept = is_special(name) && name != "$preview"@ && found(overrides.take(k), name)
                is Some;
            found(with_overrides(names, overrides, k), name) == if kept {
                found(overrides.take(k), name)
            } else {
                found(names, name)
            }
        }),
    decreases k,
{
    if k > 0 {
        law_last_override_wins(names, overrides, k - 1, name);
        let done = with_overrides(names, overrides, k - 1);
        let o = overrides[k - 1];
        assert(overrides.take(k).drop_last() =~= overrides.take(k - 1));
        assert(overrides.take(k).last() == o);
        assert(done.push(o).drop_last() =~= done);
    } else {
        assert(overrides.take(0) =~= Seq::empty());
    }
}

// ---- colors ------------------------------------------------------------------------------------

/// The operations on single numbers that colors need are those of arithmetic.
pub open spec fn exact_singles(m: Reading, n: Numbers) -> bool {
    &&& n.modulus > 0
    &&& forall|v: u64, y: u64|
        n.same((n.single)(single(#[trigger] m.at(NumOp::SingleFromInt, v, y))), v as int)
    &&& forall|x: u64, y: u64|
        x <= u32::MAX && y <= u32::MAX && n.divides((n.single)(y as u32)) ==> n.same(
            (n.single)(single(#[trigger] m.at(NumOp::SingleDiv, x, y))) * (n.single)(y as u32),
            (n.single)(x as u32),
        )
    &&& forall|x: u64, y: u64|
        x <= u32::MAX && y <= u32::MAX ==> n.same(
            (n.single)(single(#[trigger] m.at(NumOp::SingleAdd, x, y))),
            (n.single)(x as u32) + (n.single)(y as u32),
        )
    &&& forall|x: u64, y: u64|
        x <= u32::MAX && y <= u32::MAX ==> n.same(
            (n.single)(single(#[trigger] m.at(NumOp::SingleMul, x, y))),
            (n.single)(x as u32) * (n.single)(y as u32),
        )
    &&& n.same((n.single)(0x437f_0000), 255)
}

/// An opacity, in parts of 255, is the byte.
pub proof fn law_opacity_in_parts(m: Reading, n: Numbers, v: u8)
    requires
        exact_singles(m, n),
        n.divides(255),
    ensures
        n.same(255 * (n.single)(opacity(m, v)), v as int),
{
    let x = single(m.at(NumOp::SingleFromInt, v as u64, 0));
    let all = (n.single)(0x437f_0000);
    crate::exact::lemma_divides(n, all, 255);
    let q = (n.single)(opacity(m, v));
    lemma_same(n, q, q, q);
    lemma_ring(n, q, q, all, 255);
    lemma_same(n, q * all, q * 255, 0);
    lemma_same(n, q * all, (n.single)(x), v as int);
    lemma_same(n, q * 255, q * all, v as int);
    assert(q * 255 == 255 * q);
}

/// A dark component is linear in its value: the same fixed part of it.
pub proof fn law_dark_colors_linear(m: Reading, n: Numbers, v: u8)
    requires
        exact_singles(m, n),
        n.divides((n.single)(0x414e_b852)),
        opacity(m, v) <= 0x3d25_aee6,
    ensures
        n.same((n.single)(linear(m, v)) * (n.single)(0x414e_b852), (n.single)(opacity(m, v))),
{
}

/// A bright component: the value and a fixed part, divided by one more than that part,
/// is raised to a fixed power.
pub proof fn law_bright_colors_raised(m: Reading, n: Numbers, v: u8)
    requires
        exact_singles(m, n),
        n.divides((n.single)(0x3f87_0a3d)),
        opacity(m, v) > 0x3d25_aee6,
    ensures
        exists|base: u32|
            n.same(
                #[trigger] (n.single)(base) * (n.single)(0x3f87_0a3d),
                (n.single)(opacity(m, v)) + (n.single)(0x3d61_47ae),
            ) && linear(m, v) == single(m.at(NumOp::SinglePow, base as u64, 0x4019_999a)),
{
    let value = opacity(m, v);
    let sum = single(m.at(NumOp::SingleAdd, value as u64, 0x3d61_47ae));
    let base = single(m.at(NumOp::SingleDiv, sum as u64, 0x3f87_0a3d));
    let k = (n.single)(0x3f87_0a3d);
    lemma_same(
        n,
        (n.single)(base) * k,
        (n.single)(sum),
        (n.single)(value) + (n.single)(0x3d61_47ae),
    );
}

/// A component of a color becomes the byte that is nearest to 255 times it, where it
/// lies between 0 and 1.
pub proof fn law_color_byte(m: Reading, n: Numbers, b: u32)
    requires
        exact_singles(m, n),
        b <= 0x3f80_0000,
    ensures
        exists|scaled: u64|
            n.same((n.single)(single(scaled)), 255 * (n.single)(b)) && component_byte(m, b) == {
                let whole = m.at(NumOp::SingleToInt, #[trigger] m.at(NumOp::SingleRound, scaled, 0), 0);
                if whole > 255 {
                    255
                } else {
                    whole as u8
                }
            },
{
    let scaled = m.at(NumOp::SingleMul, b as u64, 0x437f_0000);
    let (x, all) = ((n.single)(b), (n.single)(0x437f_0000));
    lemma_same(n, x, x, x);
    lemma_ring(n, x, x, all, 255);
    lemma_same(n, (n.single)(single(scaled)), x * all, x * 255);
    assert(x * 255 == 255 * x);
    let r = m.at(NumOp::SingleRound, scaled, 0);
    assert(m.at(NumOp::SingleToInt, r, 0) == m.at(NumOp::SingleToInt, r, 0));
}

// ---- readable names ----------------------------------------------------------------------------

/// Words one after the other.
pub open spec fn run_together(words: Seq<Seq<char>>) -> Seq<char>
    decreases words.len(),
{
    if words.len() == 0 {
        Seq::empty()
    } else {
        run_together(words.drop_last()) + words.last()
    }
}

/// The letters of a text from a place on, without separators.
pub open spec fn letters_from(s: Seq<char>, i: int) -> Seq<char>
    decreases s.len() - i,
{
    if i < 0 || i >= s.len() {
        Seq::empty()
    } else if is_separator(s[i]) {
        letters_from(s, i + 1)
    } else {
        seq![s[i]] + letters_from(s, i + 1)
    }
}

proof fn lemma_run_join(x: Seq<Seq<char>>, y: Seq<Seq<char>>)
    ensures
        run_together(x + y) == run_together(x) + run_together(y),
    decreases y.len(),
{
    if y.len() == 0 {
        assert(x + y =~= x);
        assert(run_together(x) + run_together(y) =~= run_together(x));
    } else {
        assert((x + y).drop_last() =~= x + y.drop_last());
        lemma_run_join(x, y.drop_last());
        assert(run_together(x) + run_together(y) =~= run_together(x) + run_together(y.drop_last())
            + y.last());
    }
}

/// The words of an identifier are its letters in order, parted at the separators: none
/// is lost, and no word is empty or holds a separator.
pub proof fn law_words_keep_letters(s: Seq<char>, i: int, word: Seq<char>, k: int)
    requires
        0 <= i <= s.len(),
        forall|j: int| 0 <= j < word.len() ==> !is_separator(#[trigger] word[j]),
    ensures
        run_together(words_from(s, i, word)) == word + letters_from(s, i),
        0 <= k < words_from(s, i, word).len() ==> words_from(s, i, word)[k].len() > 0 && forall|
            j: int,
        |
            0 <= j < words_from(s, i, word)[k].len() ==> !is_separator(
                #[trigger] words_from(s, i, word)[k][j],
            ),
    decreases s.len() - i,
{
    let none = Seq::<char>::empty();
    let kept = kept_word(word);
    reveal_with_fuel(run_together, 2);
    assert(run_together(kept) =~= word) by {
        if word.len() > 0 {
            assert(kept.drop_last() =~= Seq::empty());
            assert(run_together(kept) =~= none + word);
        }
    }
    if i >= s.len() {
        assert(word + letters_from(s, i) =~= word);
    } else if is_separator(s[i]) {
        law_words_keep_letters(s, i + 1, none, k - kept.len());
        lemma_run_join(kept, words_from(s, i + 1, none));
        assert(none + letters_from(s, i + 1) =~= letters_from(s, i + 1));
        if 0 <= k < kept.len() {
            assert(words_from(s, i, word)[k] == word);
        } else if kept.len() <= k < words_from(s, i, word).len() {
            assert(words_from(s, i, word)[k] == words_from(s, i + 1, none)[k - kept.len()]);
        }
    } else {
        law_words_keep_letters(s, i + 1, word.push(s[i]), k);
        assert(word.push(s[i]) + letters_from(s, i + 1) =~= word + letters_from(s, i));
    }
}

} // verus!
