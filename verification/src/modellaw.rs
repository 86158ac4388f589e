//! What is read back from the model part of a package: the vertices and triangles
//! of an object are those of its solid.

use crate::mesh::{MeshView, Point3, Triangle};
use crate::num::{zero, Reading, TextOp};
use crate::text::{decimal_text, digit};
use crate::threemf::{
    coordinate_text, is_compact, lemma_room, object_text, renumbered, seen_vertices, triangle_text,
    triangles_text, vertex_text, vertices_text, with_vertex, Compact,
};
use vstd::prelude::*;

verus! {

// ---- reading -----------------------------------------------------------------------------------

/// The text stands at the place.
pub open spec fn stands(s: Seq<char>, at: int, word: Seq<char>) -> bool {
    0 <= at && at + word.len() <= s.len() && s.subrange(at, at + word.len()) == word
}

/// Where the next quotation mark stands.
pub open spec fn quote_from(s: Seq<char>, at: int) -> int
    decreases s.len() - at,
{
    if at < 0 || at >= s.len() || s[at] == '"' {
        at
    } else {
        quote_from(s, at + 1)
    }
}

/// The value of an attribute that a text leads in, and the place of the quotation
/// mark behind it.
pub open spec fn attribute(s: Seq<char>, at: int, lead: Seq<char>) -> Option<(Seq<char>, int)> {
    let start = at + lead.len();
    let end = quote_from(s, start);
    if stands(s, at, lead) && end < s.len() {
        Some((s.subrange(start, end), end))
    } else {
        None
    }
}

/// The coordinates of a vertex, as they stand there.
pub ghost struct Told {
    pub x: Seq<char>,
    pub y: Seq<char>,
    pub z: Seq<char>,
}

/// The vertex at a place, and the place behind it.
#[verifier::opaque]
pub open spec fn vertex_at(s: Seq<char>, at: int) -> Option<(Told, int)> {
    match attribute(s, at, "<vertex x=\""@) {
        Some((x, p)) => match attribute(s, p, "\" y=\""@) {
            Some((y, q)) => match attribute(s, q, "\" z=\""@) {
                Some((z, e)) => if stands(s, e, "\"/>\n"@) {
                    Some((Told { x, y, z }, e + 4))
                } else {
                    None
                },
                None => None,
            },
            None => None,
        },
        None => None,
    }
}

/// The vertices from a place on.
pub open spec fn vertices_from(s: Seq<char>, at: int) -> Seq<Told>
    decreases s.len() - at,
{
    match vertex_at(s, at) {
        Some((v, next)) => if at < next <= s.len() {
            seq![v] + vertices_from(s, next)
        } else {
            Seq::empty()
        },
        None => Seq::empty(),
    }
}

/// The number that decimal digits stand for.
pub open spec fn number_in(s: Seq<char>) -> int
    decreases s.len(),
{
    if s.len() == 0 {
        0
    } else {
        number_in(s.drop_last()) * 10 + (s.last() as int - 48)
    }
}

/// The corners of a triangle and the material at each.
pub ghost struct Facet {
    pub corners: (int, int, int),
    pub materials: (int, int, int),
}

/// The triangle at a place, and the place behind it.
#[verifier::opaque]
pub open spec fn triangle_at(s: Seq<char>, at: int) -> Option<(Facet, int)> {
    match attribute(s, at, "<triangle v1=\""@) {
        Some((a, p)) => match attribute(s, p, "\" v2=\""@) {
            Some((b, q)) => match attribute(s, q, "\" v3=\""@) {
                Some((c, u)) => match attribute(s, u, "\" pid=\"1\" p1=\""@) {
                    Some((d, v)) => match attribute(s, v, "\" p2=\""@) {
                        Some((e, w)) => match attribute(s, w, "\" p3=\""@) {
                            Some((f, end)) => if stands(s, end, "\"/>\n"@) {
                                Some(
                                    (
                                        Facet {
                                            corners: (number_in(a), number_in(b), number_in(c)),
                                            materials: (number_in(d), number_in(e), number_in(f)),
                                        },
                                        end + 4,
                                    ),
                                )
                            } else {
                                None
                            },
                            None => None,
                        },
                        None => None,
                    },
                    None => None,
                },
                None => None,
            },
            None => None,
        },
        None => None,
    }
}

/// The triangles from a place on.
pub open spec fn triangles_from(s: Seq<char>, at: int) -> Seq<Facet>
    decreases s.len() - at,
{
    match triangle_at(s, at) {
        Some((t, next)) => if at < next <= s.len() {
            seq![t] + triangles_from(s, next)
        } else {
            Seq::empty()
        },
        None => Seq::empty(),
    }
}

// ---- one element -------------------------------------------------------------------------------

proof fn lemma_quote(s: Seq<char>, at: int, end: int)
    requires
        0 <= at <= end < s.len(),
        s[end] == '"',
        forall|i: int| at <= i < end ==> s[i] != '"',
    ensures
        quote_from(s, at) == end,
    decreases end - at,
{
    if at < end {
        assert(s[at] != '"');
        lemma_quote(s, at + 1, end);
    }
}

/// An attribute that stands in a text is read.
pub(crate) proof fn lemma_attribute(s: Seq<char>, pre: Seq<char>, lead: Seq<char>, value: Seq<char>, post: Seq<char>)
    requires
        s == pre + lead + value + post,
        !value.contains('"'),
        post.len() > 0,
        post[0] == '"',
    ensures
        attribute(s, pre.len() as int, lead) == Some(
            (value, (pre.len() + lead.len() + value.len()) as int),
        ),
{
    let at = pre.len() as int;
    let start = at + lead.len();
    let end = start + value.len();
    assert(s.subrange(at, start) =~= lead);
    assert(s[end] == post[0]);
    assert forall|i: int| start <= i < end implies s[i] != '"' by {
        assert(s[i] == value[i - start]);
    }
    lemma_quote(s, start, end);
    assert(s.subrange(start, end) =~= value);
}

proof fn lemma_stands(s: Seq<char>, pre: Seq<char>, word: Seq<char>, post: Seq<char>)
    requires
        s == pre + word + post,
    ensures
        stands(s, pre.len() as int, word),
{
    assert(s.subrange(pre.len() as int, (pre.len() + word.len()) as int) =~= word);
}

/// No number is written with a quotation mark.
pub open spec fn unquoted(m: Reading) -> bool {
    forall|v: u64| !(#[trigger] m.written(TextOp::Plain, v, 0)).contains('"')
}

/// What is told of a vertex.
pub open spec fn told(m: Reading, p: Point3) -> Told {
    Told { x: coordinate_text(m, p.x), y: coordinate_text(m, p.y), z: coordinate_text(m, p.z) }
}

proof fn lemma_vertex(m: Reading, s: Seq<char>, pre: Seq<char>, p: Point3, post: Seq<char>)
    requires
        unquoted(m),
        s == pre + vertex_text(m, p) + post,
    ensures
        vertex_at(s, pre.len() as int) == Some(
            (told(m, p), (pre.len() + vertex_text(m, p).len()) as int),
        ),
        vertex_text(m, p).len() > 0,
{
    reveal(vertex_at);
    reveal_strlit("<vertex x=\"");
    reveal_strlit("\" y=\"");
    reveal_strlit("\" z=\"");
    reveal_strlit("\"/>\n");
    let (a, b, c, d) = ("<vertex x=\""@, "\" y=\""@, "\" z=\""@, "\"/>\n"@);
    let (x, y, z) = (
        coordinate_text(m, p.x),
        coordinate_text(m, p.y),
        coordinate_text(m, p.z),
    );
    let r3 = d + post;
    let r2 = c + z + r3;
    let r1 = b + y + r2;
    let p1 = pre + a + x;
    let p2 = p1 + b + y;
    let p3 = p2 + c + z;
    assert(s =~= pre + a + x + r1);
    assert(s =~= p1 + b + y + r2);
    assert(s =~= p2 + c + z + r3);
    assert(s =~= p3 + d + post);
    assert(r1[0] == b[0]);
    assert(r2[0] == c[0]);
    assert(r3[0] == d[0]);
    lemma_attribute(s, pre, a, x, r1);
    lemma_attribute(s, p1, b, y, r2);
    lemma_attribute(s, p2, c, z, r3);
    lemma_stands(s, p3, d, post);
}

pub(crate) proof fn lemma_decimal(n: nat)
    ensures
        number_in(decimal_text(n)) == n,
        !decimal_text(n).contains('"'),
        decimal_text(n).len() > 0,
    decreases n,
{
    let t = decimal_text(n);
    if n < 10 {
        assert(t.drop_last() =~= Seq::empty());
        assert(number_in(t.drop_last()) == 0);
        assert(t.last() == digit(n));
    } else {
        lemma_decimal(n / 10);
        assert(t.drop_last() =~= decimal_text(n / 10));
        assert(t.last() == digit(n % 10));
    }
    assert forall|i: int| 0 <= i < t.len() implies t[i] != '"' by {
        if n >= 10 && i < t.len() - 1 {
            assert(t[i] == decimal_text(n / 10)[i]);
            assert(decimal_text(n / 10).contains(t[i]));
        }
    }
}

/// What is told of a triangle of one material.
pub open spec fn facet(t: Triangle, material: nat) -> Facet {
    Facet {
        corners: (t.a as int, t.b as int, t.c as int),
        materials: (material as int, material as int, material as int),
    }
}

#[verifier::rlimit(40)]
proof fn lemma_triangle(s: Seq<char>, pre: Seq<char>, t: Triangle, material: nat, post: Seq<char>)
    requires
        s == pre + triangle_text(t, material) + post,
    ensures
        triangle_at(s, pre.len() as int) == Some(
            (facet(t, material), (pre.len() + triangle_text(t, material).len()) as int),
        ),
        triangle_text(t, material).len() > 0,
{
    reveal(triangle_at);
    reveal_strlit("<triangle v1=\"");
    reveal_strlit("\" v2=\"");
    reveal_strlit("\" v3=\"");
    reveal_strlit("\" pid=\"1\" p1=\"");
    reveal_strlit("\" p2=\"");
    reveal_strlit("\" p3=\"");
    reveal_strlit("\"/>\n");
    let (w1, w2, w3) = ("<triangle v1=\""@, "\" v2=\""@, "\" v3=\""@);
    let (w4, w5, w6) = ("\" pid=\"1\" p1=\""@, "\" p2=\""@, "\" p3=\""@);
    let w7 = "\"/>\n"@;
    let (a, b, c) = (
        decimal_text(t.a as nat),
        decimal_text(t.b as nat),
        decimal_text(t.c as nat),
    );
    let k = decimal_text(material);
    lemma_decimal(t.a as nat);
    lemma_decimal(t.b as nat);
    lemma_decimal(t.c as nat);
    lemma_decimal(material);
    let r6 = w7 + post;
    let r5 = w6 + k + r6;
    let r4 = w5 + k + r5;
    let r3 = w4 + k + r4;
    let r2 = w3 + c + r3;
    let r1 = w2 + b + r2;
    let p1 = pre + w1 + a;
    let p2 = p1 + w2 + b;
    let p3 = p2 + w3 + c;
    let p4 = p3 + w4 + k;
    let p5 = p4 + w5 + k;
    let p6 = p5 + w6 + k;
    assert(s =~= p6 + w7 + post);
    assert(p5 + w6 + k + r6 =~= p6 + w7 + post);
    assert(p4 + w5 + k + r5 =~= p5 + w6 + k + r6);
    assert(p3 + w4 + k + r4 =~= p4 + w5 + k + r5);
    assert(p2 + w3 + c + r3 =~= p3 + w4 + k + r4);
    assert(p1 + w2 + b + r2 =~= p2 + w3 + c + r3);
    assert(pre + w1 + a + r1 =~= p1 + w2 + b + r2);
    assert(r1[0] == w2[0] && r2[0] == w3[0] && r3[0] == w4[0]);
    assert(r4[0] == w5[0] && r5[0] == w6[0] && r6[0] == w7[0]);
    lemma_attribute(s, pre, w1, a, r1);
    lemma_attribute(s, p1, w2, b, r2);
    lemma_attribute(s, p2, w3, c, r3);
    lemma_attribute(s, p3, w4, k, r4);
    lemma_attribute(s, p4, w5, k, r5);
    lemma_attribute(s, p5, w6, k, r6);
    lemma_stands(s, p6, w7, post);
}

// ---- lists -------------------------------------------------------------------------------------

/// A text around one item of a list.
proof fn lemma_around(s: Seq<char>, pre: Seq<char>, all: Seq<char>, post: Seq<char>, a: Seq<char>, item: Seq<char>)
    requires
        s == pre + all + post,
        (a + item).len() <= all.len(),
        all.take((a + item).len() as int) == a + item,
    ensures
        s == (pre + a) + item + s.skip((pre.len() + (a + item).len()) as int),
{
    let done = a + item;
    let k = (pre.len() + done.len()) as int;
    assert(s.take(k) =~= pre + all.take(done.len() as int));
    assert(s =~= s.take(k) + s.skip(k));
    assert(pre + done =~= (pre + a) + item);
}

proof fn lemma_no_vertex(s: Seq<char>, pre: Seq<char>, post: Seq<char>)
    requires
        s == pre + "</vertices><triangles>\n"@ + post,
    ensures
        vertex_at(s, pre.len() as int) is None,
{
    reveal(vertex_at);
    reveal_strlit("</vertices><triangles>\n");
    reveal_strlit("<vertex x=\"");
    let lead = "<vertex x=\""@;
    let p = pre.len() as int;
    if stands(s, p, lead) {
        assert(s.subrange(p, p + lead.len())[1] == lead[1]);
        assert(s[p + 1] == "</vertices><triangles>\n"@[1]);
    }
}

proof fn lemma_no_triangle(s: Seq<char>, pre: Seq<char>)
    requires
        s == pre + "</triangles></mesh></object>\n"@,
    ensures
        triangle_at(s, pre.len() as int) is None,
{
    reveal(triangle_at);
    reveal_strlit("</triangles></mesh></object>\n");
    reveal_strlit("<triangle v1=\"");
    let lead = "<triangle v1=\""@;
    let p = pre.len() as int;
    if stands(s, p, lead) {
        assert(s.subrange(p, p + lead.len())[1] == lead[1]);
        assert(s[p + 1] == "</triangles></mesh></object>\n"@[1]);
    }
}

proof fn lemma_vertices_prefix(m: Reading, v: Seq<Point3>, k: int, n: int)
    requires
        0 <= k <= n,
    ensures
        vertices_text(m, v, k).len() <= vertices_text(m, v, n).len(),
        vertices_text(m, v, n).take(vertices_text(m, v, k).len() as int) == vertices_text(m, v, k),
    decreases n - k,
{
    let (a, b) = (vertices_text(m, v, k), vertices_text(m, v, n));
    if k < n {
        lemma_vertices_prefix(m, v, k, n - 1);
        let c = vertices_text(m, v, n - 1);
        assert(b.take(a.len() as int) =~= c.take(a.len() as int));
    } else {
        assert(b.take(a.len() as int) =~= a);
    }
}

#[verifier::rlimit(40)]
proof fn lemma_vertices(m: Reading, s: Seq<char>, pre: Seq<char>, v: Seq<Point3>, post: Seq<char>, k: int)
    requires
        unquoted(m),
        0 <= k <= v.len(),
        s == pre + vertices_text(m, v, v.len() as int) + post,
        vertex_at(s, (pre.len() + vertices_text(m, v, v.len() as int).len()) as int) is None,
    ensures
        vertices_from(s, (pre.len() + vertices_text(m, v, k).len()) as int) == v.skip(
            k,
        ).map_values(|p: Point3| told(m, p)),
    decreases v.len() - k,
{
    let f = |p: Point3| told(m, p);
    let n = v.len() as int;
    let at = (pre.len() + vertices_text(m, v, k).len()) as int;
    if k < n {
        lemma_vertices(m, s, pre, v, post, k + 1);
        lemma_vertices_prefix(m, v, k + 1, n);
        let all = vertices_text(m, v, n);
        let done = vertices_text(m, v, k + 1);
        let before = pre + vertices_text(m, v, k);
        let behind = s.skip((pre.len() + done.len()) as int);
        assert(done == vertices_text(m, v, k) + vertex_text(m, v[k]));
        lemma_around(s, pre, all, post, vertices_text(m, v, k), vertex_text(m, v[k]));
        lemma_vertex(m, s, before, v[k], behind);
        assert(v.skip(k).map_values(f) =~= seq![told(m, v[k])] + v.skip(k + 1).map_values(f));
    } else {
        assert(v.skip(k).map_values(f) =~= Seq::empty());
    }
}

proof fn lemma_triangles_prefix(t: Seq<Triangle>, c: Seq<nat>, k: int, n: int)
    requires
        0 <= k <= n,
    ensures
        triangles_text(t, c, k).len() <= triangles_text(t, c, n).len(),
        triangles_text(t, c, n).take(triangles_text(t, c, k).len() as int) == triangles_text(
            t,
            c,
            k,
        ),
    decreases n - k,
{
    let (a, b) = (triangles_text(t, c, k), triangles_text(t, c, n));
    if k < n {
        lemma_triangles_prefix(t, c, k, n - 1);
        let d = triangles_text(t, c, n - 1);
        assert(b.take(a.len() as int) =~= d.take(a.len() as int));
    } else {
        assert(b.take(a.len() as int) =~= a);
    }
}

/// What is told of triangles.
pub open spec fn facets(t: Seq<Triangle>, c: Seq<nat>) -> Seq<Facet> {
    Seq::new(t.len(), |i: int| facet(t[i], c[i]))
}

#[verifier::rlimit(40)]
proof fn lemma_triangles(s: Seq<char>, pre: Seq<char>, t: Seq<Triangle>, c: Seq<nat>, post: Seq<char>, k: int)
    requires
        0 <= k <= t.len(),
        s == pre + triangles_text(t, c, t.len() as int) + post,
        triangle_at(s, (pre.len() + triangles_text(t, c, t.len() as int).len()) as int) is None,
    ensures
        triangles_from(s, (pre.len() + triangles_text(t, c, k).len()) as int) == facets(t, c).skip(
            k,
        ),
    decreases t.len() - k,
{
    let n = t.len() as int;
    if k < n {
        lemma_triangles(s, pre, t, c, post, k + 1);
        lemma_triangles_prefix(t, c, k + 1, n);
        let all = triangles_text(t, c, n);
        let done = triangles_text(t, c, k + 1);
        let before = pre + triangles_text(t, c, k);
        let behind = s.skip((pre.len() + done.len()) as int);
        assert(done == triangles_text(t, c, k) + triangle_text(t[k], c[k]));
        lemma_around(s, pre, all, post, triangles_text(t, c, k), triangle_text(t[k], c[k]));
        lemma_triangle(s, before, t[k], c[k], behind);
        assert(facets(t, c).skip(k) =~= seq![facet(t[k], c[k])] + facets(t, c).skip(k + 1));
    } else {
        assert(facets(t, c).skip(k) =~= Seq::empty());
    }
}

// ---- objects -----------------------------------------------------------------------------------

/// An object reads back: behind its head stand its vertices, each with its three
/// coordinates under their own names, in order, and behind these its triangles,
/// each with its corners in order and its material.
#[verifier::rlimit(40)]
pub proof fn law_object_reads_back(m: Reading, head: Seq<char>, c: Compact, materials: Seq<nat>)
    requires
        unquoted(m),
        materials.len() == c.triangles@.len(),
    ensures
        ({
            let s = object_text(m, head, c, materials);
            let vs = vertices_from(s, head.len() as int);
            let between = head.len() + vertices_text(m, c.vertices@, c.vertices@.len() as int).len();
            let at = between + "</vertices><triangles>\n"@.len();
            &&& vs.len() == c.vertices@.len()
            &&& forall|i: int|
                0 <= i < vs.len() ==> (#[trigger] vs[i]).x == coordinate_text(m, c.vertices@[i].x)
                    && vs[i].y == coordinate_text(m, c.vertices@[i].y) && vs[i].z
                    == coordinate_text(m, c.vertices@[i].z)
            &&& stands(s, between as int, "</vertices><triangles>\n"@)
            &&& triangles_from(s, at as int) == facets(c.triangles@, materials)
        }),
{
    let v = c.vertices@;
    let t = c.triangles@;
    let s = object_text(m, head, c, materials);
    let vt = vertices_text(m, v, v.len() as int);
    let tt = triangles_text(t, materials, t.len() as int);
    let (mid, end) = ("</vertices><triangles>\n"@, "</triangles></mesh></object>\n"@);
    let post = mid + tt + end;
    assert(s =~= head + vt + post);
    assert(s =~= (head + vt) + mid + (tt + end));
    lemma_no_vertex(s, head + vt, tt + end);
    assert(vertices_text(m, v, 0) =~= Seq::empty());
    lemma_vertices(m, s, head, v, post, 0);
    assert(v.skip(0) =~= v);
    lemma_stands(s, head + vt, mid, tt + end);
    let pre = head + vt + mid;
    assert(s =~= pre + tt + end);
    lemma_no_triangle(s, pre + tt);
    assert(triangles_text(t, materials, 0) =~= Seq::empty());
    lemma_triangles(s, pre, t, materials, end, 0);
    assert(facets(t, materials).skip(0) =~= facets(t, materials));
}

proof fn lemma_with(seen: Seq<u32>, v: u32)
    requires
        seen.no_duplicates(),
    ensures
        with_vertex(seen, v).no_duplicates(),
        with_vertex(seen, v).contains(v),
        forall|w: u32| seen.contains(w) ==> #[trigger] with_vertex(seen, v).contains(w),
{
    let r = with_vertex(seen, v);
    if !seen.contains(v) {
        assert(r[seen.len() as int] == v);
        assert forall|w: u32| seen.contains(w) implies #[trigger] r.contains(w) by {
            let i = seen.index_of(w);
            assert(r[i] == w);
        }
        assert forall|i: int, j: int| 0 <= i < r.len() && 0 <= j < r.len() && i != j implies r[i]
            != r[j] by {
            if i == seen.len() {
                assert(seen.contains(r[j]));
            } else if j == seen.len() {
                assert(seen.contains(r[i]));
            }
        }
    }
}

proof fn lemma_seen(tris: Seq<Triangle>, n: int, i: int)
    requires
        0 <= n,
    ensures
        seen_vertices(tris, n).no_duplicates(),
        0 <= i < n ==> seen_vertices(tris, n).contains(tris[i].a) && seen_vertices(tris, n).contains(
            tris[i].b,
        ) && seen_vertices(tris, n).contains(tris[i].c),
    decreases n,
{
    if n > 0 {
        lemma_seen(tris, n - 1, i);
        let s0 = seen_vertices(tris, n - 1);
        let s1 = with_vertex(s0, tris[n - 1].a);
        let s2 = with_vertex(s1, tris[n - 1].b);
        lemma_with(s0, tris[n - 1].a);
        lemma_with(s1, tris[n - 1].b);
        lemma_with(s2, tris[n - 1].c);
        if i == n - 1 {
            assert(s1.contains(tris[i].a));
            assert(s2.contains(tris[i].a));
        }
    }
}

proof fn lemma_fits(seen: Seq<u32>, v: u32)
    requires
        seen.no_duplicates(),
        seen.contains(v),
    ensures
        0 <= seen.index_of(v) < seen.len(),
        seen[seen.index_of(v)] == v,
        seen.index_of(v) <= u32::MAX,
{
    let w = seen.last();
    let rest = seen.drop_last();
    assert(!rest.contains(w)) by {
        if rest.contains(w) {
            let i = rest.index_of(w);
            assert(seen[i] == seen[seen.len() - 1]);
        }
    }
    assert(rest.no_duplicates());
    lemma_room(rest, w);
}

/// The numbers that are told of a vertex, read back, are the coordinates of a
/// point; of two zeros only one is written.
pub open spec fn reads_as(back: spec_fn(Seq<char>) -> u64, v: Told, p: Point3) -> bool {
    &&& back(v.x) == p.x || zero(back(v.x)) && zero(p.x)
    &&& back(v.y) == p.y || zero(back(v.y)) && zero(p.y)
    &&& back(v.z) == p.z || zero(back(v.z)) && zero(p.z)
}

/// An object decodes to the mesh of its solid: where numbers are read back as they
/// were written, the corners of its triangles are, in order, those of the triangles
/// of the solid, at the same points.
#[verifier::rlimit(40)]
pub proof fn law_object_is_the_solid(
    m: Reading,
    back: spec_fn(Seq<char>) -> u64,
    head: Seq<char>,
    mesh: MeshView,
    tris: Seq<Triangle>,
    c: Compact,
    materials: Seq<nat>,
    i: int,
)
    requires
        unquoted(m),
        forall|v: u64| back(#[trigger] m.written(TextOp::Plain, v, 0)) == v,
        is_compact(mesh, tris, c),
        materials.len() == tris.len(),
        0 <= i < tris.len(),
    ensures
        ({
            let s = object_text(m, head, c, materials);
            let vs = vertices_from(s, head.len() as int);
            let at = head.len() + vertices_text(m, c.vertices@, c.vertices@.len() as int).len()
                + "</vertices><triangles>\n"@.len();
            let ts = triangles_from(s, at as int);
            let f = ts[i].corners;
            &&& ts.len() == tris.len()
            &&& 0 <= f.0 < vs.len() && reads_as(back, vs[f.0], mesh.verts[tris[i].a as int])
            &&& 0 <= f.1 < vs.len() && reads_as(back, vs[f.1], mesh.verts[tris[i].b as int])
            &&& 0 <= f.2 < vs.len() && reads_as(back, vs[f.2], mesh.verts[tris[i].c as int])
            &&& ts[i].materials.0 == materials[i]
        }),
{
    law_object_reads_back(m, head, c, materials);
    let seen = seen_vertices(tris, tris.len() as int);
    lemma_seen(tris, tris.len() as int, i);
    lemma_fits(seen, tris[i].a);
    lemma_fits(seen, tris[i].b);
    lemma_fits(seen, tris[i].c);
    assert(c.triangles@[i] == renumbered(seen, tris[i]));
    assert(zero(crate::num::ZERO));
}

} // verus!
