use openrscad::artifact::{artifact_start, export_2d_finish, export_2d_start, DrawingFormat};
use openrscad::assemble::{ragged, request};
use openrscad::diag::{diagnostics_json, Diagnostic, EvalError, Span};
use openrscad::error::GeomError;
use openrscad::eval::Entry;
use openrscad::kernel::balanced_reduce;
use openrscad::files::{join_dir, FileResolver, MapResolver};
use openrscad::heightmap::png_heightmap;
use openrscad::mesh::{Mesh, Point3, Triangle};
use openrscad::modules::bind_named;
use openrscad::names::{humanize_identifier, number_names, safe_source_key};
use openrscad::node::{Node, Point2};
use openrscad::num::{Arithmetic, Calc, NumOp, TextOp};
use openrscad::pipeline::{export_format, ExportFormat3D, ExportOptions, Session};
use openrscad::profile::{
    record_boolean, record_edge_derivation, reset_benchmark_profile, take_benchmark_profile,
    BenchmarkProfile,
};
use openrscad::relation::{
    relation_from_parts, AttributedMesh, RelationMesh, RelationParts, RunKeys, SurfaceAttributionId,
};
use openrscad::request::{Request, StructuredCacheKey};
use openrscad::resources::{
    file_format, import_node, lower, missing_file, surface_ask, surface_rows, surface_words,
    text_ask, text_node,
};
use openrscad::runs::relation_buffers;
use openrscad::unionfind::UnionFind;
use openrscad::value::{value_eq, Value};
use openrscad::viewport::{viewport_json, Viewport};

struct Unit;

fn f(b: u64) -> f64 {
    f64::from_bits(b)
}

fn s(b: u64) -> f32 {
    f32::from_bits(b as u32)
}

impl Arithmetic for Unit {
    fn apply(&mut self, op: NumOp, x: u64, y: u64) -> u64 {
        let (a, b) = (f(x), f(y));
        let one = |v: f64| v.to_bits();
        let single = |v: f32| v.to_bits() as u64;
        match op {
            NumOp::Add => one(a + b),
            NumOp::Sub => one(a - b),
            NumOp::Mul => one(a * b),
            NumOp::Div => one(a / b),
            NumOp::Rem => one(a % b),
            NumOp::Pow => one(libm::pow(a, b)),
            NumOp::Min => one(a.min(b)),
            NumOp::Max => one(a.max(b)),
            NumOp::Hypot => one(a.hypot(b)),
            NumOp::Atan2 => one(libm::atan2(a, b)),
            NumOp::Sqrt => one(a.sqrt()),
            NumOp::Exp => one(libm::exp(a)),
            NumOp::Ln => one(libm::log(a)),
            NumOp::Log10 => one(libm::log10(a)),
            NumOp::Floor => one(a.floor()),
            NumOp::Ceil => one(a.ceil()),
            NumOp::Round => one(a.round()),
            NumOp::Sin => one(libm::sin(a)),
            NumOp::Cos => one(libm::cos(a)),
            NumOp::Tan => one(libm::tan(a)),
            NumOp::Asin => one(libm::asin(a)),
            NumOp::Acos => one(libm::acos(a)),
            NumOp::Atan => one(libm::atan(a)),
            NumOp::ToRadians => one(a.to_radians()),
            NumOp::ToDegrees => one(a.to_degrees()),
            NumOp::FromInt => one(x as f64),
            NumOp::ToInt => a as u64,
            NumOp::ToSingle => single(a as f32),
            NumOp::FromSingle => one(s(x) as f64),
            NumOp::SingleFromInt => single(x as f32),
            NumOp::SingleToInt => s(x) as u64,
            NumOp::SingleAdd => single(s(x) + s(y)),
            NumOp::SingleMul => single(s(x) * s(y)),
            NumOp::SingleDiv => single(s(x) / s(y)),
            NumOp::SinglePow => single(s(x).powf(s(y))),
            NumOp::SingleMin => single(s(x).min(s(y))),
            NumOp::SingleMax => single(s(x).max(s(y))),
            NumOp::SingleRound => single(s(x).round()),
        }
    }

    fn write(&mut self, op: TextOp, x: u64, _y: u64) -> String {
        match op {
            TextOp::Json => serde_json::to_string(&f(x)).unwrap(),
            TextOp::JsonSingle => serde_json::to_string(&s(x)).unwrap(),
            TextOp::Plain => format!("{}", f(x)),
            TextOp::Scientific => format!("{:e}", f(x)),
        }
    }
}

fn calc() -> Calc<Unit> {
    Calc::new(Unit)
}

fn b(v: f64) -> u64 {
    v.to_bits()
}

fn p3(x: f64, y: f64, z: f64) -> Point3 {
    Point3 { x: b(x), y: b(y), z: b(z) }
}

fn p2(x: f64, y: f64) -> Point2 {
    Point2 { x: b(x), y: b(y) }
}

fn message(e: GeomError) -> String {
    match e {
        GeomError::Invariant(s) => s,
        other => panic!("unexpected: {other:?}"),
    }
}

#[test]
fn quotes_and_controls_are_escaped_in_diagnostics() {
    let d = Diagnostic::from_span("error", "say \"hi\"\n\u{1}".to_string(), &None);
    let text = diagnostics_json(Some(&d), &Vec::new());
    let parsed: serde_json::Value = serde_json::from_str(&text).unwrap();
    assert_eq!(parsed[0]["message"], "say \"hi\"\n\u{1}");
    assert_eq!(parsed[0]["start"], -1);
    assert_eq!(diagnostics_json(None, &Vec::new()), "[]");
}

#[test]
fn the_innermost_span_wins() {
    let inner = Some(Span { start: 1, end: 2 });
    let e = EvalError::new("x".to_string()).or_span(inner).or_span(Some(Span { start: 0, end: 9 }));
    assert_eq!(e.span, inner);
    assert_eq!(EvalError::new("x".to_string()).or_span(None).span, None);
}

#[test]
fn identifiers_are_shown_as_words() {
    assert_eq!(humanize_identifier("roof_frame"), "Roof Frame");
    assert_eq!(humanize_identifier("\u{e9}t\u{e9}-box__2"), "\u{c9}t\u{e9} Box 2");
    let names = ["Bench", "Arch", "Bench"].iter().map(|s| s.to_string()).collect();
    assert_eq!(number_names(&names), ["Bench 1", "Arch", "Bench 2"]);
}

#[test]
fn absolute_keys_show_their_file_alone() {
    assert_eq!(safe_source_key("/home/someone/part.scad"), "part.scad");
    assert_eq!(safe_source_key("lib\\part.scad"), "lib/part.scad");
    assert_eq!(safe_source_key("<main>"), "<main>");
}

#[test]
fn paths_are_joined_and_cleaned() {
    assert_eq!(join_dir("lib", "b.scad"), "lib/b.scad");
    assert_eq!(join_dir("lib/deep", "../b.scad"), "lib/b.scad");
    assert_eq!(join_dir("", "b.scad"), "b.scad");
}

#[test]
fn files_are_found_as_written_first() {
    let r = Request {
        source: String::new(),
        params: Vec::new(),
        files: vec![
            ("a.scad".to_string(), "top".to_string()),
            ("lib/a.scad".to_string(), "deep".to_string()),
        ],
        binary_files: vec![("m.stl".to_string(), vec![1, 2])],
        font_files: Vec::new(),
    };
    let files = MapResolver::new(&r);
    assert_eq!(files.load("a.scad", "lib").unwrap().source, "top");
    assert_eq!(files.load("lib/a.scad", ".").unwrap().dir, "lib");
    assert!(files.load("b.scad", "lib").is_none());
    assert_eq!(files.load_bytes("m.stl", "").unwrap(), vec![1, 2]);
}

#[test]
fn keys_separate_different_requests() {
    let plain = |source: &str| Request {
        source: source.to_string(),
        params: Vec::new(),
        files: Vec::new(),
        binary_files: Vec::new(),
        font_files: Vec::new(),
    };
    let a = StructuredCacheKey::new(&plain("cube(1);"), false);
    assert!(!a.same(&StructuredCacheKey::new(&plain("cube(2);"), false)));
    assert!(a.same(&StructuredCacheKey::new(&plain("cube(1);"), false)));
}

#[test]
fn requests_are_assembled_from_parallel_lists() {
    let list = |v: &[&str]| v.iter().map(|s| s.to_string()).collect::<Vec<_>>();
    let r = request(
        "x;".to_string(),
        &list(&["a", "b"]),
        &list(&["1"]),
        &list(&["f.scad"]),
        &list(&["cube();"]),
        &list(&["m.stl", "bad.stl"]),
        &list(&["Zm9v", "%"]),
        &list(&["Zg=="]),
    );
    assert_eq!(r.source, "x;");
    assert_eq!(r.params, vec![("a".to_string(), "1".to_string())]);
    assert_eq!(r.files, vec![("f.scad".to_string(), "cube();".to_string())]);
    assert_eq!(r.binary_files, vec![("m.stl".to_string(), b"foo".to_vec())]);
    assert_eq!(r.font_files, vec![b"f".to_vec()]);
    let (one, two) = (list(&["a"]), list(&["a", "b"]));
    assert!(!ragged(&one, &one, &two, &two, &one, &one));
    assert!(ragged(&one, &one, &two, &one, &one, &one));
}

#[test]
fn unknown_formats_and_axes_are_refused() {
    assert_eq!(export_format("3mf"), Some(ExportFormat3D::ThreeMf));
    assert_eq!(export_format("step"), None);
    let r = Request {
        source: String::new(),
        params: Vec::new(),
        files: Vec::new(),
        binary_files: Vec::new(),
        font_files: Vec::new(),
    };
    let mut session: Session<u8> = Session::new();
    let options = ExportOptions { format: "step".to_string(), ..ExportOptions::default() };
    match artifact_start(&mut session, &r, &options) {
        Err(a) => assert_eq!(a.error.as_deref(), Some("unsupported 3D export format: step")),
        Ok(_) => panic!("accepted"),
    }
    let options = ExportOptions { coordinate_system: "x-up".to_string(), ..ExportOptions::default() };
    match artifact_start(&mut session, &r, &options) {
        Err(a) => assert_eq!(a.error.as_deref(), Some("unsupported coordinate system: x-up")),
        Ok(_) => panic!("accepted"),
    }
    let plan = artifact_start(&mut session, &r, &ExportOptions::default());
    assert!(plan.is_ok());
}

#[test]
fn sets_merge_exactly() {
    let mut s = UnionFind::new(5);
    s.union(0, 1);
    s.union(3, 4);
    s.union(1, 4);
    assert_eq!(s.find(0), s.find(3));
    assert_ne!(s.find(0), s.find(2));
}

#[test]
fn reductions_pair_neighbours() {
    let items: Vec<String> = ["a", "b", "c"].iter().map(|s| s.to_string()).collect();
    let join = |x: &String, y: &String| Ok(format!("({x}{y})"));
    assert_eq!(balanced_reduce(items, join).unwrap().unwrap(), "((ab)c)");
    assert!(balanced_reduce(Vec::new(), join).unwrap().is_none());
    let refuse = |_: &u8, _: &u8| Err(GeomError::Kernel("no".to_string()));
    assert!(matches!(balanced_reduce(vec![1, 2], refuse), Err(GeomError::Kernel(_))));
}

fn parts(run: u32) -> RelationParts {
    RelationParts {
        num_prop: 3,
        vertex_properties: (0..12).map(|n| b(n as f64)).collect(),
        triangle_vertices: vec![0, 1, 2, 0, 2, 3],
        run_index: vec![0, 6],
        run_original_id: vec![run],
        merge_from_vert: Vec::new(),
        merge_to_vert: Vec::new(),
        run_flags: vec![1],
    }
}

#[test]
fn relations_that_do_not_fit_are_refused() {
    let mut keys = RunKeys::new();
    let run = keys.intern(SurfaceAttributionId(2), 7).unwrap();
    assert_eq!(keys.intern(SurfaceAttributionId(2), 7).unwrap(), run);
    let good = relation_from_parts(&parts(run), &keys).unwrap();
    assert_eq!(good.backside, vec![true, true]);
    let said = |p: RelationParts| message(relation_from_parts(&p, &keys).unwrap_err());
    assert_eq!(said(parts(run + 9)), format!("relation run has unknown ID {}", run + 9));
    assert_eq!(
        said(RelationParts { triangle_vertices: vec![0, 1, 9, 0, 2, 3], ..parts(run) }),
        "relation triangle vertex is outside the vertex buffer"
    );
    assert_eq!(
        said(RelationParts { merge_from_vert: vec![0, 1], merge_to_vert: vec![1, 0], ..parts(run) }),
        "relation merge metadata contains a cycle"
    );
    assert_eq!(
        said(RelationParts { merge_from_vert: vec![0], ..parts(run) }),
        "relation merge vectors have different lengths"
    );
    assert_eq!(
        said(RelationParts { num_prop: 2, ..parts(run) }),
        "relation mesh has invalid vertex properties"
    );
}

#[test]
fn runs_are_numbered_by_surface_and_patch() {
    let mesh = RelationMesh {
        attributed: AttributedMesh {
            mesh: Mesh {
                verts: vec![p3(0.0, 0.0, 0.0), p3(1.0, 0.0, 0.0), p3(0.0, 1.0, 0.0)],
                tris: vec![Triangle { a: 0, b: 1, c: 2 }, Triangle { a: 0, b: 2, c: 1 }],
            },
            surface_ids: vec![SurfaceAttributionId(1), SurfaceAttributionId(0)],
            source_face_ids: vec![5, 6],
        },
        backside: vec![false, false],
    };
    let mut keys = RunKeys::new();
    let buffers = relation_buffers(&mesh, &mut keys).unwrap();
    assert_eq!(buffers.run_index, vec![0, 3, 6]);
    assert_eq!(keys.decode(buffers.run_original_id[0]), Some((SurfaceAttributionId(0), 6)));
    assert_eq!(keys.decode(buffers.run_original_id[1]), Some((SurfaceAttributionId(1), 5)));
    assert_eq!(buffers.triangles, vec![0, 2, 1, 0, 1, 2]);
}

fn png(color: png::ColorType, width: u32, data: &[u8]) -> Vec<u8> {
    let mut out = Vec::new();
    let mut encoder = png::Encoder::new(&mut out, width, 1);
    encoder.set_color(color);
    encoder.set_depth(png::BitDepth::Eight);
    let mut writer = encoder.write_header().unwrap();
    writer.write_image_data(data).unwrap();
    writer.finish().unwrap();
    out
}

#[test]
fn images_are_read_as_heights() {
    let gray = png(png::ColorType::Grayscale, 3, &[0, 255, 51]);
    let read = |bytes: &Vec<u8>, invert: bool| {
        let rows = png_heightmap(&mut calc(), bytes, invert).unwrap();
        rows.iter().map(|r| r.iter().map(|v| f(*v)).collect()).collect::<Vec<Vec<f64>>>()
    };
    let near = |a: &Vec<Vec<f64>>, b: &[f64]| {
        assert_eq!(a.len(), 1);
        assert!(a[0].iter().zip(b).all(|(x, y)| (x - y).abs() < 1e-4), "{a:?}");
    };
    near(&read(&gray, false), &[0.0, 100.0, 20.0]);
    near(&read(&gray, true), &[100.0, 0.0, 80.0]);
    assert!(png_heightmap(&mut calc(), &b"not an image".to_vec(), false).is_err());
}

fn entry(name: &str, value: Value) -> Entry {
    Entry { name: name.to_string(), value }
}

fn text_value(s: &str) -> Value {
    Value::Str(s.to_string())
}

#[test]
fn tables_are_read_line_by_line() {
    let words = surface_words("# heights\n 1 2\t3\r\n\n  x 4\u{a0}5 \n#6\n# \n7");
    assert_eq!(words, vec![vec!["1", "2", "3"], vec!["x", "4", "5"], vec!["7"]]);
    let read = vec![vec![None, Some(4)], vec![None], Vec::new(), vec![Some(1), Some(2)]];
    assert_eq!(surface_rows(&read), vec![vec![4], vec![1, 2]]);
    let ask = surface_ask(&vec![
        entry("file", text_value("a/B.PNG")),
        entry("center", Value::Bool(true)),
    ])
    .unwrap();
    assert!(ask.image && ask.center && !ask.invert);
    assert!(surface_ask(&vec![entry("file", Value::Undef)]).is_none());
    assert!(!surface_ask(&vec![entry("file", text_value("png"))]).unwrap().image);
}

#[test]
fn imports_keep_bytes_and_format() {
    assert_eq!(file_format("Part.Final.STL"), "stl");
    assert_eq!(file_format("noext"), "noext");
    assert_eq!(lower("AbZ\u{c9}["), "abz\u{c9}[");
    match import_node("p.STL", Some(vec![1, 2])) {
        (Node::Import { data, format }, None) => assert_eq!((data, format.as_str()), (vec![1, 2], "stl")),
        other => panic!("unexpected: {other:?}"),
    }
    match import_node("p.stl", None) {
        (Node::Empty, Some(w)) => assert_eq!(w, "Can't open import file 'p.stl'"),
        other => panic!("unexpected: {other:?}"),
    }
    assert_eq!(missing_file("'use'", "x"), "Can't open 'use' file 'x'");
}

#[test]
fn text_arguments_have_defaults() {
    let ask = text_ask(&mut calc(), &Vec::new(), &Vec::new(), &Value::Number(b(32.0)));
    assert_eq!((ask.text.as_str(), f(ask.size), f(ask.spacing)), ("", 10.0, 1.0));
    assert_eq!((ask.halign.as_str(), ask.valign.as_str()), ("left", "baseline"));
    assert_eq!((ask.direction.as_str(), ask.segments), ("ltr", 8));
    let m = vec![entry("text", Value::Number(b(5.0)))];
    let ask = text_ask(&mut calc(), &Vec::new(), &m, &Value::Number(b(3.0)));
    assert_eq!((ask.text.as_str(), ask.segments), ("5", 2));
    let ask = text_ask(&mut calc(), &Vec::new(), &m, &Value::Number(b(41.0)));
    assert_eq!(ask.segments, 11);
    let ask = text_ask(&mut calc(), &Vec::new(), &m, &Value::Undef);
    assert_eq!(ask.segments, 8);
}

#[test]
fn missing_fonts_are_named_in_quotes() {
    let square = vec![p2(0.0, 0.0), p2(1.0, 0.0), p2(1.0, 1.0)];
    let (node, warning) = text_node(square, vec![vec![0, 1, 2]], "Ar\"ial", false);
    assert!(matches!(node, Node::Polygon { paths: Some(_), .. }));
    assert_eq!(
        warning.unwrap(),
        "text(): font \"Ar\\\"ial\" not available; using the bundled Liberation Sans"
    );
    assert!(text_node(Vec::new(), Vec::new(), "", false).1.is_none());
    assert!(text_node(Vec::new(), Vec::new(), "Arial", true).1.is_none());
}

#[test]
fn arguments_bind_by_place_and_by_name() {
    let names = vec!["a".to_string(), "b".to_string()];
    let arg = |name: Option<&str>, n: f64| openrscad::eval::PassedArg {
        name: name.map(|s| s.to_string()),
        value: Value::Number(b(n)),
    };
    let bound = bind_named(&names, &vec![arg(None, 1.0), arg(Some("c"), 2.0), arg(None, 3.0), arg(None, 4.0)]);
    let shown: Vec<(&str, f64)> =
        bound.iter().map(|e| (e.name.as_str(), f(e.value.as_number().unwrap()))).collect();
    assert_eq!(shown, vec![("a", 1.0), ("c", 2.0), ("b", 3.0)]);
}

#[test]
fn items_are_combined_pair_by_pair() {
    let joined = |a: &String, b: &String| Ok(format!("({a}{b})"));
    let list = |n: usize| "abcdefg".chars().take(n).map(|c| c.to_string()).collect::<Vec<_>>();
    assert_eq!(balanced_reduce(list(0), joined).unwrap(), None);
    assert_eq!(balanced_reduce(list(1), joined).unwrap().unwrap(), "a");
    assert_eq!(balanced_reduce(list(5), joined).unwrap().unwrap(), "(((ab)(cd))e)");
    let refused = |a: &String, b: &String| {
        if b == "d" {
            Err(GeomError::Kernel(format!("{a}{b}")))
        } else {
            Ok(format!("{a}{b}"))
        }
    };
    assert!(matches!(balanced_reduce(list(7), refused), Err(GeomError::Kernel(e)) if e == "cd"));
}

#[test]
fn drawings_need_a_flat_model_and_a_known_format() {
    assert_eq!(export_2d_start(Some(true), "dxf"), Some(DrawingFormat::Dxf));
    assert_eq!(export_2d_start(Some(true), "svg"), Some(DrawingFormat::Svg));
    assert_eq!(export_2d_start(Some(true), "png"), None);
    assert_eq!(export_2d_start(Some(false), "svg"), None);
    assert_eq!(export_2d_start(None, "svg"), None);
    let text = || Ok("<svg/>".to_string());
    assert_eq!(export_2d_finish(Some(DrawingFormat::Svg), text()), "<svg/>");
    assert_eq!(export_2d_finish(None, text()), "");
    assert_eq!(export_2d_finish(Some(DrawingFormat::Dxf), Err("no".to_string())), "");
}

#[test]
fn values_compare_by_what_they_hold() {
    assert!(value_eq(&text_value("a"), &text_value("a")));
    assert!(!value_eq(&text_value("1"), &Value::Number(b(1.0))));
    assert!(!value_eq(&Value::Number(b(f64::NAN)), &Value::Number(b(f64::NAN))));
    assert!(value_eq(&Value::Number(b(0.0)), &Value::Number(b(-0.0))));
}

#[test]
fn cameras_are_written_as_json() {
    let v = Viewport { vpr: Some((b(1.0), b(2.5), b(3.0))), vpt: None, vpd: Some(b(140.0)), vpf: None };
    assert_eq!(
        viewport_json(&mut calc(), &v),
        "{\"vpr\":[1.0,2.5,3.0],\"vpt\":null,\"vpd\":140.0,\"vpf\":null}"
    );
}

#[test]
fn profiles_add_up_and_reset() {
    let mut p = BenchmarkProfile::default();
    record_edge_derivation(&mut calc(), &mut p, b(1.5), 3);
    record_edge_derivation(&mut calc(), &mut p, b(2.0), 4);
    record_boolean(&mut calc(), &mut p, b(0.25));
    let taken = take_benchmark_profile(&mut p);
    assert_eq!(f(taken.edge_derivation_ms), 3.5);
    assert_eq!(f(p.edge_derivation_ms), 0.0);
    record_boolean(&mut calc(), &mut p, b(1.0));
    reset_benchmark_profile(&mut p);
    assert_eq!(f(p.edge_derivation_ms), 0.0);
}
