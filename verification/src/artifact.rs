//! The stages of a 3D export request and of a preview render request.

use crate::blob::texts;
use crate::cache::NodeView;
use crate::diag::{
    diagnosed, diagnostics_json, diagnostics_text, eval_error_diagnostic, notes,
    parse_error_diagnostic, EvalError, NoteView, Span, Warning,
};
use crate::pipeline::{
    console, export_format, failed_artifact, fold_warnings, folded, format_named, maybe_text,
    register_font_files, structured, system_named, viewport_channel, warning_lines, with_fonts,
    Artifact3d, ArtifactView, CoordinateSystem, EvalSummary, ExportFormat3D, ExportOptions,
    RenderDiagnostics, Session, CACHE_CAP,
};
use crate::request::{give_the_same, identifies, Request, StructuredCacheKey};
use crate::text::{concat2, join, joined, same_text};
use vstd::prelude::*;

verus! {

/// What a valid 3D request asks for.
pub struct ArtifactPlan {
    pub format: ExportFormat3D,
    pub system: CoordinateSystem,
    pub key: StructuredCacheKey,
    /// Whether evaluation keeps the facts that structured formats name parts by.
    pub detailed: bool,
}

/// Why a request is refused before anything runs: an unknown format first, then
/// an unknown coordinate system.
pub open spec fn refused(options: ExportOptions) -> Option<ArtifactView> {
    if format_named(options.format@) is None {
        Some(
            failed_artifact(
                options.format@,
                "unsupported 3D export format: "@ + options.format@,
                "[]"@,
            ),
        )
    } else if system_named(options.coordinate_system@) is None {
        Some(
            failed_artifact(
                options.format@,
                "unsupported coordinate system: "@ + options.coordinate_system@,
                "[]"@,
            ),
        )
    } else {
        None
    }
}

/// Checks a 3D request and registers its fonts. A refused request changes
/// nothing.
pub fn artifact_start<S>(
    session: &mut Session<S>,
    request: &Request,
    options: &ExportOptions,
) -> (r: Result<ArtifactPlan, Artifact3d>)
    requires
        old(session).wf(),
    ensures
        final(session).wf(),
        final(session).cache == old(session).cache,
        final(session).kept_key() == old(session).kept_key(),
        final(session).kept() == old(session).kept(),
        final(session).renders() == old(session).renders(),
        match r {
            Err(a) => refused(*options) == Some(a@) && *final(session) == *old(session),
            Ok(plan) => {
                &&& refused(*options) is None
                &&& format_named(options.format@) == Some(plan.format)
                &&& system_named(options.coordinate_system@) == Some(plan.system)
                &&& identifies(plan.key@, request@, options.preview)
                &&& plan.detailed == (options.preview || structured(plan.format))
                &&& final(session).registered() == with_fonts(
                    old(session).registered(),
                    request@.font_files,
                    0,
                )
            },
        },
{
    let format = match export_format(options.format.as_str()) {
        Some(f) => f,
        None => return Err(
            Artifact3d::from_error(
                options.format.as_str(),
                concat2("unsupported 3D export format: ", options.format.as_str()),
                "[]".to_owned(),
            ),
        ),
    };
    let system = if same_text(options.coordinate_system.as_str(), "y-up") {
        CoordinateSystem::YUp
    } else if same_text(options.coordinate_system.as_str(), "z-up") {
        CoordinateSystem::ZUp
    } else {
        return Err(
            Artifact3d::from_error(
                options.format.as_str(),
                concat2("unsupported coordinate system: ", options.coordinate_system.as_str()),
                "[]".to_owned(),
            ),
        );
    };
    let key = StructuredCacheKey::new(request, options.preview);
    register_font_files(session, &request.font_files);
    let detailed: bool = options.preview || format == ExportFormat3D::Glb || format
        == ExportFormat3D::ThreeMf;
    Ok(ArtifactPlan { format, system, key, detailed })
}

/// The artifact for a source that does not parse.
pub fn artifact_parse_failed(options: &ExportOptions, message: &str, span: Span) -> (r: Artifact3d)
    ensures
        r@ == failed_artifact(
            options.format@,
            "parse error: "@ + message@,
            diagnostics_text(
                Some(
                    diagnosed(
                        "error"@,
                        (NoteView { message: "parse error: "@ + message@, span: Some(span) }),
                    ),
                ),
                Seq::empty(),
            ),
        ),
{
    let text = concat2("parse error: ", message);
    let diagnostic = parse_error_diagnostic(text.clone(), span);
    let none: Vec<Warning> = Vec::new();
    let diagnostics = diagnostics_json(Some(&diagnostic), &none);
    assert(notes(none@) =~= Seq::empty());
    Artifact3d::from_error(options.format.as_str(), text, diagnostics)
}

/// The artifact for a program whose evaluation fails.
pub fn artifact_eval_failed(options: &ExportOptions, err: &EvalError) -> (r: Artifact3d)
    ensures
        r@ == failed_artifact(
            options.format@,
            "evaluation error: "@ + err@.message,
            diagnostics_text(Some(diagnosed("error"@, err@)), Seq::empty()),
        ),
{
    let diagnostic = eval_error_diagnostic(err);
    let none: Vec<Warning> = Vec::new();
    let diagnostics = diagnostics_json(Some(&diagnostic), &none);
    assert(notes(none@) =~= Seq::empty());
    Artifact3d::from_error(
        options.format.as_str(),
        concat2("evaluation error: ", err.message.as_str()),
        diagnostics,
    )
}

/// What a 3D request does after evaluation.
pub enum ArtifactStep {
    /// Nothing is left to do.
    Finished(Artifact3d),
    /// Serialize the structured render that is kept.
    Serialize,
    /// Render with structure, keep the result under the plan's key, serialize it.
    RenderStructured,
    /// Render one plain mesh and serialize it.
    RenderPlain,
}

/// Decides how an evaluated model becomes an artifact. A 2D model cannot; a
/// structured format reuses the kept render of the same key; before anything is
/// rendered the geometry cache is held to its bound.
pub fn artifact_evaluated<S>(
    session: &mut Session<S>,
    request: &Request,
    options: &ExportOptions,
    plan: &ArtifactPlan,
    eval: &EvalSummary,
) -> (r: ArtifactStep)
    requires
        old(session).wf(),
    ensures
        final(session).wf(),
        final(session).kept_key() == old(session).kept_key(),
        final(session).kept() == old(session).kept(),
        final(session).renders() == old(session).renders(),
        final(session).registered() == old(session).registered(),
        match r {
            ArtifactStep::Finished(a) => {
                &&& eval.is_2d
                &&& a@ == (ArtifactView {
                    echo: console(request@.source, *eval).echo,
                    warnings: console(request@.source, *eval).warnings,
                    viewport: console(request@.source, *eval).viewport,
                    is_2d: true,
                    ..failed_artifact(
                        options.format@,
                        "3D export requested for a 2D model"@,
                        diagnostics_text(None, notes(eval.warnings@)),
                    )
                })
            },
            ArtifactStep::Serialize => !eval.is_2d && structured(plan.format) && old(session).kept_key() == Some(plan.key@),
            ArtifactStep::RenderStructured => !eval.is_2d && structured(plan.format) && old(session).kept_key() != Some(plan.key@),
            ArtifactStep::RenderPlain => !eval.is_2d && !structured(plan.format),
        },
        if (r is RenderStructured || r is RenderPlain) && old(session).cache@.nodes.len()
            > CACHE_CAP {
            final(session).cache@.nodes =~= Map::<u64, NodeView>::empty()
        } else {
            final(session).cache@ == old(session).cache@
        },
{
    if eval.is_2d {
        let mut result = Artifact3d::from_error(
            options.format.as_str(),
            "3D export requested for a 2D model".to_owned(),
            diagnostics_json(None, &eval.warnings),
        );
        result.echo = join(&eval.echoes, "\n");
        result.warnings = warning_lines(&eval.warnings);
        result.viewport = viewport_channel(request.source.as_str(), &eval.viewport);
        result.is_2d = true;
        return ArtifactStep::Finished(result);
    }
    if plan.format == ExportFormat3D::Glb || plan.format == ExportFormat3D::ThreeMf {
        if session.has_structured(&plan.key) {
            ArtifactStep::Serialize
        } else {
            session.make_room();
            ArtifactStep::RenderStructured
        }
    } else {
        session.make_room();
        ArtifactStep::RenderPlain
    }
}

/// A serialized mesh and its measures.
pub struct Export3DArtifact {
    pub bytes: Vec<u8>,
    pub triangle_count: usize,
    pub vertex_count: usize,
    pub volume: u64,
    pub surface_area: u64,
}

/// What a finished 3D request reports.
pub open spec fn finished_artifact(
    source: Seq<char>,
    format: Seq<char>,
    eval: EvalSummary,
    outcome: Result<Export3DArtifact, String>,
    geometry: RenderDiagnostics,
) -> ArtifactView {
    let console = console(source, eval);
    let warnings = folded(console.warnings, texts(geometry.warnings@), 0);
    let geom_errors = joined(texts(geometry.errors@), "\n"@);
    match outcome {
        Ok(a) => ArtifactView {
            bytes: a.bytes@,
            format,
            echo: console.echo,
            warnings,
            error: None,
            geom_errors,
            diagnostics: diagnostics_text(None, notes(eval.warnings@)),
            viewport: console.viewport,
            triangle_count: a.triangle_count as u32,
            vertex_count: a.vertex_count as u32,
            volume: a.volume,
            area: a.surface_area,
            is_2d: false,
        },
        Err(e) => ArtifactView {
            echo: console.echo,
            warnings,
            geom_errors,
            viewport: console.viewport,
            ..failed_artifact(
                format,
                "geometry error: "@ + e@,
                diagnostics_text(
                    Some(
                        diagnosed(
                            "error"@,
                            NoteView { message: "geometry error: "@ + e@, span: None },
                        ),
                    ),
                    notes(eval.warnings@),
                ),
            )
        },
    }
}

/// Assembles the report of a 3D request from the outcome of rendering and
/// serializing. A recoverable geometry error leaves the artifact in place.
pub fn artifact_finish(
    request: &Request,
    options: &ExportOptions,
    eval: &EvalSummary,
    outcome: Result<Export3DArtifact, String>,
    geometry: &RenderDiagnostics,
) -> (r: Artifact3d)
    ensures
        r@ == finished_artifact(request@.source, options.format@, *eval, outcome, *geometry),
{
    let echo = join(&eval.echoes, "\n");
    let warnings = fold_warnings(warning_lines(&eval.warnings), &geometry.warnings);
    let geom_errors = join(&geometry.errors, "\n");
    let viewport = viewport_channel(request.source.as_str(), &eval.viewport);
    match outcome {
        Ok(a) => Artifact3d {
            bytes: a.bytes,
            format: options.format.clone(),
            echo,
            warnings,
            error: None,
            geom_errors,
            diagnostics: diagnostics_json(None, &eval.warnings),
            viewport,
            triangle_count: a.triangle_count as u32,
            vertex_count: a.vertex_count as u32,
            volume: a.volume,
            area: a.surface_area,
            is_2d: false,
        },
        Err(e) => {
            let message = concat2("geometry error: ", e.as_str());
            let diagnostic = eval_error_diagnostic(&EvalError::new(message.clone()));
            let mut result = Artifact3d::from_error(
                options.format.as_str(),
                message,
                diagnostics_json(Some(&diagnostic), &eval.warnings),
            );
            result.echo = echo;
            result.warnings = warnings;
            result.geom_errors = geom_errors;
            result.viewport = viewport;
            result
        },
    }
}

// ---- preview renders -------------------------------------------------------------------

/// A triangle soup with flat normals, as the bits of single-precision floats,
/// and a JSON description of its groups.
pub struct Channel {
    pub positions: Vec<u32>,
    pub normals: Vec<u32>,
    pub groups: String,
}

impl Channel {
    pub open spec fn empty(&self) -> bool {
        self.positions@.len() == 0 && self.normals@.len() == 0 && self.groups@.len() == 0
    }

    /// A channel that holds nothing.
    pub fn none() -> (r: Channel)
        ensures
            r.empty(),
    {
        Channel { positions: Vec::new(), normals: Vec::new(), groups: String::new() }
    }
}

/// A rendered mesh with the preview and provenance channels.
pub struct Render {
    pub positions: Vec<u32>,
    pub normals: Vec<u32>,
    pub echo: String,
    pub warnings: String,
    pub error: Option<String>,
    pub geom_errors: String,
    pub diagnostics: String,
    pub preview_positions: Vec<u32>,
    pub preview_normals: Vec<u32>,
    pub groups: String,
    pub provenance_positions: Vec<u32>,
    pub provenance_normals: Vec<u32>,
    pub provenance: String,
    pub viewport: String,
    pub triangle_count: u32,
    pub vertex_count: u32,
    pub volume: u64,
    pub area: u64,
    pub is_2d: bool,
}

/// What a render reports.
pub struct RenderView {
    pub soup: (Seq<u32>, Seq<u32>),
    pub echo: Seq<char>,
    pub warnings: Seq<char>,
    pub error: Option<Seq<char>>,
    pub geom_errors: Seq<char>,
    pub diagnostics: Seq<char>,
    pub preview: (Seq<u32>, Seq<u32>, Seq<char>),
    pub provenance: (Seq<u32>, Seq<u32>, Seq<char>),
    pub viewport: Seq<char>,
    pub triangle_count: u32,
    pub vertex_count: u32,
    pub volume: u64,
    pub area: u64,
    pub is_2d: bool,
}

impl View for Render {
    type V = RenderView;

    open spec fn view(&self) -> RenderView {
        RenderView {
            soup: (self.positions@, self.normals@),
            echo: self.echo@,
            warnings: self.warnings@,
            error: maybe_text(self.error),
            geom_errors: self.geom_errors@,
            diagnostics: self.diagnostics@,
            preview: (self.preview_positions@, self.preview_normals@, self.groups@),
            provenance: (
                self.provenance_positions@,
                self.provenance_normals@,
                self.provenance@,
            ),
            viewport: self.viewport@,
            triangle_count: self.triangle_count,
            vertex_count: self.vertex_count,
            volume: self.volume,
            area: self.area,
            is_2d: self.is_2d,
        }
    }
}

/// The render that reports an error and holds no mesh.
pub open spec fn failed_render(
    message: Seq<char>,
    echo: Seq<char>,
    warnings: Seq<char>,
    diagnostics: Seq<char>,
) -> RenderView {
    RenderView {
        soup: (Seq::empty(), Seq::empty()),
        echo,
        warnings,
        error: Some(message),
        geom_errors: Seq::empty(),
        diagnostics,
        preview: (Seq::empty(), Seq::empty(), Seq::empty()),
        provenance: (Seq::empty(), Seq::empty(), Seq::empty()),
        viewport: Seq::empty(),
        triangle_count: 0,
        vertex_count: 0,
        volume: 0,
        area: 0,
        is_2d: false,
    }
}

impl Render {
    pub fn from_error(
        message: String,
        echo: String,
        warnings: String,
        diagnostics: String,
    ) -> (r: Self)
        ensures
            r@ == failed_render(message@, echo@, warnings@, diagnostics@),
    {
        let r = Render {
            positions: Vec::new(),
            normals: Vec::new(),
            echo,
            warnings,
            error: Some(message),
            geom_errors: String::new(),
            diagnostics,
            preview_positions: Vec::new(),
            preview_normals: Vec::new(),
            groups: String::new(),
            provenance_positions: Vec::new(),
            provenance_normals: Vec::new(),
            provenance: String::new(),
            viewport: String::new(),
            triangle_count: 0,
            vertex_count: 0,
            volume: 0,
            area: 0,
            is_2d: false,
        };
        assert(r@.soup.0 =~= Seq::empty());
        assert(r@.soup.1 =~= Seq::empty());
        assert(r@.preview.0 =~= Seq::empty());
        assert(r@.preview.1 =~= Seq::empty());
        assert(r@.provenance.0 =~= Seq::empty());
        assert(r@.provenance.1 =~= Seq::empty());
        r
    }
}

/// The render of a source that does not parse.
pub fn render_parse_failed(message: &str, span: Span) -> (r: Render)
    ensures
        r@ == failed_render(
            "parse error: "@ + message@,
            Seq::empty(),
            Seq::empty(),
            diagnostics_text(
                Some(
                    diagnosed(
                        "error"@,
                        (NoteView { message: "parse error: "@ + message@, span: Some(span) }),
                    ),
                ),
                Seq::empty(),
            ),
        ),
{
    let text = concat2("parse error: ", message);
    let diagnostic = parse_error_diagnostic(text.clone(), span);
    let none: Vec<Warning> = Vec::new();
    let diagnostics = diagnostics_json(Some(&diagnostic), &none);
    assert(notes(none@) =~= Seq::empty());
    Render::from_error(text, String::new(), String::new(), diagnostics)
}

/// The render of a program whose evaluation fails.
pub fn render_eval_failed(err: &EvalError) -> (r: Render)
    ensures
        r@ == failed_render(
            "evaluation error: "@ + err@.message,
            Seq::empty(),
            Seq::empty(),
            diagnostics_text(Some(diagnosed("error"@, err@)), Seq::empty()),
        ),
{
    let diagnostic = eval_error_diagnostic(err);
    let none: Vec<Warning> = Vec::new();
    let diagnostics = diagnostics_json(Some(&diagnostic), &none);
    assert(notes(none@) =~= Seq::empty());
    Render::from_error(
        concat2("evaluation error: ", err.message.as_str()),
        String::new(),
        String::new(),
        diagnostics,
    )
}

/// A rendered mesh as the pipeline reads it: its soup, its size and measures.
pub struct RenderedMesh {
    pub soup: Channel,
    pub triangle_count: usize,
    pub vertex_count: usize,
    pub volume: u64,
    pub surface_area: u64,
}

/// Which channels a rendered mesh calls for: the preview channel where the
/// model uses display attributes, the provenance channel where the mesh has
/// triangles.
pub fn render_channels(display_attrs: bool, triangle_count: usize) -> (r: (bool, bool))
    ensures
        r.0 == display_attrs,
        r.1 == (triangle_count > 0),
{
    (display_attrs, triangle_count > 0)
}

/// What a finished render reports.
pub open spec fn finished_render(
    source: Seq<char>,
    eval: EvalSummary,
    outcome: Result<RenderedMesh, String>,
    geometry: RenderDiagnostics,
    display_attrs: bool,
    preview: Option<Channel>,
    provenance: Option<Channel>,
) -> RenderView {
    let console = console(source, eval);
    match outcome {
        Err(e) => failed_render(
            "geometry error: "@ + e@,
            console.echo,
            console.warnings,
            diagnostics_text(
                Some(
                    diagnosed(
                        "error"@,
                        NoteView { message: "geometry error: "@ + e@, span: None },
                    ),
                ),
                notes(eval.warnings@),
            ),
        ),
        Ok(mesh) => RenderView {
            soup: (mesh.soup.positions@, mesh.soup.normals@),
            echo: console.echo,
            warnings: folded(console.warnings, texts(geometry.warnings@), 0),
            error: None,
            geom_errors: joined(texts(geometry.errors@), "\n"@),
            diagnostics: diagnostics_text(None, notes(eval.warnings@)),
            preview: channel_view(display_attrs, preview),
            provenance: channel_view(mesh.triangle_count > 0, provenance),
            viewport: console.viewport,
            triangle_count: mesh.triangle_count as u32,
            vertex_count: mesh.vertex_count as u32,
            volume: mesh.volume,
            area: mesh.surface_area,
            is_2d: eval.is_2d,
        },
    }
}

/// A channel that is wanted and was rendered; else nothing.
pub open spec fn channel_view(wanted: bool, c: Option<Channel>) -> (Seq<u32>, Seq<u32>, Seq<char>) {
    match c {
        Some(c) => if wanted {
            (c.positions@, c.normals@, c.groups@)
        } else {
            (Seq::empty(), Seq::empty(), Seq::empty())
        },
        None => (Seq::empty(), Seq::empty(), Seq::empty()),
    }
}

fn wanted_channel(wanted: bool, c: Option<Channel>) -> (r: Channel)
    ensures
        (r.positions@, r.normals@, r.groups@) == channel_view(wanted, c),
{
    match c {
        Some(c) => if wanted {
            c
        } else {
            let r = Channel::none();
            assert(r.positions@ =~= Seq::empty());
            assert(r.normals@ =~= Seq::empty());
            assert(r.groups@ =~= Seq::empty());
            r
        },
        None => {
            let r = Channel::none();
            assert(r.positions@ =~= Seq::empty());
            assert(r.normals@ =~= Seq::empty());
            assert(r.groups@ =~= Seq::empty());
            r
        },
    }
}

/// Assembles the report of a preview render. A channel that failed to render is
/// left empty; a failed mesh is an error.
pub fn render_finish(
    request: &Request,
    eval: &EvalSummary,
    outcome: Result<RenderedMesh, String>,
    geometry: &RenderDiagnostics,
    display_attrs: bool,
    preview: Option<Channel>,
    provenance: Option<Channel>,
) -> (r: Render)
    ensures
        r@ == finished_render(
            request@.source,
            *eval,
            outcome,
            *geometry,
            display_attrs,
            preview,
            provenance,
        ),
{
    let echo = join(&eval.echoes, "\n");
    let warnings = warning_lines(&eval.warnings);
    match outcome {
        Err(e) => {
            let message = concat2("geometry error: ", e.as_str());
            let diagnostic = eval_error_diagnostic(&EvalError::new(message.clone()));
            Render::from_error(
                message,
                echo,
                warnings,
                diagnostics_json(Some(&diagnostic), &eval.warnings),
            )
        },
        Ok(mesh) => {
            let warnings = fold_warnings(warnings, &geometry.warnings);
            let preview = wanted_channel(display_attrs, preview);
            let provenance = wanted_channel(mesh.triangle_count > 0, provenance);
            Render {
                positions: mesh.soup.positions,
                normals: mesh.soup.normals,
                echo,
                warnings,
                error: None,
                geom_errors: join(&geometry.errors, "\n"),
                diagnostics: diagnostics_json(None, &eval.warnings),
                preview_positions: preview.positions,
                preview_normals: preview.normals,
                groups: preview.groups,
                provenance_positions: provenance.positions,
                provenance_normals: provenance.normals,
                provenance: provenance.groups,
                viewport: viewport_channel(request.source.as_str(), &eval.viewport),
                triangle_count: mesh.triangle_count as u32,
                vertex_count: mesh.vertex_count as u32,
                volume: mesh.volume,
                area: mesh.surface_area,
                is_2d: eval.is_2d,
            }
        },
    }
}

/// A structured render is reused exactly by requests with the same inputs in
/// any order and the same preview semantics, whatever the structured format and
/// the serialization options. The values that one parameter is given are the
/// same only in the same order.
pub proof fn law_structured_render_reused(
    a: crate::request::RequestView,
    b: crate::request::RequestView,
    ka: crate::request::KeyView,
    kb: crate::request::KeyView,
    pa: bool,
    pb: bool,
)
    requires
        identifies(ka, a, pa),
        identifies(kb, b, pb),
    ensures
        ka == kb <==> {
            &&& pa == pb
            &&& a.source == b.source
            &&& give_the_same(a.params, b.params)
            &&& a.files.to_multiset() =~= b.files.to_multiset()
            &&& a.binary_files.to_multiset() =~= b.binary_files.to_multiset()
            &&& a.font_files.to_multiset() =~= b.font_files.to_multiset()
        },
{
    if ka == kb {
        crate::request::law_key_separates(a, b, ka, pa, pb);
    }
    if pa == pb && a.source == b.source && give_the_same(a.params, b.params)
        && a.files.to_multiset() =~= b.files.to_multiset() && a.binary_files.to_multiset()
        =~= b.binary_files.to_multiset() && a.font_files.to_multiset() =~= b.font_files.to_multiset() {
        crate::request::law_key_ignores_order(a, b, ka, kb, pa);
    }
}

// ---- drawings ----------------------------------------------------------------------------------

/// The file formats of a flat model.
#[derive(Clone, Copy, Debug, PartialEq, Eq, Structural)]
pub enum DrawingFormat {
    Dxf,
    Svg,
}

/// The drawing format that a name stands for.
pub open spec fn drawing_named(name: Seq<char>) -> Option<DrawingFormat> {
    if name == "dxf"@ {
        Some(DrawingFormat::Dxf)
    } else if name == "svg"@ {
        Some(DrawingFormat::Svg)
    } else {
        None
    }
}

/// Which drawing is to be written: none where the source cannot be evaluated, the
/// model is not flat, or the format is unknown. `flat` says of an evaluated model
/// whether it is flat.
pub fn export_2d_start(flat: Option<bool>, format: &str) -> (r: Option<DrawingFormat>)
    ensures
        r == if flat == Some(true) {
            drawing_named(format@)
        } else {
            None
        },
{
    match flat {
        Some(true) => if same_text(format, "dxf") {
            Some(DrawingFormat::Dxf)
        } else if same_text(format, "svg") {
            Some(DrawingFormat::Svg)
        } else {
            None
        },
        _ => None,
    }
}

/// The text of a drawing, or an empty one where none was to be written or its
/// outlines could not be made.
pub fn export_2d_finish(wanted: Option<DrawingFormat>, written: Result<String, String>) -> (r: String)
    ensures
        r@ == match (wanted, written) {
            (Some(_), Ok(text)) => text@,
            _ => Seq::<char>::empty(),
        },
{
    match (wanted, written) {
        (Some(_), Ok(text)) => text,
        _ => String::new(),
    }
}

} // verus!
