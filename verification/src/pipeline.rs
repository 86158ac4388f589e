//! The decisions of the request pipeline: parse, evaluate, render, serialize.
//!
//! The host performs each stage and hands its outcome back; what is asked for
//! next, and what a finished request reports, is decided here.

use crate::blob::texts;
use crate::cache::{GeomCache, NodeView};
use crate::diag::{notes, NoteView, Warning};
use crate::request::{KeyView, StructuredCacheKey};
use crate::text::{contains, holds_text, join, joined, same_bytes, same_text};
use vstd::prelude::*;

verus! {

/// Bound on cached subtrees; past this the cache is reset to cap memory.
pub const CACHE_CAP: usize = 8192;

/// The 3D file formats.
#[derive(Clone, Copy, Debug, PartialEq, Eq, Structural)]
pub enum ExportFormat3D {
    Stl,
    Off,
    Obj,
    ThreeMf,
    Amf,
    Glb,
}

/// Which axis points up in an exported scene.
#[derive(Clone, Copy, Debug, PartialEq, Eq, Structural)]
pub enum CoordinateSystem {
    YUp,
    ZUp,
}

/// The format that a name stands for.
pub open spec fn format_named(name: Seq<char>) -> Option<ExportFormat3D> {
    if name == "stl"@ {
        Some(ExportFormat3D::Stl)
    } else if name == "off"@ {
        Some(ExportFormat3D::Off)
    } else if name == "obj"@ {
        Some(ExportFormat3D::Obj)
    } else if name == "3mf"@ {
        Some(ExportFormat3D::ThreeMf)
    } else if name == "amf"@ {
        Some(ExportFormat3D::Amf)
    } else if name == "glb"@ {
        Some(ExportFormat3D::Glb)
    } else {
        None
    }
}

pub fn export_format(format: &str) -> (r: Option<ExportFormat3D>)
    ensures
        r == format_named(format@),
{
    if same_text(format, "stl") {
        Some(ExportFormat3D::Stl)
    } else if same_text(format, "off") {
        Some(ExportFormat3D::Off)
    } else if same_text(format, "obj") {
        Some(ExportFormat3D::Obj)
    } else if same_text(format, "3mf") {
        Some(ExportFormat3D::ThreeMf)
    } else if same_text(format, "amf") {
        Some(ExportFormat3D::Amf)
    } else if same_text(format, "glb") {
        Some(ExportFormat3D::Glb)
    } else {
        None
    }
}

/// The coordinate system that a name stands for.
pub open spec fn system_named(name: Seq<char>) -> Option<CoordinateSystem> {
    if name == "y-up"@ {
        Some(CoordinateSystem::YUp)
    } else if name == "z-up"@ {
        Some(CoordinateSystem::ZUp)
    } else {
        None
    }
}

/// Formats that keep parts, colors and names.
pub open spec fn structured(format: ExportFormat3D) -> bool {
    format == ExportFormat3D::Glb || format == ExportFormat3D::ThreeMf
}

/// Serialization options.
#[derive(Debug)]
pub struct ExportOptions {
    /// `stl`, `off`, `obj`, `3mf`, `amf` or `glb`.
    pub format: String,
    pub include_edges: bool,
    /// The bits of the scale factor.
    pub source_unit_to_meters: u64,
    /// `y-up` or `z-up`.
    pub coordinate_system: String,
    /// Preview semantics rather than export.
    pub preview: bool,
}

/// The bits of one thousandth.
pub const MILLI: u64 = 0x3f50_624d_d2f1_a9fc;

impl Default for ExportOptions {
    fn default() -> (r: Self)
        ensures
            r.format@ == "glb"@,
            !r.include_edges,
            r.source_unit_to_meters == MILLI,
            r.coordinate_system@ == "y-up"@,
            !r.preview,
    {
        ExportOptions {
            format: "glb".to_owned(),
            include_edges: false,
            source_unit_to_meters: MILLI,
            coordinate_system: "y-up".to_owned(),
            preview: false,
        }
    }
}

/// Warnings and recoverable errors of a geometry render.
#[derive(Debug)]
pub struct RenderDiagnostics {
    pub warnings: Vec<String>,
    pub errors: Vec<String>,
}

impl Default for RenderDiagnostics {
    fn default() -> (r: Self)
        ensures
            r.warnings@.len() == 0,
            r.errors@.len() == 0,
    {
        RenderDiagnostics { warnings: Vec::new(), errors: Vec::new() }
    }
}

/// One owned 3D artifact and the metadata that hosts report. Volume and area
/// are the bits of their doubles.
#[derive(Debug)]
pub struct Artifact3d {
    pub bytes: Vec<u8>,
    pub format: String,
    pub echo: String,
    pub warnings: String,
    pub error: Option<String>,
    pub geom_errors: String,
    pub diagnostics: String,
    pub viewport: String,
    pub triangle_count: u32,
    pub vertex_count: u32,
    pub volume: u64,
    pub area: u64,
    pub is_2d: bool,
}

/// What an artifact reports.
pub struct ArtifactView {
    pub bytes: Seq<u8>,
    pub format: Seq<char>,
    pub echo: Seq<char>,
    pub warnings: Seq<char>,
    pub error: Option<Seq<char>>,
    pub geom_errors: Seq<char>,
    pub diagnostics: Seq<char>,
    pub viewport: Seq<char>,
    pub triangle_count: u32,
    pub vertex_count: u32,
    pub volume: u64,
    pub area: u64,
    pub is_2d: bool,
}

/// The contents of an optional string.
pub open spec fn maybe_text(s: Option<String>) -> Option<Seq<char>> {
    match s {
        Some(t) => Some(t@),
        None => None,
    }
}

impl View for Artifact3d {
    type V = ArtifactView;

    open spec fn view(&self) -> ArtifactView {
        ArtifactView {
            bytes: self.bytes@,
            format: self.format@,
            echo: self.echo@,
            warnings: self.warnings@,
            error: maybe_text(self.error),
            geom_errors: self.geom_errors@,
            diagnostics: self.diagnostics@,
            viewport: self.viewport@,
            triangle_count: self.triangle_count,
            vertex_count: self.vertex_count,
            volume: self.volume,
            area: self.area,
            is_2d: self.is_2d,
        }
    }
}

/// The artifact that reports an error and holds nothing else.
pub open spec fn failed_artifact(
    format: Seq<char>,
    message: Seq<char>,
    diagnostics: Seq<char>,
) -> ArtifactView {
    ArtifactView {
        bytes: Seq::empty(),
        format,
        echo: Seq::empty(),
        warnings: Seq::empty(),
        error: Some(message),
        geom_errors: Seq::empty(),
        diagnostics,
        viewport: Seq::empty(),
        triangle_count: 0,
        vertex_count: 0,
        volume: 0,
        area: 0,
        is_2d: false,
    }
}

impl Artifact3d {
    pub fn from_error(format: &str, message: String, diagnostics: String) -> (r: Self)
        ensures
            r@ == failed_artifact(format@, message@, diagnostics@),
    {
        let r = Artifact3d {
            bytes: Vec::new(),
            format: format.to_owned(),
            echo: String::new(),
            warnings: String::new(),
            error: Some(message),
            geom_errors: String::new(),
            diagnostics,
            viewport: String::new(),
            triangle_count: 0,
            vertex_count: 0,
            volume: 0,
            area: 0,
            is_2d: false,
        };
        assert(r@.bytes =~= Seq::empty());
        r
    }
}

/// The messages of warnings.
pub open spec fn messages(v: Seq<NoteView>) -> Seq<Seq<char>> {
    v.map_values(|w: NoteView| w.message)
}

pub fn warning_lines(warnings: &Vec<Warning>) -> (r: String)
    ensures
        r@ == joined(messages(notes(warnings@)), "\n"@),
{
    let mut v: Vec<String> = Vec::new();
    for i in 0..warnings.len()
        invariant
            texts(v@) =~= messages(notes(warnings@)).take(i as int),
    {
        let ghost before = v@;
        v.push(warnings[i].message.clone());
        proof {
            assert(notes(warnings@)[i as int] == warnings@[i as int]@);
            assert(texts(v@) =~= texts(before).push(warnings@[i as int].message@));
        }
    }
    assert(texts(v@) =~= messages(notes(warnings@)));
    join(&v, "\n")
}

/// The warnings stream after the lines from the `i`-th on are added, each on a
/// line of its own unless the stream is still empty.
pub open spec fn folded(w: Seq<char>, more: Seq<Seq<char>>, i: int) -> Seq<char>
    decreases more.len() - i,
{
    if i < 0 || i >= more.len() {
        w
    } else if w.len() == 0 {
        folded(more[i], more, i + 1)
    } else {
        folded(w + "\n"@ + more[i], more, i + 1)
    }
}

pub fn fold_warnings(w: String, more: &Vec<String>) -> (r: String)
    ensures
        r@ == folded(w@, texts(more@), 0),
{
    let mut w = w;
    let ghost whole = folded(w@, texts(more@), 0);
    for i in 0..more.len()
        invariant
            whole == folded(w@, texts(more@), i as int),
    {
        assert(texts(more@)[i as int] == more@[i as int]@);
        let ghost before = w@;
        if !w.as_str().is_empty() {
            w.append("\n");
        }
        w.append(more[i].as_str());
        proof {
            if before.len() == 0 {
                assert(w@ =~= more@[i as int]@);
            }
        }
    }
    w
}

/// What an evaluation reports, as far as the pipeline reads it.
#[derive(Debug)]
pub struct EvalSummary {
    pub echoes: Vec<String>,
    pub warnings: Vec<Warning>,
    /// The viewport variables as JSON.
    pub viewport: String,
    pub is_2d: bool,
}

/// The console channels of an evaluation.
pub struct Console {
    pub echo: Seq<char>,
    pub warnings: Seq<char>,
    pub viewport: Seq<char>,
}

/// Echoes and warnings line by line; the viewport only where the source names a
/// viewport variable.
pub open spec fn console(source: Seq<char>, e: EvalSummary) -> Console {
    Console {
        echo: joined(texts(e.echoes@), "\n"@),
        warnings: joined(messages(notes(e.warnings@)), "\n"@),
        viewport: if holds_text(source, "$vp"@) {
            e.viewport@
        } else {
            Seq::empty()
        },
    }
}

pub fn viewport_channel(source: &str, viewport: &String) -> (r: String)
    ensures
        r@ == if holds_text(source@, "$vp"@) {
            viewport@
        } else {
            Seq::empty()
        },
{
    if contains(source, "$vp") {
        viewport.clone()
    } else {
        let s = String::new();
        assert(s@ =~= Seq::empty());
        s
    }
}

// ---- the session ---------------------------------------------------------------------

/// What a host keeps between requests: the geometry cache, one complete
/// structured render, the registered fonts, and counters.
pub struct Session<S> {
    pub cache: GeomCache,
    pub structured: Option<(StructuredCacheKey, S, RenderDiagnostics)>,
    pub structured_renders: usize,
    pub fonts: Vec<Vec<u8>>,
    pub profile: String,
}

impl<S> Session<S> {
    /// The key of the structured render that is kept.
    pub open spec fn kept_key(&self) -> Option<KeyView> {
        match self.structured {
            Some((k, _, _)) => Some(k@),
            None => None,
        }
    }

    /// The structured render that is kept.
    pub open spec fn kept(&self) -> Option<(S, RenderDiagnostics)> {
        match self.structured {
            Some((_, s, d)) => Some((s, d)),
            None => None,
        }
    }

    /// How many structured renders were kept since the last reset.
    pub open spec fn renders(&self) -> usize {
        self.structured_renders
    }

    /// The registered fonts.
    pub open spec fn registered(&self) -> Seq<Seq<u8>> {
        crate::request::byte_views(self.fonts@)
    }

    /// The last profile.
    pub open spec fn last_profile(&self) -> Seq<char> {
        self.profile@
    }

    pub open spec fn wf(&self) -> bool {
        self.cache.wf()
    }

    /// A session that has seen nothing.
    pub fn new() -> (r: Self)
        ensures
            r.wf(),
            r.cache@.nodes =~= Map::<u64, NodeView>::empty(),
            r.kept_key() is None,
            r.kept() is None,
            r.renders() == 0,
            r.registered() =~= Seq::empty(),
            r.last_profile() =~= Seq::empty(),
    {
        Session {
            cache: GeomCache::new(),
            structured: None,
            structured_renders: 0,
            fonts: Vec::new(),
            profile: String::new(),
        }
    }

    /// Resets the geometry cache where it has grown past its bound.
    pub fn make_room(&mut self)
        requires
            old(self).wf(),
        ensures
            final(self).wf(),
            old(self).cache@.nodes.len() <= CACHE_CAP ==> final(self).cache@ == old(self).cache@,
            old(self).cache@.nodes.len() > CACHE_CAP ==> final(self).cache@.nodes =~= Map::<
                u64,
                NodeView,
            >::empty(),
            final(self).kept_key() == old(self).kept_key(),
            final(self).kept() == old(self).kept(),
            final(self).renders() == old(self).renders(),
            final(self).registered() == old(self).registered(),
            final(self).last_profile() == old(self).last_profile(),
    {
        if self.cache.len() > CACHE_CAP {
            self.cache.clear();
        }
    }

    /// Whether the kept structured render is the one of this key.
    pub fn has_structured(&self, key: &StructuredCacheKey) -> (r: bool)
        ensures
            r == (self.kept_key() == Some(key@)),
    {
        match &self.structured {
            Some((k, _, _)) => k.same(key),
            None => false,
        }
    }

    /// Keeps a structured render under its key, in place of any other, and
    /// counts it.
    pub fn keep_structured(&mut self, key: StructuredCacheKey, value: S, diagnostics: RenderDiagnostics)
        requires
            old(self).wf(),
            old(self).renders() < usize::MAX,
        ensures
            final(self).wf(),
            final(self).cache@ == old(self).cache@,
            final(self).kept_key() == Some(key@),
            final(self).kept() == Some((value, diagnostics)),
            final(self).renders() == old(self).renders() + 1,
            final(self).registered() == old(self).registered(),
            final(self).last_profile() == old(self).last_profile(),
    {
        self.structured = Some((key, value, diagnostics));
        self.structured_renders = self.structured_renders + 1;
    }

    /// The kept structured render.
    pub fn kept_structured(&self) -> (r: Option<(&S, &RenderDiagnostics)>)
        ensures
            match r {
                Some((s, d)) => self.kept() == Some((*s, *d)),
                None => self.kept() is None,
            },
    {
        match &self.structured {
            Some((_, s, d)) => Some((s, d)),
            None => None,
        }
    }

    /// Keeps the profile of the last request.
    pub fn store_benchmark_profile(&mut self, profile: String)
        ensures
            final(self).last_profile() == profile@,
            final(self).cache == old(self).cache,
            final(self).kept_key() == old(self).kept_key(),
            final(self).kept() == old(self).kept(),
            final(self).renders() == old(self).renders(),
            final(self).registered() == old(self).registered(),
    {
        self.profile = profile;
    }
}

/// The engine version.
pub fn version() -> (r: String)
    ensures
        r@ == "0.1.0"@,
{
    "0.1.0".to_owned()
}

/// Drops the geometry cache and the kept structured render.
pub fn clear_cache<S>(session: &mut Session<S>)
    requires
        old(session).wf(),
    ensures
        final(session).wf(),
        final(session).cache@.nodes =~= Map::<u64, NodeView>::empty(),
        final(session).kept_key() is None,
        final(session).kept() is None,
        final(session).renders() == old(session).renders(),
        final(session).registered() == old(session).registered(),
        final(session).last_profile() == old(session).last_profile(),
{
    session.cache.clear();
    session.structured = None;
}

/// Number of structured renders that missed the cache since the last reset.
pub fn structured_render_count<S>(session: &Session<S>) -> (r: usize)
    ensures
        r == session.renders(),
{
    session.structured_renders
}

/// Starts counting structured renders anew.
pub fn reset_structured_render_count<S>(session: &mut Session<S>)
    ensures
        final(session).renders() == 0,
        final(session).cache == old(session).cache,
        final(session).kept_key() == old(session).kept_key(),
        final(session).kept() == old(session).kept(),
        final(session).registered() == old(session).registered(),
        final(session).last_profile() == old(session).last_profile(),
{
    session.structured_renders = 0;
}

/// The registered fonts after the files from the `i`-th on are added, each once.
pub open spec fn with_fonts(have: Seq<Seq<u8>>, fonts: Seq<Seq<u8>>, i: int) -> Seq<Seq<u8>>
    decreases fonts.len() - i,
{
    if i < 0 || i >= fonts.len() {
        have
    } else if have.contains(fonts[i]) {
        with_fonts(have, fonts, i + 1)
    } else {
        with_fonts(have.push(fonts[i]), fonts, i + 1)
    }
}

/// Registers font files. A file that is registered already is not added again,
/// so sending a model's fonts with every request is cheap.
pub fn register_font_files<S>(session: &mut Session<S>, fonts: &Vec<Vec<u8>>)
    requires
        old(session).wf(),
    ensures
        final(session).wf(),
        final(session).registered() == with_fonts(
            old(session).registered(),
            crate::request::byte_views(fonts@),
            0,
        ),
        final(session).cache == old(session).cache,
        final(session).kept_key() == old(session).kept_key(),
        final(session).kept() == old(session).kept(),
        final(session).renders() == old(session).renders(),
        final(session).last_profile() == old(session).last_profile(),
{
    let ghost views = crate::request::byte_views(fonts@);
    let ghost whole = with_fonts(session.registered(), views, 0);
    for i in 0..fonts.len()
        invariant
            session.wf(),
            views == crate::request::byte_views(fonts@),
            whole == with_fonts(session.registered(), views, i as int),
            session.cache == old(session).cache,
            session.kept_key() == old(session).kept_key(),
            session.kept() == old(session).kept(),
            session.renders() == old(session).renders(),
            session.last_profile() == old(session).last_profile(),
    {
        let ghost have = session.registered();
        assert(views[i as int] == fonts@[i as int]@);
        let mut known: bool = false;
        for j in 0..session.fonts.len()
            invariant
                i < fonts@.len(),
                known == exists|k: int|
                    0 <= k < j && (#[trigger] session.fonts@[k])@ == fonts@[i as int]@,
        {
            if same_bytes(&session.fonts[j], &fonts[i]) {
                known = true;
            }
        }
        proof {
            if known {
                let k = choose|k: int|
                    0 <= k < session.fonts@.len() && (#[trigger] session.fonts@[k])@ == fonts@[i as int]@;
                assert(have[k] == views[i as int]);
            } else if have.contains(views[i as int]) {
                let k = choose|k: int| 0 <= k < have.len() && have[k] == views[i as int];
                assert(session.fonts@[k]@ == fonts@[i as int]@);
            }
        }
        if !known {
            let ghost before = session.fonts@;
            session.fonts.push(crate::text::copy_bytes(&fonts[i]));
            assert(session.registered() =~= have.push(views[i as int]));
        }
    }
}

/// Hands the last profile out and forgets it.
pub fn take_last_benchmark_profile<S>(session: &mut Session<S>) -> (r: String)
    ensures
        r@ == old(session).last_profile(),
        final(session).last_profile() =~= Seq::empty(),
        final(session).cache == old(session).cache,
        final(session).kept_key() == old(session).kept_key(),
        final(session).kept() == old(session).kept(),
        final(session).renders() == old(session).renders(),
        final(session).registered() == old(session).registered(),
{
    let r = session.profile.clone();
    session.profile = String::new();
    r
}

} // verus!
