//! The interchange format of cache entries: a versioned little-endian blob.
//!
//! A blob is a header (magic, format version, hash algorithm, engine version,
//! kernel id, epoch, entry count) followed by its entries. Reading checks the
//! header first and never yields part of a damaged blob.

use crate::mesh::{Mesh, MeshView, Point3, Triangle};
use crate::resources::{show_text, shown_text};
use crate::text::{decimal, decimal_text, same_text};
use vstd::bytes::{
    spec_u16_from_le_bytes, spec_u16_to_le_bytes, spec_u32_from_le_bytes, spec_u32_to_le_bytes,
    spec_u64_from_le_bytes, spec_u64_to_le_bytes, u16_from_le_bytes, u16_to_le_bytes,
    u32_from_le_bytes, u32_to_le_bytes, u64_from_le_bytes, u64_to_le_bytes,
};
use vstd::prelude::*;
use vstd::slice::slice_subrange;
use vstd::utf8::{decode_utf8, encode_utf8, valid_utf8};

verus! {

/// Bump when the blob layout changes.
pub const CACHE_FORMAT_VERSION: u32 = 1;

/// Identifies the structural-hash algorithm, so that blobs keyed by another one
/// are refused.
pub const HASH_ALGO: &'static str = "sip13-le-v1";

/// What a blob is valid for. Two engines with different envelopes never
/// exchange entries.
#[derive(Debug)]
pub struct CacheEnvelope {
    /// The engine version that rendered the meshes.
    pub engine_version: String,
    /// The id of the kernel that rendered the meshes.
    pub kernel_id: String,
}

/// Why a blob is refused.
#[derive(Debug)]
pub enum CacheImportError {
    /// The blob does not start with the magic.
    BadMagic,
    /// The blob has another format version.
    Format(u32),
    /// A header field differs from what this engine is.
    Envelope { field: &'static str, blob: String, engine: String },
    /// The blob ends too early.
    Truncated,
}

/// What the refusal of a blob says.
pub open spec fn refusal_text(r: Refusal) -> Seq<char> {
    match r {
        Refusal::BadMagic => "not an OpenRSCAD cache blob"@,
        Refusal::Format(v) => "unsupported cache blob format "@ + decimal_text(v as nat)
            + " (this engine reads "@ + decimal_text(CACHE_FORMAT_VERSION as nat) + ")"@,
        Refusal::Envelope { field, blob, engine } => "cache blob "@ + field + " is "@ + shown_text(
            blob,
        ) + "; this engine is "@ + shown_text(engine),
        Refusal::Truncated => "truncated cache blob"@,
    }
}

impl CacheImportError {
    /// What the refusal says.
    pub fn message(&self) -> (r: String)
        ensures
            r@ == refusal_text(self@),
    {
        match self {
            CacheImportError::BadMagic => "not an OpenRSCAD cache blob".to_owned(),
            CacheImportError::Format(v) => {
                let mut s = "unsupported cache blob format ".to_owned();
                s.append(decimal(*v as u64).as_str());
                s.append(" (this engine reads ");
                s.append(decimal(CACHE_FORMAT_VERSION as u64).as_str());
                s.append(")");
                s
            },
            CacheImportError::Envelope { field, blob, engine } => {
                let mut s = "cache blob ".to_owned();
                s.append(*field);
                s.append(" is ");
                s.append(show_text(blob.as_str()).as_str());
                s.append("; this engine is ");
                s.append(show_text(engine.as_str()).as_str());
                s
            },
            CacheImportError::Truncated => "truncated cache blob".to_owned(),
        }
    }
}

/// One entry of a blob.
pub struct Entry {
    pub key: u64,
    pub mesh: Mesh,
    pub warnings: Vec<String>,
    pub errors: Vec<String>,
}

/// What an entry holds.
pub struct EntryView {
    pub key: u64,
    pub mesh: MeshView,
    pub warnings: Seq<Seq<char>>,
    pub errors: Seq<Seq<char>>,
}

/// The contents of a list of strings.
pub open spec fn texts(v: Seq<String>) -> Seq<Seq<char>> {
    v.map_values(|s: String| s@)
}

impl View for Entry {
    type V = EntryView;

    open spec fn view(&self) -> EntryView {
        EntryView {
            key: self.key,
            mesh: self.mesh@,
            warnings: texts(self.warnings@),
            errors: texts(self.errors@),
        }
    }
}

/// Why a blob is refused, over the contents of the strings.
pub enum Refusal {
    BadMagic,
    Format(u32),
    Envelope { field: Seq<char>, blob: Seq<char>, engine: Seq<char> },
    Truncated,
}

impl View for CacheImportError {
    type V = Refusal;

    open spec fn view(&self) -> Refusal {
        match *self {
            CacheImportError::BadMagic => Refusal::BadMagic,
            CacheImportError::Format(v) => Refusal::Format(v),
            CacheImportError::Envelope { field, blob, engine } => Refusal::Envelope {
                field: field@,
                blob: blob@,
                engine: engine@,
            },
            CacheImportError::Truncated => Refusal::Truncated,
        }
    }
}

// ---- writing --------------------------------------------------------------

/// A string with its length in two bytes.
pub open spec fn text16_bytes(s: Seq<char>) -> Seq<u8> {
    spec_u16_to_le_bytes(encode_utf8(s).len() as u16) + encode_utf8(s)
}

/// A string with its length in four bytes.
pub open spec fn text32_bytes(s: Seq<char>) -> Seq<u8> {
    spec_u32_to_le_bytes(encode_utf8(s).len() as u32) + encode_utf8(s)
}

pub open spec fn point_bytes(p: Point3) -> Seq<u8> {
    spec_u64_to_le_bytes(p.x) + (spec_u64_to_le_bytes(p.y) + spec_u64_to_le_bytes(p.z))
}

pub open spec fn triangle_bytes(t: Triangle) -> Seq<u8> {
    spec_u32_to_le_bytes(t.a) + (spec_u32_to_le_bytes(t.b) + spec_u32_to_le_bytes(t.c))
}

/// The points from the `i`-th on.
pub open spec fn points_bytes(s: Seq<Point3>, i: int) -> Seq<u8>
    decreases s.len() - i,
{
    if i < 0 || i >= s.len() {
        Seq::empty()
    } else {
        point_bytes(s[i]) + points_bytes(s, i + 1)
    }
}

/// The triangles from the `i`-th on.
pub open spec fn triangles_bytes(s: Seq<Triangle>, i: int) -> Seq<u8>
    decreases s.len() - i,
{
    if i < 0 || i >= s.len() {
        Seq::empty()
    } else {
        triangle_bytes(s[i]) + triangles_bytes(s, i + 1)
    }
}

/// The strings from the `i`-th on.
pub open spec fn texts_bytes(s: Seq<Seq<char>>, i: int) -> Seq<u8>
    decreases s.len() - i,
{
    if i < 0 || i >= s.len() {
        Seq::empty()
    } else {
        text32_bytes(s[i]) + texts_bytes(s, i + 1)
    }
}

/// The key and the four counts of an entry.
pub open spec fn entry_head_bytes(e: EntryView) -> Seq<u8> {
    spec_u64_to_le_bytes(e.key) + (spec_u32_to_le_bytes(e.mesh.verts.len() as u32) + (
    spec_u32_to_le_bytes(e.mesh.tris.len() as u32) + (spec_u32_to_le_bytes(e.warnings.len() as u32)
        + spec_u32_to_le_bytes(e.errors.len() as u32))))
}

pub open spec fn entry_bytes(e: EntryView) -> Seq<u8> {
    entry_head_bytes(e) + (points_bytes(e.mesh.verts, 0) + (triangles_bytes(e.mesh.tris, 0) + (
    texts_bytes(e.warnings, 0) + texts_bytes(e.errors, 0))))
}

/// The entries from the `i`-th on.
pub open spec fn entries_bytes(s: Seq<EntryView>, i: int) -> Seq<u8>
    decreases s.len() - i,
{
    if i < 0 || i >= s.len() {
        Seq::empty()
    } else {
        entry_bytes(s[i]) + entries_bytes(s, i + 1)
    }
}

/// The four bytes every blob starts with.
pub open spec fn magic() -> Seq<u8> {
    seq![79u8, 82u8, 83u8, 67u8]
}

/// A whole blob.
pub open spec fn blob_bytes(
    engine: Seq<char>,
    kernel: Seq<char>,
    epoch: u64,
    entries: Seq<EntryView>,
) -> Seq<u8> {
    magic() + (spec_u32_to_le_bytes(CACHE_FORMAT_VERSION) + (text16_bytes(HASH_ALGO@) + (
    text16_bytes(engine) + (text16_bytes(kernel) + (spec_u64_to_le_bytes(epoch) + (
    spec_u32_to_le_bytes(entries.len() as u32) + entries_bytes(entries, 0)))))))
}

// ---- reading --------------------------------------------------------------

/// What lossy decoding makes of bytes that are not valid UTF-8.
pub uninterp spec fn utf8_repaired(bytes: Seq<u8>) -> Seq<char>;

/// The characters of valid UTF-8, and the repaired text of anything else.
pub open spec fn utf8_lossy(bytes: Seq<u8>) -> Seq<char> {
    if valid_utf8(bytes) {
        decode_utf8(bytes)
    } else {
        utf8_repaired(bytes)
    }
}

/// `String::from_utf8_lossy` of std: valid UTF-8 gives its characters, and
/// anything else a text that depends on the bytes alone (std replaces each
/// malformed part by U+FFFD; how it delimits those parts is not stated).
#[verifier::external_body]
fn lossy_text(bytes: &[u8]) -> (r: String)
    ensures
        valid_utf8(bytes@) ==> r@ == decode_utf8(bytes@),
        !valid_utf8(bytes@) ==> r@ == utf8_repaired(bytes@),
{
    String::from_utf8_lossy(bytes).into_owned()
}

/// A parse result: the value and what follows it, or nothing where the bytes
/// end too early.
pub type Parsed<T> = Option<(T, Seq<u8>)>;

pub open spec fn parse_bytes(n: nat, b: Seq<u8>) -> Parsed<Seq<u8>> {
    if n <= b.len() {
        Some((b.take(n as int), b.skip(n as int)))
    } else {
        None
    }
}

pub open spec fn parse_u16(b: Seq<u8>) -> Parsed<u16> {
    if 2 <= b.len() {
        Some((spec_u16_from_le_bytes(b.take(2)), b.skip(2)))
    } else {
        None
    }
}

pub open spec fn parse_u32(b: Seq<u8>) -> Parsed<u32> {
    if 4 <= b.len() {
        Some((spec_u32_from_le_bytes(b.take(4)), b.skip(4)))
    } else {
        None
    }
}

pub open spec fn parse_u64(b: Seq<u8>) -> Parsed<u64> {
    if 8 <= b.len() {
        Some((spec_u64_from_le_bytes(b.take(8)), b.skip(8)))
    } else {
        None
    }
}

pub open spec fn parse_text16(b: Seq<u8>) -> Parsed<Seq<char>> {
    match parse_u16(b) {
        None => None,
        Some((n, rest)) => match parse_bytes(n as nat, rest) {
            None => None,
            Some((s, rest)) => Some((utf8_lossy(s), rest)),
        },
    }
}

pub open spec fn parse_text32(b: Seq<u8>) -> Parsed<Seq<char>> {
    match parse_u32(b) {
        None => None,
        Some((n, rest)) => match parse_bytes(n as nat, rest) {
            None => None,
            Some((s, rest)) => Some((utf8_lossy(s), rest)),
        },
    }
}

pub open spec fn parse_point(b: Seq<u8>) -> Parsed<Point3> {
    match parse_u64(b) {
        None => None,
        Some((x, rest)) => match parse_u64(rest) {
            None => None,
            Some((y, rest)) => match parse_u64(rest) {
                None => None,
                Some((z, rest)) => Some((Point3 { x, y, z }, rest)),
            },
        },
    }
}

pub open spec fn parse_triangle(b: Seq<u8>) -> Parsed<Triangle> {
    match parse_u32(b) {
        None => None,
        Some((x, rest)) => match parse_u32(rest) {
            None => None,
            Some((y, rest)) => match parse_u32(rest) {
                None => None,
                Some((z, rest)) => Some((Triangle { a: x, b: y, c: z }, rest)),
            },
        },
    }
}

/// Puts what was read before in front of what a parse of the rest gives.
pub open spec fn after<T>(done: Seq<T>, more: Parsed<Seq<T>>) -> Parsed<Seq<T>> {
    match more {
        None => None,
        Some((s, rest)) => Some((done + s, rest)),
    }
}

pub open spec fn parse_points(n: nat, b: Seq<u8>) -> Parsed<Seq<Point3>>
    decreases n,
{
    if n == 0 {
        Some((Seq::empty(), b))
    } else {
        match parse_point(b) {
            None => None,
            Some((p, rest)) => after(seq![p], parse_points((n - 1) as nat, rest)),
        }
    }
}

pub open spec fn parse_triangles(n: nat, b: Seq<u8>) -> Parsed<Seq<Triangle>>
    decreases n,
{
    if n == 0 {
        Some((Seq::empty(), b))
    } else {
        match parse_triangle(b) {
            None => None,
            Some((p, rest)) => after(seq![p], parse_triangles((n - 1) as nat, rest)),
        }
    }
}

pub open spec fn parse_texts(n: nat, b: Seq<u8>) -> Parsed<Seq<Seq<char>>>
    decreases n,
{
    if n == 0 {
        Some((Seq::empty(), b))
    } else {
        match parse_text32(b) {
            None => None,
            Some((p, rest)) => after(seq![p], parse_texts((n - 1) as nat, rest)),
        }
    }
}

/// An entry's key and its counts of vertices, triangles, warnings and errors.
pub open spec fn parse_entry_head(b: Seq<u8>) -> Parsed<(u64, u32, u32, u32, u32)> {
    match parse_u64(b) {
        None => None,
        Some((key, rest)) => match parse_u32(rest) {
            None => None,
            Some((nverts, rest)) => match parse_u32(rest) {
                None => None,
                Some((ntris, rest)) => match parse_u32(rest) {
                    None => None,
                    Some((nwarn, rest)) => match parse_u32(rest) {
                        None => None,
                        Some((nerr, rest)) => Some(((key, nverts, ntris, nwarn, nerr), rest)),
                    },
                },
            },
        },
    }
}

pub open spec fn parse_entry(b: Seq<u8>) -> Parsed<EntryView> {
    match parse_entry_head(b) {
        None => None,
        Some(((key, nverts, ntris, nwarn, nerr), rest)) => match parse_points(nverts as nat, rest) {
            None => None,
            Some((verts, rest)) => match parse_triangles(ntris as nat, rest) {
                None => None,
                Some((tris, rest)) => match parse_texts(nwarn as nat, rest) {
                    None => None,
                    Some((warnings, rest)) => match parse_texts(nerr as nat, rest) {
                        None => None,
                        Some((errors, rest)) => Some(
                            (
                                EntryView { key, mesh: MeshView { verts, tris }, warnings, errors },
                                rest,
                            ),
                        ),
                    },
                },
            },
        },
    }
}

pub open spec fn parse_entries(n: nat, b: Seq<u8>) -> Parsed<Seq<EntryView>>
    decreases n,
{
    if n == 0 {
        Some((Seq::empty(), b))
    } else {
        match parse_entry(b) {
            None => None,
            Some((p, rest)) => after(seq![p], parse_entries((n - 1) as nat, rest)),
        }
    }
}

/// Reads one header string and compares it with what this engine is.
pub open spec fn parse_field(b: Seq<u8>, field: Seq<char>, engine: Seq<char>) -> Result<
    Seq<u8>,
    Refusal,
> {
    match parse_text16(b) {
        None => Err(Refusal::Truncated),
        Some((blob, rest)) => if blob == engine {
            Ok(rest)
        } else {
            Err(Refusal::Envelope { field, blob, engine })
        },
    }
}

/// The epoch, the count and the entries that follow the header.
pub open spec fn parse_body(b: Seq<u8>) -> Result<Seq<EntryView>, Refusal> {
    match parse_u64(b) {
        None => Err(Refusal::Truncated),
        Some((_, rest)) => match parse_u32(rest) {
            None => Err(Refusal::Truncated),
            Some((count, rest)) => match parse_entries(count as nat, rest) {
                None => Err(Refusal::Truncated),
                Some((entries, _)) => Ok(entries),
            },
        },
    }
}

/// What a blob holds for an engine with this version and kernel, or why it is
/// refused. Bytes after the last entry are ignored.
pub open spec fn parse_blob(bytes: Seq<u8>, engine: Seq<char>, kernel: Seq<char>) -> Result<
    Seq<EntryView>,
    Refusal,
> {
    match parse_bytes(4, bytes) {
        None => Err(Refusal::Truncated),
        Some((m, rest)) => if m != magic() {
            Err(Refusal::BadMagic)
        } else {
            match parse_u32(rest) {
                None => Err(Refusal::Truncated),
                Some((format, rest)) => if format != CACHE_FORMAT_VERSION {
                    Err(Refusal::Format(format))
                } else {
                    match parse_field(rest, "hash algorithm"@, HASH_ALGO@) {
                        Err(e) => Err(e),
                        Ok(rest) => match parse_field(rest, "engine version"@, engine) {
                            Err(e) => Err(e),
                            Ok(rest) => match parse_field(rest, "kernel"@, kernel) {
                                Err(e) => Err(e),
                                Ok(rest) => parse_body(rest),
                            },
                        },
                    }
                },
            }
        },
    }
}

/// A position in the bytes of a blob.
struct Reader<'a> {
    bytes: &'a [u8],
    at: usize,
}

impl<'a> Reader<'a> {
    spec fn wf(&self) -> bool {
        self.at <= self.bytes@.len()
    }

    /// What has not been read yet.
    spec fn rest(&self) -> Seq<u8> {
        self.bytes@.skip(self.at as int)
    }

    /// The next `n` bytes.
    fn take(&mut self, n: usize) -> (r: Option<&'a [u8]>)
        requires
            old(self).wf(),
        ensures
            final(self).wf(),
            match r {
                Some(s) => parse_bytes(n as nat, old(self).rest()) == Some((s@, final(self).rest())),
                None => parse_bytes(n as nat, old(self).rest()) is None && final(self).rest()
                    == old(self).rest(),
            },
    {
        if n > self.bytes.len() - self.at {
            return None;
        }
        let end: usize = self.at + n;
        let s = slice_subrange(self.bytes, self.at, end);
        proof {
            assert(self.rest().take(n as int) =~= s@);
            assert(self.rest().skip(n as int) =~= self.bytes@.skip(end as int));
        }
        self.at = end;
        Some(s)
    }

    fn u16(&mut self) -> (r: Option<u16>)
        requires
            old(self).wf(),
        ensures
            final(self).wf(),
            match r {
                Some(v) => parse_u16(old(self).rest()) == Some((v, final(self).rest())),
                None => parse_u16(old(self).rest()) is None,
            },
    {
        match self.take(2) {
            Some(s) => Some(u16_from_le_bytes(s)),
            None => None,
        }
    }

    fn u32(&mut self) -> (r: Option<u32>)
        requires
            old(self).wf(),
        ensures
            final(self).wf(),
            match r {
                Some(v) => parse_u32(old(self).rest()) == Some((v, final(self).rest())),
                None => parse_u32(old(self).rest()) is None,
            },
    {
        match self.take(4) {
            Some(s) => Some(u32_from_le_bytes(s)),
            None => None,
        }
    }

    fn u64(&mut self) -> (r: Option<u64>)
        requires
            old(self).wf(),
        ensures
            final(self).wf(),
            match r {
                Some(v) => parse_u64(old(self).rest()) == Some((v, final(self).rest())),
                None => parse_u64(old(self).rest()) is None,
            },
    {
        match self.take(8) {
            Some(s) => Some(u64_from_le_bytes(s)),
            None => None,
        }
    }

    fn str16(&mut self) -> (r: Option<String>)
        requires
            old(self).wf(),
        ensures
            final(self).wf(),
            match r {
                Some(v) => parse_text16(old(self).rest()) == Some((v@, final(self).rest())),
                None => parse_text16(old(self).rest()) is None,
            },
    {
        let n = match self.u16() {
            Some(n) => n,
            None => return None,
        };
        match self.take(n as usize) {
            Some(s) => Some(lossy_text(s)),
            None => None,
        }
    }

    fn str32(&mut self) -> (r: Option<String>)
        requires
            old(self).wf(),
        ensures
            final(self).wf(),
            match r {
                Some(v) => parse_text32(old(self).rest()) == Some((v@, final(self).rest())),
                None => parse_text32(old(self).rest()) is None,
            },
    {
        let n = match self.u32() {
            Some(n) => n,
            None => return None,
        };
        match self.take(n as usize) {
            Some(s) => Some(lossy_text(s)),
            None => None,
        }
    }

    fn point(&mut self) -> (r: Option<Point3>)
        requires
            old(self).wf(),
        ensures
            final(self).wf(),
            match r {
                Some(v) => parse_point(old(self).rest()) == Some((v, final(self).rest())),
                None => parse_point(old(self).rest()) is None,
            },
    {
        let x = match self.u64() {
            Some(v) => v,
            None => return None,
        };
        let y = match self.u64() {
            Some(v) => v,
            None => return None,
        };
        match self.u64() {
            Some(z) => Some(Point3 { x, y, z }),
            None => None,
        }
    }

    fn triangle(&mut self) -> (r: Option<Triangle>)
        requires
            old(self).wf(),
        ensures
            final(self).wf(),
            match r {
                Some(v) => parse_triangle(old(self).rest()) == Some((v, final(self).rest())),
                None => parse_triangle(old(self).rest()) is None,
            },
    {
        let a = match self.u32() {
            Some(v) => v,
            None => return None,
        };
        let b = match self.u32() {
            Some(v) => v,
            None => return None,
        };
        match self.u32() {
            Some(c) => Some(Triangle { a, b, c }),
            None => None,
        }
    }

    fn points(&mut self, n: u32) -> (r: Option<Vec<Point3>>)
        requires
            old(self).wf(),
        ensures
            final(self).wf(),
            match r {
                Some(v) => parse_points(n as nat, old(self).rest()) == Some(
                    (v@, final(self).rest()),
                ),
                None => parse_points(n as nat, old(self).rest()) is None,
            },
    {
        let mut out: Vec<Point3> = Vec::new();
        let ghost whole = parse_points(n as nat, self.rest());
        for i in 0..n
            invariant
                self.wf(),
                whole == parse_points(n as nat, old(self).rest()),
                whole == after(out@, parse_points((n - i) as nat, self.rest())),
        {
            let ghost before = self.rest();
            let ghost done = out@;
            match self.point() {
                Some(p) => {
                    out.push(p);
                    proof {
                        let more = parse_points((n - i - 1) as nat, self.rest());
                        if more is Some {
                            assert(done + (seq![p] + (more->0).0) =~= out@ + (more->0).0);
                        }
                    }
                },
                None => return None,
            }
        }
        assert(out@ + Seq::<Point3>::empty() =~= out@);
        Some(out)
    }

    fn triangles(&mut self, n: u32) -> (r: Option<Vec<Triangle>>)
        requires
            old(self).wf(),
        ensures
            final(self).wf(),
            match r {
                Some(v) => parse_triangles(n as nat, old(self).rest()) == Some(
                    (v@, final(self).rest()),
                ),
                None => parse_triangles(n as nat, old(self).rest()) is None,
            },
    {
        let mut out: Vec<Triangle> = Vec::new();
        let ghost whole = parse_triangles(n as nat, self.rest());
        for i in 0..n
            invariant
                self.wf(),
                whole == parse_triangles(n as nat, old(self).rest()),
                whole == after(out@, parse_triangles((n - i) as nat, self.rest())),
        {
            let ghost done = out@;
            match self.triangle() {
                Some(p) => {
                    out.push(p);
                    proof {
                        let more = parse_triangles((n - i - 1) as nat, self.rest());
                        if more is Some {
                            assert(done + (seq![p] + (more->0).0) =~= out@ + (more->0).0);
                        }
                    }
                },
                None => return None,
            }
        }
        assert(out@ + Seq::<Triangle>::empty() =~= out@);
        Some(out)
    }

    fn strings(&mut self, n: u32) -> (r: Option<Vec<String>>)
        requires
            old(self).wf(),
        ensures
            final(self).wf(),
            match r {
                Some(v) => parse_texts(n as nat, old(self).rest()) == Some(
                    (texts(v@), final(self).rest()),
                ),
                None => parse_texts(n as nat, old(self).rest()) is None,
            },
    {
        let mut out: Vec<String> = Vec::new();
        let ghost whole = parse_texts(n as nat, self.rest());
        assert(texts(out@) =~= Seq::empty());
        for i in 0..n
            invariant
                self.wf(),
                whole == parse_texts(n as nat, old(self).rest()),
                whole == after(texts(out@), parse_texts((n - i) as nat, self.rest())),
        {
            let ghost done = out@;
            match self.str32() {
                Some(p) => {
                    out.push(p);
                    proof {
                        let more = parse_texts((n - i - 1) as nat, self.rest());
                        assert(texts(out@) =~= texts(done).push(p@));
                        if more is Some {
                            assert(texts(done) + (seq![p@] + (more->0).0) =~= texts(out@)
                                + (more->0).0);
                        }
                    }
                },
                None => return None,
            }
        }
        assert(texts(out@) + Seq::<Seq<char>>::empty() =~= texts(out@));
        Some(out)
    }

    fn entry(&mut self) -> (r: Option<Entry>)
        requires
            old(self).wf(),
        ensures
            final(self).wf(),
            match r {
                Some(v) => parse_entry(old(self).rest()) == Some((v@, final(self).rest())),
                None => parse_entry(old(self).rest()) is None,
            },
    {
        let key = match self.u64() {
            Some(v) => v,
            None => return None,
        };
        let nverts = match self.u32() {
            Some(v) => v,
            None => return None,
        };
        let ntris = match self.u32() {
            Some(v) => v,
            None => return None,
        };
        let nwarn = match self.u32() {
            Some(v) => v,
            None => return None,
        };
        let nerr = match self.u32() {
            Some(v) => v,
            None => return None,
        };
        let verts = match self.points(nverts) {
            Some(v) => v,
            None => return None,
        };
        let tris = match self.triangles(ntris) {
            Some(v) => v,
            None => return None,
        };
        let warnings = match self.strings(nwarn) {
            Some(v) => v,
            None => return None,
        };
        let errors = match self.strings(nerr) {
            Some(v) => v,
            None => return None,
        };
        Some(Entry { key, mesh: Mesh { verts, tris }, warnings, errors })
    }

    /// Reads one header string and compares it with what this engine is.
    fn field(&mut self, field: &'static str, engine: &str) -> (r: Result<(), CacheImportError>)
        requires
            old(self).wf(),
        ensures
            final(self).wf(),
            match r {
                Ok(_) => parse_field(old(self).rest(), field@, engine@) == Ok::<Seq<u8>, Refusal>(
                    final(self).rest(),
                ),
                Err(e) => parse_field(old(self).rest(), field@, engine@) == Err::<Seq<u8>, Refusal>(
                    e@,
                ),
            },
    {
        match self.str16() {
            None => Err(CacheImportError::Truncated),
            Some(blob) => if same_text(blob.as_str(), engine) {
                Ok(())
            } else {
                Err(
                    CacheImportError::Envelope {
                        field,
                        blob,
                        engine: engine.to_owned(),
                    },
                )
            },
        }
    }
}

/// The contents of a list of entries.
pub open spec fn entry_views(v: Seq<Entry>) -> Seq<EntryView> {
    v.map_values(|e: Entry| e@)
}

/// Parses a whole blob, checking the envelope first.
pub fn decode(bytes: &[u8], envelope: &CacheEnvelope) -> (r: Result<Vec<Entry>, CacheImportError>)
    ensures
        match r {
            Ok(v) => parse_blob(bytes@, envelope.engine_version@, envelope.kernel_id@) == Ok::<
                Seq<EntryView>,
                Refusal,
            >(entry_views(v@)),
            Err(e) => parse_blob(bytes@, envelope.engine_version@, envelope.kernel_id@) == Err::<
                Seq<EntryView>,
                Refusal,
            >(e@),
        },
{
    let mut r = Reader { bytes, at: 0 };
    assert(r.rest() =~= bytes@);
    match r.take(4) {
        None => return Err(CacheImportError::Truncated),
        Some(m) => {
            let good: bool = m[0] == 79 && m[1] == 82 && m[2] == 83 && m[3] == 67;
            assert(good == (m@ =~= magic()));
            if !good {
                return Err(CacheImportError::BadMagic);
            }
        },
    }
    match r.u32() {
        None => return Err(CacheImportError::Truncated),
        Some(format) => if format != CACHE_FORMAT_VERSION {
            return Err(CacheImportError::Format(format));
        },
    }
    match r.field("hash algorithm", HASH_ALGO) {
        Ok(_) => {},
        Err(e) => return Err(e),
    }
    match r.field("engine version", envelope.engine_version.as_str()) {
        Ok(_) => {},
        Err(e) => return Err(e),
    }
    match r.field("kernel", envelope.kernel_id.as_str()) {
        Ok(_) => {},
        Err(e) => return Err(e),
    }
    match r.u64() {
        None => return Err(CacheImportError::Truncated),
        Some(_) => {},
    }
    let count = match r.u32() {
        None => return Err(CacheImportError::Truncated),
        Some(n) => n,
    };
    let mut out: Vec<Entry> = Vec::new();
    let ghost whole = parse_entries(count as nat, r.rest());
    assert(entry_views(out@) =~= Seq::empty());
    for i in 0..count
        invariant
            r.wf(),
            whole == after(entry_views(out@), parse_entries((count - i) as nat, r.rest())),
            whole is None ==> parse_blob(bytes@, envelope.engine_version@, envelope.kernel_id@)
                == Err::<Seq<EntryView>, Refusal>(Refusal::Truncated),
    {
        let ghost done = out@;
        match r.entry() {
            Some(p) => {
                out.push(p);
                proof {
                    let more = parse_entries((count - i - 1) as nat, r.rest());
                    assert(entry_views(out@) =~= entry_views(done).push(p@));
                    if more is Some {
                        assert(entry_views(done) + (seq![p@] + (more->0).0) =~= entry_views(out@)
                            + (more->0).0);
                    }
                }
            },
            None => return Err(CacheImportError::Truncated),
        }
    }
    assert(entry_views(out@) + Seq::<EntryView>::empty() =~= entry_views(out@));
    Ok(out)
}

// ---- the writer ------------------------------------------------------------

fn put_u16(out: &mut Vec<u8>, v: u16)
    ensures
        final(out)@ == old(out)@ + spec_u16_to_le_bytes(v),
{
    let mut b = u16_to_le_bytes(v);
    out.append(&mut b);
}

fn put_u32(out: &mut Vec<u8>, v: u32)
    ensures
        final(out)@ == old(out)@ + spec_u32_to_le_bytes(v),
{
    let mut b = u32_to_le_bytes(v);
    out.append(&mut b);
}

fn put_u64(out: &mut Vec<u8>, v: u64)
    ensures
        final(out)@ == old(out)@ + spec_u64_to_le_bytes(v),
{
    let mut b = u64_to_le_bytes(v);
    out.append(&mut b);
}

fn put_str16(out: &mut Vec<u8>, s: &str)
    ensures
        final(out)@ =~= old(out)@ + text16_bytes(s@),
{
    let n: usize = s.as_bytes().len();
    put_u16(out, n as u16);
    let mut b = s.as_bytes_vec();
    out.append(&mut b);
}

fn put_str32(out: &mut Vec<u8>, s: &str)
    ensures
        final(out)@ =~= old(out)@ + text32_bytes(s@),
{
    let n: usize = s.as_bytes().len();
    put_u32(out, n as u32);
    let mut b = s.as_bytes_vec();
    out.append(&mut b);
}

fn put_strings(out: &mut Vec<u8>, v: &Vec<String>)
    ensures
        final(out)@ =~= old(out)@ + texts_bytes(texts(v@), 0),
{
    let ghost whole = out@ + texts_bytes(texts(v@), 0);
    for i in 0..v.len()
        invariant
            whole =~= out@ + texts_bytes(texts(v@), i as int),
    {
        assert(texts(v@)[i as int] == v@[i as int]@);
        put_str32(out, v[i].as_str());
    }
}

/// Appends the blob header.
pub fn write_header(out: &mut Vec<u8>, envelope: &CacheEnvelope, epoch: u64, count: u32)
    ensures
        final(out)@ == old(out)@ + (magic() + (spec_u32_to_le_bytes(CACHE_FORMAT_VERSION) + (
        text16_bytes(HASH_ALGO@) + (text16_bytes(envelope.engine_version@) + (text16_bytes(
            envelope.kernel_id@,
        ) + (spec_u64_to_le_bytes(epoch) + spec_u32_to_le_bytes(count))))))),
{
    let ghost o = out@;
    let ghost c1 = spec_u32_to_le_bytes(CACHE_FORMAT_VERSION);
    let ghost c2 = text16_bytes(HASH_ALGO@);
    let ghost c3 = text16_bytes(envelope.engine_version@);
    let ghost c4 = text16_bytes(envelope.kernel_id@);
    let ghost c5 = spec_u64_to_le_bytes(epoch);
    let ghost c6 = spec_u32_to_le_bytes(count);
    out.push(79);
    out.push(82);
    out.push(83);
    out.push(67);
    assert(out@ =~= o + magic());
    put_u32(out, CACHE_FORMAT_VERSION);
    put_str16(out, HASH_ALGO);
    put_str16(out, envelope.engine_version.as_str());
    put_str16(out, envelope.kernel_id.as_str());
    put_u64(out, epoch);
    put_u32(out, count);
    proof {
        lemma_assoc(o + magic() + c1 + c2 + c3 + c4, c5, c6);
        lemma_assoc(o + magic() + c1 + c2 + c3, c4, c5 + c6);
        lemma_assoc(o + magic() + c1 + c2, c3, c4 + (c5 + c6));
        lemma_assoc(o + magic() + c1, c2, c3 + (c4 + (c5 + c6)));
        lemma_assoc(o + magic(), c1, c2 + (c3 + (c4 + (c5 + c6))));
        lemma_assoc(o, magic(), c1 + (c2 + (c3 + (c4 + (c5 + c6)))));
    }
}

fn put_points(out: &mut Vec<u8>, v: &Vec<Point3>)
    ensures
        final(out)@ =~= old(out)@ + points_bytes(v@, 0),
{
    let ghost whole = out@ + points_bytes(v@, 0);
    for i in 0..v.len()
        invariant
            whole =~= out@ + points_bytes(v@, i as int),
    {
        let p = v[i];
        put_u64(out, p.x);
        put_u64(out, p.y);
        put_u64(out, p.z);
    }
}

fn put_triangles(out: &mut Vec<u8>, v: &Vec<Triangle>)
    ensures
        final(out)@ =~= old(out)@ + triangles_bytes(v@, 0),
{
    let ghost whole = out@ + triangles_bytes(v@, 0);
    for i in 0..v.len()
        invariant
            whole =~= out@ + triangles_bytes(v@, i as int),
    {
        let t = v[i];
        put_u32(out, t.a);
        put_u32(out, t.b);
        put_u32(out, t.c);
    }
}

fn put_entry_head(out: &mut Vec<u8>, key: u64, verts: u32, tris: u32, warnings: u32, errors: u32)
    ensures
        final(out)@ == old(out)@ + (spec_u64_to_le_bytes(key) + (spec_u32_to_le_bytes(verts) + (
        spec_u32_to_le_bytes(tris) + (spec_u32_to_le_bytes(warnings) + spec_u32_to_le_bytes(
            errors,
        ))))),
{
    let ghost o = out@;
    let ghost c4 = spec_u32_to_le_bytes(errors);
    let ghost c3 = spec_u32_to_le_bytes(warnings);
    let ghost c2 = spec_u32_to_le_bytes(tris);
    let ghost c1 = spec_u32_to_le_bytes(verts);
    let ghost c0 = spec_u64_to_le_bytes(key);
    put_u64(out, key);
    put_u32(out, verts);
    put_u32(out, tris);
    put_u32(out, warnings);
    put_u32(out, errors);
    proof {
        lemma_assoc(o + c0 + c1 + c2, c3, c4);
        lemma_assoc(o + c0 + c1, c2, c3 + c4);
        lemma_assoc(o + c0, c1, c2 + (c3 + c4));
        lemma_assoc(o, c0, c1 + (c2 + (c3 + c4)));
    }
}

/// Appends one entry.
pub fn write_entry(
    out: &mut Vec<u8>,
    key: u64,
    mesh: &Mesh,
    warnings: &Vec<String>,
    errors: &Vec<String>,
)
    ensures
        final(out)@ == old(out)@ + entry_bytes(
            (EntryView { key, mesh: mesh@, warnings: texts(warnings@), errors: texts(errors@) }),
        ),
{
    let ghost o = out@;
    let ghost e = EntryView {
        key,
        mesh: mesh@,
        warnings: texts(warnings@),
        errors: texts(errors@),
    };
    let ghost h = entry_head_bytes(e);
    let ghost p1 = points_bytes(mesh.verts@, 0);
    let ghost p2 = triangles_bytes(mesh.tris@, 0);
    let ghost p3 = texts_bytes(texts(warnings@), 0);
    let ghost p4 = texts_bytes(texts(errors@), 0);
    put_entry_head(
        out,
        key,
        mesh.verts.len() as u32,
        mesh.tris.len() as u32,
        warnings.len() as u32,
        errors.len() as u32,
    );
    put_points(out, &mesh.verts);
    put_triangles(out, &mesh.tris);
    put_strings(out, warnings);
    put_strings(out, errors);
    proof {
        lemma_assoc(o + h + p1 + p2, p3, p4);
        lemma_assoc(o + h + p1, p2, p3 + p4);
        lemma_assoc(o + h, p1, p2 + (p3 + p4));
        lemma_assoc(o, h, p1 + (p2 + (p3 + p4)));
    }
}

// ---- reading back what was written -----------------------------------------

/// All counts of an entry fit their four bytes.
pub open spec fn entry_fits(e: EntryView) -> bool {
    &&& e.mesh.verts.len() <= u32::MAX
    &&& e.mesh.tris.len() <= u32::MAX
    &&& e.warnings.len() <= u32::MAX
    &&& e.errors.len() <= u32::MAX
    &&& forall|i: int|
        0 <= i < e.warnings.len() ==> encode_utf8(#[trigger] e.warnings[i]).len() <= u32::MAX
    &&& forall|i: int|
        0 <= i < e.errors.len() ==> encode_utf8(#[trigger] e.errors[i]).len() <= u32::MAX
}

proof fn lemma_split(a: Seq<u8>, b: Seq<u8>)
    ensures
        (a + b).take(a.len() as int) =~= a,
        (a + b).skip(a.len() as int) =~= b,
{
}

proof fn lemma_u16_back(v: u16, rest: Seq<u8>)
    ensures
        parse_u16(spec_u16_to_le_bytes(v) + rest) == Some((v, rest)),
{
    vstd::bytes::lemma_auto_spec_u16_to_from_le_bytes();
    lemma_split(spec_u16_to_le_bytes(v), rest);
}

proof fn lemma_u32_back(v: u32, rest: Seq<u8>)
    ensures
        parse_u32(spec_u32_to_le_bytes(v) + rest) == Some((v, rest)),
{
    vstd::bytes::lemma_auto_spec_u32_to_from_le_bytes();
    lemma_split(spec_u32_to_le_bytes(v), rest);
}

proof fn lemma_u64_back(v: u64, rest: Seq<u8>)
    ensures
        parse_u64(spec_u64_to_le_bytes(v) + rest) == Some((v, rest)),
{
    vstd::bytes::lemma_auto_spec_u64_to_from_le_bytes();
    lemma_split(spec_u64_to_le_bytes(v), rest);
}

proof fn lemma_text16_back(s: Seq<char>, rest: Seq<u8>)
    requires
        encode_utf8(s).len() <= u16::MAX,
    ensures
        parse_text16(text16_bytes(s) + rest) == Some((s, rest)),
{
    let b = encode_utf8(s);
    lemma_assoc(spec_u16_to_le_bytes(b.len() as u16), b, rest);
    lemma_u16_back(b.len() as u16, b + rest);
    lemma_split(b, rest);
    vstd::utf8::encode_utf8_valid_utf8(s);
    vstd::utf8::encode_utf8_decode_utf8(s);
}

proof fn lemma_text32_back(s: Seq<char>, rest: Seq<u8>)
    requires
        encode_utf8(s).len() <= u32::MAX,
    ensures
        parse_text32(text32_bytes(s) + rest) == Some((s, rest)),
{
    let b = encode_utf8(s);
    lemma_assoc(spec_u32_to_le_bytes(b.len() as u32), b, rest);
    lemma_u32_back(b.len() as u32, b + rest);
    lemma_split(b, rest);
    vstd::utf8::encode_utf8_valid_utf8(s);
    vstd::utf8::encode_utf8_decode_utf8(s);
}

proof fn lemma_points_back(s: Seq<Point3>, i: int, rest: Seq<u8>)
    requires
        0 <= i <= s.len(),
    ensures
        parse_points((s.len() - i) as nat, points_bytes(s, i) + rest) == Some((s.skip(i), rest)),
    decreases s.len() - i,
{
    if i == s.len() {
        assert(points_bytes(s, i) + rest =~= rest);
        assert(s.skip(i) =~= Seq::empty());
    } else {
        let p = s[i];
        let more = points_bytes(s, i + 1) + rest;
        let tail2 = spec_u64_to_le_bytes(p.z) + more;
        let tail1 = spec_u64_to_le_bytes(p.y) + tail2;
        let (x, y, z) = (
            spec_u64_to_le_bytes(p.x),
            spec_u64_to_le_bytes(p.y),
            spec_u64_to_le_bytes(p.z),
        );
        lemma_assoc(point_bytes(p), points_bytes(s, i + 1), rest);
        lemma_assoc(x, y + z, more);
        lemma_assoc(y, z, more);
        lemma_u64_back(p.x, tail1);
        lemma_u64_back(p.y, tail2);
        lemma_u64_back(p.z, more);
        lemma_points_back(s, i + 1, rest);
        assert(seq![p] + s.skip(i + 1) =~= s.skip(i));
    }
}

proof fn lemma_triangles_back(s: Seq<Triangle>, i: int, rest: Seq<u8>)
    requires
        0 <= i <= s.len(),
    ensures
        parse_triangles((s.len() - i) as nat, triangles_bytes(s, i) + rest) == Some(
            (s.skip(i), rest),
        ),
    decreases s.len() - i,
{
    if i == s.len() {
        assert(triangles_bytes(s, i) + rest =~= rest);
        assert(s.skip(i) =~= Seq::empty());
    } else {
        let p = s[i];
        let more = triangles_bytes(s, i + 1) + rest;
        let tail2 = spec_u32_to_le_bytes(p.c) + more;
        let tail1 = spec_u32_to_le_bytes(p.b) + tail2;
        let (x, y, z) = (
            spec_u32_to_le_bytes(p.a),
            spec_u32_to_le_bytes(p.b),
            spec_u32_to_le_bytes(p.c),
        );
        lemma_assoc(triangle_bytes(p), triangles_bytes(s, i + 1), rest);
        lemma_assoc(x, y + z, more);
        lemma_assoc(y, z, more);
        lemma_u32_back(p.a, tail1);
        lemma_u32_back(p.b, tail2);
        lemma_u32_back(p.c, more);
        lemma_triangles_back(s, i + 1, rest);
        assert(seq![p] + s.skip(i + 1) =~= s.skip(i));
    }
}

proof fn lemma_texts_back(s: Seq<Seq<char>>, i: int, rest: Seq<u8>)
    requires
        0 <= i <= s.len(),
        forall|k: int| 0 <= k < s.len() ==> encode_utf8(#[trigger] s[k]).len() <= u32::MAX,
    ensures
        parse_texts((s.len() - i) as nat, texts_bytes(s, i) + rest) == Some((s.skip(i), rest)),
    decreases s.len() - i,
{
    if i == s.len() {
        assert(texts_bytes(s, i) + rest =~= rest);
        assert(s.skip(i) =~= Seq::empty());
    } else {
        let more = texts_bytes(s, i + 1) + rest;
        lemma_assoc(text32_bytes(s[i]), texts_bytes(s, i + 1), rest);
        lemma_text32_back(s[i], more);
        lemma_texts_back(s, i + 1, rest);
        assert(seq![s[i]] + s.skip(i + 1) =~= s.skip(i));
    }
}

proof fn lemma_assoc(a: Seq<u8>, b: Seq<u8>, c: Seq<u8>)
    ensures
        (a + b) + c =~= a + (b + c),
{
}

proof fn lemma_entry_head_back(e: EntryView, rest: Seq<u8>)
    requires
        entry_fits(e),
    ensures
        parse_entry_head(entry_head_bytes(e) + rest) == Some(
            (
                (
                    e.key,
                    e.mesh.verts.len() as u32,
                    e.mesh.tris.len() as u32,
                    e.warnings.len() as u32,
                    e.errors.len() as u32,
                ),
                rest,
            ),
        ),
{
    let c4 = spec_u32_to_le_bytes(e.errors.len() as u32);
    let c3 = spec_u32_to_le_bytes(e.warnings.len() as u32);
    let c2 = spec_u32_to_le_bytes(e.mesh.tris.len() as u32);
    let c1 = spec_u32_to_le_bytes(e.mesh.verts.len() as u32);
    let c0 = spec_u64_to_le_bytes(e.key);
    lemma_assoc(c0, c1 + (c2 + (c3 + c4)), rest);
    lemma_assoc(c1, c2 + (c3 + c4), rest);
    lemma_assoc(c2, c3 + c4, rest);
    lemma_assoc(c3, c4, rest);
    lemma_u64_back(e.key, c1 + (c2 + (c3 + (c4 + rest))));
    lemma_u32_back(e.mesh.verts.len() as u32, c2 + (c3 + (c4 + rest)));
    lemma_u32_back(e.mesh.tris.len() as u32, c3 + (c4 + rest));
    lemma_u32_back(e.warnings.len() as u32, c4 + rest);
    lemma_u32_back(e.errors.len() as u32, rest);
}

#[verifier::rlimit(30)]
proof fn lemma_entry_back(e: EntryView, rest: Seq<u8>)
    requires
        entry_fits(e),
    ensures
        parse_entry(entry_bytes(e) + rest) == Some((e, rest)),
{
    let p4 = texts_bytes(e.errors, 0);
    let p3 = texts_bytes(e.warnings, 0);
    let p2 = triangles_bytes(e.mesh.tris, 0);
    let p1 = points_bytes(e.mesh.verts, 0);
    lemma_assoc(entry_head_bytes(e), p1 + (p2 + (p3 + p4)), rest);
    lemma_assoc(p1, p2 + (p3 + p4), rest);
    lemma_assoc(p2, p3 + p4, rest);
    lemma_assoc(p3, p4, rest);
    lemma_entry_head_back(e, p1 + (p2 + (p3 + (p4 + rest))));
    lemma_points_back(e.mesh.verts, 0, p2 + (p3 + (p4 + rest)));
    lemma_triangles_back(e.mesh.tris, 0, p3 + (p4 + rest));
    lemma_texts_back(e.warnings, 0, p4 + rest);
    lemma_texts_back(e.errors, 0, rest);
    assert(e.mesh.verts.skip(0) =~= e.mesh.verts);
    assert(e.mesh.tris.skip(0) =~= e.mesh.tris);
    assert(e.warnings.skip(0) =~= e.warnings);
    assert(e.errors.skip(0) =~= e.errors);
}

proof fn lemma_entries_back(s: Seq<EntryView>, i: int, rest: Seq<u8>)
    requires
        0 <= i <= s.len(),
        forall|k: int| 0 <= k < s.len() ==> entry_fits(#[trigger] s[k]),
    ensures
        parse_entries((s.len() - i) as nat, entries_bytes(s, i) + rest) == Some((s.skip(i), rest)),
    decreases s.len() - i,
{
    if i == s.len() {
        assert(entries_bytes(s, i) + rest =~= rest);
        assert(s.skip(i) =~= Seq::empty());
    } else {
        let more = entries_bytes(s, i + 1) + rest;
        lemma_assoc(entry_bytes(s[i]), entries_bytes(s, i + 1), rest);
        lemma_entry_back(s[i], more);
        lemma_entries_back(s, i + 1, rest);
        assert(seq![s[i]] + s.skip(i + 1) =~= s.skip(i));
    }
}

proof fn lemma_algo_fits()
    ensures
        encode_utf8(HASH_ALGO@).len() <= u16::MAX,
{
    reveal_strlit("sip13-le-v1");
    assert(vstd::utf8::is_ascii_chars(HASH_ALGO@));
    vstd::utf8::is_ascii_chars_encode_utf8(HASH_ALGO@);
}

/// How the header that `engine` and `kernel` wrote reads on another engine.
proof fn lemma_header_back(
    engine: Seq<char>,
    kernel: Seq<char>,
    body: Seq<u8>,
    other_engine: Seq<char>,
    other_kernel: Seq<char>,
)
    requires
        encode_utf8(engine).len() <= u16::MAX,
        encode_utf8(kernel).len() <= u16::MAX,
    ensures
        parse_blob(
            magic() + (spec_u32_to_le_bytes(CACHE_FORMAT_VERSION) + (text16_bytes(HASH_ALGO@) + (
            text16_bytes(engine) + (text16_bytes(kernel) + body)))),
            other_engine,
            other_kernel,
        ) == if engine != other_engine {
            Err::<Seq<EntryView>, Refusal>(
                Refusal::Envelope { field: "engine version"@, blob: engine, engine: other_engine },
            )
        } else if kernel != other_kernel {
            Err::<Seq<EntryView>, Refusal>(
                Refusal::Envelope { field: "kernel"@, blob: kernel, engine: other_kernel },
            )
        } else {
            parse_body(body)
        },
{
    let t4 = text16_bytes(kernel) + body;
    let t3 = text16_bytes(engine) + t4;
    let t2 = text16_bytes(HASH_ALGO@) + t3;
    let t1 = spec_u32_to_le_bytes(CACHE_FORMAT_VERSION) + t2;
    assert(parse_bytes(4, magic() + t1) == Some((magic(), t1))) by {
        lemma_split(magic(), t1);
    }
    lemma_u32_back(CACHE_FORMAT_VERSION, t2);
    lemma_algo_fits();
    lemma_text16_back(HASH_ALGO@, t3);
    lemma_text16_back(engine, t4);
    lemma_text16_back(kernel, body);
}

proof fn lemma_body_back(epoch: u64, entries: Seq<EntryView>, rest: Seq<u8>)
    requires
        entries.len() <= u32::MAX,
        forall|k: int| 0 <= k < entries.len() ==> entry_fits(#[trigger] entries[k]),
    ensures
        parse_body(
            spec_u64_to_le_bytes(epoch) + (spec_u32_to_le_bytes(entries.len() as u32) + (
            entries_bytes(entries, 0) + rest)),
        ) == Ok::<Seq<EntryView>, Refusal>(entries),
{
    let t7 = entries_bytes(entries, 0) + rest;
    lemma_u64_back(epoch, spec_u32_to_le_bytes(entries.len() as u32) + t7);
    lemma_u32_back(entries.len() as u32, t7);
    lemma_entries_back(entries, 0, rest);
    assert(entries.skip(0) =~= entries);
}

/// Reading a blob gives back exactly the entries that were written, for every
/// engine with the writer's envelope, whatever follows the blob.
pub proof fn law_blob_round_trip(
    engine: Seq<char>,
    kernel: Seq<char>,
    epoch: u64,
    entries: Seq<EntryView>,
    rest: Seq<u8>,
)
    requires
        encode_utf8(engine).len() <= u16::MAX,
        encode_utf8(kernel).len() <= u16::MAX,
        entries.len() <= u32::MAX,
        forall|k: int| 0 <= k < entries.len() ==> entry_fits(#[trigger] entries[k]),
    ensures
        parse_blob(blob_bytes(engine, kernel, epoch, entries) + rest, engine, kernel) == Ok::<
            Seq<EntryView>,
            Refusal,
        >(entries),
{
    let e = entries_bytes(entries, 0);
    let c6 = spec_u32_to_le_bytes(entries.len() as u32);
    let c5 = spec_u64_to_le_bytes(epoch);
    let c4 = text16_bytes(kernel);
    let c3 = text16_bytes(engine);
    let c2 = text16_bytes(HASH_ALGO@);
    let c1 = spec_u32_to_le_bytes(CACHE_FORMAT_VERSION);
    lemma_assoc(magic(), c1 + (c2 + (c3 + (c4 + (c5 + (c6 + e))))), rest);
    lemma_assoc(c1, c2 + (c3 + (c4 + (c5 + (c6 + e)))), rest);
    lemma_assoc(c2, c3 + (c4 + (c5 + (c6 + e))), rest);
    lemma_assoc(c3, c4 + (c5 + (c6 + e)), rest);
    lemma_assoc(c4, c5 + (c6 + e), rest);
    lemma_assoc(c5, c6 + e, rest);
    lemma_assoc(c6, e, rest);
    lemma_header_back(engine, kernel, c5 + (c6 + (e + rest)), engine, kernel);
    lemma_body_back(epoch, entries, rest);
}

/// A blob that an engine with another version or another kernel wrote is
/// refused, with the first field that differs.
pub proof fn law_foreign_envelope_refused(
    engine: Seq<char>,
    kernel: Seq<char>,
    epoch: u64,
    entries: Seq<EntryView>,
    other_engine: Seq<char>,
    other_kernel: Seq<char>,
)
    requires
        encode_utf8(engine).len() <= u16::MAX,
        encode_utf8(kernel).len() <= u16::MAX,
        engine != other_engine || kernel != other_kernel,
    ensures
        parse_blob(blob_bytes(engine, kernel, epoch, entries), other_engine, other_kernel) == Err::<
            Seq<EntryView>,
            Refusal,
        >(
            if engine != other_engine {
                Refusal::Envelope {
                    field: "engine version"@,
                    blob: engine,
                    engine: other_engine,
                }
            } else {
                Refusal::Envelope { field: "kernel"@, blob: kernel, engine: other_kernel }
            },
        ),
{
    lemma_header_back(
        engine,
        kernel,
        spec_u64_to_le_bytes(epoch) + (spec_u32_to_le_bytes(entries.len() as u32) + entries_bytes(
            entries,
            0,
        )),
        other_engine,
        other_kernel,
    );
}

/// What follows a value that was read.
spec fn beyond<T>(p: Parsed<T>) -> Seq<u8> {
    match p {
        None => Seq::empty(),
        Some((_, rest)) => rest,
    }
}

/// What a parse gives where more follows.
spec fn more<T>(p: Parsed<T>, x: Seq<u8>) -> Parsed<T> {
    match p {
        None => None,
        Some((v, rest)) => Some((v, rest + x)),
    }
}

proof fn lemma_more_bytes(n: nat, b: Seq<u8>, x: Seq<u8>)
    requires
        parse_bytes(n, b) is Some,
    ensures
        parse_bytes(n, b + x) == more(parse_bytes(n, b), x),
{
    assert((b + x).take(n as int) =~= b.take(n as int));
    assert((b + x).skip(n as int) =~= b.skip(n as int) + x);
}

proof fn lemma_more_u16(b: Seq<u8>, x: Seq<u8>)
    requires
        parse_u16(b) is Some,
    ensures
        parse_u16(b + x) == more(parse_u16(b), x),
{
    assert((b + x).take(2) =~= b.take(2));
    assert((b + x).skip(2) =~= b.skip(2) + x);
}

proof fn lemma_more_u32(b: Seq<u8>, x: Seq<u8>)
    requires
        parse_u32(b) is Some,
    ensures
        parse_u32(b + x) == more(parse_u32(b), x),
{
    assert((b + x).take(4) =~= b.take(4));
    assert((b + x).skip(4) =~= b.skip(4) + x);
}

proof fn lemma_more_u64(b: Seq<u8>, x: Seq<u8>)
    requires
        parse_u64(b) is Some,
    ensures
        parse_u64(b + x) == more(parse_u64(b), x),
{
    assert((b + x).take(8) =~= b.take(8));
    assert((b + x).skip(8) =~= b.skip(8) + x);
}

proof fn lemma_more_text16(b: Seq<u8>, x: Seq<u8>)
    requires
        parse_text16(b) is Some,
    ensures
        parse_text16(b + x) == more(parse_text16(b), x),
{
    lemma_more_u16(b, x);
    let (n, r) = parse_u16(b)->0;
    lemma_more_bytes(n as nat, r, x);
}

proof fn lemma_more_text32(b: Seq<u8>, x: Seq<u8>)
    requires
        parse_text32(b) is Some,
    ensures
        parse_text32(b + x) == more(parse_text32(b), x),
{
    lemma_more_u32(b, x);
    let (n, r) = parse_u32(b)->0;
    lemma_more_bytes(n as nat, r, x);
}

proof fn lemma_more_point(b: Seq<u8>, x: Seq<u8>)
    requires
        parse_point(b) is Some,
    ensures
        parse_point(b + x) == more(parse_point(b), x),
{
    lemma_more_u64(b, x);
    let r0 = beyond(parse_u64(b));
    lemma_more_u64(r0, x);
    let r1 = beyond(parse_u64(r0));
    lemma_more_u64(r1, x);
}

proof fn lemma_more_triangle(b: Seq<u8>, x: Seq<u8>)
    requires
        parse_triangle(b) is Some,
    ensures
        parse_triangle(b + x) == more(parse_triangle(b), x),
{
    lemma_more_u32(b, x);
    let r0 = beyond(parse_u32(b));
    lemma_more_u32(r0, x);
    let r1 = beyond(parse_u32(r0));
    lemma_more_u32(r1, x);
}

proof fn lemma_more_points(n: nat, b: Seq<u8>, x: Seq<u8>)
    requires
        parse_points(n, b) is Some,
    ensures
        parse_points(n, b + x) == more(parse_points(n, b), x),
    decreases n,
{
    if n > 0 {
        lemma_more_point(b, x);
        let r = beyond(parse_point(b));
        lemma_more_points((n - 1) as nat, r, x);
    }
}

proof fn lemma_more_triangles(n: nat, b: Seq<u8>, x: Seq<u8>)
    requires
        parse_triangles(n, b) is Some,
    ensures
        parse_triangles(n, b + x) == more(parse_triangles(n, b), x),
    decreases n,
{
    if n > 0 {
        lemma_more_triangle(b, x);
        let r = beyond(parse_triangle(b));
        lemma_more_triangles((n - 1) as nat, r, x);
    }
}

proof fn lemma_more_texts(n: nat, b: Seq<u8>, x: Seq<u8>)
    requires
        parse_texts(n, b) is Some,
    ensures
        parse_texts(n, b + x) == more(parse_texts(n, b), x),
    decreases n,
{
    if n > 0 {
        lemma_more_text32(b, x);
        let r = beyond(parse_text32(b));
        lemma_more_texts((n - 1) as nat, r, x);
    }
}

proof fn lemma_more_entry_head(b: Seq<u8>, x: Seq<u8>)
    requires
        parse_entry_head(b) is Some,
    ensures
        parse_entry_head(b + x) == more(parse_entry_head(b), x),
{
    lemma_more_u64(b, x);
    let r0 = beyond(parse_u64(b));
    lemma_more_u32(r0, x);
    let r1 = beyond(parse_u32(r0));
    lemma_more_u32(r1, x);
    let r2 = beyond(parse_u32(r1));
    lemma_more_u32(r2, x);
    let r3 = beyond(parse_u32(r2));
    lemma_more_u32(r3, x);
}

proof fn lemma_more_entry(b: Seq<u8>, x: Seq<u8>)
    requires
        parse_entry(b) is Some,
    ensures
        parse_entry(b + x) == more(parse_entry(b), x),
{
    lemma_more_entry_head(b, x);
    let ((key, nverts, ntris, nwarn, nerr), r0) = parse_entry_head(b)->0;
    lemma_more_points(nverts as nat, r0, x);
    let r1 = beyond(parse_points(nverts as nat, r0));
    lemma_more_triangles(ntris as nat, r1, x);
    let r2 = beyond(parse_triangles(ntris as nat, r1));
    lemma_more_texts(nwarn as nat, r2, x);
    let r3 = beyond(parse_texts(nwarn as nat, r2));
    lemma_more_texts(nerr as nat, r3, x);
}

proof fn lemma_more_entries(n: nat, b: Seq<u8>, x: Seq<u8>)
    requires
        parse_entries(n, b) is Some,
    ensures
        parse_entries(n, b + x) == more(parse_entries(n, b), x),
    decreases n,
{
    if n > 0 {
        lemma_more_entry(b, x);
        let r = beyond(parse_entry(b));
        lemma_more_entries((n - 1) as nat, r, x);
    }
}

/// What a blob that is read to its end, and no further, holds.
#[verifier::opaque]
spec fn whole_body(b: Seq<u8>) -> bool {
    match parse_u64(b) {
        None => false,
        Some((_, rest)) => match parse_u32(rest) {
            None => false,
            Some((count, rest)) => match parse_entries(count as nat, rest) {
                None => false,
                Some((_, rest)) => rest.len() == 0,
            },
        },
    }
}

proof fn lemma_short_body(b: Seq<u8>, x: Seq<u8>)
    requires
        x.len() > 0,
        whole_body(b + x),
    ensures
        parse_body(b) == Err::<Seq<EntryView>, Refusal>(Refusal::Truncated),
{
    reveal(whole_body);
    if parse_u64(b) is Some {
        lemma_more_u64(b, x);
        let r = beyond(parse_u64(b));
        if parse_u32(r) is Some {
            lemma_more_u32(r, x);
            let (count, r1) = parse_u32(r)->0;
            if parse_entries(count as nat, r1) is Some {
                lemma_more_entries(count as nat, r1, x);
            }
        }
    }
}

proof fn lemma_short_field(b: Seq<u8>, x: Seq<u8>, field: Seq<char>, engine: Seq<char>)
    requires
        parse_field(b + x, field, engine) is Ok,
    ensures
        match parse_field(b, field, engine) {
            Ok(rest) => parse_field(b + x, field, engine) == Ok::<Seq<u8>, Refusal>(rest + x),
            Err(e) => e == Refusal::Truncated,
        },
{
    if parse_text16(b) is Some {
        lemma_more_text16(b, x);
    }
}

/// The header of a blob, read from the bytes in front of more bytes.
proof fn lemma_short_blob(b: Seq<u8>, x: Seq<u8>, engine: Seq<char>, kernel: Seq<char>, body: Seq<u8>)
    requires
        x.len() > 0,
        whole_body(body),
        header_read(b + x, engine, kernel, body),
    ensures
        parse_blob(b, engine, kernel) == Err::<Seq<EntryView>, Refusal>(Refusal::Truncated),
{
    reveal(header_read);
    if parse_bytes(4, b) is Some {
        lemma_more_bytes(4, b, x);
        let r0 = beyond(parse_bytes(4, b));
        if parse_u32(r0) is Some {
            lemma_more_u32(r0, x);
            let r1 = beyond(parse_u32(r0));
            lemma_short_field(r1, x, "hash algorithm"@, HASH_ALGO@);
            if let Ok(r2) = parse_field(r1, "hash algorithm"@, HASH_ALGO@) {
                lemma_short_field(r2, x, "engine version"@, engine);
                if let Ok(r3) = parse_field(r2, "engine version"@, engine) {
                    lemma_short_field(r3, x, "kernel"@, kernel);
                    if let Ok(r4) = parse_field(r3, "kernel"@, kernel) {
                        lemma_short_body(r4, x);
                    }
                }
            }
        }
    }
}

/// The header of a blob is that of this engine, and `body` follows it.
#[verifier::opaque]
spec fn header_read(bytes: Seq<u8>, engine: Seq<char>, kernel: Seq<char>, body: Seq<u8>) -> bool {
    match parse_bytes(4, bytes) {
        None => false,
        Some((m, rest)) => m == magic() && match parse_u32(rest) {
            None => false,
            Some((format, rest)) => format == CACHE_FORMAT_VERSION && match parse_field(
                rest,
                "hash algorithm"@,
                HASH_ALGO@,
            ) {
                Err(_) => false,
                Ok(rest) => match parse_field(rest, "engine version"@, engine) {
                    Err(_) => false,
                    Ok(rest) => parse_field(rest, "kernel"@, kernel) == Ok::<Seq<u8>, Refusal>(body),
                },
            },
        },
    }
}

proof fn lemma_whole_header(engine: Seq<char>, kernel: Seq<char>, body: Seq<u8>)
    requires
        encode_utf8(engine).len() <= u16::MAX,
        encode_utf8(kernel).len() <= u16::MAX,
    ensures
        header_read(
            magic() + (spec_u32_to_le_bytes(CACHE_FORMAT_VERSION) + (text16_bytes(HASH_ALGO@) + (
            text16_bytes(engine) + (text16_bytes(kernel) + body)))),
            engine,
            kernel,
            body,
        ),
{
    reveal(header_read);
    let t4 = text16_bytes(kernel) + body;
    let t3 = text16_bytes(engine) + t4;
    let t2 = text16_bytes(HASH_ALGO@) + t3;
    let t1 = spec_u32_to_le_bytes(CACHE_FORMAT_VERSION) + t2;
    assert(parse_bytes(4, magic() + t1) == Some((magic(), t1))) by {
        lemma_split(magic(), t1);
    }
    lemma_u32_back(CACHE_FORMAT_VERSION, t2);
    lemma_algo_fits();
    lemma_text16_back(HASH_ALGO@, t3);
    lemma_text16_back(engine, t4);
    lemma_text16_back(kernel, body);
}

proof fn lemma_whole_body(epoch: u64, entries: Seq<EntryView>)
    requires
        entries.len() <= u32::MAX,
        forall|k: int| 0 <= k < entries.len() ==> entry_fits(#[trigger] entries[k]),
    ensures
        whole_body(
            spec_u64_to_le_bytes(epoch) + (spec_u32_to_le_bytes(entries.len() as u32)
                + entries_bytes(entries, 0)),
        ),
{
    reveal(whole_body);
    let none = Seq::<u8>::empty();
    let e = entries_bytes(entries, 0);
    lemma_u64_back(epoch, spec_u32_to_le_bytes(entries.len() as u32) + e);
    lemma_u32_back(entries.len() as u32, e);
    lemma_entries_back(entries, 0, none);
    assert(e + none =~= e);
}

/// A blob that is cut short anywhere is refused as truncated.
pub proof fn law_short_blob_refused(
    engine: Seq<char>,
    kernel: Seq<char>,
    epoch: u64,
    entries: Seq<EntryView>,
    n: int,
)
    requires
        encode_utf8(engine).len() <= u16::MAX,
        encode_utf8(kernel).len() <= u16::MAX,
        entries.len() <= u32::MAX,
        forall|k: int| 0 <= k < entries.len() ==> entry_fits(#[trigger] entries[k]),
        0 <= n < blob_bytes(engine, kernel, epoch, entries).len(),
    ensures
        parse_blob(blob_bytes(engine, kernel, epoch, entries).take(n), engine, kernel) == Err::<
            Seq<EntryView>,
            Refusal,
        >(Refusal::Truncated),
{
    let all = blob_bytes(engine, kernel, epoch, entries);
    let body = spec_u64_to_le_bytes(epoch) + (spec_u32_to_le_bytes(entries.len() as u32)
        + entries_bytes(entries, 0));
    lemma_whole_body(epoch, entries);
    lemma_whole_header(engine, kernel, body);
    assert(all.take(n) + all.skip(n) =~= all);
    lemma_short_blob(all.take(n), all.skip(n), engine, kernel, body);
}

} // verus!
