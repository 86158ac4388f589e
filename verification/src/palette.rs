//! Colors as bytes, and the materials that surfaces are grouped by.

use crate::num::{Arithmetic, Calc, NumOp, Reading};
use crate::rank::Ranked;
use crate::surfaces::{surface_views, DisplayMode, Rgba, SurfaceAttribution, SurfaceView};
use crate::text::text_of;
use vstd::prelude::*;

verus! {

/// A color of four bytes.
#[derive(Clone, Copy, Debug, PartialEq, Eq, Structural)]
pub struct Color {
    pub r: u8,
    pub g: u8,
    pub b: u8,
    pub a: u8,
}

impl Color {
    /// The bytes as one number, red first.
    pub open spec fn number(self) -> int {
        self.r * 0x100_0000 + self.g * 0x1_0000 + self.b * 0x100 + self.a
    }

    pub fn to_number(&self) -> (r: u64)
        ensures
            r == self.number(),
    {
        self.r as u64 * 0x100_0000 + self.g as u64 * 0x1_0000 + self.b as u64 * 0x100 + self.a as u64
    }
}

impl Ranked for Color {
    open spec fn rank_le(&self, other: &Self) -> bool {
        self.number() <= other.number()
    }

    proof fn rank_total(a: &Self, b: &Self) {
    }

    proof fn rank_transitive(a: &Self, b: &Self, c: &Self) {
    }

    fn ranks_before(&self, other: &Self) -> (r: bool) {
        self.to_number() <= other.to_number()
    }
}

/// A single number kept between 0 and 1; what is no number stays so.
pub open spec fn unit_clamped(b: u32) -> u32 {
    if b > 0x8000_0000 && b <= 0xff80_0000 {
        0
    } else if b > 0x3f80_0000 && b <= 0x7f80_0000 {
        0x3f80_0000
    } else {
        b
    }
}

/// The byte that a component of a color becomes.
pub open spec fn component_byte(m: Reading, b: u32) -> u8 {
    let scaled = m.at(NumOp::SingleMul, unit_clamped(b) as u64, 0x437f_0000);
    let whole = m.at(NumOp::SingleToInt, m.at(NumOp::SingleRound, scaled, 0), 0);
    if whole > 255 {
        255
    } else {
        whole as u8
    }
}

/// A color as bytes.
pub open spec fn color_bytes(m: Reading, c: Rgba) -> Color {
    Color {
        r: component_byte(m, c.r),
        g: component_byte(m, c.g),
        b: component_byte(m, c.b),
        a: component_byte(m, c.a),
    }
}

fn byte_of<A: Arithmetic>(calc: &mut Calc<A>, b: u32) -> (r: u8)
    ensures
        forall|m: Reading| #[trigger]
            final(calc).agrees(m) ==> old(calc).agrees(m) && r == component_byte(m, b),
{
    let kept: u32 = if b > 0x8000_0000 && b <= 0xff80_0000 {
        0
    } else if b > 0x3f80_0000 && b <= 0x7f80_0000 {
        0x3f80_0000
    } else {
        b
    };
    let scaled: u64 = calc.apply(NumOp::SingleMul, kept as u64, 0x437f_0000);
    let rounded: u64 = calc.apply(NumOp::SingleRound, scaled, 0);
    let whole: u64 = calc.apply(NumOp::SingleToInt, rounded, 0);
    if whole > 255 {
        255
    } else {
        whole as u8
    }
}

/// A color as bytes: each component kept between 0 and 1, times 255, rounded.
pub fn rgba_bytes<A: Arithmetic>(calc: &mut Calc<A>, rgba: Rgba) -> (r: Color)
    ensures
        forall|m: Reading| #[trigger]
            final(calc).agrees(m) ==> old(calc).agrees(m) && r == color_bytes(m, rgba),
{
    let r: u8 = byte_of(calc, rgba.r);
    let g: u8 = byte_of(calc, rgba.g);
    let b: u8 = byte_of(calc, rgba.b);
    let a: u8 = byte_of(calc, rgba.a);
    Color { r, g, b, a }
}

/// An upper-case hexadecimal digit.
pub open spec fn hex_digit(n: int) -> char {
    if n < 10 {
        (48 + n) as char
    } else {
        (55 + n) as char
    }
}

pub open spec fn hex_byte(b: u8) -> Seq<char> {
    seq![hex_digit(b as int / 16), hex_digit(b as int % 16)]
}

/// A color as text, `#RRGGBBAA`.
pub open spec fn hex_color(c: Color) -> Seq<char> {
    seq!['#'] + hex_byte(c.r) + hex_byte(c.g) + hex_byte(c.b) + hex_byte(c.a)
}

fn digit_of(n: u8) -> (r: char)
    requires
        n < 16,
    ensures
        r == hex_digit(n as int),
{
    if n < 10 {
        (48 + n) as char
    } else {
        (55 + n) as char
    }
}

fn push_byte(v: &mut Vec<char>, b: u8)
    ensures
        final(v)@ =~= old(v)@ + hex_byte(b),
{
    v.push(digit_of(b / 16));
    v.push(digit_of(b % 16));
}

/// A color as text, `#RRGGBBAA`.
pub fn rgba_hex(c: Color) -> (r: String)
    ensures
        r@ == hex_color(c),
{
    let mut v: Vec<char> = Vec::new();
    v.push('#');
    push_byte(&mut v, c.r);
    push_byte(&mut v, c.g);
    push_byte(&mut v, c.b);
    push_byte(&mut v, c.a);
    assert(v@ =~= hex_color(c));
    text_of(&v)
}

/// What surfaces are grouped by in a scene: how they are shown, and in what
/// color.
#[derive(Clone, Copy, Debug, PartialEq, Eq, Structural)]
pub struct MaterialKey {
    pub mode: DisplayMode,
    pub rgba: Color,
}

/// The place of a display mode: solid, highlight, background.
pub open spec fn mode_place(mode: DisplayMode) -> int {
    match mode {
        DisplayMode::Solid => 0,
        DisplayMode::Highlight => 1,
        DisplayMode::Background => 2,
    }
}

impl MaterialKey {
    /// The place of a material: by mode, then by color.
    pub open spec fn number(self) -> int {
        mode_place(self.mode) * 0x1_0000_0000 + self.rgba.number()
    }

    pub fn to_number(&self) -> (r: u64)
        ensures
            r == self.number(),
    {
        let place: u64 = match self.mode {
            DisplayMode::Solid => 0,
            DisplayMode::Highlight => 1,
            DisplayMode::Background => 2,
        };
        place * 0x1_0000_0000 + self.rgba.to_number()
    }
}

/// The name of a display mode.
pub open spec fn mode_name(mode: DisplayMode) -> Seq<char> {
    match mode {
        DisplayMode::Solid => "solid"@,
        DisplayMode::Highlight => "highlight"@,
        DisplayMode::Background => "background"@,
    }
}

impl MaterialKey {
    /// The name of the display mode.
    pub fn display_mode(&self) -> (r: &'static str)
        ensures
            r@ == mode_name(self.mode),
    {
        match self.mode {
            DisplayMode::Solid => "solid",
            DisplayMode::Highlight => "highlight",
            DisplayMode::Background => "background",
        }
    }

    /// The material of a surface.
    pub fn from_surface<A: Arithmetic>(calc: &mut Calc<A>, surface: &SurfaceAttribution) -> (r:
        MaterialKey)
        ensures
            forall|m: Reading| #[trigger]
                final(calc).agrees(m) ==> old(calc).agrees(m) && r == material_of(m, surface@),
    {
        let rgba = rgba_bytes(calc, surface.rgba);
        MaterialKey { mode: surface.mode, rgba }
    }
}

impl Ranked for MaterialKey {
    open spec fn rank_le(&self, other: &Self) -> bool {
        self.number() <= other.number()
    }

    proof fn rank_total(a: &Self, b: &Self) {
    }

    proof fn rank_transitive(a: &Self, b: &Self, c: &Self) {
    }

    fn ranks_before(&self, other: &Self) -> (r: bool) {
        self.to_number() <= other.to_number()
    }
}

/// Materials that share a place are the same.
pub proof fn lemma_material_number(a: MaterialKey, b: MaterialKey)
    requires
        a.number() == b.number(),
    ensures
        a == b,
{
    assert(a.rgba.number() < 0x1_0000_0000 && b.rgba.number() < 0x1_0000_0000);
    assert(mode_place(a.mode) == mode_place(b.mode));
    lemma_color_number(a.rgba, b.rgba);
}

/// Colors that share a number are the same.
pub proof fn lemma_color_number(a: Color, b: Color)
    requires
        a.number() == b.number(),
    ensures
        a == b,
{
    let low_a: int = a.g * 0x1_0000 + a.b * 0x100 + a.a;
    let low_b: int = b.g * 0x1_0000 + b.b * 0x100 + b.a;
    assert(0 <= low_a < 0x100_0000 && 0 <= low_b < 0x100_0000);
    assert(a.r == b.r) by {
        assert(a.r as int * 0x100_0000 + low_a == b.r as int * 0x100_0000 + low_b);
    }
    let last_a: int = a.b * 0x100 + a.a;
    let last_b: int = b.b * 0x100 + b.a;
    assert(0 <= last_a < 0x1_0000 && 0 <= last_b < 0x1_0000);
    assert(a.g == b.g) by {
        assert(a.g as int * 0x1_0000 + last_a == b.g as int * 0x1_0000 + last_b);
    }
    assert(a.b == b.b);
}

/// The material of a surface.
pub open spec fn material_of(m: Reading, s: SurfaceView) -> MaterialKey {
    MaterialKey { mode: s.mode, rgba: color_bytes(m, s.rgba) }
}

/// The materials of the surfaces of a table.
pub open spec fn materials_of(m: Reading, table: Seq<SurfaceView>) -> Seq<MaterialKey> {
    table.map_values(|s: SurfaceView| material_of(m, s))
}

/// The materials of the surfaces of a table.
pub fn materials<A: Arithmetic>(calc: &mut Calc<A>, table: &Vec<SurfaceAttribution>) -> (r: Vec<
    MaterialKey,
>)
    ensures
        r@.len() == table@.len(),
        forall|m: Reading| #[trigger]
            final(calc).agrees(m) ==> old(calc).agrees(m) && r@ == materials_of(
                m,
                surface_views(table@),
            ),
{
    let mut out: Vec<MaterialKey> = Vec::new();
    let ghost views = surface_views(table@);
    for i in 0..table.len()
        invariant
            views == surface_views(table@),
            out@.len() == i,
            forall|m: Reading| #[trigger]
                calc.agrees(m) ==> old(calc).agrees(m) && out@ =~= materials_of(m, views).take(
                    i as int,
                ),
    {
        let key = MaterialKey::from_surface(calc, &table[i]);
        out.push(key);
    }
    proof {
        assert forall|m: Reading| #[trigger] calc.agrees(m) implies out@ =~= materials_of(
            m,
            views,
        ) by {
            assert(materials_of(m, views).take(table@.len() as int) =~= materials_of(m, views));
        }
    }
    out
}

} // verus!
