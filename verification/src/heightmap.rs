//! Height maps from images.

use crate::builtins::HUNDRED;
use crate::num::{Arithmetic, Calc, NumOp, Reading};
use vstd::prelude::*;

verus! {

/// A decoded image: rows of pixels, each of some channels, one or two bytes to
/// a channel.
#[derive(Debug)]
pub struct PngImage {
    pub width: u32,
    pub height: u32,
    pub channels: u8,
    /// The bits of a channel.
    pub depth: u8,
    pub data: Vec<u8>,
}

/// What decoding an image gives: width, height, channels, bits of a channel and
/// the bytes, or why it cannot be decoded.
pub type Decoded = Result<(u32, u32, u8, u8, Seq<u8>), Seq<char>>;

/// What an image holds.
pub open spec fn image_view(r: Result<PngImage, String>) -> Decoded {
    match r {
        Ok(i) => Ok((i.width, i.height, i.channels, i.depth, i.data@)),
        Err(e) => Err(e@),
    }
}

/// What `png` decodes from bytes.
pub uninterp spec fn png_decoded(bytes: Seq<u8>) -> Result<(u32, u32, u8, u8, Seq<u8>), Seq<char>>;

/// The first frame of a PNG file, decoded by `png::Decoder::read_info` and
/// `png::Reader::next_frame` without transformations. What they give is a
/// function of the bytes alone; beyond that nothing is claimed of it.
#[verifier::external_body]
fn decode_png(bytes: &Vec<u8>) -> (r: Result<PngImage, String>)
    ensures
        image_view(r) == png_decoded(bytes@),
{
    let mut reader = png::Decoder::new(std::io::Cursor::new(bytes.as_slice()))
        .read_info()
        .map_err(|e| e.to_string())?;
    let mut data = vec![0u8; reader.output_buffer_size().unwrap_or(0)];
    let info = reader.next_frame(&mut data).map_err(|e| e.to_string())?;
    Ok(PngImage {
        width: info.width,
        height: info.height,
        channels: info.color_type.samples() as u8,
        depth: info.bit_depth as u8,
        data,
    })
}

/// The weight of red, 0.2126, by its bits.
pub const RED: u64 = 0x3fcb_367a_0f90_96bc;

/// The weight of green, by its bits.
pub const GREEN: u64 = 0x3fe6_e2eb_1c43_2ca5;

/// The weight of blue, by its bits.
pub const BLUE: u64 = 0x3fb2_7bb2_fec5_6d5d;

/// What a full channel is divided by to give a hundred, by its bits.
pub const PER_HUNDRED: u64 = 0x4004_6666_6666_6666;

/// The bytes of a channel.
pub open spec fn sample_bytes(depth: u8) -> int {
    if depth == 16 {
        2
    } else {
        1
    }
}

/// The bytes hold every channel of every pixel.
pub open spec fn holds_all(w: u32, h: u32, channels: u8, depth: u8, bytes: nat) -> bool {
    w * h * channels * sample_bytes(depth) <= bytes
}

/// The `k`-th channel of all, by its leading byte.
pub open spec fn sample(m: Reading, depth: u8, data: Seq<u8>, k: int) -> u64 {
    m.at(NumOp::FromInt, data[k * sample_bytes(depth)] as u64, 0)
}

/// The brightness of a pixel, from 0 to 255: its only channel, or its colors
/// weighted.
pub open spec fn brightness(m: Reading, channels: u8, depth: u8, data: Seq<u8>, pixel: int) -> u64 {
    let k = pixel * channels;
    if channels <= 2 {
        sample(m, depth, data, k)
    } else {
        m.at(
            NumOp::Add,
            m.at(
                NumOp::Add,
                m.at(NumOp::Mul, RED, sample(m, depth, data, k)),
                m.at(NumOp::Mul, GREEN, sample(m, depth, data, k + 1)),
            ),
            m.at(NumOp::Mul, BLUE, sample(m, depth, data, k + 2)),
        )
    }
}

/// The height of a pixel, from 0 to 100.
pub open spec fn pixel_height(
    m: Reading,
    channels: u8,
    depth: u8,
    data: Seq<u8>,
    invert: bool,
    pixel: int,
) -> u64 {
    let z = m.at(NumOp::Div, brightness(m, channels, depth, data, pixel), PER_HUNDRED);
    if invert {
        m.at(NumOp::Sub, HUNDRED, z)
    } else {
        z
    }
}

/// The heights of an image, its last row first.
pub open spec fn heights(
    m: Reading,
    w: u32,
    h: u32,
    channels: u8,
    depth: u8,
    data: Seq<u8>,
    invert: bool,
) -> Seq<Seq<u64>> {
    Seq::new(
        h as nat,
        |r: int|
            Seq::new(
                w as nat,
                |x: int|
                    pixel_height(m, channels, depth, data, invert, (h - 1 - r) * w + x),
            ),
    )
}

/// Rows of numbers.
pub open spec fn rows_view(v: Seq<Vec<u64>>) -> Seq<Seq<u64>> {
    v.map_values(|r: Vec<u64>| r@)
}

fn read_sample<A: Arithmetic>(calc: &mut Calc<A>, depth: u8, data: &Vec<u8>, k: usize) -> (r: u64)
    requires
        k * sample_bytes(depth) < data@.len(),
    ensures
        forall|m: Reading| #[trigger]
            final(calc).agrees(m) ==> old(calc).agrees(m) && r == sample(
                m,
                depth,
                data@,
                k as int,
            ),
{
    let n: usize = data.len();
    let at: usize = if depth == 16 {
        k * 2
    } else {
        k
    };
    calc.apply(NumOp::FromInt, data[at] as u64, 0)
}

fn read_height<A: Arithmetic>(calc: &mut Calc<A>, image: &PngImage, invert: bool, pixel: usize) -> (r: u64)
    requires
        image.channels > 0,
        (pixel + 1) * image.channels * sample_bytes(image.depth) <= image.data@.len(),
    ensures
        forall|m: Reading| #[trigger]
            final(calc).agrees(m) ==> old(calc).agrees(m) && r == pixel_height(
                m,
                image.channels,
                image.depth,
                image.data@,
                invert,
                pixel as int,
            ),
{
    let ghost channels = image.channels as int;
    let ghost b = sample_bytes(image.depth);
    let n: usize = image.data.len();
    proof {
        assert((pixel + 1) * channels == pixel * channels + channels) by (nonlinear_arith);
        assert((pixel * channels + channels) * b == pixel * channels * b + channels * b)
            by (nonlinear_arith);
        assert(0 <= pixel * channels <= pixel * channels * b) by (nonlinear_arith)
            requires
                pixel >= 0,
                channels > 0,
                b >= 1,
        ;
        assert(channels * b >= channels) by (nonlinear_arith)
            requires
                channels > 0,
                b >= 1,
        ;
        assert((pixel * channels) * b == pixel * channels * b);
        assert((pixel * channels + 1) * b == pixel * channels * b + b) by (nonlinear_arith);
        assert((pixel * channels + 2) * b == pixel * channels * b + 2 * b) by (nonlinear_arith);
        if channels >= 3 {
            assert(channels * b >= 3 * b) by (nonlinear_arith)
                requires
                    channels >= 3,
                    b >= 1,
            ;
        }
    }
    let k: usize = pixel * image.channels as usize;
    let light: u64 = if image.channels <= 2 {
        read_sample(calc, image.depth, &image.data, k)
    } else {
        let s0: u64 = read_sample(calc, image.depth, &image.data, k);
        let s1: u64 = read_sample(calc, image.depth, &image.data, k + 1);
        let s2: u64 = read_sample(calc, image.depth, &image.data, k + 2);
        let red: u64 = calc.apply(NumOp::Mul, RED, s0);
        let green: u64 = calc.apply(NumOp::Mul, GREEN, s1);
        let sum: u64 = calc.apply(NumOp::Add, red, green);
        let blue: u64 = calc.apply(NumOp::Mul, BLUE, s2);
        calc.apply(NumOp::Add, sum, blue)
    };
    let z: u64 = calc.apply(NumOp::Div, light, PER_HUNDRED);
    if invert {
        calc.apply(NumOp::Sub, HUNDRED, z)
    } else {
        z
    }
}

/// The heights of an image, its last row first.
pub fn image_heights<A: Arithmetic>(calc: &mut Calc<A>, image: &PngImage, invert: bool) -> (r: Vec<
    Vec<u64>,
>)
    requires
        image.channels > 0,
        holds_all(image.width, image.height, image.channels, image.depth, image.data@.len()),
    ensures
        forall|m: Reading| #[trigger]
            final(calc).agrees(m) ==> old(calc).agrees(m) && rows_view(r@) == heights(
                m,
                image.width,
                image.height,
                image.channels,
                image.depth,
                image.data@,
                invert,
            ),
{
    let w: u32 = image.width;
    let h: u32 = image.height;
    let mut out: Vec<Vec<u64>> = Vec::new();
    let mut r: u32 = 0;
    while r < h
        invariant
            r <= h,
            w == image.width,
            h == image.height,
            image.channels > 0,
            holds_all(w, h, image.channels, image.depth, image.data@.len()),
            out@.len() == r,
            forall|m: Reading| #[trigger]
                calc.agrees(m) ==> old(calc).agrees(m) && forall|k: int|
                    0 <= k < r ==> (#[trigger] out@[k])@ == heights(
                        m,
                        w,
                        h,
                        image.channels,
                        image.depth,
                        image.data@,
                        invert,
                    )[k],
        decreases h - r,
    {
        let y: u32 = h - 1 - r;
        let ghost c0 = *calc;
        let mut row: Vec<u64> = Vec::new();
        let mut x: u32 = 0;
        while x < w
            invariant
                x <= w,
                y < h,
                y == h - 1 - r,
                w == image.width,
                h == image.height,
                image.channels > 0,
                holds_all(w, h, image.channels, image.depth, image.data@.len()),
                row@.len() == x,
                forall|m: Reading| #[trigger]
                    calc.agrees(m) ==> c0.agrees(m) && forall|k: int|
                        0 <= k < x ==> #[trigger] row@[k] == pixel_height(
                            m,
                            image.channels,
                            image.depth,
                            image.data@,
                            invert,
                            y * w + k,
                        ),
            decreases w - x,
        {
            proof {
                lemma_pixel_held(
                    w as int,
                    h as int,
                    image.channels as int,
                    sample_bytes(image.depth),
                    image.data@.len() as int,
                    x as int,
                    y as int,
                );
                assert(y * w <= 0xffff_ffff * 0xffff_ffff) by (nonlinear_arith)
                    requires
                        0 <= y <= 0xffff_ffff,
                        0 <= w <= 0xffff_ffff,
                ;
            }
            let n: usize = image.data.len();
            let pixel: u64 = y as u64 * w as u64 + x as u64;
            let z: u64 = read_height(calc, image, invert, pixel as usize);
            row.push(z);
            x = x + 1;
        }
        proof {
            assert forall|m: Reading| #[trigger] calc.agrees(m) implies c0.agrees(m) && row@
                == heights(m, w, h, image.channels, image.depth, image.data@, invert)[r as int] by {
                assert(row@ =~= heights(
                    m,
                    w,
                    h,
                    image.channels,
                    image.depth,
                    image.data@,
                    invert,
                )[r as int]);
            }
        }
        out.push(row);
        r = r + 1;
    }
    proof {
        assert forall|m: Reading| #[trigger] calc.agrees(m) implies rows_view(out@) == heights(
            m,
            w,
            h,
            image.channels,
            image.depth,
            image.data@,
            invert,
        ) by {
            assert(rows_view(out@) =~= heights(
                m,
                w,
                h,
                image.channels,
                image.depth,
                image.data@,
                invert,
            ));
        }
    }
    out
}

proof fn lemma_pixel_held(w: int, h: int, c: int, b: int, len: int, x: int, y: int)
    requires
        0 <= x < w,
        0 <= y < h,
        c > 0,
        b >= 1,
        w * h * c * b <= len,
    ensures
        (y * w + x + 1) * c * b <= len,
        0 <= y * w,
        y * w + x < len,
{
    assert(0 <= y * w) by (nonlinear_arith)
        requires
            0 <= y,
            0 <= w,
    ;
    assert(y * w + x + 1 <= w * h) by (nonlinear_arith)
        requires
            x + 1 <= w,
            y + 1 <= h,
            0 <= w,
    ;
    let p = y * w + x + 1;
    let q = w * h;
    assert(p * c <= q * c) by (nonlinear_arith)
        requires
            p <= q,
            c > 0,
    ;
    assert(p * c * b <= q * c * b) by (nonlinear_arith)
        requires
            p * c <= q * c,
            b >= 1,
    ;
    assert(p <= p * c) by (nonlinear_arith)
        requires
            p >= 0,
            c > 0,
    ;
    assert(p * c <= p * c * b) by (nonlinear_arith)
        requires
            p * c >= 0,
            b >= 1,
    ;
}

/// What an image that cannot be used is refused with.
pub open spec fn unsupported() -> Seq<char> {
    "unsupported pixel format"@
}

/// `r` is what the heights of a decoded image come to.
pub open spec fn is_heightmap(m: Reading, d: Decoded, invert: bool, r: Result<Vec<Vec<u64>>, String>) -> bool {
    match d {
        Err(e) => r matches Err(t) && t@ == e,
        Ok((w, h, channels, depth, data)) => if channels > 0 && holds_all(
            w,
            h,
            channels,
            depth,
            data.len(),
        ) {
            r matches Ok(rows) && rows_view(rows@) == heights(
                m,
                w,
                h,
                channels,
                depth,
                data,
                invert,
            )
        } else {
            r matches Err(t) && t@ == unsupported()
        },
    }
}

/// The heights of a decoded image, or why it has none.
pub fn use_image<A: Arithmetic>(
    calc: &mut Calc<A>,
    image: Result<PngImage, String>,
    invert: bool,
) -> (r: Result<Vec<Vec<u64>>, String>)
    ensures
        forall|m: Reading| #[trigger]
            final(calc).agrees(m) ==> old(calc).agrees(m) && is_heightmap(
                m,
                image_view(image),
                invert,
                r,
            ),
{
    let image = match image {
        Ok(i) => i,
        Err(e) => return Err(e),
    };
    proof {
        let w = image.width as int;
        let h = image.height as int;
        let c = image.channels as int;
        assert(0 <= w * h <= 0xffff_ffff * 0xffff_ffff) by (nonlinear_arith)
            requires
                0 <= w <= 0xffff_ffff,
                0 <= h <= 0xffff_ffff,
        ;
        let p = w * h;
        assert(0 <= p * c <= 0xffff_ffff * 0xffff_ffff * 0xff) by (nonlinear_arith)
            requires
                0 <= p <= 0xffff_ffff * 0xffff_ffff,
                0 <= c <= 0xff,
        ;
    }
    let size: u128 = if image.depth == 16 {
        2
    } else {
        1
    };
    let need: u128 = image.width as u128 * image.height as u128 * image.channels as u128 * size;
    if image.channels == 0 || need > image.data.len() as u128 {
        return Err("unsupported pixel format".to_owned());
    }
    Ok(image_heights(calc, &image, invert))
}

/// The heights of a PNG file: each pixel's brightness from 0 to 100, the last
/// row first. `invert` turns light and dark round.
pub fn png_heightmap<A: Arithmetic>(calc: &mut Calc<A>, bytes: &Vec<u8>, invert: bool) -> (r: Result<
    Vec<Vec<u64>>,
    String,
>)
    ensures
        forall|m: Reading| #[trigger]
            final(calc).agrees(m) ==> old(calc).agrees(m) && is_heightmap(
                m,
                png_decoded(bytes@),
                invert,
                r,
            ),
{
    let image = decode_png(bytes);
    use_image(calc, image, invert)
}

} // verus!
