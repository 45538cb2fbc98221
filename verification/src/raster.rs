//! Encoding of the rasterized surface layer: PNG bytes, and their Base64 text
//! for embedding in SVG, and the binary envelope that carries the native
//! drawing to Typst.
use vstd::prelude::*;
use base64::Engine;
use crate::text::{chars_of, decimal, string_from_chars};

verus! {

/// How shaded surfaces are drawn below the linework: a smooth per-pixel PNG
/// layer, or flat vector facets.
#[derive(Clone, Copy, Debug, PartialEq, Eq)]
pub enum SurfaceMode {
    Raster,
    Flat,
}

impl Default for SurfaceMode {
    fn default() -> (m: Self)
        ensures
            m == SurfaceMode::Raster,
    {
        SurfaceMode::Raster
    }
}

/// Checks the width of the surface raster layer, in pixels: 256 to 4096.
pub fn check_surface_pixels(pixels: u32) -> (r: Result<(), String>)
    ensures
        r is Ok <==> 256 <= pixels <= 4096,
        r matches Err(m) ==> m@ == "surface_pixels must be between 256 and 4096"@,
{
    if 256 <= pixels && pixels <= 4096 {
        Ok(())
    } else {
        Err(string_from_chars(chars_of("surface_pixels must be between 256 and 4096")))
    }
}

/// The Base64 digit of a six-bit value in the standard alphabet.
pub open spec fn base64_digit(v: int) -> char {
    if v < 26 {
        (65 + v) as char
    } else if v < 52 {
        (97 + v - 26) as char
    } else if v < 62 {
        (48 + v - 52) as char
    } else if v == 62 {
        '+'
    } else {
        '/'
    }
}

/// Standard Base64 with `=` padding: each group of three bytes becomes four
/// digits; a final group of one or two bytes is padded to four characters.
pub open spec fn base64_standard(b: Seq<u8>) -> Seq<char>
    decreases b.len(),
{
    if b.len() == 0 {
        Seq::empty()
    } else {
        let b0 = b[0] as int;
        let b1 = if b.len() > 1 { b[1] as int } else { 0 };
        let b2 = if b.len() > 2 { b[2] as int } else { 0 };
        if b.len() == 1 {
            seq![base64_digit(b0 / 4), base64_digit((b0 % 4) * 16), '=', '=']
        } else if b.len() == 2 {
            seq![
                base64_digit(b0 / 4),
                base64_digit((b0 % 4) * 16 + b1 / 16),
                base64_digit((b1 % 16) * 4),
                '=',
            ]
        } else {
            seq![
                base64_digit(b0 / 4),
                base64_digit((b0 % 4) * 16 + b1 / 16),
                base64_digit((b1 % 16) * 4 + b2 / 64),
                base64_digit(b2 % 64),
            ] + base64_standard(b.skip(3))
        }
    }
}

/// The length of the Base64 text of `n` bytes, as `base64::encoded_len` computes it.
pub open spec fn base64_len(n: nat) -> nat {
    (n / 3) * 4 + if n % 3 > 0 {
        4nat
    } else {
        0nat
    }
}

/// `base64::engine::general_purpose::STANDARD.encode`: the standard alphabet
/// `A-Z a-z 0-9 + /` with `=` padding.
#[verifier::external_body]
fn base64_encode(bytes: &[u8]) -> (s: String)
    requires
        base64_len(bytes@.len()) <= usize::MAX,
    ensures
        s@ == base64_standard(bytes@),
{
    base64::engine::general_purpose::STANDARD.encode(bytes)
}

/// The bytes that `png` 0.17 writes for an 8-bit RGBA image of the given size.
pub uninterp spec fn png_rgba8(width: u32, height: u32, rgba: Seq<u8>) -> Seq<u8>;

/// Why `png` refuses an 8-bit RGBA image, as the messages read: a zero width
/// or height is refused by the header, a buffer that is not four bytes per
/// pixel by the image data.
pub open spec fn png_error(width: u32, height: u32, len: nat) -> Option<Seq<char>> {
    if width == 0 {
        Some("PNG header: Zero width not allowed"@)
    } else if height == 0 {
        Some("PNG header: Zero height not allowed"@)
    } else if len != 4 * width * height {
        Some(
            "PNG data: wrong data size, expected "@ + decimal((4 * width * height) as nat)
                + " got "@ + decimal(len),
        )
    } else {
        None
    }
}

/// `png::Encoder::new` with `ColorType::Rgba` and `BitDepth::Eight`, then
/// `write_header` and `write_image_data`, into a `Vec<u8>`. The contract
/// claims the encoder's checks as its source makes them (zero width, zero
/// height, then a buffer of other than four bytes per pixel, each with the
/// message of its `Display`) and that writing to a vector never fails. The
/// bytes of the file are named, not stated.
#[verifier::external_body]
fn png_encode_rgba8(rgba: &[u8], width: u32, height: u32) -> (r: Result<Vec<u8>, String>)
    requires
        4 * width * height <= usize::MAX,
    ensures
        r is Ok <==> png_error(width, height, rgba@.len()) is None,
        r matches Ok(bytes) ==> bytes@ == png_rgba8(width, height, rgba@),
        r matches Err(m) ==> png_error(width, height, rgba@.len()) == Some(m@),
{
    let mut bytes = Vec::new();
    {
        let mut encoder = png::Encoder::new(&mut bytes, width, height);
        encoder.set_color(png::ColorType::Rgba);
        encoder.set_depth(png::BitDepth::Eight);
        let mut writer = encoder.write_header().map_err(|e| format!("PNG header: {e}"))?;
        writer.write_image_data(rgba).map_err(|e| format!("PNG data: {e}"))?;
    }
    Ok(bytes)
}

/// The PNG file of a rasterized RGBA8 surface layer, with its height.
pub fn encode_png(rgba: &[u8], pixel_width: u32, pixel_height: u32) -> (r: Result<
    (Vec<u8>, u32),
    String,
>)
    requires
        4 * pixel_width * pixel_height <= usize::MAX,
    ensures
        r is Ok <==> png_error(pixel_width, pixel_height, rgba@.len()) is None,
        r matches Ok((bytes, h)) ==> bytes@ == png_rgba8(pixel_width, pixel_height, rgba@) && h
            == pixel_height,
        r matches Err(m) ==> png_error(pixel_width, pixel_height, rgba@.len()) == Some(m@),
{
    let bytes = png_encode_rgba8(rgba, pixel_width, pixel_height)?;
    Ok((bytes, pixel_height))
}

/// The Base64 text of a rendered PNG layer, with its height; a rendering
/// error passes through.
pub fn render_png_base64(rendered: Result<(Vec<u8>, u32), String>) -> (r: Result<(String, u32), String>)
    requires
        rendered matches Ok((png, _)) ==> base64_len(png@.len()) <= usize::MAX,
    ensures
        match rendered {
            Ok((png, h)) => r matches Ok((text, h2)) && text@ == base64_standard(png@) && h2 == h,
            Err(e) => r == Err::<(String, u32), String>(e),
        },
{
    let (png, height) = rendered?;
    Ok((base64_encode(&png), height))
}

/// Little-endian bytes of a 32-bit length.
pub open spec fn le_u32(n: nat) -> Seq<u8> {
    seq![
        (n % 256) as u8,
        ((n / 256) % 256) as u8,
        ((n / 65536) % 256) as u8,
        ((n / 16777216) % 256) as u8,
    ]
}

pub open spec fn metadata_too_large() -> Seq<char> {
    "STEP drawing metadata too large"@
}

/// The binary envelope of a native STEP drawing: the length of the JSON
/// metadata as four little-endian bytes, the metadata, then the PNG layer.
pub fn encode_step_payload(json: &[u8], png: &[u8]) -> (r: Result<Vec<u8>, String>)
    requires
        4 + json@.len() + png@.len() <= usize::MAX,
    ensures
        r is Ok <==> json@.len() <= u32::MAX,
        r matches Ok(bytes) ==> bytes@ == le_u32(json@.len()) + json@ + png@,
        r matches Err(m) ==> m@ == metadata_too_large(),
{
    if json.len() > 0xffff_ffffusize {
        return Err(string_from_chars(chars_of("STEP drawing metadata too large")));
    }
    let n = json.len();
    let mut bytes: Vec<u8> = Vec::with_capacity(4 + json.len() + png.len());
    bytes.push((n % 256) as u8);
    bytes.push(((n / 256) % 256) as u8);
    bytes.push(((n / 65536) % 256) as u8);
    bytes.push(((n / 16777216) % 256) as u8);
    let mut i: usize = 0;
    while i < json.len()
        invariant
            i <= json@.len(),
            bytes@ == le_u32(json@.len()) + json@.take(i as int),
        decreases json@.len() - i,
    {
        bytes.push(json[i]);
        i += 1;
        assert(bytes@ =~= le_u32(json@.len()) + json@.take(i as int));
    }
    assert(json@.take(json@.len() as int) =~= json@);
    let mut j: usize = 0;
    while j < png.len()
        invariant
            j <= png@.len(),
            bytes@ == le_u32(json@.len()) + json@ + png@.take(j as int),
        decreases png@.len() - j,
    {
        bytes.push(png[j]);
        j += 1;
        assert(bytes@ =~= le_u32(json@.len()) + json@ + png@.take(j as int));
    }
    assert(png@.take(png@.len() as int) =~= png@);
    Ok(bytes)
}

/// The number that four little-endian bytes encode.
pub open spec fn le_value(b: Seq<u8>) -> int {
    b[0] as int + 256 * b[1] as int + 65536 * b[2] as int + 16777216 * b[3] as int
}

/// A reader of the envelope gets back what was put in: the first four bytes
/// give the length of the metadata, the bytes after them are the metadata,
/// and the rest is the PNG layer.
pub proof fn law_payload_splits_back(json: Seq<u8>, png: Seq<u8>)
    requires
        json.len() <= u32::MAX,
    ensures
        ({
            let b = le_u32(json.len()) + json + png;
            &&& le_value(b.take(4)) == json.len()
            &&& b.subrange(4, 4 + json.len() as int) == json
            &&& b.skip(4 + json.len() as int) == png
        }),
{
    let n = json.len();
    let b = le_u32(n) + json + png;
    let x = n as u32;
    assert(x as int == n);
    assert((x % 256) as int + 256 * ((x / 256) % 256) as int + 65536 * ((x / 65536) % 256) as int
        + 16777216 * ((x / 16777216) % 256) as int == x as int) by (nonlinear_arith);
    assert(b.take(4) =~= le_u32(n));
    assert(b.subrange(4, 4 + n as int) =~= json);
    assert(b.skip(4 + n as int) =~= png);
}

} // verus!
