//! Format adapters. The engine never sees files or formats: the ports decode
//! here into plain sRGB RGBA8 and hand buffers over.
//!
//! Decoding and PNG / WebP encoding are done by the `image` crate, JPEG
//! encoding by `jpeg-encoder`. What this module decides itself is which format
//! a file name asks for, the JPEG size limit and quality, and how translucent
//! pixels are flattened for a format without alpha.

use vstd::prelude::*;

use crate::parse::{ascii_lower, lower_eq, opt_bytes};
use vstd::string::StringSliceAdditionalSpecFns;
use image::ImageEncoder;

verus! {

#[verifier::external_type_specification]
#[verifier::external_body]
pub struct ExImageError(image::ImageError);

/// An encoded image format.
#[derive(Debug, Clone, Copy, PartialEq, Eq, Structural)]
pub enum ImageFormat {
    Png,
    Jpeg,
    /// Encoded losslessly (the `image` crate's webp encoder is lossless-only).
    WebP,
}

/// `"png"`
pub open spec fn ext_png() -> Seq<u8> {
    seq![112u8, 110, 103]
}

/// `"jpg"`
pub open spec fn ext_jpg() -> Seq<u8> {
    seq![106u8, 112, 103]
}

/// `"jpeg"`
pub open spec fn ext_jpeg() -> Seq<u8> {
    seq![106u8, 112, 101, 103]
}

/// `"webp"`
pub open spec fn ext_webp() -> Seq<u8> {
    seq![119u8, 101, 98, 112]
}

/// The format a file extension names, compared without regard to ASCII case.
pub open spec fn format_for_extension(ext: Seq<u8>) -> Option<ImageFormat> {
    let l = ascii_lower(ext);
    if l == ext_png() {
        Some(ImageFormat::Png)
    } else if l == ext_jpg() || l == ext_jpeg() {
        Some(ImageFormat::Jpeg)
    } else if l == ext_webp() {
        Some(ImageFormat::WebP)
    } else {
        None
    }
}

/// Lowering ASCII case twice is lowering it once.
pub proof fn lemma_ascii_lower_idempotent(b: Seq<u8>)
    ensures
        ascii_lower(ascii_lower(b)) == ascii_lower(b),
{
    assert(ascii_lower(ascii_lower(b)) =~= ascii_lower(b));
}

/// Format detection ignores ASCII case: an extension names the same format as its
/// lowercase form, so every spelling of png, jpg, jpeg or webp in any mix of upper and
/// lower case (`WEBP`, `WebP`, `webp`) names that format, and nothing else names one.
pub proof fn lemma_extension_ignores_case(ext: Seq<u8>)
    ensures
        format_for_extension(ext) == format_for_extension(ascii_lower(ext)),
        ascii_lower(ext) == ext_png() ==> format_for_extension(ext) == Some(ImageFormat::Png),
        ascii_lower(ext) == ext_jpg() ==> format_for_extension(ext) == Some(ImageFormat::Jpeg),
        ascii_lower(ext) == ext_jpeg() ==> format_for_extension(ext) == Some(ImageFormat::Jpeg),
        ascii_lower(ext) == ext_webp() ==> format_for_extension(ext) == Some(ImageFormat::WebP),
        format_for_extension(ext) is Some <==> (ascii_lower(ext) == ext_png()
            || ascii_lower(ext) == ext_jpg() || ascii_lower(ext) == ext_jpeg()
            || ascii_lower(ext) == ext_webp()),
{
    lemma_ascii_lower_idempotent(ext);
    assert(ext_png() != ext_jpg() && ext_png() != ext_jpeg() && ext_png() != ext_webp()) by {
        assert(ext_png()[0] != ext_jpg()[0]);
        assert(ext_png().len() != ext_jpeg().len());
        assert(ext_png().len() != ext_webp().len());
    }
    assert(ext_jpg() != ext_webp() && ext_jpeg() != ext_webp()) by {
        assert(ext_jpg().len() != ext_webp().len());
        assert(ext_jpeg()[0] != ext_webp()[0]);
    }
}

/// The extension of a path, as `std::path::Path::extension` finds it (the part
/// of the file name after its final `.`), as UTF-8 bytes. Where the file name
/// starts follows the separator rules of the target the crate is built for
/// (`/`, and on Windows `\` as well), which are fixed for a build.
pub uninterp spec fn path_extension(path: Seq<u8>) -> Option<Seq<u8>>;

/// Calls `std::path::Path::extension` on `path` and reads the result back as
/// text. Claimed: the result is `path_extension` of the path's bytes, a
/// function of the path text alone. A path given as `&str` is valid UTF-8, and
/// so is every part of it that `extension` cuts out at a `.`.
#[verifier::external_body]
fn extension_of(path: &str) -> (r: Option<&str>)
    ensures
        opt_bytes(r) == path_extension(path.spec_bytes()),
{
    match std::path::Path::new(path).extension() {
        Some(e) => e.to_str(),
        None => None,
    }
}

impl ImageFormat {
    /// The format named by a file extension (case-insensitive):
    /// png, jpg / jpeg, webp.
    pub fn from_extension(ext: &str) -> (r: Option<ImageFormat>)
        ensures
            r == format_for_extension(ext.spec_bytes()),
    {
        let b = ext.as_bytes();
        let n = b.len();
        let png: [u8; 3] = [112u8, 110, 103];
        let jpg: [u8; 3] = [106u8, 112, 103];
        let jpeg: [u8; 4] = [106u8, 112, 101, 103];
        let webp: [u8; 4] = [119u8, 101, 98, 112];
        proof {
            assert(png@ =~= ext_png());
            assert(jpg@ =~= ext_jpg());
            assert(jpeg@ =~= ext_jpeg());
            assert(webp@ =~= ext_webp());
            assert(b@.subrange(0, n as int) =~= b@);
        }
        if lower_eq(b, 0, n, &png) {
            Some(ImageFormat::Png)
        } else if lower_eq(b, 0, n, &jpg) || lower_eq(b, 0, n, &jpeg) {
            Some(ImageFormat::Jpeg)
        } else if lower_eq(b, 0, n, &webp) {
            Some(ImageFormat::WebP)
        } else {
            None
        }
    }

    /// Detect from a file extension (case-insensitive).
    pub fn from_path(path: &str) -> (r: Option<ImageFormat>)
        ensures
            r == (match path_extension(path.spec_bytes()) {
                Some(ext) => format_for_extension(ext),
                None => None,
            }),
    {
        match extension_of(path) {
            Some(ext) => ImageFormat::from_extension(ext),
            None => None,
        }
    }

    pub open spec fn spec_name(self) -> Seq<char> {
        match self {
            ImageFormat::Png => seq!['p', 'n', 'g'],
            ImageFormat::Jpeg => seq!['j', 'p', 'e', 'g'],
            ImageFormat::WebP => seq!['w', 'e', 'b', 'p'],
        }
    }

    pub fn name(self) -> (s: &'static str)
        ensures
            s@ == self.spec_name(),
    {
        match self {
            ImageFormat::Png => {
                let s = "png";
                proof {
                    reveal_strlit("png");
                }
                s
            },
            ImageFormat::Jpeg => {
                let s = "jpeg";
                proof {
                    reveal_strlit("jpeg");
                }
                s
            },
            ImageFormat::WebP => {
                let s = "webp";
                proof {
                    reveal_strlit("webp");
                }
                s
            },
        }
    }
}

/// Decoded image: straight (non-premultiplied) sRGB RGBA8.
pub struct Decoded {
    pub width: u32,
    pub height: u32,
    pub rgba8: Vec<u8>,
}

impl Decoded {
    /// Four bytes per pixel, row-major.
    pub open spec fn wf(&self) -> bool {
        self.rgba8@.len() == self.width * self.height * 4
    }
}

#[derive(Debug)]
pub enum CodecError {
    Decode(image::ImageError),
    Encode(image::ImageError),
    JpegEncode(String),
    JpegTooLarge { width: u32, height: u32 },
    UnknownFormat(String),
}

/// Calls `image::load_from_memory` (the format is sniffed from the bytes),
/// converts the image with `into_rgba8` and takes its dimensions and raw
/// buffer. Claimed: on success the buffer holds exactly four bytes per pixel
/// (an RGBA8 image buffer of those dimensions). Whether it succeeds, and what
/// it decodes, are not stated: besides the bytes, the crate consults format
/// detection and decoding hooks that any code in the process may register,
/// and reading those registries panics if their lock was poisoned.
#[verifier::external_body]
fn load_rgba8(bytes: &[u8]) -> (r: Result<(u32, u32, Vec<u8>), image::ImageError>)
    ensures
        r matches Ok((w, h, px)) ==> px@.len() == w * h * 4,
{
    match image::load_from_memory(bytes) {
        Ok(img) => {
            let rgba = img.into_rgba8();
            let (w, h) = rgba.dimensions();
            Ok((w, h, rgba.into_raw()))
        },
        Err(e) => Err(e),
    }
}

/// What a load gives: its dimensions and buffer as a [`Decoded`] image, or
/// its error as `Decode`.
pub fn decoded_from(loaded: Result<(u32, u32, Vec<u8>), image::ImageError>) -> (r: Result<
    Decoded,
    CodecError,
>)
    ensures
        match loaded {
            Ok((w, h, px)) => r matches Ok(d) && d.width == w && d.height == h && d.rgba8@ == px@,
            Err(e) => r matches Err(CodecError::Decode(e2)) && e2 == e,
        },
{
    match loaded {
        Ok((width, height, rgba8)) => Ok(Decoded { width, height, rgba8 }),
        Err(e) => Err(CodecError::Decode(e)),
    }
}

/// Decode any supported format (sniffed from the bytes, not the file name).
/// A decoded image holds four bytes per pixel; a decoder's failure comes back
/// as `Decode`.
pub fn decode(bytes: &[u8]) -> (r: Result<Decoded, CodecError>)
    ensures
        r matches Ok(d) ==> d.wf(),
        r matches Err(e) ==> e is Decode,
{
    decoded_from(load_rgba8(bytes))
}

/// What `image::codecs::png::PngEncoder` writes for an RGBA8 image: the PNG
/// bytes, or `None` when it refuses the image.
pub uninterp spec fn png_bytes(rgba8: Seq<u8>, width: u32, height: u32) -> Option<Seq<u8>>;

/// Writes `rgba8` as an RGBA8 PNG with `image::codecs::png::PngEncoder` into a
/// byte vector. The encoder asserts that the buffer holds four bytes per
/// pixel, hence the `requires`. Claimed: the outcome is a function of the
/// pixels and dimensions alone, `png_bytes` (filtering and deflate are
/// deterministic, and writes to a byte vector never fail).
#[verifier::external_body]
fn png_encode(rgba8: &[u8], width: u32, height: u32) -> (r: Result<Vec<u8>, image::ImageError>)
    requires
        rgba8@.len() == width * height * 4,
    ensures
        r is Ok <==> png_bytes(rgba8@, width, height) is Some,
        r matches Ok(b) ==> png_bytes(rgba8@, width, height) == Some(b@),
{
    let mut out = Vec::new();
    match image::codecs::png::PngEncoder::new(std::io::Cursor::new(&mut out)).write_image(
        rgba8,
        width,
        height,
        image::ExtendedColorType::Rgba8,
    ) {
        Ok(()) => Ok(out),
        Err(e) => Err(e),
    }
}

/// What `image::codecs::webp::WebPEncoder::new_lossless` writes for an RGBA8
/// image: the WebP bytes, or `None` when it refuses the image.
pub uninterp spec fn webp_bytes(rgba8: Seq<u8>, width: u32, height: u32) -> Option<Seq<u8>>;

/// A lossless WebP side is 1 to 16384 pixels.
pub open spec fn webp_side_ok(side: u32) -> bool {
    1 <= side <= 16384
}

/// Writes `rgba8` as a lossless RGBA8 WebP with
/// `image::codecs::webp::WebPEncoder::new_lossless` into a byte vector. The
/// encoder asserts that the buffer holds four bytes per pixel, hence the
/// `requires`. Claimed: the outcome is a function of the pixels and
/// dimensions alone, `webp_bytes`, and it fails exactly when a side is 0 or
/// above 16384 (the frame encoder's only check; writes to a byte vector never
/// fail).
#[verifier::external_body]
fn webp_encode(rgba8: &[u8], width: u32, height: u32) -> (r: Result<Vec<u8>, image::ImageError>)
    requires
        rgba8@.len() == width * height * 4,
    ensures
        r is Err <==> (width == 0 || width > 16384 || height == 0 || height > 16384),
        r is Ok <==> webp_bytes(rgba8@, width, height) is Some,
        r matches Ok(b) ==> webp_bytes(rgba8@, width, height) == Some(b@),
{
    let mut out = Vec::new();
    match image::codecs::webp::WebPEncoder::new_lossless(std::io::Cursor::new(&mut out)).write_image(
        rgba8,
        width,
        height,
        image::ExtendedColorType::Rgba8,
    ) {
        Ok(()) => Ok(out),
        Err(e) => Err(e),
    }
}

/// What `jpeg_encoder::Encoder` writes for an RGB image at a quality.
pub uninterp spec fn jpeg_bytes(rgb: Seq<u8>, width: u16, height: u16, quality: u8) -> Seq<u8>;

/// Encodes `rgb` (three bytes per pixel) with `jpeg_encoder::Encoder` at
/// `quality` into a byte vector; an encoder error comes back as its message.
/// Claimed: it fails exactly when a dimension is zero. The encoder's only other
/// failures are a buffer shorter than the image (ruled out by `requires`) and
/// write errors, which a byte vector never raises. The bytes are a function of
/// the pixels, dimensions and quality alone, `jpeg_bytes`: the crate is built
/// without its `simd` feature, so it runs its one scalar path.
#[verifier::external_body]
fn jpeg_encode(rgb: &[u8], width: u16, height: u16, quality: u8) -> (r: Result<Vec<u8>, String>)
    requires
        rgb@.len() == width * height * 3,
    ensures
        r is Err <==> (width == 0 || height == 0),
        r matches Ok(b) ==> b@ == jpeg_bytes(rgb@, width, height, quality),
{
    let mut out = Vec::new();
    match jpeg_encoder::Encoder::new(&mut out, quality).encode(
        rgb,
        width,
        height,
        jpeg_encoder::ColorType::Rgb,
    ) {
        Ok(()) => Ok(out),
        Err(e) => Err(e.to_string()),
    }
}

/// The JPEG quality used for a requested one: 90 when absent, else clamped to 1..=100.
pub open spec fn jpeg_quality_for(quality: Option<u8>) -> u8 {
    match quality {
        None => 90,
        Some(q) => if q < 1 {
            1
        } else if q > 100 {
            100
        } else {
            q
        },
    }
}

/// A requested JPEG quality from 1 to 100 is used as it is; 0 becomes 1, anything
/// above 100 becomes 100, and no request gives 90.
pub proof fn lemma_jpeg_quality(q: u8)
    ensures
        1 <= q <= 100 ==> jpeg_quality_for(Some(q)) == q,
        q == 0 ==> jpeg_quality_for(Some(q)) == 1,
        q > 100 ==> jpeg_quality_for(Some(q)) == 100,
        jpeg_quality_for(None) == 90,
        1 <= jpeg_quality_for(Some(q)) <= 100,
{
}

fn jpeg_quality(quality: Option<u8>) -> (q: u8)
    ensures
        q == jpeg_quality_for(quality),
{
    match quality {
        None => 90u8,
        Some(q) => if q < 1 {
            1u8
        } else if q > 100 {
            100u8
        } else {
            q
        },
    }
}

/// Encode straight sRGB RGBA8. `quality` applies to JPEG only (default 90).
/// JPEG has no alpha: translucent pixels are composited over white first.
pub fn encode(width: u32, height: u32, rgba8: &[u8], format: ImageFormat, quality: Option<u8>) -> (r:
    Result<Vec<u8>, CodecError>)
    requires
        rgba8@.len() == width * height * 4,
    ensures
        format == ImageFormat::Png ==> {
            &&& (r is Ok <==> png_bytes(rgba8@, width, height) is Some)
            &&& (r matches Ok(b) ==> png_bytes(rgba8@, width, height) == Some(b@))
            &&& (r matches Err(e) ==> e is Encode)
        },
        format == ImageFormat::WebP ==> {
            &&& (r is Ok <==> webp_side_ok(width) && webp_side_ok(height))
            &&& (r matches Ok(b) ==> webp_bytes(rgba8@, width, height) == Some(b@))
            &&& (r matches Err(e) ==> e is Encode)
        },
        format == ImageFormat::Jpeg ==> (match r {
            Ok(_) => width <= 65535 && height <= 65535 && width > 0 && height > 0,
            Err(CodecError::JpegTooLarge { width: w, height: h }) => w == width && h == height
                && (width > 65535 || height > 65535),
            Err(CodecError::JpegEncode(_)) => width <= 65535 && height <= 65535 && (width == 0
                || height == 0),
            Err(_) => false,
        }),
        format == ImageFormat::Jpeg ==> (r matches Ok(b) ==> b@ == jpeg_bytes(
            flattened(rgba8@),
            width as u16,
            height as u16,
            jpeg_quality_for(quality),
        )),
{
    match format {
        ImageFormat::Png => match png_encode(rgba8, width, height) {
            Ok(v) => Ok(v),
            Err(e) => Err(CodecError::Encode(e)),
        },
        ImageFormat::WebP => match webp_encode(rgba8, width, height) {
            Ok(v) => Ok(v),
            Err(e) => Err(CodecError::Encode(e)),
        },
        ImageFormat::Jpeg => {
            let (w, h) = match jpeg_dims(width, height) {
                Ok(d) => d,
                Err(e) => return Err(e),
            };
            let rgb = flatten_over_white(rgba8);
            let q = jpeg_quality(quality);
            proof {
                assert(rgba8@.len() / 4 * 3 == width * height * 3) by (nonlinear_arith)
                    requires
                        rgba8@.len() == width * height * 4,
                ;
            }
            match jpeg_encode(rgb.as_slice(), w, h, q) {
                Ok(v) => Ok(v),
                Err(msg) => Err(CodecError::JpegEncode(msg)),
            }
        },
    }
}

/// JPEG dimensions are 16-bit in the format; reject anything larger up front.
pub fn jpeg_dims(width: u32, height: u32) -> (r: Result<(u16, u16), CodecError>)
    ensures
        match r {
            Ok((w, h)) => w == width && h == height,
            Err(CodecError::JpegTooLarge { width: ew, height: eh }) => ew == width && eh
                == height && (width > 65535 || height > 65535),
            Err(_) => false,
        },
{
    if width <= 65535 && height <= 65535 {
        Ok((width as u16, height as u16))
    } else {
        Err(CodecError::JpegTooLarge { width, height })
    }
}

/// One channel composited over white in gamma space: `(c·a + 255·(255−a)) / 255`.
pub open spec fn over_white(c: u8, a: u8) -> u8 {
    ((c * a + 255 * (255 - a)) / 255) as u8
}

/// Flattening over white keeps an opaque channel as it is, turns a fully clear
/// one white, and otherwise lands between the channel and white.
pub proof fn lemma_over_white(c: u8, a: u8)
    ensures
        over_white(c, 255) == c,
        over_white(c, 0) == 255,
        c <= over_white(c, a) <= 255,
{
    assert(c * 255 / 255 == c) by (nonlinear_arith);
    assert(255 * c <= c * a + 255 * (255 - a) <= 255 * 255) by (nonlinear_arith)
        requires
            c <= 255,
            a <= 255,
    ;
    assert(c <= (c * a + 255 * (255 - a)) / 255 <= 255) by (nonlinear_arith)
        requires
            255 * c <= c * a + 255 * (255 - a) <= 255 * 255,
    ;
}

/// Straight RGBA8 flattened over white into RGB8: each whole group of four
/// bytes becomes three, a trailing partial group is dropped.
pub open spec fn flattened(rgba: Seq<u8>) -> Seq<u8> {
    Seq::new(
        (rgba.len() / 4 * 3) as nat,
        |j: int| over_white(rgba[4 * (j / 3) + j % 3], rgba[4 * (j / 3) + 3]),
    )
}

/// `out = a·c + (1−a)·white`, in gamma space — the conventional export flatten.
/// Each whole group of four bytes becomes three; a trailing partial group is
/// dropped.
pub fn flatten_over_white(rgba8: &[u8]) -> (rgb: Vec<u8>)
    ensures
        rgb@ == flattened(rgba8@),
        rgb@.len() == rgba8@.len() / 4 * 3,
        forall|i: int, k: int|
            0 <= i < rgba8@.len() / 4 && 0 <= k < 3 ==> #[trigger] rgb@[3 * i + k] == over_white(
                rgba8@[4 * i + k],
                rgba8@[4 * i + 3],
            ),
{
    let len = rgba8.len();
    let n = len / 4;
    let mut rgb: Vec<u8> = Vec::new();
    let mut i: usize = 0;
    while i < n
        invariant
            len == rgba8@.len(),
            n == rgba8@.len() / 4,
            0 <= i <= n,
            rgb@.len() == 3 * i,
            forall|j: int, k: int|
                0 <= j < i && 0 <= k < 3 ==> #[trigger] rgb@[3 * j + k] == over_white(
                    rgba8@[4 * j + k],
                    rgba8@[4 * j + 3],
                ),
        decreases n - i,
    {
        proof {
            assert(4 * i + 3 < len);
        }
        let base = 4 * i;
        let a = rgba8[base + 3] as u16;
        let mut k: usize = 0;
        while k < 3
            invariant
                n == rgba8@.len() / 4,
                0 <= i < n,
                base == 4 * i,
                a == rgba8@[4 * i + 3],
                0 <= k <= 3,
                rgb@.len() == 3 * i + k,
                forall|j: int, m: int|
                    0 <= j < i && 0 <= m < 3 ==> #[trigger] rgb@[3 * j + m] == over_white(
                        rgba8@[4 * j + m],
                        rgba8@[4 * j + 3],
                    ),
                forall|m: int|
                    0 <= m < k ==> #[trigger] rgb@[3 * i + m] == over_white(
                        rgba8@[4 * i + m],
                        rgba8@[4 * i + 3],
                    ),
            decreases 3 - k,
        {
            let c = rgba8[base + k] as u16;
            proof {
                assert(c * a + 255 * (255 - a) <= 65025) by (nonlinear_arith)
                    requires
                        c <= 255,
                        a <= 255,
                ;
            }
            let v = ((c * a + 255 * (255 - a)) / 255) as u8;
            rgb.push(v);
            k = k + 1;
        }
        i = i + 1;
    }
    proof {
        assert forall|j: int| 0 <= j < rgb@.len() implies rgb@[j] == flattened(rgba8@)[j] by {
            let q = j / 3;
            let m = j % 3;
            vstd::arithmetic::div_mod::lemma_fundamental_div_mod(j, 3);
            assert(j == 3 * q + m);
            assert(0 <= q < n);
            assert(rgb@[3 * q + m] == over_white(rgba8@[4 * q + m], rgba8@[4 * q + 3]));
        }
        assert(rgb@ =~= flattened(rgba8@));
    }
    rgb
}

} // verus!
