//! RGBA rasters, and their decoding from and encoding to image files, which
//! the `image` crate does.
use vstd::prelude::*;

verus! {

/// What `image::load_from_memory(bytes)` followed by `to_rgba8` gives: width,
/// height and the RGBA bytes in row-major order, or the error's message.
pub uninterp spec fn decoded_image(bytes: Seq<u8>) -> Result<(u32, u32, Seq<u8>), Seq<char>>;

/// What the `image` crate's PNG encoder writes for an RGBA raster of the
/// given size and bytes, or the error's message.
pub uninterp spec fn png_encoding(width: u32, height: u32, pixels: Seq<u8>) -> Result<Seq<u8>, Seq<char>>;

/// Calls `image::load_from_memory` (which guesses the format from the bytes
/// and decodes them) and converts the result with `DynamicImage::to_rgba8`.
/// Claimed: the result is `decoded_image` of the bytes, and the raw buffer
/// holds at least four bytes per pixel, as every `ImageBuffer` does (its
/// constructors check `4 * width * height <= len` without overflow).
#[verifier::external_body]
fn load_rgba(bytes: &[u8]) -> (r: Result<(u32, u32, Vec<u8>), String>)
    ensures
        match r {
            Ok((w, h, data)) => {
                &&& decoded_image(bytes@) == Ok::<(u32, u32, Seq<u8>), Seq<char>>((w, h, data@))
                &&& 4 * w * h <= data@.len()
            },
            Err(msg) => decoded_image(bytes@) == Err::<(u32, u32, Seq<u8>), Seq<char>>(msg@),
        },
{
    match image::load_from_memory(bytes) {
        Ok(img) => {
            let rgba = img.to_rgba8();
            let (w, h) = rgba.dimensions();
            Ok((w, h, rgba.into_raw()))
        },
        Err(e) => Err(e.to_string()),
    }
}

/// Calls `image::write_buffer_with_format` with the PNG format and the RGBA8
/// color type, writing into a byte vector (what `RgbaImage::write_to` does).
/// Claimed: the bytes written, or the error's message, are `png_encoding` of
/// the arguments.  The encoder panics unless the buffer holds exactly four
/// bytes per pixel, hence the precondition.
#[verifier::external_body]
fn encode_png(width: u32, height: u32, pixels: &[u8]) -> (r: Result<Vec<u8>, String>)
    requires
        pixels@.len() == 4 * width * height,
    ensures
        match r {
            Ok(out) => png_encoding(width, height, pixels@) == Ok::<Seq<u8>, Seq<char>>(out@),
            Err(msg) => png_encoding(width, height, pixels@) == Err::<Seq<u8>, Seq<char>>(msg@),
        },
{
    let mut out: Vec<u8> = Vec::new();
    let res = image::write_buffer_with_format(
        &mut std::io::Cursor::new(&mut out),
        pixels,
        width,
        height,
        image::ExtendedColorType::Rgba8,
        image::ImageFormat::Png,
    );
    match res {
        Ok(()) => Ok(out),
        Err(e) => Err(e.to_string()),
    }
}

/// Abstract form of the errors of the image tools.
pub enum ErrorModel {
    Load(Seq<char>),
    Encode(Seq<char>),
    DimensionMismatch,
}

/// Errors of the image tools.
#[derive(Debug)]
pub enum WplaceError {
    /// An image could not be decoded; the decoder's message.
    Load(String),
    /// The result could not be encoded; the encoder's message.
    Encode(String),
    /// Template and actual image differ in size.
    DimensionMismatch,
}

impl View for WplaceError {
    type V = ErrorModel;

    open spec fn view(&self) -> ErrorModel {
        match self {
            WplaceError::Load(m) => ErrorModel::Load(m@),
            WplaceError::Encode(m) => ErrorModel::Encode(m@),
            WplaceError::DimensionMismatch => ErrorModel::DimensionMismatch,
        }
    }
}

/// Abstract form of a result of the image tools.
pub open spec fn result_view<T: View>(r: Result<T, WplaceError>) -> Result<T::V, ErrorModel> {
    match r {
        Ok(v) => Ok(v@),
        Err(e) => Err(e@),
    }
}

/// An RGBA raster: `pixels` holds four bytes per pixel, row by row.
pub struct Raster {
    pub width: u32,
    pub height: u32,
    pub pixels: Vec<u8>,
}

/// Abstract raster: width, height and bytes.
pub struct RasterModel {
    pub width: u32,
    pub height: u32,
    pub pixels: Seq<u8>,
}

impl View for Raster {
    type V = RasterModel;

    open spec fn view(&self) -> RasterModel {
        RasterModel { width: self.width, height: self.height, pixels: self.pixels@ }
    }
}

/// The raster holds exactly four bytes per pixel.
pub open spec fn raster_wf(r: RasterModel) -> bool {
    r.pixels.len() == 4 * r.width * r.height
}

/// The raster that decoding `bytes` gives, or the error.
pub open spec fn decoded_raster(bytes: Seq<u8>) -> Result<RasterModel, ErrorModel> {
    match decoded_image(bytes) {
        Ok((w, h, data)) => Ok(RasterModel { width: w, height: h, pixels: data.take(4 * w * h) }),
        Err(m) => Err(ErrorModel::Load(m)),
    }
}

/// The PNG file for a raster, or the error.
pub open spec fn encoded_raster(r: RasterModel) -> Result<Seq<u8>, ErrorModel> {
    match png_encoding(r.width, r.height, r.pixels) {
        Ok(b) => Ok(b),
        Err(m) => Err(ErrorModel::Encode(m)),
    }
}

/// Position of channel `c` of pixel `(x, y)` in the bytes of a raster `w`
/// pixels wide.
pub open spec fn pix(w: int, y: int, x: int, c: int) -> int {
    4 * (y * w + x) + c
}

/// Byte positions of the pixels of a `w` by `h` raster lie within its
/// `4 * w * h` bytes.
pub proof fn lemma_pix_bound(w: int, h: int, y: int, x: int, c: int)
    requires
        0 <= y < h,
        0 <= x < w,
        0 <= c < 4,
    ensures
        0 <= y * w,
        y * w + x < w * h,
        0 <= pix(w, y, x, c) < 4 * w * h,
        4 * w * h == 4 * (w * h),
{
    assert(y * w + x < w * h) by (nonlinear_arith)
        requires
            0 <= y < h,
            0 <= x < w,
    ;
    assert(0 <= y * w) by (nonlinear_arith)
        requires
            0 <= y,
            0 <= x < w,
    ;
    vstd::arithmetic::mul::lemma_mul_is_associative(4, w, h);
}

/// Distinct pixels and channels have distinct byte positions.
pub proof fn lemma_pix_injective(w: int, y1: int, x1: int, c1: int, y2: int, x2: int, c2: int)
    requires
        0 <= y1,
        0 <= y2,
        0 <= x1 < w,
        0 <= x2 < w,
        0 <= c1 < 4,
        0 <= c2 < 4,
        pix(w, y1, x1, c1) == pix(w, y2, x2, c2),
    ensures
        y1 == y2,
        x1 == x2,
        c1 == c2,
{
    assert(y1 * w + x1 == y2 * w + x2 && c1 == c2);
    if y1 < y2 {
        assert(y1 * w + w <= y2 * w) by (nonlinear_arith)
            requires
                y1 < y2,
                0 < w,
        ;
    } else if y2 < y1 {
        assert(y2 * w + w <= y1 * w) by (nonlinear_arith)
            requires
                y2 < y1,
                0 < w,
        ;
    }
}

/// Every byte position of a `w` by `h` raster is channel `b % 4` of pixel
/// `(b / 4 % w, b / 4 / w)`.
pub proof fn lemma_pix_decompose(w: int, h: int, b: int)
    requires
        0 < w,
        0 <= b < 4 * w * h,
    ensures
        0 <= b / 4 / w < h,
        0 <= b / 4 % w < w,
        0 <= b % 4 < 4,
        pix(w, b / 4 / w, b / 4 % w, b % 4) == b,
{
    let p = b / 4;
    vstd::arithmetic::div_mod::lemma_fundamental_div_mod(b, 4);
    vstd::arithmetic::div_mod::lemma_mod_pos_bound(b, 4);
    vstd::arithmetic::div_mod::lemma_fundamental_div_mod(p, w);
    vstd::arithmetic::div_mod::lemma_mod_pos_bound(p, w);
    vstd::arithmetic::mul::lemma_mul_is_associative(4, w, h);
    assert(p < w * h);
    vstd::arithmetic::div_mod::lemma_div_pos_is_pos(p, w);
    vstd::arithmetic::mul::lemma_mul_is_commutative(w, h);
    vstd::arithmetic::div_mod::lemma_div_by_multiple_is_strongly_ordered(p, h * w, h, w);
    vstd::arithmetic::div_mod::lemma_div_multiples_vanish(h, w);
    assert(p / w * w == w * (p / w)) by (nonlinear_arith);
}

/// The channel of a byte position is its remainder modulo four.
pub proof fn lemma_pix_channel(w: int, y: int, x: int, c: int)
    requires
        0 <= c < 4,
    ensures
        pix(w, y, x, c) % 4 == c,
{
    vstd::arithmetic::div_mod::lemma_mod_multiples_vanish(y * w + x, c, 4);
    vstd::arithmetic::div_mod::lemma_small_mod(c as nat, 4);
}

/// Channel `c` of an RGBA value.
pub open spec fn channel(p: (u8, u8, u8, u8), c: int) -> u8 {
    if c == 0 {
        p.0
    } else if c == 1 {
        p.1
    } else if c == 2 {
        p.2
    } else {
        p.3
    }
}

/// Sets pixel `(x, y)` of a `w` by `h` raster's bytes to `p`.
pub fn put_pixel(buf: &mut Vec<u8>, w: usize, h: usize, y: usize, x: usize, p: (u8, u8, u8, u8))
    requires
        old(buf)@.len() == 4 * w * h,
        y < h,
        x < w,
    ensures
        final(buf)@.len() == old(buf)@.len(),
        forall|yy: int, xx: int, cc: int|
            #![trigger pix(w as int, yy, xx, cc)]
            0 <= yy < h && 0 <= xx < w && 0 <= cc < 4 ==> final(buf)@[pix(w as int, yy, xx, cc)] == (if yy
                == y && xx == x {
                channel(p, cc)
            } else {
                old(buf)@[pix(w as int, yy, xx, cc)]
            }),
{
    proof {
        lemma_pix_bound(w as int, h as int, y as int, x as int, 3);
    }
    let n = buf.len();
    assert(y * w + x < w * h && 4 * (w * h) == n);
    let base: usize = 4 * (y * w + x);
    buf.set(base, p.0);
    buf.set(base + 1, p.1);
    buf.set(base + 2, p.2);
    buf.set(base + 3, p.3);
    assert forall|yy: int, xx: int, cc: int|
        #![trigger pix(w as int, yy, xx, cc)]
        0 <= yy < h && 0 <= xx < w && 0 <= cc < 4 implies buf@[pix(w as int, yy, xx, cc)] == (if yy
            == y && xx == x {
            channel(p, cc)
        } else {
            old(buf)@[pix(w as int, yy, xx, cc)]
        }) by {
        lemma_pix_bound(w as int, h as int, yy, xx, cc);
        if !(yy == y && xx == x) {
            let q = pix(w as int, yy, xx, cc);
            if q == base || q == base + 1 || q == base + 2 || q == base + 3 {
                lemma_pix_injective(w as int, yy, xx, cc, y as int, x as int, q - base);
            }
        }
    }
}

/// `4 * width * height`, for a size known to fit in `bound`.
pub fn pixel_bytes(width: u32, height: u32, bound: usize) -> (n: usize)
    requires
        4 * width * height <= bound,
    ensures
        n == 4 * width * height,
{
    assert(width * height <= 0xffff_ffff_ffff_ffffint) by (nonlinear_arith)
        requires
            width <= 0xffff_ffffint,
            height <= 0xffff_ffffint,
    ;
    let wh: u64 = width as u64 * height as u64;
    assert(4 * width * height == 4 * (width * height)) by (nonlinear_arith);
    assert(4 * wh <= 0xffff_ffff_ffff_ffffint) by (nonlinear_arith)
        requires
            4 * wh <= bound,
            bound <= usize::MAX,
            usize::MAX <= 0xffff_ffff_ffff_ffffu64,
    ;
    (4 * wh) as usize
}

/// A whole number of pixels takes a multiple of four bytes.
pub proof fn lemma_pixel_bytes_mod4(width: int, height: int)
    ensures
        (4 * width * height) % 4 == 0,
{
    vstd::arithmetic::mul::lemma_mul_is_associative(4, width, height);
    vstd::arithmetic::mul::lemma_mul_is_commutative(4, width * height);
    vstd::arithmetic::div_mod::lemma_mod_multiples_basic(width * height, 4);
}

/// Decodes an image file of any format the `image` crate knows into an
/// RGBA raster.
pub fn load_image(bytes: &[u8]) -> (r: Result<Raster, WplaceError>)
    ensures
        result_view(r) == decoded_raster(bytes@),
        r matches Ok(img) ==> raster_wf(img@),
{
    match load_rgba(bytes) {
        Ok((w, h, data)) => {
            let mut data = data;
            let n = pixel_bytes(w, h, data.len());
            data.truncate(n);
            Ok(Raster { width: w, height: h, pixels: data })
        },
        Err(msg) => Err(WplaceError::Load(msg)),
    }
}

/// Encodes a raster as a PNG file.
pub fn to_png_bytes(img: &Raster) -> (r: Result<Vec<u8>, WplaceError>)
    requires
        raster_wf(img@),
    ensures
        result_view(r) == encoded_raster(img@),
{
    match encode_png(img.width, img.height, img.pixels.as_slice()) {
        Ok(out) => Ok(out),
        Err(msg) => Err(WplaceError::Encode(msg)),
    }
}

} // verus!
