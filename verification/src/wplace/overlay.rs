//! Marks, on the actual image, the pixels that differ from the template.
use crate::wplace::raster::{
    decoded_raster, encoded_raster, lemma_pixel_bytes_mod4, load_image, result_view, to_png_bytes, ErrorModel, Raster,
    RasterModel, WplaceError,
};
use vstd::prelude::*;

verus! {

/// The template pixel `p` is opaque and the actual pixel `p` is transparent
/// or of another color.
pub open spec fn differs(t: Seq<u8>, a: Seq<u8>, p: int) -> bool {
    &&& t[4 * p + 3] != 0
    &&& (a[4 * p + 3] == 0 || t[4 * p] != a[4 * p] || t[4 * p + 1] != a[4 * p + 1] || t[4 * p + 2]
        != a[4 * p + 2])
}

/// The actual bytes with every differing pixel replaced by the template's
/// color at the given alpha.
pub open spec fn overlaid(t: Seq<u8>, a: Seq<u8>, alpha: u8) -> Seq<u8> {
    Seq::new(
        a.len(),
        |b: int|
            if differs(t, a, b / 4) {
                if b % 4 == 3 {
                    alpha
                } else {
                    t[b]
                }
            } else {
                a[b]
            },
    )
}

/// The result of overlaying the template file on the actual file.
pub open spec fn overlay_outcome(template: Seq<u8>, actual: Seq<u8>, alpha: u8) -> Result<Seq<u8>, ErrorModel> {
    match decoded_raster(template) {
        Err(e) => Err(e),
        Ok(t) => match decoded_raster(actual) {
            Err(e) => Err(e),
            Ok(a) => if t.width != a.width || t.height != a.height {
                Err(ErrorModel::DimensionMismatch)
            } else {
                encoded_raster(RasterModel { width: a.width, height: a.height, pixels: overlaid(t.pixels, a.pixels, alpha) })
            },
        },
    }
}

/// Replaces, in `actual`, each pixel that differs from `template` by the
/// template's color with alpha `alpha`.
pub fn overlay_pixels(template: &Vec<u8>, actual: Vec<u8>, alpha: u8) -> (r: Vec<u8>)
    requires
        template@.len() == actual@.len(),
        actual@.len() % 4 == 0,
    ensures
        r@ == overlaid(template@, actual@, alpha),
{
    let n = actual.len();
    let ghost a = actual@;
    let ghost t = template@;
    let mut out = actual;
    let mut i: usize = 0;
    while i < n
        invariant
            n == a.len(),
            t.len() == a.len(),
            n % 4 == 0,
            i % 4 == 0,
            i <= n,
            t == template@,
            out@.len() == n,
            forall|b: int| 0 <= b < i ==> out@[b] == overlaid(t, a, alpha)[b],
            forall|b: int| i <= b < n ==> out@[b] == a[b],
        decreases n - i,
    {
        let ghost p: int = i as int / 4;
        assert(i + 4 <= n);
        assert(4 * p == i);
        if template[i + 3] != 0 && (out[i + 3] == 0 || template[i] != out[i] || template[i + 1]
            != out[i + 1] || template[i + 2] != out[i + 2]) {
            out.set(i, template[i]);
            out.set(i + 1, template[i + 1]);
            out.set(i + 2, template[i + 2]);
            out.set(i + 3, alpha);
            assert(differs(t, a, p));
        } else {
            assert(!differs(t, a, p));
        }
        assert forall|b: int| i <= b < i + 4 implies out@[b] == overlaid(t, a, alpha)[b] by {
            assert(b / 4 == p);
            assert(b % 4 == b - i);
        }
        i = i + 4;
    }
    out
}

/// Overlays a template on an actual image: both files are decoded, must be of
/// one size, and every pixel where the template is opaque and the actual
/// image is transparent or of another color takes the template's color with
/// alpha `overlay_alpha`; the result is encoded as PNG.
pub fn wplace_template_overlay(template_bytes: &[u8], actual_bytes: &[u8], overlay_alpha: u8) -> (r: Result<Vec<u8>, WplaceError>)
    ensures
        result_view(r) == overlay_outcome(template_bytes@, actual_bytes@, overlay_alpha),
{
    let template = match load_image(template_bytes) {
        Ok(img) => img,
        Err(e) => return Err(e),
    };
    let actual = match load_image(actual_bytes) {
        Ok(img) => img,
        Err(e) => return Err(e),
    };
    if template.width != actual.width || template.height != actual.height {
        return Err(WplaceError::DimensionMismatch);
    }
    let width = actual.width;
    let height = actual.height;
    proof {
        lemma_pixel_bytes_mod4(width as int, height as int);
    }
    let pixels = overlay_pixels(&template.pixels, actual.pixels, overlay_alpha);
    let out = Raster { width, height, pixels };
    to_png_bytes(&out)
}

} // verus!
