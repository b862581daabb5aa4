//! Laws that tie the template overlay to the template compare.
use crate::wplace::compare::{color_count, in_color, mismatched};
use crate::wplace::overlay::{differs, overlaid};
use vstd::prelude::*;

verus! {

/// Byte `4 * p + k` of an RGBA buffer belongs to pixel `p`, as channel `k`.
proof fn lemma_byte_of_pixel(p: int, k: int)
    requires
        0 <= p,
        0 <= k < 4,
    ensures
        (4 * p + k) / 4 == p,
        (4 * p + k) % 4 == k,
{
}

/// After an overlay with a visible alpha, no pixel of the result differs
/// from the template any more.
pub proof fn law_overlay_settles(t: Seq<u8>, a: Seq<u8>, alpha: u8, p: int)
    requires
        t.len() == a.len(),
        a.len() % 4 == 0,
        0 <= p < a.len() / 4,
        alpha != 0,
    ensures
        !differs(t, overlaid(t, a, alpha), p),
{
    lemma_byte_of_pixel(p, 0);
    lemma_byte_of_pixel(p, 1);
    lemma_byte_of_pixel(p, 2);
    lemma_byte_of_pixel(p, 3);
}

/// Overlaying twice with one alpha gives what overlaying once gave.
pub proof fn law_overlay_idempotent(t: Seq<u8>, a: Seq<u8>, alpha: u8)
    requires
        t.len() == a.len(),
        a.len() % 4 == 0,
    ensures
        overlaid(t, overlaid(t, a, alpha), alpha) == overlaid(t, a, alpha),
{
    let o = overlaid(t, a, alpha);
    assert forall|b: int| 0 <= b < o.len() implies #[trigger] overlaid(t, o, alpha)[b] == o[b] by {
        let p = b / 4;
        assert(0 <= p < a.len() / 4);
        lemma_byte_of_pixel(p, 0);
        lemma_byte_of_pixel(p, 1);
        lemma_byte_of_pixel(p, 2);
        lemma_byte_of_pixel(p, 3);
        assert(4 * p <= b < 4 * p + 4);
    }
    assert(overlaid(t, o, alpha) =~= o);
}

/// Pixels that already match the template (or that the template leaves
/// transparent) come out of an overlay unchanged.
pub proof fn law_overlay_keeps_matching(t: Seq<u8>, a: Seq<u8>, alpha: u8, b: int)
    requires
        t.len() == a.len(),
        0 <= b < a.len(),
        !differs(t, a, b / 4),
    ensures
        overlaid(t, a, alpha)[b] == a[b],
{
}

/// A template compared with itself lacks no pixel of any color.
pub proof fn law_compare_self(t: Seq<u8>, c: int, n: int)
    ensures
        color_count(t, t, c, n) == 0,
    decreases n,
{
    if n > 0 {
        law_compare_self(t, c, n - 1);
        assert(!(in_color(t, n - 1, c) && mismatched(t, t, n - 1)));
    }
}

/// Once the template is overlaid on the actual image with a visible alpha,
/// comparing the template with the result finds no pixel missing, for any
/// color.
pub proof fn law_overlay_then_compare(t: Seq<u8>, a: Seq<u8>, alpha: u8, c: int, n: int)
    requires
        t.len() == a.len(),
        a.len() % 4 == 0,
        0 <= n <= a.len() / 4,
        alpha != 0,
    ensures
        color_count(t, overlaid(t, a, alpha), c, n) == 0,
    decreases n,
{
    if n > 0 {
        let o = overlaid(t, a, alpha);
        let p = n - 1;
        law_overlay_then_compare(t, a, alpha, c, p);
        lemma_byte_of_pixel(p, 0);
        lemma_byte_of_pixel(p, 1);
        lemma_byte_of_pixel(p, 2);
        lemma_byte_of_pixel(p, 3);
        if in_color(t, p, c) {
            assert(!mismatched(t, o, p));
        }
    }
}

/// Channel `k` of pixel `p` after an overlay: where the template pixel is
/// opaque and the actual pixel is transparent or differs in red, green or
/// blue, the template's color with alpha `alpha`; elsewhere the actual
/// pixel.
pub proof fn law_overlay_pixel(t: Seq<u8>, a: Seq<u8>, alpha: u8, p: int, k: int)
    requires
        t.len() == a.len(),
        a.len() % 4 == 0,
        0 <= p < a.len() / 4,
        0 <= k < 4,
    ensures
        overlaid(t, a, alpha).len() == a.len(),
        overlaid(t, a, alpha)[4 * p + k] == (if t[4 * p + 3] != 0 && (a[4 * p + 3] == 0 || t[4 * p] != a[4 * p] || t[4
            * p + 1] != a[4 * p + 1] || t[4 * p + 2] != a[4 * p + 2]) {
            if k == 3 {
                alpha
            } else {
                t[4 * p + k]
            }
        } else {
            a[4 * p + k]
        }),
{
    lemma_byte_of_pixel(p, k);
}

} // verus!
