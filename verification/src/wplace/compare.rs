//! Compares an actual image with its template, color by color.
use crate::wplace::raster::{decoded_raster, load_image, pixel_bytes, raster_wf, ErrorModel, Raster, WplaceError};
use crate::wplace::color_map::{
    colors_map_vec, find_color_index, is_nearest, lemma_nearest_unique, lemma_palette_names_distinct, palette,
};
use vstd::prelude::*;
use vstd::string::*;

verus! {

/// Lexicographic order of character sequences (the order of `str`).
pub open spec fn seq_lt(a: Seq<char>, b: Seq<char>) -> bool
    decreases a.len(),
{
    if a.len() == 0 {
        b.len() > 0
    } else if b.len() == 0 {
        false
    } else if a[0] != b[0] {
        (a[0] as int) < (b[0] as int)
    } else {
        seq_lt(a.drop_first(), b.drop_first())
    }
}

/// The order is asymmetric.
pub proof fn lemma_seq_lt_asym(a: Seq<char>, b: Seq<char>)
    ensures
        !(seq_lt(a, b) && seq_lt(b, a)),
    decreases a.len(),
{
    if a.len() > 0 && b.len() > 0 && a[0] == b[0] {
        lemma_seq_lt_asym(a.drop_first(), b.drop_first());
    }
}

/// The order is transitive.
pub proof fn lemma_seq_lt_trans(a: Seq<char>, b: Seq<char>, c: Seq<char>)
    requires
        seq_lt(a, b),
        seq_lt(b, c),
    ensures
        seq_lt(a, c),
    decreases a.len(),
{
    if a.len() > 0 && b.len() > 0 && c.len() > 0 && a[0] == b[0] && b[0] == c[0] {
        lemma_seq_lt_trans(a.drop_first(), b.drop_first(), c.drop_first());
    }
}

/// Any two sequences are equal or ordered one way.
pub proof fn lemma_seq_lt_total(a: Seq<char>, b: Seq<char>)
    ensures
        a == b || seq_lt(a, b) || seq_lt(b, a),
    decreases a.len(),
{
    if a.len() > 0 && b.len() > 0 && a[0] == b[0] {
        lemma_seq_lt_total(a.drop_first(), b.drop_first());
        if a.drop_first() == b.drop_first() {
            assert(a =~= seq![a[0]] + a.drop_first());
            assert(b =~= seq![b[0]] + b.drop_first());
        }
    } else if a.len() == 0 && b.len() == 0 {
        assert(a =~= b);
    } else if a.len() > 0 && b.len() > 0 {
        let x = a[0];
        let y = b[0];
        assert(x != y);
        assert((x as int) != (y as int));
    }
}

/// `a` and `b` agree on their first `i` characters, and there `a` ends
/// while `b` goes on, or `a` has the smaller character.
pub open spec fn first_difference_lt(a: Seq<char>, b: Seq<char>, i: int) -> bool {
    &&& 0 <= i <= a.len()
    &&& i <= b.len()
    &&& forall|j: int| 0 <= j < i ==> a[j] == b[j]
    &&& ((i == a.len() && i < b.len()) || (i < a.len() && i < b.len() && (a[i] as int) < (b[i] as int)))
}

/// `seq_lt` is the lexicographic order: `a` comes before `b` exactly when,
/// at the first position where they differ, `a` ends or has the smaller
/// character.
pub proof fn law_seq_lt_first_difference(a: Seq<char>, b: Seq<char>)
    ensures
        seq_lt(a, b) <==> exists|i: int| #[trigger] first_difference_lt(a, b, i),
    decreases a.len(),
{
    if a.len() == 0 {
        if b.len() > 0 {
            assert(first_difference_lt(a, b, 0));
        }
    } else if b.len() == 0 {
    } else if a[0] != b[0] {
        if (a[0] as int) < (b[0] as int) {
            assert(first_difference_lt(a, b, 0));
        }
        if exists|i: int| #[trigger] first_difference_lt(a, b, i) {
            let i = choose|i: int| #[trigger] first_difference_lt(a, b, i);
            assert(i == 0);
        }
    } else {
        let a1 = a.drop_first();
        let b1 = b.drop_first();
        law_seq_lt_first_difference(a1, b1);
        if seq_lt(a1, b1) {
            let i = choose|i: int| #[trigger] first_difference_lt(a1, b1, i);
            assert forall|j: int| 0 <= j < i + 1 implies a[j] == b[j] by {
                if j > 0 {
                    assert(a[j] == a1[j - 1] && b[j] == b1[j - 1]);
                }
            }
            assert(first_difference_lt(a, b, i + 1));
        }
        if exists|i: int| #[trigger] first_difference_lt(a, b, i) {
            let i = choose|i: int| #[trigger] first_difference_lt(a, b, i);
            assert(i > 0);
            assert forall|j: int| 0 <= j < i - 1 implies a1[j] == b1[j] by {
                assert(a[j + 1] == b[j + 1]);
            }
            assert(first_difference_lt(a1, b1, i - 1));
        }
    }
}

/// Whether `a` comes before `b` in lexicographic order.
pub fn str_lt(a: &str, b: &str) -> (r: bool)
    ensures
        r == seq_lt(a@, b@),
{
    let la = a.unicode_len();
    let lb = b.unicode_len();
    let mut i: usize = 0;
    assert(a@.skip(0) =~= a@ && b@.skip(0) =~= b@);
    while i < la && i < lb
        invariant
            la == a@.len(),
            lb == b@.len(),
            i <= la,
            i <= lb,
            seq_lt(a@, b@) == seq_lt(a@.skip(i as int), b@.skip(i as int)),
        decreases la - i,
    {
        let ca = a.get_char(i);
        let cb = b.get_char(i);
        assert(a@.skip(i as int)[0] == ca && b@.skip(i as int)[0] == cb);
        if ca != cb {
            return (ca as u32) < (cb as u32);
        }
        assert(a@.skip(i as int).drop_first() =~= a@.skip(i + 1));
        assert(b@.skip(i as int).drop_first() =~= b@.skip(i + 1));
        i = i + 1;
    }
    i < lb && i == la
}

/// Index of the palette color nearest to `rgb`.
pub open spec fn nearest(rgb: (u8, u8, u8)) -> int {
    choose|i: int| is_nearest(palette(), rgb, i)
}

/// RGB value of pixel `p`.
pub open spec fn rgb_at(px: Seq<u8>, p: int) -> (u8, u8, u8) {
    (px[4 * p], px[4 * p + 1], px[4 * p + 2])
}

/// Template pixel `p` is opaque and shows palette color `c`.
pub open spec fn in_color(t: Seq<u8>, p: int, c: int) -> bool {
    t[4 * p + 3] != 0 && nearest(rgb_at(t, p)) == c
}

/// Actual pixel `p` has another RGB value than the template's, or is
/// transparent.
pub open spec fn mismatched(t: Seq<u8>, a: Seq<u8>, p: int) -> bool {
    rgb_at(t, p) != rgb_at(a, p) || a[4 * p + 3] == 0
}

/// Number of the first `n` template pixels that show color `c`.
pub open spec fn color_total(t: Seq<u8>, c: int, n: int) -> nat
    decreases n,
{
    if n <= 0 {
        0
    } else {
        color_total(t, c, n - 1) + if in_color(t, n - 1, c) {
            1nat
        } else {
            0nat
        }
    }
}

/// Number of the first `n` pixels that show color `c` in the template and
/// not in the actual image.
pub open spec fn color_count(t: Seq<u8>, a: Seq<u8>, c: int, n: int) -> nat
    decreases n,
{
    if n <= 0 {
        0
    } else {
        color_count(t, a, c, n - 1) + if in_color(t, n - 1, c) && mismatched(t, a, n - 1) {
            1nat
        } else {
            0nat
        }
    }
}

/// Coordinates `(x, y)`, in row-major order, of the first `n` pixels that
/// show color `c` in the template and not in the actual image, for an image
/// `w` pixels wide.
pub open spec fn color_pixels(t: Seq<u8>, a: Seq<u8>, w: int, c: int, n: int) -> Seq<(usize, usize)>
    decreases n,
{
    if n <= 0 {
        Seq::empty()
    } else if in_color(t, n - 1, c) && mismatched(t, a, n - 1) {
        color_pixels(t, a, w, c, n - 1).push((((n - 1) % w) as usize, ((n - 1) / w) as usize))
    } else {
        color_pixels(t, a, w, c, n - 1)
    }
}

/// Abstract form of a `ColorEntry`.
pub struct ColorEntryModel {
    pub color: int,
    pub name: &'static str,
    pub count: nat,
    pub total: nat,
    pub pixels: Seq<(usize, usize)>,
}

/// Comparison result for one palette color.
#[derive(Debug)]
pub struct ColorEntry {
    /// Index of the color in the palette.
    pub color: usize,
    /// Name of the color.
    pub name: &'static str,
    /// Pixels of the color in the template that the actual image lacks.
    pub count: usize,
    /// Pixels of the color in the template.
    pub total: usize,
    /// Coordinates `(x, y)` of the pixels counted in `count`, row by row
    /// (only when asked for).
    pub pixels: Vec<(usize, usize)>,
}

impl View for ColorEntry {
    type V = ColorEntryModel;

    open spec fn view(&self) -> ColorEntryModel {
        ColorEntryModel {
            color: self.color as int,
            name: self.name,
            count: self.count as nat,
            total: self.total as nat,
            pixels: self.pixels@,
        }
    }
}

/// The entry for color `c` over the first `n` pixels.
pub open spec fn entry_for(t: Seq<u8>, a: Seq<u8>, w: int, n: int, c: int, with_pixels: bool) -> ColorEntryModel {
    ColorEntryModel {
        color: c,
        name: palette()[c].0,
        count: color_count(t, a, c, n),
        total: color_total(t, c, n),
        pixels: if with_pixels {
            color_pixels(t, a, w, c, n)
        } else {
            Seq::empty()
        },
    }
}

/// `e` may come before `f`: it has more template pixels, or as many and a
/// name that does not come after `f`'s.
pub open spec fn ranks_before(e: ColorEntryModel, f: ColorEntryModel) -> bool {
    e.total > f.total || (e.total == f.total && !seq_lt(f.name@, e.name@))
}

/// `ranks_before` is total.
pub proof fn lemma_ranks_total(e: ColorEntryModel, f: ColorEntryModel)
    ensures
        ranks_before(e, f) || ranks_before(f, e),
{
    lemma_seq_lt_asym(e.name@, f.name@);
}

/// `ranks_before` is transitive.
pub proof fn lemma_ranks_trans(e: ColorEntryModel, f: ColorEntryModel, g: ColorEntryModel)
    requires
        ranks_before(e, f),
        ranks_before(f, g),
    ensures
        ranks_before(e, g),
{
    if e.total == g.total && seq_lt(g.name@, e.name@) {
        lemma_seq_lt_total(f.name@, g.name@);
        if seq_lt(f.name@, g.name@) {
            lemma_seq_lt_trans(f.name@, g.name@, e.name@);
        }
    }
}

/// The entries are the comparison result over the first `n` pixels: one
/// entry for each color that some template pixel shows, with its counts, in
/// `ranks_before` order.
pub open spec fn entries_ok(es: Seq<ColorEntryModel>, t: Seq<u8>, a: Seq<u8>, w: int, n: int, with_pixels: bool) -> bool {
    &&& forall|k: int|
        0 <= k < es.len() ==> 0 <= (#[trigger] es[k]).color < palette().len() && es[k] == entry_for(
            t,
            a,
            w,
            n,
            es[k].color,
            with_pixels,
        ) && es[k].total > 0
    &&& forall|k: int, l: int| 0 <= k < l < es.len() ==> (#[trigger] es[k]).color != (#[trigger] es[l]).color
    &&& forall|k: int, l: int| 0 <= k < l < es.len() ==> ranks_before(#[trigger] es[k], #[trigger] es[l])
    &&& forall|c: int|
        0 <= c < palette().len() && color_total(t, c, n) > 0 ==> exists|k: int|
            0 <= k < es.len() && (#[trigger] es[k]).color == c
}

/// Some entry of `es` is for color `c`.
pub open spec fn has_color(es: Seq<ColorEntryModel>, c: int) -> bool {
    exists|k: int| 0 <= k < es.len() && (#[trigger] es[k]).color == c
}

/// Entries for two different palette colors never rank before each other
/// both ways.
proof fn lemma_ranks_strict(e: ColorEntryModel, f: ColorEntryModel)
    requires
        0 <= e.color < palette().len(),
        0 <= f.color < palette().len(),
        e.name == palette()[e.color].0,
        f.name == palette()[f.color].0,
        e.color != f.color,
        ranks_before(e, f),
    ensures
        !ranks_before(f, e),
{
    if ranks_before(f, e) {
        lemma_seq_lt_total(e.name@, f.name@);
        lemma_palette_names_distinct();
        if e.color < f.color {
            assert(palette()[e.color].0@ != palette()[f.color].0@);
        } else {
            assert(palette()[f.color].0@ != palette()[e.color].0@);
        }
    }
}

/// Two lists of entries of the same colors, each entry being the one for its
/// color, with no color twice and in `ranks_before` order, are equal.
proof fn lemma_sorted_entries_unique(
    es1: Seq<ColorEntryModel>,
    es2: Seq<ColorEntryModel>,
    t: Seq<u8>,
    a: Seq<u8>,
    w: int,
    n: int,
    with_pixels: bool,
)
    requires
        forall|k: int|
            0 <= k < es1.len() ==> 0 <= (#[trigger] es1[k]).color < palette().len() && es1[k] == entry_for(
                t,
                a,
                w,
                n,
                es1[k].color,
                with_pixels,
            ),
        forall|k: int|
            0 <= k < es2.len() ==> 0 <= (#[trigger] es2[k]).color < palette().len() && es2[k] == entry_for(
                t,
                a,
                w,
                n,
                es2[k].color,
                with_pixels,
            ),
        forall|k: int, l: int| 0 <= k < l < es1.len() ==> (#[trigger] es1[k]).color != (#[trigger] es1[l]).color,
        forall|k: int, l: int| 0 <= k < l < es2.len() ==> (#[trigger] es2[k]).color != (#[trigger] es2[l]).color,
        forall|k: int, l: int| 0 <= k < l < es1.len() ==> ranks_before(#[trigger] es1[k], #[trigger] es1[l]),
        forall|k: int, l: int| 0 <= k < l < es2.len() ==> ranks_before(#[trigger] es2[k], #[trigger] es2[l]),
        forall|c: int| has_color(es1, c) <==> has_color(es2, c),
    ensures
        es1 == es2,
    decreases es1.len(),
{
    if es1.len() == 0 {
        if es2.len() > 0 {
            assert(has_color(es2, es2[0].color));
        }
        assert(es1 =~= es2);
    } else {
        assert(has_color(es1, es1[0].color));
        let k2 = choose|k: int| 0 <= k < es2.len() && (#[trigger] es2[k]).color == es1[0].color;
        assert(has_color(es2, es2[0].color));
        let k1 = choose|k: int| 0 <= k < es1.len() && (#[trigger] es1[k]).color == es2[0].color;
        if es1[0].color != es2[0].color {
            assert(k1 > 0 && k2 > 0);
            assert(ranks_before(es1[0], es1[k1]));
            assert(ranks_before(es2[0], es2[k2]));
            assert(es1[k1] == es2[0]);
            assert(es2[k2] == es1[0]);
            lemma_ranks_strict(es1[0], es2[0]);
        }
        assert(es1[0] == es2[0]);
        let c0 = es1[0].color;
        let t1 = es1.drop_first();
        let t2 = es2.drop_first();
        assert forall|c: int| has_color(t1, c) <==> has_color(t2, c) by {
            if has_color(t1, c) {
                let k = choose|k: int| 0 <= k < t1.len() && (#[trigger] t1[k]).color == c;
                assert(es1[k + 1].color == c);
                assert(c != c0);
                assert(has_color(es1, c));
                let m = choose|m: int| 0 <= m < es2.len() && (#[trigger] es2[m]).color == c;
                assert(m > 0);
                assert(t2[m - 1].color == c);
            }
            if has_color(t2, c) {
                let k = choose|k: int| 0 <= k < t2.len() && (#[trigger] t2[k]).color == c;
                assert(es2[k + 1].color == c);
                assert(c != c0);
                assert(has_color(es2, c));
                let m = choose|m: int| 0 <= m < es1.len() && (#[trigger] es1[m]).color == c;
                assert(m > 0);
                assert(t1[m - 1].color == c);
            }
        }
        assert forall|k: int, l: int| 0 <= k < l < t1.len() implies (#[trigger] t1[k]).color != (#[trigger] t1[l]).color by {
            assert(es1[k + 1].color != es1[l + 1].color);
        }
        assert forall|k: int, l: int| 0 <= k < l < t2.len() implies (#[trigger] t2[k]).color != (#[trigger] t2[l]).color by {
            assert(es2[k + 1].color != es2[l + 1].color);
        }
        assert forall|k: int, l: int| 0 <= k < l < t1.len() implies ranks_before(#[trigger] t1[k], #[trigger] t1[l]) by {
            assert(ranks_before(es1[k + 1], es1[l + 1]));
        }
        assert forall|k: int, l: int| 0 <= k < l < t2.len() implies ranks_before(#[trigger] t2[k], #[trigger] t2[l]) by {
            assert(ranks_before(es2[k + 1], es2[l + 1]));
        }
        assert forall|k: int| 0 <= k < t1.len() implies 0 <= (#[trigger] t1[k]).color < palette().len() && t1[k] == entry_for(
            t,
            a,
            w,
            n,
            t1[k].color,
            with_pixels,
        ) by {
            assert(t1[k] == es1[k + 1]);
        }
        assert forall|k: int| 0 <= k < t2.len() implies 0 <= (#[trigger] t2[k]).color < palette().len() && t2[k] == entry_for(
            t,
            a,
            w,
            n,
            t2[k].color,
            with_pixels,
        ) by {
            assert(t2[k] == es2[k + 1]);
        }
        lemma_sorted_entries_unique(t1, t2, t, a, w, n, with_pixels);
        assert(es1 =~= seq![es1[0]] + t1);
        assert(es2 =~= seq![es2[0]] + t2);
    }
}

/// The comparison result is determined by the pixels: two lists of entries
/// that are both the comparison result for the same pixels are equal.
pub proof fn law_compare_determined(
    es1: Seq<ColorEntryModel>,
    es2: Seq<ColorEntryModel>,
    t: Seq<u8>,
    a: Seq<u8>,
    w: int,
    n: int,
    with_pixels: bool,
)
    requires
        entries_ok(es1, t, a, w, n, with_pixels),
        entries_ok(es2, t, a, w, n, with_pixels),
    ensures
        es1 == es2,
{
    assert forall|c: int| has_color(es1, c) <==> has_color(es2, c) by {
        if has_color(es1, c) {
            let k = choose|k: int| 0 <= k < es1.len() && (#[trigger] es1[k]).color == c;
            assert(color_total(t, c, n) > 0);
        }
        if has_color(es2, c) {
            let k = choose|k: int| 0 <= k < es2.len() && (#[trigger] es2[k]).color == c;
            assert(color_total(t, c, n) > 0);
        }
    }
    lemma_sorted_entries_unique(es1, es2, t, a, w, n, with_pixels);
}

/// The entries come by descending total, and entries of equal totals by
/// ascending name.
pub proof fn law_entries_order(es: Seq<ColorEntryModel>, t: Seq<u8>, a: Seq<u8>, w: int, n: int, with_pixels: bool)
    requires
        entries_ok(es, t, a, w, n, with_pixels),
    ensures
        forall|k: int, l: int|
            0 <= k < l < es.len() ==> (#[trigger] es[k]).total >= (#[trigger] es[l]).total && (es[k].total
                == es[l].total ==> seq_lt(es[k].name@, es[l].name@)),
{
    assert forall|k: int, l: int| 0 <= k < l < es.len() implies (#[trigger] es[k]).total >= (#[trigger] es[l]).total
        && (es[k].total == es[l].total ==> seq_lt(es[k].name@, es[l].name@)) by {
        assert(ranks_before(es[k], es[l]));
        lemma_seq_lt_total(es[k].name@, es[l].name@);
        if es[k].name@ == es[l].name@ {
            lemma_palette_names_distinct();
            let ck = es[k].color;
            let cl = es[l].color;
            if ck < cl {
                assert(palette()[ck].0@ != palette()[cl].0@);
            } else {
                assert(palette()[cl].0@ != palette()[ck].0@);
            }
        }
    }
}

/// Abstract form of a list of entries.
pub open spec fn entries_view(es: Seq<ColorEntry>) -> Seq<ColorEntryModel> {
    Seq::new(es.len(), |k: int| es[k]@)
}

/// Of the first `n` pixels, those of color `c` that the actual image lacks
/// are at most those of color `c` in the template, which are at most `n`.
pub proof fn law_count_within_total(t: Seq<u8>, a: Seq<u8>, c: int, n: int)
    requires
        0 <= n,
    ensures
        color_count(t, a, c, n) <= color_total(t, c, n) <= n,
    decreases n,
{
    if n > 0 {
        law_count_within_total(t, a, c, n - 1);
    }
}

/// Pixel `p` is missing from the actual image: the actual pixel is
/// transparent or differs from the template pixel in red, green or blue.
pub proof fn law_mismatch_channels(t: Seq<u8>, a: Seq<u8>, p: int)
    ensures
        mismatched(t, a, p) <==> (t[4 * p] != a[4 * p] || t[4 * p + 1] != a[4 * p + 1] || t[4 * p + 2] != a[4 * p + 2]
            || a[4 * p + 3] == 0),
{
}

/// `total` counts the pixels among the first `n` whose template pixel is
/// opaque and nearest to palette color `c`; `count` counts those of them
/// where the actual pixel is transparent or differs in red, green or blue.
pub proof fn law_counts_are_pixel_sets(t: Seq<u8>, a: Seq<u8>, c: int, n: int)
    requires
        0 <= n,
    ensures
        color_total(t, c, n) == Set::new(
            |p: int| 0 <= p < n && t[4 * p + 3] != 0 && nearest((t[4 * p], t[4 * p + 1], t[4 * p + 2])) == c,
        ).len(),
        color_count(t, a, c, n) == Set::new(
            |p: int|
                0 <= p < n && t[4 * p + 3] != 0 && nearest((t[4 * p], t[4 * p + 1], t[4 * p + 2])) == c && (t[4 * p]
                    != a[4 * p] || t[4 * p + 1] != a[4 * p + 1] || t[4 * p + 2] != a[4 * p + 2] || a[4 * p + 3] == 0),
        ).len(),
    decreases n,
{
    let tot = Set::new(
        |p: int| 0 <= p < n && t[4 * p + 3] != 0 && nearest((t[4 * p], t[4 * p + 1], t[4 * p + 2])) == c,
    );
    let cnt = Set::new(
        |p: int|
            0 <= p < n && t[4 * p + 3] != 0 && nearest((t[4 * p], t[4 * p + 1], t[4 * p + 2])) == c && (t[4 * p]
                != a[4 * p] || t[4 * p + 1] != a[4 * p + 1] || t[4 * p + 2] != a[4 * p + 2] || a[4 * p + 3] == 0),
    );
    if n == 0 {
        assert(tot =~= Set::<int>::empty());
        assert(cnt =~= Set::<int>::empty());
    } else {
        law_counts_are_pixel_sets(t, a, c, n - 1);
        let m = n - 1;
        let tot0 = Set::new(
            |p: int| 0 <= p < m && t[4 * p + 3] != 0 && nearest((t[4 * p], t[4 * p + 1], t[4 * p + 2])) == c,
        );
        let cnt0 = Set::new(
            |p: int|
                0 <= p < m && t[4 * p + 3] != 0 && nearest((t[4 * p], t[4 * p + 1], t[4 * p + 2])) == c && (t[4
                    * p] != a[4 * p] || t[4 * p + 1] != a[4 * p + 1] || t[4 * p + 2] != a[4 * p + 2] || a[4 * p + 3]
                    == 0),
        );
        lemma_bounded_finite(tot0, m);
        lemma_bounded_finite(cnt0, m);
        assert(rgb_at(t, m) == (t[4 * m], t[4 * m + 1], t[4 * m + 2]));
        if in_color(t, m, c) {
            assert(tot =~= tot0.insert(m));
        } else {
            assert(tot =~= tot0);
        }
        if in_color(t, m, c) && mismatched(t, a, m) {
            assert(cnt =~= cnt0.insert(m));
        } else {
            assert(cnt =~= cnt0);
        }
    }
}

/// Pixel `p` of an image `w` pixels wide is at column `p % w` and row
/// `p / w`, and both fit in `usize`.
proof fn lemma_pixel_coordinates(p: int, w: int)
    requires
        0 <= p <= usize::MAX,
        0 < w,
    ensures
        0 <= p % w < w,
        0 <= p / w <= p,
        (p / w) * w + p % w == p,
{
    vstd::arithmetic::div_mod::lemma_fundamental_div_mod(p, w);
    vstd::arithmetic::div_mod::lemma_mod_bound(p, w);
    vstd::arithmetic::mul::lemma_mul_is_commutative(w, p / w);
    assert(0 <= p / w <= p) by (nonlinear_arith)
        requires
            0 <= p,
            0 < w,
            (p / w) * w + p % w == p,
            0 <= p % w < w,
    ;
}

/// The coordinates listed for color `c` over the first `n` pixels of an
/// image `w` pixels wide are those of the missing pixels of that color, as
/// `(column, row)`, in increasing pixel order, one per counted pixel.
pub proof fn law_listed_pixels_are_missing(t: Seq<u8>, a: Seq<u8>, w: int, c: int, n: int)
    requires
        0 < w,
        0 <= n <= usize::MAX,
    ensures
        color_pixels(t, a, w, c, n).len() == color_count(t, a, c, n),
        forall|k: int|
            0 <= k < color_pixels(t, a, w, c, n).len() ==> {
                let q = #[trigger] color_pixels(t, a, w, c, n)[k];
                let p = q.1 * w + q.0;
                &&& q.0 < w
                &&& 0 <= p < n
                &&& t[4 * p + 3] != 0
                &&& nearest((t[4 * p], t[4 * p + 1], t[4 * p + 2])) == c
                &&& (t[4 * p] != a[4 * p] || t[4 * p + 1] != a[4 * p + 1] || t[4 * p + 2] != a[4 * p + 2] || a[4 * p
                    + 3] == 0)
            },
        forall|k: int, l: int|
            0 <= k < l < color_pixels(t, a, w, c, n).len() ==> (#[trigger] color_pixels(t, a, w, c, n)[k]).1 * w
                + color_pixels(t, a, w, c, n)[k].0 < (#[trigger] color_pixels(t, a, w, c, n)[l]).1 * w
                + color_pixels(t, a, w, c, n)[l].0,
    decreases n,
{
    if n > 0 {
        let m = n - 1;
        law_listed_pixels_are_missing(t, a, w, c, m);
        let prev = color_pixels(t, a, w, c, m);
        let cur = color_pixels(t, a, w, c, n);
        if in_color(t, m, c) && mismatched(t, a, m) {
            lemma_pixel_coordinates(m, w);
            let q = ((m % w) as usize, (m / w) as usize);
            assert(cur == prev.push(q));
            assert(q.0 == m % w && q.1 == m / w);
            assert(q.1 * w + q.0 == m);
            assert(rgb_at(t, m) == (t[4 * m], t[4 * m + 1], t[4 * m + 2]));
            assert forall|k: int| 0 <= k < prev.len() implies cur[k] == prev[k] by {}
        } else {
            assert(cur == prev);
        }
    }
}

/// A set of integers below `m` and not negative is finite.
proof fn lemma_bounded_finite(s: Set<int>, m: int)
    requires
        forall|p: int| s.contains(p) ==> 0 <= p < m,
    ensures
        s.finite(),
{
    if m <= 0 {
        assert(s =~= Set::<int>::empty());
    } else {
        let r = vstd::set_lib::set_int_range(0, m);
        vstd::set_lib::lemma_int_range(0, m);
        assert(s.subset_of(r));
        vstd::set_lib::lemma_len_subset(s, r);
    }
}

/// Per-color tallies over the pixels, indexed by palette color.
pub struct Tallies {
    pub totals: Vec<usize>,
    pub counts: Vec<usize>,
    pub pixels: Vec<Vec<(usize, usize)>>,
}

/// The tallies hold the per-color figures over the first `n` pixels.
pub open spec fn tallies_ok(tl: &Tallies, t: Seq<u8>, a: Seq<u8>, w: int, n: int, with_pixels: bool) -> bool {
    let m = palette().len();
    &&& tl.totals@.len() == m
    &&& tl.counts@.len() == m
    &&& tl.pixels@.len() == m
    &&& forall|c: int| 0 <= c < m ==> #[trigger] tl.totals@[c] == color_total(t, c, n)
    &&& forall|c: int| 0 <= c < m ==> #[trigger] tl.counts@[c] == color_count(t, a, c, n)
    &&& forall|c: int|
        0 <= c < m ==> (#[trigger] tl.pixels@[c])@ == (if with_pixels {
            color_pixels(t, a, w, c, n)
        } else {
            Seq::empty()
        })
}

/// Tallies every pixel of a template of `w` by `h` pixels against the
/// actual image, in row-major order.
pub fn tally_pixels(t: &Vec<u8>, a: &Vec<u8>, w: u32, h: u32, with_pixels: bool) -> (r: Tallies)
    requires
        t@.len() == 4 * w * h,
        a@.len() == 4 * w * h,
    ensures
        tallies_ok(&r, t@, a@, w as int, w * h, with_pixels),
{
    let pal = colors_map_vec();
    let m = pal.len();
    let mut tl = Tallies { totals: Vec::new(), counts: Vec::new(), pixels: Vec::new() };
    let mut c: usize = 0;
    while c < m
        invariant
            m == palette().len(),
            c <= m,
            tl.totals@.len() == c,
            tl.counts@.len() == c,
            tl.pixels@.len() == c,
            forall|k: int| 0 <= k < c ==> #[trigger] tl.totals@[k] == 0,
            forall|k: int| 0 <= k < c ==> #[trigger] tl.counts@[k] == 0,
            forall|k: int| 0 <= k < c ==> (#[trigger] tl.pixels@[k])@ == Seq::<(usize, usize)>::empty(),
        decreases m - c,
    {
        tl.totals.push(0);
        tl.counts.push(0);
        tl.pixels.push(Vec::new());
        c = c + 1;
    }
    let tlen = t.len();
    let n4 = pixel_bytes(w, h, tlen);
    let n: usize = n4 / 4;
    proof {
        vstd::arithmetic::mul::lemma_mul_is_associative(4, w as int, h as int);
        vstd::arithmetic::div_mod::lemma_div_multiples_vanish(w * h, 4);
    }
    assert(n == w * h);
    let mut p: usize = 0;
    let mut x: usize = 0;
    let mut y: usize = 0;
    while p < n
        invariant
            m == palette().len(),
            pal@ == palette(),
            n == w * h,
            t@.len() == 4 * n,
            a@.len() == 4 * n,
            4 * n <= usize::MAX,
            p <= n,
            n > 0 ==> x < w,
            p == y * w + x,
            tallies_ok(&tl, t@, a@, w as int, p as int, with_pixels),
        decreases n - p,
    {
        let base = 4 * p;
        proof {
            vstd::arithmetic::div_mod::lemma_fundamental_div_mod_converse_mod(p as int, w as int, y as int, x as int);
            vstd::arithmetic::div_mod::lemma_fundamental_div_mod_converse_div(p as int, w as int, y as int, x as int);
            law_count_within_total(t@, a@, 0, p as int);
        }
        let ghost before = tl;
        if t[base + 3] != 0 {
            let rgb = (t[base], t[base + 1], t[base + 2]);
            let c = find_color_index(&pal, rgb);
            proof {
                lemma_nearest_unique(palette(), rgb, c as int, nearest(rgb));
                assert(is_nearest(palette(), rgb, nearest(rgb)));
                assert(c == nearest(rgb));
                law_count_within_total(t@, a@, c as int, p as int);
            }
            let total = tl.totals[c];
            tl.totals.set(c, total + 1);
            if t[base] != a[base] || t[base + 1] != a[base + 1] || t[base + 2] != a[base + 2] || a[base + 3] == 0 {
                let count = tl.counts[c];
                tl.counts.set(c, count + 1);
                if with_pixels {
                    tl.pixels[c].push((x, y));
                }
            }
        }
        assert forall|k: int| 0 <= k < m implies #[trigger] tl.totals@[k] == color_total(t@, k, p + 1) by {}
        assert forall|k: int| 0 <= k < m implies #[trigger] tl.counts@[k] == color_count(t@, a@, k, p + 1) by {}
        assert forall|k: int| 0 <= k < m implies (#[trigger] tl.pixels@[k])@ == (if with_pixels {
            color_pixels(t@, a@, w as int, k, p + 1)
        } else {
            Seq::empty()
        }) by {}
        p = p + 1;
        x = x + 1;
        if x == w as usize {
            assert((y + 1) * w == y * w + w) by (nonlinear_arith);
            x = 0;
            y = y + 1;
        }
    }
    tl
}

/// Number of `true` flags.
pub open spec fn count_true(s: Seq<bool>) -> nat
    decreases s.len(),
{
    if s.len() == 0 {
        0
    } else {
        count_true(s.drop_last()) + if s.last() {
            1nat
        } else {
            0nat
        }
    }
}

/// Clearing a set flag lowers the count by one.
proof fn lemma_count_true_clear(s: Seq<bool>, i: int)
    requires
        0 <= i < s.len(),
        s[i],
    ensures
        count_true(s.update(i, false)) + 1 == count_true(s),
    decreases s.len(),
{
    if i < s.len() - 1 {
        lemma_count_true_clear(s.drop_last(), i);
        assert(s.update(i, false).drop_last() =~= s.drop_last().update(i, false));
    } else {
        assert(s.update(i, false).drop_last() =~= s.drop_last());
    }
}

/// Whether an entry with `te` pixels named `ne` may come before one with
/// `tf` pixels named `nf` (`ranks_before`).
fn ranks_before_exec(te: usize, ne: &str, tf: usize, nf: &str) -> (r: bool)
    ensures
        forall|e: ColorEntryModel, f: ColorEntryModel|
            e.total == te && e.name@ == ne@ && f.total == tf && f.name@ == nf@ ==> (r == #[trigger] ranks_before(e, f)),
{
    te > tf || (te == tf && !str_lt(nf, ne))
}

/// Orders the tallied colors: one entry for each color that some template
/// pixel shows, in `ranks_before` order.
fn rank_entries(
    tl: Tallies,
    Ghost(t): Ghost<Seq<u8>>,
    Ghost(a): Ghost<Seq<u8>>,
    Ghost(w): Ghost<int>,
    Ghost(n): Ghost<int>,
    with_pixels: bool,
) -> (r: Vec<ColorEntry>)
    requires
        tallies_ok(&tl, t, a, w, n, with_pixels),
    ensures
        entries_ok(entries_view(r@), t, a, w, n, with_pixels),
{
    let pal = colors_map_vec();
    let m = pal.len();
    let mut tl = tl;
    let mut left: Vec<bool> = Vec::new();
    let mut c: usize = 0;
    while c < m
        invariant
            m == palette().len(),
            pal@ == palette(),
            c <= m,
            tallies_ok(&tl, t, a, w, n, with_pixels),
            left@.len() == c,
            forall|k: int| 0 <= k < c ==> #[trigger] left@[k] == (color_total(t, k, n) > 0),
        decreases m - c,
    {
        left.push(tl.totals[c] > 0);
        c = c + 1;
    }
    let mut out: Vec<ColorEntry> = Vec::new();
    loop
        invariant
            m == palette().len(),
            pal@ == palette(),
            left@.len() == m,
            tl.totals@.len() == m,
            tl.counts@.len() == m,
            tl.pixels@.len() == m,
            forall|k: int| 0 <= k < m ==> #[trigger] tl.totals@[k] == color_total(t, k, n),
            forall|k: int| 0 <= k < m ==> #[trigger] tl.counts@[k] == color_count(t, a, k, n),
            forall|k: int|
                0 <= k < m && #[trigger] left@[k] ==> tl.pixels@[k]@ == (if with_pixels {
                    color_pixels(t, a, w, k, n)
                } else {
                    Seq::empty()
                }),
            forall|k: int| 0 <= k < m && #[trigger] left@[k] ==> color_total(t, k, n) > 0,
            forall|k: int|
                0 <= k < m && color_total(t, k, n) > 0 && !(#[trigger] left@[k]) ==> exists|j: int|
                    0 <= j < out@.len() && (#[trigger] out@[j]@).color == k,
            forall|j: int|
                0 <= j < out@.len() ==> 0 <= (#[trigger] out@[j]@).color < m && out@[j]@ == entry_for(
                    t,
                    a,
                    w,
                    n,
                    out@[j]@.color,
                    with_pixels,
                ) && out@[j]@.total > 0 && !left@[out@[j]@.color],
            forall|i: int, j: int| 0 <= i < j < out@.len() ==> (#[trigger] out@[i]@).color != (#[trigger] out@[j]@).color,
            forall|i: int, j: int| 0 <= i < j < out@.len() ==> ranks_before(#[trigger] out@[i]@, #[trigger] out@[j]@),
            forall|j: int, k: int|
                0 <= j < out@.len() && 0 <= k < m && #[trigger] left@[k] ==> ranks_before(
                    #[trigger] out@[j]@,
                    entry_for(t, a, w, n, k, with_pixels),
                ),
        ensures
            entries_ok(entries_view(out@), t, a, w, n, with_pixels),
        decreases count_true(left@),
    {
        let mut best: usize = m;
        let mut c: usize = 0;
        while c < m
            invariant
                m == palette().len(),
                pal@ == palette(),
                left@.len() == m,
                tl.totals@.len() == m,
                forall|k: int| 0 <= k < m ==> #[trigger] tl.totals@[k] == color_total(t, k, n),
                c <= m,
                best == m || (best < c && left@[best as int]),
                best == m ==> forall|k: int| 0 <= k < c ==> !(#[trigger] left@[k]),
                best < m ==> forall|k: int|
                    0 <= k < c && #[trigger] left@[k] ==> ranks_before(
                        entry_for(t, a, w, n, best as int, with_pixels),
                        entry_for(t, a, w, n, k, with_pixels),
                    ),
            decreases m - c,
        {
            if left[c] {
                if best == m {
                    best = c;
                    proof {
                        lemma_seq_lt_asym(palette()[c as int].0@, palette()[c as int].0@);
                    }
                } else {
                    let ghost eb = entry_for(t, a, w, n, best as int, with_pixels);
                    let ghost ec = entry_for(t, a, w, n, c as int, with_pixels);
                    let keep = ranks_before_exec(tl.totals[best], pal[best].0, tl.totals[c], pal[c].0);
                    assert(keep == ranks_before(eb, ec));
                    if !keep {
                    proof {
                        lemma_ranks_total(eb, ec);
                        lemma_seq_lt_asym(ec.name@, ec.name@);
                        assert forall|k: int|
                            0 <= k < c + 1 && #[trigger] left@[k] implies ranks_before(ec, entry_for(t, a, w, n, k, with_pixels)) by {
                            if k < c {
                                lemma_ranks_trans(ec, eb, entry_for(t, a, w, n, k, with_pixels));
                            }
                        }
                    }
                    best = c;
                    }
                }
            }
            c = c + 1;
        }
        if best == m {
        assert(entries_view(out@) =~= Seq::new(out@.len(), |k: int| out@[k]@));
        assert forall|k: int| 0 <= k < m && color_total(t, k, n) > 0 implies exists|j: int|
            0 <= j < entries_view(out@).len() && (#[trigger] entries_view(out@)[j]).color == k by {
            assert(!left@[k]);
            let j = choose|j: int| 0 <= j < out@.len() && (#[trigger] out@[j]@).color == k;
            assert(entries_view(out@)[j] == out@[j]@);
        }
            assert forall|k: int| 0 <= k < entries_view(out@).len() implies #[trigger] entries_view(out@)[k] == out@[k]@ by {}
            break;
        }
        let mut px: Vec<(usize, usize)> = Vec::new();
        std::mem::swap(&mut px, &mut tl.pixels[best]);
        let entry = ColorEntry {
            color: best,
            name: pal[best].0,
            count: tl.counts[best],
            total: tl.totals[best],
            pixels: px,
        };
        assert(entry@ == entry_for(t, a, w, n, best as int, with_pixels));
        let ghost old_left = left@;
        let ghost old_out = out@;
        proof {
            lemma_count_true_clear(left@, best as int);
        }
        out.push(entry);
        left.set(best, false);
        assert forall|j: int, k: int|
            0 <= j < out@.len() && 0 <= k < m && #[trigger] left@[k] implies ranks_before(
                #[trigger] out@[j]@,
                entry_for(t, a, w, n, k, with_pixels),
            ) by {
            if j == out@.len() - 1 {
                assert(old_left[k]);
            }
        }
        assert forall|k: int|
            0 <= k < m && color_total(t, k, n) > 0 && !(#[trigger] left@[k]) implies exists|j: int|
                0 <= j < out@.len() && (#[trigger] out@[j]@).color == k by {
            if k == best {
                assert(out@[out@.len() - 1]@.color == k);
            } else {
                assert(!old_left[k]);
                let j = choose|j: int| 0 <= j < old_out.len() && (#[trigger] old_out[j]@).color == k;
                assert(out@[j] == old_out[j]);
            }
        }
    }
    out
}

/// The error that comparing the template file with the actual file ends
/// with, if any: a decoding error, or images of different sizes.
pub open spec fn compare_error(template: Seq<u8>, actual: Seq<u8>) -> Option<ErrorModel> {
    match decoded_raster(template) {
        Err(e) => Some(e),
        Ok(t) => match decoded_raster(actual) {
            Err(e) => Some(e),
            Ok(a) => if t.width != a.width || t.height != a.height {
                Some(ErrorModel::DimensionMismatch)
            } else {
                None
            },
        },
    }
}

/// `es` is the comparison result for the two files.
pub open spec fn compare_ok(es: Seq<ColorEntryModel>, template: Seq<u8>, actual: Seq<u8>, with_pixels: bool) -> bool {
    match (decoded_raster(template), decoded_raster(actual)) {
        (Ok(t), Ok(a)) => entries_ok(es, t.pixels, a.pixels, t.width as int, t.width * t.height, with_pixels),
        _ => false,
    }
}

/// Compares decoded images: they must be of one size.  For every palette
/// color that some opaque template pixel shows (the nearest palette color to
/// the pixel's RGB value), the result has one entry: the number of such
/// pixels (`total`), the number of them where the actual pixel has another
/// RGB value or is transparent (`count`), and, when `include_pixels` holds,
/// the coordinates of the latter in row-major order.  Entries come by
/// descending `total`, then by name.
pub fn compare_images(template: &Raster, actual: &Raster, include_pixels: bool) -> (r: Result<Vec<ColorEntry>, WplaceError>)
    requires
        raster_wf(template@),
        raster_wf(actual@),
    ensures
        (template.width != actual.width || template.height != actual.height) ==> (r matches Err(e) && e@
            == ErrorModel::DimensionMismatch),
        (template.width == actual.width && template.height == actual.height) ==> (r matches Ok(es) && entries_ok(
            entries_view(es@),
            template.pixels@,
            actual.pixels@,
            template.width as int,
            template.width * template.height,
            include_pixels,
        )),
{
    if template.width != actual.width || template.height != actual.height {
        return Err(WplaceError::DimensionMismatch);
    }
    let w = template.width;
    let h = template.height;
    let tl = tally_pixels(&template.pixels, &actual.pixels, w, h, include_pixels);
    let r = rank_entries(
        tl,
        Ghost(template.pixels@),
        Ghost(actual.pixels@),
        Ghost(w as int),
        Ghost(w * h),
        include_pixels,
    );
    Ok(r)
}

/// Compares an actual image file with its template file: both are decoded
/// (the template first), then compared by `compare_images`.
pub fn wplace_template_compare(template_bytes: &[u8], actual_bytes: &[u8], include_pixels: bool) -> (r: Result<Vec<ColorEntry>, WplaceError>)
    ensures
        compare_error(template_bytes@, actual_bytes@) matches Some(e) ==> (r matches Err(x) && x@ == e),
        compare_error(template_bytes@, actual_bytes@) is None ==> (r matches Ok(es) && compare_ok(
            entries_view(es@),
            template_bytes@,
            actual_bytes@,
            include_pixels,
        )),
{
    let template = match load_image(template_bytes) {
        Ok(img) => img,
        Err(e) => return Err(e),
    };
    let actual = match load_image(actual_bytes) {
        Ok(img) => img,
        Err(e) => return Err(e),
    };
    compare_images(&template, &actual, include_pixels)
}

} // verus!
