//! Composes 1000 x 1000 map tiles into one image that covers a rectangle
//! given by its top-left and bottom-right corners, each as
//! (tile x, tile y, pixel x, pixel y).
use crate::wplace::raster::{
    decoded_raster, encoded_raster, lemma_pix_bound, lemma_pix_decompose, lemma_pix_injective,
    lemma_pix_channel, load_image, pixel_bytes, pix, put_pixel, raster_wf, result_view,
    to_png_bytes, channel, ErrorModel, Raster, RasterModel, WplaceError,
};
use vstd::prelude::*;

verus! {

/// Width of the composed image.
pub open spec fn canvas_width(c1: (u32, u32, u32, u32), c2: (u32, u32, u32, u32)) -> int {
    (c2.0 - c1.0) * 1000 + c2.2 - c1.2 + 1
}

/// Height of the composed image.
pub open spec fn canvas_height(c1: (u32, u32, u32, u32), c2: (u32, u32, u32, u32)) -> int {
    (c2.1 - c1.1) * 1000 + c2.3 - c1.3 + 1
}

/// `v` is a `u32` value.
pub open spec fn in_u32(v: int) -> bool {
    0 <= v <= u32::MAX
}

/// The size computations, done in `u32` from left to right, stay in range,
/// and the image's bytes can be addressed.
pub open spec fn canvas_size_ok(c1: (u32, u32, u32, u32), c2: (u32, u32, u32, u32)) -> bool {
    &&& c1.0 <= c2.0
    &&& in_u32((c2.0 - c1.0) * 1000)
    &&& in_u32((c2.0 - c1.0) * 1000 + c2.2)
    &&& c1.2 <= (c2.0 - c1.0) * 1000 + c2.2
    &&& in_u32(canvas_width(c1, c2))
    &&& c1.1 <= c2.1
    &&& in_u32((c2.1 - c1.1) * 1000)
    &&& in_u32((c2.1 - c1.1) * 1000 + c2.3)
    &&& c1.3 <= (c2.1 - c1.1) * 1000 + c2.3
    &&& in_u32(canvas_height(c1, c2))
    &&& 4 * canvas_width(c1, c2) * canvas_height(c1, c2) <= usize::MAX
}

/// Where a tile's crop comes from and where it goes: the crop starts at
/// `(x0, y0)` in the tile and is `cw` by `ch` pixels; it is pasted at
/// `(px, py)` on the composed image.
pub struct Placement {
    pub x0: int,
    pub y0: int,
    pub cw: int,
    pub ch: int,
    pub px: int,
    pub py: int,
}

/// Placement of the tile at tile coordinates `t`.
pub open spec fn placement(t: (u32, u32), c1: (u32, u32, u32, u32), c2: (u32, u32, u32, u32)) -> Placement {
    let x0: int = if t.0 == c1.0 { c1.2 as int } else { 0 };
    let y0: int = if t.1 == c1.1 { c1.3 as int } else { 0 };
    let xe: int = if t.0 == c2.0 { c2.2 + 1 } else { 1000 };
    let ye: int = if t.1 == c2.1 { c2.3 + 1 } else { 1000 };
    Placement {
        x0,
        y0,
        cw: xe - x0,
        ch: ye - y0,
        px: (t.0 - c1.0) * 1000 - (if t.0 == c1.0 { 0 } else { c1.2 as int }),
        py: (t.1 - c1.1) * 1000 - (if t.1 == c1.1 { 0 } else { c1.3 as int }),
    }
}

/// The placement computations, done in `u32`, stay in range: the tile is not
/// left of or above the first tile, the crop is not reversed, and the paste
/// positions that the pasting computes do not overflow.
pub open spec fn tile_ok(t: (u32, u32), c1: (u32, u32, u32, u32), c2: (u32, u32, u32, u32)) -> bool {
    let g = placement(t, c1, c2);
    &&& c1.0 <= t.0
    &&& in_u32((t.0 - c1.0) * 1000)
    &&& 0 <= g.px
    &&& c1.1 <= t.1
    &&& in_u32((t.1 - c1.1) * 1000)
    &&& 0 <= g.py
    &&& (t.0 == c2.0 ==> c2.2 < u32::MAX)
    &&& (t.1 == c2.1 ==> c2.3 < u32::MAX)
    &&& 0 <= g.cw
    &&& 0 <= g.ch
    &&& (g.ch > 0 ==> in_u32(g.py + g.ch - 1))
    &&& (g.ch > 0 && g.py < canvas_height(c1, c2) && g.cw > 0 ==> in_u32(g.px + g.cw - 1))
}

/// The composed image's pixel `(x, y)` takes the tile's pixel: it lies in the
/// pasted crop, inside the tile, and the tile's pixel is not transparent.
pub open spec fn covered(g: Placement, tile: RasterModel, y: int, x: int) -> bool {
    &&& g.py <= y < g.py + g.ch
    &&& g.px <= x < g.px + g.cw
    &&& g.x0 + (x - g.px) < tile.width
    &&& g.y0 + (y - g.py) < tile.height
    &&& tile.pixels[pix(tile.width as int, g.y0 + (y - g.py), g.x0 + (x - g.px), 3)] > 0
}

/// Channel `c` of the tile's pixel that lands on `(x, y)`.
pub open spec fn tile_byte(g: Placement, tile: RasterModel, y: int, x: int, c: int) -> u8 {
    tile.pixels[pix(tile.width as int, g.y0 + (y - g.py), g.x0 + (x - g.px), c)]
}

/// Each pixel of the composed image shows the last tile that covers it, or
/// the background where no tile does.
pub proof fn law_last_tile_wins(
    ts: Seq<RasterModel>,
    view: Seq<((u32, u32), Seq<u8>)>,
    c1: (u32, u32, u32, u32),
    c2: (u32, u32, u32, u32),
    bg: Option<(u8, u8, u8)>,
    y: int,
    x: int,
    cc: int,
)
    ensures
        forall|k: int|
            #![trigger covered(placement(view[k].0, c1, c2), ts[k], y, x)]
            0 <= k < ts.len() && covered(placement(view[k].0, c1, c2), ts[k], y, x) && (forall|j: int|
                k < j < ts.len() ==> !covered(placement(view[j].0, c1, c2), ts[j], y, x)) ==> canvas_at(
                ts,
                view,
                c1,
                c2,
                bg,
                y,
                x,
                cc,
            ) == tile_byte(placement(view[k].0, c1, c2), ts[k], y, x, cc),
        (forall|k: int| 0 <= k < ts.len() ==> !covered(placement(view[k].0, c1, c2), ts[k], y, x)) ==> canvas_at(
            ts,
            view,
            c1,
            c2,
            bg,
            y,
            x,
            cc,
        ) == bg_byte(bg, cc),
    decreases ts.len(),
{
    if ts.len() > 0 {
        let n = ts.len() - 1;
        let d = ts.drop_last();
        law_last_tile_wins(d, view, c1, c2, bg, y, x, cc);
        assert forall|k: int| 0 <= k < d.len() implies d[k] == ts[k] by {}
        assert(ts.last() == ts[n]);
        if !covered(placement(view[n].0, c1, c2), ts[n], y, x) {
            assert forall|k: int|
                0 <= k < ts.len() && covered(placement(view[k].0, c1, c2), ts[k], y, x) && (forall|j: int|
                    k < j < ts.len() ==> !covered(placement(view[j].0, c1, c2), ts[j], y, x)) implies canvas_at(
                ts,
                view,
                c1,
                c2,
                bg,
                y,
                x,
                cc,
            ) == tile_byte(placement(view[k].0, c1, c2), ts[k], y, x, cc) by {
                assert(d[k] == ts[k]);
                assert forall|j: int| k < j < d.len() implies !covered(placement(view[j].0, c1, c2), d[j], y, x) by {
                    assert(d[j] == ts[j]);
                }
            }
            if forall|k: int| 0 <= k < ts.len() ==> !covered(placement(view[k].0, c1, c2), ts[k], y, x) {
                assert forall|k: int| 0 <= k < d.len() implies !covered(placement(view[k].0, c1, c2), d[k], y, x) by {
                    assert(d[k] == ts[k]);
                }
            }
        }
    }
}

/// The background is transparent black without a color, and the color,
/// opaque, with one.
pub proof fn law_background(bg: Option<(u8, u8, u8)>)
    ensures
        bg is None ==> bg_byte(bg, 0) == 0 && bg_byte(bg, 1) == 0 && bg_byte(bg, 2) == 0 && bg_byte(bg, 3) == 0,
        bg matches Some((r, g, b)) ==> bg_byte(bg, 0) == r && bg_byte(bg, 1) == g && bg_byte(bg, 2) == b && bg_byte(
            bg,
            3,
        ) == 255,
{
}

/// Where a tile lands, in map coordinates: the composed image's pixel
/// `(x, y)` is the map pixel `(c1.0 * 1000 + c1.2 + x, c1.1 * 1000 + c1.3 + y)`,
/// and the tile at `t` holds the map pixels from `(t.0 * 1000, t.1 * 1000)`
/// on.  The pixel takes the tile's pixel exactly when that map pixel lies in
/// the tile's 1000 x 1000 square and in the tile's image and is not
/// transparent, and then it takes the tile's pixel at that map position.
pub proof fn law_tile_pixel_at_map_position(
    t: (u32, u32),
    c1: (u32, u32, u32, u32),
    c2: (u32, u32, u32, u32),
    tile: RasterModel,
    y: int,
    x: int,
)
    requires
        tile_ok(t, c1, c2),
        c1.2 < 1000,
        c1.3 < 1000,
        c2.2 < 1000,
        c2.3 < 1000,
        0 <= x < canvas_width(c1, c2),
        0 <= y < canvas_height(c1, c2),
    ensures
        ({
            let sx = c1.0 * 1000 + c1.2 + x - t.0 * 1000;
            let sy = c1.1 * 1000 + c1.3 + y - t.1 * 1000;
            &&& covered(placement(t, c1, c2), tile, y, x) <==> (0 <= sx < 1000 && sx < tile.width && 0 <= sy < 1000
                && sy < tile.height && tile.pixels[pix(tile.width as int, sy, sx, 3)] > 0)
            &&& forall|cc: int|
                #![trigger tile_byte(placement(t, c1, c2), tile, y, x, cc)]
                tile_byte(placement(t, c1, c2), tile, y, x, cc) == tile.pixels[pix(tile.width as int, sy, sx, cc)]
        }),
{
    let g = placement(t, c1, c2);
    let sx = c1.0 * 1000 + c1.2 + x - t.0 * 1000;
    let sy = c1.1 * 1000 + c1.3 + y - t.1 * 1000;
    assert(g.x0 + (x - g.px) == sx);
    assert(g.y0 + (y - g.py) == sy);
    assert((g.px <= x < g.px + g.cw) <==> (0 <= sx < 1000));
    assert((g.py <= y < g.py + g.ch) <==> (0 <= sy < 1000));
}

/// Channel `c` of the background: the given color, opaque, or transparent
/// black.
pub open spec fn bg_byte(bg: Option<(u8, u8, u8)>, c: int) -> u8 {
    match bg {
        Some((r, g, b)) => if c == 0 {
            r
        } else if c == 1 {
            g
        } else if c == 2 {
            b
        } else {
            255u8
        },
        None => 0u8,
    }
}

/// The tiles with their files as byte sequences.
pub open spec fn tiles_view(imgs: Seq<((u32, u32), Vec<u8>)>) -> Seq<((u32, u32), Seq<u8>)> {
    Seq::new(imgs.len(), |i: int| (imgs[i].0, imgs[i].1@))
}

/// The first `n` tiles decoded, or the first decoding error.
pub open spec fn decoded_tiles(view: Seq<((u32, u32), Seq<u8>)>, n: int) -> Result<Seq<RasterModel>, ErrorModel>
    decreases n,
{
    if n <= 0 {
        Ok(Seq::empty())
    } else {
        match decoded_tiles(view, n - 1) {
            Err(e) => Err(e),
            Ok(ts) => match decoded_raster(view[n - 1].1) {
                Err(e) => Err(e),
                Ok(t) => Ok(ts.push(t)),
            },
        }
    }
}

/// Channel `c` of pixel `(x, y)` after pasting the decoded tiles `ts` in
/// order: the last tile that covers the pixel gives it, else the background.
pub open spec fn canvas_at(
    ts: Seq<RasterModel>,
    view: Seq<((u32, u32), Seq<u8>)>,
    c1: (u32, u32, u32, u32),
    c2: (u32, u32, u32, u32),
    bg: Option<(u8, u8, u8)>,
    y: int,
    x: int,
    c: int,
) -> u8
    decreases ts.len(),
{
    if ts.len() == 0 {
        bg_byte(bg, c)
    } else {
        let g = placement(view[ts.len() - 1].0, c1, c2);
        if covered(g, ts.last(), y, x) {
            tile_byte(g, ts.last(), y, x, c)
        } else {
            canvas_at(ts.drop_last(), view, c1, c2, bg, y, x, c)
        }
    }
}

/// Bytes of the composed image.
pub open spec fn canvas_bytes(
    ts: Seq<RasterModel>,
    view: Seq<((u32, u32), Seq<u8>)>,
    c1: (u32, u32, u32, u32),
    c2: (u32, u32, u32, u32),
    bg: Option<(u8, u8, u8)>,
) -> Seq<u8> {
    let w = canvas_width(c1, c2);
    let h = canvas_height(c1, c2);
    Seq::new((4 * w * h) as nat, |b: int| canvas_at(ts, view, c1, c2, bg, b / 4 / w, b / 4 % w, b % 4))
}

/// Result of composing the tiles: the first decoding error, or the PNG file
/// of the composed image.
pub open spec fn compose_outcome(
    view: Seq<((u32, u32), Seq<u8>)>,
    c1: (u32, u32, u32, u32),
    c2: (u32, u32, u32, u32),
    bg: Option<(u8, u8, u8)>,
) -> Result<Seq<u8>, ErrorModel> {
    match decoded_tiles(view, view.len() as int) {
        Err(e) => Err(e),
        Ok(ts) => encoded_raster(
            RasterModel {
                width: canvas_width(c1, c2) as u32,
                height: canvas_height(c1, c2) as u32,
                pixels: canvas_bytes(ts, view, c1, c2, bg),
            },
        ),
    }
}

/// Channel `cc` of pixel `(xx, yy)` after pasting `tile` at `g` on bytes `orig`.
pub open spec fn pasted(orig: Seq<u8>, w: int, g: Placement, tile: RasterModel, yy: int, xx: int, cc: int) -> u8 {
    if covered(g, tile, yy, xx) {
        tile_byte(g, tile, yy, xx, cc)
    } else {
        orig[pix(w, yy, xx, cc)]
    }
}

/// A canvas of `w` by `h` pixels, all of the background color.
fn background_canvas(w: u32, h: u32, bg: Option<(u8, u8, u8)>) -> (r: Vec<u8>)
    requires
        0 < w,
        4 * w * h <= usize::MAX,
    ensures
        r@.len() == 4 * w * h,
        forall|yy: int, xx: int, cc: int|
            #![trigger pix(w as int, yy, xx, cc)]
            0 <= yy < h && 0 <= xx < w && 0 <= cc < 4 ==> r@[pix(w as int, yy, xx, cc)] == bg_byte(bg, cc),
{
    let n = pixel_bytes(w, h, usize::MAX);
    let (r0, g0, b0, a0): (u8, u8, u8, u8) = match bg {
        Some((r, g, b)) => (r, g, b, 255),
        None => (0, 0, 0, 0),
    };
    let mut out: Vec<u8> = Vec::new();
    let mut i: usize = 0;
    while i < n
        invariant
            i <= n,
            n == 4 * w * h,
            out@.len() == i,
            forall|b: int| 0 <= b < i ==> out@[b] == bg_byte(bg, b % 4),
            (r0, g0, b0, a0) == (match bg {
                Some((r, g, b)) => (r, g, b, 255u8),
                None => (0u8, 0u8, 0u8, 0u8),
            }),
        decreases n - i,
    {
        let c = i % 4;
        let v = if c == 0 {
            r0
        } else if c == 1 {
            g0
        } else if c == 2 {
            b0
        } else {
            a0
        };
        out.push(v);
        i = i + 1;
    }
    assert forall|yy: int, xx: int, cc: int|
        #![trigger pix(w as int, yy, xx, cc)]
        0 <= yy < h && 0 <= xx < w && 0 <= cc < 4 implies out@[pix(w as int, yy, xx, cc)] == bg_byte(bg, cc) by {
        lemma_pix_bound(w as int, h as int, yy, xx, cc);
        lemma_pix_channel(w as int, yy, xx, cc);
    }
    out
}

/// Pastes the crop of `tile` placed at tile coordinates `t` on the canvas:
/// every covered pixel takes the tile's pixel.
fn paste_tile(
    canvas: &mut Vec<u8>,
    w: u32,
    h: u32,
    tile: &Raster,
    t: (u32, u32),
    c1: (u32, u32, u32, u32),
    c2: (u32, u32, u32, u32),
)
    requires
        canvas_size_ok(c1, c2),
        w == canvas_width(c1, c2),
        h == canvas_height(c1, c2),
        old(canvas)@.len() == 4 * w * h,
        tile_ok(t, c1, c2),
        raster_wf(tile@),
    ensures
        final(canvas)@.len() == old(canvas)@.len(),
        forall|yy: int, xx: int, cc: int|
            #![trigger pix(w as int, yy, xx, cc)]
            0 <= yy < h && 0 <= xx < w && 0 <= cc < 4 ==> final(canvas)@[pix(w as int, yy, xx, cc)]
                == pasted(old(canvas)@, w as int, placement(t, c1, c2), tile@, yy, xx, cc),
{
    let ghost g = placement(t, c1, c2);
    let ghost orig = canvas@;
    let ghost wi = w as int;
    let x0: u64 = if t.0 == c1.0 { c1.2 as u64 } else { 0 };
    let y0: u64 = if t.1 == c1.1 { c1.3 as u64 } else { 0 };
    let xe: u64 = if t.0 == c2.0 { c2.2 as u64 + 1 } else { 1000 };
    let ye: u64 = if t.1 == c2.1 { c2.3 as u64 + 1 } else { 1000 };
    let px: u64 = (t.0 as u64 - c1.0 as u64) * 1000 - (if t.0 == c1.0 { 0 } else { c1.2 as u64 });
    let py: u64 = (t.1 as u64 - c1.1 as u64) * 1000 - (if t.1 == c1.1 { 0 } else { c1.3 as u64 });
    let cw: u64 = xe - x0;
    let ch: u64 = ye - y0;
    let wu: u64 = w as u64;
    let hu: u64 = h as u64;
    let row_end: u64 = if py + ch < hu { py + ch } else { hu };
    let col_end: u64 = if px + cw < wu { px + cw } else { wu };
    let tw: u64 = tile.width as u64;
    let th: u64 = tile.height as u64;
    assert(x0 == g.x0 && y0 == g.y0 && cw == g.cw && ch == g.ch && px == g.px && py == g.py);
    let mut y: u64 = py;
    while y < row_end
        invariant
            canvas@.len() == orig.len(),
            orig.len() == 4 * w * h,
            4 * w * h <= usize::MAX,
            raster_wf(tile@),
            x0 == g.x0 && y0 == g.y0 && cw == g.cw && ch == g.ch && px == g.px && py == g.py,
            tw == tile.width && th == tile.height,
            wu == w && hu == h,
            wi == w,
            x0 + cw <= 0x1_0000_0000,
            y0 + ch <= 0x1_0000_0000,
            row_end == (if py + ch < hu { py + ch } else { hu as int }),
            col_end == (if px + cw < wu { px + cw } else { wu as int }),
            py <= y,
            y <= row_end || y == py,
            forall|yy: int, xx: int, cc: int|
                #![trigger pix(wi, yy, xx, cc)]
                0 <= yy < h && 0 <= xx < w && 0 <= cc < 4 ==> canvas@[pix(wi, yy, xx, cc)] == (if yy
                    < y {
                    pasted(orig, wi, g, tile@, yy, xx, cc)
                } else {
                    orig[pix(wi, yy, xx, cc)]
                }),
        decreases row_end - y,
    {
        let sy: u64 = y0 + (y - py);
        let mut x: u64 = px;
        while x < col_end
            invariant
                canvas@.len() == orig.len(),
                orig.len() == 4 * w * h,
                4 * w * h <= usize::MAX,
                raster_wf(tile@),
                x0 == g.x0 && y0 == g.y0 && cw == g.cw && ch == g.ch && px == g.px && py == g.py,
                tw == tile.width && th == tile.height,
                wu == w && hu == h,
                wi == w,
                x0 + cw <= 0x1_0000_0000,
                y0 + ch <= 0x1_0000_0000,
                row_end == (if py + ch < hu { py + ch } else { hu as int }),
                col_end == (if px + cw < wu { px + cw } else { wu as int }),
                py <= y < row_end,
                sy == y0 + (y - py),
                px <= x,
                x <= col_end || x == px,
                forall|yy: int, xx: int, cc: int|
                    #![trigger pix(wi, yy, xx, cc)]
                    0 <= yy < h && 0 <= xx < w && 0 <= cc < 4 ==> canvas@[pix(wi, yy, xx, cc)] == (if yy
                        < y || (yy == y && xx < x) {
                        pasted(orig, wi, g, tile@, yy, xx, cc)
                    } else {
                        orig[pix(wi, yy, xx, cc)]
                    }),
            decreases col_end - x,
        {
            let sx: u64 = x0 + (x - px);
            let ghost before = canvas@;
            if sx < tw && sy < th {
                proof {
                    lemma_pix_bound(tw as int, th as int, sy as int, sx as int, 3);
                }
                let tlen = tile.pixels.len();
                let src: usize = 4 * ((sy as usize) * (tile.width as usize) + (sx as usize));
                assert(src == pix(tw as int, sy as int, sx as int, 0));
                if tile.pixels[src + 3] > 0 {
                    let p = (tile.pixels[src], tile.pixels[src + 1], tile.pixels[src + 2], tile.pixels[src + 3]);
                    assert(covered(g, tile@, y as int, x as int));
                    assert(y as usize == y && x as usize == x && w as usize == w && h as usize == h);
                    put_pixel(canvas, w as usize, h as usize, y as usize, x as usize, p);
                    assert forall|cc: int| 0 <= cc < 4 implies #[trigger] channel(p, cc) == tile_byte(g, tile@, y as int, x as int, cc) by {
                        assert(pix(tw as int, sy as int, sx as int, cc) == src + cc);
                    }
                    assert forall|yy: int, xx: int, cc: int|
                        #![trigger pix(wi, yy, xx, cc)]
                        0 <= yy < h && 0 <= xx < w && 0 <= cc < 4 implies canvas@[pix(wi, yy, xx, cc)] == (if yy
                            < y || (yy == y && xx < x + 1) {
                            pasted(orig, wi, g, tile@, yy, xx, cc)
                        } else {
                            orig[pix(wi, yy, xx, cc)]
                        }) by {
                        if yy == y && xx == x {
                            assert(channel(p, cc) == tile_byte(g, tile@, y as int, x as int, cc));
                        }
                    }
                } else {
                    assert(!covered(g, tile@, y as int, x as int));
                }
            } else {
                assert(!covered(g, tile@, y as int, x as int));
            }
            x = x + 1;
        }
        y = y + 1;
    }
}

/// Decodes, checks and pastes the tiles in one pass: `None` as soon as a
/// decoded tile's placement computations would leave the `u32` range.
fn compose_in_one_pass(
    imgs: Vec<((u32, u32), Vec<u8>)>,
    coord1: (u32, u32, u32, u32),
    coord2: (u32, u32, u32, u32),
    background: Option<(u8, u8, u8)>,
) -> (r: Option<Result<Vec<u8>, WplaceError>>)
    requires
        canvas_size_ok(coord1, coord2),
    ensures
        r is Some <==> forall|i: int|
            0 <= i < imgs@.len() && (decoded_tiles(tiles_view(imgs@), i + 1) is Ok) ==> tile_ok(
                #[trigger] imgs@[i].0,
                coord1,
                coord2,
            ),
        r matches Some(res) ==> result_view(res) == compose_outcome(tiles_view(imgs@), coord1, coord2, background),
{
    let width: u32 = (coord2.0 - coord1.0) * 1000 + coord2.2 - coord1.2 + 1;
    let height: u32 = (coord2.1 - coord1.1) * 1000 + coord2.3 - coord1.3 + 1;
    let ghost view = tiles_view(imgs@);
    let ghost wi = width as int;
    let mut canvas = background_canvas(width, height, background);
    let ghost mut ts: Seq<RasterModel> = Seq::empty();
    let n = imgs.len();
    let mut k: usize = 0;
    while k < n
        invariant
            n == imgs@.len(),
            view == tiles_view(imgs@),
            k <= n,
            canvas_size_ok(coord1, coord2),
            width == canvas_width(coord1, coord2),
            height == canvas_height(coord1, coord2),
            wi == width,
            forall|i: int|
                0 <= i < k && (decoded_tiles(view, i + 1) is Ok) ==> tile_ok(#[trigger] imgs@[i].0, coord1, coord2),
            decoded_tiles(view, k as int) == Ok::<Seq<RasterModel>, ErrorModel>(ts),
            ts.len() == k,
            canvas@.len() == 4 * width * height,
            forall|yy: int, xx: int, cc: int|
                #![trigger pix(wi, yy, xx, cc)]
                0 <= yy < height && 0 <= xx < width && 0 <= cc < 4 ==> canvas@[pix(wi, yy, xx, cc)]
                    == canvas_at(ts, view, coord1, coord2, background, yy, xx, cc),
        decreases n - k,
    {
        let tile = match load_image(imgs[k].1.as_slice()) {
            Ok(t) => t,
            Err(e) => {
                proof {
                    lemma_decode_error_persists(view, k + 1, n as int);
                }
                assert forall|i: int|
                    0 <= i < imgs@.len() && (decoded_tiles(view, i + 1) is Ok) implies tile_ok(
                        #[trigger] imgs@[i].0,
                        coord1,
                        coord2,
                    ) by {
                    if i >= k {
                        lemma_decode_error_persists(view, k + 1, i + 1);
                    }
                }
                return Some(Err(e));
            },
        };
        let ghost ts2 = ts.push(tile@);
        assert(decoded_tiles(view, k + 1) == Ok::<Seq<RasterModel>, ErrorModel>(ts2));
        if !check_tile(imgs[k].0, coord1, coord2) {
            return None;
        }
        let ghost before = canvas@;
        paste_tile(&mut canvas, width, height, &tile, imgs[k].0, coord1, coord2);
        assert(ts2.drop_last() =~= ts);
        assert forall|yy: int, xx: int, cc: int|
            #![trigger pix(wi, yy, xx, cc)]
            0 <= yy < height && 0 <= xx < width && 0 <= cc < 4 implies canvas@[pix(wi, yy, xx, cc)]
                == canvas_at(ts2, view, coord1, coord2, background, yy, xx, cc) by {
            assert(view[k as int].0 == imgs@[k as int].0);
        }
        proof {
            ts = ts2;
        }
        k = k + 1;
    }
    assert(view.len() == n);
    assert forall|b: int| 0 <= b < canvas@.len() implies canvas@[b] == canvas_bytes(ts, view, coord1, coord2, background)[b] by {
        lemma_pix_decompose(wi, height as int, b);
    }
    assert(canvas@ =~= canvas_bytes(ts, view, coord1, coord2, background));
    let out = Raster { width, height, pixels: canvas };
    Some(to_png_bytes(&out))
}


/// Composes map tiles into one PNG image covering the rectangle from
/// `coord1` to `coord2` (both inclusive), each corner given as (tile x,
/// tile y, pixel x, pixel y).  The image starts as the background color
/// (transparent without one); the tiles are decoded and pasted in order,
/// each contributing its part of the rectangle and only its non-transparent
/// pixels, so a later tile wins where tiles overlap.  A tile that cannot be
/// decoded ends the work with its error.
pub fn wplace_compose_tiles(
    imgs: Vec<((u32, u32), Vec<u8>)>,
    coord1: (u32, u32, u32, u32),
    coord2: (u32, u32, u32, u32),
    background: Option<(u8, u8, u8)>,
) -> (r: Result<Vec<u8>, WplaceError>)
    requires
        canvas_size_ok(coord1, coord2),
        forall|i: int|
            0 <= i < imgs@.len() && (decoded_tiles(tiles_view(imgs@), i + 1) is Ok) ==> tile_ok(
                #[trigger] imgs@[i].0,
                coord1,
                coord2,
            ),
    ensures
        result_view(r) == compose_outcome(tiles_view(imgs@), coord1, coord2, background),
{
    match compose_in_one_pass(imgs, coord1, coord2, background) {
        Some(res) => res,
        None => {
            // The precondition rules this out.
            proof {
                assert(false);
            }
            Err(WplaceError::DimensionMismatch)
        },
    }
}

/// Whether the size computations for corners `c1` and `c2` stay in range
/// (`canvas_size_ok`).
pub fn check_canvas_size(c1: (u32, u32, u32, u32), c2: (u32, u32, u32, u32)) -> (r: bool)
    ensures
        r == canvas_size_ok(c1, c2),
{
    let max: u64 = 0xffff_ffff;
    if c1.0 > c2.0 || c1.1 > c2.1 {
        return false;
    }
    let dx: u64 = (c2.0 as u64 - c1.0 as u64) * 1000;
    let dy: u64 = (c2.1 as u64 - c1.1 as u64) * 1000;
    if dx > max || dx + c2.2 as u64 > max || (c1.2 as u64) > dx + c2.2 as u64 {
        return false;
    }
    if dy > max || dy + c2.3 as u64 > max || (c1.3 as u64) > dy + c2.3 as u64 {
        return false;
    }
    let w: u64 = dx + c2.2 as u64 - c1.2 as u64 + 1;
    let h: u64 = dy + c2.3 as u64 - c1.3 as u64 + 1;
    if w > max || h > max {
        return false;
    }
    assert(w * h <= 0xffff_ffff_ffff_ffff_ffff_ffff_ffffint) by (nonlinear_arith)
        requires
            w <= 0xffff_ffff,
            h <= 0xffff_ffff,
    ;
    let bytes: u128 = 4 * ((w as u128) * (h as u128));
    assert(4 * w * h == 4 * (w * h)) by (nonlinear_arith);
    bytes <= usize::MAX as u128
}

/// Whether the placement computations for the tile at `t` stay in range
/// (`tile_ok`).
pub fn check_tile(t: (u32, u32), c1: (u32, u32, u32, u32), c2: (u32, u32, u32, u32)) -> (r: bool)
    requires
        canvas_size_ok(c1, c2),
    ensures
        r == tile_ok(t, c1, c2),
{
    let ghost g = placement(t, c1, c2);
    let max: u64 = 0xffff_ffff;
    if t.0 < c1.0 || t.1 < c1.1 {
        return false;
    }
    let ox: u64 = (t.0 as u64 - c1.0 as u64) * 1000;
    let oy: u64 = (t.1 as u64 - c1.1 as u64) * 1000;
    if ox > max || oy > max {
        return false;
    }
    let sub_x: u64 = if t.0 == c1.0 { 0 } else { c1.2 as u64 };
    let sub_y: u64 = if t.1 == c1.1 { 0 } else { c1.3 as u64 };
    if sub_x > ox || sub_y > oy {
        return false;
    }
    let px: u64 = ox - sub_x;
    let py: u64 = oy - sub_y;
    if (t.0 == c2.0 && c2.2 == u32::MAX) || (t.1 == c2.1 && c2.3 == u32::MAX) {
        return false;
    }
    let x0: u64 = if t.0 == c1.0 { c1.2 as u64 } else { 0 };
    let y0: u64 = if t.1 == c1.1 { c1.3 as u64 } else { 0 };
    let xe: u64 = if t.0 == c2.0 { c2.2 as u64 + 1 } else { 1000 };
    let ye: u64 = if t.1 == c2.1 { c2.3 as u64 + 1 } else { 1000 };
    if xe < x0 || ye < y0 {
        return false;
    }
    let cw: u64 = xe - x0;
    let ch: u64 = ye - y0;
    assert(px == g.px && py == g.py && cw == g.cw && ch == g.ch);
    if ch > 0 && py + ch - 1 > max {
        return false;
    }
    let h: u64 = (c2.1 as u64 - c1.1 as u64) * 1000 + c2.3 as u64 - c1.3 as u64 + 1;
    if ch > 0 && py < h && cw > 0 && px + cw - 1 > max {
        return false;
    }
    true
}

/// Composes the tiles as `wplace_compose_tiles` does, where that succeeds
/// or fails with an error; `None` where its size or placement computations
/// would leave the `u32` range (for a tile, only once every tile up to and
/// including it has been decoded).  Each tile is decoded once.
pub fn wplace_compose_tiles_checked(
    imgs: Vec<((u32, u32), Vec<u8>)>,
    coord1: (u32, u32, u32, u32),
    coord2: (u32, u32, u32, u32),
    background: Option<(u8, u8, u8)>,
) -> (r: Option<Result<Vec<u8>, WplaceError>>)
    ensures
        r is Some <==> (canvas_size_ok(coord1, coord2) && forall|i: int|
            0 <= i < imgs@.len() && (decoded_tiles(tiles_view(imgs@), i + 1) is Ok) ==> tile_ok(
                #[trigger] imgs@[i].0,
                coord1,
                coord2,
            )),
        r matches Some(res) ==> result_view(res) == compose_outcome(tiles_view(imgs@), coord1, coord2, background),
{
    if !check_canvas_size(coord1, coord2) {
        return None;
    }
    compose_in_one_pass(imgs, coord1, coord2, background)
}

/// A decoding error stays the result for every longer prefix.
proof fn lemma_decode_error_persists(view: Seq<((u32, u32), Seq<u8>)>, k: int, n: int)
    requires
        0 <= k <= n,
        decoded_tiles(view, k) is Err,
    ensures
        decoded_tiles(view, n) == decoded_tiles(view, k),
    decreases n - k,
{
    if k < n {
        lemma_decode_error_persists(view, k + 1, n);
    }
}

} // verus!
