use vstd::prelude::*;
use vstd::slice::slice_subrange;

use crate::color::Rgba8;
use crate::descriptor::ImageDef;
use crate::error::DecodeError;
use crate::raster::{raster_view, Grid, Raster};
use crate::sprite::{make_sprite, sprite_spec};

verus! {

/// The grid of `cols` by `rows` tiles of `tw` by `th` pixels each, taken in
/// row-major order from `tiles`, starting at `first`: the pixel at `(x, y)`
/// is pixel `(x % tw, y % th)` of tile `(y / th) * cols + x / tw`.
pub open spec fn compose_spec(
    tiles: Seq<Grid>,
    first: int,
    cols: nat,
    rows: nat,
    tw: nat,
    th: nat,
) -> Grid {
    let w = (cols * tw) as int;
    let h = (rows * th) as int;
    let tw = tw as int;
    let th = th as int;
    Grid {
        width: w as nat,
        height: h as nat,
        pixels: Seq::new(
            (w * h) as nat,
            |k: int|
                tiles[first + ((k / w) / th) * cols + (k % w) / tw].pixel(
                    (k % w) % tw,
                    (k / w) % th,
                ),
        ),
    }
}

/// The mathematical values of a run of rasters.
pub open spec fn grids_of(s: Seq<Raster>) -> Seq<Grid> {
    s.map_values(|r: Raster| r@)
}

/// Every grid of `tiles` is well formed and `tw` by `th` pixels.
pub open spec fn tiles_fit(tiles: Seq<Grid>, tw: nat, th: nat) -> bool {
    forall|t: int|
        0 <= t < tiles.len() ==> (#[trigger] tiles[t]).wf() && tiles[t].width == tw
            && tiles[t].height == th
}

/// Pixel origin of sprite `i` within its subimage.
pub open spec fn sprite_origin(def: ImageDef, i: int) -> (int, int) {
    (
        (i % def.image_width as int) * def.sprite_width_px as int,
        (i / def.image_width as int) * def.sprite_height_px as int,
    )
}

/// Where pixel `(px, py)` of sprite `i` lands within its subimage.
pub open spec fn sprite_covers(def: ImageDef, i: int, px: int, py: int) -> (int, int) {
    (sprite_origin(def, i).0 + px, sprite_origin(def, i).1 + py)
}

/// The subimage composed from a run of sprites, one per grid cell.
pub open spec fn subimage_spec(sprites: Seq<Grid>, def: ImageDef) -> Result<Grid, DecodeError> {
    if sprites.len() != def.sprites_per_subimage() || !tiles_fit(
        sprites,
        def.sprite_width_px as nat,
        def.sprite_height_px as nat,
    ) {
        Err(DecodeError::LayoutMismatch)
    } else {
        Ok(
            compose_spec(
                sprites,
                0,
                def.image_width as nat,
                def.image_height as nat,
                def.sprite_width_px as nat,
                def.sprite_height_px as nat,
            ),
        )
    }
}

/// The cell at `(x, y)` of a `w`-wide grid is its element `y * w + x`.
proof fn lemma_row_major(x: int, y: int, w: int)
    requires
        0 <= x < w,
        0 <= y,
    ensures
        (y * w + x) / w == y,
        (y * w + x) % w == x,
{
    vstd::arithmetic::div_mod::lemma_fundamental_div_mod_converse(y * w + x, w, y, x);
}

/// Lays `cols` by `rows` equally sized tiles, taken in row-major order from
/// `tiles` starting at `first`, side by side into one raster.
fn compose_grid(
    tiles: &[Raster],
    first: usize,
    cols: usize,
    rows: usize,
    tw: usize,
    th: usize,
) -> (r: Raster)
    requires
        first + cols * rows <= tiles@.len(),
        tiles_fit(grids_of(tiles@), tw as nat, th as nat),
        cols * tw <= usize::MAX,
        rows * th <= usize::MAX,
        (cols * tw) * (rows * th) <= usize::MAX,
    ensures
        r@ == compose_spec(grids_of(tiles@), first as int, cols as nat, rows as nat, tw as nat, th as nat),
        r@.wf(),
{
    let w = cols * tw;
    let h = rows * th;
    let nt = tiles.len();
    let ghost want = compose_spec(
        grids_of(tiles@),
        first as int,
        cols as nat,
        rows as nat,
        tw as nat,
        th as nat,
    );
    let mut pixels: Vec<Rgba8> = Vec::new();
    let mut y: usize = 0;
    while y < h
        invariant
            w == cols * tw,
            h == rows * th,
            w * h <= usize::MAX,
            first + cols * rows <= tiles@.len(),
            nt == tiles@.len(),
            tiles_fit(grids_of(tiles@), tw as nat, th as nat),
            want == compose_spec(grids_of(tiles@), first as int, cols as nat, rows as nat, tw as nat, th as nat),
            y <= h,
            pixels@.len() == y * w,
            forall|k: int| 0 <= k < pixels@.len() ==> pixels@[k] == want.pixels[k],
        decreases h - y,
    {
        let mut x: usize = 0;
        while x < w
            invariant
                w == cols * tw,
                h == rows * th,
                w * h <= usize::MAX,
                first + cols * rows <= tiles@.len(),
                nt == tiles@.len(),
                tiles_fit(grids_of(tiles@), tw as nat, th as nat),
                want == compose_spec(grids_of(tiles@), first as int, cols as nat, rows as nat, tw as nat, th as nat),
                y < h,
                x <= w,
                pixels@.len() == y * w + x,
                forall|k: int| 0 <= k < pixels@.len() ==> pixels@[k] == want.pixels[k],
            decreases w - x,
        {
            proof {
                assert(tw > 0 && th > 0 && cols > 0 && rows > 0) by (nonlinear_arith)
                    requires
                        x < w,
                        y < h,
                        w == cols * tw,
                        h == rows * th,
                ;
                assert(y * w + x < w * h) by (nonlinear_arith)
                    requires
                        x < w,
                        y < h,
                ;
                lemma_row_major(x as int, y as int, w as int);
                assert(y / th < rows) by {
                    vstd::arithmetic::div_mod::lemma_div_by_multiple_is_strongly_ordered(y as int, h as int, rows as int, th as int);
                    vstd::arithmetic::div_mod::lemma_div_by_multiple(rows as int, th as int);
                }
                assert(x / tw < cols) by {
                    vstd::arithmetic::div_mod::lemma_div_by_multiple_is_strongly_ordered(x as int, w as int, cols as int, tw as int);
                    vstd::arithmetic::div_mod::lemma_div_by_multiple(cols as int, tw as int);
                }
                assert((y / th) * cols + x / tw < cols * rows) by (nonlinear_arith)
                    requires
                        y / th < rows,
                        x / tw < cols,
                        0 <= y / th,
                        0 <= x / tw,
                ;
            }
            let t = first + (y / th) * cols + x / tw;
            let ghost tile = grids_of(tiles@)[t as int];
            assert(tile.wf() && tile.width == tw && tile.height == th);
            let color = tiles[t].get_pixel(x % tw, y % th);
            pixels.push(color);
            x = x + 1;
        }
        proof {
            assert(y * w + w == (y + 1) * w) by (nonlinear_arith);
        }
        y = y + 1;
    }
    assert(h * w == w * h) by (nonlinear_arith);
    let r = Raster { width: w, height: h, pixels };
    assert(r@.pixels =~= want.pixels);
    r
}

} // verus!

verus! {

/// Every pixel of a subimage is covered by exactly one pixel of exactly one
/// of its sprites: sprite `i` placed at its origin covers `(x, y)` with its
/// own pixel `(x - ox, y - oy)` only for the sprite and pixel that the
/// composition reads, and each pixel of each sprite lands inside the subimage.
pub proof fn lemma_subimage_coverage(def: ImageDef, x: int, y: int)
    requires
        def.wf(),
        0 <= x < def.image_width * def.sprite_width_px,
        0 <= y < def.image_height * def.sprite_height_px,
    ensures
        ({
            let sw = def.sprite_width_px as int;
            let sh = def.sprite_height_px as int;
            let i = (y / sh) * def.image_width as int + x / sw;
            &&& 0 <= i < def.sprites_per_subimage()
            &&& sprite_covers(def, i, x % sw, y % sh) == (x, y)
            &&& forall|j: int, px: int, py: int|
                0 <= j < def.sprites_per_subimage() && 0 <= px < sw && 0 <= py < sh
                    && #[trigger] sprite_covers(def, j, px, py) == (x, y) ==> j == i && px == x
                    % sw && py == y % sh
        }),
{
    let sw = def.sprite_width_px as int;
    let sh = def.sprite_height_px as int;
    let gw = def.image_width as int;
    let gh = def.image_height as int;
    assert(sw > 0 && sh > 0) by (nonlinear_arith)
        requires
            0 <= x < gw * sw,
            0 <= y < gh * sh,
            gw > 0,
            gh > 0,
    ;
    vstd::arithmetic::div_mod::lemma_div_by_multiple_is_strongly_ordered(x, gw * sw, gw, sw);
    vstd::arithmetic::div_mod::lemma_div_by_multiple(gw, sw);
    vstd::arithmetic::div_mod::lemma_div_by_multiple_is_strongly_ordered(y, gh * sh, gh, sh);
    vstd::arithmetic::div_mod::lemma_div_by_multiple(gh, sh);
    let i = (y / sh) * gw + x / sw;
    assert(0 <= i < gw * gh) by (nonlinear_arith)
        requires
            0 <= y / sh < gh,
            0 <= x / sw < gw,
            i == (y / sh) * gw + x / sw,
    ;
    lemma_row_major(x / sw, y / sh, gw);
    vstd::arithmetic::div_mod::lemma_fundamental_div_mod(x, sw);
    vstd::arithmetic::div_mod::lemma_fundamental_div_mod(y, sh);
    assert((x / sw) * sw == sw * (x / sw)) by (nonlinear_arith);
    assert((y / sh) * sh == sh * (y / sh)) by (nonlinear_arith);
    assert forall|j: int, px: int, py: int|
        0 <= j < def.sprites_per_subimage() && 0 <= px < sw && 0 <= py < sh
            && #[trigger] sprite_covers(def, j, px, py) == (x, y) implies j == i && px == x % sw && py == y % sh by {
        vstd::arithmetic::div_mod::lemma_fundamental_div_mod_converse(x, sw, j % gw, px);
        vstd::arithmetic::div_mod::lemma_fundamental_div_mod_converse(y, sh, j / gw, py);
        vstd::arithmetic::div_mod::lemma_fundamental_div_mod(j, gw);
        assert(j == gw * (j / gw) + j % gw);
        assert(gw * (y / sh) == (y / sh) * gw) by (nonlinear_arith);
    }
}

/// Composes a run of sprites, one per grid cell in row-major order, into a
/// subimage; a run of the wrong length or a sprite of the wrong size is a
/// layout mismatch.
pub fn make_subimage(sprites: &[Raster], def: &ImageDef) -> (r: Result<Raster, DecodeError>)
    requires
        def.wf(),
    ensures
        raster_view(r) == subimage_spec(grids_of(sprites@), *def),
        r is Ok ==> r->Ok_0@.wf(),
{
    let sw = def.sprite_width_px;
    let sh = def.sprite_height_px;
    let gw = def.image_width;
    let gh = def.image_height;
    proof {
        assert(gw * gh <= 0xff * 0xff && sw * sh <= 0xff * 0xff && gw * sw <= 0xff * 0xff && gh
            * sh <= 0xff * 0xff) by (nonlinear_arith)
            requires
                sw <= 0xff,
                sh <= 0xff,
                gw <= 0xff,
                gh <= 0xff,
        ;
        assert((gw * sw) * (gh * sh) <= 0xffff * 0xffff) by (nonlinear_arith)
            requires
                gw * sw <= 0xff * 0xff,
                gh * sh <= 0xff * 0xff,
        ;
    }
    let ghost grids = grids_of(sprites@);
    if sprites.len() != gw * gh {
        return Err(DecodeError::LayoutMismatch);
    }
    let mut t: usize = 0;
    while t < sprites.len()
        invariant
            grids == grids_of(sprites@),
            sw * sh <= 0xff * 0xff,
            sw == def.sprite_width_px,
            sh == def.sprite_height_px,
            gw == def.image_width,
            gh == def.image_height,
            t <= sprites@.len(),
            forall|k: int|
                0 <= k < t ==> (#[trigger] grids[k]).wf() && grids[k].width == sw
                    && grids[k].height == sh,
        decreases sprites@.len() - t,
    {
        let s = &sprites[t];
        assert(grids[t as int] == s@);
        if s.width != sw || s.height != sh || s.pixels.len() != sw * sh {
            assert(!tiles_fit(grids, sw as nat, sh as nat));
            return Err(DecodeError::LayoutMismatch);
        }
        t = t + 1;
    }
    Ok(compose_grid(sprites, 0, gw, gh, sw, sh))
}

} // verus!

verus! {

/// Width in pixels of an image's spritesheet: one subimage per column.
pub open spec fn sheet_width(def: ImageDef) -> nat {
    def.num_subimages as nat * def.image_width as nat * def.sprite_width_px as nat
}

/// Height in pixels of an image's spritesheet: one palette per row band.
pub open spec fn sheet_height(def: ImageDef) -> nat {
    def.num_palettes as nat * def.image_height as nat * def.sprite_height_px as nat
}

/// Every sprite of the image, drawn with `palette`.
pub open spec fn sprite_grids(payloads: Seq<Seq<u8>>, def: ImageDef, palette: Seq<Rgba8>) -> Seq<
    Grid,
> {
    Seq::new(payloads.len(), |s: int| sprite_spec(payloads[s], def, palette)->Ok_0)
}

/// The subimages of the spritesheet, row band by row band: tile `q` is
/// subimage `q % n` drawn with palette `q / n`, for `n` subimages.
pub open spec fn sheet_tiles(def: ImageDef, payloads: Seq<Seq<u8>>, palettes: Seq<Seq<Rgba8>>) -> Seq<
    Grid,
> {
    let n = def.num_subimages as nat;
    Seq::new(
        def.num_palettes as nat * n,
        |q: int|
            compose_spec(
                sprite_grids(payloads, def, palettes[q / n as int]),
                (q % n as int) * def.sprites_per_subimage(),
                def.image_width as nat,
                def.image_height as nat,
                def.sprite_width_px as nat,
                def.sprite_height_px as nat,
            ),
    )
}

/// Some sprite cannot be drawn with some palette.
pub open spec fn render_fails(def: ImageDef, payloads: Seq<Seq<u8>>, palettes: Seq<Seq<Rgba8>>) -> bool {
    exists|p: int, s: int|
        0 <= p < def.num_palettes && 0 <= s < payloads.len() && (#[trigger] sprite_spec(
            payloads[s],
            def,
            palettes[p],
        )) is Err
}

/// The spritesheet of an image: row band `p` holds every subimage drawn with
/// palette `p`, subimage `j` in column `j`.
pub open spec fn sheet_spec(def: ImageDef, payloads: Seq<Seq<u8>>, palettes: Seq<Seq<Rgba8>>) -> Result<
    Grid,
    DecodeError,
> {
    if palettes.len() != def.num_palettes || payloads.len() < def.num_subimages
        * def.sprites_per_subimage() || sheet_width(def) > usize::MAX || sheet_height(def)
        > usize::MAX || sheet_width(def) * sheet_height(def) > usize::MAX {
        Err(DecodeError::LayoutMismatch)
    } else if render_fails(def, payloads, palettes) {
        Err(DecodeError::PaletteIndexOutOfRange)
    } else {
        Ok(
            compose_spec(
                sheet_tiles(def, payloads, palettes),
                0,
                def.num_subimages as nat,
                def.num_palettes as nat,
                def.image_width as nat * def.sprite_width_px as nat,
                def.image_height as nat * def.sprite_height_px as nat,
            ),
        )
    }
}

/// The tile that composition reads for pixel `k` lies within the grid of tiles.
proof fn lemma_tile_index(k: int, cols: int, rows: int, tw: int, th: int)
    requires
        0 <= k < (cols * tw) * (rows * th),
        0 <= cols,
        0 <= rows,
        0 <= tw,
        0 <= th,
    ensures
        cols * tw > 0,
        tw > 0,
        th > 0,
        0 <= ((k / (cols * tw)) / th) * cols + (k % (cols * tw)) / tw < cols * rows,
{
    let w = cols * tw;
    let h = rows * th;
    assert(w > 0 && h > 0 && tw > 0 && th > 0) by (nonlinear_arith)
        requires
            0 <= k < w * h,
            w == cols * tw,
            h == rows * th,
            0 <= cols,
            0 <= rows,
            0 <= tw,
            0 <= th,
    ;
    let x = k % w;
    let y = k / w;
    vstd::arithmetic::div_mod::lemma_div_by_multiple_is_strongly_ordered(k, w * h, h, w);
    vstd::arithmetic::div_mod::lemma_div_by_multiple(h, w);
    assert(w * h == h * w) by (nonlinear_arith);
    vstd::arithmetic::div_mod::lemma_div_by_multiple_is_strongly_ordered(y, h, rows, th);
    vstd::arithmetic::div_mod::lemma_div_by_multiple(rows, th);
    vstd::arithmetic::div_mod::lemma_div_by_multiple_is_strongly_ordered(x, w, cols, tw);
    vstd::arithmetic::div_mod::lemma_div_by_multiple(cols, tw);
    assert((y / th) * cols + x / tw < cols * rows) by (nonlinear_arith)
        requires
            0 <= y / th < rows,
            0 <= x / tw < cols,
    ;
}

/// Composition reads only the `cols * rows` tiles from `first` on.
proof fn lemma_compose_shift(
    a: Seq<Grid>,
    b: Seq<Grid>,
    first: int,
    cols: nat,
    rows: nat,
    tw: nat,
    th: nat,
)
    requires
        forall|k: int| 0 <= k < cols * rows ==> a[k] == b[first + k],
    ensures
        compose_spec(a, 0, cols, rows, tw, th) == compose_spec(b, first, cols, rows, tw, th),
{
    let l = compose_spec(a, 0, cols, rows, tw, th);
    let r = compose_spec(b, first, cols, rows, tw, th);
    assert forall|k: int| 0 <= k < l.pixels.len() implies l.pixels[k] == r.pixels[k] by {
        lemma_tile_index(k, cols as int, rows as int, tw as int, th as int);
    }
    assert(l.pixels =~= r.pixels);
}

} // verus!

verus! {

/// The mathematical values of a list of byte buffers.
pub open spec fn bytes_seqs(v: Seq<Vec<u8>>) -> Seq<Seq<u8>> {
    v.map_values(|b: Vec<u8>| b@)
}

/// The mathematical values of a list of palettes.
pub open spec fn palette_seqs(v: Seq<Vec<Rgba8>>) -> Seq<Seq<Rgba8>> {
    v.map_values(|p: Vec<Rgba8>| p@)
}

/// Draws every sprite with every palette and lays the subimages out as one
/// raster: one row band per palette, one column per subimage.
pub fn make_spritesheet(
    def: &ImageDef,
    pixel_data_per_sprite: &Vec<Vec<u8>>,
    palettes: &Vec<Vec<Rgba8>>,
) -> (r: Result<Raster, DecodeError>)
    requires
        def.wf(),
    ensures
        raster_view(r) == sheet_spec(
            *def,
            bytes_seqs(pixel_data_per_sprite@),
            palette_seqs(palettes@),
        ),
        r is Ok ==> r->Ok_0@.wf(),
{
    let ghost payloads = bytes_seqs(pixel_data_per_sprite@);
    let ghost pals = palette_seqs(palettes@);
    let ghost tiles = sheet_tiles(*def, payloads, pals);
    let sw = def.sprite_width_px;
    let sh = def.sprite_height_px;
    let gw = def.image_width;
    let gh = def.image_height;
    let ns = def.num_subimages;
    let np = def.num_palettes;
    proof {
        assert(gw * gh <= 0xff * 0xff && gw * sw <= 0xff * 0xff && gh * sh <= 0xff * 0xff)
            by (nonlinear_arith)
            requires
                sw <= 0xff,
                sh <= 0xff,
                gw <= 0xff,
                gh <= 0xff,
        ;
        vstd::arithmetic::mul::lemma_mul_strictly_positive(gw as int, gh as int);
        vstd::arithmetic::div_mod::lemma_div_is_ordered_by_denominator(
            def.num_sprites as int,
            1,
            (gw * gh) as int,
        );
        assert(ns <= 0xffff);
        assert(ns * gw <= 0xffff * 0xff && np * gh <= 0xff * 0xff && ns * gw * sw <= 0xffff * 0xff
            * 0xff && np * gh * sh <= 0xff * 0xff * 0xff) by (nonlinear_arith)
            requires
                ns <= 0xffff,
                np <= 0xff,
                sw <= 0xff,
                sh <= 0xff,
                gw <= 0xff,
                gh <= 0xff,
        ;
        assert((ns * gw * sw) * (np * gh * sh) <= (0xffff * 0xff * 0xff) * (0xff * 0xff * 0xff))
            by (nonlinear_arith)
            requires
                ns * gw * sw <= 0xffff * 0xff * 0xff,
                np * gh * sh <= 0xff * 0xff * 0xff,
                0 <= ns * gw * sw,
                0 <= np * gh * sh,
        ;
        assert(ns * gw * sw == ns * (gw * sw)) by (nonlinear_arith);
        assert(np * gh * sh == np * (gh * sh)) by (nonlinear_arith);
    }
    let spp = gw * gh;
    let count = pixel_data_per_sprite.len();
    if palettes.len() != np || count / spp < ns {
        proof {
            if palettes.len() == np && ns * spp <= count {
                vstd::arithmetic::div_mod::lemma_div_is_ordered(
                    (ns * spp) as int,
                    count as int,
                    spp as int,
                );
                vstd::arithmetic::div_mod::lemma_div_by_multiple(ns as int, spp as int);
            }
        }
        return Err(DecodeError::LayoutMismatch);
    }
    proof {
        vstd::arithmetic::div_mod::lemma_fundamental_div_mod(count as int, spp as int);
        assert(ns * spp <= count) by (nonlinear_arith)
            requires
                ns <= count / spp,
                count == spp * (count / spp) + count % spp,
                count % spp >= 0,
                spp > 0,
        ;
    }
    let width64 = (ns as u64) * (gw as u64) * (sw as u64);
    let height64 = (np as u64) * (gh as u64) * (sh as u64);
    if width64 > usize::MAX as u64 || height64 > usize::MAX as u64 || width64 * height64
        > usize::MAX as u64 {
        return Err(DecodeError::LayoutMismatch);
    }
    assert(sheet_width(*def) == width64 && sheet_height(*def) == height64);
    let ghost fits = sheet_width(*def) <= usize::MAX && sheet_height(*def) <= usize::MAX
        && sheet_width(*def) * sheet_height(*def) <= usize::MAX;
    assert(fits);
    let mut subimages: Vec<Raster> = Vec::new();
    let mut p: usize = 0;
    while p < np
        invariant
            sw == def.sprite_width_px,
            sh == def.sprite_height_px,
            gw == def.image_width,
            gh == def.image_height,
            ns == def.num_subimages,
            np == def.num_palettes,
            def.wf(),
            spp == gw * gh,
            ns * spp <= count,
            count == pixel_data_per_sprite@.len(),
            np == palettes@.len(),
            ns <= 0xffff,
            payloads == bytes_seqs(pixel_data_per_sprite@),
            pals == palette_seqs(palettes@),
            tiles == sheet_tiles(*def, payloads, pals),
            p <= np,
            fits == (sheet_width(*def) <= usize::MAX && sheet_height(*def) <= usize::MAX
                && sheet_width(*def) * sheet_height(*def) <= usize::MAX),
            fits,
            subimages@.len() == p * ns,
            forall|q: int|
                0 <= q < subimages@.len() ==> (#[trigger] subimages@[q])@ == tiles[q]
                    && subimages@[q]@.wf(),
            forall|pp: int, s: int|
                0 <= pp < p && 0 <= s < count ==> (#[trigger] sprite_spec(
                    payloads[s],
                    *def,
                    pals[pp],
                )) is Ok,
        decreases np - p,
    {
        let palette = palettes[p].as_slice();
        let mut sprites: Vec<Raster> = Vec::new();
        let mut s: usize = 0;
        while s < count
            invariant
                def.wf(),
                count == pixel_data_per_sprite@.len(),
                np == palettes@.len(),
                p < np,
                palette@ == pals[p as int],
                payloads == bytes_seqs(pixel_data_per_sprite@),
                pals == palette_seqs(palettes@),
                s <= count,
                fits == (sheet_width(*def) <= usize::MAX && sheet_height(*def) <= usize::MAX
                    && sheet_width(*def) * sheet_height(*def) <= usize::MAX),
                fits,
                np == def.num_palettes,
                ns == def.num_subimages,
                spp == def.image_width * def.image_height,
                ns * spp <= count,
                payloads.len() == count,
                pals.len() == np,
                sw == def.sprite_width_px,
                sh == def.sprite_height_px,
                sprites@.len() == s,
                forall|k: int|
                    0 <= k < s ==> (#[trigger] sprites@[k])@.wf() && sprites@[k]@.width == sw
                        && sprites@[k]@.height == sh,
                forall|k: int|
                    0 <= k < s ==> (#[trigger] sprite_spec(payloads[k], *def, pals[p as int]))
                        is Ok && sprites@[k]@ == sprite_spec(
                        payloads[k],
                        *def,
                        pals[p as int],
                    )->Ok_0 && sprites@[k]@.wf() && sprites@[k]@.width == def.sprite_width_px
                        && sprites@[k]@.height == def.sprite_height_px,
            decreases count - s,
        {
            let data = pixel_data_per_sprite[s].as_slice();
            assert(data@ == payloads[s as int]);
            match make_sprite(data, def, palette) {
                Ok(sprite) => {
                    proof {
                        crate::sprite::lemma_sprite_size(payloads[s as int], *def, pals[p as int]);
                    }
                    sprites.push(sprite);
                },
                Err(e) => {
                    assert(sprite_spec(payloads[s as int], *def, pals[p as int]) is Err);
                    assert(render_fails(*def, payloads, pals));
                    return Err(e);
                },
            }
            s = s + 1;
        }
        let ghost grids = sprite_grids(payloads, *def, pals[p as int]);
        assert(grids_of(sprites@) =~= grids);
        let mut j: usize = 0;
        while j < ns
            invariant
                sw == def.sprite_width_px,
                sh == def.sprite_height_px,
                gw == def.image_width,
                gh == def.image_height,
                ns == def.num_subimages,
                np == def.num_palettes,
                def.wf(),
                spp == gw * gh,
                ns * spp <= count,
                count == sprites@.len(),
                ns <= 0xffff,
                p < np,
                grids == sprite_grids(payloads, *def, pals[p as int]),
                grids_of(sprites@) == grids,
                forall|k: int|
                    0 <= k < count ==> (#[trigger] sprites@[k])@.wf() && sprites@[k]@.width == sw
                        && sprites@[k]@.height == sh,
                tiles == sheet_tiles(*def, payloads, pals),
                j <= ns,
                fits == (sheet_width(*def) <= usize::MAX && sheet_height(*def) <= usize::MAX
                    && sheet_width(*def) * sheet_height(*def) <= usize::MAX),
                fits,
                subimages@.len() == p * ns + j,
                forall|q: int|
                    0 <= q < subimages@.len() ==> (#[trigger] subimages@[q])@ == tiles[q]
                        && subimages@[q]@.wf(),
            decreases ns - j,
        {
            proof {
                assert(j * spp + spp <= ns * spp) by (nonlinear_arith)
                    requires
                        j < ns,
                ;
            }
            let a = j * spp;
            let run = slice_subrange(sprites.as_slice(), a, a + spp);
            let ghost run_grids = grids_of(run@);
            assert(run_grids.len() == spp);
            assert forall|k: int| 0 <= k < spp implies run_grids[k] == grids[a + k] by {
                assert(run@[k] == sprites@[a + k]);
            }
            assert(tiles_fit(run_grids, sw as nat, sh as nat)) by {
                assert forall|t: int| 0 <= t < run_grids.len() implies (#[trigger] run_grids[t]).wf()
                    && run_grids[t].width == sw && run_grids[t].height == sh by {
                    assert(run@[t] == sprites@[a + t]);
                }
            }
            proof {
                lemma_compose_shift(run_grids, grids, a as int, gw as nat, gh as nat, sw as nat, sh as nat);
                let q = p * ns + j;
                assert(q < np * ns) by (nonlinear_arith)
                    requires
                        p < np,
                        j < ns,
                        q == p * ns + j,
                ;
                lemma_row_major(j as int, p as int, ns as int);
                assert(q / (ns as int) == p && q % (ns as int) == j);
            }
            match make_subimage(run, def) {
                Ok(sub) => {
                    subimages.push(sub);
                },
                Err(e) => {
                    return Err(e);
                },
            }
            j = j + 1;
        }
        proof {
            assert(p * ns + ns == (p + 1) * ns) by (nonlinear_arith);
        }
        p = p + 1;
    }
    assert(grids_of(subimages@) =~= tiles);
    assert(!render_fails(*def, payloads, pals));
    Ok(compose_grid(subimages.as_slice(), 0, ns, np, gw * sw, gh * sh))
}

} // verus!
