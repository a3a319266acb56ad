//! Seamless tiled processing for large images.
//!
//! A super-resolution model runs on fixed-size tiles. To avoid running out of
//! memory on big images — and to avoid visible seams between tiles — we:
//!
//! 1. Cut the source into tiles of exactly `tile_size`, each one carrying an
//!    `overlap` border of context on every side (sampled with reflection at the
//!    image edges, so every tile is full-size).
//! 2. Upscale each tile independently.
//! 3. Keep only the central `step = tile_size - 2*overlap` region of every
//!    upscaled tile (scaled up), which is the part with full context, and lay
//!    those central regions side by side to reconstruct the output.
//!
//! Tiles are independent, so they can be upscaled in any order (also in
//! parallel) and stitched afterwards with [`stitch_tiles`]; the sequential
//! [`upscale_with_tiles`] gives the same image.
//!
//! With an identity upscaler (`scale = 1`) this reconstructs the input exactly;
//! more generally, when every tile is upscaled by pixel replication, the result
//! is the pixel replication of the whole source.
use vstd::prelude::*;
use vstd::arithmetic::div_mod::{lemma_fundamental_div_mod, lemma_fundamental_div_mod_converse};

verus! {

/// One RGB pixel.
#[derive(Clone, Copy, PartialEq, Eq, Debug)]
pub struct Rgb(pub [u8; 3]);

/// The black pixel.
pub open spec fn black() -> Rgb {
    Rgb([0u8, 0u8, 0u8])
}

/// The mathematical content of a raster: its size and its pixels, row-major.
pub struct RasterView {
    pub width: nat,
    pub height: nat,
    pub pixels: Seq<Rgb>,
}

impl RasterView {
    /// The pixel at column `x`, row `y`.
    pub open spec fn at(self, x: int, y: int) -> Rgb {
        self.pixels[y * self.width + x]
    }

    pub open spec fn wf(self) -> bool {
        self.pixels.len() == self.width * self.height
    }
}

/// The `w` by `h` raster whose pixel at `(x, y)` is `f(x, y)`.
pub open spec fn raster_from_fn(w: nat, h: nat, f: spec_fn(int, int) -> Rgb) -> RasterView {
    RasterView { width: w, height: h, pixels: Seq::new(w * h, |k: int| f(k % (w as int), k / (w as int))) }
}

/// Row-major index arithmetic: position `y * w + x` holds pixel `(x, y)`.
pub proof fn lemma_index(w: int, h: int, x: int, y: int)
    requires
        0 <= x < w,
        0 <= y < h,
    ensures
        0 <= y * w + x < w * h,
        (y * w + x) % w == x,
        (y * w + x) / w == y,
{
    lemma_fundamental_div_mod_converse(y * w + x, w, y, x);
    assert(0 <= y * w + x < w * h) by (nonlinear_arith)
        requires
            0 <= x < w,
            0 <= y < h,
    ;
}

/// The pixel `(x, y)` of a raster built from a function is that function's value.
pub proof fn lemma_from_fn_at(w: nat, h: nat, f: spec_fn(int, int) -> Rgb, x: int, y: int)
    requires
        0 <= x < w,
        0 <= y < h,
    ensures
        raster_from_fn(w, h, f).at(x, y) == f(x, y),
        raster_from_fn(w, h, f).wf(),
{
    lemma_index(w as int, h as int, x, y);
}

/// An in-memory RGB image, stored row-major.
#[derive(Debug, PartialEq, Eq)]
pub struct RgbRaster {
    width: u32,
    height: u32,
    pixels: Vec<Rgb>,
}

impl Clone for RgbRaster {
    fn clone(&self) -> (r: RgbRaster)
        ensures
            r@ == self@,
    {
        proof {
            use_type_invariant(self);
        }
        let r = RgbRaster { width: self.width, height: self.height, pixels: self.pixels.clone() };
        proof {
            assert(r@.pixels =~= self@.pixels);
        }
        r
    }
}

impl View for RgbRaster {
    type V = RasterView;

    closed spec fn view(&self) -> RasterView {
        let n = (self.width as nat) * (self.height as nat);
        RasterView {
            width: self.width as nat,
            height: self.height as nat,
            pixels: Seq::new(n, |k: int| self.pixels@[k]),
        }
    }
}

impl RgbRaster {
    #[verifier::type_invariant]
    closed spec fn inv(self) -> bool {
        self.pixels@.len() == (self.width as nat) * (self.height as nat)
    }

    /// Every raster's pixel count is its width times its height, and its
    /// sides fit in `u32`.
    pub proof fn lemma_wf(&self)
        ensures
            self@.wf(),
            self@.width <= u32::MAX,
            self@.height <= u32::MAX,
    {
    }

    /// A `width` by `height` raster, all black.
    pub fn new(width: u32, height: u32) -> (r: RgbRaster)
        requires
            width * height <= usize::MAX,
        ensures
            r@ == raster_from_fn(width as nat, height as nat, |x: int, y: int| black()),
    {
        let n: usize = (width as usize) * (height as usize);
        let mut pixels: Vec<Rgb> = Vec::new();
        let mut i: usize = 0;
        while i < n
            invariant
                i <= n,
                pixels@.len() == i,
                forall|k: int| 0 <= k < i ==> pixels@[k] == black(),
            decreases n - i,
        {
            pixels.push(Rgb([0u8, 0u8, 0u8]));
            i = i + 1;
        }
        let r = RgbRaster { width, height, pixels };
        proof {
            assert(r@.pixels =~= raster_from_fn(width as nat, height as nat, |x: int, y: int| black()).pixels);
        }
        r
    }

    /// A raster from row-major pixels, or `None` when their number is not
    /// `width * height`.
    pub fn from_pixels(width: u32, height: u32, pixels: Vec<Rgb>) -> (r: Option<RgbRaster>)
        ensures
            match r {
                Some(img) => pixels@.len() == width * height && img@ == RasterView {
                    width: width as nat,
                    height: height as nat,
                    pixels: pixels@,
                },
                None => pixels@.len() != width * height,
            },
    {
        proof {
            assert((width as nat) * (height as nat) <= 0xffff_ffff * 0xffff_ffff) by (nonlinear_arith)
                requires
                    width <= 0xffff_ffff,
                    height <= 0xffff_ffff,
            ;
        }
        let n: u64 = (width as u64) * (height as u64);
        if (pixels.len() as u64) == n {
            let r = RgbRaster { width, height, pixels };
            proof {
                assert(r@.pixels =~= r.pixels@);
            }
            Some(r)
        } else {
            None
        }
    }

    pub fn width(&self) -> (r: u32)
        ensures
            r == self@.width,
    {
        self.width
    }

    pub fn height(&self) -> (r: u32)
        ensures
            r == self@.height,
    {
        self.height
    }

    /// The pixels, row-major.
    pub fn pixels(&self) -> (r: &Vec<Rgb>)
        ensures
            r@ == self@.pixels,
    {
        proof {
            use_type_invariant(self);
            assert(self@.pixels =~= self.pixels@);
        }
        &self.pixels
    }

    /// Give up the raster and keep its row-major pixels.
    pub fn into_pixels(self) -> (r: Vec<Rgb>)
        ensures
            r@ == self@.pixels,
    {
        proof {
            use_type_invariant(&self);
            assert(self@.pixels =~= self.pixels@);
        }
        self.pixels
    }

    /// The pixel at column `x`, row `y`.
    pub fn get_pixel(&self, x: u32, y: u32) -> (r: Rgb)
        requires
            x < self@.width,
            y < self@.height,
        ensures
            r == self@.at(x as int, y as int),
    {
        proof {
            use_type_invariant(self);
            lemma_index(self.width as int, self.height as int, x as int, y as int);
            assert(self.pixels.len() <= usize::MAX);
        }
        let i: usize = (y as usize) * (self.width as usize) + (x as usize);
        self.pixels[i]
    }

    /// Set the pixel at column `x`, row `y`.
    pub fn put_pixel(&mut self, x: u32, y: u32, p: Rgb)
        requires
            x < old(self)@.width,
            y < old(self)@.height,
        ensures
            final(self)@ == (RasterView {
                width: old(self)@.width,
                height: old(self)@.height,
                pixels: old(self)@.pixels.update(y * old(self)@.width + x, p),
            }),
    {
        proof {
            use_type_invariant(&*self);
            lemma_index(self.width as int, self.height as int, x as int, y as int);
            assert(self.pixels.len() <= usize::MAX);
        }
        let i: usize = (y as usize) * (self.width as usize) + (x as usize);
        self.pixels[i] = p;
        proof {
            assert(self@.pixels =~= old(self)@.pixels.update(i as int, p));
        }
    }
}

/// Geometry for tiled upscaling.
#[derive(Clone, Copy, Debug)]
pub struct TilingConfig {
    /// Side length of each (square) tile fed to the model, in input pixels.
    pub tile_size: u32,
    /// Context border kept around each tile, in input pixels.
    pub overlap: u32,
    /// Upscaling factor produced by the model.
    pub scale: u32,
}

impl TilingConfig {
    /// Pixels of new content each tile contributes along one axis:
    /// `tile_size - 2 * overlap`, and at least 1.
    pub open spec fn step_spec(self) -> nat {
        if 2 * self.overlap >= self.tile_size {
            1
        } else {
            (self.tile_size - 2 * self.overlap) as nat
        }
    }

    /// Side of the square tile handed to the model (at least 1).
    pub open spec fn side(self) -> nat {
        if self.tile_size == 0 {
            1
        } else {
            self.tile_size as nat
        }
    }

    /// Context border actually sampled around a tile's core: the overlap,
    /// but at most half a tile.
    pub open spec fn border(self) -> nat {
        if self.overlap <= self.side() / 2 {
            self.overlap as nat
        } else {
            self.side() / 2
        }
    }

    /// Magnification applied to the output (at least 1).
    pub open spec fn factor(self) -> nat {
        if self.scale == 0 {
            1
        } else {
            self.scale as nat
        }
    }

    /// The context border the inference engine keeps around its
    /// `tile_size` tiles: an eighth of the tile, clamped to `4..=tile_size / 2`.
    pub open spec fn model_overlap(tile_size: u32) -> nat {
        let v = (tile_size / 8) as nat;
        if v < 4 {
            4
        } else if v > tile_size / 2 {
            (tile_size / 2) as nat
        } else {
            v
        }
    }

    /// The tiling an inference engine with `tile_size` tiles and native
    /// magnification `scale` uses (a scale of 0 counts as 1).
    pub fn for_model(tile_size: u32, scale: u32) -> (r: TilingConfig)
        requires
            tile_size >= 8,
        ensures
            r.tile_size == tile_size,
            r.overlap == Self::model_overlap(tile_size),
            r.scale == if scale == 0 {
                1
            } else {
                scale
            },
            r.border() == r.overlap,
    {
        let eighth = tile_size / 8;
        let half = tile_size / 2;
        let overlap = if eighth < 4 {
            4
        } else if eighth > half {
            half
        } else {
            eighth
        };
        TilingConfig { tile_size, overlap, scale: if scale == 0 { 1 } else { scale } }
    }

    /// Pixels of new content each tile contributes along one axis (input pixels).
    pub fn step(&self) -> (r: u32)
        ensures
            r == self.step_spec(),
            r >= 1,
    {
        let twice: u64 = 2 * (self.overlap as u64);
        if twice >= self.tile_size as u64 {
            1
        } else {
            self.tile_size - (twice as u32)
        }
    }
}

/// A tile's core plus its border fits inside the tile: `border + step <= side`.
pub proof fn lemma_core_fits(cfg: TilingConfig)
    ensures
        cfg.border() + cfg.step_spec() <= cfg.side(),
        cfg.step_spec() >= 1,
{
}

/// Mirror an integer coordinate into `0..len` (reflection without repeating
/// the edge pixel); `0` when `len <= 1`.
pub open spec fn reflect_spec(coord: int, len: int) -> int {
    if len <= 1 {
        0
    } else {
        let period = 2 * (len - 1);
        let c = coord % period;
        if c >= len {
            period - c
        } else {
            c
        }
    }
}

/// A coordinate already inside `0..len` is its own reflection.
pub proof fn lemma_reflect_in_range(coord: int, len: int)
    requires
        0 <= coord < len,
    ensures
        reflect_spec(coord, len) == coord,
{
    if len > 1 {
        lemma_fundamental_div_mod_converse(coord, 2 * (len - 1), 0, coord);
    }
}

/// Reflect an out-of-range coordinate back into `0..len` (mirror padding).
pub fn reflect(coord: i64, len: i64) -> (r: u32)
    requires
        len <= 0x1_0000_0000,
    ensures
        r == reflect_spec(coord as int, len as int),
        len >= 1 ==> r < len,
{
    if len <= 1 {
        return 0;
    }
    let period: u64 = 2 * ((len - 1) as u64);
    let c: u64 = if coord >= 0 {
        (coord as u64) % period
    } else {
        let a: u64 = ((-(coord + 1)) as u64) + 1;
        let m: u64 = a % period;
        proof {
            let q = (a / period) as int;
            lemma_fundamental_div_mod(a as int, period as int);
            assert(a == q * period + m) by (nonlinear_arith)
                requires
                    a == period * q + m,
            ;
            assert(coord == -q * period - m) by (nonlinear_arith)
                requires
                    a == q * period + m,
                    coord == -a,
            ;
            assert(coord == (-q - 1) * period + (period - m)) by (nonlinear_arith)
                requires
                    coord == -q * period - m,
            ;
            if m == 0 {
                lemma_fundamental_div_mod_converse(coord as int, period as int, -q, 0);
            } else {
                lemma_fundamental_div_mod_converse(
                    coord as int,
                    period as int,
                    -q - 1,
                    period - m,
                );
            }
        }
        if m == 0 {
            0
        } else {
            period - m
        }
    };
    if c >= len as u64 {
        (period - c) as u32
    } else {
        c as u32
    }
}

/// Tiles needed to cover `len` pixels `step` at a time (at least one).
pub open spec fn tiles_along(len: nat, step: nat) -> nat {
    if len == 0 {
        1
    } else {
        ((len - 1) as nat) / step + 1
    }
}

/// Number of tiles for a `w` by `h` source.
pub open spec fn tile_count(w: nat, h: nat, cfg: TilingConfig) -> nat {
    tiles_along(w, cfg.step_spec()) * tiles_along(h, cfg.step_spec())
}

/// Source-space top-left of the `i`-th tile's core, row-major.
pub open spec fn origin_of(w: nat, h: nat, cfg: TilingConfig, i: int) -> (int, int) {
    let tx = tiles_along(w, cfg.step_spec()) as int;
    ((i % tx) * cfg.step_spec(), (i / tx) * cfg.step_spec())
}

/// The last tile along an axis starts inside the image.
proof fn lemma_tiles_along(len: nat, step: nat, t: int)
    requires
        step >= 1,
        0 <= t < tiles_along(len, step),
    ensures
        len == 0 || t * step < len,
        tiles_along(len, step) >= 1,
        len <= tiles_along(len, step) * step,
{
    if len > 0 {
        let q = ((len - 1) as nat) / step;
        let r = ((len - 1) as nat) % step;
        lemma_fundamental_div_mod((len - 1) as int, step as int);
        assert(q * step <= len - 1) by (nonlinear_arith)
            requires
                len - 1 == step * q + r,
                0 <= r < step,
        ;
        assert(len - 1 < (q + 1) * step) by (nonlinear_arith)
            requires
                len - 1 == step * q + r,
                0 <= r < step,
        ;
        assert(t * step <= q * step) by (nonlinear_arith)
            requires
                t <= q,
                step >= 1,
        ;
    }
}

/// Source-space top-left of every tile's core, row-major.
pub fn tile_origins(w: u32, h: u32, cfg: &TilingConfig) -> (r: Vec<(u32, u32)>)
    ensures
        r@.len() == tile_count(w as nat, h as nat, *cfg),
        forall|i: int|
            0 <= i < r@.len() ==> (#[trigger] r@[i]).0 == origin_of(w as nat, h as nat, *cfg, i).0
                && r@[i].1 == origin_of(w as nat, h as nat, *cfg, i).1,
        forall|i: int| 0 <= i < r@.len() ==> (w == 0 || (#[trigger] r@[i]).0 < w) && (h == 0 || r@[i].1 < h),
{
    let step = cfg.step();
    let tiles_x: u32 = if w == 0 { 1 } else { (w - 1) / step + 1 };
    let tiles_y: u32 = if h == 0 { 1 } else { (h - 1) / step + 1 };
    let ghost n = tile_count(w as nat, h as nat, *cfg);
    let mut origins: Vec<(u32, u32)> = Vec::new();
    let mut ty: u32 = 0;
    while ty < tiles_y
        invariant
            tiles_x == tiles_along(w as nat, step as nat),
            tiles_y == tiles_along(h as nat, step as nat),
            step == cfg.step_spec(),
            step >= 1,
            ty <= tiles_y,
            origins@.len() == ty * tiles_x,
            forall|i: int|
                0 <= i < origins@.len() ==> (#[trigger] origins@[i]).0 == origin_of(
                    w as nat,
                    h as nat,
                    *cfg,
                    i,
                ).0 && origins@[i].1 == origin_of(w as nat, h as nat, *cfg, i).1,
            forall|i: int|
                0 <= i < origins@.len() ==> (w == 0 || (#[trigger] origins@[i]).0 < w) && (h == 0
                    || origins@[i].1 < h),
        decreases tiles_y - ty,
    {
        proof {
            lemma_tiles_along(h as nat, step as nat, ty as int);
        }
        let mut tx: u32 = 0;
        while tx < tiles_x
            invariant
                tiles_x == tiles_along(w as nat, step as nat),
                tiles_y == tiles_along(h as nat, step as nat),
                step == cfg.step_spec(),
                step >= 1,
                ty < tiles_y,
                h == 0 || ty * step < h,
                tx <= tiles_x,
                origins@.len() == ty * tiles_x + tx,
                forall|i: int|
                    0 <= i < origins@.len() ==> (#[trigger] origins@[i]).0 == origin_of(
                        w as nat,
                        h as nat,
                        *cfg,
                        i,
                    ).0 && origins@[i].1 == origin_of(w as nat, h as nat, *cfg, i).1,
                forall|i: int|
                    0 <= i < origins@.len() ==> (w == 0 || (#[trigger] origins@[i]).0 < w) && (h
                        == 0 || origins@[i].1 < h),
            decreases tiles_x - tx,
        {
            proof {
                lemma_tiles_along(w as nat, step as nat, tx as int);
                lemma_fundamental_div_mod_converse(
                    (ty * tiles_x + tx) as int,
                    tiles_x as int,
                    ty as int,
                    tx as int,
                );
            }
            let ox: u32 = if w == 0 { 0 } else { tx * step };
            let oy: u32 = if h == 0 { 0 } else { ty * step };
            proof {
                if w == 0 {
                    assert(tx == 0);
                }
                if h == 0 {
                    assert(ty == 0);
                }
            }
            origins.push((ox, oy));
            tx = tx + 1;
        }
        proof {
            assert((ty + 1) * tiles_x == ty * tiles_x + tiles_x) by (nonlinear_arith);
        }
        ty = ty + 1;
    }
    proof {
        assert(tiles_y * tiles_x == tiles_x * tiles_y) by (nonlinear_arith);
    }
    origins
}

/// Pixel `k` of a well-formed raster is its pixel at `(k % width, k / width)`.
pub proof fn lemma_pixel_at_index(v: RasterView, k: int)
    requires
        v.wf(),
        0 <= k < v.pixels.len(),
    ensures
        0 <= k % (v.width as int) < v.width,
        0 <= k / (v.width as int) < v.height,
        v.pixels[k] == v.at(k % (v.width as int), k / (v.width as int)),
{
    let w = v.width as int;
    let hh = v.height as int;
    assert(w > 0) by (nonlinear_arith)
        requires
            0 <= k < w * hh,
            w >= 0,
            hh >= 0,
    ;
    lemma_fundamental_div_mod(k, w);
    let q = k / w;
    let r = k % w;
    assert(q * w + r == k) by (nonlinear_arith)
        requires
            k == w * q + r,
    ;
    assert(q < hh) by (nonlinear_arith)
        requires
            k == q * w + r,
            0 <= r < w,
            k < w * hh,
    ;
    assert(q >= 0) by (nonlinear_arith)
        requires
            k == q * w + r,
            0 <= r < w,
            k >= 0,
    ;
}

/// A well-formed raster that agrees with `f` on every pixel is the raster
/// built from `f`.
pub proof fn lemma_eq_from_fn(v: RasterView, f: spec_fn(int, int) -> Rgb)
    requires
        v.wf(),
        forall|x: int, y: int| 0 <= x < v.width && 0 <= y < v.height ==> v.at(x, y) == f(x, y),
    ensures
        v == raster_from_fn(v.width, v.height, f),
{
    let g = raster_from_fn(v.width, v.height, f);
    assert forall|k: int| 0 <= k < v.pixels.len() implies v.pixels[k] == g.pixels[k] by {
        lemma_pixel_at_index(v, k);
    }
    assert(v.pixels =~= g.pixels);
}

/// Two rasters built from functions that agree on their domain are equal.
pub proof fn lemma_from_fn_ext(w: nat, h: nat, f: spec_fn(int, int) -> Rgb, g: spec_fn(int, int) -> Rgb)
    requires
        forall|x: int, y: int| 0 <= x < w && 0 <= y < h ==> #[trigger] f(x, y) == g(x, y),
    ensures
        raster_from_fn(w, h, f) == raster_from_fn(w, h, g),
{
    let a = raster_from_fn(w, h, f);
    assert forall|x: int, y: int| 0 <= x < w && 0 <= y < h implies a.at(x, y) == g(x, y) by {
        lemma_from_fn_at(w, h, f, x, y);
    }
    if w * h > 0 {
        lemma_eq_from_fn(a, g);
    } else {
        assert(a.pixels =~= raster_from_fn(w, h, g).pixels);
    }
}

/// The input tile whose core starts at `(cx, cy)`: `side` by `side` pixels
/// starting `border` pixels before the core, sampled from `src` with
/// reflection at its edges.
pub open spec fn extract_spec(src: RasterView, cfg: TilingConfig, cx: int, cy: int) -> RasterView {
    let ov = cfg.border() as int;
    raster_from_fn(
        cfg.side(),
        cfg.side(),
        |dx: int, dy: int|
            src.at(
                reflect_spec(cx - ov + dx, src.width as int),
                reflect_spec(cy - ov + dy, src.height as int),
            ),
    )
}

/// Build one full `side` × `side` input tile, sampling with reflection so
/// border tiles are still complete.
pub fn extract_tile(src: &RgbRaster, cfg: &TilingConfig, core_x: u32, core_y: u32) -> (r: RgbRaster)
    requires
        src@.width >= 1,
        src@.height >= 1,
        cfg.side() * cfg.side() <= usize::MAX,
    ensures
        r@ == extract_spec(src@, *cfg, core_x as int, core_y as int),
{
    proof {
        src.lemma_wf();
    }
    let w = src.width();
    let h = src.height();
    let tile: u32 = if cfg.tile_size == 0 { 1 } else { cfg.tile_size };
    let overlap: u32 = if cfg.overlap <= tile / 2 { cfg.overlap } else { tile / 2 };
    let ghost spec_tile = extract_spec(src@, *cfg, core_x as int, core_y as int);
    let mut pixels: Vec<Rgb> = Vec::new();
    let mut dy: u32 = 0;
    while dy < tile
        invariant
            tile == cfg.side(),
            overlap == cfg.border(),
            w == src@.width,
            h == src@.height,
            w >= 1,
            h >= 1,
            src@.wf(),
            tile * tile <= usize::MAX,
            spec_tile == extract_spec(src@, *cfg, core_x as int, core_y as int),
            dy <= tile,
            pixels@.len() == dy * tile,
            forall|k: int| 0 <= k < pixels@.len() ==> pixels@[k] == spec_tile.pixels[k],
        decreases tile - dy,
    {
        let sy = reflect(core_y as i64 - overlap as i64 + dy as i64, h as i64);
        let mut dx: u32 = 0;
        while dx < tile
            invariant
                tile == cfg.side(),
                overlap == cfg.border(),
                w == src@.width,
                h == src@.height,
                w >= 1,
                h >= 1,
                src@.wf(),
                tile * tile <= usize::MAX,
                spec_tile == extract_spec(src@, *cfg, core_x as int, core_y as int),
                dy < tile,
                sy == reflect_spec(core_y - overlap + dy, h as int),
                sy < h,
                dx <= tile,
                pixels@.len() == dy * tile + dx,
                forall|k: int| 0 <= k < pixels@.len() ==> pixels@[k] == spec_tile.pixels[k],
            decreases tile - dx,
        {
            let sx = reflect(core_x as i64 - overlap as i64 + dx as i64, w as i64);
            let p = src.get_pixel(sx, sy);
            proof {
                lemma_index(tile as int, tile as int, dx as int, dy as int);
            }
            pixels.push(p);
            dx = dx + 1;
        }
        proof {
            assert((dy + 1) * tile == dy * tile + tile) by (nonlinear_arith);
        }
        dy = dy + 1;
    }
    let r = RgbRaster { width: tile, height: tile, pixels };
    proof {
        assert(r@.pixels =~= spec_tile.pixels);
    }
    r
}

/// Whether output pixel `(x, y)` of an `out_w` by `out_h` canvas lies in the
/// core region that the tile whose core starts at source `(cx, cy)` fills:
/// `step * factor` pixels along each axis from `(cx, cy) * factor`, clipped
/// to the canvas.
pub open spec fn in_core(out_w: nat, out_h: nat, cfg: TilingConfig, cx: int, cy: int, x: int, y: int) -> bool {
    let s = cfg.factor() as int;
    let reach = (cfg.step_spec() * cfg.factor()) as int;
    &&& cx * s <= x
    &&& x < cx * s + reach
    &&& x < out_w
    &&& cy * s <= y
    &&& y < cy * s + reach
    &&& y < out_h
}

/// The value a core pixel takes from the upscaled tile: the pixel at the same
/// offset from the core's corner, past the scaled border, or black when the
/// upscaled tile is too small to hold it.
pub open spec fn core_pixel(up: RasterView, cfg: TilingConfig, cx: int, cy: int, x: int, y: int) -> Rgb {
    let s = cfg.factor() as int;
    let ovs = (cfg.border() * cfg.factor()) as int;
    let sx = ovs + (x - cx * s);
    let sy = ovs + (y - cy * s);
    if sx < up.width && sy < up.height {
        up.at(sx, sy)
    } else {
        black()
    }
}

/// `out` with the core region of the tile at `(cx, cy)` copied in from the
/// upscaled tile `up`; every other pixel is kept.
pub open spec fn blit_spec(out: RasterView, up: RasterView, cfg: TilingConfig, cx: int, cy: int) -> RasterView {
    raster_from_fn(
        out.width,
        out.height,
        |x: int, y: int|
            if in_core(out.width, out.height, cfg, cx, cy, x, y) {
                core_pixel(up, cfg, cx, cy, x, y)
            } else {
                out.at(x, y)
            },
    )
}

/// Distinct pixels of a raster have distinct row-major positions.
proof fn lemma_index_injective(w: int, h: int, x: int, y: int, x2: int, y2: int)
    requires
        0 <= x < w,
        0 <= y < h,
        0 <= x2 < w,
        0 <= y2 < h,
        y * w + x == y2 * w + x2,
    ensures
        x == x2,
        y == y2,
{
    lemma_index(w, h, x, y);
    lemma_index(w, h, x2, y2);
}

/// Copy the central region (skipping the scaled overlap border) of `upscaled`
/// into `out` at the matching position, clipped to the canvas.
pub fn blit_central(out: &mut RgbRaster, upscaled: &RgbRaster, cfg: &TilingConfig, core_x: u32, core_y: u32)
    requires
        core_x * cfg.factor() <= old(out)@.width,
        core_y * cfg.factor() <= old(out)@.height,
        cfg.side() * cfg.factor() <= u32::MAX,
    ensures
        final(out)@ == blit_spec(old(out)@, upscaled@, *cfg, core_x as int, core_y as int),
{
    proof {
        out.lemma_wf();
        upscaled.lemma_wf();
        lemma_core_fits(*cfg);
    }
    let ghost old_out = out@;
    let scale: u32 = if cfg.scale == 0 { 1 } else { cfg.scale };
    let tile: u32 = if cfg.tile_size == 0 { 1 } else { cfg.tile_size };
    let overlap: u32 = if cfg.overlap <= tile / 2 { cfg.overlap } else { tile / 2 };
    let step = cfg.step();
    proof {
        assert(overlap * scale <= tile * scale) by (nonlinear_arith)
            requires
                overlap <= tile,
        ;
        assert(step * scale <= tile * scale) by (nonlinear_arith)
            requires
                step <= tile,
        ;
        assert((overlap + step) * scale <= tile * scale) by (nonlinear_arith)
            requires
                overlap + step <= tile,
        ;
        assert((overlap + step) * scale == overlap * scale + step * scale) by (nonlinear_arith);
    }
    let ov_s: u32 = overlap * scale;
    let step_s: u32 = step * scale;
    let x0: u32 = core_x * scale;
    let y0: u32 = core_y * scale;
    let out_w = out.width();
    let out_h = out.height();
    let core_w: u32 = if step_s <= out_w - x0 { step_s } else { out_w - x0 };
    let core_h: u32 = if step_s <= out_h - y0 { step_s } else { out_h - y0 };
    let up_w = upscaled.width();
    let up_h = upscaled.height();
    let mut dy: u32 = 0;
    while dy < core_h
        invariant
            scale == cfg.factor(),
            overlap == cfg.border(),
            step == cfg.step_spec(),
            ov_s == overlap * scale,
            step_s == step * scale,
            ov_s + step_s <= tile * scale,
            tile * scale <= u32::MAX,
            x0 == core_x * scale,
            y0 == core_y * scale,
            out_w == old_out.width,
            out_h == old_out.height,
            x0 <= out_w,
            y0 <= out_h,
            core_w <= step_s,
            core_w <= out_w - x0,
            core_w == step_s || core_w == out_w - x0,
            core_h <= step_s,
            core_h <= out_h - y0,
            core_h == step_s || core_h == out_h - y0,
            up_w == upscaled@.width,
            up_h == upscaled@.height,
            old_out.wf(),
            out@.wf(),
            out@.width == out_w,
            out@.height == out_h,
            dy <= core_h,
            forall|x: int, y: int|
                0 <= x < out_w && 0 <= y < out_h ==> #[trigger] out@.at(x, y) == if in_core(
                    out_w as nat,
                    out_h as nat,
                    *cfg,
                    core_x as int,
                    core_y as int,
                    x,
                    y,
                ) && y < y0 + dy {
                    core_pixel(upscaled@, *cfg, core_x as int, core_y as int, x, y)
                } else {
                    old_out.at(x, y)
                },
        decreases core_h - dy,
    {
        let oy: u32 = y0 + dy;
        let src_y: u32 = ov_s + dy;
        let mut dx: u32 = 0;
        while dx < core_w
            invariant
                scale == cfg.factor(),
                overlap == cfg.border(),
                step == cfg.step_spec(),
                ov_s == overlap * scale,
                step_s == step * scale,
                ov_s + step_s <= tile * scale,
                tile * scale <= u32::MAX,
                x0 == core_x * scale,
                y0 == core_y * scale,
                out_w == old_out.width,
                out_h == old_out.height,
                x0 <= out_w,
                y0 <= out_h,
                core_w <= step_s,
                core_w <= out_w - x0,
                core_w == step_s || core_w == out_w - x0,
                core_h <= step_s,
                core_h <= out_h - y0,
                core_h == step_s || core_h == out_h - y0,
                up_w == upscaled@.width,
                up_h == upscaled@.height,
                old_out.wf(),
                out@.wf(),
                out@.width == out_w,
                out@.height == out_h,
                dy < core_h,
                oy == y0 + dy,
                src_y == ov_s + dy,
                dx <= core_w,
                forall|x: int, y: int|
                    0 <= x < out_w && 0 <= y < out_h ==> #[trigger] out@.at(x, y) == if in_core(
                        out_w as nat,
                        out_h as nat,
                        *cfg,
                        core_x as int,
                        core_y as int,
                        x,
                        y,
                    ) && (y < y0 + dy || (y == y0 + dy && x < x0 + dx)) {
                        core_pixel(upscaled@, *cfg, core_x as int, core_y as int, x, y)
                    } else {
                        old_out.at(x, y)
                    },
            decreases core_w - dx,
        {
            let ox: u32 = x0 + dx;
            let src_x: u32 = ov_s + dx;
            let px = if src_x < up_w && src_y < up_h {
                upscaled.get_pixel(src_x, src_y)
            } else {
                Rgb([0u8, 0u8, 0u8])
            };
            let ghost before = out@;
            out.put_pixel(ox, oy, px);
            proof {
                assert forall|x: int, y: int| 0 <= x < out_w && 0 <= y < out_h implies #[trigger] out@.at(
                    x,
                    y,
                ) == if in_core(
                    out_w as nat,
                    out_h as nat,
                    *cfg,
                    core_x as int,
                    core_y as int,
                    x,
                    y,
                ) && (y < y0 + dy || (y == y0 + dy && x < x0 + dx + 1)) {
                    core_pixel(upscaled@, *cfg, core_x as int, core_y as int, x, y)
                } else {
                    old_out.at(x, y)
                } by {
                    lemma_index(out_w as int, out_h as int, x, y);
                    lemma_index(out_w as int, out_h as int, ox as int, oy as int);
                    if x != ox || y != oy {
                        if y * out_w + x == oy * out_w + ox {
                            lemma_index_injective(out_w as int, out_h as int, x, y, ox as int, oy as int);
                        }
                        assert(out@.at(x, y) == before.at(x, y));
                    }
                }
            }
            dx = dx + 1;
        }
        dy = dy + 1;
    }
    proof {
        let f = |x: int, y: int|
            if in_core(out_w as nat, out_h as nat, *cfg, core_x as int, core_y as int, x, y) {
                core_pixel(upscaled@, *cfg, core_x as int, core_y as int, x, y)
            } else {
                old_out.at(x, y)
            };
        assert forall|x: int, y: int| 0 <= x < out@.width && 0 <= y < out@.height implies out@.at(x, y) == f(x, y) by {
            assert(out@.at(x, y) == out@.at(x, y));
        }
        lemma_eq_from_fn(out@, f);
    }
}

/// The output canvas after blitting the first `i` upscaled tiles `ups`, in
/// tile order, onto a black canvas of `w * factor` by `h * factor`.
pub open spec fn stitch_upto(w: nat, h: nat, cfg: TilingConfig, ups: Seq<RasterView>, i: nat) -> RasterView
    decreases i,
{
    if i == 0 {
        raster_from_fn(w * cfg.factor(), h * cfg.factor(), |x: int, y: int| black())
    } else {
        let o = origin_of(w, h, cfg, i - 1);
        blit_spec(stitch_upto(w, h, cfg, ups, (i - 1) as nat), ups[i - 1], cfg, o.0, o.1)
    }
}

/// The output for a `w` by `h` source whose tiles, in tile order, were
/// upscaled into `ups`.
pub open spec fn stitch_spec(w: nat, h: nat, cfg: TilingConfig, ups: Seq<RasterView>) -> RasterView {
    stitch_upto(w, h, cfg, ups, tile_count(w, h, cfg))
}

/// The views of a sequence of rasters.
pub open spec fn views(rs: Seq<RgbRaster>) -> Seq<RasterView> {
    rs.map_values(|r: RgbRaster| r@)
}

/// Machine limits for tiling a `w` by `h` source: the output and every tile
/// fit in memory, and scaled coordinates fit in `u32`.
pub open spec fn tiling_fits(w: nat, h: nat, cfg: TilingConfig) -> bool {
    &&& w * cfg.factor() <= u32::MAX
    &&& h * cfg.factor() <= u32::MAX
    &&& (w * cfg.factor()) * (h * cfg.factor()) <= usize::MAX
    &&& cfg.side() * cfg.side() <= usize::MAX
    &&& cfg.side() * cfg.factor() <= u32::MAX
}

/// Every tile origin lies inside the source.
pub proof fn lemma_origin_inside(w: nat, h: nat, cfg: TilingConfig, i: int)
    requires
        w >= 1,
        h >= 1,
        0 <= i < tile_count(w, h, cfg),
    ensures
        0 <= origin_of(w, h, cfg, i).0 < w,
        0 <= origin_of(w, h, cfg, i).1 < h,
{
    let step = cfg.step_spec();
    let tx = tiles_along(w, step) as int;
    let ty = tiles_along(h, step) as int;
    lemma_core_fits(cfg);
    lemma_tiles_along(w, step, 0);
    lemma_tiles_along(h, step, 0);
    lemma_fundamental_div_mod(i, tx);
    let a = i % tx;
    let b = i / tx;
    assert(0 <= b < ty) by (nonlinear_arith)
        requires
            i == tx * b + a,
            0 <= a < tx,
            0 <= i < tx * ty,
            tx >= 1,
    ;
    lemma_tiles_along(w, step, a);
    lemma_tiles_along(h, step, b);
    assert(a * step >= 0 && b * step >= 0) by (nonlinear_arith)
        requires
            a >= 0,
            b >= 0,
    ;
}

/// Lay upscaled tiles, given in tile order, onto the output canvas of a
/// `src_w` by `src_h` source. This is the stitching half of tiled upscaling,
/// for tiles that were upscaled elsewhere (for instance in parallel).
pub fn stitch_tiles(src_w: u32, src_h: u32, cfg: &TilingConfig, tiles: &Vec<RgbRaster>) -> (r: RgbRaster)
    requires
        src_w >= 1,
        src_h >= 1,
        tiling_fits(src_w as nat, src_h as nat, *cfg),
        tiles@.len() == tile_count(src_w as nat, src_h as nat, *cfg),
    ensures
        r@ == stitch_spec(src_w as nat, src_h as nat, *cfg, views(tiles@)),
{
    let scale: u32 = if cfg.scale == 0 { 1 } else { cfg.scale };
    let origins = tile_origins(src_w, src_h, cfg);
    let mut out = RgbRaster::new(src_w * scale, src_h * scale);
    let n = origins.len();
    let mut i: usize = 0;
    while i < n
        invariant
            scale == cfg.factor(),
            src_w >= 1,
            src_h >= 1,
            tiling_fits(src_w as nat, src_h as nat, *cfg),
            n == origins@.len(),
            n == tile_count(src_w as nat, src_h as nat, *cfg),
            n == tiles@.len(),
            forall|j: int|
                0 <= j < n ==> (#[trigger] origins@[j]).0 == origin_of(src_w as nat, src_h as nat, *cfg, j).0
                    && origins@[j].1 == origin_of(src_w as nat, src_h as nat, *cfg, j).1,
            i <= n,
            out@ == stitch_upto(src_w as nat, src_h as nat, *cfg, views(tiles@), i as nat),
        decreases n - i,
    {
        let (cx, cy) = origins[i];
        proof {
            lemma_origin_inside(src_w as nat, src_h as nat, *cfg, i as int);
            assert(cx * scale <= src_w * scale) by (nonlinear_arith)
                requires
                    cx < src_w,
            ;
            assert(cy * scale <= src_h * scale) by (nonlinear_arith)
                requires
                    cy < src_h,
            ;
            assert(views(tiles@)[i as int] == tiles@[i as int]@);
            lemma_stitch_dims(src_w as nat, src_h as nat, *cfg, views(tiles@), i as nat);
        }
        blit_central(&mut out, &tiles[i], cfg, cx, cy);
        i = i + 1;
    }
    out
}

/// The tiles of `src`, in tile order, were handed to `upscale` as `ins`
/// and it gave back `outs`.
pub open spec fn tiles_upscaled<F: Fn(&RgbRaster) -> RgbRaster>(
    src: RasterView,
    cfg: TilingConfig,
    upscale: F,
    ins: Seq<RgbRaster>,
    outs: Seq<RgbRaster>,
) -> bool {
    &&& ins.len() == tile_count(src.width, src.height, cfg)
    &&& outs.len() == ins.len()
    &&& forall|i: int|
        0 <= i < ins.len() ==> (#[trigger] ins[i])@ == extract_spec(
            src,
            cfg,
            origin_of(src.width, src.height, cfg, i).0,
            origin_of(src.width, src.height, cfg, i).1,
        ) && call_ensures(upscale, (&ins[i],), outs[i])
}

/// Upscale `src` tile-by-tile (sequentially) and stitch the result back
/// together seamlessly. `upscale` is called once per tile, in tile order,
/// with a full `side` × `side` tile; only the core of what it returns is
/// used. `progress` is called after each tile with the number of tiles done
/// and the total.
pub fn upscale_with_tiles<F: Fn(&RgbRaster) -> RgbRaster, P: Fn(usize, usize)>(
    src: &RgbRaster,
    cfg: &TilingConfig,
    upscale: F,
    progress: P,
) -> (r: RgbRaster)
    requires
        src@.width >= 1,
        src@.height >= 1,
        tiling_fits(src@.width, src@.height, *cfg),
        forall|t: &RgbRaster| call_requires(upscale, (t,)),
        forall|done: usize, total: usize| call_requires(progress, (done, total)),
    ensures
        exists|ins: Seq<RgbRaster>, outs: Seq<RgbRaster>|
            #[trigger] tiles_upscaled(src@, *cfg, upscale, ins, outs) && r@ == stitch_spec(
                src@.width,
                src@.height,
                *cfg,
                views(outs),
            ),
{
    let w = src.width();
    let h = src.height();
    let scale: u32 = if cfg.scale == 0 { 1 } else { cfg.scale };
    let origins = tile_origins(w, h, cfg);
    let mut out = RgbRaster::new(w * scale, h * scale);
    let n = origins.len();
    let ghost mut ins: Seq<RgbRaster> = Seq::empty();
    let ghost mut outs: Seq<RgbRaster> = Seq::empty();
    let mut i: usize = 0;
    while i < n
        invariant
            scale == cfg.factor(),
            w == src@.width,
            h == src@.height,
            w >= 1,
            h >= 1,
            tiling_fits(w as nat, h as nat, *cfg),
            forall|t: &RgbRaster| call_requires(upscale, (t,)),
            forall|done: usize, total: usize| call_requires(progress, (done, total)),
            n == origins@.len(),
            n == tile_count(w as nat, h as nat, *cfg),
            forall|j: int|
                0 <= j < n ==> (#[trigger] origins@[j]).0 == origin_of(w as nat, h as nat, *cfg, j).0
                    && origins@[j].1 == origin_of(w as nat, h as nat, *cfg, j).1,
            i <= n,
            ins.len() == i,
            outs.len() == i,
            forall|j: int|
                0 <= j < i ==> (#[trigger] ins[j])@ == extract_spec(
                    src@,
                    *cfg,
                    origin_of(w as nat, h as nat, *cfg, j).0,
                    origin_of(w as nat, h as nat, *cfg, j).1,
                ) && call_ensures(upscale, (&ins[j],), outs[j]),
            out@ == stitch_upto(w as nat, h as nat, *cfg, views(outs), i as nat),
        decreases n - i,
    {
        let (cx, cy) = origins[i];
        proof {
            lemma_origin_inside(w as nat, h as nat, *cfg, i as int);
            assert(cx * scale <= w * scale) by (nonlinear_arith)
                requires
                    cx < w,
            ;
            assert(cy * scale <= h * scale) by (nonlinear_arith)
                requires
                    cy < h,
            ;
        }
        let input = extract_tile(src, cfg, cx, cy);
        let upscaled = upscale(&input);
        proof {
            lemma_stitch_dims(w as nat, h as nat, *cfg, views(outs), i as nat);
        }
        let ghost prev = outs;
        proof {
            ins = ins.push(input);
            outs = outs.push(upscaled);
            assert forall|j: nat| j <= i implies stitch_upto(w as nat, h as nat, *cfg, views(outs), j)
                == stitch_upto(w as nat, h as nat, *cfg, views(prev), j) by {
                lemma_stitch_prefix(w as nat, h as nat, *cfg, views(outs), views(prev), j);
            }
            assert(views(outs)[i as int] == upscaled@);
        }
        blit_central(&mut out, &upscaled, cfg, cx, cy);
        progress(i + 1, n);
        i = i + 1;
    }
    proof {
        assert(tiles_upscaled(src@, *cfg, upscale, ins, outs));
    }
    out
}

/// The canvas keeps its size, `w * factor` by `h * factor`, as tiles are laid.
pub proof fn lemma_stitch_dims(w: nat, h: nat, cfg: TilingConfig, ups: Seq<RasterView>, i: nat)
    ensures
        stitch_upto(w, h, cfg, ups, i).width == w * cfg.factor(),
        stitch_upto(w, h, cfg, ups, i).height == h * cfg.factor(),
        stitch_upto(w, h, cfg, ups, i).wf(),
    decreases i,
{
    if i > 0 {
        lemma_stitch_dims(w, h, cfg, ups, (i - 1) as nat);
    }
}

/// The canvas after `i` tiles depends only on the first `i` tiles.
proof fn lemma_stitch_prefix(w: nat, h: nat, cfg: TilingConfig, a: Seq<RasterView>, b: Seq<RasterView>, i: nat)
    requires
        i <= a.len(),
        i <= b.len(),
        forall|j: int| 0 <= j < i ==> a[j] == b[j],
    ensures
        stitch_upto(w, h, cfg, a, i) == stitch_upto(w, h, cfg, b, i),
    decreases i,
{
    if i > 0 {
        lemma_stitch_prefix(w, h, cfg, a, b, (i - 1) as nat);
    }
}

/// `v` magnified `s` times by pixel replication (nearest neighbour).
pub open spec fn replicate(v: RasterView, s: nat) -> RasterView {
    raster_from_fn(v.width * s, v.height * s, |x: int, y: int| v.at(x / (s as int), y / (s as int)))
}

/// Whether output pixel `(x, y)` lies in the core of one of the first `i`
/// tiles of a `w` by `h` source.
pub open spec fn covered(w: nat, h: nat, cfg: TilingConfig, i: nat, x: int, y: int) -> bool {
    exists|j: int|
        0 <= j < i && #[trigger] in_core(
            w * cfg.factor(),
            h * cfg.factor(),
            cfg,
            origin_of(w, h, cfg, j).0,
            origin_of(w, h, cfg, j).1,
            x,
            y,
        )
}

/// The replicated source pixel where the first `i` tiles have been laid,
/// black elsewhere.
pub open spec fn covered_value(src: RasterView, cfg: TilingConfig, i: nat, x: int, y: int) -> Rgb {
    if covered(src.width, src.height, cfg, i, x, y) {
        src.at(x / (cfg.factor() as int), y / (cfg.factor() as int))
    } else {
        black()
    }
}

/// `(a * s + b) / s == a + b / s` and `(a * s + b) % s == b % s`.
proof fn lemma_div_shift(a: int, b: int, s: int)
    requires
        a >= 0,
        b >= 0,
        s >= 1,
    ensures
        (a * s + b) / s == a + b / s,
        (a * s + b) % s == b % s,
        b / s >= 0,
{
    lemma_fundamental_div_mod(b, s);
    let q = b / s;
    let r = b % s;
    assert(a * s + b == (a + q) * s + r) by (nonlinear_arith)
        requires
            b == s * q + r,
    ;
    lemma_fundamental_div_mod_converse(a * s + b, s, a + q, r);
    assert(q >= 0) by (nonlinear_arith)
        requires
            b == s * q + r,
            0 <= r < s,
            b >= 0,
    ;
}

/// `b < c * s` implies `b / s < c`.
proof fn lemma_div_below(b: int, c: int, s: int)
    requires
        b >= 0,
        s >= 1,
        b < c * s,
    ensures
        b / s < c,
{
    lemma_fundamental_div_mod(b, s);
    let q = b / s;
    let r = b % s;
    assert(q < c) by (nonlinear_arith)
        requires
            b == s * q + r,
            0 <= r < s,
            b < c * s,
            s >= 1,
    ;
}

/// Inside a tile's core, with the tile upscaled by pixel replication, the
/// pixel laid down is the replicated source pixel.
proof fn lemma_core_pixel_replicated(src: RasterView, cfg: TilingConfig, j: int, x: int, y: int)
    requires
        src.wf(),
        src.width >= 1,
        src.height >= 1,
        0 <= j < tile_count(src.width, src.height, cfg),
        in_core(
            src.width * cfg.factor(),
            src.height * cfg.factor(),
            cfg,
            origin_of(src.width, src.height, cfg, j).0,
            origin_of(src.width, src.height, cfg, j).1,
            x,
            y,
        ),
    ensures
        core_pixel(
            replicate(
                extract_spec(
                    src,
                    cfg,
                    origin_of(src.width, src.height, cfg, j).0,
                    origin_of(src.width, src.height, cfg, j).1,
                ),
                cfg.factor(),
            ),
            cfg,
            origin_of(src.width, src.height, cfg, j).0,
            origin_of(src.width, src.height, cfg, j).1,
            x,
            y,
        ) == src.at(x / (cfg.factor() as int), y / (cfg.factor() as int)),
{
    let w = src.width as int;
    let h = src.height as int;
    let s = cfg.factor() as int;
    let ov = cfg.border() as int;
    let st = cfg.step_spec() as int;
    let t = cfg.side() as int;
    let (cx, cy) = origin_of(src.width, src.height, cfg, j);
    lemma_origin_inside(src.width, src.height, cfg, j);
    lemma_core_fits(cfg);
    let tile = extract_spec(src, cfg, cx, cy);
    let up = replicate(tile, cfg.factor());
    let dxs = x - cx * s;
    let dys = y - cy * s;
    let sx = ov * s + dxs;
    let sy = ov * s + dys;
    assert(cfg.border() * cfg.factor() == ov * s);
    assert(cfg.step_spec() * cfg.factor() == st * s);
    // The source offset stays inside the upscaled tile.
    assert(ov * s + st * s <= t * s) by (nonlinear_arith)
        requires
            ov + st <= t,
            s >= 1,
    ;
    assert(up.width == t * s && up.height == t * s);
    assert(0 <= dxs < st * s && 0 <= dys < st * s);
    assert(ov * s >= 0) by (nonlinear_arith)
        requires
            ov >= 0,
            s >= 1,
    ;
    assert(sx < up.width && sy < up.height);
    lemma_from_fn_at(
        (t * s) as nat,
        (t * s) as nat,
        |x: int, y: int| tile.at(x / s, y / s),
        sx,
        sy,
    );
    // Undo the replication inside the tile.
    lemma_div_shift(ov, dxs, s);
    lemma_div_shift(ov, dys, s);
    lemma_div_below(sx, t, s);
    lemma_div_below(sy, t, s);
    let ax = sx / s;
    let ay = sy / s;
    lemma_from_fn_at(
        cfg.side(),
        cfg.side(),
        |dx: int, dy: int| src.at(reflect_spec(cx - ov + dx, w), reflect_spec(cy - ov + dy, h)),
        ax,
        ay,
    );
    // The sampled pixel is inside the source, so no reflection happens.
    assert(dxs < (w - cx) * s) by (nonlinear_arith)
        requires
            x < w * s,
            dxs == x - cx * s,
    ;
    assert(dys < (h - cy) * s) by (nonlinear_arith)
        requires
            y < h * s,
            dys == y - cy * s,
    ;
    lemma_div_below(dxs, w - cx, s);
    lemma_div_below(dys, h - cy, s);
    lemma_reflect_in_range(cx + dxs / s, w);
    lemma_reflect_in_range(cy + dys / s, h);
    // And it is the replicated source pixel.
    lemma_div_shift(cx, dxs, s);
    lemma_div_shift(cy, dys, s);
    assert(x == cx * s + dxs && y == cy * s + dys);
}

/// Every output pixel lies in the core of some tile.
proof fn lemma_coverage(w: nat, h: nat, cfg: TilingConfig, x: int, y: int)
    requires
        w >= 1,
        h >= 1,
        0 <= x < w * cfg.factor(),
        0 <= y < h * cfg.factor(),
    ensures
        covered(w, h, cfg, tile_count(w, h, cfg), x, y),
{
    let s = cfg.factor() as int;
    let st = cfg.step_spec() as int;
    lemma_core_fits(cfg);
    let nx = tiles_along(w, cfg.step_spec()) as int;
    let ny = tiles_along(h, cfg.step_spec()) as int;
    let (tx, u) = tile_of_coord(w, cfg, x);
    let (ty, v) = tile_of_coord(h, cfg, y);
    let j = ty * nx + tx;
    lemma_index(nx, ny, tx, ty);
    assert(origin_of(w, h, cfg, j).0 == tx * st);
    assert(origin_of(w, h, cfg, j).1 == ty * st);
    assert(in_core(w * cfg.factor(), h * cfg.factor(), cfg, tx * st, ty * st, x, y));
    assert(tile_count(w, h, cfg) == nx * ny);
}

/// The tile column (or row) whose core holds output coordinate `x`, with the
/// facts that place `x` in it.
proof fn tile_of_coord(len: nat, cfg: TilingConfig, x: int) -> (r: (int, int))
    requires
        len >= 1,
        0 <= x < len * cfg.factor(),
    ensures
        0 <= r.0 < tiles_along(len, cfg.step_spec()),
        (r.0 * cfg.step_spec()) * cfg.factor() <= x,
        x < (r.0 * cfg.step_spec()) * cfg.factor() + cfg.step_spec() * cfg.factor(),
{
    let s = cfg.factor() as int;
    let st = cfg.step_spec() as int;
    lemma_core_fits(cfg);
    lemma_fundamental_div_mod(x, s);
    let u = x / s;
    let ru = x % s;
    lemma_div_below(x, len as int, s);
    assert(u >= 0) by (nonlinear_arith)
        requires
            x == s * u + ru,
            0 <= ru < s,
            x >= 0,
    ;
    lemma_fundamental_div_mod(u, st);
    let tx = u / st;
    let rt = u % st;
    assert(tx >= 0) by (nonlinear_arith)
        requires
            u == st * tx + rt,
            0 <= rt < st,
            u >= 0,
    ;
    lemma_fundamental_div_mod((len - 1) as int, st);
    let q = (len - 1) as int / st;
    let rq = (len - 1) as int % st;
    assert(tx <= q) by (nonlinear_arith)
        requires
            u == st * tx + rt,
            0 <= rt < st,
            len - 1 == st * q + rq,
            0 <= rq < st,
            u <= len - 1,
            st >= 1,
    ;
    assert((tx * st) * s <= x) by (nonlinear_arith)
        requires
            u == st * tx + rt,
            0 <= rt,
            x == s * u + ru,
            0 <= ru,
            s >= 1,
    ;
    assert(x < (tx * st) * s + st * s) by (nonlinear_arith)
        requires
            u == st * tx + rt,
            rt < st,
            x == s * u + ru,
            ru < s,
            s >= 1,
    ;
    (tx, u)
}

/// After the first `i` tiles, each replicated by `factor`, the canvas holds
/// the replicated source wherever those tiles' cores reach, and black
/// elsewhere.
proof fn lemma_stitch_partial(src: RasterView, cfg: TilingConfig, ups: Seq<RasterView>, i: nat)
    requires
        src.wf(),
        src.width >= 1,
        src.height >= 1,
        ups.len() == tile_count(src.width, src.height, cfg),
        i <= ups.len(),
        forall|j: int|
            0 <= j < ups.len() ==> #[trigger] ups[j] == replicate(
                extract_spec(
                    src,
                    cfg,
                    origin_of(src.width, src.height, cfg, j).0,
                    origin_of(src.width, src.height, cfg, j).1,
                ),
                cfg.factor(),
            ),
    ensures
        stitch_upto(src.width, src.height, cfg, ups, i) == raster_from_fn(
            src.width * cfg.factor(),
            src.height * cfg.factor(),
            |x: int, y: int| covered_value(src, cfg, i, x, y),
        ),
    decreases i,
{
    let w = src.width;
    let h = src.height;
    let ww = w * cfg.factor();
    let hh = h * cfg.factor();
    if i == 0 {
        lemma_from_fn_ext(ww, hh, |x: int, y: int| black(), |x: int, y: int| covered_value(src, cfg, 0, x, y));
    } else {
        let k = (i - 1) as nat;
        lemma_stitch_partial(src, cfg, ups, k);
        lemma_stitch_dims(w, h, cfg, ups, k);
        let prev = stitch_upto(w, h, cfg, ups, k);
        let (cx, cy) = origin_of(w, h, cfg, k as int);
        let g = |x: int, y: int|
            if in_core(prev.width, prev.height, cfg, cx, cy, x, y) {
                core_pixel(ups[k as int], cfg, cx, cy, x, y)
            } else {
                prev.at(x, y)
            };
        assert(stitch_upto(w, h, cfg, ups, i) == raster_from_fn(ww, hh, g));
        assert forall|x: int, y: int| 0 <= x < ww && 0 <= y < hh implies #[trigger] g(x, y) == covered_value(
            src,
            cfg,
            i,
            x,
            y,
        ) by {
            lemma_from_fn_at(ww, hh, |x: int, y: int| covered_value(src, cfg, k, x, y), x, y);
            if in_core(ww, hh, cfg, cx, cy, x, y) {
                assert(ups[k as int] == replicate(extract_spec(src, cfg, cx, cy), cfg.factor()));
                lemma_core_pixel_replicated(src, cfg, k as int, x, y);
                assert(covered(w, h, cfg, i, x, y));
            } else {
                if covered(w, h, cfg, i, x, y) {
                    let j = choose|j: int|
                        0 <= j < i && #[trigger] in_core(
                            ww,
                            hh,
                            cfg,
                            origin_of(w, h, cfg, j).0,
                            origin_of(w, h, cfg, j).1,
                            x,
                            y,
                        );
                    assert(j != k);
                    assert(covered(w, h, cfg, k, x, y));
                }
                if covered(w, h, cfg, k, x, y) {
                    let j = choose|j: int|
                        0 <= j < k && #[trigger] in_core(
                            ww,
                            hh,
                            cfg,
                            origin_of(w, h, cfg, j).0,
                            origin_of(w, h, cfg, j).1,
                            x,
                            y,
                        );
                    assert(covered(w, h, cfg, i, x, y));
                }
            }
        }
        lemma_from_fn_ext(ww, hh, g, |x: int, y: int| covered_value(src, cfg, i, x, y));
    }
}

/// Tiled upscaling is seamless: when every tile is upscaled by pixel
/// replication by the configured factor, the stitched output is exactly the
/// pixel replication of the whole source. With factor 1 (an identity
/// upscaler) the output is the source itself.
pub proof fn lemma_stitch_replicated(src: RasterView, cfg: TilingConfig, ups: Seq<RasterView>)
    requires
        src.wf(),
        src.width >= 1,
        src.height >= 1,
        ups.len() == tile_count(src.width, src.height, cfg),
        forall|j: int|
            0 <= j < ups.len() ==> #[trigger] ups[j] == replicate(
                extract_spec(
                    src,
                    cfg,
                    origin_of(src.width, src.height, cfg, j).0,
                    origin_of(src.width, src.height, cfg, j).1,
                ),
                cfg.factor(),
            ),
    ensures
        stitch_spec(src.width, src.height, cfg, ups) == replicate(src, cfg.factor()),
{
    let n = tile_count(src.width, src.height, cfg);
    let ww = src.width * cfg.factor();
    let hh = src.height * cfg.factor();
    let s = cfg.factor() as int;
    lemma_stitch_partial(src, cfg, ups, n);
    assert forall|x: int, y: int| 0 <= x < ww && 0 <= y < hh implies #[trigger] covered_value(
        src,
        cfg,
        n,
        x,
        y,
    ) == src.at(x / s, y / s) by {
        lemma_coverage(src.width, src.height, cfg, x, y);
    }
    lemma_from_fn_ext(
        ww,
        hh,
        |x: int, y: int| covered_value(src, cfg, n, x, y),
        |x: int, y: int| src.at(x / s, y / s),
    );
}

/// Tiles may be upscaled in any order, also in parallel: when `upscale` is
/// deterministic (inputs with equal content give outputs with equal
/// content), any two runs over the tiles of `src` — such as the sequential
/// [`upscale_with_tiles`] and a parallel run whose results are laid with
/// [`stitch_tiles`] — stitch to the same output.
pub proof fn lemma_any_order_same_output<F: Fn(&RgbRaster) -> RgbRaster>(
    src: RasterView,
    cfg: TilingConfig,
    upscale: F,
    ins: Seq<RgbRaster>,
    outs: Seq<RgbRaster>,
    other_ins: Seq<RgbRaster>,
    other_outs: Seq<RgbRaster>,
)
    requires
        tiles_upscaled(src, cfg, upscale, ins, outs),
        tiles_upscaled(src, cfg, upscale, other_ins, other_outs),
        deterministic(upscale),
    ensures
        stitch_spec(src.width, src.height, cfg, views(outs)) == stitch_spec(
            src.width,
            src.height,
            cfg,
            views(other_outs),
        ),
{
    assert forall|j: int| 0 <= j < outs.len() implies views(outs)[j] == views(other_outs)[j] by {
        assert(ins[j]@ == other_ins[j]@);
        assert(call_ensures(upscale, (&ins[j],), outs[j]));
        assert(call_ensures(upscale, (&other_ins[j],), other_outs[j]));
    }
    assert(views(outs) =~= views(other_outs));
}

/// Row-major pixels as interleaved `R, G, B` bytes.
pub open spec fn rgb_bytes(pixels: Seq<Rgb>) -> Seq<u8> {
    Seq::new(3 * pixels.len(), |i: int| pixels[i / 3].0[i % 3])
}

/// Interleaved `R, G, B` bytes as pixels.
pub open spec fn pixels_of_bytes(bytes: Seq<u8>) -> Seq<Rgb> {
    Seq::new(bytes.len() / 3, |k: int| Rgb([bytes[3 * k], bytes[3 * k + 1], bytes[3 * k + 2]]))
}

impl RgbRaster {
    /// The pixels as interleaved `R, G, B` bytes, row-major.
    pub fn to_bytes(&self) -> (r: Vec<u8>)
        ensures
            r@ == rgb_bytes(self@.pixels),
    {
        let pixels = self.pixels();
        let n = pixels.len();
        let mut out: Vec<u8> = Vec::new();
        let mut k: usize = 0;
        while k < n
            invariant
                n == pixels@.len(),
                pixels@ == self@.pixels,
                k <= n,
                out@.len() == 3 * k,
                forall|i: int| 0 <= i < out@.len() ==> out@[i] == rgb_bytes(pixels@)[i],
            decreases n - k,
        {
            let p = pixels[k];
            proof {
                lemma_fundamental_div_mod_converse(3 * k, 3, k as int, 0);
                lemma_fundamental_div_mod_converse(3 * k + 1, 3, k as int, 1);
                lemma_fundamental_div_mod_converse(3 * k + 2, 3, k as int, 2);
            }
            out.push(p.0[0]);
            out.push(p.0[1]);
            out.push(p.0[2]);
            k = k + 1;
        }
        proof {
            assert(out@ =~= rgb_bytes(pixels@));
        }
        out
    }

    /// A `width` by `height` raster from interleaved `R, G, B` bytes, or
    /// `None` when there are not exactly `3 * width * height` of them.
    pub fn from_bytes(width: u32, height: u32, bytes: &Vec<u8>) -> (r: Option<RgbRaster>)
        ensures
            match r {
                Some(img) => bytes@.len() == 3 * (width * height) && img@ == (RasterView {
                    width: width as nat,
                    height: height as nat,
                    pixels: pixels_of_bytes(bytes@),
                }),
                None => bytes@.len() != 3 * (width * height),
            },
    {
        proof {
            assert((width as nat) * (height as nat) <= 0xffff_ffff * 0xffff_ffff) by (nonlinear_arith)
                requires
                    width <= 0xffff_ffff,
                    height <= 0xffff_ffff,
            ;
        }
        let n: u128 = (width as u128) * (height as u128);
        let len: usize = bytes.len();
        if (len as u128) != 3 * n {
            proof {
                assert(n == width * height);
                assert(bytes@.len() != 3 * (width * height));
            }
            return None;
        }
        let count: usize = len / 3;
        let mut pixels: Vec<Rgb> = Vec::new();
        let mut k: usize = 0;
        while k < count
            invariant
                count == bytes@.len() / 3,
                bytes@.len() == 3 * count,
                bytes@.len() <= usize::MAX,
                k <= count,
                pixels@.len() == k,
                forall|j: int| 0 <= j < k ==> pixels@[j] == pixels_of_bytes(bytes@)[j],
            decreases count - k,
        {
            let i = 3 * k;
            pixels.push(Rgb([bytes[i], bytes[i + 1], bytes[i + 2]]));
            k = k + 1;
        }
        proof {
            assert(pixels@ =~= pixels_of_bytes(bytes@));
        }
        let r = RgbRaster { width, height, pixels };
        proof {
            assert(r@.pixels =~= pixels_of_bytes(bytes@));
        }
        Some(r)
    }
}

/// Seamlessness for any upscaler that magnifies by pixel replication: when
/// everything `upscale` returns is the replication of its input by the
/// configured factor, the tiles it produced for `src` (as
/// [`upscale_with_tiles`] reports them) stitch to the replication of the whole
/// source — the source itself for an identity upscaler with factor 1.
pub proof fn lemma_replicating_upscaler_is_seamless<F: Fn(&RgbRaster) -> RgbRaster>(
    src: RasterView,
    cfg: TilingConfig,
    upscale: F,
    ins: Seq<RgbRaster>,
    outs: Seq<RgbRaster>,
)
    requires
        src.wf(),
        src.width >= 1,
        src.height >= 1,
        tiles_upscaled(src, cfg, upscale, ins, outs),
        forall|t: &RgbRaster, r: RgbRaster|
            #[trigger] call_ensures(upscale, (t,), r) ==> r@ == replicate(t@, cfg.factor()),
    ensures
        stitch_spec(src.width, src.height, cfg, views(outs)) == replicate(src, cfg.factor()),
{
    let ups = views(outs);
    assert forall|j: int| 0 <= j < ups.len() implies #[trigger] ups[j] == replicate(
        extract_spec(
            src,
            cfg,
            origin_of(src.width, src.height, cfg, j).0,
            origin_of(src.width, src.height, cfg, j).1,
        ),
        cfg.factor(),
    ) by {
        assert(call_ensures(upscale, (&ins[j],), outs[j]));
    }
    lemma_stitch_replicated(src, cfg, ups);
}

/// Reflection mirrors about both edges: coordinates at equal distance on
/// either side of the first pixel, or of the last pixel, land on the same
/// pixel.
pub proof fn lemma_reflect_mirrors(c: int, len: int)
    requires
        len >= 2,
    ensures
        reflect_spec(-c, len) == reflect_spec(c, len),
        reflect_spec(2 * (len - 1) - c, len) == reflect_spec(c, len),
{
    let p = 2 * (len - 1);
    lemma_fundamental_div_mod(c, p);
    let q = c / p;
    let m = c % p;
    // -c = (-q - 1) * p + (p - m), or (-q) * p when m == 0.
    if m == 0 {
        assert(-c == (-q) * p + 0) by (nonlinear_arith)
            requires
                c == p * q + m,
                m == 0,
        ;
        lemma_fundamental_div_mod_converse(-c, p, -q, 0);
        assert(p - c == (1 - q) * p + 0) by (nonlinear_arith)
            requires
                c == p * q + m,
                m == 0,
        ;
        lemma_fundamental_div_mod_converse(p - c, p, 1 - q, 0);
    } else {
        assert(-c == (-q - 1) * p + (p - m)) by (nonlinear_arith)
            requires
                c == p * q + m,
        ;
        lemma_fundamental_div_mod_converse(-c, p, -q - 1, p - m);
        assert(p - c == (-q) * p + (p - m)) by (nonlinear_arith)
            requires
                c == p * q + m,
        ;
        lemma_fundamental_div_mod_converse(p - c, p, -q, p - m);
    }
}

/// `upscale` gives outputs with equal content for inputs with equal content.
pub open spec fn deterministic<F: Fn(&RgbRaster) -> RgbRaster>(upscale: F) -> bool {
    forall|a: &RgbRaster, b: &RgbRaster, ra: RgbRaster, rb: RgbRaster|
        a@ == b@ && #[trigger] call_ensures(upscale, (a,), ra) && #[trigger] call_ensures(upscale, (b,), rb)
            ==> ra@ == rb@
}

/// The input tiles of `src`, in tile order: what [`upscale_with_tiles`] hands
/// its upscaler one by one, here all at once so that they can be upscaled
/// independently (for instance in parallel) and laid with [`stitch_tiles`].
pub fn tile_inputs(src: &RgbRaster, cfg: &TilingConfig) -> (r: Vec<RgbRaster>)
    requires
        src@.width >= 1,
        src@.height >= 1,
        cfg.side() * cfg.side() <= usize::MAX,
    ensures
        r@.len() == tile_count(src@.width, src@.height, *cfg),
        forall|i: int|
            0 <= i < r@.len() ==> (#[trigger] r@[i])@ == extract_spec(
                src@,
                *cfg,
                origin_of(src@.width, src@.height, *cfg, i).0,
                origin_of(src@.width, src@.height, *cfg, i).1,
            ),
{
    let origins = tile_origins(src.width(), src.height(), cfg);
    let n = origins.len();
    let mut tiles: Vec<RgbRaster> = Vec::new();
    let mut i: usize = 0;
    while i < n
        invariant
            src@.width >= 1,
            src@.height >= 1,
            cfg.side() * cfg.side() <= usize::MAX,
            n == origins@.len(),
            n == tile_count(src@.width, src@.height, *cfg),
            forall|j: int|
                0 <= j < n ==> (#[trigger] origins@[j]).0 == origin_of(src@.width, src@.height, *cfg, j).0
                    && origins@[j].1 == origin_of(src@.width, src@.height, *cfg, j).1,
            i <= n,
            tiles@.len() == i,
            forall|j: int|
                0 <= j < i ==> (#[trigger] tiles@[j])@ == extract_spec(
                    src@,
                    *cfg,
                    origin_of(src@.width, src@.height, *cfg, j).0,
                    origin_of(src@.width, src@.height, *cfg, j).1,
                ),
        decreases n - i,
    {
        let (cx, cy) = origins[i];
        let t = extract_tile(src, cfg, cx, cy);
        tiles.push(t);
        i = i + 1;
    }
    tiles
}

/// Parallel tiling gives the sequential result: when each of the tiles
/// [`tile_inputs`] gives for `src` was upscaled (in whatever order) by a
/// deterministic `upscale` into `outs`, the stitched `outs` equal any output
/// that [`upscale_with_tiles`] can give for the same `src`, `cfg` and
/// `upscale`.
pub proof fn lemma_parallel_matches_sequential<F: Fn(&RgbRaster) -> RgbRaster>(
    src: RasterView,
    cfg: TilingConfig,
    upscale: F,
    ins: Seq<RgbRaster>,
    outs: Seq<RgbRaster>,
    sequential: RasterView,
)
    requires
        tiles_upscaled(src, cfg, upscale, ins, outs),
        deterministic(upscale),
        exists|seq_ins: Seq<RgbRaster>, seq_outs: Seq<RgbRaster>|
            #[trigger] tiles_upscaled(src, cfg, upscale, seq_ins, seq_outs) && sequential == stitch_spec(
                src.width,
                src.height,
                cfg,
                views(seq_outs),
            ),
    ensures
        stitch_spec(src.width, src.height, cfg, views(outs)) == sequential,
{
    let (seq_ins, seq_outs) = choose|seq_ins: Seq<RgbRaster>, seq_outs: Seq<RgbRaster>|
        #[trigger] tiles_upscaled(src, cfg, upscale, seq_ins, seq_outs) && sequential == stitch_spec(
            src.width,
            src.height,
            cfg,
            views(seq_outs),
        );
    lemma_any_order_same_output(src, cfg, upscale, ins, outs, seq_ins, seq_outs);
}

/// The view of every raster is well formed.
pub proof fn lemma_view_wf(r: RgbRaster)
    ensures
        r@.wf(),
{
}

/// Magnifying by 1 leaves a well-formed raster as it is.
pub proof fn lemma_replicate_one(v: RasterView)
    requires
        v.wf(),
    ensures
        replicate(v, 1) == v,
{
    assert(v.width * 1 == v.width && v.height * 1 == v.height);
    assert forall|x: int, y: int| 0 <= x < v.width && 0 <= y < v.height implies #[trigger] v.at(x, y)
        == v.at(x / 1, y / 1) by {}
    lemma_eq_from_fn(v, |x: int, y: int| v.at(x / 1, y / 1));
}

/// With an identity upscaler and a factor of 1, tiled upscaling reconstructs
/// the input exactly, whatever the tile size and overlap: the tiles
/// [`upscale_with_tiles`] reports stitch to `src` itself.
pub proof fn lemma_identity_upscaler_reconstructs<F: Fn(&RgbRaster) -> RgbRaster>(
    src: RasterView,
    cfg: TilingConfig,
    upscale: F,
    ins: Seq<RgbRaster>,
    outs: Seq<RgbRaster>,
)
    requires
        src.wf(),
        src.width >= 1,
        src.height >= 1,
        cfg.scale <= 1,
        tiles_upscaled(src, cfg, upscale, ins, outs),
        forall|t: &RgbRaster, r: RgbRaster| #[trigger] call_ensures(upscale, (t,), r) ==> r@ == t@,
    ensures
        stitch_spec(src.width, src.height, cfg, views(outs)) == src,
{
    assert forall|t: &RgbRaster, r: RgbRaster| #[trigger] call_ensures(upscale, (t,), r) implies r@
        == replicate(t@, cfg.factor()) by {
        lemma_view_wf(*t);
        lemma_replicate_one(t@);
    }
    lemma_replicating_upscaler_is_seamless(src, cfg, upscale, ins, outs);
    lemma_replicate_one(src);
}

/// The source coordinate that a tile samples for the unclamped coordinate
/// `c` along an axis of `len` pixels, when `c` lies less than one image
/// length outside: `c` itself inside the image, else `c` mirrored about the
/// nearer edge pixel without repeating it (`-1` reads `1`, `len` reads
/// `len - 2`); every coordinate reads `0` when `len` is 1.
proof fn lemma_reflect_once(c: int, len: int)
    requires
        len >= 1,
        len == 1 || (-len < c && c < 2 * len - 1),
    ensures
        reflect_spec(c, len) == (if len == 1 {
            0
        } else if c < 0 {
            -c
        } else if c >= len {
            2 * (len - 1) - c
        } else {
            c
        }),
{
    if len >= 2 {
        if c < 0 {
            lemma_reflect_mirrors(-c, len);
            lemma_reflect_in_range(-c, len);
        } else if c >= len {
            lemma_reflect_mirrors(2 * (len - 1) - c, len);
            lemma_reflect_in_range(2 * (len - 1) - c, len);
        } else {
            lemma_reflect_in_range(c, len);
        }
    }
}

/// Tiles carry real context. The tile whose core starts at source `(cx, cy)`
/// is `t` by `t` pixels (`t` the tile size, at least 1), and its pixel
/// `(dx, dy)` is the source pixel at `(cx - b + dx, cy - b + dy)`, `b` being
/// the overlap (at most half the tile): taken as is wherever that lies inside
/// the image, so a tile inside the image is exactly the source window starting
/// `b` pixels before its core, and mirrored about the nearer edge pixel
/// (without repeating it) where it lies less than one image side outside.
pub proof fn lemma_tile_is_source_window(src: RasterView, cfg: TilingConfig, cx: int, cy: int, dx: int, dy: int)
    requires
        src.wf(),
        src.width >= 1,
        src.height >= 1,
        0 <= dx < (if cfg.tile_size == 0 { 1 } else { cfg.tile_size as int }),
        0 <= dy < (if cfg.tile_size == 0 { 1 } else { cfg.tile_size as int }),
    ensures
        ({
            let t: int = if cfg.tile_size == 0 { 1 } else { cfg.tile_size as int };
            let tile = extract_spec(src, cfg, cx, cy);
            &&& tile.width == t
            &&& tile.height == t
            &&& tile.wf()
        }),
        ({
            let t: int = if cfg.tile_size == 0 { 1 } else { cfg.tile_size as int };
            let b: int = if 2 * cfg.overlap <= t { cfg.overlap as int } else { t / 2 };
            let w = src.width as int;
            let h = src.height as int;
            let x = cx - b + dx;
            let y = cy - b + dy;
            let mx = if w == 1 { 0 } else if x < 0 { -x } else if x >= w { 2 * (w - 1) - x } else { x };
            let my = if h == 1 { 0 } else if y < 0 { -y } else if y >= h { 2 * (h - 1) - y } else { y };
            (w == 1 || (-w < x && x < 2 * w - 1)) && (h == 1 || (-h < y && y < 2 * h - 1))
                ==> extract_spec(src, cfg, cx, cy).at(dx, dy) == src.at(mx, my)
        }),
{
    let t: int = if cfg.tile_size == 0 { 1 } else { cfg.tile_size as int };
    let b: int = if 2 * cfg.overlap <= t { cfg.overlap as int } else { t / 2 };
    assert(cfg.side() == t);
    assert(cfg.border() == b);
    let w = src.width as int;
    let h = src.height as int;
    let x = cx - b + dx;
    let y = cy - b + dy;
    lemma_from_fn_at(
        cfg.side(),
        cfg.side(),
        |ddx: int, ddy: int| src.at(reflect_spec(cx - b + ddx, w), reflect_spec(cy - b + ddy, h)),
        dx,
        dy,
    );
    if (w == 1 || (-w < x && x < 2 * w - 1)) && (h == 1 || (-h < y && y < 2 * h - 1)) {
        lemma_reflect_once(x, w);
        lemma_reflect_once(y, h);
    }
}

} // verus!
