//! RGBA8 pixel grids: tiles and frames, and the operations that build them.
use vstd::prelude::*;

verus! {

/// One RGBA8 pixel.
#[derive(Clone, Copy, Debug, PartialEq, Eq, Structural)]
pub struct Rgba {
    pub r: u8,
    pub g: u8,
    pub b: u8,
    pub a: u8,
}

pub open spec fn clear() -> Rgba {
    Rgba { r: 0, g: 0, b: 0, a: 0 }
}

/// A grid of `width` x `height` pixels, row by row from the top left.
#[derive(Clone, Debug)]
pub struct Raster {
    pub width: u32,
    pub height: u32,
    pub pixels: Vec<Rgba>,
}

/// Source-over blending of a partly transparent pixel onto another: the
/// result of `image`'s `Rgba::blend` when the top alpha is neither 0 nor 255.
pub uninterp spec fn blended(bottom: Rgba, top: Rgba) -> Rgba;

/// `top` blended over `bottom`: a transparent top keeps the bottom, an opaque
/// top replaces it.
pub open spec fn blend_spec(bottom: Rgba, top: Rgba) -> Rgba {
    if top.a == 0 {
        bottom
    } else if top.a == 255 {
        top
    } else {
        blended(bottom, top)
    }
}

impl Raster {
    pub open spec fn wf(&self) -> bool {
        self.pixels.len() == self.width * self.height
    }

    pub open spec fn at(&self, x: int, y: int) -> Rgba {
        self.pixels@[y * self.width + x]
    }

    /// A raster of the given size with every pixel `color`.
    pub fn filled(width: u32, height: u32, color: Rgba) -> (r: Raster)
        requires
            width * height <= usize::MAX,
        ensures
            r.wf(),
            r.width == width,
            r.height == height,
            forall|i: int| 0 <= i < r.pixels.len() ==> r.pixels@[i] == color,
    {
        let n = width as usize * height as usize;
        let mut pixels: Vec<Rgba> = Vec::new();
        let mut i: usize = 0;
        while i < n
            invariant
                i <= n,
                pixels.len() == i,
                forall|k: int| 0 <= k < i ==> pixels@[k] == color,
            decreases n - i,
        {
            pixels.push(color);
            i = i + 1;
        }
        Raster { width, height, pixels }
    }

    /// A fully transparent raster of the given size.
    pub fn new(width: u32, height: u32) -> (r: Raster)
        requires
            width * height <= usize::MAX,
        ensures
            r.wf(),
            r.width == width,
            r.height == height,
            forall|i: int| 0 <= i < r.pixels.len() ==> r.pixels@[i] == clear(),
    {
        Raster::filled(width, height, Rgba { r: 0, g: 0, b: 0, a: 0 })
    }

    pub fn get_pixel(&self, x: u32, y: u32) -> (p: Rgba)
        requires
            self.wf(),
            x < self.width,
            y < self.height,
        ensures
            p == self.at(x as int, y as int),
    {
        proof {
            lemma_index_in_bounds(x as int, y as int, self.width as int, self.height as int);
        }
        self.pixels[y as usize * self.width as usize + x as usize]
    }

    pub fn put_pixel(&mut self, x: u32, y: u32, p: Rgba)
        requires
            old(self).wf(),
            x < old(self).width,
            y < old(self).height,
        ensures
            final(self).wf(),
            final(self).width == old(self).width,
            final(self).height == old(self).height,
            final(self).pixels@ == old(self).pixels@.update(y * old(self).width + x, p),
    {
        proof {
            lemma_index_in_bounds(x as int, y as int, self.width as int, self.height as int);
        }
        let i = y as usize * self.width as usize + x as usize;
        self.pixels.set(i, p);
    }
}

pub proof fn lemma_index_in_bounds(x: int, y: int, w: int, h: int)
    requires
        0 <= x < w,
        0 <= y < h,
    ensures
        0 <= y * w + x < w * h,
{
    assert(y * w + x < w * h) by (nonlinear_arith)
        requires
            0 <= x < w,
            0 <= y < h,
    ;
    assert(0 <= y * w) by (nonlinear_arith)
        requires
            0 <= y,
            0 <= w,
    ;
}

/// The pixel at `(x, y)` of a grid `w` pixels wide.
pub open spec fn grid_at(pixels: Seq<Rgba>, w: int, x: int, y: int) -> Rgba {
    pixels[y * w + x]
}

/// The pixels of a grid `bw` wide after a `tw` x `th` grid `top` is blended
/// over it with its top left corner at `(x, y)`; what falls outside is dropped.
pub open spec fn overlay_spec(
    bw: int,
    bottom: Seq<Rgba>,
    tw: int,
    th: int,
    top: Seq<Rgba>,
    x: int,
    y: int,
) -> Seq<Rgba> {
    Seq::new(
        bottom.len(),
        |i: int|
            {
                let tx = i % bw - x;
                let ty = i / bw - y;
                if 0 <= tx < tw && 0 <= ty < th {
                    blend_spec(bottom[i], grid_at(top, tw, tx, ty))
                } else {
                    bottom[i]
                }
            },
    )
}

/// The `w` x `h` block of a grid `sw` wide whose top left corner is `(x, y)`.
pub open spec fn crop_spec(sw: int, src: Seq<Rgba>, x: int, y: int, w: int, h: int) -> Seq<Rgba> {
    Seq::new((w * h) as nat, |i: int| grid_at(src, sw, x + i % w, y + i / w))
}

pub proof fn lemma_grid_pos(i: int, w: int, x: int, y: int)
    requires
        0 <= x < w,
        i == y * w + x,
    ensures
        i % w == x,
        i / w == y,
{
    vstd::arithmetic::div_mod::lemma_fundamental_div_mod_converse_mod(i, w, y, x);
    vstd::arithmetic::div_mod::lemma_fundamental_div_mod_converse_div(i, w, y, x);
}

/// Copies the `w` x `h` block of `src` whose top left corner is `(x, y)`.
pub fn crop(src: &Raster, x: u32, y: u32, w: u32, h: u32) -> (r: Raster)
    requires
        src.wf(),
        x + w <= src.width,
        y + h <= src.height,
    ensures
        r.wf(),
        r.width == w,
        r.height == h,
        r.pixels@ == crop_spec(src.width as int, src.pixels@, x as int, y as int, w as int, h as int),
{
    let mut pixels: Vec<Rgba> = Vec::new();
    let mut j: u32 = 0;
    proof {
        assert(w * h <= src.width * src.height) by (nonlinear_arith)
            requires
                w <= src.width,
                h <= src.height,
        ;
    }
    while j < h
        invariant
            src.wf(),
            x + w <= src.width,
            y + h <= src.height,
            j <= h,
            pixels.len() == j * w,
            forall|k: int|
                0 <= k < pixels.len() ==> #[trigger] pixels@[k] == grid_at(
                    src.pixels@,
                    src.width as int,
                    x + k % (w as int),
                    y + k / (w as int),
                ),
        decreases h - j,
    {
        let mut i: u32 = 0;
        while i < w
            invariant
                src.wf(),
                x + w <= src.width,
                y + h <= src.height,
                j < h,
                i <= w,
                pixels.len() == j * w + i,
                forall|k: int|
                    0 <= k < pixels.len() ==> #[trigger] pixels@[k] == grid_at(
                        src.pixels@,
                        src.width as int,
                        x + k % (w as int),
                        y + k / (w as int),
                    ),
            decreases w - i,
        {
            proof {
                lemma_grid_pos(j * w + i, w as int, i as int, j as int);
            }
            let p = src.get_pixel(x + i, y + j);
            pixels.push(p);
            i = i + 1;
        }
        proof {
            assert((j + 1) * w == j * w + w) by (nonlinear_arith);
        }
        j = j + 1;
    }
    let r = Raster { width: w, height: h, pixels };
    assert(h * w == w * h) by (nonlinear_arith);
    assert(r.pixels@ =~= crop_spec(src.width as int, src.pixels@, x as int, y as int, w as int, h as int));
    r
}

/// Relies on `image::imageops::overlay` on two `RgbaImage`s: each pixel of
/// `bottom` under the placed `top` becomes `Rgba::blend` of the two, which
/// keeps the bottom pixel for a top alpha of 0 and takes the top pixel for an
/// alpha of 255; every other pixel stays.
#[verifier::external_body]
pub(crate) fn overlay(bottom: &mut Raster, top: &Raster, x: i64, y: i64)
    requires
        old(bottom).wf(),
        top.wf(),
    ensures
        final(bottom).width == old(bottom).width,
        final(bottom).height == old(bottom).height,
        final(bottom).pixels@ == overlay_spec(
            old(bottom).width as int,
            old(bottom).pixels@,
            top.width as int,
            top.height as int,
            top.pixels@,
            x as int,
            y as int,
        ),
        forall|i: int|
            0 <= i < old(bottom).pixels.len() && 0 <= i % (old(bottom).width as int) - x
                < top.width && 0 <= i / (old(bottom).width as int) - y < top.height && 0 < top.at(
                i % (old(bottom).width as int) - x,
                i / (old(bottom).width as int) - y,
            ).a < 255 ==> #[trigger] final(bottom).pixels@[i] == blended(
                old(bottom).pixels@[i],
                top.at(i % (old(bottom).width as int) - x, i / (old(bottom).width as int) - y),
            ),
{
    let raw = |r: &Raster| r.pixels.iter().flat_map(|p| [p.r, p.g, p.b, p.a]).collect();
    let mut b = image::RgbaImage::from_raw(bottom.width, bottom.height, raw(bottom)).unwrap();
    let t = image::RgbaImage::from_raw(top.width, top.height, raw(top)).unwrap();
    image::imageops::overlay(&mut b, &t, x, y);
    bottom.pixels = b.pixels().map(|p| Rgba { r: p[0], g: p[1], b: p[2], a: p[3] }).collect();
}

} // verus!
