//! The pixel canvas: an owned width-by-height buffer of premultiplied
//! ARGB words, with fill and clipped rectangle copy. The composite renderer
//! paints covers onto it.

use vstd::prelude::*;

verus! {

/// Opaque black in ARGB word form: the cover background.
pub const BLACK: u32 = 0xFF00_0000;

/// An owned pixel buffer in row-major order: the word for `(x, y)` sits at
/// index `y * width + x`.
pub struct PixelCanvas {
    width: u32,
    height: u32,
    data: Vec<u32>,
}

impl PixelCanvas {
    /// The buffer holds exactly one word per pixel.
    pub closed spec fn wf(&self) -> bool {
        self.data@.len() == self.width as int * self.height as int
    }

    pub closed spec fn spec_width(&self) -> u32 {
        self.width
    }

    pub closed spec fn spec_height(&self) -> u32 {
        self.height
    }

    pub closed spec fn pixels(&self) -> Seq<u32> {
        self.data@
    }

    /// The word of the pixel at `(x, y)`.
    pub open spec fn pixel_at(&self, x: int, y: int) -> u32 {
        self.pixels()[y * self.spec_width() + x]
    }

    pub fn width(&self) -> (r: u32)
        ensures
            r == self.spec_width(),
    {
        self.width
    }

    pub fn height(&self) -> (r: u32)
        ensures
            r == self.spec_height(),
    {
        self.height
    }

    /// A canvas of `width` by `height` pixels, every pixel `color`.
    pub fn new(width: u32, height: u32, color: u32) -> (r: PixelCanvas)
        requires
            width as int * height as int <= usize::MAX,
        ensures
            r.wf(),
            r.spec_width() == width,
            r.spec_height() == height,
            forall|x: int, y: int|
                0 <= x < width && 0 <= y < height ==> r.pixel_at(x, y) == color,
    {
        proof {
            assert(width as int * height as int >= 0) by (nonlinear_arith);
        }
        let len: usize = (width as usize) * (height as usize);
        let data: Vec<u32> = vec![color; len];
        let r = PixelCanvas { width, height, data };
        proof {
            assert forall|x: int, y: int|
                0 <= x < width && 0 <= y < height implies r.pixel_at(x, y) == color by {
                assert(0 <= y * width as int + x < len) by (nonlinear_arith)
                    requires
                        0 <= x < width,
                        0 <= y < height,
                        len == width as int * height as int,
                ;
            }
        }
        r
    }

    /// Reads the pixel at `(x, y)`.
    pub fn pixel(&self, x: u32, y: u32) -> (r: u32)
        requires
            self.wf(),
            x < self.spec_width(),
            y < self.spec_height(),
        ensures
            r == self.pixel_at(x as int, y as int),
    {
        let l = self.data.len();
        proof {
            assert(0 <= (y as int) * (self.spec_width() as int) + (x as int) < l as int)
                by (nonlinear_arith)
                requires
                    x < self.spec_width(),
                    y < self.spec_height(),
                    l == self.spec_width() as int * self.spec_height() as int,
            ;
        }
        let idx: usize = (y as usize) * (self.width as usize) + (x as usize);
        self.data[idx]
    }

    /// A well-formed canvas holds one word per pixel.
    pub proof fn lemma_area(&self)
        requires
            self.wf(),
        ensures
            self.pixels().len() == self.spec_width() as int * self.spec_height() as int,
    {
    }

    /// The buffer in row-major order.
    pub fn words(&self) -> (r: &Vec<u32>)
        ensures
            r@ == self.pixels(),
    {
        &self.data
    }
}

/// Row-major indices are unique per coordinate pair.
proof fn lemma_index_injective(w: int, x1: int, y1: int, x2: int, y2: int)
    requires
        0 <= x1 < w,
        0 <= x2 < w,
        y1 >= 0,
        y2 >= 0,
        y1 * w + x1 == y2 * w + x2,
    ensures
        x1 == x2 && y1 == y2,
{
    assert(x1 == x2 && y1 == y2) by (nonlinear_arith)
        requires
            0 <= x1 < w,
            0 <= x2 < w,
            y1 >= 0,
            y2 >= 0,
            y1 * w + x1 == y2 * w + x2,
    ;
}

impl PixelCanvas {
    /// Copies `src` onto this canvas with its top-left corner at
    /// `(dst_x, dst_y)`, clipped to this canvas's bounds; every other pixel
    /// keeps its word.
    pub fn blit(&mut self, src: &PixelCanvas, dst_x: u32, dst_y: u32)
        requires
            old(self).wf(),
            src.wf(),
        ensures
            final(self).wf(),
            final(self).spec_width() == old(self).spec_width(),
            final(self).spec_height() == old(self).spec_height(),
            forall|px: int, py: int|
                0 <= px < old(self).spec_width() && 0 <= py < old(self).spec_height()
                    ==> final(self).pixel_at(px, py) == (if dst_x <= px < dst_x + src.spec_width()
                    && dst_y <= py < dst_y + src.spec_height() {
                    src.pixel_at(px - dst_x, py - dst_y)
                } else {
                    old(self).pixel_at(px, py)
                }),
    {
        let w = self.width;
        let h = self.height;
        let ghost pre = *self;
        let mut sy: u32 = 0;
        while sy < src.height && (dst_y as u64) + (sy as u64) < h as u64
            invariant
                self.wf(),
                src.wf(),
                self.width == w,
                self.height == h,
                pre.spec_width() == w,
                pre.spec_height() == h,
                sy <= src.spec_height(),
                forall|px: int, py: int|
                    0 <= px < w && 0 <= py < h ==> self.pixel_at(px, py) == (if dst_x <= px < dst_x
                        + src.spec_width() && dst_y <= py < dst_y + sy {
                        src.pixel_at(px - dst_x, py - dst_y)
                    } else {
                        pre.pixel_at(px, py)
                    }),
            decreases src.spec_height() - sy,
        {
            let mut sx: u32 = 0;
            while sx < src.width && (dst_x as u64) + (sx as u64) < w as u64
                invariant
                    self.wf(),
                    src.wf(),
                    self.width == w,
                    self.height == h,
                    pre.spec_width() == w,
                    pre.spec_height() == h,
                    sy < src.spec_height(),
                    (dst_y as int) + (sy as int) < h,
                    sx <= src.spec_width(),
                    forall|px: int, py: int|
                        0 <= px < w && 0 <= py < h ==> self.pixel_at(px, py) == (if (dst_x <= px
                            < dst_x + src.spec_width() && dst_y <= py < dst_y + sy) || (py == dst_y
                            + sy && dst_x <= px < dst_x + sx) {
                            src.pixel_at(px - dst_x, py - dst_y)
                        } else {
                            pre.pixel_at(px, py)
                        }),
                decreases src.spec_width() - sx,
            {
                let v = src.pixel(sx, sy);
                let px0: u32 = dst_x + sx;
                let py0: u32 = dst_y + sy;
                let l = self.data.len();
                proof {
                    assert(0 <= (py0 as int) * (w as int) + (px0 as int) < l as int)
                        by (nonlinear_arith)
                        requires
                            px0 < w,
                            py0 < h,
                            l == w as int * h as int,
                    ;
                }
                let idx: usize = (py0 as usize) * (w as usize) + (px0 as usize);
                let ghost before = *self;
                self.data.set(idx, v);
                proof {
                    assert forall|px: int, py: int|
                        0 <= px < w && 0 <= py < h implies self.pixel_at(px, py) == (if (dst_x <= px
                        < dst_x + src.spec_width() && dst_y <= py < dst_y + sy) || (py == dst_y + sy
                        && dst_x <= px < dst_x + sx + 1) {
                        src.pixel_at(px - dst_x, py - dst_y)
                    } else {
                        pre.pixel_at(px, py)
                    }) by {
                        if px == px0 as int && py == py0 as int {
                            assert(self.pixel_at(px, py) == v);
                        } else {
                            if py * (w as int) + px == (py0 as int) * (w as int) + (px0 as int) {
                                lemma_index_injective(w as int, px, py, px0 as int, py0 as int);
                            }
                            assert(0 <= py * (w as int) + px < (w as int) * (h as int))
                                by (nonlinear_arith)
                                requires
                                    0 <= px < w,
                                    0 <= py < h,
                            ;
                            assert(self.pixel_at(px, py) == before.pixel_at(px, py));
                        }
                    }
                }
                sx += 1;
            }
            proof {
                assert forall|px: int, py: int|
                    0 <= px < w && 0 <= py < h implies self.pixel_at(px, py) == (if dst_x <= px
                    < dst_x + src.spec_width() && dst_y <= py < dst_y + sy + 1 {
                    src.pixel_at(px - dst_x, py - dst_y)
                } else {
                    pre.pixel_at(px, py)
                }) by {}
            }
            sy += 1;
        }
        proof {
            assert forall|px: int, py: int|
                0 <= px < w && 0 <= py < h implies self.pixel_at(px, py) == (if dst_x <= px < dst_x
                + src.spec_width() && dst_y <= py < dst_y + src.spec_height() {
                src.pixel_at(px - dst_x, py - dst_y)
            } else {
                pre.pixel_at(px, py)
            }) by {}
        }
    }

    /// The buffer as RGBA bytes, four per pixel: red, green, blue, alpha
    /// extracted from each ARGB word.
    pub fn to_rgba_bytes(&self) -> (r: Vec<u8>)
        ensures
            r@.len() == 4 * self.pixels().len(),
            forall|i: int|
                0 <= i < self.pixels().len() ==> {
                    let word = #[trigger] self.pixels()[i];
                    &&& r@[4 * i] == ((word >> 16) & 0xFF) as u8
                    &&& r@[4 * i + 1] == ((word >> 8) & 0xFF) as u8
                    &&& r@[4 * i + 2] == (word & 0xFF) as u8
                    &&& r@[4 * i + 3] == ((word >> 24) & 0xFF) as u8
                },
    {
        let mut out: Vec<u8> = Vec::new();
        let mut i: usize = 0;
        while i < self.data.len()
            invariant
                i <= self.data@.len(),
                out@.len() == 4 * i,
                forall|k: int|
                    0 <= k < i ==> {
                        let word = #[trigger] self.data@[k];
                        &&& out@[4 * k] == ((word >> 16) & 0xFF) as u8
                        &&& out@[4 * k + 1] == ((word >> 8) & 0xFF) as u8
                        &&& out@[4 * k + 2] == (word & 0xFF) as u8
                        &&& out@[4 * k + 3] == ((word >> 24) & 0xFF) as u8
                    },
            decreases self.data@.len() - i,
        {
            let word = self.data[i];
            out.push(((word >> 16) & 0xFF) as u8);
            out.push(((word >> 8) & 0xFF) as u8);
            out.push((word & 0xFF) as u8);
            out.push(((word >> 24) & 0xFF) as u8);
            i += 1;
        }
        out
    }

    /// Packs RGBA bytes, four per pixel, into ARGB words: the inverse of
    /// `to_rgba_bytes`, for pixel data that arrives as bytes.
    pub fn argb_words_of_rgba(rgba: &Vec<u8>) -> (r: Vec<u32>)
        ensures
            r@.len() == rgba@.len() / 4,
            forall|i: int|
                0 <= i < r@.len() ==> #[trigger] r@[i] == (((rgba@[4 * i + 3] as u32) << 24) | (
                (rgba@[4 * i] as u32) << 16) | ((rgba@[4 * i + 1] as u32) << 8) | (rgba@[4 * i
                    + 2] as u32)),
    {
        let len = rgba.len();
        let n = len / 4;
        proof {
            vstd::arithmetic::div_mod::lemma_fundamental_div_mod(len as int, 4);
        }
        let mut out: Vec<u32> = Vec::new();
        let mut k: usize = 0;
        while k < n
            invariant
                k <= n,
                len == rgba@.len(),
                n == len / 4,
                4 * n <= len,
                out@.len() == k,
                forall|i: int|
                    0 <= i < k ==> #[trigger] out@[i] == (((rgba@[4 * i + 3] as u32) << 24) | ((
                    rgba@[4 * i] as u32) << 16) | ((rgba@[4 * i + 1] as u32) << 8) | (rgba@[4 * i
                        + 2] as u32)),
            decreases n - k,
        {
            let base = 4 * k;
            let word = ((rgba[base + 3] as u32) << 24) | ((rgba[base] as u32) << 16) | ((rgba[base
                + 1] as u32) << 8) | (rgba[base + 2] as u32);
            out.push(word);
            k += 1;
        }
        out
    }

    /// The canvas described by raw words, if their count matches the
    /// dimensions: the single entry point for pixel buffers that a plugin
    /// delivered.
    pub fn from_words(width: u32, height: u32, words: Vec<u32>) -> (r: Option<PixelCanvas>)
        ensures
            match r {
                Some(c) => words@.len() == width as int * height as int && c.wf() && c.spec_width()
                    == width && c.spec_height() == height && c.pixels() == words@,
                None => words@.len() != width as int * height as int,
            },
    {
        proof {
            assert(width as int * height as int <= u64::MAX) by (nonlinear_arith)
                requires
                    width <= u32::MAX,
                    height <= u32::MAX,
            ;
        }
        if (words.len() as u64) == (width as u64) * (height as u64) {
            Some(PixelCanvas { width, height, data: words })
        } else {
            None
        }
    }
}

} // verus!
