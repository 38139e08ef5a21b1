//! The decoded sheet: RGBA pixels and their luma.
//!
//! Luma uses the Rec. 601 weights and is kept exact, in thousandths of a grey
//! level.
use vstd::prelude::*;
use image::ImageEncoder;
use crate::counting;
use crate::geometry::Bbox;
use crate::mask;

verus! {

/// Where channel `c` of pixel `(x, y)` stands in a `w` wide RGBA buffer.
pub open spec fn channel_at(w: int, x: int, y: int, c: int) -> int {
    (y * w + x) * 4 + c
}

/// A channel of a pixel of a `w` by `h` image lies in its buffer.
pub proof fn lemma_channel_in(w: int, h: int, x: int, y: int, c: int)
    requires
        0 <= x < w,
        0 <= y < h,
        0 <= c < 4,
    ensures
        0 <= y * w + x < w * h,
        0 <= channel_at(w, x, y, c) < 4 * (w * h),
{
    mask::lemma_pixel_in(w, h, x, y);
}

/// Luma of a colour, in thousandths.
pub open spec fn luma_of(r: u8, g: u8, b: u8) -> u32 {
    (299 * r + 587 * g + 114 * b) as u32
}

/// RGBA sheet and its luma plane.
#[derive(Clone, Debug, PartialEq, Eq)]
pub struct SheetRaster {
    /// Width in pixels.
    pub width: u32,
    /// Height in pixels.
    pub height: u32,
    /// RGBA bytes, row by row.
    pub rgba: Vec<u8>,
    /// Luma in thousandths, row by row.
    pub luma: Vec<u32>,
}

impl SheetRaster {
    /// The buffers have the size of the sheet, and the luma is that of the pixels.
    pub open spec fn wf(&self) -> bool {
        &&& self.width * self.height <= mask::MAX_PIXELS
        &&& self.rgba@.len() == 4 * (self.width * self.height)
        &&& self.luma@.len() == self.width * self.height
        &&& forall|i: int|
            0 <= i < self.luma@.len() ==> #[trigger] self.luma@[i] == luma_of(
                self.rgba@[4 * i],
                self.rgba@[4 * i + 1],
                self.rgba@[4 * i + 2],
            )
    }

    /// Channel `c` of pixel `(x, y)`.
    pub open spec fn channel(&self, x: int, y: int, c: int) -> u8 {
        self.rgba@[channel_at(self.width as int, x, y, c)]
    }

    /// Pixel `(x, y)` lies on the sheet.
    pub open spec fn inside(&self, x: int, y: int) -> bool {
        0 <= x < self.width && 0 <= y < self.height
    }

    /// A sheet from raw RGBA bytes.
    pub fn from_rgba(width: u32, height: u32, rgba: Vec<u8>) -> (r: SheetRaster)
        requires
            width * height <= mask::MAX_PIXELS,
            rgba@.len() == 4 * (width * height),
        ensures
            r.wf(),
            r.width == width,
            r.height == height,
            r.rgba@ == rgba@,
    {
        let total: usize = rgba.len();
        let n: usize = total / 4;
        let mut luma: Vec<u32> = Vec::new();
        let mut i: usize = 0;
        while i < n
            invariant
                i <= n,
                4 * n == rgba@.len(),
                total == rgba@.len(),
                luma@.len() == i,
                forall|k: int|
                    0 <= k < i ==> #[trigger] luma@[k] == luma_of(
                        rgba@[4 * k],
                        rgba@[4 * k + 1],
                        rgba@[4 * k + 2],
                    ),
            decreases n - i,
        {
            let r: u32 = rgba[4 * i] as u32;
            let g: u32 = rgba[4 * i + 1] as u32;
            let b: u32 = rgba[4 * i + 2] as u32;
            luma.push(299 * r + 587 * g + 114 * b);
            i = i + 1;
        }
        SheetRaster { width, height, rgba, luma }
    }

    /// Width in pixels.
    pub fn width(&self) -> (r: u32)
        ensures
            r == self.width,
    {
        self.width
    }

    /// Height in pixels.
    pub fn height(&self) -> (r: u32)
        ensures
            r == self.height,
    {
        self.height
    }

    /// RGBA bytes.
    pub fn rgba(&self) -> (r: &Vec<u8>)
        ensures
            r@ == self.rgba@,
    {
        &self.rgba
    }

    /// Luma plane, in thousandths.
    pub fn luma(&self) -> (r: &Vec<u32>)
        ensures
            r@ == self.luma@,
    {
        &self.luma
    }

    /// One row of the luma plane.
    pub fn luma_row(&self, y: u32) -> (r: Vec<u32>)
        requires
            self.wf(),
            y < self.height,
        ensures
            r@.len() == self.width,
            forall|x: int|
                0 <= x < self.width ==> #[trigger] r@[x] == self.luma@[y * self.width + x],
    {
        let mut out: Vec<u32> = Vec::new();
        let w: usize = self.width as usize;
        let mut x: usize = 0;
        while x < w
            invariant
                x <= w,
                w == self.width,
                self.wf(),
                y < self.height,
                out@.len() == x,
                forall|k: int| 0 <= k < x ==> #[trigger] out@[k] == self.luma@[y * self.width + k],
            decreases w - x,
        {
            proof {
                mask::lemma_pixel_in(w as int, self.height as int, x as int, y as int);
                mask::lemma_row(w as int, self.height as int, y as int);
            }
            out.push(self.luma[y as usize * w + x]);
            x = x + 1;
        }
        out
    }

    /// The pixel at `(x, y)`.
    pub fn pixel(&self, x: u32, y: u32) -> (r: [u8; 4])
        requires
            self.wf(),
            self.inside(x as int, y as int),
        ensures
            r@[0] == self.channel(x as int, y as int, 0),
            r@[1] == self.channel(x as int, y as int, 1),
            r@[2] == self.channel(x as int, y as int, 2),
            r@[3] == self.channel(x as int, y as int, 3),
    {
        let len: usize = self.rgba.len();
        proof {
            lemma_channel_in(self.width as int, self.height as int, x as int, y as int, 0);
            lemma_channel_in(self.width as int, self.height as int, x as int, y as int, 3);
            mask::lemma_row(self.width as int, self.height as int, y as int);
        }
        let i: usize = (y as usize * self.width as usize + x as usize) * 4;
        [self.rgba[i], self.rgba[i + 1], self.rgba[i + 2], self.rgba[i + 3]]
    }

    /// `out` holds the pixels of box `b`.
    pub open spec fn is_crop(&self, b: Bbox, out: Seq<u8>) -> bool {
        &&& out.len() == 4 * (b.w * b.h)
        &&& forall|i: int, j: int, c: int|
            0 <= i < b.w && 0 <= j < b.h && 0 <= c < 4 ==> out[#[trigger] channel_at(
                b.w as int,
                i,
                j,
                c,
            )] == self.channel(b.x + i, b.y + j, c)
    }

    /// The pixels of a box, row by row.
    pub fn crop_rgba(&self, bbox: Bbox) -> (r: Vec<u8>)
        requires
            self.wf(),
            bbox.right() <= self.width,
            bbox.bottom() <= self.height,
        ensures
            self.is_crop(bbox, r@),
    {
        let mut out: Vec<u8> = Vec::new();
        let w: usize = bbox.w as usize;
        let h: usize = bbox.h as usize;
        let mut j: usize = 0;
        while j < h
            invariant
                j <= h,
                w == bbox.w,
                h == bbox.h,
                self.wf(),
                bbox.right() <= self.width,
                bbox.bottom() <= self.height,
                out@.len() == 4 * (w * j),
                forall|i: int, k: int, c: int|
                    0 <= i < w && 0 <= k < j && 0 <= c < 4 ==> out@[#[trigger] channel_at(
                        w as int,
                        i,
                        k,
                        c,
                    )] == self.channel(bbox.x + i, bbox.y + k, c),
            decreases h - j,
        {
            let mut i: usize = 0;
            while i < w
                invariant
                    i <= w,
                    j < h,
                    w == bbox.w,
                    h == bbox.h,
                    self.wf(),
                    bbox.right() <= self.width,
                    bbox.bottom() <= self.height,
                    out@.len() == 4 * (w * j + i),
                    forall|a: int, k: int, c: int|
                        0 <= a < w && 0 <= k < j && 0 <= c < 4 ==> out@[#[trigger] channel_at(
                            w as int,
                            a,
                            k,
                            c,
                        )] == self.channel(bbox.x + a, bbox.y + k, c),
                    forall|a: int, c: int|
                        0 <= a < i && 0 <= c < 4 ==> out@[#[trigger] channel_at(
                            w as int,
                            a,
                            j as int,
                            c,
                        )] == self.channel(bbox.x + a, bbox.y + j, c),
                decreases w - i,
            {
                let ghost out0 = out@;
                let px = self.pixel(bbox.x + i as u32, bbox.y + j as u32);
                out.push(px[0]);
                out.push(px[1]);
                out.push(px[2]);
                out.push(px[3]);
                proof {
                    assert(j * w == w * j) by (nonlinear_arith);
                    assert forall|a: int, k: int, c: int|
                        0 <= a < w && 0 <= k < j && 0 <= c < 4 implies out@[#[trigger] channel_at(
                        w as int,
                        a,
                        k,
                        c,
                    )] == self.channel(bbox.x + a, bbox.y + k, c) by {
                        lemma_channel_in(w as int, j as int, a, k, c);
                        assert(out0[channel_at(w as int, a, k, c)] == self.channel(
                            bbox.x + a,
                            bbox.y + k,
                            c,
                        ));
                    }
                    assert forall|a: int, c: int| 0 <= a < i + 1 && 0 <= c < 4 implies out@[#[trigger] channel_at(
                        w as int,
                        a,
                        j as int,
                        c,
                    )] == self.channel(bbox.x + a, bbox.y + j, c) by {
                        if a < i {
                            assert(out0[channel_at(w as int, a, j as int, c)] == self.channel(
                                bbox.x + a,
                                bbox.y + j,
                                c,
                            ));
                        }
                    }
                }
                i = i + 1;
            }
            proof {
                assert(w * j + w == w * (j + 1)) by (nonlinear_arith);
            }
            j = j + 1;
        }
        out
    }

    /// The pixels of a box as a PNG file.
    pub fn crop_png(&self, bbox: Bbox) -> (r: Vec<u8>)
        requires
            self.wf(),
            bbox.fits(self.width as int, self.height as int),
        ensures
            exists|crop: Seq<u8>| #[trigger]
                self.is_crop(bbox, crop) && r@ == png_of(crop, bbox.w as int, bbox.h as int),
    {
        let crop = self.crop_rgba(bbox);
        encode_png(&crop, bbox.w, bbox.h)
    }
}

/// The PNG file that the encoder makes of `w` by `h` RGBA pixels.
pub uninterp spec fn png_of(rgba: Seq<u8>, w: int, h: int) -> Seq<u8>;

/// Calls `write_image` of `image`'s `PngEncoder` with its default settings on a
/// vector. The file depends on the pixels and the size alone. The encoder
/// accepts RGBA bytes of exactly the image's size when neither side is zero, and
/// writing to a vector does not fail.
#[verifier::external_body]
fn encode_png(rgba: &Vec<u8>, w: u32, h: u32) -> (r: Vec<u8>)
    requires
        w > 0,
        h > 0,
        rgba@.len() == 4 * (w * h),
    ensures
        r@ == png_of(rgba@, w as int, h as int),
{
    let mut png = Vec::new();
    image::codecs::png::PngEncoder::new(&mut png)
        .write_image(rgba, w, h, image::ExtendedColorType::Rgba8)
        .expect("writing to a vector cannot fail");
    png
}

// ---- downscaling --------------------------------------------------------------------

/// One side of the downscaled sheet.
pub open spec fn scaled_side(dim: int, max_dim: int, longest: int) -> int {
    if dim * max_dim / longest < 1 {
        1
    } else {
        dim * max_dim / longest
    }
}

/// The first source position of output position `o`.
pub open spec fn span_start(o: int, src: int, out: int) -> int {
    o * src / out
}

/// The source position behind the last one of output position `o`: at least
/// one position is covered, and none past the end.
pub open spec fn span_end(o: int, src: int, out: int) -> int {
    let e = (o + 1) * src / out;
    let a = if e < span_start(o, src, out) + 1 {
        span_start(o, src, out) + 1
    } else {
        e
    };
    if a > src {
        src
    } else {
        a
    }
}

/// The sum of a channel over part of a row.
pub open spec fn row_sum(r: SheetRaster, c: int, y: int, x0: int, x1: int) -> int
    decreases x1 - x0,
{
    if x1 <= x0 {
        0
    } else {
        row_sum(r, c, y, x0, x1 - 1) + r.channel(x1 - 1, y, c)
    }
}

/// The sum of a channel over a box.
pub open spec fn box_sum(r: SheetRaster, c: int, x0: int, x1: int, y0: int, y1: int) -> int
    decreases y1 - y0,
{
    if y1 <= y0 {
        0
    } else {
        box_sum(r, c, x0, x1, y0, y1 - 1) + row_sum(r, c, y1 - 1, x0, x1)
    }
}

/// The mean, halves rounded up.
pub open spec fn rounded_mean(sum: int, count: int) -> int {
    (2 * sum + count) / (2 * count)
}

/// Channel `c` of output pixel `(ox, oy)`: the mean over the source box.
pub open spec fn scaled_channel(r: SheetRaster, ow: int, oh: int, ox: int, oy: int, c: int) -> int {
    let x0 = span_start(ox, r.width as int, ow);
    let x1 = span_end(ox, r.width as int, ow);
    let y0 = span_start(oy, r.height as int, oh);
    let y1 = span_end(oy, r.height as int, oh);
    rounded_mean(box_sum(r, c, x0, x1, y0, y1), (x1 - x0) * (y1 - y0))
}

/// `out` is the `ow` by `oh` downscaling of `r`.
pub open spec fn is_scaled(r: SheetRaster, ow: int, oh: int, out: Seq<u8>) -> bool {
    &&& out.len() == 4 * (ow * oh)
    &&& forall|x: int, y: int, c: int|
        0 <= x < ow && 0 <= y < oh && 0 <= c < 4 ==> out[#[trigger] channel_at(ow, x, y, c)]
            == scaled_channel(r, ow, oh, x, y, c)
}

proof fn row_sum_bounds(r: SheetRaster, c: int, y: int, x0: int, x1: int)
    requires
        x0 <= x1,
    ensures
        0 <= row_sum(r, c, y, x0, x1) <= 255 * (x1 - x0),
    decreases x1 - x0,
{
    if x0 < x1 {
        row_sum_bounds(r, c, y, x0, x1 - 1);
    }
}

proof fn box_sum_bounds(r: SheetRaster, c: int, x0: int, x1: int, y0: int, y1: int)
    requires
        x0 <= x1,
        y0 <= y1,
    ensures
        0 <= box_sum(r, c, x0, x1, y0, y1) <= 255 * ((x1 - x0) * (y1 - y0)),
    decreases y1 - y0,
{
    if y0 < y1 {
        box_sum_bounds(r, c, x0, x1, y0, y1 - 1);
        row_sum_bounds(r, c, y1 - 1, x0, x1);
        assert((x1 - x0) * (y1 - 1 - y0) + (x1 - x0) == (x1 - x0) * (y1 - y0)) by (nonlinear_arith);
    } else {
        assert((x1 - x0) * 0 == 0) by (nonlinear_arith);
    }
}

/// The span of an output position is a non-empty part of the source.
pub proof fn span_bounds(o: int, src: int, out: int)
    requires
        0 <= o < out,
        0 < src,
    ensures
        0 <= span_start(o, src, out) < span_end(o, src, out) <= src,
{
    assert(0 <= o * src / out && o * src / out < src) by (nonlinear_arith)
        requires
            0 <= o < out,
            0 < src,
    ;
}

fn span_of(o: u32, src: u32, out: u32) -> (r: (u32, u32))
    requires
        o < out,
        0 < src,
    ensures
        r.0 == span_start(o as int, src as int, out as int),
        r.1 == span_end(o as int, src as int, out as int),
        r.0 < r.1 <= src,
{
    proof {
        span_bounds(o as int, src as int, out as int);
        assert((o + 1) * src <= 0x1_0000_0000 * 0xffff_ffff && o * src <= 0xffff_ffff * 0xffff_ffff)
            by (nonlinear_arith)
            requires
                o <= 0xffff_ffff,
                src <= 0xffff_ffff,
        ;
        assert((o + 1) * src / (out as int) <= src) by (nonlinear_arith)
            requires
                0 <= o < out,
                0 < src,
        ;
        assert(0 <= (o + 1) * src / (out as int)) by (nonlinear_arith)
            requires
                0 <= o < out,
                0 < src,
        ;
    }
    let a: u32 = ((o as u64 * src as u64) / out as u64) as u32;
    let e: u32 = (((o as u64 + 1) * src as u64) / out as u64) as u32;
    let e: u32 = if e < a + 1 {
        a + 1
    } else {
        e
    };
    let e: u32 = if e > src {
        src
    } else {
        e
    };
    (a, e)
}

/// The mean of a channel over a box.
fn mean_channel(r: &SheetRaster, c: usize, x0: u32, x1: u32, y0: u32, y1: u32) -> (m: u8)
    requires
        r.wf(),
        c < 4,
        x0 < x1 <= r.width,
        y0 < y1 <= r.height,
    ensures
        m == rounded_mean(
            box_sum(*r, c as int, x0 as int, x1 as int, y0 as int, y1 as int),
            (x1 - x0) * (y1 - y0),
        ),
{
    let mut sum: u64 = 0;
    let len: usize = r.rgba.len();
    proof {
        assert((x1 - x0) * (y1 - y0) <= 0xffff_ffff * 0xffff_ffff) by (nonlinear_arith)
            requires
                0 <= x1 - x0 <= 0xffff_ffff,
                0 <= y1 - y0 <= 0xffff_ffff,
        ;
        assert((x1 - x0) * (y1 - y0) <= r.width * r.height) by (nonlinear_arith)
            requires
                0 <= x1 - x0 <= r.width,
                0 <= y1 - y0 <= r.height,
        ;
        assert((x1 - x0) * (y1 - y0) > 0) by (nonlinear_arith)
            requires
                x1 - x0 > 0,
                y1 - y0 > 0,
        ;
    }
    let mut y: u32 = y0;
    while y < y1
        invariant
            y0 <= y <= y1,
            y1 <= r.height,
            x0 < x1 <= r.width,
            c < 4,
            r.wf(),
            len == r.rgba@.len(),
            (x1 - x0) * (y1 - y0) <= mask::MAX_PIXELS,
            sum == box_sum(*r, c as int, x0 as int, x1 as int, y0 as int, y as int),
        decreases y1 - y,
    {
        proof {
            box_sum_bounds(*r, c as int, x0 as int, x1 as int, y0 as int, y as int);
            assert((x1 - x0) * (y - y0) <= (x1 - x0) * (y1 - y0)) by (nonlinear_arith)
                requires
                    0 <= x1 - x0,
                    y <= y1,
            ;
        }
        let mut x: u32 = x0;
        while x < x1
            invariant
                x0 <= x <= x1,
                y0 <= y < y1,
                y1 <= r.height,
                x1 <= r.width,
                c < 4,
                r.wf(),
                len == r.rgba@.len(),
                box_sum(*r, c as int, x0 as int, x1 as int, y0 as int, y as int) <= 255
                    * mask::MAX_PIXELS,
                sum == box_sum(*r, c as int, x0 as int, x1 as int, y0 as int, y as int) + row_sum(
                    *r,
                    c as int,
                    y as int,
                    x0 as int,
                    x as int,
                ),
            decreases x1 - x,
        {
            proof {
                row_sum_bounds(*r, c as int, y as int, x0 as int, x as int);
                lemma_channel_in(r.width as int, r.height as int, x as int, y as int, c as int);
                mask::lemma_row(r.width as int, r.height as int, y as int);
            }
            let i: usize = (y as usize * r.width as usize + x as usize) * 4 + c;
            sum = sum + r.rgba[i] as u64;
            x = x + 1;
        }
        y = y + 1;
    }
    let count: u64 = (x1 - x0) as u64 * (y1 - y0) as u64;
    proof {
        box_sum_bounds(*r, c as int, x0 as int, x1 as int, y0 as int, y1 as int);
        assert((2 * sum + count) / (2 * count) <= 255) by (nonlinear_arith)
            requires
                0 < count,
                sum <= 255 * count,
        ;
    }
    ((2 * sum + count) / (2 * count)) as u8
}

impl SheetRaster {
    /// Box-average downscale so that the longest side is at most `max_dim`; never
    /// upscales. Returns the size and the RGBA bytes.
    pub fn scaled_rgba(&self, max_dim: u32) -> (r: (u32, u32, Vec<u8>))
        requires
            self.wf(),
            self.width > 0,
            self.height > 0,
        ensures
            ({
                let longest = if self.width >= self.height {
                    self.width
                } else {
                    self.height
                };
                if max_dim == 0 || longest <= max_dim {
                    r.0 == self.width && r.1 == self.height && r.2@ == self.rgba@
                } else {
                    &&& r.0 == scaled_side(self.width as int, max_dim as int, longest as int)
                    &&& r.1 == scaled_side(self.height as int, max_dim as int, longest as int)
                    &&& is_scaled(*self, r.0 as int, r.1 as int, r.2@)
                }
            }),
            max_dim > 0 ==> r.0 <= max_dim && r.1 <= max_dim,
            r.0 > 0,
            r.1 > 0,
            r.0 * r.1 <= self.width * self.height,
            r.2@.len() == 4 * (r.0 * r.1),
    {
        let longest: u32 = if self.width >= self.height {
            self.width
        } else {
            self.height
        };
        if max_dim == 0 || longest <= max_dim {
            return (self.width, self.height, copy_bytes(&self.rgba));
        }
        let ow: u32 = scale_side(self.width, max_dim, longest);
        let oh: u32 = scale_side(self.height, max_dim, longest);
        proof {
            assert(ow * oh <= self.width * self.height) by (nonlinear_arith)
                requires
                    0 <= ow <= self.width,
                    0 <= oh <= self.height,
            ;
        }
        let mut out: Vec<u8> = Vec::new();
        let mut oy: u32 = 0;
        while oy < oh
            invariant
                oy <= oh,
                0 < ow,
                self.wf(),
                self.width > 0,
                self.height > 0,
                out@.len() == 4 * (ow * oy),
                forall|x: int, y: int, c: int|
                    0 <= x < ow && 0 <= y < oy && 0 <= c < 4 ==> out@[#[trigger] channel_at(
                        ow as int,
                        x,
                        y,
                        c,
                    )] == scaled_channel(*self, ow as int, oh as int, x, y, c),
            decreases oh - oy,
        {
            let (y0, y1) = span_of(oy, self.height, oh);
            let mut ox: u32 = 0;
            while ox < ow
                invariant
                    ox <= ow,
                    oy < oh,
                    0 < ow,
                    self.wf(),
                    self.width > 0,
                    self.height > 0,
                    y0 == span_start(oy as int, self.height as int, oh as int),
                    y1 == span_end(oy as int, self.height as int, oh as int),
                    y0 < y1 <= self.height,
                    out@.len() == 4 * (ow * oy + ox),
                    forall|x: int, y: int, c: int|
                        0 <= x < ow && 0 <= y < oy && 0 <= c < 4 ==> out@[#[trigger] channel_at(
                            ow as int,
                            x,
                            y,
                            c,
                        )] == scaled_channel(*self, ow as int, oh as int, x, y, c),
                    forall|x: int, c: int|
                        0 <= x < ox && 0 <= c < 4 ==> out@[#[trigger] channel_at(
                            ow as int,
                            x,
                            oy as int,
                            c,
                        )] == scaled_channel(*self, ow as int, oh as int, x, oy as int, c),
                decreases ow - ox,
            {
                let ghost out0 = out@;
                let (x0, x1) = span_of(ox, self.width, ow);
                out.push(mean_channel(self, 0, x0, x1, y0, y1));
                out.push(mean_channel(self, 1, x0, x1, y0, y1));
                out.push(mean_channel(self, 2, x0, x1, y0, y1));
                out.push(mean_channel(self, 3, x0, x1, y0, y1));
                proof {
                    assert(oy * ow == ow * oy) by (nonlinear_arith);
                    assert forall|x: int, y: int, c: int|
                        0 <= x < ow && 0 <= y < oy && 0 <= c < 4 implies out@[#[trigger] channel_at(
                        ow as int,
                        x,
                        y,
                        c,
                    )] == scaled_channel(*self, ow as int, oh as int, x, y, c) by {
                        lemma_channel_in(ow as int, oy as int, x, y, c);
                        assert(out0[channel_at(ow as int, x, y, c)] == scaled_channel(
                            *self,
                            ow as int,
                            oh as int,
                            x,
                            y,
                            c,
                        ));
                    }
                    assert forall|x: int, c: int| 0 <= x < ox + 1 && 0 <= c < 4 implies out@[#[trigger] channel_at(
                        ow as int,
                        x,
                        oy as int,
                        c,
                    )] == scaled_channel(*self, ow as int, oh as int, x, oy as int, c) by {
                        if x < ox {
                            assert(out0[channel_at(ow as int, x, oy as int, c)] == scaled_channel(
                                *self,
                                ow as int,
                                oh as int,
                                x,
                                oy as int,
                                c,
                            ));
                        }
                    }
                }
                ox = ox + 1;
            }
            proof {
                assert(ow * oy + ow == ow * (oy + 1)) by (nonlinear_arith);
            }
            oy = oy + 1;
        }
        (ow, oh, out)
    }

    /// The downscaled sheet as a PNG file.
    pub fn preview_png(&self, max_dim: u32) -> (r: (u32, u32, Vec<u8>))
        requires
            self.wf(),
            self.width > 0,
            self.height > 0,
        ensures
            ({
                let longest = if self.width >= self.height {
                    self.width
                } else {
                    self.height
                };
                if max_dim == 0 || longest <= max_dim {
                    r.0 == self.width && r.1 == self.height && r.2@ == png_of(
                        self.rgba@,
                        r.0 as int,
                        r.1 as int,
                    )
                } else {
                    &&& r.0 == scaled_side(self.width as int, max_dim as int, longest as int)
                    &&& r.1 == scaled_side(self.height as int, max_dim as int, longest as int)
                    &&& exists|px: Seq<u8>| #[trigger]
                        is_scaled(*self, r.0 as int, r.1 as int, px) && r.2@ == png_of(
                            px,
                            r.0 as int,
                            r.1 as int,
                        )
                }
            }),
    {
        let (w, h, rgba) = self.scaled_rgba(max_dim);
        let png = encode_png(&rgba, w, h);
        let r = (w, h, png);
        proof {
            if max_dim > 0 && (self.width > max_dim || self.height > max_dim) {
                assert(is_scaled(*self, r.0 as int, r.1 as int, rgba@));
            }
        }
        r
    }
}

fn scale_side(dim: u32, max_dim: u32, longest: u32) -> (r: u32)
    requires
        0 < dim <= longest,
        0 < max_dim < longest,
    ensures
        r == scaled_side(dim as int, max_dim as int, longest as int),
        0 < r <= max_dim,
        r <= dim,
{
    proof {
        assert(dim * max_dim <= 0xffff_ffff * 0xffff_ffff) by (nonlinear_arith)
            requires
                dim <= 0xffff_ffff,
                max_dim <= 0xffff_ffff,
        ;
        assert(dim * max_dim / (longest as int) <= max_dim && dim * max_dim / (longest as int) <= dim
            && 0 <= dim * max_dim / (longest as int)) by (nonlinear_arith)
            requires
                0 < dim <= longest,
                0 < max_dim < longest,
        ;
    }
    let v: u64 = (dim as u64 * max_dim as u64) / longest as u64;
    if v < 1 {
        1
    } else {
        v as u32
    }
}

/// A copy of a byte buffer.
pub fn copy_bytes(v: &Vec<u8>) -> (r: Vec<u8>)
    ensures
        r@ == v@,
{
    let mut out: Vec<u8> = Vec::new();
    let mut i: usize = 0;
    while i < v.len()
        invariant
            i <= v@.len(),
            out@ == v@.take(i as int),
        decreases v@.len() - i,
    {
        out.push(v[i]);
        assert(v@.take(i + 1) =~= v@.take(i as int).push(v@[i as int]));
        i = i + 1;
    }
    assert(v@.take(v@.len() as int) =~= v@);
    out
}

/// A box of a sheet has one crop.
pub proof fn crop_is_unique(s: SheetRaster, b: Bbox, x: Seq<u8>, y: Seq<u8>)
    requires
        s.is_crop(b, x),
        s.is_crop(b, y),
    ensures
        x == y,
{
    let w = b.w as int;
    let h = b.h as int;
    assert forall|k: int| 0 <= k < x.len() implies x[k] == y[k] by {
        let p = k / 4;
        assert(0 <= p < w * h);
        assert(w > 0) by (nonlinear_arith)
            requires
                w >= 0,
                w * h > 0,
        ;
        assert(0 <= p % w < w && 0 <= p / w < h && (p / w) * w + p % w == p) by (nonlinear_arith)
            requires
                w > 0,
                0 <= p < w * h,
        ;
        assert(channel_at(w, p % w, p / w, k % 4) == k);
    }
    assert(x =~= y);
}

// ---- what a raster holds ------------------------------------------------------------

/// Luma weighs red 299, green 587 and blue 114 thousandths; alpha does not count.
/// So a grey keeps its level, and luma lies between the least and the greatest
/// channel.
pub proof fn luma_weighs_the_channels(s: SheetRaster, i: int)
    requires
        s.wf(),
        0 <= i < s.luma@.len(),
    ensures
        s.luma@[i] == 299 * s.rgba@[4 * i] + 587 * s.rgba@[4 * i + 1] + 114 * s.rgba@[4 * i + 2],
        s.rgba@[4 * i] == s.rgba@[4 * i + 1] == s.rgba@[4 * i + 2] ==> s.luma@[i] == 1000 * s.rgba@[4 * i],
{
}

/// Byte `c` of pixel `(i, j)` of a crop is byte `c` of the sheet's pixel at that
/// offset from the box's corner.
pub proof fn crop_copies_the_box(s: SheetRaster, b: Bbox, out: Seq<u8>, i: int, j: int, c: int)
    requires
        s.is_crop(b, out),
        0 <= i < b.w,
        0 <= j < b.h,
        0 <= c < 4,
    ensures
        out.len() == 4 * b.w * b.h,
        out[4 * (j * b.w + i) + c] == s.rgba@[4 * ((b.y + j) * s.width + (b.x + i)) + c],
{
    assert(out[channel_at(b.w as int, i, j, c)] == s.channel(b.x + i, b.y + j, c));
    let a = b.w * b.h;
    assert(4 * b.w * b.h == 4 * a) by (nonlinear_arith)
        requires
            a == b.w * b.h,
    ;
}

/// The scaled side keeps the proportion, rounded down, and is never zero.
pub proof fn scaled_sides_keep_the_proportion(dim: int, max_dim: int, longest: int, r: int)
    requires
        0 < dim <= longest,
        0 < max_dim < longest,
        r == scaled_side(dim, max_dim, longest),
    ensures
        r >= 1,
        r * longest <= dim * max_dim || r == 1,
        dim * max_dim < (r + 1) * longest,
        dim == longest ==> r == max_dim,
{
    let p = dim * max_dim;
    counting::quotient_sides(p, longest);
    let q = p / longest;
    assert(0 <= p) by (nonlinear_arith)
        requires
            p == dim * max_dim,
            0 < dim,
            0 < max_dim,
    ;
    if q < 1 {
        assert((q + 1) * longest <= 2 * longest) by (nonlinear_arith)
            requires
                q < 1,
                longest > 0,
        ;
    }
    if dim == longest {
        assert(longest * max_dim / longest == max_dim) by (nonlinear_arith)
            requires
                longest > 0,
        ;
    }
}

/// The byte `c` of the `t`-th pixel of a block, row by row.
pub open spec fn block_byte(s: SheetRaster, c: int, x0: int, x1: int, y0: int) -> spec_fn(int) -> int {
    |t: int| s.rgba@[4 * ((y0 + t / (x1 - x0)) * s.width + (x0 + t % (x1 - x0))) + c] as int
}

proof fn row_is_listed(s: SheetRaster, c: int, x0: int, x1: int, y0: int, n: int, k: int)
    requires
        x0 < x1,
        0 <= n,
        0 <= k <= x1 - x0,
    ensures
        counting::sum_below(block_byte(s, c, x0, x1, y0), n * (x1 - x0) + k) == counting::sum_below(
            block_byte(s, c, x0, x1, y0),
            n * (x1 - x0),
        ) + row_sum(s, c, y0 + n, x0, x0 + k),
    decreases k,
{
    let bw = x1 - x0;
    assert(n * bw >= 0) by (nonlinear_arith)
        requires
            n >= 0,
            bw > 0,
    ;
    if k > 0 {
        row_is_listed(s, c, x0, x1, y0, n, k - 1);
        let t = n * bw + (k - 1);
        assert(t / bw == n && t % bw == k - 1) by (nonlinear_arith)
            requires
                t == n * bw + (k - 1),
                0 <= k - 1 < bw,
        ;
        assert(block_byte(s, c, x0, x1, y0)(t) == s.channel(x0 + k - 1, y0 + n, c));
    }
}

proof fn box_is_listed(s: SheetRaster, c: int, x0: int, x1: int, y0: int, n: int)
    requires
        x0 < x1,
        0 <= n,
    ensures
        box_sum(s, c, x0, x1, y0, y0 + n) == counting::sum_below(block_byte(s, c, x0, x1, y0), n * (x1 - x0)),
    decreases n,
{
    let bw = x1 - x0;
    if n > 0 {
        box_is_listed(s, c, x0, x1, y0, n - 1);
        row_is_listed(s, c, x0, x1, y0, n - 1, bw);
        assert((n - 1) * bw + bw == n * bw) by (nonlinear_arith);
    } else {
        assert(0 * bw == 0);
    }
}

/// A channel of a scaled pixel is the mean of that channel over the pixel's own
/// block of the sheet, rounded to the nearest. The block runs from `x · W / w`
/// to `(x + 1) · W / w`, both rounded down, and so for the rows.
pub proof fn scaled_pixel_is_the_mean_of_its_block(
    s: SheetRaster,
    ow: int,
    oh: int,
    out: Seq<u8>,
    x: int,
    y: int,
    c: int,
    x0: int,
    x1: int,
    y0: int,
    y1: int,
)
    requires
        s.wf(),
        is_scaled(s, ow, oh, out),
        0 < ow <= s.width,
        0 < oh <= s.height,
        0 <= x < ow,
        0 <= y < oh,
        0 <= c < 4,
        x0 * ow <= x * s.width < (x0 + 1) * ow,
        x1 * ow <= (x + 1) * s.width < (x1 + 1) * ow,
        y0 * oh <= y * s.height < (y0 + 1) * oh,
        y1 * oh <= (y + 1) * s.height < (y1 + 1) * oh,
    ensures
        x0 < x1,
        y0 < y1,
        ({
            let n = (y1 - y0) * (x1 - x0);
            let sum = counting::sum_below(block_byte(s, c, x0, x1, y0), n);
            let v = out[4 * (y * ow + x) + c] as int;
            2 * sum - n < 2 * (v * n) <= 2 * sum + n
        }),
{
    let w = s.width as int;
    let h = s.height as int;
    counting::quotient_is(x * w, ow, x0);
    counting::quotient_is((x + 1) * w, ow, x1);
    counting::quotient_is(y * h, oh, y0);
    counting::quotient_is((y + 1) * h, oh, y1);
    span_bounds(x, w, ow);
    span_bounds(y, h, oh);
    wide_span(x, w, ow, x0, x1);
    wide_span(y, h, oh, y0, y1);
    assert(out[channel_at(ow, x, y, c)] == scaled_channel(s, ow, oh, x, y, c));
    box_is_listed(s, c, x0, x1, y0, y1 - y0);
    let n = (y1 - y0) * (x1 - x0);
    assert(n > 0) by (nonlinear_arith)
        requires
            n == (y1 - y0) * (x1 - x0),
            x0 < x1,
            y0 < y1,
    ;
    assert((x1 - x0) * (y1 - y0) == n) by (nonlinear_arith)
        requires
            n == (y1 - y0) * (x1 - x0),
    ;
    let sum = counting::sum_below(block_byte(s, c, x0, x1, y0), n);
    counting::quotient_sides(2 * sum + n, 2 * n);
    let v = (2 * sum + n) / (2 * n);
    assert(v * (2 * n) == 2 * (v * n) && (v + 1) * (2 * n) == 2 * (v * n) + 2 * n) by (nonlinear_arith);
}

proof fn wide_span(x: int, w: int, ow: int, x0: int, x1: int)
    requires
        0 < ow <= w,
        0 <= x < ow,
        x0 * ow <= x * w < (x0 + 1) * ow,
        x1 * ow <= (x + 1) * w < (x1 + 1) * ow,
    ensures
        0 <= x0 < x1 <= w,
{
    assert(x0 < x1) by (nonlinear_arith)
        requires
            0 < ow <= w,
            x0 * ow <= x * w,
            (x + 1) * w < (x1 + 1) * ow,
    ;
    assert(0 <= x0) by (nonlinear_arith)
        requires
            0 < ow,
            0 <= x * w,
            x * w < (x0 + 1) * ow,
            0 <= x,
            0 < w,
    ;
    assert(x1 <= w) by (nonlinear_arith)
        requires
            0 < ow,
            0 < w,
            x < ow,
            x1 * ow <= (x + 1) * w,
    ;
}

} // verus!
