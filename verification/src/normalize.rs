//! Decoding a sheet: orientation and the size cap.
//!
//! Decoding and resampling are the `image` crate's. Reading the orientation out
//! of the file and turning the pixels by it are done here.
use vstd::prelude::*;
use vstd::slice::slice_subrange;
use vstd::string::StringExecFns;
use crate::counting;
use crate::error;
use crate::error::IsgError;
use crate::mask;
use crate::raster;
use crate::raster::SheetRaster;

verus! {

// ---- orientation tag ------------------------------------------------------------------

/// The 16-bit number at offset `o`.
pub open spec fn read16(t: Seq<u8>, little: bool, o: int) -> Option<u16> {
    if o + 2 > t.len() {
        None
    } else if little {
        Some((t[o + 1] * 256 + t[o]) as u16)
    } else {
        Some((t[o] * 256 + t[o + 1]) as u16)
    }
}

/// The 32-bit number at offset `o`.
pub open spec fn read32(t: Seq<u8>, little: bool, o: int) -> Option<u32> {
    if o + 4 > t.len() {
        None
    } else if little {
        Some((((t[o + 3] * 256 + t[o + 2]) * 256 + t[o + 1]) * 256 + t[o]) as u32)
    } else {
        Some((((t[o] * 256 + t[o + 1]) * 256 + t[o + 2]) * 256 + t[o + 3]) as u32)
    }
}

/// The orientation tag.
pub const ORIENTATION_TAG: u16 = 274;

/// The value of the first orientation entry from entry `e` on; `None` when an
/// entry before it cannot be read.
pub open spec fn entry_from(t: Seq<u8>, little: bool, directory: int, count: int, e: int) -> Option<u16>
    decreases count - e,
{
    let base = directory + 2 + 12 * e;
    if e >= count {
        None
    } else {
        match read16(t, little, base) {
            None => None,
            Some(tag) => if tag == ORIENTATION_TAG {
                read16(t, little, base + 8)
            } else {
                entry_from(t, little, directory, count, e + 1)
            },
        }
    }
}

/// The byte order of a block: `II` is little endian, `MM` is big endian.
pub open spec fn byte_order(t: Seq<u8>) -> Option<bool> {
    if t.len() < 2 {
        None
    } else if t[0] == 0x49 && t[1] == 0x49 {
        Some(true)
    } else if t[0] == 0x4d && t[1] == 0x4d {
        Some(false)
    } else {
        None
    }
}

/// The orientation that a TIFF block states.
pub open spec fn tiff_orientation(t: Seq<u8>) -> Option<u16> {
    match byte_order(t) {
        None => None,
        Some(little) => if read16(t, little, 2) != Some(42u16) {
            None
        } else {
            match read32(t, little, 4) {
                None => None,
                Some(directory) => match read16(t, little, directory as int) {
                    None => None,
                    Some(count) => entry_from(t, little, directory as int, count as int, 0),
                },
            }
        },
    }
}

fn get16(t: &[u8], little: bool, o: u64) -> (r: Option<u16>)
    requires
        o <= 0x2_0000_0000,
    ensures
        r == read16(t@, little, o as int),
{
    let n: usize = t.len();
    if o + 2 > n as u64 {
        return None;
    }
    let i: usize = o as usize;
    let a: u16 = t[i] as u16;
    let b: u16 = t[i + 1] as u16;
    if little {
        Some(b * 256 + a)
    } else {
        Some(a * 256 + b)
    }
}

fn get32(t: &[u8], little: bool, o: u64) -> (r: Option<u32>)
    requires
        o <= 0x2_0000_0000,
    ensures
        r == read32(t@, little, o as int),
{
    let n: usize = t.len();
    if o + 4 > n as u64 {
        return None;
    }
    let i: usize = o as usize;
    let a: u32 = t[i] as u32;
    let b: u32 = t[i + 1] as u32;
    let c: u32 = t[i + 2] as u32;
    let d: u32 = t[i + 3] as u32;
    if little {
        Some(((d * 256 + c) * 256 + b) * 256 + a)
    } else {
        Some(((a * 256 + b) * 256 + c) * 256 + d)
    }
}

/// Reads the orientation tag out of a TIFF block.
pub fn parse_tiff_orientation(tiff: &[u8]) -> (r: Option<u16>)
    ensures
        r == tiff_orientation(tiff@),
{
    if tiff.len() < 2 {
        return None;
    }
    let little: bool = if tiff[0] == 0x49 && tiff[1] == 0x49 {
        true
    } else if tiff[0] == 0x4d && tiff[1] == 0x4d {
        false
    } else {
        return None;
    };
    match get16(tiff, little, 2) {
        Some(magic) => {
            if magic != 42 {
                return None;
            }
        },
        None => {
            return None;
        },
    }
    let directory: u64 = match get32(tiff, little, 4) {
        Some(v) => v as u64,
        None => {
            return None;
        },
    };
    let count: u64 = match get16(tiff, little, directory) {
        Some(v) => v as u64,
        None => {
            return None;
        },
    };
    let mut e: u64 = 0;
    while e < count
        invariant
            e <= count,
            count <= 0xffff,
            directory <= 0xffff_ffff,
            byte_order(tiff@) == Some(little),
            tiff_orientation(tiff@) == entry_from(
                tiff@,
                little,
                directory as int,
                count as int,
                e as int,
            ),
        decreases count - e,
    {
        let base: u64 = directory + 2 + 12 * e;
        match get16(tiff, little, base) {
            Some(tag) => {
                if tag == ORIENTATION_TAG {
                    return get16(tiff, little, base + 8);
                }
            },
            None => {
                return None;
            },
        }
        e = e + 1;
    }
    None
}

/// The marker of an APP1 payload with EXIF data.
pub open spec fn is_exif(seg: Seq<u8>) -> bool {
    seg.len() >= 6 && seg[0] == 0x45 && seg[1] == 0x78 && seg[2] == 0x69 && seg[3] == 0x66 && seg[4] == 0
        && seg[5] == 0
}

/// An orientation is one to eight.
pub open spec fn valid_orientation(o: Option<u16>) -> Option<u16> {
    match o {
        Some(v) => if 1 <= v <= 8 {
            Some(v)
        } else {
            None
        },
        None => None,
    }
}

/// The orientation that the JPEG segments from offset `i` on state: standalone
/// markers are stepped over, the first EXIF segment decides, and the search ends
/// at the image data or where the stream makes no sense.
pub open spec fn scan_from(b: Seq<u8>, i: int) -> Option<u16>
    decreases b.len() - i,
{
    if i + 4 > b.len() || b[i] != 0xff {
        None
    } else {
        let marker = b[i + 1];
        let size = b[i + 2] * 256 + b[i + 3];
        if marker == 0xff || 0xd0 <= marker <= 0xd9 {
            scan_from(b, i + 2)
        } else if marker == 0xda || size < 2 || i + 2 + size > b.len() {
            None
        } else {
            let seg = b.subrange(i + 4, i + 2 + size);
            if marker == 0xe1 && is_exif(seg) {
                valid_orientation(tiff_orientation(seg.subrange(6, seg.len() as int)))
            } else {
                scan_from(b, i + 2 + size)
            }
        }
    }
}

/// The orientation that a file states; only JPEG files state one.
pub open spec fn orientation_of(b: Seq<u8>) -> Option<u16> {
    if b.len() < 2 || b[0] != 0xff || b[1] != 0xd8 {
        None
    } else {
        scan_from(b, 2)
    }
}

fn starts_exif(seg: &[u8]) -> (r: bool)
    ensures
        r == is_exif(seg@),
{
    seg.len() >= 6 && seg[0] == 0x45 && seg[1] == 0x78 && seg[2] == 0x69 && seg[3] == 0x66 && seg[4]
        == 0 && seg[5] == 0
}

/// Reads the orientation, one to eight, out of a JPEG file.
pub fn exif_orientation(bytes: &[u8]) -> (r: Option<u16>)
    ensures
        r == orientation_of(bytes@),
{
    let n: usize = bytes.len();
    if n < 2 || bytes[0] != 0xff || bytes[1] != 0xd8 {
        return None;
    }
    let mut i: usize = 2;
    while i <= n && n - i >= 4
        invariant
            i <= n,
            n == bytes@.len(),
            orientation_of(bytes@) == scan_from(bytes@, i as int),
        decreases n - i,
    {
        if bytes[i] != 0xff {
            return None;
        }
        let marker: u8 = bytes[i + 1];
        if marker == 0xff || (0xd0 <= marker && marker <= 0xd9) {
            i = i + 2;
        } else {
            if marker == 0xda {
                return None;
            }
            let size: usize = bytes[i + 2] as usize * 256 + bytes[i + 3] as usize;
            if size < 2 || size > n - i - 2 {
                return None;
            }
            let seg = slice_subrange(bytes, i + 4, i + 2 + size);
            if marker == 0xe1 && starts_exif(seg) {
                let tiff = slice_subrange(seg, 6, seg.len());
                return match parse_tiff_orientation(tiff) {
                    Some(o) => if 1 <= o && o <= 8 {
                        Some(o)
                    } else {
                        None
                    },
                    None => None,
                };
            }
            i = i + 2 + size;
        }
    }
    None
}

// ---- turning --------------------------------------------------------------------------

/// Decoded RGBA pixels.
#[derive(Clone, Debug, PartialEq, Eq)]
pub struct PixelBuf {
    /// Width in pixels.
    pub width: u32,
    /// Height in pixels.
    pub height: u32,
    /// RGBA bytes, row by row.
    pub rgba: Vec<u8>,
}

impl PixelBuf {
    /// The buffer has the size of the image.
    pub open spec fn wf(&self) -> bool {
        &&& self.width * self.height <= mask::MAX_PIXELS
        &&& self.rgba@.len() == 4 * (self.width * self.height)
    }

    /// Channel `c` of pixel `(x, y)`.
    pub open spec fn channel(&self, x: int, y: int, c: int) -> u8 {
        self.rgba@[raster::channel_at(self.width as int, x, y, c)]
    }
}

/// The orientation swaps width and height.
pub open spec fn swaps_sides(o: u16) -> bool {
    5 <= o <= 8
}

/// Where pixel `(x, y)` of the turned image stands in the `w` by `h` source.
pub open spec fn source_of(o: u16, w: int, h: int, x: int, y: int) -> (int, int) {
    if o == 2 {
        (w - 1 - x, y)
    } else if o == 3 {
        (w - 1 - x, h - 1 - y)
    } else if o == 4 {
        (x, h - 1 - y)
    } else if o == 5 {
        (y, x)
    } else if o == 6 {
        (y, h - 1 - x)
    } else if o == 7 {
        (w - 1 - y, h - 1 - x)
    } else if o == 8 {
        (w - 1 - y, x)
    } else {
        (x, y)
    }
}

/// `out` is `src` turned by orientation `o`.
pub open spec fn is_turned(src: PixelBuf, o: u16, out: PixelBuf) -> bool {
    &&& out.wf()
    &&& out.width == (if swaps_sides(o) {
        src.height
    } else {
        src.width
    })
    &&& out.height == (if swaps_sides(o) {
        src.width
    } else {
        src.height
    })
    &&& forall|x: int, y: int, c: int|
        0 <= x < out.width && 0 <= y < out.height && 0 <= c < 4 ==> #[trigger] out.channel(x, y, c)
            == src.channel(
            source_of(o, src.width as int, src.height as int, x, y).0,
            source_of(o, src.width as int, src.height as int, x, y).1,
            c,
        )
}

fn source_at(o: u16, w: u32, h: u32, x: u32, y: u32) -> (r: (u32, u32))
    requires
        swaps_sides(o) ==> x < h && y < w,
        !swaps_sides(o) ==> x < w && y < h,
    ensures
        r.0 == source_of(o, w as int, h as int, x as int, y as int).0,
        r.1 == source_of(o, w as int, h as int, x as int, y as int).1,
        r.0 < w,
        r.1 < h,
{
    if o == 2 {
        (w - 1 - x, y)
    } else if o == 3 {
        (w - 1 - x, h - 1 - y)
    } else if o == 4 {
        (x, h - 1 - y)
    } else if o == 5 {
        (y, x)
    } else if o == 6 {
        (y, h - 1 - x)
    } else if o == 7 {
        (w - 1 - y, h - 1 - x)
    } else if o == 8 {
        (w - 1 - y, x)
    } else {
        (x, y)
    }
}

/// Turns the image by orientation two to eight; any other leaves it as it is.
pub fn apply_orientation(img: &mut PixelBuf, orientation: u16)
    requires
        old(img).wf(),
    ensures
        is_turned(*old(img), orientation, *final(img)),
{
    let w: u32 = img.width;
    let h: u32 = img.height;
    let len: usize = img.rgba.len();
    let (ow, oh): (u32, u32) = if 5 <= orientation && orientation <= 8 {
        (h, w)
    } else {
        (w, h)
    };
    proof {
        assert(ow * oh == w * h) by (nonlinear_arith)
            requires
                (ow == w && oh == h) || (ow == h && oh == w),
        ;
    }
    let ghost src = *img;
    let mut out: Vec<u8> = Vec::new();
    let mut y: u32 = 0;
    while y < oh
        invariant
            y <= oh,
            src == *img,
            src.wf(),
            w == src.width,
            h == src.height,
            len == src.rgba@.len(),
            swaps_sides(orientation) ==> ow == h && oh == w,
            !swaps_sides(orientation) ==> ow == w && oh == h,
            out@.len() == 4 * (ow * y),
            forall|a: int, b: int, c: int|
                0 <= a < ow && 0 <= b < y && 0 <= c < 4 ==> out@[#[trigger] raster::channel_at(
                    ow as int,
                    a,
                    b,
                    c,
                )] == src.channel(
                    source_of(orientation, w as int, h as int, a, b).0,
                    source_of(orientation, w as int, h as int, a, b).1,
                    c,
                ),
        decreases oh - y,
    {
        let mut x: u32 = 0;
        while x < ow
            invariant
                x <= ow,
                y < oh,
                src == *img,
                src.wf(),
                w == src.width,
                h == src.height,
                len == src.rgba@.len(),
                swaps_sides(orientation) ==> ow == h && oh == w,
                !swaps_sides(orientation) ==> ow == w && oh == h,
                out@.len() == 4 * (ow * y + x),
                forall|a: int, b: int, c: int|
                    0 <= a < ow && 0 <= b < y && 0 <= c < 4 ==> out@[#[trigger] raster::channel_at(
                        ow as int,
                        a,
                        b,
                        c,
                    )] == src.channel(
                        source_of(orientation, w as int, h as int, a, b).0,
                        source_of(orientation, w as int, h as int, a, b).1,
                        c,
                    ),
                forall|a: int, c: int|
                    0 <= a < x && 0 <= c < 4 ==> out@[#[trigger] raster::channel_at(
                        ow as int,
                        a,
                        y as int,
                        c,
                    )] == src.channel(
                        source_of(orientation, w as int, h as int, a, y as int).0,
                        source_of(orientation, w as int, h as int, a, y as int).1,
                        c,
                    ),
            decreases ow - x,
        {
            let ghost out0 = out@;
            let (sx, sy) = source_at(orientation, w, h, x, y);
            proof {
                raster::lemma_channel_in(w as int, h as int, sx as int, sy as int, 3);
                mask::lemma_row(w as int, h as int, sy as int);
            }
            let i: usize = (sy as usize * w as usize + sx as usize) * 4;
            out.push(img.rgba[i]);
            out.push(img.rgba[i + 1]);
            out.push(img.rgba[i + 2]);
            out.push(img.rgba[i + 3]);
            proof {
                assert(y * ow == ow * y) by (nonlinear_arith);
                assert forall|a: int, b: int, c: int|
                    0 <= a < ow && 0 <= b < y && 0 <= c < 4 implies out@[#[trigger] raster::channel_at(
                    ow as int,
                    a,
                    b,
                    c,
                )] == src.channel(
                    source_of(orientation, w as int, h as int, a, b).0,
                    source_of(orientation, w as int, h as int, a, b).1,
                    c,
                ) by {
                    raster::lemma_channel_in(ow as int, y as int, a, b, c);
                    assert(out0[raster::channel_at(ow as int, a, b, c)] == src.channel(
                        source_of(orientation, w as int, h as int, a, b).0,
                        source_of(orientation, w as int, h as int, a, b).1,
                        c,
                    ));
                }
                assert forall|a: int, c: int| 0 <= a < x + 1 && 0 <= c < 4 implies out@[#[trigger] raster::channel_at(
                    ow as int,
                    a,
                    y as int,
                    c,
                )] == src.channel(
                    source_of(orientation, w as int, h as int, a, y as int).0,
                    source_of(orientation, w as int, h as int, a, y as int).1,
                    c,
                ) by {
                    if a < x {
                        assert(out0[raster::channel_at(ow as int, a, y as int, c)] == src.channel(
                            source_of(orientation, w as int, h as int, a, y as int).0,
                            source_of(orientation, w as int, h as int, a, y as int).1,
                            c,
                        ));
                    }
                }
            }
            x = x + 1;
        }
        proof {
            assert(ow * y + ow == ow * (y + 1)) by (nonlinear_arith);
        }
        y = y + 1;
    }
    *img = PixelBuf { width: ow, height: oh, rgba: out };
}

/// The orientation that undoes `o`.
pub open spec fn inverse_of(o: u16) -> u16 {
    if o == 6 {
        8
    } else if o == 8 {
        6
    } else {
        o
    }
}

/// Turning by an orientation and then by its inverse gives the image back.
pub proof fn turning_is_undone(a: PixelBuf, o: u16, b: PixelBuf, c: PixelBuf)
    requires
        a.wf(),
        is_turned(a, o, b),
        is_turned(b, inverse_of(o), c),
    ensures
        c.width == a.width,
        c.height == a.height,
        forall|x: int, y: int, k: int|
            0 <= x < a.width && 0 <= y < a.height && 0 <= k < 4 ==> #[trigger] c.channel(x, y, k)
                == a.channel(x, y, k),
{
    assert forall|x: int, y: int, k: int|
        0 <= x < a.width && 0 <= y < a.height && 0 <= k < 4 implies #[trigger] c.channel(x, y, k)
        == a.channel(x, y, k) by {
        let s = source_of(inverse_of(o), b.width as int, b.height as int, x, y);
        assert(c.channel(x, y, k) == b.channel(s.0, s.1, k));
        assert(b.channel(s.0, s.1, k) == a.channel(
            source_of(o, a.width as int, a.height as int, s.0, s.1).0,
            source_of(o, a.width as int, a.height as int, s.0, s.1).1,
            k,
        ));
    }
}

// ---- decoding and the size cap ----------------------------------------------------------

/// What the decoder makes of a file: size and RGBA bytes, or its message.
pub uninterp spec fn decoded(bytes: Seq<u8>) -> Result<(u32, u32, Seq<u8>), Seq<char>>;

/// Calls `image::guess_format`, `image::load_from_memory_with_format` and
/// `DynamicImage::to_rgba8`. The format is guessed from the leading bytes, and
/// only the crate's own decoders are asked, never one that the process has
/// registered. So what comes out depends on the bytes alone. A decoded image has
/// four bytes per pixel.
#[verifier::external_body]
fn decode(bytes: &[u8]) -> (r: Result<PixelBuf, String>)
    ensures
        match r {
            Ok(p) => decoded(bytes@) == Ok::<(u32, u32, Seq<u8>), Seq<char>>(
                (p.width, p.height, p.rgba@),
            ) && p.rgba@.len() == 4 * (p.width * p.height),
            Err(e) => decoded(bytes@) == Err::<(u32, u32, Seq<u8>), Seq<char>>(e@),
        },
{
    let loaded = match image::guess_format(bytes) {
        Ok(format) => image::load_from_memory_with_format(bytes, format),
        Err(e) => Err(e),
    };
    match loaded {
        Ok(img) => {
            let rgba = img.to_rgba8();
            let (width, height) = rgba.dimensions();
            Ok(PixelBuf { width, height, rgba: rgba.into_raw() })
        },
        Err(e) => Err(e.to_string()),
    }
}

/// The longest side that the resampler is asked for. It weighs pixels in single
/// precision: on far longer sides all weights of a pixel can be lost.
pub const MAX_SAMPLED_SIDE: u32 = 4_194_304;

/// What the resampler makes of `w` by `h` RGBA pixels at size `nw` by `nh`.
pub uninterp spec fn resampled(rgba: Seq<u8>, w: int, h: int, nw: int, nh: int) -> Seq<u8>;

/// Calls `image::imageops::resize` with the triangle filter, to sides that are no
/// longer than before. The result depends on the pixels and the two sizes alone,
/// and has four bytes per new pixel.
#[verifier::external_body]
fn resample(img: PixelBuf, nw: u32, nh: u32) -> (r: PixelBuf)
    requires
        img.rgba@.len() == 4 * (img.width * img.height),
        img.width * img.height <= mask::MAX_PIXELS,
        nw <= MAX_SAMPLED_SIDE,
        nh <= MAX_SAMPLED_SIDE,
        nw * nh <= mask::MAX_PIXELS,
        img.width > 0 && img.height > 0 ==> nw <= img.width && nh <= img.height,
    ensures
        r.width == nw,
        r.height == nh,
        r.rgba@ == resampled(img.rgba@, img.width as int, img.height as int, nw as int, nh as int),
        r.rgba@.len() == 4 * (nw * nh),
{
    let src = image::RgbaImage::from_raw(img.width, img.height, img.rgba).expect("four bytes per pixel");
    let out = image::imageops::resize(&src, nw, nh, image::imageops::FilterType::Triangle);
    PixelBuf { width: nw, height: nh, rgba: out.into_raw() }
}

/// A side scaled so that `longest` becomes `max_dim`, halves rounded up, and at
/// least one.
pub open spec fn capped_side(dim: int, max_dim: int, longest: int) -> int {
    let v = (2 * (dim * max_dim) + longest) / (2 * longest);
    if v < 1 {
        1
    } else {
        v
    }
}

fn cap_side(dim: u32, max_dim: u32, longest: u32) -> (r: u32)
    requires
        dim <= longest,
        max_dim < longest,
    ensures
        r == capped_side(dim as int, max_dim as int, longest as int),
        r >= 1,
        dim > 0 ==> r <= dim,
        r <= max_dim || r == 1,
        dim == 0 ==> r == 1,
{
    proof {
        assert(dim * max_dim <= 0xffff_ffff * 0xffff_ffff) by (nonlinear_arith)
            requires
                dim <= 0xffff_ffff,
                max_dim <= 0xffff_ffff,
        ;
        assert((2 * (dim * max_dim) + longest) / (2 * longest) <= 0xffff_ffff) by (nonlinear_arith)
            requires
                0 <= dim <= longest,
                0 <= max_dim < longest,
                longest <= 0xffff_ffff,
        ;
        assert(0 <= (2 * (dim * max_dim) + longest) / (2 * longest)) by (nonlinear_arith)
            requires
                0 <= dim * max_dim,
                0 < longest,
        ;
        assert(0 <= dim * max_dim) by (nonlinear_arith)
            requires
                0 <= dim,
                0 <= max_dim,
        ;
        assert((2 * (dim * max_dim) + longest) / (2 * longest) <= dim) by (nonlinear_arith)
            requires
                0 <= dim <= longest,
                0 <= max_dim < longest,
        ;
        assert((2 * (dim * max_dim) + longest) / (2 * longest) <= max_dim) by (nonlinear_arith)
            requires
                0 <= dim <= longest,
                0 <= max_dim < longest,
        ;
    }
    let v: u128 = (2 * (dim as u128 * max_dim as u128) + longest as u128) / (2 * longest as u128);
    if v < 1 {
        1
    } else {
        v as u32
    }
}

/// The greater side.
pub open spec fn longest_side(w: u32, h: u32) -> u32 {
    if w >= h {
        w
    } else {
        h
    }
}

/// `out` is `src` with its longest side capped at `max_dim`.
pub open spec fn is_capped(src: PixelBuf, max_dim: u32, out: PixelBuf) -> bool {
    let longest = longest_side(src.width, src.height);
    if longest > max_dim {
        &&& out.width == capped_side(src.width as int, max_dim as int, longest as int)
        &&& out.height == capped_side(src.height as int, max_dim as int, longest as int)
        &&& out.rgba@ == resampled(
            src.rgba@,
            src.width as int,
            src.height as int,
            out.width as int,
            out.height as int,
        )
    } else {
        out == src
    }
}

/// The image has to be capped to a side that is too long to sample.
pub open spec fn overflows(w: u32, h: u32, max_dim: u32) -> bool {
    longest_side(w, h) > max_dim && max_dim > MAX_SAMPLED_SIDE
}

/// No stated orientation leaves the image as it is.
pub open spec fn turn_of(o: Option<u16>) -> u16 {
    match o {
        Some(v) => v,
        None => 1,
    }
}

/// `r` is the sheet of a decoded image.
pub open spec fn is_arranged(img: PixelBuf, o: Option<u16>, max_dim: u32, r: Result<SheetRaster, IsgError>) -> bool {
    exists|turned: PixelBuf| #[trigger]
        is_turned(img, turn_of(o), turned) && match r {
            Ok(sheet) => !overflows(turned.width, turned.height, max_dim) && sheet.wf()
                && exists|capped: PixelBuf| #[trigger]
                is_capped(turned, max_dim, capped) && sheet.width == capped.width && sheet.height
                    == capped.height && sheet.rgba@ == capped.rgba@,
            Err(e) => overflows(turned.width, turned.height, max_dim) && e == IsgError::TooLarge,
        }
}

/// Turns a decoded image by its orientation, caps its size and measures luma.
pub fn arrange(img: PixelBuf, orientation: Option<u16>, max_dim: u32) -> (r: Result<SheetRaster, IsgError>)
    requires
        img.wf(),
    ensures
        is_arranged(img, orientation, max_dim, r),
{
    let ghost src = img;
    let mut img = img;
    match orientation {
        Some(o) => {
            apply_orientation(&mut img, o);
        },
        None => {},
    }
    let ghost turned = img;
    assert(is_turned(src, turn_of(orientation), turned));
    let longest: u32 = if img.width >= img.height {
        img.width
    } else {
        img.height
    };
    if longest > max_dim {
        if max_dim > MAX_SAMPLED_SIDE {
            return Err(IsgError::TooLarge);
        }
        let nw: u32 = cap_side(img.width, max_dim, longest);
        let nh: u32 = cap_side(img.height, max_dim, longest);
        proof {
            if img.width > 0 && img.height > 0 {
                let (w, h) = (img.width as int, img.height as int);
                assert(nw * nh <= w * h) by (nonlinear_arith)
                    requires
                        0 <= nw <= w,
                        0 <= nh <= h,
                ;
            } else {
                assert(nw * nh <= MAX_SAMPLED_SIDE) by (nonlinear_arith)
                    requires
                        nw == 1 || nh == 1,
                        0 <= nw <= MAX_SAMPLED_SIDE,
                        0 <= nh <= MAX_SAMPLED_SIDE,
                ;
            }
        }
        img = resample(img, nw, nh);
    }
    assert(is_capped(turned, max_dim, img));
    Ok(SheetRaster::from_rgba(img.width, img.height, img.rgba))
}

/// `r` is what becomes of a file.
pub open spec fn is_normalized(bytes: Seq<u8>, max_dim: u32, r: Result<SheetRaster, IsgError>) -> bool {
    match decoded(bytes) {
        Err(e) => match r {
            Err(IsgError::Corrupt(m)) => m@ == "decode: "@ + e,
            _ => false,
        },
        Ok((w, h, rgba)) => if w * h > mask::MAX_PIXELS {
            match r {
                Err(IsgError::TooLarge) => true,
                _ => false,
            }
        } else {
            exists|img: PixelBuf| #[trigger]
                is_arranged(img, orientation_of(bytes), max_dim, r) && img.width == w && img.height
                    == h && img.rgba@ == rgba
        },
    }
}

/// Decodes a sheet, turns it upright and caps its longest side.
pub fn normalize(bytes: &[u8], max_dim: u32) -> (r: Result<SheetRaster, IsgError>)
    ensures
        is_normalized(bytes@, max_dim, r),
{
    match decode(bytes) {
        Ok(img) => {
            assert(img.width * img.height <= 0xffff_ffff * 0xffff_ffff) by (nonlinear_arith)
                requires
                    img.width <= 0xffff_ffff,
                    img.height <= 0xffff_ffff,
            ;
            if img.width as u64 * img.height as u64 > mask::MAX_PIXELS as u64 {
                return Err(IsgError::TooLarge);
            }
            let o = exif_orientation(bytes);
            arrange(img, o, max_dim)
        },
        Err(e) => {
            let mut m = String::from_str("decode: ");
            m.append(e.as_str());
            Err(IsgError::Corrupt(m))
        },
    }
}

proof fn one_turn(src: PixelBuf, o: u16, a: PixelBuf, b: PixelBuf)
    requires
        is_turned(src, o, a),
        is_turned(src, o, b),
    ensures
        a.width == b.width,
        a.height == b.height,
        a.rgba@ == b.rgba@,
{
    let w = a.width as int;
    let h = a.height as int;
    assert forall|i: int| 0 <= i < a.rgba@.len() implies a.rgba@[i] == b.rgba@[i] by {
        let k = i / 4;
        if w == 0 {
            assert(w * h == 0) by (nonlinear_arith)
                requires
                    w == 0,
            ;
        }
        mask::lemma_pixel_split(w, h, k);
        assert(raster::channel_at(w, k % w, k / w, i % 4) == i);
        assert(a.channel(k % w, k / w, i % 4) == b.channel(k % w, k / w, i % 4));
    }
    assert(a.rgba@ =~= b.rgba@);
}

/// A file has one normalized sheet under a given cap.
pub proof fn normalization_is_determined(
    bytes: Seq<u8>,
    max_dim: u32,
    a: Result<SheetRaster, IsgError>,
    b: Result<SheetRaster, IsgError>,
)
    requires
        is_normalized(bytes, max_dim, a),
        is_normalized(bytes, max_dim, b),
    ensures
        match (a, b) {
            (Ok(s), Ok(t)) => s.width == t.width && s.height == t.height && s.rgba@ == t.rgba@ && s.luma@
                == t.luma@,
            (Err(d), Err(e)) => error::message_of(d) == error::message_of(e),
            _ => false,
        },
{
    if let Ok((w, h, rgba)) = decoded(bytes) {
        if w * h <= mask::MAX_PIXELS {
            let o = orientation_of(bytes);
            let i = choose|img: PixelBuf| #[trigger]
                is_arranged(img, o, max_dim, a) && img.width == w && img.height == h && img.rgba@ == rgba;
            let j = choose|img: PixelBuf| #[trigger]
                is_arranged(img, o, max_dim, b) && img.width == w && img.height == h && img.rgba@ == rgba;
            let t1 = choose|t: PixelBuf| #[trigger]
                is_turned(i, turn_of(o), t) && match a {
                    Ok(sheet) => !overflows(t.width, t.height, max_dim) && sheet.wf()
                        && exists|c: PixelBuf| #[trigger]
                        is_capped(t, max_dim, c) && sheet.width == c.width && sheet.height == c.height
                            && sheet.rgba@ == c.rgba@,
                    Err(e) => overflows(t.width, t.height, max_dim) && e == IsgError::TooLarge,
                };
            let t2 = choose|t: PixelBuf| #[trigger]
                is_turned(j, turn_of(o), t) && match b {
                    Ok(sheet) => !overflows(t.width, t.height, max_dim) && sheet.wf()
                        && exists|c: PixelBuf| #[trigger]
                        is_capped(t, max_dim, c) && sheet.width == c.width && sheet.height == c.height
                            && sheet.rgba@ == c.rgba@,
                    Err(e) => overflows(t.width, t.height, max_dim) && e == IsgError::TooLarge,
                };
            assert forall|x: int, y: int, c: int| i.channel(x, y, c) == j.channel(x, y, c) by {}
            assert(is_turned(i, turn_of(o), t2));
            one_turn(i, turn_of(o), t1, t2);
            if let (Ok(s), Ok(t)) = (a, b) {
                assert(s.rgba@ == t.rgba@);
                assert(s.luma@ =~= t.luma@);
            }
        }
    }
}

// ---- what normalization does --------------------------------------------------------

/// Where each orientation takes a pixel from: two mirrors left and right, three
/// turns by half, four mirrors top and bottom, five swaps columns and rows, six
/// turns to the right, seven swaps them from the far corner, eight turns to the
/// left, and any other leaves the image as it is.
pub proof fn orientations_move_pixels(src: PixelBuf, o: u16, out: PixelBuf, x: int, y: int, c: int)
    requires
        is_turned(src, o, out),
        0 <= x < out.width,
        0 <= y < out.height,
        0 <= c < 4,
    ensures
        ({
            let w = src.width as int;
            let h = src.height as int;
            let got = out.rgba@[4 * (y * out.width + x) + c];
            &&& o <= 4 || o > 8 ==> out.width == w && out.height == h
            &&& 5 <= o <= 8 ==> out.width == h && out.height == w
            &&& o <= 1 || o > 8 ==> got == src.rgba@[4 * (y * w + x) + c]
            &&& o == 2 ==> got == src.rgba@[4 * (y * w + (w - 1 - x)) + c]
            &&& o == 3 ==> got == src.rgba@[4 * ((h - 1 - y) * w + (w - 1 - x)) + c]
            &&& o == 4 ==> got == src.rgba@[4 * ((h - 1 - y) * w + x) + c]
            &&& o == 5 ==> got == src.rgba@[4 * (x * w + y) + c]
            &&& o == 6 ==> got == src.rgba@[4 * ((h - 1 - x) * w + y) + c]
            &&& o == 7 ==> got == src.rgba@[4 * ((h - 1 - x) * w + (w - 1 - y)) + c]
            &&& o == 8 ==> got == src.rgba@[4 * (x * w + (w - 1 - y)) + c]
        }),
{
    assert(out.channel(x, y, c) == src.channel(
        source_of(o, src.width as int, src.height as int, x, y).0,
        source_of(o, src.width as int, src.height as int, x, y).1,
        c,
    ));
}

/// A capped side keeps the proportion, rounded to the nearest, and is never zero.
pub proof fn capped_sides_keep_the_proportion(dim: int, max_dim: int, longest: int, r: int)
    requires
        0 < dim <= longest,
        0 < max_dim < longest,
        r == capped_side(dim, max_dim, longest),
    ensures
        r >= 1,
        2 * (r * longest) <= 2 * (dim * max_dim) + longest || r == 1,
        2 * (dim * max_dim) < 2 * (r * longest) + longest,
        dim == longest ==> r == max_dim,
{
    let p = 2 * (dim * max_dim) + longest;
    let v = p / (2 * longest);
    counting::quotient_sides(p, 2 * longest);
    assert(v * (2 * longest) == 2 * (v * longest) && (v + 1) * (2 * longest) == 2 * (v * longest) + 2 * longest)
        by (nonlinear_arith);
    assert(dim * max_dim > 0) by (nonlinear_arith)
        requires
            dim > 0,
            max_dim > 0,
    ;
    if v < 1 {
        assert(v == 0) by (nonlinear_arith)
            requires
                v < 1,
                p < (v + 1) * (2 * longest),
                p > 0,
                longest > 0,
        ;
        assert(v * longest == 0) by (nonlinear_arith)
            requires
                v == 0,
        ;
        assert(1 * longest == longest);
    }
    if dim == longest {
        assert(dim * max_dim == max_dim * longest) by (nonlinear_arith)
            requires
                dim == longest,
        ;
        assert(2 * (max_dim * longest) + longest < (max_dim + 1) * (2 * longest) && max_dim * (2 * longest) <= 2 * (
        max_dim * longest) + longest) by (nonlinear_arith)
            requires
                longest > 0,
        ;
        counting::quotient_is(p, 2 * longest, max_dim);
    }
}

/// The number at `at`, by byte order.
pub open spec fn number_at(t: Seq<u8>, little: bool, at: int) -> int {
    if little {
        t[at] + 256 * t[at + 1]
    } else {
        256 * t[at] + t[at + 1]
    }
}

proof fn entry_is_found(t: Seq<u8>, little: bool, d: int, count: int, k: int, e: int)
    requires
        0 <= d,
        0 <= k <= e < count,
        d + 2 + 12 * e + 10 <= t.len(),
        forall|i: int| 0 <= i < e ==> #[trigger] number_at(t, little, d + 2 + 12 * i) != 274,
        number_at(t, little, d + 2 + 12 * e) == 274,
    ensures
        entry_from(t, little, d, count, k) == Some(number_at(t, little, d + 2 + 12 * e + 8) as u16),
    decreases e - k,
{
    let base = d + 2 + 12 * k;
    assert(read16(t, little, base) == Some(number_at(t, little, base) as u16));
    if k < e {
        assert(number_at(t, little, base) != 274);
        entry_is_found(t, little, d, count, k + 1, e);
    } else {
        assert(read16(t, little, base + 8) == Some(number_at(t, little, base + 8) as u16));
    }
}

/// The orientation of a TIFF block is the value of the first entry with tag 274 in
/// its first directory, in either byte order: `II` for little and `MM` for big ends
/// first, then 42, then where the directory stands.
pub proof fn orientation_entry_is_read(t: Seq<u8>, little: bool, d: int, e: int)
    requires
        t.len() >= 8,
        t[0] == t[1],
        t[0] == (if little {
            73u8
        } else {
            77u8
        }),
        number_at(t, little, 2) == 42,
        d == (if little {
            number_at(t, little, 4) + 65536 * number_at(t, little, 6)
        } else {
            65536 * number_at(t, little, 4) + number_at(t, little, 6)
        }),
        d + 2 + 12 * e + 10 <= t.len(),
        0 <= e < number_at(t, little, d),
        forall|i: int| 0 <= i < e ==> #[trigger] number_at(t, little, d + 2 + 12 * i) != 274,
        number_at(t, little, d + 2 + 12 * e) == 274,
    ensures
        tiff_orientation(t) == Some(number_at(t, little, d + 2 + 12 * e + 8) as u16),
{
    assert(byte_order(t) == Some(little));
    assert(read16(t, little, 2) == Some(42u16));
    assert(read32(t, little, 4) == Some(d as u32));
    assert(read16(t, little, d) == Some(number_at(t, little, d) as u16));
    entry_is_found(t, little, d, number_at(t, little, d), 0, e);
}

proof fn scan_sees_the_rest(a: Seq<u8>, b: Seq<u8>, i: int, j: int)
    requires
        0 <= i <= a.len(),
        0 <= j <= b.len(),
        a.len() - i == b.len() - j,
        forall|k: int| 0 <= k < a.len() - i ==> #[trigger] a[i + k] == b[j + k],
    ensures
        scan_from(a, i) == scan_from(b, j),
    decreases a.len() - i,
{
    if i + 4 <= a.len() {
        assert(a[i + 0] == b[j + 0] && a[i + 1] == b[j + 1] && a[i + 2] == b[j + 2] && a[i + 3] == b[j + 3]);
        if a[i] == 0xff {
            let marker = a[i + 1];
            let size = a[i + 2] * 256 + a[i + 3];
            if marker == 0xff || 0xd0 <= marker <= 0xd9 {
                assert forall|k: int| 0 <= k < a.len() - (i + 2) implies #[trigger] a[i + 2 + k] == b[j + 2 + k] by {
                    assert(a[i + (2 + k)] == b[j + (2 + k)]);
                }
                scan_sees_the_rest(a, b, i + 2, j + 2);
            } else if marker == 0xda || size < 2 || i + 2 + size > a.len() {
            } else {
                let x = a.subrange(i + 4, i + 2 + size);
                let y = b.subrange(j + 4, j + 2 + size);
                assert forall|k: int| 0 <= k < x.len() implies x[k] == y[k] by {
                    assert(a[i + (4 + k)] == b[j + (4 + k)]);
                }
                assert(x =~= y);
                assert forall|k: int| 0 <= k < a.len() - (i + 2 + size) implies #[trigger] a[i + 2 + size + k] == b[
                j + 2 + size + k] by {
                    assert(a[i + (2 + size + k)] == b[j + (2 + size + k)]);
                }
                scan_sees_the_rest(a, b, i + 2 + size, j + 2 + size);
            }
        }
    }
}

/// A segment that is no APP1 segment, scan or bare marker does not count: without
/// it the file has the same orientation.
pub proof fn other_segments_do_not_count(b: Seq<u8>, size: int, without: Seq<u8>)
    requires
        b.len() >= 6,
        b[0] == 0xff,
        b[1] == 0xd8,
        b[2] == 0xff,
        b[3] != 0xe1,
        b[3] != 0xda,
        b[3] != 0xff,
        b[3] < 0xd0 || b[3] > 0xd9,
        size == 256 * b[4] + b[5],
        2 <= size,
        4 + size <= b.len(),
        without == b.subrange(0, 2) + b.subrange(4 + size, b.len() as int),
    ensures
        orientation_of(b) == orientation_of(without),
{
    assert(without[0] == 0xff && without[1] == 0xd8);
    assert(scan_from(b, 2) == scan_from(b, 4 + size));
    assert forall|k: int| 0 <= k < b.len() - (4 + size) implies #[trigger] b[4 + size + k] == without[2 + k] by {
    }
    scan_sees_the_rest(b, without, 4 + size, 2);
}

/// An Exif segment that comes first decides: its TIFF block's orientation counts
/// where it is from one to eight, and else there is none.
pub proof fn exif_segment_decides(b: Seq<u8>, size: int, t: Seq<u8>)
    requires
        b.len() >= 12,
        b[0] == 0xff,
        b[1] == 0xd8,
        b[2] == 0xff,
        b[3] == 0xe1,
        size == 256 * b[4] + b[5],
        8 <= size,
        4 + size <= b.len(),
        b[6] == 69,
        b[7] == 120,
        b[8] == 105,
        b[9] == 102,
        b[10] == 0,
        b[11] == 0,
        t == b.subrange(12, 4 + size),
    ensures
        orientation_of(b) == (match tiff_orientation(t) {
            Some(v) => if 1 <= v <= 8 {
                Some(v)
            } else {
                None
            },
            None => None,
        }),
{
    let seg = b.subrange(6, 4 + size);
    assert(is_exif(seg));
    assert(seg.subrange(6, seg.len() as int) =~= t);
    assert(scan_from(b, 2) == valid_orientation(tiff_orientation(t)));
}

/// An image is capped at its longer side: one that fits stays as it is, and of a
/// larger one the longer side becomes the limit and the other no longer.
pub proof fn longer_sides_are_capped(src: PixelBuf, max_dim: u32, out: PixelBuf)
    requires
        is_capped(src, max_dim, out),
        src.width > 0,
        src.height > 0,
        max_dim > 0,
    ensures
        src.width <= max_dim && src.height <= max_dim ==> out == src,
        src.width > max_dim && src.width >= src.height ==> out.width == max_dim && 0 < out.height <= max_dim,
        src.height > max_dim && src.height >= src.width ==> out.height == max_dim && 0 < out.width <= max_dim,
{
    let longest = longest_side(src.width, src.height) as int;
    let cap = max_dim as int;
    if longest > cap {
        capped_sides_keep_the_proportion(src.width as int, cap, longest, out.width as int);
        capped_sides_keep_the_proportion(src.height as int, cap, longest, out.height as int);
        capped_sides_fit(src.width as int, cap, longest);
        capped_sides_fit(src.height as int, cap, longest);
    }
}

proof fn capped_sides_fit(dim: int, cap: int, longest: int)
    requires
        0 < dim <= longest,
        0 < cap < longest,
    ensures
        capped_side(dim, cap, longest) <= cap,
{
    let v = capped_side(dim, cap, longest);
    capped_sides_keep_the_proportion(dim, cap, longest, v);
    if v > cap {
        assert(2 * (v * longest) >= 2 * (cap * longest) + 2 * longest) by (nonlinear_arith)
            requires
                v >= cap + 1,
                longest > 0,
        ;
        assert(dim * cap <= cap * longest) by (nonlinear_arith)
            requires
                dim <= longest,
                cap > 0,
        ;
    }
}

} // verus!
