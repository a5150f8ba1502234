use vstd::pervasive::VecAdditionalExecFns;
use vstd::prelude::*;
use vstd::slice::slice_subrange;
use vstd::slice::slice_to_vec;

use crate::codec::decode_spec;
use crate::codec::encode_byte;
use crate::codec::encode_spec;
use crate::format::PixelFormat;

verus! {

/// Mathematical model of an [`Image`]: the dimensions, the pixel layout,
/// and the packed bytes of the buffer.
#[verifier::ext_equal]
pub struct ImageView {
    pub width: nat,
    pub height: nat,
    pub format: PixelFormat,
    pub bytes: Seq<u8>,
}

impl ImageView {
    /// Bytes per pixel of the image's format.
    pub open spec fn channels(self) -> nat {
        self.format.spec_channel_count()
    }

    /// Byte length of one row of the image.
    pub open spec fn stride(self) -> nat {
        self.width * self.channels()
    }

    /// The buffer invariant: the byte buffer holds exactly
    /// `width * height * channels` bytes.
    pub open spec fn wf(self) -> bool {
        self.bytes.len() == self.width * self.height * self.channels()
    }

    /// Whether `(x, y)` addresses a pixel of the image.
    pub open spec fn in_bounds(self, x: int, y: int) -> bool {
        0 <= x < self.width && 0 <= y < self.height
    }

    /// Index of the first byte of pixel `(x, y)` in the buffer.
    pub open spec fn pixel_start(self, x: int, y: int) -> int {
        (y * self.width + x) * self.channels()
    }

    /// The byte run of pixel `(x, y)`.
    pub open spec fn pixel_bytes(self, x: int, y: int) -> Seq<u8> {
        self.bytes.subrange(self.pixel_start(x, y), self.pixel_start(x, y) + self.channels())
    }

    /// The universal color of pixel `(x, y)`.
    pub open spec fn pixel(self, x: int, y: int) -> u32 {
        decode_spec(self.format, self.pixel_bytes(x, y))
    }

    /// The image after writing universal color `c` at `(x, y)`: the pixel's
    /// byte run is replaced by the encoding of `c`, all else is unchanged.
    pub open spec fn write_pixel(self, x: int, y: int, c: u32) -> ImageView {
        ImageView {
            bytes: Seq::new(
                self.bytes.len(),
                |i: int|
                    if self.pixel_start(x, y) <= i < self.pixel_start(x, y) + self.channels() {
                        encode_byte(self.format, c, i - self.pixel_start(x, y))
                    } else {
                        self.bytes[i]
                    },
            ),
            ..self
        }
    }

    /// The image after filling every pixel with universal color `c`.
    pub open spec fn filled(self, c: u32) -> ImageView {
        ImageView {
            bytes: Seq::new(
                self.bytes.len(),
                |i: int| encode_byte(self.format, c, i % (self.channels() as int)),
            ),
            ..self
        }
    }
}

/// One raster image: width and height in pixels, the pixel layout, and the
/// packed byte buffer holding the pixels row-major, top to bottom, left to
/// right.
#[derive(Clone)]
pub struct Image {
    pub width: usize,
    pub height: usize,
    pub pixel_format: PixelFormat,
    pub data: Vec<u8>,
}

impl View for Image {
    type V = ImageView;

    open spec fn view(&self) -> ImageView {
        ImageView {
            width: self.width as nat,
            height: self.height as nat,
            format: self.pixel_format,
            bytes: self.data@,
        }
    }
}

/// For a pixel inside the grid, the byte run of the pixel lies inside the
/// buffer, whose length dominates the pixel count.
pub proof fn lemma_pixel_in_buffer(w: int, h: int, c: int, x: int, y: int)
    by (nonlinear_arith)
    requires
        0 <= x < w,
        0 <= y < h,
        0 < c,
    ensures
        0 <= (y * w + x) * c,
        (y * w + x) * c + c <= w * h * c,
        y * w + x < w * h,
        w * h <= w * h * c,
{
}

/// The byte range of row `y` lies inside the buffer.
pub proof fn lemma_row_in_buffer(w: int, h: int, c: int, y: int)
    by (nonlinear_arith)
    requires
        0 <= y < h,
        0 <= w,
        0 < c,
    ensures
        0 <= y * (w * c),
        (y + 1) * (w * c) == y * (w * c) + w * c,
        (y + 1) * (w * c) <= w * h * c,
        (y * w) * c == y * (w * c),
        w * c <= w * h * c,
{
}

/// The pixel count of a grid is no more than its byte count, and the two
/// ways to associate the byte-count product agree.
pub proof fn lemma_grid_mul_bounds(w: int, h: int, c: int)
    by (nonlinear_arith)
    requires
        0 <= w,
        0 <= h,
        0 < c,
    ensures
        w * h <= w * h * c,
        (w * h) * c == w * h * c,
{
}

/// The buffer of a well-formed image is exactly `height` rows of `stride`
/// bytes.
pub proof fn lemma_buffer_is_rows(w: int, h: int, c: int)
    by (nonlinear_arith)
    requires
        0 <= w,
        0 <= h,
        0 <= c,
    ensures
        h * (w * c) == w * h * c,
{
}

/// Allocates a byte vector of length `n` holding zeros.
pub(crate) fn zero_vec(n: usize) -> (v: Vec<u8>)
    ensures
        v@.len() == n,
        forall|i: int| 0 <= i < n ==> v@[i] == 0u8,
{
    let mut v: Vec<u8> = Vec::new();
    let mut k: usize = 0;
    while k < n
        invariant
            k <= n,
            v@.len() == k,
            forall|i: int| 0 <= i < k ==> v@[i] == 0u8,
        decreases n - k,
    {
        v.push(0u8);
        k = k + 1;
    }
    v
}

impl Image {
    /// Index of the pixel `(x, y)` in a row-major grid of the given width.
    pub(crate) fn pixel_index(width: usize, x: usize, y: usize) -> (idx: usize)
        requires
            y * width + x <= usize::MAX,
        ensures
            idx == y * width + x,
    {
        width * y + x
    }

    /// Converts one pixel's byte run to the universal `0xAARRGGBB` color.
    /// The slice must hold at least `channel_count` bytes; only those are
    /// read.
    pub(crate) fn convert_to_universal(pixfmt: PixelFormat, color: &[u8]) -> (c: u32)
        requires
            color@.len() >= pixfmt.spec_channel_count(),
        ensures
            c == decode_spec(pixfmt, color@),
    {
        let pxo = pixfmt.offsets();

        proof {
            lemma_offsets_in_run(pixfmt);
        }

        let aval: u8 = match pxo.a {
            Some(alpha) => color[alpha / 8],
            None => 0,
        };
        let rval: u8 = color[pxo.r / 8];
        let gval: u8 = color[pxo.g / 8];
        let bval: u8 = color[pxo.b / 8];

        ((aval as u32) << 24) | ((rval as u32) << 16) | ((gval as u32) << 8) | (bval as u32)
    }

    /// Encodes a universal `0xAARRGGBB` color as the byte run of one pixel
    /// in layout `pixfmt`. Only the first `channel_count` bytes of the
    /// result are meaningful; the rest are zero.
    pub(crate) fn universal_to_preferred(pixfmt: PixelFormat, color: u32) -> (out: [u8; 4])
        ensures
            out@ == encode_spec(pixfmt, color),
    {
        let a = ((color >> 24) & 0xff) as u8;
        let r = ((color >> 16) & 0xff) as u8;
        let g = ((color >> 8) & 0xff) as u8;
        let b = (color & 0xff) as u8;

        let out: [u8; 4] = match pixfmt {
            PixelFormat::RGBA => [a, b, g, r],
            PixelFormat::ARGB => [b, g, r, a],
            PixelFormat::BGRA => [a, r, g, b],
            PixelFormat::ABGR => [r, g, b, a],
            PixelFormat::RGB => [b, g, r, 0],
            PixelFormat::BGR => [r, g, b, 0],
        };

        proof {
            assert(out@ =~= encode_spec(pixfmt, color));
        }

        out
    }

    /// Create an image of the desired width, height, and pixel format whose
    /// pixels are all zero.
    pub fn new(width: usize, height: usize, pixfmt: PixelFormat) -> (img: Image)
        requires
            width * height * pixfmt.spec_channel_count() <= usize::MAX,
        ensures
            img@.width == width,
            img@.height == height,
            img@.format == pixfmt,
            img@.wf(),
            forall|i: int| 0 <= i < img@.bytes.len() ==> img@.bytes[i] == 0u8,
    {
        proof {
            lemma_grid_mul_bounds(width as int, height as int, pixfmt.spec_channel_count() as int);
        }
        let len: usize = width * height * pixfmt.channel_count();
        Image { width, height, pixel_format: pixfmt, data: zero_vec(len) }
    }

    /// Makes an image from a borrowed byte buffer, which must hold exactly
    /// `width * height * channel_count` bytes.
    pub fn from_raw_data(data: &[u8], width: usize, height: usize, pixel_format: PixelFormat) -> (
        img: Image)
        requires
            data@.len() == width * height * pixel_format.spec_channel_count(),
        ensures
            img@ == (ImageView {
                width: width as nat,
                height: height as nat,
                format: pixel_format,
                bytes: data@,
            }),
            img@.wf(),
    {
        Image { width, height, data: slice_to_vec(data), pixel_format }
    }

    /// Makes an image from an owned byte buffer, which must hold exactly
    /// `width * height * channel_count` bytes.
    pub fn from_raw_data_vec(
        data: Vec<u8>,
        width: usize,
        height: usize,
        pixel_format: PixelFormat,
    ) -> (img: Image)
        requires
            data@.len() == width * height * pixel_format.spec_channel_count(),
        ensures
            img@ == (ImageView {
                width: width as nat,
                height: height as nat,
                format: pixel_format,
                bytes: data@,
            }),
            img@.wf(),
    {
        Image { width, height, data, pixel_format }
    }

    /// Get width of the image in pixels.
    pub fn width(&self) -> (w: usize)
        ensures
            w == self@.width,
    {
        self.width
    }

    /// Get height of the image in pixels.
    pub fn height(&self) -> (h: usize)
        ensures
            h == self@.height,
    {
        self.height
    }

    /// Pixel format of the image.
    pub fn pixel_format(&self) -> (fmt: &PixelFormat)
        ensures
            fmt == self@.format,
    {
        &self.pixel_format
    }

    /// In-memory size of the pixel buffer in bytes.
    pub fn size(&self) -> (n: usize)
        requires
            self@.wf(),
        ensures
            n == self@.bytes.len(),
    {
        proof {
            vstd::std_specs::vec::axiom_spec_len(&self.data);
            lemma_grid_mul_bounds(
                self.width as int,
                self.height as int,
                self@.channels() as int,
            );
        }
        self.width * self.height * self.pixel_format.channel_count()
    }

    /// Immutable view of the raw pixel data.
    pub fn data(&self) -> (d: &[u8])
        ensures
            d@ == self@.bytes,
    {
        self.data.as_slice()
    }

    /// Mutable view of the raw pixel data. Writing through it changes the
    /// image's bytes and nothing else.
    pub fn data_mut(&mut self) -> (d: &mut [u8])
        ensures
            d@ == old(self)@.bytes,
            final(self)@.bytes == final(d)@,
            final(self)@.width == old(self)@.width,
            final(self)@.height == old(self)@.height,
            final(self)@.format == old(self)@.format,
    {
        self.data.as_mut_slice()
    }

    /// Gets the universal color of the pixel at `(x, y)`, or `None` when
    /// the coordinate lies outside the image.
    pub fn get_pixel(&self, x: usize, y: usize) -> (r: Option<u32>)
        requires
            self@.wf(),
        ensures
            r is Some <==> self@.in_bounds(x as int, y as int),
            r is Some ==> r.unwrap() == self@.pixel(x as int, y as int),
    {
        if x >= self.width || y >= self.height {
            return None;
        }
        let c: usize = self.pixel_format.channel_count();
        proof {
            vstd::std_specs::vec::axiom_spec_len(&self.data);
            lemma_pixel_in_buffer(
                self.width as int,
                self.height as int,
                c as int,
                x as int,
                y as int,
            );
        }
        let idx: usize = Self::pixel_index(self.width, x, y);
        let start_idx: usize = idx * c;
        let end_idx: usize = start_idx + c;

        let run = slice_subrange(self.data.as_slice(), start_idx, end_idx);
        Some(Self::convert_to_universal(self.pixel_format, run))
    }

    /// Sets the pixel at `(x, y)` to universal color `color`; out-of-range
    /// coordinates are ignored.
    pub fn set_pixel(&mut self, x: usize, y: usize, color: u32)
        requires
            old(self)@.wf(),
        ensures
            final(self)@.wf(),
            old(self)@.in_bounds(x as int, y as int) ==> final(self)@ == old(self)@.write_pixel(
                x as int,
                y as int,
                color,
            ),
            !old(self)@.in_bounds(x as int, y as int) ==> final(self)@ == old(self)@,
    {
        if x >= self.width || y >= self.height {
            return ;
        }
        let c: usize = self.pixel_format.channel_count();
        proof {
            vstd::std_specs::vec::axiom_spec_len(&self.data);
            lemma_pixel_in_buffer(
                self.width as int,
                self.height as int,
                c as int,
                x as int,
                y as int,
            );
        }
        let idx: usize = Self::pixel_index(self.width, x, y);
        let start: usize = idx * c;

        let enc: [u8; 4] = Self::universal_to_preferred(self.pixel_format, color);

        self.data.set(start, enc[0]);
        self.data.set(start + 1, enc[1]);
        self.data.set(start + 2, enc[2]);
        if c == 4 {
            self.data.set(start + 3, enc[3]);
        }

        proof {
            assert(self@.bytes =~= old(self)@.write_pixel(x as int, y as int, color).bytes);
            assert(self@ =~= old(self)@.write_pixel(x as int, y as int, color));
        }
    }

    /// Fills the whole image with the given universal color.
    pub fn fill(&mut self, color: u32)
        requires
            old(self)@.wf(),
        ensures
            final(self)@ == old(self)@.filled(color),
    {
        let ghost target = old(self)@.filled(color);
        let height: usize = self.height;
        let width: usize = self.width;
        let mut y: usize = 0;
        while y < height
            invariant
                self@.wf(),
                self@.width == old(self)@.width,
                self@.height == old(self)@.height,
                self@.format == old(self)@.format,
                self@.bytes.len() == old(self)@.bytes.len(),
                width == self@.width,
                height == self@.height,
                y <= height,
                target == old(self)@.filled(color),
                forall|i: int|
                    0 <= i < self@.bytes.len() ==> self@.bytes[i] == (if i < y * (
                    self@.stride() as int) {
                        target.bytes[i]
                    } else {
                        old(self)@.bytes[i]
                    }),
            decreases height - y,
        {
            proof {
                lemma_row_in_buffer(
                    width as int,
                    height as int,
                    self@.channels() as int,
                    y as int,
                );
            }
            let mut x: usize = 0;
            while x < width
                invariant
                    self@.wf(),
                    self@.width == old(self)@.width,
                    self@.height == old(self)@.height,
                    self@.format == old(self)@.format,
                    self@.bytes.len() == old(self)@.bytes.len(),
                    width == self@.width,
                    height == self@.height,
                    y < height,
                    x <= width,
                    target == old(self)@.filled(color),
                    forall|i: int|
                        0 <= i < self@.bytes.len() ==> self@.bytes[i] == (if i < (y * (
                        width as int) + x) * (self@.channels() as int) {
                            target.bytes[i]
                        } else {
                            old(self)@.bytes[i]
                        }),
                decreases width - x,
            {
                let ghost prev = self@;
                self.set_pixel(x, y, color);
                proof {
                    lemma_fill_step(old(self)@, prev, self@, color, x as int, y as int);
                }
                x = x + 1;
            }
            proof {
                lemma_row_end(width as int, self@.channels() as int, y as int);
            }
            y = y + 1;
        }
        proof {
            lemma_buffer_is_rows(width as int, height as int, self@.channels() as int);
            assert(self@.bytes =~= target.bytes);
            assert(self@ =~= target);
        }
    }

    /// Gets the byte run of the whole row at `y`, or `None` when the row
    /// index lies outside the image.
    pub fn get_line(&self, line: usize) -> (r: Option<&[u8]>)
        requires
            self@.wf(),
        ensures
            r is Some <==> line < self@.height,
            r is Some ==> r.unwrap()@ == self@.bytes.subrange(
                line * (self@.stride() as int),
                (line + 1) * (self@.stride() as int),
            ),
    {
        if line >= self.height {
            return None;
        }
        proof {
            vstd::std_specs::vec::axiom_spec_len(&self.data);
            lemma_row_in_buffer(
                self.width as int,
                self.height as int,
                self@.channels() as int,
                line as int,
            );
        }
        let stride: usize = self.width * self.pixel_format.channel_count();
        let start: usize = line * stride;
        let end: usize = start + stride;
        Some(slice_subrange(self.data.as_slice(), start, end))
    }
}

/// Law: writing a pixel and reading it back yields the written color, with
/// the alpha byte forced to zero when the format has no alpha channel; the
/// write also keeps the image well-formed and its dimensions.
pub proof fn lemma_set_get_pixel(img: ImageView, x: int, y: int, color: u32)
    requires
        img.wf(),
        img.in_bounds(x, y),
    ensures
        img.write_pixel(x, y, color).wf(),
        img.write_pixel(x, y, color).pixel(x, y) == crate::codec::masked(img.format, color),
{
    let c = img.channels() as int;
    let written = img.write_pixel(x, y, color);
    lemma_pixel_in_buffer(img.width as int, img.height as int, c, x, y);
    lemma_offsets_in_run(img.format);
    assert(written.pixel_bytes(x, y) =~= encode_spec(img.format, color).subrange(0, c));
    crate::codec::lemma_codec_round_trip(img.format, color);
}

/// Law: a pixel written by `write_pixel` leaves every other pixel's byte
/// run unchanged.
pub proof fn lemma_write_pixel_frame(img: ImageView, x: int, y: int, px: int, py: int, color: u32)
    requires
        img.wf(),
        img.in_bounds(x, y),
        img.in_bounds(px, py),
        (px, py) != (x, y),
    ensures
        img.write_pixel(x, y, color).pixel_bytes(px, py) == img.pixel_bytes(px, py),
{
    let c = img.channels() as int;
    let w = img.width as int;
    lemma_pixel_in_buffer(w, img.height as int, c, x, y);
    lemma_pixel_in_buffer(w, img.height as int, c, px, py);
    let pa = y * w + x;
    let pb = py * w + px;
    assert(pa != pb) by (nonlinear_arith)
        requires
            0 <= x < w,
            0 <= px < w,
            pa == y * w + x,
            pb == py * w + px,
            (px, py) != (x, y),
    ;
    assert(pb * c + c <= pa * c || pa * c + c <= pb * c) by (nonlinear_arith)
        requires
            pa != pb,
            0 < c,
            0 <= pa,
            0 <= pb,
    ;
    assert(img.write_pixel(x, y, color).pixel_bytes(px, py) =~= img.pixel_bytes(px, py));
}

/// Law: after a fill with color `c`, every pixel of the image reads as `c`,
/// with the alpha byte forced to zero when the format has no alpha channel.
pub proof fn lemma_fill_pixel(img: ImageView, x: int, y: int, color: u32)
    requires
        img.wf(),
        img.in_bounds(x, y),
    ensures
        img.filled(color).wf(),
        img.filled(color).pixel(x, y) == crate::codec::masked(img.format, color),
{
    let c = img.channels() as int;
    let filled = img.filled(color);
    lemma_pixel_in_buffer(img.width as int, img.height as int, c, x, y);
    lemma_offsets_in_run(img.format);
    let start = img.pixel_start(x, y);
    assert forall|k: int| 0 <= k < c implies filled.bytes[start + k] == encode_byte(
        img.format,
        color,
        k,
    ) by {
        lemma_mod_in_run(start + k, y * (img.width as int) + x, c);
    }
    assert(filled.pixel_bytes(x, y) =~= encode_spec(img.format, color).subrange(0, c));
    crate::codec::lemma_codec_round_trip(img.format, color);
}

/// Law: filling an image twice with the same color is the same as filling
/// it once.
pub proof fn lemma_fill_idempotent(img: ImageView, color: u32)
    ensures
        img.filled(color).filled(color) == img.filled(color),
{
    assert(img.filled(color).filled(color) =~= img.filled(color));
}

/// The channel offsets of every format lie inside the pixel's byte run.
pub(crate) proof fn lemma_offsets_in_run(fmt: PixelFormat)
    ensures
        fmt.red_off() < fmt.spec_channel_count(),
        fmt.green_off() < fmt.spec_channel_count(),
        fmt.blue_off() < fmt.spec_channel_count(),
        fmt.alpha_off() is Some ==> fmt.alpha_off().unwrap() < fmt.spec_channel_count(),
{
}

/// One `set_pixel` step extends the filled prefix of the buffer by one
/// pixel run.
proof fn lemma_fill_step(
    orig: ImageView,
    prev: ImageView,
    cur: ImageView,
    color: u32,
    x: int,
    y: int,
)
    requires
        orig.wf(),
        prev.wf(),
        prev.width == orig.width,
        prev.height == orig.height,
        prev.format == orig.format,
        prev.bytes.len() == orig.bytes.len(),
        orig.in_bounds(x, y),
        cur == prev.write_pixel(x, y, color),
        forall|i: int|
            0 <= i < prev.bytes.len() ==> prev.bytes[i] == (if i < (y * (orig.width as int) + x) * (
            orig.channels() as int) {
                orig.filled(color).bytes[i]
            } else {
                orig.bytes[i]
            }),
    ensures
        cur.width == orig.width,
        cur.height == orig.height,
        cur.format == orig.format,
        cur.bytes.len() == orig.bytes.len(),
        forall|i: int|
            0 <= i < cur.bytes.len() ==> cur.bytes[i] == (if i < (y * (orig.width as int) + x + 1)
                * (orig.channels() as int) {
                orig.filled(color).bytes[i]
            } else {
                orig.bytes[i]
            }),
{
    let c = orig.channels() as int;
    let p = y * (orig.width as int) + x;
    lemma_pixel_in_buffer(orig.width as int, orig.height as int, c, x, y);
    assert((p + 1) * c == p * c + c) by (nonlinear_arith);
    assert forall|i: int| 0 <= i < cur.bytes.len() implies cur.bytes[i] == (if i < (p + 1) * c {
        orig.filled(color).bytes[i]
    } else {
        orig.bytes[i]
    }) by {
        if p * c <= i < p * c + c {
            assert(cur.bytes[i] == encode_byte(cur.format, color, i - p * c));
            lemma_mod_in_run(i, p, c);
            assert(orig.filled(color).bytes[i] == encode_byte(orig.format, color, i % c));
        }
    }
}

/// A byte index inside pixel run `p` has remainder `i - p * c` modulo the
/// pixel size `c`.
proof fn lemma_mod_in_run(i: int, p: int, c: int)
    by (nonlinear_arith)
    requires
        0 < c,
        0 <= p,
        p * c <= i < p * c + c,
    ensures
        i % c == i - p * c,
{
}

/// Finishing row `y` means the filled prefix reaches the start of row
/// `y + 1`.
proof fn lemma_row_end(w: int, c: int, y: int)
    by (nonlinear_arith)
    requires
        0 <= w,
        0 < c,
        0 <= y,
    ensures
        (y * w + w) * c == (y + 1) * (w * c),
{
}

} // verus!
