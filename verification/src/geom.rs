use vstd::arithmetic::div_mod::lemma_div_pos_is_pos;
use vstd::arithmetic::div_mod::lemma_fundamental_div_mod;
use vstd::arithmetic::div_mod::lemma_fundamental_div_mod_converse;
use vstd::arithmetic::div_mod::lemma_mod_division_less_than_divisor;
use vstd::arithmetic::div_mod::lemma_multiply_divide_lt;
use vstd::prelude::*;

use crate::codec::encode_byte;
use crate::codec::encode_spec;
use crate::image::lemma_buffer_is_rows;
use crate::image::lemma_offsets_in_run;
use crate::image::lemma_pixel_in_buffer;
use crate::image::Image;
use crate::image::ImageView;

verus! {

/// Splitting an index by a positive block size: the fundamental division
/// identity together with its bounds.
pub(crate) proof fn lemma_split(i: int, d: int)
    requires
        0 < d,
        0 <= i,
    ensures
        i == d * (i / d) + i % d,
        0 <= i % d < d,
        0 <= i / d,
{
    lemma_fundamental_div_mod(i, d);
    lemma_mod_division_less_than_divisor(i, d);
    lemma_div_pos_is_pos(i, d);
}

/// Composing a quotient and a remainder back into an index.
pub(crate) proof fn lemma_join(q: int, r: int, d: int)
    requires
        0 < d,
        0 <= r < d,
    ensures
        (q * d + r) / d == q,
        (q * d + r) % d == r,
{
    lemma_fundamental_div_mod_converse(q * d + r, d, q, r);
}

/// An index below `m` blocks of size `d` has quotient below `m`.
pub(crate) proof fn lemma_quot_bound(i: int, d: int, m: int)
    requires
        0 < d,
        0 <= i,
        i < m * d,
    ensures
        0 <= i / d < m,
{
    assert(i < d * m) by (nonlinear_arith)
        requires
            i < m * d,
    ;
    lemma_multiply_divide_lt(i, d, m);
    lemma_div_pos_is_pos(i, d);
}

/// Decomposes byte index `i` of a `w x h` grid of `c`-byte pixels into its
/// pixel coordinates and channel index.
pub(crate) proof fn lemma_pixel_decompose(i: int, w: int, h: int, c: int)
    requires
        0 < c,
        0 < w,
        0 <= i < w * h * c,
    ensures
        0 <= i / c < w * h,
        0 <= i % c < c,
        0 <= (i / c) % w < w,
        0 <= (i / c) / w < h,
        i == (((i / c) / w) * w + (i / c) % w) * c + i % c,
{
    assert(0 < h) by (nonlinear_arith)
        requires
            0 < c,
            0 < w,
            0 <= i,
            i < w * h * c,
    ;
    assert((w * h) * c == w * h * c && 0 <= w * h) by (nonlinear_arith)
        requires
            0 <= w,
            0 <= h,
    ;
    lemma_split(i, c);
    lemma_quot_bound(i, c, w * h);
    let p = i / c;
    assert(p < h * w) by (nonlinear_arith)
        requires
            p < w * h,
    ;
    lemma_split(p, w);
    lemma_quot_bound(p, w, h);
    assert(c * (w * (p / w) + p % w) + i % c == ((p / w) * w + p % w) * c + i % c)
        by (nonlinear_arith);
}

impl ImageView {
    /// The image with its rows in reverse vertical order.
    pub open spec fn flipped_vertically(self) -> ImageView {
        let s = self.stride() as int;
        let h = self.height as int;
        ImageView {
            bytes: Seq::new(
                self.bytes.len(),
                |i: int| self.bytes[(h - 1 - i / s) * s + i % s],
            ),
            ..self
        }
    }

    /// The image with the pixels of row `y` in reverse horizontal order and
    /// every other row unchanged.
    pub open spec fn row_reversed(self, y: int) -> ImageView {
        let c = self.channels() as int;
        let w = self.width as int;
        ImageView {
            bytes: Seq::new(
                self.bytes.len(),
                |i: int|
                    if i / c / w == y {
                        self.bytes[((i / c / w) * w + (w - 1 - (i / c) % w)) * c + i % c]
                    } else {
                        self.bytes[i]
                    },
            ),
            ..self
        }
    }

    /// The image with every row's pixels in reverse horizontal order.
    pub open spec fn flipped_horizontally(self) -> ImageView {
        let c = self.channels() as int;
        let w = self.width as int;
        ImageView {
            bytes: Seq::new(
                self.bytes.len(),
                |i: int| self.bytes[((i / c / w) * w + (w - 1 - (i / c) % w)) * c + i % c],
            ),
            ..self
        }
    }

    /// The `w x h` crop of the image whose top-left corner sits at `(x, y)`
    /// of the source: pixels inside the source keep their bytes, pixels
    /// outside it hold the encoding of universal color `0`.
    pub open spec fn cropped(self, x: int, y: int, w: int, h: int) -> ImageView {
        let c = self.channels() as int;
        let sw = self.width as int;
        ImageView {
            width: w as nat,
            height: h as nat,
            format: self.format,
            bytes: Seq::new(
                (w * h * c) as nat,
                |i: int|
                    {
                        let ox = (i / c) % w;
                        let oy = (i / c) / w;
                        if self.in_bounds(x + ox, y + oy) {
                            self.bytes[((y + oy) * sw + (x + ox)) * c + i % c]
                        } else {
                            encode_byte(self.format, 0, i % c)
                        }
                    },
            ),
        }
    }
}

impl Image {
    /// Flips the image vertically, swapping row `y` with row
    /// `height - 1 - y`; the middle row of an odd-height image stays put.
    pub fn flip_vertically(&mut self)
        requires
            old(self)@.wf(),
        ensures
            final(self)@.wf(),
            final(self)@ == old(self)@.flipped_vertically(),
    {
        let ghost orig = self@;
        let ghost target = orig.flipped_vertically();
        let h: usize = self.height;
        if h < 2 {
            proof {
                lemma_flip_v_small(orig);
            }
            return ;
        }
        proof {
            vstd::std_specs::vec::axiom_spec_len(&self.data);
            if self.width > 0 {
                crate::image::lemma_row_in_buffer(
                    self.width as int,
                    h as int,
                    self@.channels() as int,
                    0,
                );
            } else {
                assert((self.width as int) * (self@.channels() as int) == 0) by (nonlinear_arith)
                    requires
                        self.width as int == 0,
                ;
            }
            lemma_buffer_is_rows(self.width as int, h as int, self@.channels() as int);
        }
        let stride: usize = self.width * self.pixel_format.channel_count();
        let ghost s = stride as int;
        proof {
            if self@.bytes.len() > 0 {
                assert(0 < s) by (nonlinear_arith)
                    requires
                        0 < (h as int) * s,
                        0 < h,
                ;
                assert forall|i: int| 0 <= i < self@.bytes.len() implies self@.bytes[i] == (if i / s
                    < 0 || i / s > h - 1 {
                    target.bytes[i]
                } else {
                    orig.bytes[i]
                }) by {
                    lemma_quot_bound(i, s, h as int);
                }
            }
        }
        let mut y: usize = 0;
        while y < h / 2
            invariant
                self@.wf(),
                self@.width == orig.width,
                self@.height == orig.height,
                self@.format == orig.format,
                self@.bytes.len() == orig.bytes.len(),
                h == orig.height,
                2 <= h,
                s == stride as int,
                s == orig.stride() as int,
                (h as int) * s == orig.bytes.len(),
                orig.bytes.len() <= usize::MAX,
                y <= h / 2,
                target == orig.flipped_vertically(),
                forall|i: int|
                    0 <= i < self@.bytes.len() ==> self@.bytes[i] == (if i / s < y || i / s > h - 1
                        - y {
                        target.bytes[i]
                    } else {
                        orig.bytes[i]
                    }),
            decreases h / 2 - y,
        {
            let iy: usize = h - 1 - y;
            let mut k: usize = 0;
            while k < stride
                invariant
                    self@.wf(),
                    self@.width == orig.width,
                    self@.height == orig.height,
                    self@.format == orig.format,
                    self@.bytes.len() == orig.bytes.len(),
                    h == orig.height,
                    2 <= h,
                    s == stride as int,
                    s == orig.stride() as int,
                    (h as int) * s == orig.bytes.len(),
                    orig.bytes.len() <= usize::MAX,
                    y < h / 2,
                    iy == h - 1 - y,
                    k <= stride,
                    target == orig.flipped_vertically(),
                    forall|i: int|
                        0 <= i < self@.bytes.len() ==> self@.bytes[i] == (if i / s < y || i / s > h
                            - 1 - y || ((i / s == y || i / s == h - 1 - y) && i % s < k) {
                            target.bytes[i]
                        } else {
                            orig.bytes[i]
                        }),
                decreases stride - k,
            {
                proof {
                    lemma_split(h as int, 2);
                    assert(y < iy);
                    lemma_join(y as int, k as int, s);
                    lemma_join(iy as int, k as int, s);
                    assert((y as int) * s + k < (iy as int) * s + k && (iy as int) * s + k < (
                    h as int) * s) by (nonlinear_arith)
                        requires
                            0 <= (y as int) && (y as int) < (iy as int) && (iy as int) < (h as int),
                            0 <= k < s,
                    ;
                }
                let a: usize = y * stride + k;
                let b: usize = iy * stride + k;
                let ghost before = self@;
                let va: u8 = self.data[a];
                let vb: u8 = self.data[b];
                proof {
                    assert((a as int) / s == y && (a as int) % s == k);
                    assert((b as int) / s == h - 1 - y && (b as int) % s == k);
                    assert(va == orig.bytes[a as int]);
                    assert(vb == orig.bytes[b as int]);
                }
                self.data.set(a, vb);
                self.data.set(b, va);
                proof {
                    assert(self@.bytes == before.bytes.update(a as int, vb).update(b as int, va));
                    assert forall|i: int| 0 <= i < self@.bytes.len() implies self@.bytes[i] == (
                    if i / s < y || i / s > h - 1 - y || ((i / s == y || i / s == h - 1 - y) && i % s
                        < k + 1) {
                        target.bytes[i]
                    } else {
                        orig.bytes[i]
                    }) by {
                        lemma_split(i, s);
                        assert(s * (i / s) == (i / s) * s) by (nonlinear_arith);
                        if i == a {
                            assert(self@.bytes[i] == vb);
                            assert(target.bytes[i] == orig.bytes[(h - 1 - (a as int) / s) * s + (
                            a as int) % s]);
                        } else if i == b {
                            assert(self@.bytes[i] == va);
                            assert(target.bytes[i] == orig.bytes[(h - 1 - (b as int) / s) * s + (
                            b as int) % s]);
                        } else {
                            assert(self@.bytes[i] == before.bytes[i]);
                            assert(before.bytes[i] == (if i / s < y || i / s > h - 1 - y || ((i / s
                                == y || i / s == h - 1 - y) && i % s < k) {
                                target.bytes[i]
                            } else {
                                orig.bytes[i]
                            }));
                        }
                    }
                }
                k = k + 1;
            }
            y = y + 1;
        }
        proof {
            lemma_split(h as int, 2);
            assert forall|i: int| 0 <= i < self@.bytes.len() implies self@.bytes[i]
                == target.bytes[i] by {
                lemma_split(i, s);
                lemma_quot_bound(i, s, h as int);
                let r = i / s;
                if !(r < h / 2 || r > h - 1 - h / 2) {
                    assert(r == h - 1 - r);
                    assert(target.bytes[i] == orig.bytes[(h - 1 - r) * s + i % s]);
                    assert((h - 1 - r) * s + i % s == r * s + i % s);
                    assert(r * s + i % s == s * r + i % s) by (nonlinear_arith);
                }
            }
            assert(self@.bytes =~= target.bytes);
            assert(self@ =~= target);
        }
    }

    /// Reverses the pixels of the row at `line`, decoding and re-encoding
    /// each swapped pair; rows outside the image are left untouched.
    pub fn reverse_line(&mut self, line: usize)
        requires
            old(self)@.wf(),
        ensures
            final(self)@.wf(),
            line < old(self)@.height ==> final(self)@ == old(self)@.row_reversed(line as int),
            line >= old(self)@.height ==> final(self)@ == old(self)@,
    {
        let ghost orig = self@;
        if line >= self.height {
            return ;
        }
        let w: usize = self.width;
        let mut i: usize = 0;
        while i < w / 2
            invariant
                self@.wf(),
                self@.width == orig.width,
                self@.height == orig.height,
                self@.format == orig.format,
                self@.bytes.len() == orig.bytes.len(),
                orig.wf(),
                w == orig.width,
                line < orig.height,
                i <= w / 2,
                forall|j: int|
                    0 <= j < self@.bytes.len() ==> self@.bytes[j] == rev_prefix_byte(
                        orig,
                        line as int,
                        i as int,
                        j,
                    ),
            decreases w / 2 - i,
        {
            proof {
                lemma_split(w as int, 2);
            }
            let rival: usize = w - 1 - i;
            let curpix: u32 = self.get_pixel(i, line).unwrap();
            let endpix: u32 = self.get_pixel(rival, line).unwrap();
            let ghost s0 = self@;
            self.set_pixel(i, line, endpix);
            let ghost s1 = self@;
            self.set_pixel(rival, line, curpix);
            proof {
                lemma_reverse_step(orig, s0, s1, self@, line as int, i as int);
            }
            i = i + 1;
        }
        proof {
            let wi = w as int;
            lemma_split(wi, 2);
            let c = orig.channels() as int;
            let h = orig.height as int;
            let target = orig.row_reversed(line as int);
            assert forall|j: int| 0 <= j < self@.bytes.len() implies self@.bytes[j]
                == target.bytes[j] by {
                assert(0 < wi) by (nonlinear_arith)
                    requires
                        0 <= j < wi * h * c,
                        0 <= wi,
                        0 <= h,
                        0 <= c,
                ;
                lemma_pixel_decompose(j, wi, h, c);
                let px = (j / c) % wi;
                let py = (j / c) / wi;
                assert(self@.bytes[j] == rev_prefix_byte(orig, line as int, wi / 2, j));
                if py == line && !(px < wi / 2 || px > wi - 1 - wi / 2) {
                    assert(px == wi - 1 - px);
                    assert(target.bytes[j] == orig.bytes[(py * wi + (wi - 1 - px)) * c + j % c]);
                    assert((py * wi + (wi - 1 - px)) * c + j % c == j);
                }
            }
            assert(self@.bytes =~= target.bytes);
            assert(self@ =~= target);
        }
    }

    /// Flips the image horizontally by reversing every row.
    pub fn flip_horizontally(&mut self)
        requires
            old(self)@.wf(),
        ensures
            final(self)@.wf(),
            final(self)@ == old(self)@.flipped_horizontally(),
    {
        let ghost orig = self@;
        let h: usize = self.height;
        let mut y: usize = 0;
        while y < h
            invariant
                self@.wf(),
                self@.width == orig.width,
                self@.height == orig.height,
                self@.format == orig.format,
                self@.bytes.len() == orig.bytes.len(),
                orig.wf(),
                h == orig.height,
                y <= h,
                forall|j: int|
                    0 <= j < self@.bytes.len() ==> self@.bytes[j] == (if (j
                        / (orig.channels() as int)) / (orig.width as int) < y {
                        orig.flipped_horizontally().bytes[j]
                    } else {
                        orig.bytes[j]
                    }),
            decreases h - y,
        {
            let ghost cur = self@;
            self.reverse_line(y);
            proof {
                lemma_flip_h_step(orig, cur, self@, y as int);
            }
            y = y + 1;
        }
        proof {
            let c = orig.channels() as int;
            let w = orig.width as int;
            assert forall|j: int| 0 <= j < self@.bytes.len() implies self@.bytes[j]
                == orig.flipped_horizontally().bytes[j] by {
                assert(0 < w) by (nonlinear_arith)
                    requires
                        0 <= j < w * (h as int) * c,
                        0 <= w,
                        0 <= h as int,
                        0 <= c,
                ;
                lemma_pixel_decompose(j, w, h as int, c);
            }
            assert(self@.bytes =~= orig.flipped_horizontally().bytes);
            assert(self@ =~= orig.flipped_horizontally());
        }
    }
}

impl Image {
    /// Cuts the image to the `width x height` rectangle whose top-left
    /// corner sits at `(x, y)`: pixels sampled outside the source read as
    /// universal color `0`. The image is replaced wholesale; its pixel
    /// format is preserved.
    pub fn cut(&mut self, x: usize, y: usize, width: usize, height: usize)
        requires
            old(self)@.wf(),
            x + width <= usize::MAX,
            y + height <= usize::MAX,
            width * height * old(self)@.channels() <= usize::MAX,
        ensures
            final(self)@.wf(),
            final(self)@ == old(self)@.cropped(x as int, y as int, width as int, height as int),
    {
        let ghost orig = self@;
        let ghost target = orig.cropped(x as int, y as int, width as int, height as int);
        let mut new_image = Image::new(width, height, self.pixel_format);
        proof {
            assert(target.bytes.len() == new_image@.bytes.len());
        }
        let mut oy: usize = 0;
        while oy < height
            invariant
                self@ == orig,
                orig.wf(),
                new_image@.wf(),
                new_image@.width == width,
                new_image@.height == height,
                new_image@.format == orig.format,
                x + width <= usize::MAX,
                y + height <= usize::MAX,
                oy <= height,
                target == orig.cropped(x as int, y as int, width as int, height as int),
                target.bytes.len() == new_image@.bytes.len(),
                forall|i: int|
                    0 <= i < new_image@.bytes.len() ==> new_image@.bytes[i] == (if i < (oy * (
                    width as int)) * (orig.channels() as int) {
                        target.bytes[i]
                    } else {
                        0u8
                    }),
            decreases height - oy,
        {
            proof {
                crate::image::lemma_row_in_buffer(
                    width as int,
                    height as int,
                    orig.channels() as int,
                    oy as int,
                );
                assert((oy * (width as int)) * (orig.channels() as int) == (oy as int) * ((
                width as int) * (orig.channels() as int))) by (nonlinear_arith);
            }
            let mut ox: usize = 0;
            while ox < width
                invariant
                    self@ == orig,
                    orig.wf(),
                    new_image@.wf(),
                    new_image@.width == width,
                    new_image@.height == height,
                    new_image@.format == orig.format,
                    x + width <= usize::MAX,
                    y + height <= usize::MAX,
                    oy < height,
                    ox <= width,
                    target == orig.cropped(x as int, y as int, width as int, height as int),
                    target.bytes.len() == new_image@.bytes.len(),
                    forall|i: int|
                        0 <= i < new_image@.bytes.len() ==> new_image@.bytes[i] == (if i < ((
                        oy * (width as int)) + ox) * (orig.channels() as int) {
                            target.bytes[i]
                        } else {
                            0u8
                        }),
                decreases width - ox,
            {
                let color: u32 = match self.get_pixel(x + ox, y + oy) {
                    Some(c) => c,
                    None => 0,
                };
                let ghost prev = new_image@;
                new_image.set_pixel(ox, oy, color);
                proof {
                    lemma_cut_step(
                        orig,
                        target,
                        prev,
                        new_image@,
                        x as int,
                        y as int,
                        ox as int,
                        oy as int,
                        color,
                    );
                }
                ox = ox + 1;
            }
            proof {
                crate::image::lemma_row_in_buffer(
                    width as int,
                    height as int,
                    orig.channels() as int,
                    oy as int,
                );
                assert(((oy * (width as int)) + width) * (orig.channels() as int) == ((oy + 1) * (
                width as int)) * (orig.channels() as int)) by (nonlinear_arith);
            }
            oy = oy + 1;
        }
        proof {
            assert((height as int) * ((width as int) * (orig.channels() as int)) == (width as int)
                * (height as int) * (orig.channels() as int) && ((height * (width as int)) * (
            orig.channels() as int)) == (height as int) * ((width as int) * (
            orig.channels() as int))) by (nonlinear_arith);
            assert(new_image@.bytes =~= target.bytes);
            assert(new_image@ =~= target);
        }
        *self = new_image;
    }
}

/// One probe of `cut` writes the next pixel of the crop: the source pixel's
/// bytes when the probe landed inside the source, the encoding of color `0`
/// when it did not.
#[verifier::rlimit(100)]
proof fn lemma_cut_step(
    orig: ImageView,
    target: ImageView,
    prev: ImageView,
    cur: ImageView,
    x: int,
    y: int,
    ox: int,
    oy: int,
    color: u32,
)
    requires
        orig.wf(),
        prev.wf(),
        prev.format == orig.format,
        0 <= ox < prev.width,
        0 <= oy < prev.height,
        target == orig.cropped(x, y, prev.width as int, prev.height as int),
        target.bytes.len() == prev.bytes.len(),
        color == (if orig.in_bounds(x + ox, y + oy) {
            orig.pixel(x + ox, y + oy)
        } else {
            0u32
        }),
        cur == prev.write_pixel(ox, oy, color),
        forall|i: int|
            0 <= i < prev.bytes.len() ==> prev.bytes[i] == (if i < ((oy * (prev.width as int)) + ox)
                * (prev.channels() as int) {
                target.bytes[i]
            } else {
                0u8
            }),
    ensures
        cur.wf(),
        cur.width == prev.width,
        cur.height == prev.height,
        cur.format == prev.format,
        cur.bytes.len() == prev.bytes.len(),
        forall|i: int|
            0 <= i < cur.bytes.len() ==> cur.bytes[i] == (if i < ((oy * (prev.width as int)) + ox
                + 1) * (prev.channels() as int) {
                target.bytes[i]
            } else {
                0u8
            }),
{
    let c = prev.channels() as int;
    let w = prev.width as int;
    let h = prev.height as int;
    let p = oy * w + ox;
    lemma_pixel_in_buffer(w, h, c, ox, oy);
    lemma_offsets_in_run(orig.format);
    assert((p + 1) * c == p * c + c) by (nonlinear_arith);
    if orig.in_bounds(x + ox, y + oy) {
        lemma_pixel_in_buffer(
            orig.width as int,
            orig.height as int,
            c,
            x + ox,
            y + oy,
        );
        crate::codec::lemma_encode_decode_identity(
            orig.format,
            orig.pixel_bytes(x + ox, y + oy),
        );
    }
    assert forall|i: int| 0 <= i < cur.bytes.len() implies cur.bytes[i] == (if i < (p + 1) * c {
        target.bytes[i]
    } else {
        0u8
    }) by {
        if p * c <= i < p * c + c {
            let k = i - p * c;
            lemma_join(p, k, c);
            lemma_join(oy, ox, w);
            assert(i / c == p && i % c == k && (i / c) % w == ox && (i / c) / w == oy);
            assert(cur.bytes[i] == encode_byte(prev.format, color, k));
            if orig.in_bounds(x + ox, y + oy) {
                assert(target.bytes[i] == orig.bytes[((y + oy) * (orig.width as int) + (x + ox))
                    * c + k]);
                assert(orig.pixel_bytes(x + ox, y + oy)[k] == orig.bytes[((y + oy) * (
                orig.width as int) + (x + ox)) * c + k]);
            } else {
                assert(target.bytes[i] == encode_byte(orig.format, 0, k));
            }
        }
    }
}

/// Reversing row `line` of an image whose rows before `line` are already
/// mirrored extends the mirrored part by one row.
proof fn lemma_flip_h_step(orig: ImageView, cur: ImageView, next: ImageView, line: int)
    requires
        orig.wf(),
        cur.width == orig.width,
        cur.height == orig.height,
        cur.format == orig.format,
        cur.bytes.len() == orig.bytes.len(),
        0 <= line < orig.height,
        forall|j: int|
            0 <= j < cur.bytes.len() ==> cur.bytes[j] == (if (j / (orig.channels() as int)) / (
            orig.width as int) < line {
                orig.flipped_horizontally().bytes[j]
            } else {
                orig.bytes[j]
            }),
        next == cur.row_reversed(line),
    ensures
        next.width == orig.width,
        next.height == orig.height,
        next.format == orig.format,
        next.bytes.len() == orig.bytes.len(),
        forall|j: int|
            0 <= j < next.bytes.len() ==> next.bytes[j] == (if (j / (orig.channels() as int)) / (
            orig.width as int) < line + 1 {
                orig.flipped_horizontally().bytes[j]
            } else {
                orig.bytes[j]
            }),
{
    let c = orig.channels() as int;
    let w = orig.width as int;
    let h = orig.height as int;
    assert forall|j: int| 0 <= j < next.bytes.len() implies next.bytes[j] == (if (j / c) / w < line
        + 1 {
        orig.flipped_horizontally().bytes[j]
    } else {
        orig.bytes[j]
    }) by {
        assert(0 < w) by (nonlinear_arith)
            requires
                0 <= j < w * h * c,
                0 <= w,
                0 <= h,
                0 <= c,
        ;
        lemma_pixel_decompose(j, w, h, c);
        let px = (j / c) % w;
        let py = (j / c) / w;
        if py == line {
            let jm = (py * w + (w - 1 - px)) * c + j % c;
            lemma_pixel_in_buffer(w, h, c, w - 1 - px, py);
            lemma_join(py * w + (w - 1 - px), j % c, c);
            lemma_join(py, w - 1 - px, w);
            assert(jm / c / w == py && (jm / c) % w == w - 1 - px && jm % c == j % c);
            assert(next.bytes[j] == cur.bytes[jm]);
            assert(cur.bytes[jm] == orig.bytes[jm]);
            assert(orig.flipped_horizontally().bytes[j] == orig.bytes[(py * w + (w - 1 - px)) * c
                + j % c]);
        }
    }
}

/// The byte a partially reversed row holds at index `i`: pixels of row
/// `line` whose column lies before `upto` or beyond its mirror are already
/// swapped, all other bytes still hold their original value.
pub(crate) open spec fn rev_prefix_byte(orig: ImageView, line: int, upto: int, i: int) -> u8 {
    let c = orig.channels() as int;
    let w = orig.width as int;
    let px = (i / c) % w;
    let py = (i / c) / w;
    if py == line && (px < upto || px > w - 1 - upto) {
        orig.row_reversed(line).bytes[i]
    } else {
        orig.bytes[i]
    }
}

/// One swap of `reverse_line` extends the reversed part of the row by the
/// column pair `(n, width - 1 - n)`.
#[verifier::rlimit(100)]
proof fn lemma_reverse_step(
    orig: ImageView,
    s0: ImageView,
    s1: ImageView,
    s2: ImageView,
    line: int,
    n: int,
)
    requires
        orig.wf(),
        s0.width == orig.width,
        s0.height == orig.height,
        s0.format == orig.format,
        s0.bytes.len() == orig.bytes.len(),
        0 <= line < orig.height,
        0 <= n,
        2 * n + 1 < orig.width,
        forall|i: int|
            0 <= i < s0.bytes.len() ==> s0.bytes[i] == rev_prefix_byte(orig, line, n, i),
        s1 == s0.write_pixel(n, line, s0.pixel(orig.width - 1 - n, line)),
        s2 == s1.write_pixel(orig.width - 1 - n, line, s0.pixel(n, line)),
    ensures
        s2.width == orig.width,
        s2.height == orig.height,
        s2.format == orig.format,
        s2.bytes.len() == orig.bytes.len(),
        forall|i: int|
            0 <= i < s2.bytes.len() ==> s2.bytes[i] == rev_prefix_byte(orig, line, n + 1, i),
{
    let c = orig.channels() as int;
    let w = orig.width as int;
    let h = orig.height as int;
    let m = w - 1 - n;
    let pa = line * w + n;
    let pb = line * w + m;
    lemma_pixel_in_buffer(w, h, c, n, line);
    lemma_pixel_in_buffer(w, h, c, m, line);
    lemma_offsets_in_run(orig.format);
    assert(pa < pb && pb * c + c <= w * h * c && (pa + 1) * c == pa * c + c && (pb + 1) * c == pb
        * c + c && pa * c + c <= pb * c) by (nonlinear_arith)
        requires
            0 <= n < m < w,
            0 <= line < h,
            0 < c,
            pa == line * w + n,
            pb == line * w + m,
    ;
    // The byte runs the two writes replaced: each equals the original run,
    // because neither pixel was touched before this swap.
    assert forall|k: int| 0 <= k < c implies s0.pixel_bytes(n, line)[k] == orig.pixel_bytes(
        n,
        line,
    )[k] && s0.pixel_bytes(m, line)[k] == orig.pixel_bytes(m, line)[k] by {
        assert(s0.pixel_start(n, line) == pa * c && s0.pixel_start(m, line) == pb * c);
        assert(s0.pixel_bytes(n, line)[k] == s0.bytes[pa * c + k]);
        assert(s0.pixel_bytes(m, line)[k] == s0.bytes[pb * c + k]);
        assert(s0.bytes[pa * c + k] == rev_prefix_byte(orig, line, n, pa * c + k));
        assert(s0.bytes[pb * c + k] == rev_prefix_byte(orig, line, n, pb * c + k));
        lemma_join(pa, k, c);
        lemma_join(pb, k, c);
        lemma_join(line, n, w);
        lemma_join(line, m, w);
    }
    assert(s0.pixel_bytes(n, line) =~= orig.pixel_bytes(n, line));
    assert(s0.pixel_bytes(m, line) =~= orig.pixel_bytes(m, line));
    crate::codec::lemma_encode_decode_identity(orig.format, orig.pixel_bytes(n, line));
    crate::codec::lemma_encode_decode_identity(orig.format, orig.pixel_bytes(m, line));
    assert forall|i: int| 0 <= i < s2.bytes.len() implies s2.bytes[i] == rev_prefix_byte(
        orig,
        line,
        n + 1,
        i,
    ) by {
        lemma_split(i, c);
        let p = i / c;
        let k = i % c;
        lemma_split(p, w);
        let px = p % w;
        let py = p / w;
        assert(i == c * p + k && p == w * py + px);
        assert(c * p == p * c && w * py == py * w) by (nonlinear_arith);
        if pa * c <= i < pa * c + c {
            lemma_join(pa, i - pa * c, c);
            lemma_join(line, n, w);
            assert(p == pa && k == i - pa * c && px == n && py == line);
            assert(s2.bytes[i] == s1.bytes[i]);
            assert(s1.bytes[i] == encode_byte(orig.format, s0.pixel(m, line), k));
            assert(s0.pixel(m, line) == crate::codec::decode_spec(
                orig.format,
                orig.pixel_bytes(m, line),
            ));
            assert(s1.bytes[i] == orig.pixel_bytes(m, line)[k]);
            assert(orig.row_reversed(line).bytes[i] == orig.bytes[(py * w + (w - 1 - px)) * c
                + k]);
            assert((py * w + (w - 1 - px)) * c + k == pb * c + k);
        } else if pb * c <= i < pb * c + c {
            lemma_join(pb, i - pb * c, c);
            lemma_join(line, m, w);
            assert(p == pb && k == i - pb * c && px == m && py == line);
            assert(s2.bytes[i] == encode_byte(orig.format, s0.pixel(n, line), k));
            assert(s0.pixel(n, line) == crate::codec::decode_spec(
                orig.format,
                orig.pixel_bytes(n, line),
            ));
            assert(s2.bytes[i] == orig.pixel_bytes(n, line)[k]);
            assert(orig.row_reversed(line).bytes[i] == orig.bytes[(py * w + (w - 1 - px)) * c
                + k]);
            assert(w - 1 - px == n);
            assert((py * w + (w - 1 - px)) * c + k == pa * c + k);
        } else {
            assert(s2.bytes[i] == s1.bytes[i] && s1.bytes[i] == s0.bytes[i]);
            assert(s0.bytes[i] == rev_prefix_byte(orig, line, n, i));
            if py == line && (px < n + 1 || px > w - 1 - (n + 1)) && !(px < n || px > w - 1 - n) {
                assert(px == n || px == m);
                assert(i == (py * w + px) * c + k) by (nonlinear_arith)
                    requires
                        i == c * (w * py + px) + k,
                ;
                assert(false);
            }
        }
    }
}

/// A vertical flip of an image with at most one row changes nothing.
proof fn lemma_flip_v_small(img: ImageView)
    requires
        img.wf(),
        img.height < 2,
    ensures
        img.flipped_vertically() == img,
{
    let s = img.stride() as int;
    let h = img.height as int;
    let w = img.width as int;
    let c = img.channels() as int;
    lemma_buffer_is_rows(w, h, c);
    if img.bytes.len() > 0 {
        assert(h == 1 && 0 < w * c) by (nonlinear_arith)
            requires
                0 < img.bytes.len(),
                img.bytes.len() == w * h * c,
                0 <= h < 2,
                0 <= w,
                0 < c,
        ;
        assert forall|i: int| 0 <= i < img.bytes.len() implies img.flipped_vertically().bytes[i]
            == img.bytes[i] by {
            lemma_split(i, s);
            assert(i < 1 * s) by (nonlinear_arith)
                requires
                    i < s,
            ;
            lemma_quot_bound(i, s, 1);
            assert(i / s == 0);
            assert(s * (i / s) == 0) by (nonlinear_arith)
                requires
                    i / s == 0,
            ;
            assert(i % s == i);
            assert(h - 1 - i / s == 0);
            assert((h - 1 - i / s) * s == 0) by (nonlinear_arith)
                requires
                    h - 1 - i / s == 0,
            ;
            assert((h - 1 - i / s) * s + i % s == i);
        }
    }
    assert(img.flipped_vertically().bytes =~= img.bytes);
    assert(img.flipped_vertically() =~= img);
}

/// Law: flipping an image vertically twice restores it exactly.
pub proof fn lemma_flip_v_involution(img: ImageView)
    requires
        img.wf(),
    ensures
        img.flipped_vertically().flipped_vertically() == img,
{
    let s = img.stride() as int;
    let h = img.height as int;
    let once = img.flipped_vertically();
    let twice = once.flipped_vertically();
    lemma_buffer_is_rows(img.width as int, h, img.channels() as int);
    if img.bytes.len() == 0 {
        assert(twice.bytes =~= img.bytes);
    } else {
        assert(0 < s) by (nonlinear_arith)
            requires
                0 < (img.width as int) * (h as int) * (img.channels() as int),
                s == (img.width as int) * (img.channels() as int),
                0 <= img.width as int,
                0 <= h,
                0 <= img.channels() as int,
        ;
        assert(h * s == img.bytes.len());
        assert forall|i: int| 0 <= i < img.bytes.len() implies twice.bytes[i] == img.bytes[i] by {
            lemma_split(i, s);
            lemma_quot_bound(i, s, h);
            let r = i / s;
            let k = i % s;
            let j = (h - 1 - r) * s + k;
            lemma_join(h - 1 - r, k, s);
            assert(0 <= j < h * s) by (nonlinear_arith)
                requires
                    0 <= h - 1 - r < h,
                    0 <= k < s,
                    j == (h - 1 - r) * s + k,
            ;
            assert(j / s == h - 1 - r && j % s == k);
            assert(once.bytes[j] == img.bytes[(h - 1 - (h - 1 - r)) * s + k]);
            assert((h - 1 - (h - 1 - r)) * s + k == r * s + k);
            assert(r * s + k == s * r + k) by (nonlinear_arith);
            assert(twice.bytes[i] == once.bytes[j]);
        }
        assert(twice.bytes =~= img.bytes);
    }
    assert(twice =~= img);
}

/// Law: flipping an image horizontally twice restores it exactly.
pub proof fn lemma_flip_h_involution(img: ImageView)
    requires
        img.wf(),
    ensures
        img.flipped_horizontally().flipped_horizontally() == img,
{
    let c = img.channels() as int;
    let w = img.width as int;
    let h = img.height as int;
    let once = img.flipped_horizontally();
    let twice = once.flipped_horizontally();
    if img.bytes.len() == 0 {
        assert(twice.bytes =~= img.bytes);
    } else {
        assert(0 < w) by (nonlinear_arith)
            requires
                0 < w * h * c,
                0 <= w,
                0 <= h,
                0 <= c,
        ;
        assert forall|i: int| 0 <= i < img.bytes.len() implies twice.bytes[i] == img.bytes[i] by {
            lemma_pixel_decompose(i, w, h, c);
            let p = i / c;
            let k = i % c;
            let px = p % w;
            let py = p / w;
            let j = (py * w + (w - 1 - px)) * c + k;
            lemma_pixel_in_buffer(w, h, c, w - 1 - px, py);
            lemma_join(py * w + (w - 1 - px), k, c);
            lemma_join(py, w - 1 - px, w);
            assert(j / c == py * w + (w - 1 - px) && j % c == k);
            assert(j / c / w == py && (j / c) % w == w - 1 - px);
            assert(twice.bytes[i] == once.bytes[j]);
            assert(once.bytes[j] == img.bytes[(py * w + (w - 1 - (w - 1 - px))) * c + k]);
            assert((py * w + px) * c + k == i);
        }
        assert(twice.bytes =~= img.bytes);
    }
    assert(twice =~= img);
}

/// Law: cropping an image at its own bounds preserves its content exactly.
pub proof fn lemma_cut_identity(img: ImageView)
    requires
        img.wf(),
    ensures
        img.cropped(0, 0, img.width as int, img.height as int) == img,
{
    let c = img.channels() as int;
    let w = img.width as int;
    let h = img.height as int;
    let crop = img.cropped(0, 0, w, h);
    assert(crop.bytes.len() == img.bytes.len());
    if img.bytes.len() == 0 {
        assert(crop.bytes =~= img.bytes);
    } else {
        assert(0 < w) by (nonlinear_arith)
            requires
                0 < w * h * c,
                0 <= w,
                0 <= h,
                0 <= c,
        ;
        assert forall|i: int| 0 <= i < img.bytes.len() implies crop.bytes[i] == img.bytes[i] by {
            lemma_pixel_decompose(i, w, h, c);
        }
        assert(crop.bytes =~= img.bytes);
    }
    assert(crop =~= img);
}

/// Law: a cropped pixel whose source coordinate falls outside the source
/// image reads as universal color `0`.
#[verifier::rlimit(50)]
pub proof fn lemma_cut_outside(img: ImageView, x: int, y: int, w: int, h: int, ox: int, oy: int)
    requires
        img.wf(),
        0 < w,
        0 <= ox < w,
        0 <= oy < h,
        !img.in_bounds(x + ox, y + oy),
    ensures
        img.cropped(x, y, w, h).pixel(ox, oy) == 0u32,
{
    let c = img.channels() as int;
    let crop = img.cropped(x, y, w, h);
    lemma_offsets_in_run(img.format);
    assert(crop.bytes.len() == w * h * c);
    lemma_pixel_in_buffer(w, h, c, ox, oy);
    let start = (oy * w + ox) * c;
    assert forall|k: int| 0 <= k < c implies crop.bytes[start + k] == encode_byte(
        img.format,
        0,
        k,
    ) by {
        lemma_join(oy * w + ox, k, c);
        lemma_join(oy, ox, w);
        assert((start + k) / c == oy * w + ox && (start + k) % c == k);
    }
    assert(crop.pixel_bytes(ox, oy) =~= encode_spec(img.format, 0).subrange(0, c));
    assert(crop.pixel(ox, oy) == crate::codec::decode_spec(
        img.format,
        encode_spec(img.format, 0),
    ));
    crate::codec::lemma_codec_round_trip(img.format, 0);
    assert(0u32 & 0xffffff == 0u32) by (bit_vector);
}

} // verus!
