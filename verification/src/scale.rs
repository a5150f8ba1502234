use vstd::arithmetic::div_mod::lemma_div_pos_is_pos;
use vstd::arithmetic::div_mod::lemma_multiply_divide_le;
use vstd::arithmetic::div_mod::lemma_multiply_divide_lt;
use vstd::prelude::*;

use crate::geom::lemma_join;
use crate::geom::lemma_split;
use crate::image::lemma_pixel_in_buffer;
use crate::image::Image;
use crate::image::ImageView;

verus! {

// The bilinear resample maps target index `t` on an axis of `tgt` pixels to
// the exact rational source coordinate `t * (src - 1) / (tgt - 1)`, kept as
// a numerator and a denominator. A target axis of one pixel (where the
// mapping would divide by zero) samples source coordinate `0`: every source
// pixel on that axis collapses to the first one.

/// Numerator of the source coordinate sampled for target index `t`.
pub open spec fn sample_num(src: int, tgt: int, t: int) -> int {
    if tgt <= 1 {
        0
    } else {
        t * (src - 1)
    }
}

/// Denominator of the source coordinate mapping.
pub open spec fn sample_den(tgt: int) -> int {
    if tgt <= 1 {
        1
    } else {
        tgt - 1
    }
}

/// The whole part of the sampled source coordinate: the lower sample.
pub open spec fn sample_lo(src: int, tgt: int, t: int) -> int {
    sample_num(src, tgt, t) / sample_den(tgt)
}

/// The fractional part of the sampled source coordinate, as a remainder
/// against `sample_den`.
pub open spec fn sample_rem(src: int, tgt: int, t: int) -> int {
    sample_num(src, tgt, t) % sample_den(tgt)
}

/// The upper sample: the next source index when the coordinate has a
/// fractional part, clamped to the last source index.
pub open spec fn sample_hi(src: int, tgt: int, t: int) -> int {
    let up = sample_lo(src, tgt, t) + (if sample_rem(src, tgt, t) > 0 {
        1int
    } else {
        0int
    });
    if up > src - 1 {
        src - 1
    } else {
        up
    }
}

/// Bilinear blend of four corner bytes with horizontal weight `rx / dx` and
/// vertical weight `ry / dy`, rounded to the nearest integer (ties up).
pub open spec fn blend(tl: u8, tr: u8, bl: u8, br: u8, rx: int, dx: int, ry: int, dy: int) -> int {
    let top = (tl as int) * (dx - rx) + (tr as int) * rx;
    let bottom = (bl as int) * (dx - rx) + (br as int) * rx;
    (top * (dy - ry) + bottom * ry + (dx * dy) / 2) / (dx * dy)
}

impl ImageView {
    /// One byte of the image bilinearly resampled to `tw x th`.
    pub open spec fn scaled_byte(self, tw: int, th: int, i: int) -> u8 {
        let c = self.channels() as int;
        let w = self.width as int;
        let h = self.height as int;
        let p = i / c;
        let k = i % c;
        let x = p % tw;
        let y = p / tw;
        let x0 = sample_lo(w, tw, x);
        let x1 = sample_hi(w, tw, x);
        let rx = sample_rem(w, tw, x);
        let dx = sample_den(tw);
        let y0 = sample_lo(h, th, y);
        let y1 = sample_hi(h, th, y);
        let ry = sample_rem(h, th, y);
        let dy = sample_den(th);
        blend(
            self.bytes[(y0 * w + x0) * c + k],
            self.bytes[(y0 * w + x1) * c + k],
            self.bytes[(y1 * w + x0) * c + k],
            self.bytes[(y1 * w + x1) * c + k],
            rx,
            dx,
            ry,
            dy,
        ) as u8
    }

    /// The image bilinearly resampled to `tw x th` pixels.
    pub open spec fn scaled(self, tw: int, th: int) -> ImageView {
        ImageView {
            width: tw as nat,
            height: th as nat,
            format: self.format,
            bytes: Seq::new(
                ((tw * th * (self.channels() as int)) as nat),
                |i: int| self.scaled_byte(tw, th, i),
            ),
        }
    }
}

/// The sampled source coordinates stay on the axis: both samples lie before
/// `src`, the lower one never exceeds the upper one, and the fractional
/// part stays below the denominator.
proof fn lemma_sample_bounds(src: int, tgt: int, t: int)
    requires
        0 < src,
        0 <= t < tgt,
    ensures
        0 < sample_den(tgt),
        0 <= sample_rem(src, tgt, t) < sample_den(tgt),
        0 <= sample_lo(src, tgt, t) <= sample_hi(src, tgt, t) <= src - 1,
        sample_num(src, tgt, t) == sample_den(tgt) * sample_lo(src, tgt, t) + sample_rem(
            src,
            tgt,
            t,
        ),
{
    let num = sample_num(src, tgt, t);
    let den = sample_den(tgt);
    if tgt <= 1 {
        lemma_split(0, 1);
    } else {
        assert(0 <= num && num <= den * (src - 1)) by (nonlinear_arith)
            requires
                num == t * (src - 1),
                den == tgt - 1,
                0 <= t <= tgt - 1,
                0 < src,
        ;
        lemma_split(num, den);
        lemma_multiply_divide_le(num, den, src - 1);
    }
}

/// A rounded bilinear blend of bytes is itself a byte value.
proof fn lemma_blend_bounds(tl: u8, tr: u8, bl: u8, br: u8, rx: int, dx: int, ry: int, dy: int)
    requires
        0 <= rx < dx,
        0 <= ry < dy,
    ensures
        0 <= blend(tl, tr, bl, br, rx, dx, ry, dy) < 256,
{
    let top = (tl as int) * (dx - rx) + (tr as int) * rx;
    let bottom = (bl as int) * (dx - rx) + (br as int) * rx;
    assert(0 <= top <= 255 * dx && 0 <= bottom <= 255 * dx) by (nonlinear_arith)
        requires
            0 <= rx < dx,
            top == (tl as int) * (dx - rx) + (tr as int) * rx,
            bottom == (bl as int) * (dx - rx) + (br as int) * rx,
            0 <= tl as int <= 255,
            0 <= tr as int <= 255,
            0 <= bl as int <= 255,
            0 <= br as int <= 255,
    ;
    let num = top * (dy - ry) + bottom * ry + (dx * dy) / 2;
    assert(0 < dx * dy) by (nonlinear_arith)
        requires
            0 < dx,
            0 < dy,
    ;
    lemma_split(dx * dy, 2);
    assert(0 <= num && num < 256 * (dx * dy)) by (nonlinear_arith)
        requires
            num == top * (dy - ry) + bottom * ry + (dx * dy) / 2,
            0 <= top <= 255 * dx,
            0 <= bottom <= 255 * dx,
            0 <= ry < dy,
            0 < dx,
            0 < dx * dy,
            2 * ((dx * dy) / 2) <= dx * dy,
    ;
    lemma_multiply_divide_lt(num, dx * dy, 256);
    lemma_div_pos_is_pos(num, dx * dy);
}

/// Computes the two source indices, the fractional remainder, and the
/// denominator for target index `t` on an axis resampled from `src` to
/// `tgt` pixels.
fn sample_axis(src: usize, tgt: usize, t: usize) -> (r: (usize, usize, u128, u128))
    requires
        0 < src,
        t < tgt,
    ensures
        r.0 == sample_lo(src as int, tgt as int, t as int),
        r.1 == sample_hi(src as int, tgt as int, t as int),
        r.2 == sample_rem(src as int, tgt as int, t as int),
        r.3 == sample_den(tgt as int),
        r.0 < src,
        r.1 < src,
        0 <= r.2 < r.3,
{
    proof {
        lemma_sample_bounds(src as int, tgt as int, t as int);
    }
    if tgt <= 1 {
        (0, 0, 0, 1)
    } else {
        proof {
            vstd::arithmetic::mul::lemma_mul_upper_bound(
                t as int,
                0xffff_ffff_ffff_ffff,
                (src - 1) as int,
                0xffff_ffff_ffff_ffff,
            );
        }
        let num: u128 = (t as u128) * ((src - 1) as u128);
        let den: u128 = (tgt - 1) as u128;
        let lo128: u128 = num / den;
        let rem: u128 = num % den;
        let lo: usize = lo128 as usize;
        let hi: usize = if rem > 0 {
            if lo + 1 < src {
                lo + 1
            } else {
                src - 1
            }
        } else {
            lo
        };
        (lo, hi, rem, den)
    }
}

/// Blends one channel of the four corner pixels with the given weights,
/// rounding to the nearest integer.
fn blend_channel(tl: u8, tr: u8, bl: u8, br: u8, rx: u128, dx: u128, ry: u128, dy: u128) -> (v: u8)
    requires
        rx < dx,
        ry < dy,
        dx * dy <= 0xffff_ffff_ffff_ffff,
    ensures
        v == blend(tl, tr, bl, br, rx as int, dx as int, ry as int, dy as int),
{
    proof {
        lemma_blend_bounds(tl, tr, bl, br, rx as int, dx as int, ry as int, dy as int);
        assert(dx <= dx * dy && dy <= dx * dy) by (nonlinear_arith)
            requires
                0 < dx,
                0 < dy,
        ;
        assert((tl as u128) * (dx - rx) + (tr as u128) * rx <= 255 * dx && (bl as u128) * (dx - rx)
            + (br as u128) * rx <= 255 * dx) by (nonlinear_arith)
            requires
                0 <= rx < dx,
                tl as u128 <= 255,
                tr as u128 <= 255,
                bl as u128 <= 255,
                br as u128 <= 255,
        ;
        assert(255 * dx * (dy - ry) + 255 * dx * ry == 255 * (dx * dy)) by (nonlinear_arith);
    }
    let top: u128 = (tl as u128) * (dx - rx) + (tr as u128) * rx;
    let bottom: u128 = (bl as u128) * (dx - rx) + (br as u128) * rx;
    proof {
        assert(top * (dy - ry) + bottom * ry <= 255 * (dx * dy)) by (nonlinear_arith)
            requires
                0 <= top <= 255 * dx,
                0 <= bottom <= 255 * dx,
                0 <= ry < dy,
                0 < dx,
        ;
    }
    let num: u128 = top * (dy - ry) + bottom * ry + (dx * dy) / 2;
    let v128: u128 = num / (dx * dy);
    v128 as u8
}

impl Image {
    /// Scales the image to the desired width and height with a bilinear
    /// resample over exact integer ratios, returning a new image and
    /// leaving the source untouched. Scaling to the image's own size
    /// returns an identical copy. A target axis of one pixel samples
    /// source coordinate `0` on that axis.
    pub fn scale_to_new(&self, target_width: usize, target_height: usize) -> (r: Image)
        requires
            self@.wf(),
            target_width * target_height * self@.channels() <= usize::MAX,
            target_width > 0 && target_height > 0 ==> self@.width > 0 && self@.height > 0,
        ensures
            r@.wf(),
            target_width == self@.width && target_height == self@.height ==> r@ == self@,
            !(target_width == self@.width && target_height == self@.height) ==> r@ == self@.scaled(
                target_width as int,
                target_height as int,
            ),
    {
        if target_width == self.width && target_height == self.height {
            let copy = Image::from_raw_data(
                self.data.as_slice(),
                self.width,
                self.height,
                self.pixel_format,
            );
            proof {
                assert(copy@ =~= self@);
            }
            return copy;
        }
        let ghost orig = self@;
        let ghost target = orig.scaled(target_width as int, target_height as int);
        let tw: usize = target_width;
        let th: usize = target_height;
        let w: usize = self.width;
        let h: usize = self.height;
        let c: usize = self.pixel_format.channel_count();
        if tw == 0 || th == 0 {
            proof {
                assert((tw as int) * (th as int) * (c as int) == 0) by (nonlinear_arith)
                    requires
                        tw as int == 0 || th as int == 0,
                ;
            }
            let empty = Image::from_raw_data_vec(Vec::new(), tw, th, self.pixel_format);
            proof {
                assert(empty@.bytes =~= target.bytes);
                assert(empty@ =~= target);
            }
            return empty;
        }
        proof {
            assert((tw as int) * (th as int) * (c as int) == ((tw as int) * (th as int)) * (
            c as int) && (if 0 < tw && 0 < th {
                ((tw as int) - 1) * ((th as int) - 1) <= (tw as int) * (th as int) * (c as int)
            } else {
                true
            })) by (nonlinear_arith)
                requires
                    0 <= tw as int,
                    0 <= th as int,
                    3 <= c as int,
            ;
        }
        let mut out: Vec<u8> = Vec::new();
        let mut y: usize = 0;
        while y < th
            invariant
                self@ == orig,
                orig.wf(),
                w == orig.width,
                h == orig.height,
                c == orig.channels(),
                0 < w,
                0 < h,
                (tw as int) * (th as int) * (c as int) <= usize::MAX,
                target == orig.scaled(tw as int, th as int),
                target.bytes.len() == (tw as int) * (th as int) * (c as int),
                y <= th,
                out@.len() == (y as int) * (tw as int) * (c as int),
                forall|i: int| 0 <= i < out@.len() ==> out@[i] == target.bytes[i],
            decreases th - y,
        {
            let (y0, y1, ry, dy) = sample_axis(h, th, y);
            let mut x: usize = 0;
            while x < tw
                invariant
                    self@ == orig,
                    orig.wf(),
                    w == orig.width,
                    h == orig.height,
                    c == orig.channels(),
                    0 < w,
                    0 < h,
                    (tw as int) * (th as int) * (c as int) <= usize::MAX,
                    target == orig.scaled(tw as int, th as int),
                    target.bytes.len() == (tw as int) * (th as int) * (c as int),
                    y < th,
                    x <= tw,
                    y0 == sample_lo(h as int, th as int, y as int),
                    y1 == sample_hi(h as int, th as int, y as int),
                    ry == sample_rem(h as int, th as int, y as int),
                    dy == sample_den(th as int),
                    y0 < h,
                    y1 < h,
                    ry < dy,
                    out@.len() == ((y as int) * (tw as int) + x as int) * (c as int),
                    forall|i: int| 0 <= i < out@.len() ==> out@[i] == target.bytes[i],
                decreases tw - x,
            {
                let (x0, x1, rx, dx) = sample_axis(w, tw, x);
                proof {
                    lemma_pixel_in_buffer(w as int, h as int, c as int, x0 as int, y0 as int);
                    lemma_pixel_in_buffer(w as int, h as int, c as int, x1 as int, y0 as int);
                    lemma_pixel_in_buffer(w as int, h as int, c as int, x0 as int, y1 as int);
                    lemma_pixel_in_buffer(w as int, h as int, c as int, x1 as int, y1 as int);
                    lemma_pixel_in_buffer(tw as int, th as int, c as int, x as int, y as int);
                    assert(dx as int <= tw as int && dy as int <= th as int);
                    assert((dx as int) * (dy as int) <= (tw as int) * (th as int) && 0 < (
                    dx as int) * (dy as int) && (tw as int) * (th as int) <= (tw as int) * (
                    th as int) * (c as int)) by (nonlinear_arith)
                        requires
                            0 < dx as int,
                            0 < dy as int,
                            dx as int <= tw as int,
                            dy as int <= th as int,
                            0 < tw as int,
                            0 < th as int,
                            3 <= c as int,
                    ;
                }
                let mut ch: usize = 0;
                while ch < c
                    invariant
                        self@ == orig,
                        orig.wf(),
                        w == orig.width,
                        h == orig.height,
                        c == orig.channels(),
                        0 < w,
                        0 < h,
                        (tw as int) * (th as int) * (c as int) <= usize::MAX,
                        target == orig.scaled(tw as int, th as int),
                        target.bytes.len() == (tw as int) * (th as int) * (c as int),
                        y < th,
                        x < tw,
                        ch <= c,
                        y0 == sample_lo(h as int, th as int, y as int),
                        y1 == sample_hi(h as int, th as int, y as int),
                        ry == sample_rem(h as int, th as int, y as int),
                        dy == sample_den(th as int),
                        x0 == sample_lo(w as int, tw as int, x as int),
                        x1 == sample_hi(w as int, tw as int, x as int),
                        rx == sample_rem(w as int, tw as int, x as int),
                        dx == sample_den(tw as int),
                        y0 < h,
                        y1 < h,
                        x0 < w,
                        x1 < w,
                        rx < dx,
                        ry < dy,
                        (dx as int) * (dy as int) <= 0xffff_ffff_ffff_ffff,
                        out@.len() == ((y as int) * (tw as int) + x as int) * (c as int)
                            + ch as int,
                        forall|i: int| 0 <= i < out@.len() ==> out@[i] == target.bytes[i],
                    decreases c - ch,
                {
                    proof {
                        vstd::std_specs::vec::axiom_spec_len(&self.data);
                        lemma_pixel_in_buffer(w as int, h as int, c as int, x0 as int, y0 as int);
                        lemma_pixel_in_buffer(w as int, h as int, c as int, x1 as int, y0 as int);
                        lemma_pixel_in_buffer(w as int, h as int, c as int, x0 as int, y1 as int);
                        lemma_pixel_in_buffer(w as int, h as int, c as int, x1 as int, y1 as int);
                        lemma_pixel_in_buffer(tw as int, th as int, c as int, x as int, y as int);
                    }
                    let tl: u8 = self.data[(y0 * w + x0) * c + ch];
                    let tr: u8 = self.data[(y0 * w + x1) * c + ch];
                    let bl: u8 = self.data[(y1 * w + x0) * c + ch];
                    let br: u8 = self.data[(y1 * w + x1) * c + ch];
                    let v: u8 = blend_channel(tl, tr, bl, br, rx, dx, ry, dy);
                    proof {
                        let i = ((y as int) * (tw as int) + x as int) * (c as int) + ch as int;
                        lemma_join((y as int) * (tw as int) + x as int, ch as int, c as int);
                        lemma_join(y as int, x as int, tw as int);
                        assert(i / (c as int) == (y as int) * (tw as int) + x as int && i % (
                        c as int) == ch as int);
                        assert(target.bytes[i] == orig.scaled_byte(tw as int, th as int, i));
                    }
                    out.push(v);
                    ch = ch + 1;
                }
                proof {
                    assert((((y as int) * (tw as int) + x as int)) * (c as int) + (c as int) == (((
                    y as int) * (tw as int) + x as int) + 1) * (c as int)) by (nonlinear_arith);
                }
                x = x + 1;
            }
            proof {
                assert(((y as int) * (tw as int) + tw as int) * (c as int) == ((y as int) + 1) * (
                tw as int) * (c as int) && ((y as int) + 1) * (tw as int) * (c as int) == (((
                y as int) + 1) * (tw as int)) * (c as int)) by (nonlinear_arith);
            }
            y = y + 1;
        }
        proof {
            assert((th as int) * (tw as int) * (c as int) == (tw as int) * (th as int) * (c as int))
                by (nonlinear_arith);
            assert(out@ =~= target.bytes);
        }
        let scaled_image = Image::from_raw_data_vec(out, tw, th, self.pixel_format);
        proof {
            assert(scaled_image@ =~= target);
        }
        scaled_image
    }

    /// Scales the image in place to the desired width and height with a
    /// bilinear resample; scaling to the current size changes nothing. The
    /// width, height, and buffer are replaced together.
    pub fn scale(&mut self, target_width: usize, target_height: usize)
        requires
            old(self)@.wf(),
            target_width * target_height * old(self)@.channels() <= usize::MAX,
            target_width > 0 && target_height > 0 ==> old(self)@.width > 0 && old(self)@.height
                > 0,
        ensures
            final(self)@.wf(),
            target_width == old(self)@.width && target_height == old(self)@.height ==> final(self)@
                == old(self)@,
            !(target_width == old(self)@.width && target_height == old(self)@.height) ==> (final(
            self)@ == old(self)@.scaled(target_width as int, target_height as int)),
    {
        if target_width == self.width && target_height == self.height {
            return ;
        }
        let scaled_image = self.scale_to_new(target_width, target_height);
        *self = scaled_image;
    }
}

} // verus!
