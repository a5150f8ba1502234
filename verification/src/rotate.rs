use vstd::prelude::*;

use crate::codec::encode_spec;
use crate::geom::lemma_join;
use crate::geom::lemma_pixel_decompose;
use crate::geom::lemma_split;
use crate::image::lemma_buffer_is_rows;
use crate::image::lemma_pixel_in_buffer;
use crate::image::Image;
use crate::image::ImageView;

verus! {

impl ImageView {
    /// The bytes of the column at `x`: the pixel runs of `(x, 0)` through
    /// `(x, height - 1)`, concatenated.
    pub open spec fn column_bytes(self, x: int) -> Seq<u8> {
        let c = self.channels() as int;
        let w = self.width as int;
        Seq::new(
            self.height * self.channels(),
            |i: int| self.bytes[((i / c) * w + x) * c + i % c],
        )
    }

    /// The image rotated a quarter turn to the left: output row `r` is the
    /// source column `width - 1 - r`, top to bottom, and the dimensions are
    /// swapped.
    pub open spec fn rotated_left(self) -> ImageView {
        let c = self.channels() as int;
        let w = self.width as int;
        let h = self.height as int;
        ImageView {
            width: self.height,
            height: self.width,
            format: self.format,
            bytes: Seq::new(
                self.bytes.len(),
                |i: int|
                    {
                        let xn = (i / c) % h;
                        let yn = (i / c) / h;
                        self.bytes[(xn * w + (w - 1 - yn)) * c + i % c]
                    },
            ),
        }
    }

    /// The image rotated a quarter turn to the right: output row `r` is the
    /// source column `r`, bottom to top, and the dimensions are swapped.
    pub open spec fn rotated_right(self) -> ImageView {
        let c = self.channels() as int;
        let w = self.width as int;
        let h = self.height as int;
        ImageView {
            width: self.height,
            height: self.width,
            format: self.format,
            bytes: Seq::new(
                self.bytes.len(),
                |i: int|
                    {
                        let xn = (i / c) % h;
                        let yn = (i / c) / h;
                        self.bytes[((h - 1 - xn) * w + yn) * c + i % c]
                    },
            ),
        }
    }
}

impl Image {
    /// Gets the bytes of the whole column at `column`, or `None` when the
    /// column index lies outside the image.
    pub(crate) fn get_column(&self, column: usize) -> (r: Option<Vec<u8>>)
        requires
            self@.wf(),
        ensures
            r is Some <==> column < self@.width,
            r is Some ==> r.unwrap()@ == self@.column_bytes(column as int),
    {
        if column >= self.width {
            return None;
        }
        let c: usize = self.pixel_format.channel_count();
        let h: usize = self.height;
        let ghost w = self.width as int;
        let mut result: Vec<u8> = Vec::new();
        let mut yy: usize = 0;
        while yy < h
            invariant
                self@.wf(),
                c == self@.channels(),
                h == self@.height,
                w == self@.width as int,
                column < self@.width,
                yy <= h,
                result@.len() == yy * c,
                forall|m: int| 0 <= m < result@.len() ==> result@[m] == self@.column_bytes(
                    column as int,
                )[m],
            decreases h - yy,
        {
            let color: u32 = self.get_pixel(column, yy).unwrap();
            let channels: [u8; 4] = Image::universal_to_preferred(self.pixel_format, color);
            proof {
                lemma_pixel_in_buffer(w, h as int, c as int, column as int, yy as int);
                crate::codec::lemma_encode_decode_identity(
                    self@.format,
                    self@.pixel_bytes(column as int, yy as int),
                );
                crate::image::lemma_offsets_in_run(self@.format);
            }
            let mut k: usize = 0;
            while k < c
                invariant
                    self@.wf(),
                    c == self@.channels(),
                    h == self@.height,
                    w == self@.width as int,
                    column < self@.width,
                    yy < h,
                    k <= c,
                    channels@ == encode_spec(self@.format, color),
                    color == self@.pixel(column as int, yy as int),
                    forall|j: int|
                        0 <= j < c ==> channels@[j] == self@.pixel_bytes(
                            column as int,
                            yy as int,
                        )[j],
                    result@.len() == yy * c + k,
                    forall|m: int| 0 <= m < result@.len() ==> result@[m] == self@.column_bytes(
                        column as int,
                    )[m],
                decreases c - k,
            {
                result.push(channels[k]);
                proof {
                    lemma_pixel_in_buffer(w, h as int, c as int, column as int, yy as int);
                    let m = (yy as int) * (c as int) + (k as int);
                    lemma_join(yy as int, k as int, c as int);
                    assert(m / (c as int) == yy && m % (c as int) == k);
                    assert(0 <= m && m < (self@.height * self@.channels()) as int)
                        by (nonlinear_arith)
                        requires
                            m == (yy as int) * (c as int) + (k as int),
                            0 <= (yy as int) && (yy as int) < (self@.height as int),
                            0 <= (k as int) && (k as int) < (c as int),
                            c as int == self@.channels() as int,
                    ;
                    assert(self@.column_bytes(column as int)[m] == self@.bytes[((yy as int) * w
                        + column) * (c as int) + k]);
                    assert(self@.pixel_bytes(column as int, yy as int)[k as int] == self@.bytes[((
                    yy as int) * w + column) * (c as int) + k]);
                }
                k = k + 1;
            }
            proof {
                assert((yy as int) * (c as int) + (c as int) == ((yy as int) + 1) * (c as int))
                    by (nonlinear_arith);
            }
            yy = yy + 1;
        }
        proof {
            assert(result@ =~= self@.column_bytes(column as int));
        }
        Some(result)
    }

    /// Rotates the image a quarter turn to the left, swapping its width and
    /// height; the top-right source pixel becomes the top-left pixel.
    pub fn rotate_left(&mut self)
        requires
            old(self)@.wf(),
        ensures
            final(self)@.wf(),
            final(self)@ == old(self)@.rotated_left(),
    {
        let ghost orig = self@;
        let ghost target = orig.rotated_left();
        let w: usize = self.width;
        let h: usize = self.height;
        let ghost c = orig.channels() as int;
        let mut buffer: Vec<u8> = Vec::new();
        let mut j: usize = 0;
        while j < w
            invariant
                self@ == orig,
                orig.wf(),
                w == orig.width,
                h == orig.height,
                c == orig.channels() as int,
                target == orig.rotated_left(),
                target.bytes.len() == orig.bytes.len(),
                j <= w,
                buffer@.len() == (j as int) * ((h as int) * c),
                forall|i: int| 0 <= i < buffer@.len() ==> buffer@[i] == target.bytes[i],
            decreases w - j,
        {
            let col: Vec<u8> = self.get_column(w - 1 - j).unwrap();
            let ghost colv = orig.column_bytes(w - 1 - j);
            let mut m: usize = 0;
            let collen: usize = col.len();
            proof {
                assert(collen == (h as int) * c);
                lemma_buffer_is_rows(w as int, h as int, c);
                assert((j as int) * ((h as int) * c) + ((h as int) * c) == ((j + 1) as int) * ((
                h as int) * c) && ((j + 1) as int) * ((h as int) * c) <= (w as int) * ((
                h as int) * c) && (h as int) * ((w as int) * c) == (w as int) * ((h as int) * c))
                    by (nonlinear_arith)
                    requires
                        j < w,
                        0 <= j,
                        0 <= (h as int) * c,
                ;
            }
            while m < collen
                invariant
                    self@ == orig,
                    orig.wf(),
                    w == orig.width,
                    h == orig.height,
                    c == orig.channels() as int,
                    target == orig.rotated_left(),
                    target.bytes.len() == orig.bytes.len(),
                    j < w,
                    m <= collen,
                    collen == (h as int) * c,
                    col@ == colv,
                    colv == orig.column_bytes(w - 1 - j),
                    ((j as int) + 1) * ((h as int) * c) <= target.bytes.len(),
                    buffer@.len() == (j as int) * ((h as int) * c) + m,
                    forall|i: int| 0 <= i < buffer@.len() ==> buffer@[i] == target.bytes[i],
                decreases collen - m,
            {
                proof {
                    lemma_rotate_left_block(orig, j as int, m as int);
                    assert((j as int) * ((h as int) * c) + m < ((j as int) + 1) * ((h as int) * c))
                        by (nonlinear_arith)
                        requires
                            0 <= m < (h as int) * c,
                    ;
                }
                buffer.push(col[m]);
                m = m + 1;
            }
            j = j + 1;
        }
        proof {
            lemma_buffer_is_rows(w as int, h as int, c);
            assert((w as int) * ((h as int) * c) == (h as int) * ((w as int) * c))
                by (nonlinear_arith);
            assert(buffer@ =~= target.bytes);
            assert((h as int) * (w as int) * c == (w as int) * (h as int) * c)
                by (nonlinear_arith);
        }
        self.width = h;
        self.height = w;
        self.data = buffer;
        proof {
            assert(self@ =~= target);
        }
    }

    /// Rotates the image a quarter turn to the right, swapping its width
    /// and height; the bottom-left source pixel becomes the top-left pixel.
    pub fn rotate_right(&mut self)
        requires
            old(self)@.wf(),
        ensures
            final(self)@.wf(),
            final(self)@ == old(self)@.rotated_right(),
    {
        let ghost orig = self@;
        let ghost target = orig.rotated_right();
        let w: usize = self.width;
        let h: usize = self.height;
        let c: usize = self.pixel_format.channel_count();
        let mut buffer: Vec<u8> = Vec::new();
        let mut j: usize = 0;
        while j < w
            invariant
                self@ == orig,
                orig.wf(),
                w == orig.width,
                h == orig.height,
                c == orig.channels(),
                target == orig.rotated_right(),
                target.bytes.len() == orig.bytes.len(),
                j <= w,
                buffer@.len() == (j as int) * ((h as int) * (c as int)),
                forall|i: int| 0 <= i < buffer@.len() ==> buffer@[i] == target.bytes[i],
            decreases w - j,
        {
            let col: Vec<u8> = self.get_column(j).unwrap();
            let ghost colv = orig.column_bytes(j as int);
            proof {
                lemma_buffer_is_rows(w as int, h as int, c as int);
                assert((j as int) * ((h as int) * (c as int)) + ((h as int) * (c as int)) == ((j
                    + 1) as int) * ((h as int) * (c as int)) && ((j + 1) as int) * ((h as int) * (
                c as int)) <= (w as int) * ((h as int) * (c as int)) && (h as int) * ((w as int) * (
                c as int)) == (w as int) * ((h as int) * (c as int))) by (nonlinear_arith)
                    requires
                        j < w,
                        0 <= j,
                        0 <= (h as int) * (c as int),
                ;
            }
            let mut py: usize = 0;
            while py < h
                invariant
                    self@ == orig,
                    orig.wf(),
                    w == orig.width,
                    h == orig.height,
                    c == orig.channels(),
                    target == orig.rotated_right(),
                    target.bytes.len() == orig.bytes.len(),
                    j < w,
                    py <= h,
                    col@ == colv,
                    colv == orig.column_bytes(j as int),
                    colv.len() == (h as int) * (c as int),
                    ((j as int) + 1) * ((h as int) * (c as int)) <= target.bytes.len(),
                    buffer@.len() == (j as int) * ((h as int) * (c as int)) + (py as int) * (
                    c as int),
                    forall|i: int| 0 <= i < buffer@.len() ==> buffer@[i] == target.bytes[i],
                decreases h - py,
            {
                let src: usize = h - 1 - py;
                let mut k: usize = 0;
                proof {
                    vstd::std_specs::vec::axiom_spec_len(&col);
                    assert((src as int) * (c as int) + (c as int) <= (h as int) * (c as int) && (
                    py as int) * (c as int) + (c as int) <= (h as int) * (c as int))
                        by (nonlinear_arith)
                        requires
                            0 <= (src as int) && (src as int) < (h as int),
                            0 <= (py as int) && (py as int) < (h as int),
                            0 < c as int,
                    ;
                }
                while k < c
                    invariant
                        self@ == orig,
                        orig.wf(),
                        w == orig.width,
                        h == orig.height,
                        c == orig.channels(),
                        target == orig.rotated_right(),
                        target.bytes.len() == orig.bytes.len(),
                        j < w,
                        py < h,
                        src == h - 1 - py,
                        k <= c,
                        col@ == colv,
                        colv == orig.column_bytes(j as int),
                        colv.len() == (h as int) * (c as int),
                        (src as int) * (c as int) + (c as int) <= (h as int) * (c as int),
                        ((j as int) + 1) * ((h as int) * (c as int)) <= target.bytes.len(),
                        buffer@.len() == (j as int) * ((h as int) * (c as int)) + (py as int) * (
                        c as int) + (k as int),
                        forall|i: int| 0 <= i < buffer@.len() ==> buffer@[i] == target.bytes[i],
                    decreases c - k,
                {
                    proof {
                        vstd::std_specs::vec::axiom_spec_len(&col);
                        lemma_rotate_right_block(orig, j as int, py as int, k as int);
                        assert((src as int) * (c as int) + (k as int) < (h as int) * (c as int) && (
                        j as int) * ((h as int) * (c as int)) + (py as int) * (c as int) + (k as int)
                            < ((j as int) + 1) * ((h as int) * (c as int))) by (nonlinear_arith)
                            requires
                                (src as int) * (c as int) + (c as int) <= (h as int) * (c as int),
                                0 <= (k as int) && (k as int) < (c as int),
                                0 <= (py as int) && (py as int) < (h as int),
                                0 <= (src as int),
                                0 <= (j as int),
                                0 < (c as int),
                        ;
                    }
                    buffer.push(col[src * c + k]);
                    k = k + 1;
                }
                proof {
                    assert((py as int) * (c as int) + (c as int) == ((py as int) + 1) * (c as int))
                        by (nonlinear_arith);
                }
                py = py + 1;
            }
            j = j + 1;
        }
        proof {
            lemma_buffer_is_rows(w as int, h as int, c as int);
            assert((w as int) * ((h as int) * (c as int)) == (h as int) * ((w as int) * (c as int)))
                by (nonlinear_arith);
            assert(buffer@ =~= target.bytes);
            assert((h as int) * (w as int) * (c as int) == (w as int) * (h as int) * (c as int))
                by (nonlinear_arith);
        }
        self.width = h;
        self.height = w;
        self.data = buffer;
        proof {
            assert(self@ =~= target);
        }
    }
}

/// Byte `m` of the column appended for output row `j` of a left rotation is
/// byte `j * (height * channels) + m` of the rotated image.
proof fn lemma_rotate_left_block(orig: ImageView, j: int, m: int)
    requires
        orig.wf(),
        0 <= j < orig.width,
        0 <= m < (orig.height as int) * (orig.channels() as int),
    ensures
        orig.rotated_left().bytes[j * ((orig.height as int) * (orig.channels() as int)) + m]
            == orig.column_bytes(orig.width - 1 - j)[m],
{
    let c = orig.channels() as int;
    let w = orig.width as int;
    let h = orig.height as int;
    let i = j * (h * c) + m;
    lemma_split(m, c);
    let q = m / c;
    let k = m % c;
    assert(0 <= q < h) by (nonlinear_arith)
        requires
            0 <= m < h * c,
            0 < c,
            q == m / c,
            m == c * q + k,
            0 <= k < c,
    ;
    assert(i == (j * h + q) * c + k) by (nonlinear_arith)
        requires
            i == j * (h * c) + m,
            m == c * q + k,
    ;
    lemma_join(j * h + q, k, c);
    lemma_join(j, q, h);
    assert(i / c == j * h + q && i % c == k);
    assert((i / c) % h == q && (i / c) / h == j);
    lemma_pixel_in_buffer(h, w, c, q, j);
    lemma_pixel_in_buffer(w, h, c, w - 1 - j, q);
    assert(0 <= i < h * w * c && h * w * c == w * h * c) by (nonlinear_arith)
        requires
            0 <= (j * h + q) * c,
            (j * h + q) * c + c <= h * w * c,
            i == (j * h + q) * c + k,
            0 <= k < c,
    ;
    assert(orig.rotated_left().bytes[i] == orig.bytes[(q * w + (w - 1 - j)) * c + k]);
    assert(orig.column_bytes(w - 1 - j)[m] == orig.bytes[(q * w + (w - 1 - j)) * c + k]);
}

/// Byte `k` of the reversed-column pixel appended for output pixel
/// `(py, j)` of a right rotation is the matching byte of the rotated image.
proof fn lemma_rotate_right_block(orig: ImageView, j: int, py: int, k: int)
    requires
        orig.wf(),
        0 <= j < orig.width,
        0 <= py < orig.height,
        0 <= k < orig.channels(),
    ensures
        orig.rotated_right().bytes[j * ((orig.height as int) * (orig.channels() as int)) + py * (
        orig.channels() as int) + k] == orig.column_bytes(j)[((orig.height as int) - 1 - py) * (
        orig.channels() as int) + k],
{
    let c = orig.channels() as int;
    let w = orig.width as int;
    let h = orig.height as int;
    let i = j * (h * c) + py * c + k;
    assert(i == (j * h + py) * c + k) by (nonlinear_arith)
        requires
            i == j * (h * c) + py * c + k,
    ;
    lemma_join(j * h + py, k, c);
    lemma_join(j, py, h);
    assert(i / c == j * h + py && i % c == k);
    assert((i / c) % h == py && (i / c) / h == j);
    lemma_pixel_in_buffer(h, w, c, py, j);
    lemma_pixel_in_buffer(w, h, c, j, h - 1 - py);
    assert(0 <= i < h * w * c && h * w * c == w * h * c) by (nonlinear_arith)
        requires
            0 <= (j * h + py) * c,
            (j * h + py) * c + c <= h * w * c,
            i == (j * h + py) * c + k,
            0 <= k < c,
    ;
    assert(orig.rotated_right().bytes[i] == orig.bytes[((h - 1 - py) * w + j) * c + k]);
    let mm = (h - 1 - py) * c + k;
    lemma_join(h - 1 - py, k, c);
    assert(mm / c == h - 1 - py && mm % c == k);
    assert(0 <= mm && mm < h * c) by (nonlinear_arith)
        requires
            mm == (h - 1 - py) * c + k,
            0 <= h - 1 - py < h,
            0 <= k < c,
    ;
    assert(orig.column_bytes(j)[mm] == orig.bytes[((h - 1 - py) * w + j) * c + k]);
}

/// Law: a left rotation followed by a right rotation (and the other way
/// round) restores the image exactly: its width, height, format, and byte
/// buffer.
pub proof fn lemma_rotate_round_trip(img: ImageView)
    requires
        img.wf(),
    ensures
        img.rotated_left().rotated_right() == img,
        img.rotated_right().rotated_left() == img,
{
    let c = img.channels() as int;
    let w = img.width as int;
    let h = img.height as int;
    let lr = img.rotated_left().rotated_right();
    let rl = img.rotated_right().rotated_left();
    if img.bytes.len() == 0 {
        assert(lr.bytes =~= img.bytes);
        assert(rl.bytes =~= img.bytes);
    } else {
        assert(0 < w && 0 < h) by (nonlinear_arith)
            requires
                0 < w * h * c,
                0 <= w,
                0 <= h,
                0 < c,
        ;
        assert(img.rotated_left().wf() && img.rotated_right().wf() && (h as int) * (w as int) * c
            == w * h * c) by (nonlinear_arith)
            requires
                img.bytes.len() == w * h * c,
                img.rotated_left().bytes.len() == img.bytes.len(),
                img.rotated_right().bytes.len() == img.bytes.len(),
                img.rotated_left().width == h && img.rotated_left().height == w,
                img.rotated_right().width == h && img.rotated_right().height == w,
                img.rotated_left().channels() == c,
                img.rotated_right().channels() == c,
        ;
        assert forall|i: int| 0 <= i < img.bytes.len() implies lr.bytes[i] == img.bytes[i]
            && rl.bytes[i] == img.bytes[i] by {
            lemma_pixel_decompose(i, w, h, c);
            let p = i / c;
            let k = i % c;
            let px = p % w;
            let py = p / w;
            // Left then right: the intermediate image has width h, so the
            // outer sample reads its pixel (py, w - 1 - px).
            let ja = ((w - 1 - px) * h + py) * c + k;
            lemma_pixel_in_buffer(h, w, c, py, w - 1 - px);
            lemma_join((w - 1 - px) * h + py, k, c);
            lemma_join(w - 1 - px, py, h);
            assert(ja / c == (w - 1 - px) * h + py && ja % c == k);
            assert((ja / c) % h == py && (ja / c) / h == w - 1 - px);
            assert(0 <= ja < h * w * c && h * w * c == w * h * c) by (nonlinear_arith)
                requires
                    0 <= ((w - 1 - px) * h + py) * c,
                    ((w - 1 - px) * h + py) * c + c <= h * w * c,
                    ja == ((w - 1 - px) * h + py) * c + k,
                    0 <= k < c,
            ;
            assert(lr.bytes[i] == img.rotated_left().bytes[ja]);
            assert(img.rotated_left().bytes[ja] == img.bytes[(py * w + (w - 1 - (w - 1 - px))) * c
                + k]);
            assert((py * w + px) * c + k == i);
            // Right then left: the intermediate image has width h, so the
            // outer sample reads its pixel (h - 1 - py, px).
            let jb = (px * h + (h - 1 - py)) * c + k;
            lemma_pixel_in_buffer(h, w, c, h - 1 - py, px);
            lemma_join(px * h + (h - 1 - py), k, c);
            lemma_join(px, h - 1 - py, h);
            assert(jb / c == px * h + (h - 1 - py) && jb % c == k);
            assert((jb / c) % h == h - 1 - py && (jb / c) / h == px);
            assert(0 <= jb < h * w * c) by (nonlinear_arith)
                requires
                    0 <= (px * h + (h - 1 - py)) * c,
                    (px * h + (h - 1 - py)) * c + c <= h * w * c,
                    jb == (px * h + (h - 1 - py)) * c + k,
                    0 <= k < c,
            ;
            assert(rl.bytes[i] == img.rotated_right().bytes[jb]);
            assert(img.rotated_right().bytes[jb] == img.bytes[((h - 1 - (h - 1 - py)) * w + px) * c
                + k]);
        }
        assert(lr.bytes =~= img.bytes);
        assert(rl.bytes =~= img.bytes);
    }
    assert(lr =~= img);
    assert(rl =~= img);
}

} // verus!
