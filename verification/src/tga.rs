use vstd::prelude::*;

use crate::codec::color_a;
use crate::codec::color_b;
use crate::codec::color_g;
use crate::codec::color_r;
use crate::format::PixelFormat;
use crate::image::Image;
use crate::image::ImageView;

verus! {

#[verifier::external_type_specification]
#[verifier::external_body]
pub struct ExRawTga<'a>(::tinytga::RawTga<'a>);

#[verifier::external_type_specification]
#[verifier::external_body]
pub struct ExBpp(::tinytga::Bpp);

/// Where the first pixel of a TGA file sits in the image.
#[derive(Debug, Copy, Clone, PartialEq, Eq, Structural)]
pub enum TgaOrigin {
    BottomLeft,
    BottomRight,
    TopLeft,
    TopRight,
}

/// Relies on `tinytga::RawTga::from_slice`: parses the TGA header, color
/// map, and footer, or fails on malformed input.
#[verifier::external_body]
fn tga_from_slice<'a>(data: &'a [u8]) -> Option<::tinytga::RawTga<'a>> {
    match ::tinytga::RawTga::from_slice(data) {
        Ok(raw) => Some(raw),
        Err(_) => None,
    }
}

/// Relies on `tinytga::RawTga::size`: the image's width and height in
/// pixels, as parsed from the header.
#[verifier::external_body]
fn tga_size<'a>(raw: &::tinytga::RawTga<'a>) -> (u32, u32) {
    let size = raw.size();
    (size.width, size.height)
}

/// Relies on `tinytga::RawTga::color_bpp`: the bit depth of the decoded
/// pixel colors.
#[verifier::external_body]
fn tga_color_bpp<'a>(raw: &::tinytga::RawTga<'a>) -> ::tinytga::Bpp {
    raw.color_bpp()
}

/// Relies on `tinytga::Bpp::bits`: the number of bits of a bit depth, one
/// of the four depths the format supports.
#[verifier::external_body]
fn bpp_bits(bpp: ::tinytga::Bpp) -> (r: u8)
    ensures
        r == 8 || r == 16 || r == 24 || r == 32,
{
    bpp.bits()
}

/// Relies on `tinytga::RawTga::image_origin`: which corner of the image the
/// first pixel of the file belongs to, mapped variant by variant onto
/// [`TgaOrigin`].
#[verifier::external_body]
fn tga_image_origin<'a>(raw: &::tinytga::RawTga<'a>) -> TgaOrigin {
    match raw.image_origin() {
        ::tinytga::ImageOrigin::BottomLeft => TgaOrigin::BottomLeft,
        ::tinytga::ImageOrigin::BottomRight => TgaOrigin::BottomRight,
        ::tinytga::ImageOrigin::TopLeft => TgaOrigin::TopLeft,
        ::tinytga::ImageOrigin::TopRight => TgaOrigin::TopRight,
    }
}

/// Relies on `tinytga::RawTga::pixels`: yields the raw pixel values in
/// file order, run-length packets expanded, at most `width * height` of
/// them.
#[verifier::external_body]
fn tga_pixel_colors<'a>(raw: &::tinytga::RawTga<'a>) -> Vec<u32> {
    raw.pixels().map(|pixel| pixel.color).collect()
}

/// The packed byte buffer that a sequence of decoded TGA colors fills: four
/// bytes per pixel (alpha, red, green, blue of the `0xAARRGGBB` value) when
/// `alpha` is set, three (red, green, blue) otherwise.
pub open spec fn tga_bytes(colors: Seq<u32>, alpha: bool) -> Seq<u8> {
    let c: int = if alpha {
        4
    } else {
        3
    };
    Seq::new(
        (colors.len() * (c as nat)),
        |i: int|
            {
                let col = colors[i / c];
                let k = i % c;
                if alpha {
                    if k == 0 {
                        color_a(col)
                    } else if k == 1 {
                        color_r(col)
                    } else if k == 2 {
                        color_g(col)
                    } else {
                        color_b(col)
                    }
                } else {
                    if k == 0 {
                        color_r(col)
                    } else if k == 1 {
                        color_g(col)
                    } else {
                        color_b(col)
                    }
                }
            },
    )
}

/// Builds an image from the decoded TGA pixel colors. The colors fill the
/// buffer in file order; a bottom-left origin is then turned upright by a
/// vertical flip. Accepts only the two origins the format writer produces
/// in practice and exactly `width * height` decoded colors that fit in one
/// buffer.
pub fn image_from_tga_colors(
    colors: Vec<u32>,
    tga_width: u32,
    tga_height: u32,
    alpha: bool,
    origin: TgaOrigin,
) -> (r: Option<Image>)
    ensures
        ({
            let w = tga_width as int;
            let h = tga_height as int;
            let c: int = if alpha {
                4
            } else {
                3
            };
            let fmt = if alpha {
                PixelFormat::RGBA
            } else {
                PixelFormat::RGB
            };
            let flat = ImageView {
                width: w as nat,
                height: h as nat,
                format: fmt,
                bytes: tga_bytes(colors@, alpha),
            };
            &&& r is Some <==> ((origin == TgaOrigin::TopLeft || origin == TgaOrigin::BottomLeft)
                && colors@.len() == w * h && w * h * c <= usize::MAX)
            &&& r is Some ==> r.unwrap()@.wf()
            &&& (r is Some && origin == TgaOrigin::TopLeft) ==> r.unwrap()@ == flat
            &&& (r is Some && origin == TgaOrigin::BottomLeft) ==> r.unwrap()@
                == flat.flipped_vertically()
        }),
{
    let w: usize = tga_width as usize;
    let h: usize = tga_height as usize;
    let c: usize = if alpha {
        4
    } else {
        3
    };
    let fmt = if alpha {
        PixelFormat::RGBA
    } else {
        PixelFormat::RGB
    };
    match origin {
        TgaOrigin::TopLeft => (),
        TgaOrigin::BottomLeft => (),
        _ => {
            return None;
        },
    }
    proof {
        vstd::std_specs::vec::axiom_spec_len(&colors);
        assert((w as int) * (h as int) <= 0xffff_ffff * 0xffff_ffff && (w as int) * (h as int) * (
        c as int) <= 0xffff_ffff * 0xffff_ffff * 4 && (w as int) * (h as int) * (c as int) == ((
        w as int) * (h as int)) * (c as int)) by (nonlinear_arith)
            requires
                0 <= w as int <= 0xffff_ffff,
                0 <= h as int <= 0xffff_ffff,
                1 <= c as int <= 4,
        ;
    }
    let wh128: u128 = (w as u128) * (h as u128);
    let need128: u128 = wh128 * (c as u128);
    if (colors.len() as u128) != wh128 {
        return None;
    }
    if need128 > usize::MAX as u128 {
        return None;
    }
    let n: usize = colors.len();
    let mut bytes: Vec<u8> = Vec::new();
    let mut j: usize = 0;
    while j < n
        invariant
            n == colors@.len(),
            j <= n,
            c == (if alpha {
                4int
            } else {
                3int
            }),
            (n as int) * (c as int) <= usize::MAX,
            bytes@.len() == (j as int) * (c as int),
            forall|i: int| 0 <= i < bytes@.len() ==> bytes@[i] == tga_bytes(colors@, alpha)[i],
        decreases n - j,
    {
        let col: u32 = colors[j];
        if alpha {
            bytes.push(((col >> 24) & 0xff) as u8);
        }
        bytes.push(((col >> 16) & 0xff) as u8);
        bytes.push(((col >> 8) & 0xff) as u8);
        bytes.push((col & 0xff) as u8);
        proof {
            assert forall|k: int| 0 <= k < c implies #[trigger] bytes@[(j as int) * (c as int) + k]
                == tga_bytes(colors@, alpha)[(j as int) * (c as int) + k] by {
                crate::geom::lemma_join(j as int, k, c as int);
                assert(((j as int) * (c as int) + k) / (c as int) == j && ((j as int) * (c as int)
                    + k) % (c as int) == k);
                assert((j as int) * (c as int) + k < (n as int) * (c as int)) by (nonlinear_arith)
                    requires
                        0 <= k < c as int,
                        0 <= j < n as int,
                ;
            }
            assert((j as int) * (c as int) + (c as int) == ((j as int) + 1) * (c as int))
                by (nonlinear_arith);
        }
        j = j + 1;
    }
    proof {
        assert(bytes@ =~= tga_bytes(colors@, alpha));
        assert((n as int) * (c as int) == (w as int) * (h as int) * (c as int));
    }
    let mut out = Image::from_raw_data_vec(bytes, w, h, fmt);
    match origin {
        TgaOrigin::TopLeft => Some(out),
        _ => {
            out.flip_vertically();
            Some(out)
        },
    }
}

/// Decodes a TGA byte stream into an image: 32-bit colors become `RGBA`
/// pixels, every other depth keeps the low three color bytes as `RGB`.
/// Bottom-left-origin files are flipped upright. Malformed data, an
/// unsupported origin, or a pixel count that does not match the header
/// yield `None`. A returned image always satisfies the buffer invariant.
pub fn from_tga_data(data: &[u8]) -> (r: Option<Image>)
    ensures
        r is Some ==> r.unwrap()@.wf(),
        r is Some ==> (r.unwrap()@.format == PixelFormat::RGBA || r.unwrap()@.format
            == PixelFormat::RGB),
{
    let raw = match tga_from_slice(data) {
        Some(raw) => raw,
        None => {
            return None;
        },
    };
    let (tga_width, tga_height) = tga_size(&raw);
    let bits: u8 = bpp_bits(tga_color_bpp(&raw));
    let origin: TgaOrigin = tga_image_origin(&raw);
    let colors: Vec<u32> = tga_pixel_colors(&raw);
    image_from_tga_colors(colors, tga_width, tga_height, bits == 32, origin)
}

} // verus!
