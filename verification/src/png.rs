use std::io::Cursor;

use vstd::prelude::*;

use crate::format::PixelFormat;
use crate::image::zero_vec;
use crate::image::Image;
use crate::image::ImageView;

verus! {

#[verifier::external_type_specification]
#[verifier::external_body]
pub struct ExPngColorType(::png::ColorType);

/// Holds a `png::Reader` over an in-memory byte stream. The reader's type
/// cannot be declared to the verifier (its generics are bounded by io
/// traits), so this struct is opaque and every use goes through the trusted
/// functions below.
#[verifier::external_body]
struct PngReader<'a> {
    inner: ::png::Reader<Cursor<&'a [u8]>>,
}

/// Relies on std's `Cursor::new`, `png::Decoder::new`, and
/// `png::Decoder::read_info`: wraps the byte slice in a seekable reader and
/// parses the PNG header chunks, handing back a frame reader, or `None` on
/// malformed input. The three calls share this body because the decoder and
/// cursor types cannot be declared to the verifier.
#[verifier::external_body]
fn png_open<'a>(data: &'a [u8]) -> Option<PngReader<'a>> {
    match ::png::Decoder::new(Cursor::new(data)).read_info() {
        Ok(inner) => Some(PngReader { inner }),
        Err(_) => None,
    }
}

/// Relies on `png::Reader::output_buffer_size`: the byte count one decoded
/// frame needs, `None` when it would not fit in memory; its documentation
/// promises a value below `isize::MAX`.
#[verifier::external_body]
fn png_output_buffer_size<'a>(reader: &PngReader<'a>) -> (r: Option<usize>)
    ensures
        r is Some ==> r.unwrap() <= isize::MAX as usize,
{
    reader.inner.output_buffer_size()
}

/// Relies on `png::Reader::next_frame`: decodes the next frame into `buf`
/// and reports the frame's width, height, line byte length, and color type.
/// The call writes through the borrowed slice, so the buffer keeps its
/// length.
#[verifier::external_body]
fn png_next_frame<'a>(reader: &mut PngReader<'a>, buf: &mut Vec<u8>) -> (r: Option<
    (u32, u32, usize, ::png::ColorType),
>)
    ensures
        final(buf)@.len() == old(buf)@.len(),
{
    match reader.inner.next_frame(buf.as_mut_slice()) {
        Ok(info) => Some((info.width, info.height, info.line_size, info.color_type)),
        Err(_) => None,
    }
}

/// Relies on `png::ColorType::samples`: the number of bytes per pixel of
/// the decoded output, between one and four.
#[verifier::external_body]
fn png_color_samples(color_type: &::png::ColorType) -> (r: usize)
    ensures
        1 <= r <= 4,
{
    color_type.samples()
}

/// Builds an image from one decoded frame, accepting it only when the
/// frame's byte count is consistent: `line_size * height` bytes that fill
/// exactly `width * height` pixels of the given format and fit in the
/// decoded buffer. The image's bytes are that prefix of `buf`.
pub fn image_from_frame(
    buf: Vec<u8>,
    frame_width: u32,
    frame_height: u32,
    line_size: usize,
    pixfmt: PixelFormat,
) -> (r: Option<Image>)
    ensures
        r is Some <==> {
            let need = (frame_width as int) * (frame_height as int) * (
            pixfmt.spec_channel_count() as int);
            need <= usize::MAX && (line_size as int) * (frame_height as int) == need && need
                <= buf@.len()
        },
        r is Some ==> r.unwrap()@ == (ImageView {
            width: frame_width as nat,
            height: frame_height as nat,
            format: pixfmt,
            bytes: buf@.subrange(
                0,
                (frame_width as int) * (frame_height as int) * (
                pixfmt.spec_channel_count() as int),
            ),
        }),
        r is Some ==> r.unwrap()@.wf(),
{
    let c: usize = pixfmt.channel_count();
    let w: usize = frame_width as usize;
    let h: usize = frame_height as usize;
    proof {
        assert((w as int) * (h as int) <= 0xffff_ffff * 0xffff_ffff && (w as int) * (h as int) * (
        c as int) <= 0xffff_ffff * 0xffff_ffff * 4 && (line_size as int) * (h as int)
            <= 0xffff_ffff_ffff_ffff * 0xffff_ffff && (w as int) * (h as int) * (c as int) == ((
        w as int) * (h as int)) * (c as int) && (w as int) * (h as int) <= ((w as int) * (
        h as int)) * (c as int)) by (nonlinear_arith)
            requires
                0 <= w as int <= 0xffff_ffff,
                0 <= h as int <= 0xffff_ffff,
                0 <= line_size as int <= 0xffff_ffff_ffff_ffff,
                1 <= c as int <= 4,
        ;
    }
    let need128: u128 = (w as u128) * (h as u128) * (c as u128);
    let frame128: u128 = (line_size as u128) * (h as u128);
    if need128 > usize::MAX as u128 {
        return None;
    }
    if frame128 != need128 {
        return None;
    }
    let need: usize = (w * h) * c;
    let mut bytes = buf;
    if need > bytes.len() {
        return None;
    }
    bytes.truncate(need);
    Some(Image::from_raw_data_vec(bytes, w, h, pixfmt))
}

/// Decodes a PNG byte stream into an image: four-sample frames become
/// `RGBA`, three-sample frames become `RGB`, and anything else — malformed
/// data, other color types, or a frame whose byte count does not match its
/// dimensions — yields `None`. A returned image always satisfies the buffer
/// invariant.
pub fn from_png_data(data: &[u8]) -> (r: Option<Image>)
    ensures
        r is Some ==> r.unwrap()@.wf(),
        r is Some ==> (r.unwrap()@.format == PixelFormat::RGBA || r.unwrap()@.format
            == PixelFormat::RGB),
{
    let mut reader = match png_open(data) {
        Some(reader) => reader,
        None => {
            return None;
        },
    };
    let size: usize = match png_output_buffer_size(&reader) {
        Some(size) => size,
        None => {
            return None;
        },
    };
    let mut buf = zero_vec(size);
    let (frame_width, frame_height, line_size, color_type) = match png_next_frame(
        &mut reader,
        &mut buf,
    ) {
        Some(frame) => frame,
        None => {
            return None;
        },
    };
    let samples: usize = png_color_samples(&color_type);
    let pixfmt = if samples == 4 {
        PixelFormat::RGBA
    } else if samples == 3 {
        PixelFormat::RGB
    } else {
        return None;
    };
    image_from_frame(buf, frame_width, frame_height, line_size, pixfmt)
}

} // verus!
