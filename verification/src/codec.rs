use vstd::prelude::*;

use crate::format::PixelFormat;

verus! {

/// Alpha byte of a universal `0xAARRGGBB` color.
pub open spec fn color_a(c: u32) -> u8 {
    ((c >> 24) & 0xff) as u8
}

/// Red byte of a universal `0xAARRGGBB` color.
pub open spec fn color_r(c: u32) -> u8 {
    ((c >> 16) & 0xff) as u8
}

/// Green byte of a universal `0xAARRGGBB` color.
pub open spec fn color_g(c: u32) -> u8 {
    ((c >> 8) & 0xff) as u8
}

/// Blue byte of a universal `0xAARRGGBB` color.
pub open spec fn color_b(c: u32) -> u8 {
    (c & 0xff) as u8
}

/// Assembles a universal `0xAARRGGBB` color from its four channel bytes.
pub open spec fn color_from_channels(a: u8, r: u8, g: u8, b: u8) -> u32 {
    ((a as u32) << 24) | ((r as u32) << 16) | ((g as u32) << 8) | (b as u32)
}

/// The universal color that reading back a just-written color yields: the
/// value itself for formats with an alpha channel, and the value with its
/// alpha byte forced to zero for the three-byte formats.
pub open spec fn masked(fmt: PixelFormat, c: u32) -> u32 {
    if fmt.has_alpha() {
        c
    } else {
        c & 0xffffff
    }
}

/// Universal color read from the first `channel_count` bytes of `bytes`,
/// which hold one pixel in layout `fmt`. The alpha byte of the result is
/// zero when the format stores no alpha channel.
pub open spec fn decode_spec(fmt: PixelFormat, bytes: Seq<u8>) -> u32 {
    color_from_channels(
        match fmt.alpha_off() {
            Some(off) => bytes[off as int],
            None => 0,
        },
        bytes[fmt.red_off() as int],
        bytes[fmt.green_off() as int],
        bytes[fmt.blue_off() as int],
    )
}

/// One byte of the encoding of universal color `c` in layout `fmt`: the
/// channel whose offset is `i`, or zero for the unused trailing byte of a
/// three-byte format.
pub open spec fn encode_byte(fmt: PixelFormat, c: u32, i: int) -> u8 {
    if fmt.alpha_off() == Some(i as nat) {
        color_a(c)
    } else if i == fmt.red_off() {
        color_r(c)
    } else if i == fmt.green_off() {
        color_g(c)
    } else if i == fmt.blue_off() {
        color_b(c)
    } else {
        0
    }
}

/// The four-byte encoding of universal color `c` in layout `fmt`. Only the
/// first `channel_count` bytes are meaningful; the last byte is zero for
/// three-byte formats.
pub open spec fn encode_spec(fmt: PixelFormat, c: u32) -> Seq<u8> {
    Seq::new(4, |i: int| encode_byte(fmt, c, i))
}

/// Reassembling a color from its extracted channel bytes gives the color
/// back; with the alpha byte replaced by zero it gives the color with its
/// top byte cleared.
pub proof fn lemma_channels_compose(c: u32)
    by (bit_vector)
    ensures
        color_from_channels(color_a(c), color_r(c), color_g(c), color_b(c)) == c,
        color_from_channels(0, color_r(c), color_g(c), color_b(c)) == c & 0xffffff,
{
}

/// Round trip of the color codec: decoding the bytes that encode a color
/// yields the color back, except that the alpha byte reads as zero for the
/// alpha-less formats.
pub proof fn lemma_codec_round_trip(fmt: PixelFormat, c: u32)
    ensures
        decode_spec(fmt, encode_spec(fmt, c)) == masked(fmt, c),
{
    lemma_channels_compose(c);
}

/// A pixel byte run survives a decode-encode round trip: re-encoding the
/// universal color read from a pixel reproduces the pixel's bytes, on every
/// byte the format uses.
pub proof fn lemma_encode_decode_identity(fmt: PixelFormat, bytes: Seq<u8>)
    requires
        bytes.len() >= fmt.spec_channel_count(),
    ensures
        forall|k: int|
            0 <= k < fmt.spec_channel_count() ==> encode_spec(
                fmt,
                decode_spec(fmt, bytes),
            )[k] == bytes[k],
{
    let c = decode_spec(fmt, bytes);
    let a = match fmt.alpha_off() {
        Some(off) => bytes[off as int],
        None => 0u8,
    };
    let r = bytes[fmt.red_off() as int];
    let g = bytes[fmt.green_off() as int];
    let b = bytes[fmt.blue_off() as int];
    assert(color_a(color_from_channels(a, r, g, b)) == a
        && color_r(color_from_channels(a, r, g, b)) == r
        && color_g(color_from_channels(a, r, g, b)) == g
        && color_b(color_from_channels(a, r, g, b)) == b) by (bit_vector);
}

} // verus!
