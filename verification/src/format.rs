use vstd::prelude::*;

verus! {

/// The supported packed pixel layouts. Each variant fixes how the bytes of
/// one stored pixel map onto the channels of the universal `0xAARRGGBB`
/// color value: a variant's name spells the channel order of the 32-bit
/// value whose little-endian bytes are the stored pixel.
#[derive(Debug, Copy, Clone, PartialEq, Eq, Structural)]
pub enum PixelFormat {
    RGBA,
    ARGB,
    BGRA,
    ABGR,
    RGB,
    BGR,
}

/// Describes where each channel of the universal `0xAARRGGBB` value sits
/// inside a stored pixel, as bit shifts. A field value of `8 * k` means the
/// channel is stored in byte `k` of the pixel's byte run; `a` is `None` for
/// the alpha-less three-byte formats.
pub struct PixelFormatOffset {
    pub r: usize,
    pub g: usize,
    pub b: usize,
    pub a: Option<usize>,
}

impl PixelFormat {
    /// Number of bytes (channels) that one pixel occupies in this format.
    pub open spec fn spec_channel_count(&self) -> nat {
        match self {
            PixelFormat::RGBA => 4,
            PixelFormat::ARGB => 4,
            PixelFormat::BGRA => 4,
            PixelFormat::ABGR => 4,
            PixelFormat::RGB => 3,
            PixelFormat::BGR => 3,
        }
    }

    /// Byte offset of the red channel within a pixel's byte run.
    pub open spec fn red_off(&self) -> nat {
        match self {
            PixelFormat::RGBA => 3,
            PixelFormat::ARGB => 2,
            PixelFormat::BGRA => 1,
            PixelFormat::ABGR => 0,
            PixelFormat::RGB => 2,
            PixelFormat::BGR => 0,
        }
    }

    /// Byte offset of the green channel within a pixel's byte run.
    pub open spec fn green_off(&self) -> nat {
        match self {
            PixelFormat::RGBA => 2,
            PixelFormat::ARGB => 1,
            PixelFormat::BGRA => 2,
            PixelFormat::ABGR => 1,
            PixelFormat::RGB => 1,
            PixelFormat::BGR => 1,
        }
    }

    /// Byte offset of the blue channel within a pixel's byte run.
    pub open spec fn blue_off(&self) -> nat {
        match self {
            PixelFormat::RGBA => 1,
            PixelFormat::ARGB => 0,
            PixelFormat::BGRA => 3,
            PixelFormat::ABGR => 2,
            PixelFormat::RGB => 0,
            PixelFormat::BGR => 2,
        }
    }

    /// Byte offset of the alpha channel, absent for three-byte formats.
    pub open spec fn alpha_off(&self) -> Option<nat> {
        match self {
            PixelFormat::RGBA => Some(0nat),
            PixelFormat::ARGB => Some(3nat),
            PixelFormat::BGRA => Some(0nat),
            PixelFormat::ABGR => Some(3nat),
            PixelFormat::RGB => None,
            PixelFormat::BGR => None,
        }
    }

    /// Whether the format stores an alpha channel.
    pub open spec fn has_alpha(&self) -> bool {
        self.alpha_off() is Some
    }

    /// Converts pixel format to channel count.
    pub fn channel_count(&self) -> (n: usize)
        ensures
            n == self.spec_channel_count(),
    {
        match self {
            PixelFormat::RGBA => 4,
            PixelFormat::ARGB => 4,
            PixelFormat::BGRA => 4,
            PixelFormat::ABGR => 4,
            PixelFormat::RGB => 3,
            PixelFormat::BGR => 3,
        }
    }

    /// Number of bits one pixel occupies: eight per channel.
    pub fn bits_per_pixel(&self) -> (n: usize)
        ensures
            n == self.spec_channel_count() * 8,
    {
        self.channel_count() * 8
    }

    /// Generates the channel offsets (as bit shifts, eight per byte) for
    /// this pixel format, used to assemble universal `0xAARRGGBB` colors
    /// from stored pixel bytes and back.
    pub fn offsets(&self) -> (pxo: PixelFormatOffset)
        ensures
            pxo.r == self.red_off() * 8,
            pxo.g == self.green_off() * 8,
            pxo.b == self.blue_off() * 8,
            pxo.a is Some <==> self.alpha_off() is Some,
            pxo.a is Some ==> pxo.a.unwrap() == self.alpha_off().unwrap() * 8,
    {
        match self {
            PixelFormat::RGBA => PixelFormatOffset { a: Some(0), r: 24, g: 16, b: 8 },
            PixelFormat::ARGB => PixelFormatOffset { a: Some(24), r: 16, g: 8, b: 0 },
            PixelFormat::BGRA => PixelFormatOffset { a: Some(0), r: 8, g: 16, b: 24 },
            PixelFormat::ABGR => PixelFormatOffset { a: Some(24), r: 0, g: 8, b: 16 },
            PixelFormat::RGB => PixelFormatOffset { a: None, r: 16, g: 8, b: 0 },
            PixelFormat::BGR => PixelFormatOffset { a: None, r: 0, g: 8, b: 16 },
        }
    }
}

} // verus!
