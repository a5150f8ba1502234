//! In-memory raster images with pixel-format-agnostic editing.
//!
//! An [`Image`] owns a packed byte buffer together with its dimensions and a
//! [`PixelFormat`]. Single pixels are read and written through a universal
//! 32-bit `0xAARRGGBB` color value, so the six supported byte layouts can all
//! be addressed uniformly. Geometric transforms (bilinear scale, 90-degree
//! rotations, axis flips, cropping) operate directly on the packed buffer.

pub mod codec;
mod geom;
mod rotate;
mod scale;
mod format;
mod image;

pub mod import;
pub mod png;
pub mod tga;

pub use codec::decode_spec;
pub use codec::encode_spec;
pub use codec::lemma_codec_round_trip;
pub use codec::masked;
pub use format::PixelFormat;
pub use format::PixelFormatOffset;
pub use geom::lemma_cut_identity;
pub use geom::lemma_cut_outside;
pub use geom::lemma_flip_h_involution;
pub use geom::lemma_flip_v_involution;
pub use image::lemma_fill_idempotent;
pub use image::lemma_fill_pixel;
pub use image::lemma_set_get_pixel;
pub use image::lemma_write_pixel_frame;
pub use image::Image;
pub use image::ImageView;
pub use rotate::lemma_rotate_round_trip;
