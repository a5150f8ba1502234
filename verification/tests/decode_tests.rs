use rasterimage::import::open;
use rasterimage::png::from_png_data;
use rasterimage::png::image_from_frame;
use rasterimage::tga::from_tga_data;
use rasterimage::tga::image_from_tga_colors;
use rasterimage::tga::TgaOrigin;
use rasterimage::PixelFormat;

/// Encodes one RGBA frame as a PNG byte stream.
fn encode_png_rgba(width: u32, height: u32, pixels: &[u8]) -> Vec<u8> {
    let mut out: Vec<u8> = Vec::new();
    {
        let mut encoder = png::Encoder::new(&mut out, width, height);
        encoder.set_color(png::ColorType::Rgba);
        encoder.set_depth(png::BitDepth::Eight);
        let mut writer = encoder.write_header().unwrap();
        writer.write_image_data(pixels).unwrap();
    }
    out
}

/// A minimal uncompressed true-color TGA byte stream. `descriptor` bit 5
/// picks a top-left (set) or bottom-left (clear) origin; pixels are 3-byte
/// blue-green-red runs in file order.
fn encode_tga_bgr(width: u16, height: u16, descriptor: u8, pixels: &[u8]) -> Vec<u8> {
    let mut out: Vec<u8> = vec![
        0, // no image id
        0, // no color map
        2, // uncompressed true color
        0, 0, 0, 0, 0, // color map specification
        0, 0, // x origin
        0, 0, // y origin
        (width & 0xff) as u8,
        (width >> 8) as u8,
        (height & 0xff) as u8,
        (height >> 8) as u8,
        24, // bits per pixel
        descriptor,
    ];
    out.extend_from_slice(pixels);
    out
}

#[test]
fn png_decode_reads_rgba_pixels() {
    // 2x1: a red pixel and a half-transparent green one, as PNG's
    // red-green-blue-alpha byte runs.
    let raw = [0xff, 0x00, 0x00, 0xff, 0x00, 0xff, 0x00, 0x80];
    let data = encode_png_rgba(2, 1, &raw);
    let img = from_png_data(&data).unwrap();
    assert_eq!(img.width(), 2);
    assert_eq!(img.height(), 1);
    assert_eq!(*img.pixel_format(), PixelFormat::RGBA);
    assert_eq!(img.size(), 8);
    assert_eq!(img.data(), &raw);
    // The `RGBA` layout spells the little-endian bytes of `0xRRGGBBAA`
    // (alpha first in memory), while PNG hands back red-first byte runs, so
    // the universal value reads the stored run in that byte order.
    assert_eq!(img.get_pixel(0, 0).unwrap(), 0xffff0000);
    assert_eq!(img.get_pixel(1, 0).unwrap(), 0x008000ff);
}

#[test]
fn png_decode_rejects_garbage() {
    assert!(from_png_data(&[0u8; 16]).is_none());
    assert!(from_png_data(&[]).is_none());
}

// A decoded TGA pixel stores its red, green, and blue bytes in that order,
// while the `RGB` layout spells the universal value's little-endian bytes:
// blue, green, red. Reading a decoded pixel back through `get_pixel`
// therefore exchanges the red and blue channels, exactly as storing the
// `[r, g, b]` run demands.

#[test]
fn tga_decode_reads_top_left_pixels() {
    // 2x1, top-left origin: red then blue, as blue-green-red byte runs.
    let data = encode_tga_bgr(2, 1, 0x20, &[0x00, 0x00, 0xff, 0xff, 0x00, 0x00]);
    let img = from_tga_data(&data).unwrap();
    assert_eq!(img.width(), 2);
    assert_eq!(img.height(), 1);
    assert_eq!(*img.pixel_format(), PixelFormat::RGB);
    assert_eq!(img.data(), &[0xff, 0x00, 0x00, 0x00, 0x00, 0xff]);
    assert_eq!(img.get_pixel(0, 0).unwrap(), 0x0000ff);
    assert_eq!(img.get_pixel(1, 0).unwrap(), 0xff0000);
}

#[test]
fn tga_decode_flips_bottom_left_origin() {
    // 1x2, bottom-left origin: the file's first pixel (red) is the bottom
    // row, so the decoded image holds the blue file pixel on top.
    let data = encode_tga_bgr(1, 2, 0x00, &[0x00, 0x00, 0xff, 0xff, 0x00, 0x00]);
    let img = from_tga_data(&data).unwrap();
    assert_eq!(img.width(), 1);
    assert_eq!(img.height(), 2);
    assert_eq!(img.data(), &[0x00, 0x00, 0xff, 0xff, 0x00, 0x00]);
    assert_eq!(img.get_pixel(0, 1).unwrap(), 0x0000ff);
    assert_eq!(img.get_pixel(0, 0).unwrap(), 0xff0000);
}

#[test]
fn tga_decode_rejects_garbage() {
    assert!(from_tga_data(&[1u8, 2, 3]).is_none());
}

#[test]
fn open_tags_each_format() {
    let png_data = encode_png_rgba(1, 1, &[1, 2, 3, 4]);
    let (tag, img) = open(&png_data).unwrap();
    assert_eq!(tag, "png");
    assert_eq!(img.width(), 1);

    let tga_data = encode_tga_bgr(1, 1, 0x20, &[9, 8, 7]);
    let (tag, img) = open(&tga_data).unwrap();
    assert_eq!(tag, "tga");
    assert_eq!(img.data(), &[7, 8, 9]);
    assert_eq!(img.get_pixel(0, 0).unwrap(), 0x090807);

    assert!(open(&[0u8; 8]).is_none());
}

#[test]
fn image_from_frame_checks_sizes() {
    // A consistent 2x1 RGB frame: six bytes, line size six.
    let buf = vec![1u8, 2, 3, 4, 5, 6, 99, 99];
    let img = image_from_frame(buf.clone(), 2, 1, 6, PixelFormat::RGB).unwrap();
    assert_eq!(img.width(), 2);
    assert_eq!(img.height(), 1);
    assert_eq!(img.data(), &[1, 2, 3, 4, 5, 6]);
    // A line size that does not match the dimensions is rejected.
    assert!(image_from_frame(buf.clone(), 2, 1, 5, PixelFormat::RGB).is_none());
    // A buffer shorter than the frame is rejected.
    assert!(image_from_frame(vec![0u8; 5], 2, 1, 6, PixelFormat::RGB).is_none());
}

#[test]
fn image_from_tga_colors_checks_input() {
    let img = image_from_tga_colors(
        vec![0x00aabbcc, 0x00112233],
        2,
        1,
        false,
        TgaOrigin::TopLeft,
    )
    .unwrap();
    assert_eq!(img.data(), &[0xaa, 0xbb, 0xcc, 0x11, 0x22, 0x33]);
    let img = image_from_tga_colors(vec![0xff000001], 1, 1, true, TgaOrigin::TopLeft).unwrap();
    assert_eq!(img.data(), &[0xff, 0x00, 0x00, 0x01]);
    // A pixel count that does not match the header is rejected, and so are
    // the right-hand origins.
    assert!(image_from_tga_colors(vec![0; 3], 2, 1, false, TgaOrigin::TopLeft).is_none());
    assert!(image_from_tga_colors(vec![0; 2], 2, 1, false, TgaOrigin::TopRight).is_none());
    assert!(image_from_tga_colors(vec![0; 2], 2, 1, false, TgaOrigin::BottomRight).is_none());
}
