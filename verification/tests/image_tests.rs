use rasterimage::Image;
use rasterimage::PixelFormat;

const FORMATS: [PixelFormat; 6] = [
    PixelFormat::RGBA,
    PixelFormat::ARGB,
    PixelFormat::BGRA,
    PixelFormat::ABGR,
    PixelFormat::RGB,
    PixelFormat::BGR,
];

fn masked(fmt: PixelFormat, color: u32) -> u32 {
    if fmt.channel_count() == 4 {
        color
    } else {
        color & 0x00ff_ffff
    }
}

#[test]
fn channel_counts_and_bits() {
    assert_eq!(PixelFormat::RGBA.channel_count(), 4);
    assert_eq!(PixelFormat::ARGB.channel_count(), 4);
    assert_eq!(PixelFormat::BGRA.channel_count(), 4);
    assert_eq!(PixelFormat::ABGR.channel_count(), 4);
    assert_eq!(PixelFormat::RGB.channel_count(), 3);
    assert_eq!(PixelFormat::BGR.channel_count(), 3);
    assert_eq!(PixelFormat::RGBA.bits_per_pixel(), 32);
    assert_eq!(PixelFormat::BGR.bits_per_pixel(), 24);
}

#[test]
fn offsets_describe_channel_positions() {
    let rgba = PixelFormat::RGBA.offsets();
    assert_eq!(rgba.r, 24);
    assert_eq!(rgba.g, 16);
    assert_eq!(rgba.b, 8);
    assert_eq!(rgba.a, Some(0));
    let rgb = PixelFormat::RGB.offsets();
    assert_eq!(rgb.r, 16);
    assert_eq!(rgb.g, 8);
    assert_eq!(rgb.b, 0);
    assert_eq!(rgb.a, None);
}

#[test]
fn new_image_is_zeroed() {
    let img = Image::new(3, 2, PixelFormat::RGB);
    assert_eq!(img.width(), 3);
    assert_eq!(img.height(), 2);
    assert_eq!(img.size(), 18);
    assert!(img.data().iter().all(|&b| b == 0));
    assert_eq!(*img.pixel_format(), PixelFormat::RGB);
}

#[test]
fn set_then_get_round_trips_every_format() {
    let color: u32 = 0x8899aabb;
    for fmt in FORMATS {
        let mut img = Image::new(2, 2, fmt);
        img.set_pixel(1, 0, color);
        let got = img.get_pixel(1, 0).unwrap();
        assert_eq!(got, masked(fmt, color), "format {:?}", fmt);
    }
}

#[test]
fn get_pixel_bounds() {
    let img = Image::new(3, 2, PixelFormat::RGBA);
    assert!(img.get_pixel(2, 1).is_some());
    assert!(img.get_pixel(3, 0).is_none());
    assert!(img.get_pixel(0, 2).is_none());
    assert!(img.get_pixel(3, 2).is_none());
}

#[test]
fn set_pixel_out_of_bounds_is_ignored() {
    let mut img = Image::new(2, 2, PixelFormat::RGB);
    let before = img.data().to_vec();
    img.set_pixel(2, 0, 0xffffff);
    img.set_pixel(0, 2, 0xffffff);
    assert_eq!(img.data(), before.as_slice());
}

#[test]
fn fill_sets_every_pixel_and_is_idempotent() {
    let color: u32 = 0x01020304;
    for fmt in FORMATS {
        let mut img = Image::new(3, 2, fmt);
        img.fill(color);
        for y in 0..2 {
            for x in 0..3 {
                assert_eq!(img.get_pixel(x, y).unwrap(), masked(fmt, color));
            }
        }
        let once = img.data().to_vec();
        img.fill(color);
        assert_eq!(img.data(), once.as_slice());
    }
}

#[test]
fn get_line_returns_row_bytes() {
    let mut img = Image::new(2, 2, PixelFormat::RGB);
    img.set_pixel(0, 1, 0x00ff0000);
    img.set_pixel(1, 1, 0x000000ff);
    let line = img.get_line(1).unwrap();
    // RGB stores the little-endian bytes of `0x00RRGGBB`: blue, green, red.
    assert_eq!(line, &[0x00, 0x00, 0xff, 0xff, 0x00, 0x00]);
    assert!(img.get_line(2).is_none());
}

#[test]
fn data_mut_edits_show_through_accessors() {
    let mut img = Image::new(1, 1, PixelFormat::RGB);
    {
        let data = img.data_mut();
        data[2] = 0xff; // red channel of an `RGB` pixel
    }
    assert_eq!(img.get_pixel(0, 0).unwrap(), 0x00ff0000);
}

#[test]
fn from_raw_data_keeps_bytes() {
    let bytes = [1u8, 2, 3, 4, 5, 6];
    let img = Image::from_raw_data(&bytes, 2, 1, PixelFormat::RGB);
    assert_eq!(img.data(), &bytes);
    let img2 = Image::from_raw_data_vec(bytes.to_vec(), 1, 2, PixelFormat::BGR);
    assert_eq!(img2.data(), &bytes);
    assert_eq!(img2.width(), 1);
    assert_eq!(img2.height(), 2);
}

#[test]
fn flip_vertically_swaps_rows() {
    let mut img = Image::new(1, 3, PixelFormat::RGB);
    img.set_pixel(0, 0, 0x110000);
    img.set_pixel(0, 1, 0x002200);
    img.set_pixel(0, 2, 0x000033);
    img.flip_vertically();
    assert_eq!(img.get_pixel(0, 0).unwrap(), 0x000033);
    assert_eq!(img.get_pixel(0, 1).unwrap(), 0x002200);
    assert_eq!(img.get_pixel(0, 2).unwrap(), 0x110000);
}

#[test]
fn flip_involutions_restore_buffer() {
    let mut img = Image::new(3, 2, PixelFormat::RGBA);
    let mut v: u32 = 0;
    for y in 0..2 {
        for x in 0..3 {
            img.set_pixel(x, y, 0xff000000 | v);
            v += 0x00112233;
        }
    }
    let original = img.data().to_vec();
    img.flip_vertically();
    img.flip_vertically();
    assert_eq!(img.data(), original.as_slice());
    img.flip_horizontally();
    img.flip_horizontally();
    assert_eq!(img.data(), original.as_slice());
}

#[test]
fn reverse_line_mirrors_one_row() {
    let mut img = Image::new(3, 2, PixelFormat::RGB);
    img.set_pixel(0, 0, 0x0000aa);
    img.set_pixel(1, 0, 0x00bb00);
    img.set_pixel(2, 0, 0xcc0000);
    img.set_pixel(0, 1, 0x010101);
    img.reverse_line(0);
    assert_eq!(img.get_pixel(0, 0).unwrap(), 0xcc0000);
    assert_eq!(img.get_pixel(1, 0).unwrap(), 0x00bb00);
    assert_eq!(img.get_pixel(2, 0).unwrap(), 0x0000aa);
    // The other row stays put, and an out-of-range row is ignored.
    assert_eq!(img.get_pixel(0, 1).unwrap(), 0x010101);
    let before = img.data().to_vec();
    img.reverse_line(7);
    assert_eq!(img.data(), before.as_slice());
}

#[test]
fn rotate_left_maps_top_right_to_top_left() {
    // A 2x2 RGB image holding red, green / blue, yellow, row-major.
    let mut img = Image::new(2, 2, PixelFormat::RGB);
    img.set_pixel(0, 0, 0xff0000);
    img.set_pixel(1, 0, 0x00ff00);
    img.set_pixel(0, 1, 0x0000ff);
    img.set_pixel(1, 1, 0xffff00);
    img.rotate_left();
    assert_eq!(img.width(), 2);
    assert_eq!(img.height(), 2);
    // The top-left pixel of the rotated image is the original top-right.
    assert_eq!(img.get_pixel(0, 0).unwrap(), 0x00ff00);
    assert_eq!(img.get_pixel(1, 0).unwrap(), 0xffff00);
    assert_eq!(img.get_pixel(0, 1).unwrap(), 0xff0000);
    assert_eq!(img.get_pixel(1, 1).unwrap(), 0x0000ff);
}

#[test]
fn rotate_round_trip_restores_image() {
    let mut img = Image::new(3, 2, PixelFormat::RGB);
    let mut v: u32 = 1;
    for y in 0..2 {
        for x in 0..3 {
            img.set_pixel(x, y, v);
            v = v.wrapping_mul(0x01010101).wrapping_add(7) & 0x00ffffff;
        }
    }
    let original = img.data().to_vec();
    img.rotate_left();
    assert_eq!(img.width(), 2);
    assert_eq!(img.height(), 3);
    img.rotate_right();
    assert_eq!(img.width(), 3);
    assert_eq!(img.height(), 2);
    assert_eq!(img.data(), original.as_slice());
    img.rotate_right();
    img.rotate_left();
    assert_eq!(img.data(), original.as_slice());
}

#[test]
fn cut_at_own_bounds_is_identity() {
    let mut img = Image::new(3, 2, PixelFormat::RGBA);
    img.fill(0xaabbccdd);
    img.set_pixel(2, 1, 0x11223344);
    let original = img.data().to_vec();
    img.cut(0, 0, 3, 2);
    assert_eq!(img.width(), 3);
    assert_eq!(img.height(), 2);
    assert_eq!(img.data(), original.as_slice());
}

#[test]
fn cut_outside_bounds_reads_zero() {
    let mut img = Image::new(2, 2, PixelFormat::RGB);
    img.fill(0xffffff);
    img.cut(1, 1, 2, 2);
    assert_eq!(img.width(), 2);
    assert_eq!(img.height(), 2);
    assert_eq!(img.get_pixel(0, 0).unwrap(), 0xffffff);
    assert_eq!(img.get_pixel(1, 0).unwrap(), 0);
    assert_eq!(img.get_pixel(0, 1).unwrap(), 0);
    assert_eq!(img.get_pixel(1, 1).unwrap(), 0);
}

#[test]
fn scale_to_same_size_is_a_no_op() {
    let mut img = Image::new(3, 2, PixelFormat::RGB);
    img.fill(0x123456);
    img.set_pixel(1, 1, 0x654321);
    let original = img.data().to_vec();
    img.scale(3, 2);
    assert_eq!(img.width(), 3);
    assert_eq!(img.height(), 2);
    assert_eq!(img.data(), original.as_slice());
    let copy = img.scale_to_new(3, 2);
    assert_eq!(copy.data(), original.as_slice());
}

#[test]
fn scale_one_pixel_to_two_by_two() {
    // Scaling a 1x1 image to 2x2 must be well defined: the single source
    // pixel is sampled for every target pixel.
    let mut img = Image::new(1, 1, PixelFormat::RGB);
    img.set_pixel(0, 0, 0x336699);
    img.scale(2, 2);
    assert_eq!(img.width(), 2);
    assert_eq!(img.height(), 2);
    for y in 0..2 {
        for x in 0..2 {
            assert_eq!(img.get_pixel(x, y).unwrap(), 0x336699);
        }
    }
}

#[test]
fn scale_interpolates_midpoints() {
    // Stretching two red values 0 and 255 over three pixels puts their
    // rounded average in the middle.
    let mut img = Image::new(2, 1, PixelFormat::RGB);
    img.set_pixel(0, 0, 0x000000);
    img.set_pixel(1, 0, 0xff0000);
    img.scale(3, 1);
    assert_eq!(img.get_pixel(0, 0).unwrap(), 0x000000);
    assert_eq!(img.get_pixel(1, 0).unwrap(), 0x800000);
    assert_eq!(img.get_pixel(2, 0).unwrap(), 0xff0000);
}

#[test]
fn scale_to_new_leaves_source_untouched() {
    let mut img = Image::new(2, 2, PixelFormat::RGBA);
    img.fill(0xff00ff00);
    let original = img.data().to_vec();
    let bigger = img.scale_to_new(4, 4);
    assert_eq!(img.data(), original.as_slice());
    assert_eq!(bigger.width(), 4);
    assert_eq!(bigger.height(), 4);
    assert_eq!(bigger.get_pixel(0, 0).unwrap(), 0xff00ff00);
    assert_eq!(bigger.get_pixel(3, 3).unwrap(), 0xff00ff00);
}

#[test]
fn zero_sized_images_are_legal() {
    let mut img = Image::new(0, 5, PixelFormat::RGB);
    assert_eq!(img.size(), 0);
    assert!(img.get_pixel(0, 0).is_none());
    img.fill(0x123456);
    img.flip_vertically();
    img.flip_horizontally();
    assert_eq!(img.size(), 0);
    img.rotate_left();
    assert_eq!(img.width(), 5);
    assert_eq!(img.height(), 0);
}
