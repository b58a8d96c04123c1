use kaleidoscope::css::Color;
use kaleidoscope::paint::Canvas;
use kaleidoscope::png::{adler32, crc32, encode};

#[test]
fn encodes_a_valid_png_header_and_iend() {
    let canvas = Canvas::new(2, 2, Color::rgb(10, 20, 30));
    let png = encode(&canvas);
    assert_eq!(&png[..8], &[137, 80, 78, 71, 13, 10, 26, 10]);
    assert_eq!(&png[12..16], b"IHDR");
    assert_eq!(&png[png.len() - 8..png.len() - 4], b"IEND");
}

#[test]
fn known_crc32_and_adler32_vectors() {
    assert_eq!(crc32(b"IEND"), 0xAE42_6082);
    assert_eq!(adler32(b"abc"), 0x024D_0127);
}
