use kaleidoscope::base64::base64_encode;
use kaleidoscope::css::Color;
use kaleidoscope::paint::{blend_exact, Canvas};
use kaleidoscope::png::{adler32, crc32, encode, zlib_stored};
use kaleidoscope::text::{split_whitespace, usize_to_decimal};

#[test]
fn base64_matches_the_standard_vectors() {
    assert_eq!(base64_encode(b""), "");
    assert_eq!(base64_encode(b"f"), "Zg==");
    assert_eq!(base64_encode(b"fo"), "Zm8=");
    assert_eq!(base64_encode(b"foo"), "Zm9v");
    assert_eq!(base64_encode(b"foob"), "Zm9vYg==");
    assert_eq!(base64_encode(b"fooba"), "Zm9vYmE=");
    assert_eq!(base64_encode(b"foobar"), "Zm9vYmFy");
    assert_eq!(base64_encode(&[0xff, 0xfe, 0x00]), "//4A");
}

#[test]
fn canvas_starts_filled_with_the_background() {
    let canvas = Canvas::new(4, 3, Color { r: 9, g: 8, b: 7, a: 6 });
    assert_eq!(canvas.width, 4);
    assert_eq!(canvas.height, 3);
    assert_eq!(canvas.pixels.len(), 12);
    assert!(canvas.pixels.iter().all(|p| *p == [9, 8, 7, 6]));
}

#[test]
fn ppm_bytes_are_header_then_rgb() {
    let mut canvas = Canvas::new(2, 1, Color::rgb(1, 2, 3));
    canvas.pixels[1] = [4, 5, 6, 0];
    let expected: Vec<u8> = b"P6\n2 1\n255\n\x01\x02\x03\x04\x05\x06".to_vec();
    assert_eq!(canvas.ppm_bytes(), expected);
    let mut written = Vec::new();
    canvas.write_ppm(&mut written).unwrap();
    assert_eq!(written, expected);
}

#[test]
fn checksums_of_empty_and_longer_inputs() {
    assert_eq!(crc32(b""), 0);
    assert_eq!(adler32(b""), 1);
    assert_eq!(crc32(b"123456789"), 0xCBF4_3926);
    assert_eq!(adler32(b"Wikipedia"), 0x11E6_0398);
}

fn be32(b: &[u8]) -> u32 {
    u32::from_be_bytes([b[0], b[1], b[2], b[3]])
}

/// Reads back the stored DEFLATE blocks of a zlib stream.
fn inflate_stored(z: &[u8]) -> Vec<u8> {
    assert_eq!(&z[..2], &[0x78, 0x01]);
    let mut out = Vec::new();
    let mut i = 2;
    loop {
        let header = z[i];
        let len = u16::from_le_bytes([z[i + 1], z[i + 2]]) as usize;
        let nlen = u16::from_le_bytes([z[i + 3], z[i + 4]]);
        assert_eq!(nlen, !(len as u16));
        out.extend_from_slice(&z[i + 5..i + 5 + len]);
        i += 5 + len;
        if header == 1 {
            break;
        }
        assert_eq!(header, 0);
    }
    assert_eq!(be32(&z[i..i + 4]), adler32(&out));
    assert_eq!(i + 4, z.len());
    out
}

#[test]
fn png_chunks_carry_the_scanlines_across_several_blocks() {
    let (w, h) = (130usize, 130usize);
    let mut canvas = Canvas::new(w, h, Color::rgb(1, 2, 3));
    canvas.pixels[w + 2] = [200, 100, 50, 25];
    let png = encode(&canvas);
    assert_eq!(&png[..8], &[137, 80, 78, 71, 13, 10, 26, 10]);
    let mut pos = 8;
    let mut kinds = Vec::new();
    let mut idat = Vec::new();
    while pos < png.len() {
        let len = be32(&png[pos..]) as usize;
        let kind = &png[pos + 4..pos + 8];
        let data = &png[pos + 8..pos + 8 + len];
        assert_eq!(be32(&png[pos + 8 + len..]), crc32(&png[pos + 4..pos + 8 + len]));
        kinds.push(String::from_utf8(kind.to_vec()).unwrap());
        if kind == b"IHDR" {
            assert_eq!(be32(&data[0..4]), w as u32);
            assert_eq!(be32(&data[4..8]), h as u32);
            assert_eq!(&data[8..], &[8, 6, 0, 0, 0]);
        }
        if kind == b"IDAT" {
            idat = data.to_vec();
        }
        pos += 12 + len;
    }
    assert_eq!(kinds, vec!["IHDR", "IDAT", "IEND"]);
    let n = h * (1 + 4 * w);
    assert_eq!(idat.len(), n + 6 + 5 * ((n + 65534) / 65535));
    let raw = inflate_stored(&idat);
    assert_eq!(raw.len(), h * (1 + 4 * w));
    assert!(raw.len() > 0xFFFF);
    let row1 = &raw[(1 + 4 * w)..2 * (1 + 4 * w)];
    assert_eq!(row1[0], 0);
    assert_eq!(&row1[1 + 4 * 2..1 + 4 * 3], &[200, 100, 50, 25]);
    assert_eq!(&row1[1..5], &[1, 2, 3, 255]);
}

#[test]
fn empty_canvas_still_has_a_final_block() {
    let canvas = Canvas::new(0, 0, Color::rgb(0, 0, 0));
    let png = encode(&canvas);
    let idat_len = be32(&png[33..37]) as usize;
    assert_eq!(&png[37..41], b"IDAT");
    let idat = &png[41..41 + idat_len];
    assert_eq!(idat, &[0x78, 0x01, 1, 0, 0, 0xff, 0xff, 0, 0, 0, 1]);
    assert_eq!(&png[png.len() - 8..png.len() - 4], b"IEND");
}

#[test]
fn decimal_text_and_word_splitting() {
    assert_eq!(usize_to_decimal(0), "0");
    assert_eq!(usize_to_decimal(1234567), "1234567");
    assert_eq!(split_whitespace("  a\tbb \u{2003}c\n"), vec!["a", "bb", "c"]);
    assert!(split_whitespace(" \n ").is_empty());
}

#[test]
fn zlib_stream_length_and_payload_for_block_boundaries() {
    for n in [0usize, 1, 65534, 65535, 65536, 131070, 131071, 200000] {
        let data: Vec<u8> = (0..n).map(|i| (i % 251) as u8).collect();
        let z = zlib_stored(&data);
        let blocks = if n == 0 { 1 } else { (n + 65534) / 65535 };
        assert_eq!(z.len(), n + 6 + 5 * blocks);
        assert_eq!(inflate_stored(&z), data);
    }
}

#[test]
fn exact_blending_covers_opaque_and_transparent_colors() {
    let dst = [10, 20, 30, 255];
    assert_eq!(blend_exact(dst, Color::rgb(1, 2, 3)), Some([1, 2, 3, 255]));
    assert_eq!(blend_exact(dst, Color { r: 1, g: 2, b: 3, a: 0 }), Some(dst));
    assert_eq!(blend_exact(dst, Color { r: 1, g: 2, b: 3, a: 128 }), None);
}
