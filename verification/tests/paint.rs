use kaleidoscope::css::Color;
use kaleidoscope::paint::Canvas;

#[test]
fn ppm_output_has_correct_header() {
    let canvas = Canvas::new(3, 2, Color::rgb(1, 2, 3));
    let mut buf = Vec::new();
    canvas.write_ppm(&mut buf).unwrap();
    let text = String::from_utf8_lossy(&buf[..15]);
    assert!(text.starts_with("P6\n3 2\n255\n"));
}
