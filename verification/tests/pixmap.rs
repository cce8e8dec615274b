//! Tests for the pixmap codec.

use mandelbrot::image::{Image, Pixel};
use mandelbrot::mandelbrot::generate_image;
use mandelbrot::pixmap::{parse_ppm, render_ppm};

#[test]
fn render_single_black_pixel() {
    let img = Image::new(1, 1);
    let bytes = render_ppm(&img);
    assert_eq!(bytes, b"P3\n1 1\n255\n0 0 0\n".to_vec());
}

#[test]
fn render_dimensions_and_rows() {
    let mut img = Image::new(2, 2);
    *img.get_mut(1, 0) = Pixel::white();
    let bytes = render_ppm(&img);
    assert_eq!(
        bytes,
        b"P3\n2 2\n255\n0 0 0\n255 255 255\n0 0 0\n0 0 0\n".to_vec()
    );
}

#[test]
fn parse_recovers_rendered_image() {
    let img = generate_image(10, 6, 30);
    let bytes = render_ppm(&img);
    let parsed = parse_ppm(&bytes).expect("rendered text must parse");
    assert_eq!(parsed.width, img.width);
    assert_eq!(parsed.height, img.height);
    for y in 0..6 {
        for x in 0..10 {
            assert_eq!(parsed.get(x, y), img.get(x, y));
        }
    }
}

#[test]
fn parse_plain_text() {
    let text = b"P3\n2 1\n255\n12 34 56\n0 0 255\n";
    let img = parse_ppm(text).expect("valid pixmap text must parse");
    assert_eq!(img.width, 2);
    assert_eq!(img.height, 1);
    assert_eq!(img.get(0, 0), Some(&Pixel::new(12, 34, 56)));
    assert_eq!(img.get(1, 0), Some(&Pixel::new(0, 0, 255)));
}

#[test]
fn parse_rejects_bad_input() {
    // empty input
    assert!(parse_ppm(b"").is_none());
    // wrong magic number
    assert!(parse_ppm(b"P6\n1 1\n255\n0 0 0\n").is_none());
    // wrong maximum colour value
    assert!(parse_ppm(b"P3\n1 1\n254\n0 0 0\n").is_none());
    // channel value above 255
    assert!(parse_ppm(b"P3\n1 1\n255\n0 0 256\n").is_none());
    // pixel count does not match the dimensions
    assert!(parse_ppm(b"P3\n2 2\n255\n0 0 0\n").is_none());
    // truncated pixel line
    assert!(parse_ppm(b"P3\n1 1\n255\n0 0\n").is_none());
    // missing trailing newline
    assert!(parse_ppm(b"P3\n1 1\n255\n0 0 0").is_none());
    // a dimension no machine word can hold
    assert!(parse_ppm(b"P3\n99999999999999999999 1\n255\n0 0 0\n").is_none());
    // dimensions whose product exceeds the pixel count on any machine
    assert!(parse_ppm(b"P3\n123456789123 987654321987\n255\n0 0 0\n").is_none());
}

#[test]
fn parse_accepts_leading_zeros() {
    // leading zeros are digits, so the value still parses
    let img = parse_ppm(b"P3\n01 1\n255\n007 0 0\n").expect("digit runs may carry leading zeros");
    assert_eq!(img.width, 1);
    assert_eq!(img.get(0, 0), Some(&Pixel::new(7, 0, 0)));
}
