//! Tests for the pixel and image types.

use mandelbrot::image::{Image, Pixel};

#[test]
fn pixels() {
    // test pixels and image
    let p1 = Pixel { r: 255, g: 0, b: 0 };
    let p2 = p1;

    println!("{}", p1.text());

    assert_eq!(p1, p2);

    let test_pixel_str = p1.text();

    assert_eq!(test_pixel_str, String::from("255 0 0"));

    let img1 = Image::new(100, 200);

    let element_0_0 = img1.get(0, 0).unwrap();

    assert_eq!(img1.width, 100);
    assert_eq!(img1.height, 200);
    assert_eq!(element_0_0, &Pixel { r: 0, g: 0, b: 0 });
    assert_eq!(img1.get(0, 1), Some(&Pixel { r: 0, g: 0, b: 0 }));

    let mut img2 = Image::new(200, 100);

    *img2.get_mut(0, 0) = Pixel { r: 1, g: 0, b: 0 };

    let element_0_0_mut = img2.get_mut(0, 0);

    assert_eq!(element_0_0_mut, &mut Pixel { r: 1, g: 0, b: 0 });
}

#[test]
fn pixel_constructors() {
    assert_eq!(Pixel::black(), Pixel { r: 0, g: 0, b: 0 });
    assert_eq!(Pixel::white(), Pixel { r: 255, g: 255, b: 255 });
    assert_eq!(Pixel::new(9, 8, 7), Pixel { r: 9, g: 8, b: 7 });
}

#[test]
fn pixel_is_mandelbrot() {
    assert!(Pixel::black().is_mandelbrot());
    assert!(!Pixel::white().is_mandelbrot());
    // every colour other than pure white counts as a member
    assert!(Pixel::new(255, 0, 0).is_mandelbrot());
    assert!(Pixel::new(0, 255, 0).is_mandelbrot());
    assert!(Pixel::new(255, 255, 254).is_mandelbrot());
    assert!(Pixel::new(254, 254, 254).is_mandelbrot());
}

#[test]
fn image_get_out_of_range() {
    let img = Image::new(4, 3);
    assert!(img.get(3, 2).is_some());
    assert!(img.get(0, 3).is_none());
    assert_eq!(img.get_mandelbrot_pixels(), 12);
}

#[test]
fn pixel_text_single_digits() {
    assert_eq!(Pixel::new(0, 10, 200).text(), String::from("0 10 200"));
}
