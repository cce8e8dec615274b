//! Tests for the escape-time engine. A plane coordinate of value `v` is the
//! integer `v * SCALE` with `SCALE = 100_000_000`.

use mandelbrot::complex::Complex;
use mandelbrot::image::Pixel;
use mandelbrot::mandelbrot::{check_pixel, generate_image, map_x, map_y};

#[test]
fn check_pixel_v1() {
    // -0.875 + 0i, on the real axis inside the set
    let c = Complex {
        re: -87_500_000,
        im: 0,
    };

    let pixel_is_in_the_set = check_pixel(c, 1024);

    assert_eq!(pixel_is_in_the_set, None);
}

#[test]
fn check_pixel_v2() {
    // -0.1 + 0.9i, outside the set
    let c = Complex {
        re: -10_000_000,
        im: 90_000_000,
    };

    let pixel_is_in_the_set = check_pixel(c, 1024);

    assert_eq!(pixel_is_in_the_set.is_some(), true);
}

#[test]
fn check_pixel_origin_stays_bounded() {
    assert_eq!(check_pixel(Complex::new(0, 0), 1024), None);
}

#[test]
fn check_pixel_escapes_immediately_outside_radius() {
    // 2.5 + 0i has squared magnitude 6.25 > 4 already at the first iterate
    let r = check_pixel(Complex::new(250_000_000, 0), 10);
    assert_eq!(r, Some(1));
}

#[test]
fn check_pixel_zero_budget_reports_bounded() {
    // even a clearly escaping point is reported bounded with no iterations
    assert_eq!(check_pixel(Complex::new(250_000_000, 0), 0), None);
}

#[test]
fn zero_iterations_all_bounded() {
    let img = generate_image(8, 8, 0);
    assert_eq!(img.get_mandelbrot_pixels(), 64);
    for y in 0..8 {
        for x in 0..8 {
            assert_eq!(img.get(x, y), Some(&Pixel::black()));
        }
    }
}

#[test]
fn generation_is_idempotent() {
    let a = generate_image(16, 16, 50);
    let b = generate_image(16, 16, 50);
    for y in 0..16 {
        for x in 0..16 {
            assert_eq!(a.get(x, y), b.get(x, y));
        }
    }
}

#[test]
fn pixels_independent_of_visit_order() {
    // classifying each pixel on its own, walking the grid backwards, gives
    // the same picture as the generation loop
    let w = 16;
    let h = 12;
    let budget = 64;
    let img = generate_image(w, h, budget);
    for y in (0..h).rev() {
        for x in (0..w).rev() {
            let c = Complex::new(map_x(x, w), map_y(y, h));
            let expected = match check_pixel(c, budget) {
                Some(_) => Pixel::white(),
                None => Pixel::black(),
            };
            assert_eq!(img.get(x, y), Some(&expected));
        }
    }
}

#[test]
fn map_corners() {
    // x = 0 maps to -2.625, y = 0 maps to -1.0
    assert_eq!(map_x(0, 100), -262_500_000);
    assert_eq!(map_y(0, 100), -100_000_000);
    // midpoints: x = w/2 maps to -0.875, y = h/2 maps to 0
    assert_eq!(map_x(50, 100), -87_500_000);
    assert_eq!(map_y(50, 100), 0);
}

#[test]
fn generate_count_regression() {
    let img = generate_image(64, 48, 256);
    let n = img.get_mandelbrot_pixels();
    println!("Pixels in the set: {}", n);
    assert_eq!(n, 671);
}

#[test]
fn generate_count_full_frame() {
    // the same frame computed in IEEE double precision holds 34062 in-set
    // pixels; fixed-point truncation flips one boundary pixel
    let img = generate_image(525, 300, 1024);
    let n = img.get_mandelbrot_pixels();
    println!("Pixels in the set: {}", n);
    assert_eq!(n, 34063);
}

#[test]
fn generate_count_full_frame_rotated() {
    // in IEEE double precision this frame holds 33965 in-set pixels;
    // fixed-point truncation flips a handful of boundary pixels
    let img = generate_image(300, 525, 1024);
    let n = img.get_mandelbrot_pixels();
    println!("Pixels in the set: {}", n);
    assert_eq!(n, 33978);
}
