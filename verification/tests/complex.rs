//! Tests for the complex-number arithmetic unit. A plane coordinate of value
//! `v` is written as the integer `v * SCALE`; the arithmetic itself works on
//! plain integer components.

use mandelbrot::complex::Complex;

#[test]
fn complex_v1() {
    let c1 = Complex { re: 5, im: 3 };
    let c2 = Complex { re: 2, im: 4 };
    let c_add_1 = c1.add(c2);

    if (c_add_1.re - 7) * (c_add_1.re - 7) > 0 {
        println!("Error adding two complex numbers.");
        assert!(false);
    }
}

#[test]
fn complex_v2() {
    let c1 = Complex { re: 5, im: 3 };
    let c2 = Complex { re: 2, im: 4 };
    let c_mul_1 = c1.mul(c2);

    if (c_mul_1.re - 2) * (c_mul_1.im - 26) > 0 {
        println!("Error multiplying two complex numbers.");
        assert!(false);
    }
}

#[test]
fn complex_v3() {
    let c1 = Complex { re: 5, im: 3 };
    let c_mag = c1.mag();

    if (c_mag - 34) * (c_mag - 34) > 0 {
        println!("Error calculating magnitude squared");
        assert!(false);
    }
}

#[test]
fn complex_add_exact() {
    let z = Complex::new(5, 3).add(Complex::new(2, 4));
    assert_eq!(z, Complex { re: 7, im: 7 });
}

#[test]
fn complex_mul_exact() {
    let z = Complex::new(5, 3).mul(Complex::new(2, 4));
    assert_eq!(z, Complex { re: -2, im: 26 });
}

#[test]
fn complex_mag_exact() {
    assert_eq!(Complex::new(5, 3).mag(), 34);
    assert_eq!(Complex::new(-5, 3).mag(), 34);
    assert_eq!(Complex::new(0, 0).mag(), 0);
}

#[test]
fn complex_default_is_zero() {
    let z = Complex::default();
    assert_eq!(z, Complex { re: 0, im: 0 });
}
