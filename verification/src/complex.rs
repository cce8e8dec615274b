//! Complex-number arithmetic over integer components.
//!
//! A value `a + bi` is an ordered pair of `i64` components. Addition,
//! multiplication and squared magnitude follow the standard complex-number
//! algebra, stated exactly over the mathematical integers; preconditions
//! only rule out `i64` overflow.

use vstd::prelude::*;

verus! {

/// A complex number `a + bi`: `re` is the real part, `im` the imaginary part.
/// Equality is componentwise; values are immutable pairs with no identity
/// beyond their two components.
#[derive(Clone, Copy, Debug, PartialEq, Eq, Structural)]
pub struct Complex {
    pub re: i64,
    pub im: i64,
}

/// Largest component magnitude admitted by `mul` and `mag`: with both
/// factors bounded by it, every product and every sum of two products
/// stays inside `i64`.
pub const COMPONENT_BOUND: i64 = 2_000_000_000;

/// A product of two factors each bounded by `m` is bounded by `m * m`.
proof fn lemma_product_bound(a: int, b: int, m: int)
    requires
        0 <= m,
        -m <= a <= m,
        -m <= b <= m,
    ensures
        -(m * m) <= a * b <= m * m,
{
    assert(-(m * m) <= a * b <= m * m) by (nonlinear_arith)
        requires
            0 <= m,
            -m <= a <= m,
            -m <= b <= m,
    ;
}

impl Complex {
    /// Both components lie in `[-b, b]`.
    pub open spec fn bounded(self, b: int) -> bool {
        -b <= self.re <= b && -b <= self.im <= b
    }

    /// Create a new `Complex` with the given parts `re` and `im`.
    pub fn new(re: i64, im: i64) -> (z: Complex)
        ensures
            z.re == re,
            z.im == im,
    {
        Complex { re, im }
    }

    /// Componentwise sum: `(a + bi) + (c + di) = (a + c) + (b + d)i`.
    pub fn add(self, rhs: Complex) -> (z: Complex)
        requires
            i64::MIN <= self.re + rhs.re <= i64::MAX,
            i64::MIN <= self.im + rhs.im <= i64::MAX,
        ensures
            z.re == self.re + rhs.re,
            z.im == self.im + rhs.im,
    {
        Complex { re: self.re + rhs.re, im: self.im + rhs.im }
    }

    /// Complex product: `(a + bi)(c + di) = (ac - bd) + (ad + bc)i`.
    pub fn mul(self, rhs: Complex) -> (z: Complex)
        requires
            self.bounded(COMPONENT_BOUND as int),
            rhs.bounded(COMPONENT_BOUND as int),
        ensures
            z.re == self.re * rhs.re - self.im * rhs.im,
            z.im == self.re * rhs.im + self.im * rhs.re,
    {
        proof {
            lemma_product_bound(self.re as int, rhs.re as int, COMPONENT_BOUND as int);
            lemma_product_bound(self.im as int, rhs.im as int, COMPONENT_BOUND as int);
            lemma_product_bound(self.re as int, rhs.im as int, COMPONENT_BOUND as int);
            lemma_product_bound(self.im as int, rhs.re as int, COMPONENT_BOUND as int);
        }
        Complex {
            re: self.re * rhs.re - self.im * rhs.im,
            im: self.re * rhs.im + self.im * rhs.re,
        }
    }

    /// Squared magnitude: `|a + bi|^2 = a^2 + b^2`. This is the square of the
    /// modulus, so an escape test can compare it against the square of the
    /// escape radius and avoid a square root.
    pub fn mag(self) -> (m: i64)
        requires
            self.bounded(COMPONENT_BOUND as int),
        ensures
            m == self.re * self.re + self.im * self.im,
    {
        proof {
            lemma_product_bound(self.re as int, self.re as int, COMPONENT_BOUND as int);
            lemma_product_bound(self.im as int, self.im as int, COMPONENT_BOUND as int);
        }
        self.re * self.re + self.im * self.im
    }
}

impl Default for Complex {
    /// The additive identity `0 + 0i`.
    fn default() -> (z: Complex)
        ensures
            z.re == 0,
            z.im == 0,
    {
        Complex { re: 0, im: 0 }
    }
}

} // verus!
