//! The escape-time engine.
//!
//! A plane coordinate is an `i64` holding the real value times [`SCALE`]
//! (fixed-point arithmetic). For a point `c` the engine iterates
//! `z <- z*z + c` from `z = 0`; a point whose squared magnitude ever exceeds
//! the square of the escape radius `2` has escaped, and a point that stays
//! below that bound for the whole iteration budget counts as a member of the
//! Mandelbrot set. A product of two coordinates carries `SCALE * SCALE`, so
//! each iteration divides the products back down by `SCALE`, rounding toward
//! negative infinity; the mathematical recurrence [`orbit`] states exactly
//! that arithmetic, and every function here is proved against it.

use vstd::prelude::*;
use vstd::arithmetic::div_mod::{
    lemma_div_is_ordered, lemma_div_multiples_vanish, lemma_div_multiples_vanish_fancy,
    lemma_div_pos_is_pos, lemma_fundamental_div_mod, lemma_hoist_over_denominator,
    lemma_mod_bound,
};
use vstd::arithmetic::mul::lemma_mul_is_commutative;
use crate::complex::Complex;
use crate::image::{count_mandelbrot, lemma_count_mandelbrot_full, Image, Pixel};

verus! {

/// One plane unit in fixed-point steps: a coordinate `v` stands for the real
/// number `v / SCALE`.
pub const SCALE: i64 = 100_000_000;

/// The square of the escape radius `2`, in `SCALE * SCALE` units. Any point
/// whose modulus exceeds `2` diverges, so this constant is part of the
/// Mandelbrot set definition and must not be altered.
pub const ESCAPE_THRESHOLD: i64 = 4 * SCALE * SCALE;

/// Real part of one iteration step `z*z + c`: products of coordinates carry
/// `SCALE * SCALE`, so they are divided back down by `SCALE`.
pub open spec fn step_re(zre: int, zim: int, cre: int) -> int {
    (zre * zre - zim * zim) / (SCALE as int) + cre
}

/// Imaginary part of one iteration step `z*z + c`.
pub open spec fn step_im(zre: int, zim: int, cim: int) -> int {
    (2 * (zre * zim)) / (SCALE as int) + cim
}

/// The iterate `z_i` of the recurrence `z_0 = 0`, `z_{i+1} = z_i * z_i + c`,
/// as a pair of fixed-point components.
pub open spec fn orbit(cre: int, cim: int, i: nat) -> (int, int)
    decreases i,
{
    if i == 0 {
        (0, 0)
    } else {
        let z = orbit(cre, cim, (i - 1) as nat);
        (step_re(z.0, z.1, cre), step_im(z.0, z.1, cim))
    }
}

/// Squared magnitude of a pair of fixed-point components, in
/// `SCALE * SCALE` units.
pub open spec fn sq_mag(z: (int, int)) -> int {
    z.0 * z.0 + z.1 * z.1
}

/// The iterate `z_i` of the point `c` lies outside the escape radius.
pub open spec fn escapes_at(cre: int, cim: int, i: int) -> bool {
    sq_mag(orbit(cre, cim, i as nat)) > ESCAPE_THRESHOLD
}

/// Some iterate inspected within a budget of `n` iterations lies outside the
/// escape radius.
pub open spec fn escapes_within(cre: int, cim: int, n: int) -> bool {
    exists|i: int| 0 <= i < n && escapes_at(cre, cim, i)
}

/// The colour generated for the pixel at column `x` of row `y` of a
/// `width x height` image with the given iteration budget: white where the
/// mapped point escapes, black where it stays bounded.
pub open spec fn spec_pixel(x: int, y: int, width: int, height: int, max_iter: int) -> Pixel {
    if escapes_within(spec_map_x(x, width), spec_map_y(y, height), max_iter) {
        Pixel::white_spec()
    } else {
        Pixel::black_spec()
    }
}

/// The real coordinate framed for column `x` of a `width`-column image:
/// `(x / width - 0.75) * 3.5` in fixed point, covering roughly
/// `[-2.625, 0.875)`.
pub open spec fn spec_map_x(x: int, width: int) -> int {
    7 * SCALE * x / (2 * width) - 21 * SCALE / 8
}

/// The imaginary coordinate framed for row `y` of a `height`-row image:
/// `(y / height - 0.5) * 2` in fixed point, covering roughly `[-1, 1)`.
pub open spec fn spec_map_y(y: int, height: int) -> int {
    2 * SCALE * y / height - SCALE
}

/// A quotient `a / SCALE` keeps a bound of `k * SCALE * SCALE` on the
/// numerator as a bound of `k * SCALE`.
proof fn lemma_div_scale_bound(a: int, k: int)
    requires
        0 <= k,
        -(k * (SCALE * SCALE)) <= a <= k * (SCALE * SCALE),
    ensures
        -(k * SCALE) <= a / (SCALE as int) <= k * SCALE,
{
    let s = SCALE as int;
    assert(k * (s * s) == s * (k * s)) by (nonlinear_arith);
    assert(-(k * (s * s)) == s * (-(k * s))) by (nonlinear_arith);
    lemma_div_is_ordered(-(k * (s * s)), a, s);
    lemma_div_is_ordered(a, k * (s * s), s);
    lemma_div_multiples_vanish(k * s, s);
    lemma_div_multiples_vanish(-(k * s), s);
}

/// A squared magnitude within the escape threshold bounds each component by
/// twice the scale.
proof fn lemma_component_bound(zre: int, zim: int)
    requires
        zre * zre + zim * zim <= 4 * (SCALE * SCALE),
    ensures
        -2 * SCALE <= zre <= 2 * SCALE,
        -2 * SCALE <= zim <= 2 * SCALE,
        0 <= zre * zre <= 4 * (SCALE * SCALE),
        0 <= zim * zim <= 4 * (SCALE * SCALE),
{
    assert(zre * zre >= 0) by (nonlinear_arith);
    assert(zim * zim >= 0) by (nonlinear_arith);
    assert(zre * zre <= 40_000_000_000_000_000 ==> -200_000_000 <= zre <= 200_000_000)
        by (nonlinear_arith);
    assert(zim * zim <= 40_000_000_000_000_000 ==> -200_000_000 <= zim <= 200_000_000)
        by (nonlinear_arith);
}

/// A product of two components bounded by twice the scale is bounded by four
/// times the squared scale.
proof fn lemma_cross_bound(zre: int, zim: int)
    requires
        -2 * SCALE <= zre <= 2 * SCALE,
        -2 * SCALE <= zim <= 2 * SCALE,
    ensures
        -4 * (SCALE * SCALE) <= zre * zim <= 4 * (SCALE * SCALE),
{
    assert(-200_000_000 <= zre <= 200_000_000 && -200_000_000 <= zim <= 200_000_000
        ==> -40_000_000_000_000_000 <= zre * zim <= 40_000_000_000_000_000) by (nonlinear_arith);
}

/// Multiplying componentwise bounds of non-negative factors bounds the
/// product.
proof fn lemma_mul_le(a: int, b: int, c: int, d: int)
    requires
        0 <= a <= c,
        0 <= b <= d,
    ensures
        a * b <= c * d,
{
    assert(a * b <= c * d) by (nonlinear_arith)
        requires
            0 <= a <= c,
            0 <= b <= d,
    ;
}

/// Divide a fixed-point product back down by `SCALE`, rounding toward
/// negative infinity.
fn div_scaled(a: i64) -> (r: i64)
    requires
        -8 * (SCALE * SCALE) <= a <= 8 * (SCALE * SCALE),
    ensures
        r == a as int / (SCALE as int),
{
    let shifted = (a + 8 * SCALE * SCALE) as u64;
    let q = shifted / (SCALE as u64);
    proof {
        lemma_hoist_over_denominator(a as int, 8 * SCALE, SCALE as nat);
        lemma_div_scale_bound(shifted as int, 16);
        lemma_div_is_ordered(0, shifted as int, SCALE as int);
    }
    (q as i64) - 8 * SCALE
}

/// Map column `x` of a `width`-column image to its real coordinate.
pub fn map_x(x: usize, width: usize) -> (cx: i64)
    requires
        0 < width <= 0xFFFF_FFFF,
        x < width,
    ensures
        cx == spec_map_x(x as int, width as int),
        -3 * SCALE <= cx <= SCALE,
{
    proof {
        lemma_mul_le(700_000_000, x as int, 700_000_000, 0xFFFF_FFFF);
    }
    let num = 7u64 * (SCALE as u64) * (x as u64);
    let den = 2u64 * (width as u64);
    let t = num / den;
    proof {
        let w = width as int;
        let xi = x as int;
        assert(700_000_000 * xi <= 700_000_000 * w) by (nonlinear_arith)
            requires
                0 <= xi <= w,
        ;
        lemma_div_is_ordered(num as int, 7 * SCALE * w, 2 * w);
        assert(7 * SCALE * w == (2 * w) * 350_000_000) by (nonlinear_arith);
        lemma_div_multiples_vanish(350_000_000, 2 * w);
        lemma_div_is_ordered(0, num as int, 2 * w);
        assert(21 * SCALE / 8 == 262_500_000);
    }
    (t as i64) - 262_500_000
}

/// Map row `y` of a `height`-row image to its imaginary coordinate.
pub fn map_y(y: usize, height: usize) -> (cy: i64)
    requires
        0 < height <= 0xFFFF_FFFF,
        y < height,
    ensures
        cy == spec_map_y(y as int, height as int),
        -3 * SCALE <= cy <= SCALE,
{
    proof {
        lemma_mul_le(200_000_000, y as int, 200_000_000, 0xFFFF_FFFF);
    }
    let num = 2u64 * (SCALE as u64) * (y as u64);
    let t = num / (height as u64);
    proof {
        let h = height as int;
        let yi = y as int;
        assert(200_000_000 * yi <= 200_000_000 * h) by (nonlinear_arith)
            requires
                0 <= yi <= h,
        ;
        lemma_div_is_ordered(num as int, 2 * SCALE * h, h);
        assert(2 * SCALE * h == h * 200_000_000) by (nonlinear_arith);
        lemma_div_multiples_vanish(200_000_000, h);
        lemma_div_is_ordered(0, num as int, h);
    }
    (t as i64) - SCALE
}

/// Check if the complex number `c` belongs to the Mandelbrot set within the
/// given iteration budget: `Some(i)` exactly where iterate `i` is the first
/// to leave the escape radius, `None` where no inspected iterate leaves it.
pub fn check_pixel(c: Complex, max_iter: usize) -> (r: Option<usize>)
    requires
        c.bounded(3 * SCALE as int),
    ensures
        r matches Some(i) ==> i < max_iter && escapes_at(c.re as int, c.im as int, i as int)
            && (forall|j: int| 0 <= j < i ==> !escapes_at(c.re as int, c.im as int, j)),
        r is None ==> !escapes_within(c.re as int, c.im as int, max_iter as int),
{
    let mut z = Complex::default();
    for i in 0..max_iter
        invariant
            c.bounded(3 * SCALE as int),
            z.bounded(11 * SCALE as int),
            (z.re as int, z.im as int) == orbit(c.re as int, c.im as int, i as nat),
            forall|j: int| 0 <= j < i ==> !escapes_at(c.re as int, c.im as int, j),
    {
        if z.mag() > ESCAPE_THRESHOLD {
            return Some(i);
        }
        proof {
            lemma_component_bound(z.re as int, z.im as int);
            lemma_cross_bound(z.re as int, z.im as int);
        }
        let ghost prev = (z.re as int, z.im as int);
        let zz = z.mul(z);
        proof {
            assert(zz.im as int == 2 * (prev.0 * prev.1));
            lemma_div_scale_bound(zz.re as int, 4);
            lemma_div_scale_bound(zz.im as int, 8);
        }
        z = Complex::new(div_scaled(zz.re), div_scaled(zz.im)).add(c);
        proof {
            let cre = c.re as int;
            let cim = c.im as int;
            assert(orbit(cre, cim, (i + 1) as nat) == (
                step_re(prev.0, prev.1, cre),
                step_im(prev.0, prev.1, cim),
            ));
        }
    }
    None
}

/// Distinct grid positions occupy distinct cells of a row-major buffer.
proof fn lemma_row_major_injective(w: int, x1: int, y1: int, x2: int, y2: int)
    requires
        0 <= x1 < w,
        0 <= x2 < w,
        0 <= y1,
        0 <= y2,
        y1 * w + x1 == y2 * w + x2,
    ensures
        x1 == x2,
        y1 == y2,
{
    assert(x1 == x2 && y1 == y2) by (nonlinear_arith)
        requires
            0 <= x1 < w,
            0 <= x2 < w,
            0 <= y1,
            0 <= y2,
            y1 * w + x1 == y2 * w + x2,
    ;
}

/// Return a new [`Image`] with the input dimensions `width` and `height`,
/// which portrays a mandelbrot plot with a maximum of `max_iter` iterations
/// for testing set membership: the cell for `(x, y)` is white where the
/// mapped plane point escapes within the budget and black where it stays
/// bounded.
pub fn generate_image(width: usize, height: usize, max_iter: usize) -> (img: Image)
    requires
        0 < width <= 0xFFFF_FFFF,
        0 < height <= 0xFFFF_FFFF,
        width * height <= usize::MAX,
    ensures
        img.wf(),
        img.width == width,
        img.height == height,
        forall|x: int, y: int|
            0 <= x < width && 0 <= y < height ==> img.pixel_at(x, y) == spec_pixel(
                x,
                y,
                width as int,
                height as int,
                max_iter as int,
            ),
{
    let mut image = Image::new(width, height);
    for y in 0..height
        invariant
            0 < width <= 0xFFFF_FFFF,
            0 < height <= 0xFFFF_FFFF,
            image.wf(),
            image.width == width,
            image.height == height,
            forall|xx: int, yy: int|
                0 <= xx < width && 0 <= yy < y ==> image.pixel_at(xx, yy) == spec_pixel(
                    xx,
                    yy,
                    width as int,
                    height as int,
                    max_iter as int,
                ),
    {
        for x in 0..width
            invariant
                0 < width <= 0xFFFF_FFFF,
                0 < height <= 0xFFFF_FFFF,
                y < height,
                image.wf(),
                image.width == width,
                image.height == height,
                forall|xx: int, yy: int|
                    0 <= xx < width && 0 <= yy < y ==> image.pixel_at(xx, yy) == spec_pixel(
                        xx,
                        yy,
                        width as int,
                        height as int,
                        max_iter as int,
                    ),
                forall|xx: int|
                    0 <= xx < x ==> image.pixel_at(xx, y as int) == spec_pixel(
                        xx,
                        y as int,
                        width as int,
                        height as int,
                        max_iter as int,
                    ),
        {
            let cx = map_x(x, width);
            let cy = map_y(y, height);
            let coord = Complex::new(cx, cy);
            proof {
                assert((y as int) * width + x < width * height) by (nonlinear_arith)
                    requires
                        0 <= x < width,
                        0 <= y < height,
                ;
            }
            let ghost old_image = image;
            let ghost idx = (y as int) * width + x;
            let pixel = image.get_mut(x, y);
            *pixel = match check_pixel(coord, max_iter) {
                Some(_) => Pixel::white(),
                None => Pixel::black(),
            };
            proof {
                let w = width as int;
                let h = height as int;
                let m = max_iter as int;
                assert(image.data@ == old_image.data@.update(idx, image.data@[idx]));
                assert(image.pixel_at(x as int, y as int) == spec_pixel(x as int, y as int, w, h, m));
                assert forall|xx: int, yy: int|
                    0 <= xx < w && 0 <= yy <= y && (yy < y || xx < x)
                        implies image.pixel_at(xx, yy) == spec_pixel(xx, yy, w, h, m) by {
                    assert(0 <= yy * w + xx < w * h) by (nonlinear_arith)
                        requires
                            0 <= xx < w,
                            0 <= yy < h,
                    ;
                    if yy * w + xx == idx {
                        lemma_row_major_injective(w, xx, yy, x as int, y as int);
                    } else {
                        assert(old_image.pixel_at(xx, yy) == spec_pixel(xx, yy, w, h, m));
                        assert(image.pixel_at(xx, yy) == old_image.pixel_at(xx, yy));
                    }
                }
            }
        }
    }
    image
}

/// With a zero iteration budget the escape test inspects no iterate, so no
/// point escapes and every pixel of a generated image classifies as bounded
/// (black).
pub proof fn lemma_zero_budget_black(x: int, y: int, width: int, height: int)
    ensures
        !escapes_within(spec_map_x(x, width), spec_map_y(y, height), 0),
        spec_pixel(x, y, width, height, 0) == Pixel::black_spec(),
{
}

/// With a zero iteration budget every cell of an image that meets the
/// contract of [`generate_image`] is black, so its count of mandelbrot
/// pixels is the whole grid.
pub proof fn lemma_zero_budget_count(img: Image)
    requires
        img.wf(),
        forall|x: int, y: int|
            0 <= x < img.width && 0 <= y < img.height ==> img.pixel_at(x, y) == spec_pixel(
                x,
                y,
                img.width as int,
                img.height as int,
                0,
            ),
    ensures
        forall|x: int, y: int|
            0 <= x < img.width && 0 <= y < img.height ==> img.pixel_at(x, y)
                == Pixel::black_spec(),
        count_mandelbrot(img.data@) == img.width * img.height,
{
    let w = img.width as int;
    let h = img.height as int;
    assert forall|i: int| 0 <= i < img.data@.len() implies (#[trigger] img.data@[i])
        == Pixel::black_spec() by {
        assert(w > 0) by (nonlinear_arith)
            requires
                w * h > 0,
                w >= 0,
        ;
        let x = i % w;
        let y = i / w;
        lemma_fundamental_div_mod(i, w);
        lemma_mod_bound(i, w);
        lemma_div_pos_is_pos(i, w);
        assert(y < h) by {
            lemma_div_is_ordered(i, w * h - 1, w);
            lemma_div_multiples_vanish_fancy(h - 1, w - 1, w);
            assert(w * (h - 1) + (w - 1) == w * h - 1) by (nonlinear_arith);
        }
        lemma_mul_is_commutative(w, y);
        lemma_zero_budget_black(x, y, w, h);
        assert(img.pixel_at(x, y) == img.data@[i]);
    }
    lemma_count_mandelbrot_full(img.data@);
}

/// A pixel's classification is a function of its own coordinates and the
/// image parameters alone, so neither the order in which pixels are visited
/// nor a repetition of the run can change it: any two images whose cells meet
/// the contract of [`generate_image`] for the same parameters are identical,
/// cell by cell.
pub proof fn lemma_generation_deterministic(a: Image, b: Image, max_iter: int)
    requires
        a.wf(),
        b.wf(),
        a.width == b.width,
        a.height == b.height,
        forall|x: int, y: int|
            0 <= x < a.width && 0 <= y < a.height ==> a.pixel_at(x, y) == spec_pixel(
                x,
                y,
                a.width as int,
                a.height as int,
                max_iter,
            ),
        forall|x: int, y: int|
            0 <= x < b.width && 0 <= y < b.height ==> b.pixel_at(x, y) == spec_pixel(
                x,
                y,
                b.width as int,
                b.height as int,
                max_iter,
            ),
    ensures
        a.data@ == b.data@,
{
    let w = a.width as int;
    let h = a.height as int;
    assert forall|i: int| 0 <= i < a.data@.len() implies a.data@[i] == b.data@[i] by {
        assert(w > 0) by (nonlinear_arith)
            requires
                w * h > 0,
                w >= 0,
        ;
        let x = i % w;
        let y = i / w;
        lemma_fundamental_div_mod(i, w);
        lemma_mod_bound(i, w);
        lemma_div_pos_is_pos(i, w);
        assert(y < h) by {
            lemma_div_is_ordered(i, w * h - 1, w);
            lemma_div_multiples_vanish_fancy(h - 1, w - 1, w);
            assert(w * (h - 1) + (w - 1) == w * h - 1) by (nonlinear_arith);
        }
        lemma_mul_is_commutative(w, y);
        assert(a.pixel_at(x, y) == a.data@[i]);
        assert(b.pixel_at(x, y) == b.data@[i]);
    }
    assert(a.data@ =~= b.data@);
}

} // verus!
