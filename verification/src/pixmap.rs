//! The plain-text portable-pixmap codec.
//!
//! An image is written as the header line `P3`, a line `<width> <height>`, a
//! line `255` (the maximum colour value), and one line `<r> <g> <b>` per
//! pixel in row-major order. [`spec_ppm`] states that byte sequence exactly;
//! the renderer is proved to produce it and the parser to invert it.

use vstd::prelude::*;
use crate::image::{Image, Pixel};

verus! {

/// The byte of the decimal digit `d`.
pub open spec fn digit_byte(d: nat) -> u8 {
    (48 + d) as u8
}

/// Decimal digits of `n`, most significant first, without leading zeros.
pub open spec fn dec_digits(n: nat) -> Seq<u8>
    decreases n,
{
    if n < 10 {
        seq![digit_byte(n)]
    } else {
        dec_digits(n / 10).push(digit_byte(n % 10))
    }
}

/// The line written for one pixel: `<r> <g> <b>` and a newline.
pub open spec fn pixel_line(p: Pixel) -> Seq<u8> {
    dec_digits(p.r as nat) + seq![32u8] + dec_digits(p.g as nat) + seq![32u8] + dec_digits(
        p.b as nat,
    ) + seq![10u8]
}

/// The pixel lines of a whole buffer, in buffer order.
pub open spec fn pixel_lines(s: Seq<Pixel>) -> Seq<u8>
    decreases s.len(),
{
    if s.len() == 0 {
        Seq::empty()
    } else {
        pixel_line(s[0]) + pixel_lines(s.skip(1))
    }
}

/// The pixmap text for a `width x height` buffer: `P3`, the dimensions, the
/// maximum colour value `255`, then one line per pixel.
pub open spec fn spec_ppm(width: nat, height: nat, pixels: Seq<Pixel>) -> Seq<u8> {
    seq![80u8, 51u8, 10u8] + dec_digits(width) + seq![32u8] + dec_digits(height) + seq![10u8]
        + dec_digits(255) + seq![10u8] + pixel_lines(pixels)
}

/// Appending a pixel appends its line.
proof fn lemma_pixel_lines_push(s: Seq<Pixel>, p: Pixel)
    ensures
        pixel_lines(s.push(p)) == pixel_lines(s) + pixel_line(p),
    decreases s.len(),
{
    if s.len() == 0 {
        assert(s.push(p)[0] == p);
        assert(s.push(p).skip(1) =~= Seq::<Pixel>::empty());
        assert(pixel_lines(s.push(p)) == pixel_line(p) + pixel_lines(Seq::<Pixel>::empty()));
        assert(pixel_lines(s.push(p)) =~= pixel_lines(s) + pixel_line(p));
    } else {
        assert(s.push(p)[0] == s[0]);
        assert(s.push(p).skip(1) =~= s.skip(1).push(p));
        lemma_pixel_lines_push(s.skip(1), p);
        assert(pixel_lines(s.push(p)) =~= pixel_lines(s) + pixel_line(p));
    }
}

/// Append the decimal digits of `n` to `out`.
fn push_dec(out: &mut Vec<u8>, n: u64)
    ensures
        final(out)@ == old(out)@ + dec_digits(n as nat),
    decreases n,
{
    if n >= 10 {
        push_dec(out, n / 10);
    }
    out.push((48 + n % 10) as u8);
    proof {
        assert(final(out)@ =~= old(out)@ + dec_digits(n as nat));
    }
}

/// Serialize an image as pixmap text.
pub fn render_ppm(img: &Image) -> (out: Vec<u8>)
    ensures
        out@ == spec_ppm(img.width as nat, img.height as nat, img.data@),
{
    let mut out: Vec<u8> = Vec::new();
    out.push(80);
    out.push(51);
    out.push(10);
    push_dec(&mut out, img.width as u64);
    out.push(32);
    push_dec(&mut out, img.height as u64);
    out.push(10);
    push_dec(&mut out, 255);
    out.push(10);
    let ghost header = out@;
    let mut i: usize = 0;
    while i < img.data.len()
        invariant
            i <= img.data@.len(),
            out@ == header + pixel_lines(img.data@.take(i as int)),
        decreases img.data@.len() - i,
    {
        let p = img.data[i];
        push_dec(&mut out, p.r as u64);
        out.push(32);
        push_dec(&mut out, p.g as u64);
        out.push(32);
        push_dec(&mut out, p.b as u64);
        out.push(10);
        proof {
            assert(img.data@.take(i + 1) =~= img.data@.take(i as int).push(p));
            lemma_pixel_lines_push(img.data@.take(i as int), p);
            assert(out@ =~= header + pixel_lines(img.data@.take(i + 1)));
        }
        i = i + 1;
    }
    proof {
        assert(img.data@.take(img.data@.len() as int) =~= img.data@);
        assert(out@ =~= spec_ppm(img.width as nat, img.height as nat, img.data@));
    }
    out
}

/// The text of one pixel as a pixmap line shows it, without the newline.
pub open spec fn pixel_text_bytes(p: Pixel) -> Seq<u8> {
    dec_digits(p.r as nat) + seq![32u8] + dec_digits(p.g as nat) + seq![32u8] + dec_digits(
        p.b as nat,
    )
}

/// Relies on String::from_utf8: UTF-8 decoding accepts ASCII bytes and maps
/// each to the character with the same code.
#[verifier::external_body]
fn ascii_to_string(bytes: Vec<u8>) -> (s: String)
    requires
        forall|i: int| 0 <= i < bytes@.len() ==> bytes@[i] < 128,
    ensures
        s@.len() == bytes@.len(),
        forall|i: int| 0 <= i < bytes@.len() ==> s@[i] == bytes@[i] as char,
{
    match String::from_utf8(bytes) {
        Ok(s) => s,
        Err(_) => String::new(),
    }
}

impl Pixel {
    /// The pixel's readable form `<r> <g> <b>`, as a pixmap line shows it.
    pub fn text(&self) -> (s: String)
        ensures
            s@.len() == pixel_text_bytes(*self).len(),
            forall|i: int|
                0 <= i < s@.len() ==> s@[i] == pixel_text_bytes(*self)[i] as char,
    {
        let mut bytes: Vec<u8> = Vec::new();
        push_dec(&mut bytes, self.r as u64);
        bytes.push(32);
        push_dec(&mut bytes, self.g as u64);
        bytes.push(32);
        push_dec(&mut bytes, self.b as u64);
        proof {
            assert(bytes@ =~= pixel_text_bytes(*self));
            lemma_dec_digits_digits(self.r as nat);
            lemma_dec_digits_digits(self.g as nat);
            lemma_dec_digits_digits(self.b as nat);
            let rd = dec_digits(self.r as nat);
            let gd = dec_digits(self.g as nat);
            let bd = dec_digits(self.b as nat);
            assert forall|i: int| 0 <= i < bytes@.len() implies bytes@[i] < 128 by {
                let k1 = rd.len() as int;
                let k2 = gd.len() as int;
                if i < k1 {
                    assert(bytes@[i] == rd[i]);
                } else if i == k1 {
                } else if i < k1 + 1 + k2 {
                    assert(bytes@[i] == gd[i - (k1 + 1)]);
                } else if i == k1 + 1 + k2 {
                } else {
                    assert(bytes@[i] == bd[i - (k1 + 1 + k2 + 1)]);
                }
            }
        }
        ascii_to_string(bytes)
    }
}

/// The byte holds a decimal digit.
pub open spec fn is_digit(b: u8) -> bool {
    48 <= b <= 57
}

/// First position at or after `pos` that does not hold a digit.
pub open spec fn digits_end(s: Seq<u8>, pos: int) -> int
    decreases s.len() - pos
        when 0 <= pos <= s.len()
{
    if pos == s.len() || !is_digit(s[pos]) {
        pos
    } else {
        digits_end(s, pos + 1)
    }
}

/// Decimal value of the digit run at `pos`, folded onto `acc`.
pub open spec fn digits_value(s: Seq<u8>, pos: int, acc: nat) -> nat
    decreases s.len() - pos
        when 0 <= pos <= s.len()
{
    if pos == s.len() || !is_digit(s[pos]) {
        acc
    } else {
        digits_value(s, pos + 1, (acc * 10 + (s[pos] - 48)) as nat)
    }
}

/// The digit run at `pos` ends between `pos` and the end of the input, and
/// strictly after `pos` when a digit stands there.
proof fn lemma_digits_end_bounds(s: Seq<u8>, pos: int)
    requires
        0 <= pos <= s.len(),
    ensures
        pos <= digits_end(s, pos) <= s.len(),
        pos < s.len() && is_digit(s[pos]) ==> digits_end(s, pos) > pos,
    decreases s.len() - pos,
{
    if pos < s.len() && is_digit(s[pos]) {
        lemma_digits_end_bounds(s, pos + 1);
    }
}

/// Parse pixel lines from `pos` to the end of the input: one `<r> <g> <b>`
/// line per pixel, each channel at most `255`.
pub open spec fn parse_pixels(s: Seq<u8>, pos: int) -> Option<Seq<Pixel>>
    decreases s.len() - pos
        when 0 <= pos <= s.len()
        via parse_pixels_decreases
{
    if pos == s.len() {
        Some(Seq::empty())
    } else if !is_digit(s[pos]) {
        None
    } else {
        let r = digits_value(s, pos, 0);
        let p1 = digits_end(s, pos);
        if !(p1 < s.len() && s[p1] == 32 && p1 + 1 < s.len() && is_digit(s[p1 + 1])) {
            None
        } else {
            let g = digits_value(s, p1 + 1, 0);
            let p2 = digits_end(s, p1 + 1);
            if !(p2 < s.len() && s[p2] == 32 && p2 + 1 < s.len() && is_digit(s[p2 + 1])) {
                None
            } else {
                let b = digits_value(s, p2 + 1, 0);
                let p3 = digits_end(s, p2 + 1);
                if !(p3 < s.len() && s[p3] == 10 && r <= 255 && g <= 255 && b <= 255) {
                    None
                } else {
                    match parse_pixels(s, p3 + 1) {
                        None => None,
                        Some(rest) => Some(
                            seq![(Pixel { r: r as u8, g: g as u8, b: b as u8 })] + rest,
                        ),
                    }
                }
            }
        }
    }
}

#[via_fn]
proof fn parse_pixels_decreases(s: Seq<u8>, pos: int) {
    if pos < s.len() && is_digit(s[pos]) {
        lemma_digits_end_bounds(s, pos);
        let p1 = digits_end(s, pos);
        if p1 < s.len() && s[p1] == 32 && p1 + 1 < s.len() && is_digit(s[p1 + 1]) {
            lemma_digits_end_bounds(s, p1 + 1);
            let p2 = digits_end(s, p1 + 1);
            if p2 < s.len() && s[p2] == 32 && p2 + 1 < s.len() && is_digit(s[p2 + 1]) {
                lemma_digits_end_bounds(s, p2 + 1);
            }
        }
    }
}

/// Parse a whole pixmap text: the `P3` header, the dimensions, the maximum
/// colour value `255`, then the pixel lines, whose number must match the
/// dimensions. Dimensions above the machine bound are rejected.
pub open spec fn parse_ppm_spec(s: Seq<u8>) -> Option<(nat, nat, Seq<Pixel>)> {
    if !(3 < s.len() && s[0] == 80 && s[1] == 51 && s[2] == 10 && is_digit(s[3])) {
        None
    } else {
        let w = digits_value(s, 3, 0);
        let p1 = digits_end(s, 3);
        if !(p1 < s.len() && s[p1] == 32 && p1 + 1 < s.len() && is_digit(s[p1 + 1])) {
            None
        } else {
            let h = digits_value(s, p1 + 1, 0);
            let p2 = digits_end(s, p1 + 1);
            if !(p2 < s.len() && s[p2] == 10 && p2 + 1 < s.len() && is_digit(s[p2 + 1])) {
                None
            } else {
                let maxv = digits_value(s, p2 + 1, 0);
                let p3 = digits_end(s, p2 + 1);
                if !(p3 < s.len() && s[p3] == 10 && maxv == 255 && w <= usize::MAX && h
                    <= usize::MAX) {
                    None
                } else {
                    match parse_pixels(s, p3 + 1) {
                        None => None,
                        Some(pix) => if pix.len() == w * h {
                            Some((w, h, pix))
                        } else {
                            None
                        },
                    }
                }
            }
        }
    }
}

/// Scan the digit run at `start`: its end, and its value where that fits a
/// machine word.
fn scan_nat(bytes: &[u8], start: usize) -> (res: (Option<u64>, usize))
    requires
        start <= bytes@.len(),
    ensures
        res.1 == digits_end(bytes@, start as int),
        res.0 matches Some(v) ==> v == digits_value(bytes@, start as int, 0) && v <= usize::MAX,
        res.0 is None ==> digits_value(bytes@, start as int, 0) > usize::MAX,
{
    let ghost s = bytes@;
    let n = bytes.len();
    let mut i = start;
    let mut v: u64 = 0;
    let mut big = false;
    let ghost mut acc: nat = 0;
    while i < n && 48 <= bytes[i] && bytes[i] <= 57
        invariant
            start <= i <= n,
            n == s.len(),
            s == bytes@,
            digits_end(s, start as int) == digits_end(s, i as int),
            digits_value(s, start as int, 0) == digits_value(s, i as int, acc),
            !big ==> acc == v && v <= usize::MAX,
            big ==> acc > usize::MAX,
        decreases n - i,
    {
        let d = bytes[i] - 48;
        if !big {
            let stepped = match v.checked_mul(10) {
                Some(m) => m.checked_add(d as u64),
                None => None,
            };
            match stepped {
                Some(nv) => {
                    if nv > (usize::MAX as u64) {
                        big = true;
                    }
                    v = nv;
                },
                None => {
                    big = true;
                },
            }
        }
        proof {
            let old_acc = acc;
            acc = (acc * 10 + d) as nat;
            assert(digits_value(s, i as int, old_acc) == digits_value(s, i + 1, acc));
        }
        i = i + 1;
    }
    if big {
        (None, i)
    } else {
        (Some(v), i)
    }
}

/// Parse pixmap text back into an image: `Some` exactly on the texts that
/// [`parse_ppm_spec`] accepts, returning the image it describes.
#[verifier::loop_isolation(false)]
pub fn parse_ppm(bytes: &[u8]) -> (res: Option<Image>)
    ensures
        res matches Some(img) ==> img.wf() && parse_ppm_spec(bytes@) == Some(
            (img.width as nat, img.height as nat, img.data@),
        ),
        res is None ==> parse_ppm_spec(bytes@) is None,
{
    let ghost s = bytes@;
    let n = bytes.len();
    if !(n > 3 && bytes[0] == 80 && bytes[1] == 51 && bytes[2] == 10 && 48 <= bytes[3]
        && bytes[3] <= 57) {
        return None;
    }
    let (wv, p1) = scan_nat(bytes, 3);
    if !(p1 < n && bytes[p1] == 32 && p1 + 1 < n && 48 <= bytes[p1 + 1] && bytes[p1 + 1] <= 57) {
        return None;
    }
    let (hv, p2) = scan_nat(bytes, p1 + 1);
    if !(p2 < n && bytes[p2] == 10 && p2 + 1 < n && 48 <= bytes[p2 + 1] && bytes[p2 + 1] <= 57) {
        return None;
    }
    let (mv, p3) = scan_nat(bytes, p2 + 1);
    if !(p3 < n && bytes[p3] == 10) {
        return None;
    }
    let max_ok = match mv {
        Some(m) => m == 255,
        None => false,
    };
    if !max_ok {
        return None;
    }
    let w = match wv {
        Some(w) => w,
        None => {
            return None;
        },
    };
    let h = match hv {
        Some(h) => h,
        None => {
            return None;
        },
    };
    let ghost top: int = p3 as int + 1;
    let mut data: Vec<Pixel> = Vec::new();
    let mut pos = p3 + 1;
    while pos < n
        invariant
            top <= pos <= n,
            parse_pixels(s, pos as int) matches Some(rest) ==> parse_pixels(s, top) == Some(
                data@ + rest,
            ),
            parse_pixels(s, pos as int) is None ==> parse_pixels(s, top) is None,
        decreases n - pos,
    {
        if !(48 <= bytes[pos] && bytes[pos] <= 57) {
            return None;
        }
        let (rv, q1) = scan_nat(bytes, pos);
        if !(q1 < n && bytes[q1] == 32 && q1 + 1 < n && 48 <= bytes[q1 + 1] && bytes[q1 + 1]
            <= 57) {
            return None;
        }
        let (gv, q2) = scan_nat(bytes, q1 + 1);
        if !(q2 < n && bytes[q2] == 32 && q2 + 1 < n && 48 <= bytes[q2 + 1] && bytes[q2 + 1]
            <= 57) {
            return None;
        }
        let (bv, q3) = scan_nat(bytes, q2 + 1);
        if !(q3 < n && bytes[q3] == 10) {
            return None;
        }
        let rr = match rv {
            Some(v) => v,
            None => {
                return None;
            },
        };
        let gg = match gv {
            Some(v) => v,
            None => {
                return None;
            },
        };
        let bb = match bv {
            Some(v) => v,
            None => {
                return None;
            },
        };
        if rr > 255 || gg > 255 || bb > 255 {
            return None;
        }
        proof {
            lemma_digits_end_bounds(s, pos as int);
            lemma_digits_end_bounds(s, q1 as int + 1);
            lemma_digits_end_bounds(s, q2 as int + 1);
        }
        let ghost old_data = data@;
        let p = Pixel::new(rr as u8, gg as u8, bb as u8);
        data.push(p);
        proof {
            assert(parse_pixels(s, pos as int) == match parse_pixels(s, q3 + 1) {
                None => None,
                Some(rest) => Some(seq![p] + rest),
            });
            match parse_pixels(s, q3 + 1) {
                Some(rest) => {
                    assert(old_data + (seq![p] + rest) =~= data@ + rest);
                },
                None => {},
            }
        }
        pos = q3 + 1;
    }
    proof {
        assert(parse_pixels(s, pos as int) == Some(Seq::<Pixel>::empty()));
        assert(data@ + Seq::<Pixel>::empty() =~= data@);
        assert(parse_pixels(s, top) == Some(data@));
    }
    let len = data.len();
    let count_ok = match w.checked_mul(h) {
        Some(cells) => cells == len as u64,
        None => false,
    };
    if !count_ok {
        proof {
            assert(usize::MAX <= u64::MAX);
            assert(len <= usize::MAX);
        }
        return None;
    }
    let img = Image { width: w as usize, height: h as usize, data };
    proof {
        assert(img.wf());
    }
    Some(img)
}

/// Powers of ten.
spec fn pow10(k: nat) -> nat
    decreases k,
{
    if k == 0 {
        1
    } else {
        10 * pow10((k - 1) as nat)
    }
}

/// A decimal rendering is never empty and holds only digits.
proof fn lemma_dec_digits_digits(n: nat)
    ensures
        dec_digits(n).len() >= 1,
        forall|i: int| 0 <= i < dec_digits(n).len() ==> is_digit(#[trigger] dec_digits(n)[i]),
    decreases n,
{
    if n >= 10 {
        lemma_dec_digits_digits(n / 10);
        assert forall|i: int| 0 <= i < dec_digits(n).len() implies is_digit(
            dec_digits(n)[i],
        ) by {
            if i < dec_digits(n / 10).len() {
                assert(dec_digits(n)[i] == dec_digits(n / 10)[i]);
            } else {
                assert(dec_digits(n)[i] == digit_byte(n % 10));
            }
        }
    }
}

/// Scanning a decimal rendering folds its value onto the accumulator and
/// moves to its end.
proof fn lemma_scan_digits(s: Seq<u8>, pos: int, n: nat, acc: nat)
    requires
        0 <= pos,
        pos + dec_digits(n).len() <= s.len(),
        s.subrange(pos, pos + dec_digits(n).len()) == dec_digits(n),
    ensures
        digits_end(s, pos) == digits_end(s, pos + dec_digits(n).len()),
        digits_value(s, pos, acc) == digits_value(
            s,
            pos + dec_digits(n).len(),
            (acc * pow10(dec_digits(n).len()) + n) as nat,
        ),
    decreases n,
{
    let k = dec_digits(n).len() as int;
    lemma_dec_digits_digits(n);
    if n < 10 {
        assert(s[pos] == dec_digits(n)[0]);
        assert(s[pos] == 48 + n);
        assert(digits_value(s, pos, acc) == digits_value(s, pos + 1, (acc * 10 + n) as nat));
        assert(pow10(1) == 10 * pow10(0));
    } else {
        let m = n / 10;
        let kd = dec_digits(m).len() as int;
        assert(dec_digits(n) == dec_digits(m).push(digit_byte(n % 10)));
        assert(k == kd + 1);
        assert forall|i: int| 0 <= i < kd implies s.subrange(pos, pos + kd)[i] == dec_digits(
            m,
        )[i] by {
            assert(s[pos + i] == dec_digits(n)[i]);
        }
        assert(s.subrange(pos, pos + kd) =~= dec_digits(m));
        lemma_scan_digits(s, pos, m, acc);
        assert(s[pos + kd] == dec_digits(n)[kd]);
        assert(s[pos + kd] == digit_byte(n % 10));
        assert(is_digit(s[pos + kd]));
        let mid = (acc * pow10(kd as nat) + m) as nat;
        assert(digits_end(s, pos + kd) == digits_end(s, pos + k));
        assert(digits_value(s, pos + kd, mid) == digits_value(
            s,
            pos + k,
            (mid * 10 + (n % 10)) as nat,
        ));
        assert(pow10((kd + 1) as nat) == 10 * pow10(kd as nat));
        assert((acc * pow10(kd as nat) + n / 10) * 10 + n % 10 == acc * (10 * pow10(kd as nat))
            + (10 * (n / 10) + n % 10)) by (nonlinear_arith);
        assert(10 * (n / 10) + n % 10 == n);
    }
}

/// A decimal rendering followed by a non-digit scans exactly to its value.
proof fn lemma_scan_number(s: Seq<u8>, pos: int, n: nat)
    requires
        0 <= pos,
        pos + dec_digits(n).len() <= s.len(),
        s.subrange(pos, pos + dec_digits(n).len()) == dec_digits(n),
        pos + dec_digits(n).len() == s.len() || !is_digit(s[pos + dec_digits(n).len()]),
    ensures
        digits_end(s, pos) == pos + dec_digits(n).len(),
        digits_value(s, pos, 0) == n,
{
    let k = dec_digits(n).len() as int;
    lemma_scan_digits(s, pos, n, 0);
    assert(digits_end(s, pos + k) == pos + k);
    assert((0 * pow10(k as nat) + n) as nat == n);
    assert(digits_value(s, pos + k, n) == n);
}

/// Pixel lines standing at `pos` up to the end of the input parse back to
/// exactly their pixels.
proof fn lemma_parse_pixel_lines(s: Seq<u8>, pos: int, q: Seq<Pixel>)
    requires
        0 <= pos <= s.len(),
        s.subrange(pos, s.len() as int) == pixel_lines(q),
    ensures
        parse_pixels(s, pos) == Some(q),
    decreases q.len(),
{
    if q.len() == 0 {
        assert(pos == s.len());
        assert(Seq::<Pixel>::empty() =~= q);
    } else {
        let p = q[0];
        let rd = dec_digits(p.r as nat);
        let gd = dec_digits(p.g as nat);
        let bd = dec_digits(p.b as nat);
        lemma_dec_digits_digits(p.r as nat);
        lemma_dec_digits_digits(p.g as nat);
        lemma_dec_digits_digits(p.b as nat);
        let k1 = rd.len() as int;
        let k2 = gd.len() as int;
        let k3 = bd.len() as int;
        let line = pixel_line(p);
        let tail = pixel_lines(q.skip(1));
        assert(pixel_lines(q) == line + tail);
        let llen = k1 + 1 + k2 + 1 + k3 + 1;
        assert(line.len() == llen);
        assert(pos + llen <= s.len());
        let a1 = pos + k1;
        let a2 = a1 + 1 + k2;
        let a3 = a2 + 1 + k3;
        assert forall|i: int| pos <= i < pos + llen implies s[i] == line[i - pos] by {
            assert(s[i] == s.subrange(pos, s.len() as int)[i - pos]);
        }
        assert(s.subrange(pos, a1) =~= rd);
        assert(s[a1] == 32);
        assert(s.subrange(a1 + 1, a2) =~= gd);
        assert(s[a2] == 32);
        assert(s.subrange(a2 + 1, a3) =~= bd);
        assert(s[a3] == 10);
        lemma_scan_number(s, pos, p.r as nat);
        lemma_scan_number(s, a1 + 1, p.g as nat);
        lemma_scan_number(s, a2 + 1, p.b as nat);
        assert forall|i: int| a3 + 1 <= i < s.len() implies s[i] == tail[i - (a3 + 1)] by {
            assert(s[i] == s.subrange(pos, s.len() as int)[i - pos]);
        }
        assert(s.subrange(a3 + 1, s.len() as int) =~= tail);
        lemma_parse_pixel_lines(s, a3 + 1, q.skip(1));
        assert(seq![(Pixel { r: p.r, g: p.g, b: p.b })] + q.skip(1) =~= q);
        assert(parse_pixels(s, pos) == Some(q));
    }
}

/// Serializing an image and re-parsing the pixmap text recovers the width,
/// the height and every pixel. The dimension bounds hold of every image the
/// machine can represent, since its fields are machine words.
pub proof fn lemma_ppm_round_trip(width: nat, height: nat, pixels: Seq<Pixel>)
    requires
        width <= usize::MAX,
        height <= usize::MAX,
        pixels.len() == width * height,
    ensures
        parse_ppm_spec(spec_ppm(width, height, pixels)) == Some((width, height, pixels)),
{
    let s = spec_ppm(width, height, pixels);
    let wd = dec_digits(width);
    let hd = dec_digits(height);
    let md = dec_digits(255);
    lemma_dec_digits_digits(width);
    lemma_dec_digits_digits(height);
    lemma_dec_digits_digits(255);
    let k1 = wd.len() as int;
    let k2 = hd.len() as int;
    let k3 = md.len() as int;
    let b1 = 3 + k1;
    let b2 = b1 + 1 + k2;
    let b3 = b2 + 1 + k3;
    assert(s.len() == b3 + 1 + pixel_lines(pixels).len());
    assert(s[0] == 80 && s[1] == 51 && s[2] == 10);
    assert(s.subrange(3, b1) =~= wd);
    assert(s[b1] == 32);
    assert(s.subrange(b1 + 1, b2) =~= hd);
    assert(s[b2] == 10);
    assert(s.subrange(b2 + 1, b3) =~= md);
    assert(s[b3] == 10);
    assert(s[3] == wd[0]);
    lemma_scan_number(s, 3, width);
    lemma_scan_number(s, b1 + 1, height);
    lemma_scan_number(s, b2 + 1, 255);
    assert(s.subrange(b3 + 1, s.len() as int) =~= pixel_lines(pixels));
    lemma_parse_pixel_lines(s, b3 + 1, pixels);
}

} // verus!
