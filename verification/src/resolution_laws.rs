//! What holds of every size that a picture is given, and of names.

use vstd::arithmetic::div_mod::{lemma_fundamental_div_mod, lemma_fundamental_div_mod_converse};
use vstd::arithmetic::power2::{
    lemma2_to64, lemma2_to64_rest, lemma_pow2_adds, lemma_pow2_pos, lemma_pow2_unfold, pow2,
};
use vstd::prelude::*;

use crate::binary64::{
    exponent_of, lemma_exact_shifted, lemma_nearest_error, lemma_nearest_up_monotone,
    lemma_relative_error, lemma_size_at_most, lemma_size_increases, lemma_small_int, nearest_up,
    significand_of, size_of_magnitude, unit, Real,
};
use crate::nearest::{
    lemma_nearest_monotone, lemma_pow2_le, nearest_magnitude, INFINITE, TWO52, TWO53,
};
use crate::pipeline::{
    codec_named, even_pixels, mode_named, name_key, preset_named, resolution_named,
    OutputResolution, Preset,
};
use crate::text::{ascii_lower, ascii_lower_char, is_ascii_text, trim, trim_end, trim_start, white};

verus! {

proof fn lemma_int_size(i: nat)
    requires
        i <= u32::MAX,
    ensures
        Real::of_int(i as int).finite(),
        !Real::of_int(i as int).negative(),
        Real::of_int(i as int).size() == i * unit(),
        unit() > 0,
        i > 0 ==> !Real::of_int(i as int).zero(),
{
    lemma_small_int(i as int);
    let r = Real::of_int(i as int);
    assert(!r.negative()) by {
        assert(nearest_magnitude(i * unit(), 1) <= INFINITE);
    }
    assert(r.size() == i * unit());
    if i > 0 && r.zero() {
        lemma2_to64();
        assert(size_of_magnitude(0) == 0) by {
            assert(significand_of(0) == 0);
            assert(0 * pow2(exponent_of(0)) == 0);
        }
        let u = unit();
        assert(i * u > 0) by (nonlinear_arith)
            requires
                i > 0,
                u > 0,
        ;
    }
}

/// The quotient of two positive integers, as a magnitude.
proof fn lemma_int_quotient(a: nat, b: nat)
    requires
        0 < a <= u32::MAX,
        0 < b <= u32::MAX,
    ensures
        ({
            let q = Real::of_int(a as int).quotient(Real::of_int(b as int));
            &&& !q.nan()
            &&& !q.negative()
            &&& q.magnitude() == nearest_magnitude((a * unit()) * unit(), b * unit())
        }),
{
    reveal(Real::quotient);
    lemma_int_size(a);
    lemma_int_size(b);
    assert(nearest_magnitude((a * unit()) * unit(), b * unit()) <= INFINITE);
}

/// A quotient of integers below one is at most one, and close to the exact one.
proof fn lemma_small_quotient(a: nat, b: nat)
    requires
        0 < a < b <= u32::MAX,
    ensures
        ({
            let q = Real::of_int(a as int).quotient(Real::of_int(b as int));
            &&& !q.nan()
            &&& !q.negative()
            &&& q.finite()
            &&& q.size() <= unit()
            &&& b * q.size() <= a * unit() + b * pow2(1020)
        }),
{
    lemma_int_quotient(a, b);
    let u = unit();
    let n = (a * u) * u;
    let d = b * u;
    lemma_pow2_pos(1074);
    lemma2_to64();
    lemma2_to64_rest();
    let p = pow2(1021);
    lemma_pow2_adds(53, 1021);
    assert(d * TWO53 * p == (b * u) * u) by (nonlinear_arith)
        requires
            d == b * u,
            TWO53 * p == u,
    ;
    assert(n < (b * u) * u && d > 0 && n * 1 <= u * d) by (nonlinear_arith)
        requires
            a < b,
            u > 0,
            n == (a * u) * u,
            d == b * u,
    ;
    lemma_nearest_error(n, d, 1021);
    lemma_nearest_monotone(n, d, u, 1);
    assert(1 * u == u);
    lemma_exact_shifted(1, 1074);
    let m = nearest_magnitude(n, d);
    let f = size_of_magnitude(m) as int;
    lemma_size_at_most(m, nearest_magnitude(u, 1));
    lemma_pow2_unfold(1021);
    let h = pow2(1020) as int;
    assert(b * f <= a * u + b * h) by (nonlinear_arith)
        requires
            2 * (f * d) <= 2 * n + d * p,
            p == 2 * h,
            n == (a * u) * u,
            d == b * u,
            u > 0,
    ;
}

/// A product of an integer and a number is not above a bound that is a number of
/// its own.
proof fn lemma_bounded_product(w: nat, f: Real, a: nat, k: nat)
    requires
        0 < w <= u32::MAX,
        f.finite(),
        !f.negative(),
        0 < a < TWO53,
        k <= 1990,
        w * f.size() <= a * pow2(k),
    ensures
        ({
            let p = Real::of_int(w as int).product(f);
            p.rounded() <= nearest_up(a * pow2(k), unit())
        }),
{
    reveal(Real::product);
    lemma_int_size(w);
    let u = unit();
    let n = (w * u) * f.size();
    let r = a * pow2(k);
    assert(n * 1 <= r * u) by (nonlinear_arith)
        requires
            n == (w * u) * f.size(),
            w * f.size() <= r,
            u > 0,
    ;
    lemma_nearest_monotone(n, u, r, 1);
    lemma_exact_shifted(a, k);
    lemma_size_at_most(nearest_magnitude(n, u), nearest_magnitude(r, 1));
    let p = Real::of_int(w as int).product(f);
    assert(p.magnitude() == nearest_magnitude(n, u));
    lemma_nearest_up_monotone(p.size(), r, u);
}

/// The factor that a picture is shrunk by is not above either of the ratios of
/// the box to the picture.
proof fn lemma_factor(res: OutputResolution, width: u32, height: u32)
    requires
        !res.keeps(width, height),
    ensures
        ({
            let f = res.shrink_factor(width, height);
            let (bw, bh) = res.fitting_box(width, height);
            &&& f.finite()
            &&& !f.negative()
            &&& f.size() <= unit()
            &&& width > bw ==> width * f.size() <= bw * unit() + width * pow2(1020)
            &&& height > bh ==> height * f.size() <= bh * unit() + height * pow2(1020)
        }),
{
    let (bw, bh) = res.fitting_box(width, height);
    let w = width as nat;
    let h = height as nat;
    let fw = Real::of_int(bw as int).quotient(Real::of_int(w as int));
    let fh = Real::of_int(bh as int).quotient(Real::of_int(h as int));
    lemma_int_quotient(bw as nat, w);
    lemma_int_quotient(bh as nat, h);
    if w > bw {
        lemma_small_quotient(bw as nat, w);
    }
    if h > bh {
        lemma_small_quotient(bh as nat, h);
    }
    let f = fw.least(fh);
    assert(f.size() <= fw.size() && f.size() <= fh.size());
    let s = f.size() as int;
    if w > bw {
        assert(w * s <= w * fw.size()) by (nonlinear_arith)
            requires
                s <= fw.size(),
                w >= 0,
        ;
        if f == fh {
            lemma_magnitude_at_most(fh, fw);
        }
    }
    if h > bh {
        assert(h * s <= h * fh.size()) by (nonlinear_arith)
            requires
                s <= fh.size(),
                h >= 0,
        ;
        if f == fw {
            lemma_magnitude_at_most(fw, fh);
        }
    }
}

/// A number that is not above a finite one is finite.
proof fn lemma_magnitude_at_most(a: Real, b: Real)
    requires
        !a.nan(),
        a.size() <= b.size(),
    ensures
        a.magnitude() <= b.magnitude(),
{
    if b.magnitude() < a.magnitude() {
        lemma_size_increases(b.magnitude(), a.magnitude());
    }
}

/// A picture is never made larger on either side, but that each side has at least
/// two pixels.
pub proof fn law_target_never_upscales(res: OutputResolution, width: u32, height: u32)
    requires
        width >= 2,
        height >= 2,
    ensures
        res.target(width, height).0 <= width,
        res.target(width, height).1 <= height,
{
    if !res.keeps(width, height) {
        lemma_factor(res, width, height);
        let f = res.shrink_factor(width, height);
        lemma_side_kept(width, f);
        lemma_side_kept(height, f);
    }
}

proof fn lemma_side_kept(side: u32, f: Real)
    requires
        side > 0,
        f.finite(),
        !f.negative(),
        f.size() <= unit(),
    ensures
        Real::of_int(side as int).product(f).rounded() <= side,
        side >= 2 ==> even_pixels(Real::of_int(side as int).product(f)) <= side,
{
    let u = unit();
    lemma_pow2_pos(1074);
    assert(side as nat * f.size() <= side as nat * u) by (nonlinear_arith)
        requires
            f.size() <= u,
            side >= 0,
    ;
    lemma_bounded_product(side as nat, f, side as nat, 1074);
    lemma_fundamental_div_mod_converse((side as nat * u) as int, u as int, side as int, 0);
}

/// A picture that is made smaller fits the box on both sides.
pub proof fn law_target_fits_the_box(res: OutputResolution, width: u32, height: u32)
    requires
        res.sides().is_some(),
        width > 0,
        height > 0,
    ensures
        res.target(width, height).0 <= res.fitting_box(width, height).0,
        res.target(width, height).1 <= res.fitting_box(width, height).1,
{
    if !res.keeps(width, height) {
        lemma_factor(res, width, height);
        let f = res.shrink_factor(width, height);
        let (bw, bh) = res.fitting_box(width, height);
        lemma_side_fits(width, bw, f);
        lemma_side_fits(height, bh, f);
    }
}

proof fn lemma_side_fits(side: u32, limit: u32, f: Real)
    requires
        side > 0,
        2 <= limit <= 3840,
        f.finite(),
        !f.negative(),
        f.size() <= unit(),
        side > limit ==> side * f.size() <= limit * unit() + side * pow2(1020),
    ensures
        even_pixels(Real::of_int(side as int).product(f)) <= limit,
{
    if side <= limit {
        lemma_side_kept(side, f);
    } else {
        let u = unit();
        lemma2_to64();
        lemma2_to64_rest();
        lemma_pow2_pos(1074);
        lemma_pow2_pos(1052);
        lemma_pow2_adds(32, 1020);
        lemma_pow2_adds(22, 1052);
        let p = pow2(1052) as int;
        assert(side * pow2(1020) <= p) by (nonlinear_arith)
            requires
                side <= u32::MAX,
                p == 0x1_0000_0000 * pow2(1020),
                pow2(1020) >= 0,
        ;
        let a = (limit * 0x40_0000 + 1) as nat;
        assert(a * p == limit * u + p) by (nonlinear_arith)
            requires
                u == 0x40_0000 * p,
                a == limit * 0x40_0000 + 1,
        ;
        lemma_bounded_product(side as nat, f, a, 1052);
        assert(2 * p < u);
        lemma_fundamental_div_mod_converse((a * p) as int, u as int, limit as int, p);
        assert(nearest_up(a * pow2(1052), u) == limit);
    }
}

/// A picture that is given a size has an even number of pixels on both sides, and at
/// least two.
pub proof fn law_target_is_even(res: OutputResolution, width: u32, height: u32)
    requires
        res.sides().is_some(),
        width >= 2,
        height >= 2,
    ensures
        res.target(width, height).0 % 2 == 0,
        res.target(width, height).1 % 2 == 0,
        res.target(width, height).0 >= 2,
        res.target(width, height).1 >= 2,
{
}

/// A side is at most two pixels away from the exact share of it.
proof fn lemma_side_near(side: u32, f: Real)
    requires
        side > 0,
        f.finite(),
        !f.negative(),
        f.size() <= unit(),
    ensures
        ({
            let t = even_pixels(Real::of_int(side as int).product(f));
            &&& t * unit() <= side * f.size() + 2 * unit()
            &&& t * unit() + 2 * unit() >= side * f.size()
        }),
{
    reveal(Real::product);
    lemma_int_size(side as nat);
    lemma2_to64();
    lemma2_to64_rest();
    lemma_pow2_adds(32, 1074);
    lemma_pow2_adds(53, 1054);
    lemma_pow2_adds(20, 1054);
    let u = unit() as int;
    let exact = (side * f.size()) as int;
    let n = (side as nat * unit()) * f.size();
    assert(n == exact * u) by (nonlinear_arith)
        requires
            n == (side * u) * f.size(),
            exact == side * f.size(),
    ;
    assert(0 <= exact <= u32::MAX * u) by (nonlinear_arith)
        requires
            exact == side * f.size(),
            0 <= side <= u32::MAX,
            0 <= f.size() <= u,
    ;
    assert(exact < TWO53 * pow2(1054));
    assert(n < unit() * TWO53 * pow2(1054)) by (nonlinear_arith)
        requires
            n == exact * u,
            exact < TWO53 * pow2(1054),
            u > 0,
            u == unit(),
    ;
    lemma_nearest_error(n, unit(), 1054);
    let p = Real::of_int(side as int).product(f);
    assert(p.magnitude() == nearest_magnitude(n, unit()));
    assert(!p.negative() && !p.nan());
    let y = p.size() as int;
    let e = pow2(1054) as int;
    assert(2 * y <= 2 * exact + e && 2 * y + e >= 2 * exact) by (nonlinear_arith)
        requires
            2 * (y * u) <= 2 * n + u * e,
            2 * (y * u) + u * e >= 2 * n,
            n == exact * u,
            u > 0,
    ;
    let r = p.rounded();
    lemma_fundamental_div_mod(y, u);
    let q = y / u;
    assert(u * q == q * u) by (nonlinear_arith);
    assert((q + 1) * u == q * u + u) by (nonlinear_arith);
    assert(2 * (r * u) <= 2 * y + u && 2 * (r * u) + u >= 2 * y);
    let t = even_pixels(p) as int;
    lemma_side_kept(side, f);
    if r >= 2 {
        assert(t == r || t == r - 1);
        assert((r - 1) * u == r * u - u) by (nonlinear_arith);
    } else {
        assert(r * u <= u) by (nonlinear_arith)
            requires
                r <= 1,
                u > 0,
        ;
        assert(2 * u == t * u);
    }
}

/// The sides of a picture keep their ratio, as near as even sides of at least two
/// pixels can: multiplied crosswise with the original sides, they differ by no more
/// than twice the sum of these.
pub proof fn law_target_keeps_ratio(res: OutputResolution, width: u32, height: u32)
    ensures
        ({
            let (w, h) = res.target(width, height);
            -2 * (width + height) <= w * height - h * width <= 2 * (width + height)
        }),
{
    let (w, h) = res.target(width, height);
    if res.keeps(width, height) {
        let a = width - w;
        let b = height - h;
        assert(w * height - h * width == b * width - a * height) by (nonlinear_arith)
            requires
                a == width - w,
                b == height - h,
        ;
        assert(0 <= b * width <= width && 0 <= a * height <= height) by (nonlinear_arith)
            requires
                0 <= a <= 1,
                0 <= b <= 1,
                width >= 0,
                height >= 0,
        ;
    } else {
        lemma_factor(res, width, height);
        lemma_pow2_pos(1074);
        let f = res.shrink_factor(width, height);
        lemma_side_near(width, f);
        lemma_side_near(height, f);
        let u = unit() as int;
        let s = f.size() as int;
        let a = width as int;
        let b = height as int;
        let x = w as int;
        let y = h as int;
        let e = x * u - a * s;
        let g = y * u - b * s;
        let ub = 2 * u * b;
        let ua = 2 * u * a;
        assert(-ub <= e * b <= ub) by (nonlinear_arith)
            requires
                -(2 * u) <= e <= 2 * u,
                b > 0,
                ub == 2 * u * b,
        ;
        assert(-ua <= g * a <= ua) by (nonlinear_arith)
            requires
                -(2 * u) <= g <= 2 * u,
                a > 0,
                ua == 2 * u * a,
        ;
        assert((x * b - y * a) * u == e * b - g * a) by (nonlinear_arith)
            requires
                e == x * u - a * s,
                g == y * u - b * s,
        ;
        assert(ub + ua == (2 * (a + b)) * u && -(ub + ua) == (-2 * (a + b)) * u)
            by (nonlinear_arith)
            requires
                ub == 2 * u * b,
                ua == 2 * u * a,
        ;
        let d = x * b - y * a;
        assert(-2 * (a + b) <= d <= 2 * (a + b)) by (nonlinear_arith)
            requires
                d * u <= (2 * (a + b)) * u,
                d * u >= (-2 * (a + b)) * u,
                u > 0,
        ;
    }
}

/// The side of the box that a picture touches when it shrinks, and the side of the
/// picture that touches it: a picture shrinks by the smaller one of the two ratios.
pub open spec fn limiting(res: OutputResolution, width: u32, height: u32) -> (nat, nat) {
    let (bw, bh) = res.fitting_box(width, height);
    if bw as nat * height as nat <= bh as nat * width as nat {
        (bw as nat, width as nat)
    } else {
        (bh as nat, height as nat)
    }
}

/// The factor that a picture shrinks by is nearest to the smaller one of the ratios,
/// which is below one.
proof fn lemma_limit(res: OutputResolution, width: u32, height: u32)
    requires
        !res.keeps(width, height),
    ensures
        ({
            let (n, d) = limiting(res, width, height);
            let f = res.shrink_factor(width, height);
            &&& 2 <= n <= 3840
            &&& n % 2 == 0
            &&& n < d <= u32::MAX
            &&& f.finite()
            &&& !f.negative()
            &&& f.magnitude() == nearest_magnitude((n * unit()) * unit(), d * unit())
            &&& width * n <= 3840 * d
            &&& height * n <= 3840 * d
        }),
{
    let (bw, bh) = res.fitting_box(width, height);
    let (n, d) = limiting(res, width, height);
    let u = unit();
    let w = width as nat;
    let h = height as nat;
    let b = bw as nat;
    let c = bh as nat;
    lemma_pow2_pos(1074);
    lemma_factor(res, width, height);
    lemma_int_quotient(b, w);
    lemma_int_quotient(c, h);
    let fw = Real::of_int(bw as int).quotient(Real::of_int(w as int));
    let fh = Real::of_int(bh as int).quotient(Real::of_int(h as int));
    assert((b * u) * u * (h * u) == (b * h) * (u * u * u)) by (nonlinear_arith);
    assert((c * u) * u * (w * u) == (c * w) * (u * u * u)) by (nonlinear_arith);
    let k = u * u * u;
    assert(w * u > 0 && h * u > 0) by (nonlinear_arith)
        requires
            w > 0,
            h > 0,
            u > 0,
    ;
    if b * h <= c * w {
        assert((b * h) * k <= (c * w) * k) by (nonlinear_arith)
            requires
                b * h <= c * w,
                k >= 0,
        ;
        lemma_nearest_monotone((b * u) * u, w * u, (c * u) * u, h * u);
        lemma_size_at_most(fw.magnitude(), fh.magnitude());
        if w <= b {
            assert(c * w < b * h) by (nonlinear_arith)
                requires
                    w <= b,
                    c < h,
                    w > 0,
                    c >= 0,
            ;
        }
        if fw.size() == fh.size() {
            lemma_magnitude_at_most(fw, fh);
            lemma_magnitude_at_most(fh, fw);
        }
        assert(h * n <= 3840 * d) by (nonlinear_arith)
            requires
                b * h <= c * w,
                c <= 3840,
                w >= 0,
                n == b,
                d == w,
        ;
        assert(w * n <= 3840 * d) by (nonlinear_arith)
            requires
                n == b,
                b <= 3840,
                d == w,
                w >= 0,
        ;
    } else {
        assert((c * w) * k <= (b * h) * k) by (nonlinear_arith)
            requires
                c * w <= b * h,
                k >= 0,
        ;
        lemma_nearest_monotone((c * u) * u, h * u, (b * u) * u, w * u);
        lemma_size_at_most(fh.magnitude(), fw.magnitude());
        if h <= c {
            assert(b * h < c * w) by (nonlinear_arith)
                requires
                    h <= c,
                    b < w,
                    h > 0,
                    b >= 0,
            ;
        }
        assert(w * n <= 3840 * d) by (nonlinear_arith)
            requires
                c * w <= b * h,
                b <= 3840,
                h >= 0,
                n == c,
                d == h,
        ;
        assert(h * n <= 3840 * d) by (nonlinear_arith)
            requires
                n == c,
                c <= 3840,
                d == h,
                h >= 0,
        ;
    }
}

/// A side that shrinks by a ratio is rounded to an integer that is nearest to the exact
/// share of it.
proof fn lemma_side_exact(side: u32, n: nat, d: nat, f: Real)
    requires
        side > 0,
        2 <= n < d <= u32::MAX,
        side * n <= 3840 * d,
        f.finite(),
        !f.negative(),
        f.magnitude() == nearest_magnitude((n * unit()) * unit(), d * unit()),
    ensures
        ({
            let r = Real::of_int(side as int).product(f).rounded();
            -d <= 2 * (r * d) - 2 * (side * n) <= d
        }),
{
    reveal(Real::product);
    lemma_int_size(side as nat);
    lemma2_to64();
    lemma2_to64_rest();
    lemma_pow2_adds(52, 1022);
    lemma_pow2_adds(32, 990);
    lemma_pow2_adds(32, 1042);
    lemma_pow2_adds(1074, 970);
    lemma_pow2_le(1042, 2044);
    lemma_pow2_pos(1022);
    lemma_pow2_pos(970);
    let u = unit() as int;
    let t = TWO53 as int;
    let big = pow2(2044) as int;
    let fs = f.size() as int;
    let a = (side * n) as int;
    // The factor.
    let num = (n * unit()) * unit();
    let den = d * unit();
    assert(u >= TWO52 * u32::MAX && big >= u) by {
        lemma_pow2_le(1074, 2044);
        lemma_pow2_le(84, 1074);
        lemma_pow2_adds(52, 32);
    }
    assert(num >= den * TWO52) by (nonlinear_arith)
        requires
            num == (n * u) * u,
            den == d * u,
            n >= 1,
            u >= TWO52 * u32::MAX,
            d <= u32::MAX,
            u > 0,
    ;
    assert(num < den * TWO53 * big) by (nonlinear_arith)
        requires
            num == (n * u) * u,
            den == d * u,
            n < d,
            big >= u,
            u > 0,
    ;
    assert(den > 0) by (nonlinear_arith)
        requires
            den == d * u,
            d > 0,
            u > 0,
    ;
    lemma_relative_error(num, den);
    let fd = fs * d;
    assert((t - 1) * (n * u) <= t * fd <= (t + 1) * (n * u)) by (nonlinear_arith)
        requires
            (t - 1) * num <= t * (fs * den) <= (t + 1) * num,
            num == (n * u) * u,
            den == d * u,
            fd == fs * d,
            u > 0,
    ;
    assert(fd >= u) by (nonlinear_arith)
        requires
            (t - 1) * (n * u) <= t * fd,
            n >= 2,
            t == 0x20_0000_0000_0000,
            u > 0,
    ;
    // The side.
    let m = (side as nat * unit()) * f.size();
    let sf = side * fs;
    assert(m == sf * u) by (nonlinear_arith)
        requires
            m == (side * u) * fs,
            sf == side * fs,
    ;
    assert(fs >= TWO52) by (nonlinear_arith)
        requires
            fs * d >= u,
            u >= TWO52 * u32::MAX,
            0 < d <= u32::MAX,
    ;
    assert(sf >= fs) by (nonlinear_arith)
        requires
            sf == side * fs,
            side >= 1,
            fs >= 0,
    ;
    assert(m >= unit() * TWO52) by (nonlinear_arith)
        requires
            m == sf * u,
            sf >= TWO52,
            u > 0,
            u == unit(),
    ;
    lemma_factor_below_one(f, n, d);
    assert(sf < TWO53 * big) by (nonlinear_arith)
        requires
            sf == side * fs,
            0 <= fs <= u,
            0 < side <= u32::MAX,
            big >= u,
            u > 0,
    ;
    assert(m < unit() * TWO53 * big) by (nonlinear_arith)
        requires
            m == sf * u,
            sf < TWO53 * big,
            u > 0,
            u == unit(),
    ;
    lemma_relative_error(m, unit());
    let p = Real::of_int(side as int).product(f);
    assert(p.magnitude() == nearest_magnitude(m, unit()));
    let y = p.size() as int;
    assert((t - 1) * sf <= t * y <= (t + 1) * sf) by (nonlinear_arith)
        requires
            (t - 1) * m <= t * (y * u) <= (t + 1) * m,
            m == sf * u,
            u > 0,
    ;
    // Both together.
    let yd = y * d;
    let au = a * u;
    assert((t - 1) * (side * fd) <= t * yd <= (t + 1) * (side * fd)) by (nonlinear_arith)
        requires
            (t - 1) * sf <= t * y <= (t + 1) * sf,
            sf == side * fs,
            fd == fs * d,
            yd == y * d,
            d > 0,
    ;
    let sfd = side * fd;
    assert((t - 1) * au <= t * sfd <= (t + 1) * au) by (nonlinear_arith)
        requires
            (t - 1) * (n * u) <= t * fd <= (t + 1) * (n * u),
            sfd == side * fd,
            au == a * u,
            a == side * n,
            side > 0,
    ;
    assert(au >= 0) by (nonlinear_arith)
        requires
            au == a * u,
            a >= 0,
            u > 0,
    ;
    // With t = 2^53 only linear steps are left.
    assert(-3 * au <= t * (yd - au) <= 3 * au) by {
        assert(t == 0x20_0000_0000_0000);
        assert(t * (t * yd) <= (t + 1) * (t * sfd)) by (nonlinear_arith)
            requires
                t * yd <= (t + 1) * sfd,
                t > 0,
        ;
        assert(t * (t * yd) >= (t - 1) * (t * sfd)) by (nonlinear_arith)
            requires
                t * yd >= (t - 1) * sfd,
                t > 0,
        ;
    }
    let r = p.rounded();
    lemma_fundamental_div_mod(y, u);
    let q = y / u;
    assert(u * q == q * u) by (nonlinear_arith);
    assert((q + 1) * u == q * u + u) by (nonlinear_arith);
    assert(-u <= 2 * (r * u) - 2 * y <= u);
    let rd = r * d;
    assert(-(u * d) <= 2 * (rd * u) - 2 * yd <= u * d) by (nonlinear_arith)
        requires
            -u <= 2 * (r * u) - 2 * y <= u,
            rd == r * d,
            yd == y * d,
            d > 0,
    ;
    let g = 2 * rd - 2 * a;
    assert(-(t * d + 6 * a) <= t * g <= t * d + 6 * a) by (nonlinear_arith)
        requires
            -(u * d) <= 2 * (rd * u) - 2 * yd <= u * d,
            -3 * au <= t * (yd - au) <= 3 * au,
            au == a * u,
            g == 2 * rd - 2 * a,
            u > 0,
            t > 0,
    ;
    assert(6 * a < t);
}

/// A ratio below one is nearest to a number that is not above one.
proof fn lemma_factor_below_one(f: Real, n: nat, d: nat)
    requires
        0 < n < d,
        f.magnitude() == nearest_magnitude((n * unit()) * unit(), d * unit()),
    ensures
        f.size() <= unit(),
{
    let u = unit();
    lemma_int_size(1);
    lemma_small_int(1);
    assert(1 * u == u);
    assert(d * u > 0) by (nonlinear_arith)
        requires
            d > 0,
            u > 0,
    ;
    assert((n * u) * u * 1 <= u * (d * u)) by (nonlinear_arith)
        requires
            n < d,
            u > 0,
    ;
    lemma_nearest_monotone((n * u) * u, d * u, u, 1);
    lemma_size_at_most(f.magnitude(), nearest_magnitude(u, 1));
    assert(Real::of_int(1).magnitude() == nearest_magnitude(u, 1));
}

/// Whether a side is at most one and a half pixels away from the exact share `n / d` of
/// the original one; a share of less than half a pixel is two pixels.
pub open spec fn side_near(side: u32, target: nat, n: nat, d: nat) -> bool {
    if 2 * (side * n) < d {
        target == 2
    } else {
        -3 * d <= 2 * (target * d) - 2 * (side * n) <= 3 * d
    }
}

/// A picture that shrinks touches its box on one side, and each side is at most one and
/// a half pixels away from the exact one.
pub proof fn law_target_is_near(res: OutputResolution, width: u32, height: u32)
    requires
        !res.keeps(width, height),
    ensures
        ({
            let (w, h) = res.target(width, height);
            let (bw, bh) = res.fitting_box(width, height);
            let (n, d) = limiting(res, width, height);
            &&& bw * height <= bh * width ==> w == bw
            &&& bw * height > bh * width ==> h == bh
            &&& side_near(width, w, n, d)
            &&& side_near(height, h, n, d)
        }),
{
    let (n, d) = limiting(res, width, height);
    let f = res.shrink_factor(width, height);
    lemma_limit(res, width, height);
    lemma_side_exact(width, n, d, f);
    lemma_side_exact(height, n, d, f);
    lemma_even_near(width, n, d, f);
    lemma_even_near(height, n, d, f);
}

proof fn lemma_even_near(side: u32, n: nat, d: nat, f: Real)
    requires
        side > 0,
        2 <= n <= 3840,
        n % 2 == 0,
        n < d <= u32::MAX,
        side * n <= 3840 * d,
        ({
            let r = Real::of_int(side as int).product(f).rounded();
            -d <= 2 * (r * d) - 2 * (side * n) <= d
        }),
    ensures
        side_near(side, even_pixels(Real::of_int(side as int).product(f)), n, d),
        side == d ==> even_pixels(Real::of_int(side as int).product(f)) == n,
{
    let p = Real::of_int(side as int).product(f);
    let r = p.rounded();
    let t = even_pixels(p) as int;
    let a = (side * n) as int;
    assert(r <= 3841) by (nonlinear_arith)
        requires
            2 * (r * d) - 2 * a <= d,
            a <= 3840 * d,
            d > 0,
    ;
    assert(side == d ==> r == n) by {
        if side == d {
            assert(r == n) by (nonlinear_arith)
                requires
                    -d <= 2 * (r * d) - 2 * a <= d,
                    a == d * n,
                    d > 0,
            ;
        }
    }
    if r >= 2 {
        assert((r - 1) * d == r * d - d) by (nonlinear_arith);
        assert(2 * d <= r * d) by (nonlinear_arith)
            requires
                r >= 2,
                d > 0,
        ;
    } else {
        assert(r * d <= d) by (nonlinear_arith)
            requires
                r <= 1,
                d > 0,
        ;
    }
}

/// A picture that is turned gets its size turned.
pub proof fn law_target_turns(res: OutputResolution, width: u32, height: u32)
    ensures
        res.target(height, width).0 == res.target(width, height).1,
        res.target(height, width).1 == res.target(width, height).0,
{
    if !res.keeps(width, height) {
        let (bw, bh) = res.fitting_box(width, height);
        lemma_int_quotient(bw as nat, width as nat);
        lemma_int_quotient(bh as nat, height as nat);
        let fw = Real::of_int(bw as int).quotient(Real::of_int(width as int));
        let fh = Real::of_int(bh as int).quotient(Real::of_int(height as int));
        if fw.size() == fh.size() {
            lemma_magnitude_at_most(fw, fh);
            lemma_magnitude_at_most(fh, fw);
            assert(fw.bits == fh.bits);
        }
        if width != height {
            assert(res.fitting_box(height, width) == (bh, bw));
            assert(fw.least(fh) == fh.least(fw));
        }
    }
}

/// The longer side of a picture does not become the shorter one.
proof fn lemma_sides_ordered(a: u32, b: u32, f: Real)
    requires
        0 < b <= a,
        f.finite(),
        !f.negative(),
        f.size() <= unit(),
    ensures
        even_pixels(Real::of_int(b as int).product(f)) <= even_pixels(
            Real::of_int(a as int).product(f),
        ),
{
    reveal(Real::product);
    lemma_int_size(a as nat);
    lemma_int_size(b as nat);
    lemma_side_kept(a, f);
    lemma_side_kept(b, f);
    let u = unit();
    let s = f.size();
    let m = (b as nat * u) * s;
    let n = (a as nat * u) * s;
    assert(m * u <= n * u) by (nonlinear_arith)
        requires
            m == (b * u) * s,
            n == (a * u) * s,
            b <= a,
            s >= 0,
            u > 0,
    ;
    lemma_nearest_monotone(m, u, n, u);
    let p = Real::of_int(b as int).product(f);
    let q = Real::of_int(a as int).product(f);
    assert(p.magnitude() == nearest_magnitude(m, u));
    assert(q.magnitude() == nearest_magnitude(n, u));
    lemma_size_at_most(p.magnitude(), q.magnitude());
    lemma_nearest_up_monotone(p.size(), q.size(), u);
    assert(p.rounded() <= q.rounded());
    assert(p.rounded() >= 0);
}

/// A size that was given to a picture is given to it again.
pub proof fn law_target_settles(res: OutputResolution, width: u32, height: u32)
    ensures
        ({
            let (w, h) = res.target(width, height);
            res.target(w as u32, h as u32) == (w, h)
        }),
{
    let (w, h) = res.target(width, height);
    if res.sides().is_some() && width > 0 && height > 0 {
        law_target_fits_the_box(res, width, height);
        if !res.keeps(width, height) {
            lemma_factor(res, width, height);
            let f = res.shrink_factor(width, height);
            if width >= height {
                lemma_sides_ordered(width, height, f);
            } else {
                lemma_sides_ordered(height, width, f);
            }
            assert(w % 2 == 0 && h % 2 == 0);
        }
        assert(res.keeps(w as u32, h as u32));
    }
}

proof fn lemma_plain_key(s: Seq<char>)
    requires
        s.len() > 0,
        forall|i: int|
            #![trigger s[i]]
            0 <= i < s.len() ==> (s[i] as u32) < 128 && !('A' <= s[i] && s[i] <= 'Z') && !white(
                s[i],
            ),
    ensures
        name_key(s) == s,
{
    assert(!white(s[0]));
    assert(trim_start(s) == s);
    assert(!white(s.last()));
    assert(trim_end(s) == s);
    assert(is_ascii_text(s));
    assert(ascii_lower(s) =~= s);
}

/// A size is found again under its own name.
pub proof fn law_resolution_name_round_trip(res: OutputResolution)
    ensures
        resolution_named(name_key(res.name())) == Some(res),
{
    reveal_strlit("");
    reveal_strlit("original");
    reveal_strlit("source");
    reveal_strlit("native");
    reveal_strlit("4k");
    reveal_strlit("uhd");
    reveal_strlit("2160p");
    reveal_strlit("2160");
    reveal_strlit("1080p");
    reveal_strlit("1080");
    reveal_strlit("fhd");
    reveal_strlit("720p");
    reveal_strlit("720");
    reveal_strlit("hd");
    lemma_plain_key(res.name());
    match res {
        OutputResolution::Original => {},
        OutputResolution::Uhd4k => {
            assert(res.name().len() == 2);
        },
        OutputResolution::Fhd1080p => {
            assert(res.name().len() == 5);
            assert(res.name()[0] == '1' && "2160p"@[0] == '2');
        },
        OutputResolution::Hd720p => {
            assert(res.name().len() == 4);
            assert(res.name()[0] == '7' && "2160"@[0] == '2' && "1080"@[0] == '1');
        },
    }
}

/// A preset is found again under its own name.
pub proof fn law_preset_name_round_trip(preset: Preset)
    ensures
        preset_named(name_key(preset.name())) == Some(preset),
{
    reveal_strlit("ultrafast");
    reveal_strlit("superfast");
    reveal_strlit("veryfast");
    reveal_strlit("faster");
    reveal_strlit("fast");
    reveal_strlit("medium");
    reveal_strlit("slow");
    reveal_strlit("slower");
    reveal_strlit("veryslow");
    reveal_strlit("placebo");
    lemma_plain_key(preset.name());
    assert("ultrafast"@[0] == 'u' && "superfast"@[0] == 's');
    assert("veryfast"@[4] == 'f' && "veryslow"@[4] == 's');
    assert("faster"@[0] == 'f' && "medium"@[0] == 'm' && "slower"@[0] == 's');
    assert("fast"@[0] == 'f' && "slow"@[0] == 's');
}

proof fn lemma_trim_start(s: Seq<char>)
    ensures
        trim_start(s).len() == 0 || !white(trim_start(s)[0]),
    decreases s.len(),
{
    if s.len() > 0 && white(s[0]) {
        lemma_trim_start(s.skip(1));
    }
}

proof fn lemma_trim_end(s: Seq<char>)
    ensures
        trim_end(s).len() == 0 || (!white(trim_end(s).last()) && trim_end(s)[0] == s[0]),
    decreases s.len(),
{
    if s.len() > 0 && white(s.last()) {
        lemma_trim_end(s.drop_last());
    }
}

/// A trimmed text has nothing to trim.
proof fn lemma_trimmed(s: Seq<char>)
    requires
        s.len() == 0 || (!white(s[0]) && !white(s.last())),
    ensures
        trim(s) == s,
{
    assert(trim_start(s) == s);
    assert(trim_end(s) == s);
}

/// The key of a name is its own key, where the trimmed name is ASCII: reading a name
/// that was trimmed and made small gives what the name itself gives.
pub proof fn law_name_key_settles(s: Seq<char>)
    requires
        is_ascii_text(trim(s)),
    ensures
        name_key(name_key(s)) == name_key(s),
        resolution_named(name_key(name_key(s))) == resolution_named(name_key(s)),
        preset_named(name_key(name_key(s))) == preset_named(name_key(s)),
        codec_named(name_key(name_key(s))) == codec_named(name_key(s)),
        mode_named(name_key(name_key(s))) == mode_named(name_key(s)),
{
    let t = trim(s);
    let k = name_key(s);
    lemma_trim_start(s);
    lemma_trim_end(trim_start(s));
    assert(k =~= ascii_lower(t));
    assert forall|i: int| #![trigger k[i]] 0 <= i < k.len() implies (k[i] as u32) < 128 && !('A'
        <= k[i] && k[i] <= 'Z') && white(k[i]) == white(t[i]) by {
        assert((t[i] as u32) < 128);
        assert(k[i] == ascii_lower_char(t[i]));
    }
    lemma_trimmed(k);
    assert(is_ascii_text(k));
    assert(ascii_lower(k) =~= k);
}

/// A size that is found under a name is found under the key of the name too, whatever
/// the name is made of.
pub proof fn law_found_by_key(s: Seq<char>)
    ensures
        resolution_named(name_key(s)).is_some() ==> resolution_named(name_key(name_key(s)))
            == resolution_named(name_key(s)),
{
    let k = name_key(s);
    if resolution_named(k).is_some() {
        reveal_strlit("");
        reveal_strlit("original");
        reveal_strlit("source");
        reveal_strlit("native");
        reveal_strlit("4k");
        reveal_strlit("uhd");
        reveal_strlit("2160p");
        reveal_strlit("2160");
        reveal_strlit("1080p");
        reveal_strlit("1080");
        reveal_strlit("fhd");
        reveal_strlit("720p");
        reveal_strlit("720");
        reveal_strlit("hd");
        if k.len() == 0 {
            assert(is_ascii_text(k));
            assert(trim(k) == k);
            assert(ascii_lower(k) =~= k);
        } else {
            lemma_plain_key(k);
        }
    }
}

/// A size is read alike from a name and from the key of the name: where the trimmed name
/// is ASCII, where it is the name of a size, and wherever else the key is its own key.
pub proof fn law_resolution_read_by_key(s: Seq<char>)
    requires
        is_ascii_text(trim(s)) || resolution_named(name_key(s)).is_some() || name_key(name_key(s))
            == name_key(s),
    ensures
        resolution_named(name_key(name_key(s))) == resolution_named(name_key(s)),
{
    if is_ascii_text(trim(s)) {
        law_name_key_settles(s);
    }
    law_found_by_key(s);
}

} // verus!
