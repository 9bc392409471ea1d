//! What rounded arithmetic keeps of exact arithmetic.
use crate::double;
use crate::double::Double;
use vstd::arithmetic::power2::*;
use vstd::prelude::*;

verus! {

/// The larger of two fractions never rounds below the smaller one.
pub proof fn law_rounding_keeps_order(n1: nat, d1: nat, n2: nat, d2: nat)
    requires
        d1 > 0,
        d2 > 0,
        n1 * d2 <= n2 * d1,
    ensures
        double::nearest(n1, d1) <= double::nearest(n2, d2),
{
    let d = d1 * d2;
    assert(d > 0) by (nonlinear_arith)
        requires
            d == d1 * d2,
            d1 > 0,
            d2 > 0,
    ;
    assert((n1 * d2) * d1 == n1 * d) by (nonlinear_arith)
        requires
            d == d1 * d2,
    ;
    assert((n2 * d1) * d2 == n2 * d) by (nonlinear_arith)
        requires
            d == d1 * d2,
    ;
    double::lemma_nearest_cross(n1, d1, n1 * d2, d);
    double::lemma_nearest_cross(n2, d2, n2 * d1, d);
    double::lemma_nearest_monotonic(n1 * d2, n2 * d1, d);
}

/// Rounding never crosses a double: a fraction at or above one rounds to it or
/// above, a fraction at or below one to it or below.
pub proof fn law_rounding_crosses_no_double(n: nat, d: nat, mag: u64)
    requires
        d > 0,
        mag < double::INF,
    ensures
        n >= double::mag_units(mag) * d ==> double::nearest(n, d) >= mag,
        n <= double::mag_units(mag) * d ==> double::nearest(n, d) <= mag,
{
    let u = double::mag_units(mag);
    double::law_representable_values_round_to_themselves(mag);
    if n >= u * d {
        law_rounding_keeps_order(u, 1, n, d);
    }
    if n <= u * d {
        law_rounding_keeps_order(n, d, u, 1);
    }
}

pub proof fn lemma_units_positive(x: Double)
    requires
        x.finite(),
        !x.zero(),
    ensures
        x.units() > 0,
{
    double::lemma_units_increase(0, x.mag());
}

/// Of two positive divisors the larger one never gives the larger quotient.
pub proof fn law_larger_divisors_give_smaller_quotients(a: Double, r: Double, s: Double)
    requires
        a.finite(),
        !a.neg(),
        r.finite(),
        s.finite(),
        !r.neg(),
        !r.zero(),
        r.le_spec(s),
    ensures
        a.div_spec(s).le_spec(a.div_spec(r)),
{
    assert(!s.neg() && !s.zero());
    lemma_units_positive(r);
    lemma_units_positive(s);
    if r.mag() < s.mag() {
        double::lemma_units_increase(r.mag(), s.mag());
    }
    let n = a.units() * pow2(1074);
    assert(n * r.units() <= n * s.units()) by (nonlinear_arith)
        requires
            r.units() <= s.units(),
            n >= 0,
    ;
    law_rounding_keeps_order(n, s.units(), n, r.units());
}

/// Of two dividends over the same positive divisor the larger one never gives
/// the smaller quotient.
pub proof fn law_larger_dividends_give_larger_quotients(a: Double, b: Double, r: Double)
    requires
        a.finite(),
        b.finite(),
        !a.neg(),
        r.finite(),
        !r.neg(),
        !r.zero(),
        a.le_spec(b),
    ensures
        a.div_spec(r).le_spec(b.div_spec(r)),
{
    assert(b.zero() || !b.neg());
    lemma_units_positive(r);
    if a.mag() < b.mag() {
        double::lemma_units_increase(a.mag(), b.mag());
    }
    let d = pow2(1074);
    assert(a.units() * d <= b.units() * d) by (nonlinear_arith)
        requires
            a.units() <= b.units(),
            d >= 0,
    ;
    double::lemma_nearest_monotonic(a.units() * d, b.units() * d, r.units());
    if b.zero() {
        assert(a.zero());
        assert(double::mag_units(0) == 0) by {
            assert(double::significand(0) == 0);
            assert(0 * pow2(double::power(0)) == 0);
        }
        assert(0 * d == 0);
        law_rounding_crosses_no_double(0, r.units(), 0);
        assert(double::mag_units(0) * r.units() == 0) by (nonlinear_arith)
            requires
                double::mag_units(0) == 0,
        ;
    }
}

proof fn lemma_powers()
    ensures
        pow2(1074) == 0x10_0000_0000_0000 * pow2(1022),
        pow2(1028) == 64 * pow2(1022),
        pow2(1022) == 2 * pow2(1021),
        pow2(1028) == 128 * pow2(1021),
        pow2(1074) == 0x20_0000_0000_0000 * pow2(1021),
        pow2(1021) > 0,
{
    lemma2_to64();
    lemma2_to64_rest();
    lemma_pow2_adds(52, 1022);
    lemma_pow2_adds(6, 1022);
    lemma_pow2_adds(1, 1021);
    lemma_pow2_adds(7, 1021);
    lemma_pow2_adds(53, 1021);
    lemma_pow2_pos(1021);
}

/// A hundred over more than one is less than a hundred.
pub proof fn law_a_hundred_over_more_is_less(r: Double)
    requires
        r.finite(),
        (Double { bits: double::ONE }).lt_spec(r),
    ensures
        (Double { bits: double::HUNDRED }).div_spec(r).lt_spec(Double { bits: double::HUNDRED }),
{
    let hundred = Double { bits: double::HUNDRED };
    lemma_powers();
    let w = pow2(1021);
    assert(!r.neg() && r.mag() > double::ONE);
    let least: u64 = 0x3FF0_0000_0000_0001;
    let below: u64 = 0x4058_FFFF_FFFF_FFFF;
    assert(double::mag_units(least) == 0x10_0000_0000_0001 * pow2(1022)) by {
        assert(double::significand(least) == 0x10_0000_0000_0001 && double::power(least) == 1022);
    }
    assert(double::mag_units(below) == 0x18_FFFF_FFFF_FFFF * pow2(1028)) by {
        assert(double::significand(below) == 0x18_FFFF_FFFF_FFFF && double::power(below) == 1028);
    }
    assert(hundred.units() == 0x19_0000_0000_0000 * pow2(1028)) by {
        assert(double::significand(double::HUNDRED) == 0x19_0000_0000_0000 && double::power(
            double::HUNDRED,
        ) == 1028);
    }
    if least < r.mag() {
        double::lemma_units_increase(least, r.mag());
    }
    let n = hundred.units() * pow2(1074);
    let d = r.units();
    let u = double::mag_units(below);
    assert(n <= u * d) by (nonlinear_arith)
        requires
            n == (0x19_0000_0000_0000 * (128 * w)) * (0x20_0000_0000_0000 * w),
            u == 0x18_FFFF_FFFF_FFFF * (128 * w),
            d >= 0x10_0000_0000_0001 * (2 * w),
            w > 0,
    {
        assert(u * d >= (0x18_FFFF_FFFF_FFFF * (128 * w)) * (0x10_0000_0000_0001 * (2 * w)));
        assert((0x18_FFFF_FFFF_FFFF * (128 * w)) * (0x10_0000_0000_0001 * (2 * w)) == (
        0x18_FFFF_FFFF_FFFF * 128 * 0x10_0000_0000_0001 * 2) * (w * w));
        assert((0x19_0000_0000_0000 * (128 * w)) * (0x20_0000_0000_0000 * w) == (
        0x19_0000_0000_0000 * 128 * 0x20_0000_0000_0000) * (w * w));
    }
    law_rounding_crosses_no_double(n, d, below);
}

/// A hundred over less than one is more than a hundred.
pub proof fn law_a_hundred_over_less_is_more(r: Double)
    requires
        !r.neg(),
        r.lt_spec(Double { bits: double::ONE }),
    ensures
        (Double { bits: double::HUNDRED }).lt_spec((Double { bits: double::HUNDRED }).div_spec(r)),
{
    let hundred = Double { bits: double::HUNDRED };
    lemma_powers();
    let w = pow2(1021);
    assert(r.finite());
    if !r.zero() {
        let most: u64 = 0x3FEF_FFFF_FFFF_FFFF;
        assert(double::mag_units(most) == 0x1F_FFFF_FFFF_FFFF * w) by {
            assert(double::significand(most) == 0x1F_FFFF_FFFF_FFFF && double::power(most)
                == 1021);
        }
        assert(hundred.units() == 0x19_0000_0000_0000 * pow2(1028)) by {
            assert(double::significand(double::HUNDRED) == 0x19_0000_0000_0000 && double::power(
                double::HUNDRED,
            ) == 1028);
        }
        if r.mag() < most {
            double::lemma_units_increase(r.mag(), most);
        }
        let n = hundred.units() * pow2(1074);
        let d = r.units();
        lemma_units_positive(r);
        // 100 and a part of the gap to the next double that is over half of it.
        let part = 0xC80_0000_0000_0064nat;
        let x = part * w;
        assert(x * d <= n * 1) by (nonlinear_arith)
            requires
                n == (0x19_0000_0000_0000 * (128 * w)) * (0x20_0000_0000_0000 * w),
                x == 0xC80_0000_0000_0064 * w,
                d <= 0x1F_FFFF_FFFF_FFFF * w,
                w > 0,
        {
            assert(x * d <= x * (0x1F_FFFF_FFFF_FFFF * w));
            assert((0xC80_0000_0000_0064 * w) * (0x1F_FFFF_FFFF_FFFF * w) == (0xC80_0000_0000_0064
                * 0x1F_FFFF_FFFF_FFFF) * (w * w));
            assert((0x19_0000_0000_0000 * (128 * w)) * (0x20_0000_0000_0000 * w) == (
            0x19_0000_0000_0000 * 128 * 0x20_0000_0000_0000) * (w * w));
            assert(0xC80_0000_0000_0064 * 0x1F_FFFF_FFFF_FFFF <= 0x19_0000_0000_0000 * 128
                * 0x20_0000_0000_0000);
        }
        law_rounding_keeps_order(x, 1, n, d);
        assert(part * (1 * pow2(1028)) == x * 128) by (nonlinear_arith)
            requires
                x == part * w,
                pow2(1028) == 128 * w,
        ;
        double::lemma_nearest_from(x, 1, 1028, part, 128);
        assert(double::half_even(part, 128) == 0x19_0000_0000_0001);
    }
}

/// A sum with something that is not negative is never below what it was added
/// to.
pub proof fn law_adding_never_lowers(a: Double, b: Double)
    requires
        a.finite(),
        b.finite(),
        !b.neg(),
    ensures
        a.le_spec(a.add_spec(b)),
{
    let v = a.value() + b.value();
    assert(a.units() * 1 == a.units());
    if v > 0 {
        law_rounding_crosses_no_double(v as nat, 1, a.mag());
        if a.value() <= 0 {
            double::law_order_is_order_of_values(a, Double { bits: 0 });
            lemma_zero_units();
        }
    } else if v < 0 {
        law_rounding_crosses_no_double((-v) as nat, 1, a.mag());
        let m = double::nearest((-v) as nat, 1);
        assert(double::signed(true, m).mag() == m && double::signed(true, m).neg());
        assert(a.neg());
    } else {
        double::law_order_is_order_of_values(a, Double { bits: 0 });
        lemma_zero_units();
    }
}

pub proof fn lemma_zero_units()
    ensures
        (Double { bits: 0 }).value() == 0,
        double::mag_units(0) == 0,
{
    assert(double::significand(0) == 0);
    assert(0 * pow2(double::power(0)) == 0);
}

/// A difference with something that is not negative is never above what it was
/// taken from.
pub proof fn law_subtracting_never_raises(a: Double, b: Double)
    requires
        a.finite(),
        b.finite(),
        !b.neg(),
    ensures
        a.sub_spec(b).le_spec(a),
{
    let minus = b.negate_spec();
    assert(minus.mag() == b.mag() && minus.neg());
    let v = a.value() + minus.value();
    assert(a.units() * 1 == a.units());
    if v > 0 {
        law_rounding_crosses_no_double(v as nat, 1, a.mag());
        assert(!a.neg());
    } else if v < 0 {
        law_rounding_crosses_no_double((-v) as nat, 1, a.mag());
        let m = double::nearest((-v) as nat, 1);
        assert(double::signed(true, m).mag() == m && double::signed(true, m).neg());
        if a.value() >= 0 {
            double::law_order_is_order_of_values(Double { bits: 0 }, a);
            lemma_zero_units();
        }
    } else {
        double::law_order_is_order_of_values(Double { bits: 0 }, a);
        lemma_zero_units();
    }
}

/// Of two whole numbers the larger one never has the smaller double.
pub proof fn law_larger_counts_have_larger_doubles(m: nat, n: nat)
    requires
        m <= n,
    ensures
        Double::from_nat_spec(m).le_spec(Double::from_nat_spec(n)),
{
    let d = pow2(1074);
    assert(m * d <= n * d) by (nonlinear_arith)
        requires
            m <= n,
            d >= 0,
    ;
    double::lemma_nearest_monotonic(m * d, n * d, 1);
}

/// Whole numbers up to 2^53 are doubles: their double stands for them exactly.
pub proof fn law_small_counts_are_exact(n: nat)
    requires
        n < double::LIMIT,
    ensures
        Double::from_nat_spec(n).finite(),
        Double::from_nat_spec(n).value() == n * pow2(1074),
    decreases n,
{
    let d = pow2(1074);
    lemma_pow2_pos(1074);
    if n == 0 {
        assert(0 * d == 0);
        lemma_zero_units();
        law_rounding_crosses_no_double(0, 1, 0);
    } else {
        lemma2_to64();
        lemma_whole(n, n, 1074);
        let mag = choose|mag: u64| mag < double::INF && #[trigger] double::mag_units(mag) == n * d;
        double::law_representable_values_round_to_themselves(mag);
    }
}

/// A significand below 2^53, shifted up into its binade, is some double's.
proof fn lemma_whole(n: nat, s: nat, p: nat)
    requires
        0 < s < double::LIMIT,
        1000 <= p <= 1074,
        p <= 1021 ==> s >= double::HIDDEN,
        s * pow2(p) == n * pow2(1074),
        s >= pow2((1074 - p) as nat),
    ensures
        exists|mag: u64|
            mag < double::INF && #[trigger] double::mag_units(mag) == n * pow2(1074),
    decreases p,
{
    if s >= double::HIDDEN {
        let raw = (p + 1) * double::HIDDEN + (s - double::HIDDEN);
        assert(raw < double::INF) by (nonlinear_arith)
            requires
                raw == (p + 1) * double::HIDDEN + (s - double::HIDDEN),
                p <= 1074,
                s < 2 * double::HIDDEN,
                double::HIDDEN == 0x10_0000_0000_0000,
                double::INF == 0x7FF0_0000_0000_0000,
        ;
        let mag = raw as u64;
        assert(mag / double::HIDDEN == p + 1 && mag % double::HIDDEN == s - double::HIDDEN)
            by (nonlinear_arith)
            requires
                mag == (p + 1) * double::HIDDEN + (s - double::HIDDEN),
                double::HIDDEN <= s < 2 * double::HIDDEN,
                double::HIDDEN == 0x10_0000_0000_0000,
        ;
        assert(double::significand(mag) == s && double::power(mag) == p);
        assert(double::mag_units(mag) == n * pow2(1074));
    } else {
        let q = (p - 1) as nat;
        lemma_pow2_unfold(p);
        assert((2 * s) * pow2(q) == s * pow2(p)) by (nonlinear_arith)
            requires
                pow2(p) == 2 * pow2(q),
        ;
        lemma_pow2_unfold((1074 - q) as nat);
        if q <= 1021 {
            // By then at least 53 doublings were made.
            if q < 1021 {
                lemma_pow2_strictly_increases(53, (1074 - q) as nat);
            }
            lemma2_to64_rest();
            assert(pow2(53) == 0x20_0000_0000_0000);
        }
        lemma_whole(n, 2 * s, q);
    }
}

/// The double nearest to an exact value, zero for zero.
spec fn rounded(v: int) -> Double {
    if v >= 0 {
        double::signed(false, double::nearest(v as nat, 1))
    } else {
        double::signed(true, double::nearest((-v) as nat, 1))
    }
}

proof fn lemma_rounded_order(v: int, w: int)
    requires
        v <= w,
    ensures
        rounded(v).order() <= rounded(w).order(),
        !rounded(v).nan() && !rounded(w).nan(),
{
    if v >= 0 {
        double::lemma_nearest_monotonic(v as nat, w as nat, 1);
    } else if w < 0 {
        double::lemma_nearest_monotonic((-w) as nat, (-v) as nat, 1);
        let (m, n) = (double::nearest((-v) as nat, 1), double::nearest((-w) as nat, 1));
        assert(double::signed(true, m).mag() == m && double::signed(true, m).neg());
        assert(double::signed(true, n).mag() == n && double::signed(true, n).neg());
    } else {
        let m = double::nearest((-v) as nat, 1);
        assert(double::signed(true, m).mag() == m && double::signed(true, m).neg());
    }
}

proof fn lemma_sum_order(a: Double, b: Double)
    requires
        a.finite(),
        b.finite(),
    ensures
        a.add_spec(b).order() == rounded(a.value() + b.value()).order(),
        !a.add_spec(b).nan(),
{
    let v = a.value() + b.value();
    if v == 0 {
        lemma_zero_units();
        law_rounding_crosses_no_double(0, 1, 0);
        assert(double::mag_units(0) * 1 == 0);
        assert(double::nearest(0, 1) == 0);
    } else if v < 0 {
        let m = double::nearest((-v) as nat, 1);
        assert(double::signed(true, m).mag() == m);
    }
}

/// Of two terms added to the same number the larger one never gives the smaller
/// sum.
pub proof fn law_larger_terms_give_larger_sums(a: Double, x: Double, y: Double)
    requires
        a.finite(),
        x.finite(),
        y.finite(),
        x.le_spec(y),
    ensures
        a.add_spec(x).le_spec(a.add_spec(y)),
        x.add_spec(a).le_spec(y.add_spec(a)),
{
    double::law_order_is_order_of_values(x, y);
    lemma_sum_order(a, x);
    lemma_sum_order(a, y);
    lemma_sum_order(x, a);
    lemma_sum_order(y, a);
    lemma_rounded_order(a.value() + x.value(), a.value() + y.value());
    lemma_rounded_order(x.value() + a.value(), y.value() + a.value());
}

/// Adding takes the exact sum and rounds it once; so the order of the two does
/// not matter.
pub proof fn law_sums_do_not_depend_on_the_order(a: Double, b: Double)
    requires
        a.finite(),
        b.finite(),
    ensures
        a.add_spec(b) == b.add_spec(a),
        a.mul_spec(b) == b.mul_spec(a),
{
    assert(a.units() * b.units() == b.units() * a.units()) by (nonlinear_arith);
}

/// A number over itself is one, and over one itself.
pub proof fn law_a_number_over_itself_is_one(a: Double)
    requires
        a.finite(),
        !a.zero(),
        !a.neg(),
    ensures
        a.div_spec(a) == (Double { bits: double::ONE }),
        a.div_spec(Double { bits: double::ONE }) == a,
        a.mul_spec(Double { bits: double::ONE }) == a,
{
    let one = pow2(1074);
    lemma_units_positive(a);
    lemma_pow2_pos(1074);
    assert(double::mag_units(double::ONE) == one) by {
        assert(double::significand(double::ONE) == double::HIDDEN && double::power(double::ONE)
            == 1022);
        lemma_pow2_adds(52, 1022);
        lemma2_to64_rest();
    }
    let u = a.units();
    assert(u * one == one * u) by (nonlinear_arith);
    law_rounding_crosses_no_double(u * one, u, double::ONE);
    law_rounding_crosses_no_double(u * one, one, a.mag());
    assert(a.bits == a.mag());
}

/// Of two factors by the same number that is not negative, the larger one never
/// gives the smaller product.
pub proof fn law_larger_factors_give_larger_products(a: Double, x: Double, y: Double)
    requires
        a.finite(),
        x.finite(),
        y.finite(),
        !a.neg(),
        !x.neg(),
        x.le_spec(y),
    ensures
        x.mul_spec(a).le_spec(y.mul_spec(a)),
{
    let d = pow2(1074);
    lemma_pow2_pos(1074);
    if x.mag() < y.mag() && !y.neg() {
        double::lemma_units_increase(x.mag(), y.mag());
    }
    assert(x.units() <= y.units());
    assert(x.units() * a.units() <= y.units() * a.units()) by (nonlinear_arith)
        requires
            x.units() <= y.units(),
    ;
    double::lemma_nearest_monotonic(x.units() * a.units(), y.units() * a.units(), d);
    if y.neg() {
        lemma_zero_units();
        assert(x.zero() && y.zero());
        assert(0 * a.units() == 0);
        law_rounding_crosses_no_double(0, d, 0);
        assert(double::mag_units(0) * d == 0) by (nonlinear_arith)
            requires
                double::mag_units(0) == 0,
        ;
    }
}

/// The larger of two numbers is one of them, and no less than either; the
/// smaller no more.
pub proof fn law_the_larger_is_no_less_than_either(a: Double, b: Double)
    requires
        !a.nan(),
        !b.nan(),
    ensures
        a.max_spec(b) == a || a.max_spec(b) == b,
        a.le_spec(a.max_spec(b)) && b.le_spec(a.max_spec(b)),
        a.min_spec(b) == a || a.min_spec(b) == b,
        a.min_spec(b).le_spec(a) && a.min_spec(b).le_spec(b),
{
}

/// What is no number gives way to the other one.
pub proof fn law_the_larger_passes_over_what_is_no_number(a: Double, b: Double)
    requires
        a.nan(),
    ensures
        a.max_spec(b) == b && a.min_spec(b) == b,
        !b.nan() ==> b.max_spec(a) == b && b.min_spec(a) == b,
{
}

/// An absolute value is the number itself or its negation, and not below zero.
pub proof fn law_absolute_values_drop_the_sign(a: Double)
    requires
        a.finite(),
    ensures
        a.abs_spec().finite() && !a.abs_spec().neg(),
        a.value() >= 0 ==> a.abs_spec().value() == a.value(),
        a.value() < 0 ==> a.abs_spec().value() == -a.value(),
{
    assert(double::signed(false, a.mag()).mag() == a.mag());
}

/// A whole number is its own nearest one.
pub proof fn law_whole_numbers_stay(n: nat)
    requires
        n < double::LIMIT,
    ensures
        Double::from_nat_spec(n).round_spec() == Double::from_nat_spec(n),
{
    let one = pow2(1074);
    lemma_pow2_pos(1074);
    law_small_counts_are_exact(n);
    let x = Double::from_nat_spec(n);
    assert(n * one >= 0) by (nonlinear_arith);
    assert((2 * (n * one) + one) / (2 * one) == n) by (nonlinear_arith)
        requires
            one > 0,
    ;
    assert(!x.neg());
    assert(x.units() == n * one);
    assert(x.bits == x.mag());
}

/// Zero over anything is zero.
pub proof fn law_nothing_over_something_is_nothing(a: Double, b: Double)
    requires
        a.zero(),
        !a.neg(),
        b.finite(),
        !b.zero(),
        !b.neg(),
    ensures
        a.div_spec(b) == (Double { bits: 0 }),
{
    lemma_zero_units();
    lemma_units_positive(b);
    assert(0 * pow2(1074) == 0);
    assert(double::mag_units(0) * b.units() == 0) by (nonlinear_arith)
        requires
            double::mag_units(0) == 0,
    ;
    law_rounding_crosses_no_double(0, b.units(), 0);
}

/// A number less itself is zero.
pub proof fn law_a_number_less_itself_is_zero(a: Double)
    requires
        a.finite(),
    ensures
        a.sub_spec(a).zero(),
        a.sub_spec(a).abs_spec() == (Double { bits: 0 }),
{
    let minus = a.negate_spec();
    assert(minus.mag() == a.mag() && minus.neg() != a.neg());
    assert(a.value() + minus.value() == 0);
}

/// Half of a number that is not negative, added, stays below the whole of it,
/// added.
pub proof fn law_half_way_is_on_the_way(base: Double, span: Double)
    requires
        base.finite(),
        span.finite(),
        !span.neg(),
        span.div_spec(Double { bits: double::TWO }).finite(),
    ensures
        base.le_spec(base.add_spec(span.div_spec(Double { bits: double::TWO }))),
        base.add_spec(span.div_spec(Double { bits: double::TWO })).le_spec(base.add_spec(span)),
{
    let one = Double { bits: double::ONE };
    let two = Double { bits: double::TWO };
    let half = span.div_spec(two);
    assert(!half.neg());
    assert(half.le_spec(span)) by {
        if span.zero() {
            law_nothing_over_something_is_nothing(span, two);
        } else {
            law_a_number_over_itself_is_one(span);
            law_larger_divisors_give_smaller_quotients(span, one, two);
        }
    }
    law_adding_never_lowers(base, half);
    law_larger_terms_give_larger_sums(base, half, span);
}

} // verus!
