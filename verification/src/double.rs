//! IEEE-754 binary64 numbers held as bit patterns, with correctly rounded
//! arithmetic on integers.
//!
//! Every finite double is a whole number of *units* of 2^-1074, so the exact
//! result of an operation is a fraction of two naturals, and the operation
//! returns the double nearest to it, ties going to the even significand.
use vstd::arithmetic::power2::*;
use vstd::prelude::*;

verus! {

/// 2^63: the weight of the sign bit.
pub const SIGN: u64 = 0x8000_0000_0000_0000;

/// Magnitude of infinity; everything above it is a NaN.
pub const INF: u64 = 0x7FF0_0000_0000_0000;

/// 2^52: the weight of the exponent field's lowest bit.
pub const HIDDEN: u64 = 0x10_0000_0000_0000;

/// 2^53: one past the largest significand.
pub const LIMIT: u64 = 0x20_0000_0000_0000;

/// The quiet NaN that arithmetic returns.
pub const QUIET_NAN: u64 = 0x7FF8_0000_0000_0000;

/// 1, 2, 10, 100 and 1000 as doubles.
pub const ONE: u64 = 0x3FF0_0000_0000_0000;

pub const TWO: u64 = 0x4000_0000_0000_0000;

pub const TEN: u64 = 0x4024_0000_0000_0000;

pub const HUNDRED: u64 = 0x4059_0000_0000_0000;

pub const THOUSAND: u64 = 0x408F_4000_0000_0000;

/// A binary64 number, by its bit pattern.
#[derive(Clone, Copy, Debug, PartialEq, Eq, Structural)]
pub struct Double {
    pub bits: u64,
}

/// The significand and the power of two that a finite magnitude stands for.
pub open spec fn significand(mag: u64) -> nat {
    if mag / HIDDEN == 0 {
        mag as nat
    } else {
        (HIDDEN + mag % HIDDEN) as nat
    }
}

pub open spec fn power(mag: u64) -> nat {
    if mag / HIDDEN == 0 {
        0
    } else {
        (mag / HIDDEN - 1) as nat
    }
}

/// How many units of 2^-1074 a finite magnitude is.
pub open spec fn mag_units(mag: u64) -> nat {
    significand(mag) * pow2(power(mag))
}

/// `n / d` rounded to the nearest natural number, ties to the even one.
pub open spec fn half_even(n: nat, d: nat) -> nat {
    let q = n / d;
    if 2 * n > (2 * q + 1) * d || (2 * n == (2 * q + 1) * d && q % 2 == 1) {
        q + 1
    } else {
        q
    }
}

/// The least power of two by which `n / d` must be divided to fall below
/// 2^53.
pub open spec fn binade(n: nat, d: nat) -> nat
    decreases (if n > d { (n - d) as nat } else { 0 }),
{
    if d == 0 || n < d * LIMIT {
        0
    } else {
        1 + binade(n, 2 * d)
    }
}

/// Magnitude of the double nearest to `n / d` units: significand rounded half
/// to even, overflow to infinity.
pub open spec fn nearest(n: nat, d: nat) -> u64 {
    let e = binade(n, d);
    let raw = e * HIDDEN + half_even(n, d * pow2(e));
    if raw >= INF {
        INF
    } else {
        raw as u64
    }
}

/// The double with the given sign and magnitude.
pub open spec fn signed(neg: bool, mag: u64) -> Double {
    Double {
        bits: if neg {
            (mag + SIGN) as u64
        } else {
            mag
        },
    }
}

impl Double {
    pub open spec fn mag(self) -> u64 {
        self.bits % SIGN
    }

    pub open spec fn neg(self) -> bool {
        self.bits >= SIGN
    }

    pub open spec fn nan(self) -> bool {
        self.mag() > INF
    }

    pub open spec fn infinite(self) -> bool {
        self.mag() == INF
    }

    pub open spec fn finite(self) -> bool {
        self.mag() < INF
    }

    pub open spec fn zero(self) -> bool {
        self.mag() == 0
    }

    pub open spec fn units(self) -> nat {
        mag_units(self.mag())
    }

    /// The exact value of a finite double, in units of 2^-1074.
    pub open spec fn value(self) -> int {
        if self.neg() {
            -(self.units() as int)
        } else {
            self.units() as int
        }
    }

    /// Position on the number line: doubles that are not NaN compare as these
    /// integers do (both zeros are 0).
    pub open spec fn order(self) -> int {
        if self.neg() {
            -(self.mag() as int)
        } else {
            self.mag() as int
        }
    }

    pub open spec fn lt_spec(self, other: Double) -> bool {
        !self.nan() && !other.nan() && self.order() < other.order()
    }

    pub open spec fn le_spec(self, other: Double) -> bool {
        !self.nan() && !other.nan() && self.order() <= other.order()
    }

    pub open spec fn nan_spec() -> Double {
        Double { bits: QUIET_NAN }
    }

    pub open spec fn negate_spec(self) -> Double {
        signed(!self.neg(), self.mag())
    }

    pub open spec fn add_spec(self, other: Double) -> Double {
        if self.nan() || other.nan() {
            Double::nan_spec()
        } else if self.infinite() {
            if other.infinite() && self.neg() != other.neg() {
                Double::nan_spec()
            } else {
                self
            }
        } else if other.infinite() {
            other
        } else {
            let v = self.value() + other.value();
            if v == 0 {
                signed(self.neg() && other.neg(), 0)
            } else if v > 0 {
                signed(false, nearest(v as nat, 1))
            } else {
                signed(true, nearest((-v) as nat, 1))
            }
        }
    }

    pub open spec fn sub_spec(self, other: Double) -> Double {
        self.add_spec(other.negate_spec())
    }

    pub open spec fn mul_spec(self, other: Double) -> Double {
        let neg = self.neg() != other.neg();
        if self.nan() || other.nan() {
            Double::nan_spec()
        } else if self.infinite() || other.infinite() {
            if self.zero() || other.zero() {
                Double::nan_spec()
            } else {
                signed(neg, INF)
            }
        } else {
            signed(neg, nearest(self.units() * other.units(), pow2(1074)))
        }
    }

    pub open spec fn div_spec(self, other: Double) -> Double {
        let neg = self.neg() != other.neg();
        if self.nan() || other.nan() {
            Double::nan_spec()
        } else if self.infinite() {
            if other.infinite() {
                Double::nan_spec()
            } else {
                signed(neg, INF)
            }
        } else if other.infinite() {
            signed(neg, 0)
        } else if other.zero() {
            if self.zero() {
                Double::nan_spec()
            } else {
                signed(neg, INF)
            }
        } else {
            signed(neg, nearest(self.units() * pow2(1074), other.units()))
        }
    }

    /// The double nearest to a natural number.
    pub open spec fn from_nat_spec(n: nat) -> Double {
        signed(false, nearest(n * pow2(1074), 1))
    }
}

// ---------------------------------------------------------------------------
// Rounding
// ---------------------------------------------------------------------------

/// The scale of `n / d` is pinned by the binade that it falls in.
proof fn lemma_binade(n: nat, d: nat, e: nat)
    requires
        d > 0,
        n < d * pow2(e) * LIMIT,
        e == 0 || n >= d * pow2(e) * HIDDEN,
    ensures
        binade(n, d) == e,
    decreases e,
{
    if e == 0 {
        assert(pow2(0) == 1) by {
            lemma2_to64();
        }
        assert(d * pow2(0) == d) by (nonlinear_arith)
            requires
                pow2(0) == 1,
        ;
    } else {
        lemma_pow2_unfold(e);
        let p = pow2((e - 1) as nat);
        lemma_pow2_pos((e - 1) as nat);
        assert(d * pow2(e) == (2 * d) * p) by (nonlinear_arith)
            requires
                pow2(e) == 2 * p,
        ;
        assert((2 * d) * p >= 2 * d) by (nonlinear_arith)
            requires
                p >= 1,
                d > 0,
        ;
        assert(n >= d * LIMIT);
        lemma_binade(n, 2 * d, (e - 1) as nat);
    }
}

/// Equal fractions round alike.
pub proof fn lemma_half_even_cross(n1: nat, d1: nat, n2: nat, d2: nat)
    requires
        d1 > 0,
        d2 > 0,
        n1 * d2 == n2 * d1,
    ensures
        half_even(n1, d1) == half_even(n2, d2),
{
    let q = n1 / d1;
    let r = n1 % d1;
    assert(n1 == q * d1 + r && 0 <= r < d1) by (nonlinear_arith)
        requires
            d1 > 0,
            q == n1 / d1,
            r == n1 % d1,
    ;
    assert(q * d2 <= n2 && n2 < (q + 1) * d2) by (nonlinear_arith)
        requires
            n1 == q * d1 + r,
            0 <= r < d1,
            n1 * d2 == n2 * d1,
            d1 > 0,
            d2 > 0,
            q >= 0,
    {
        assert(n2 * d1 == q * d2 * d1 + r * d2);
        assert(r * d2 < d1 * d2);
    }
    assert(n2 / d2 == q) by (nonlinear_arith)
        requires
            q * d2 <= n2,
            n2 < (q + 1) * d2,
            d2 > 0,
    ;
    let a = 2 * n1 - (2 * q + 1) * d1;
    let b = 2 * n2 - (2 * q + 1) * d2;
    assert(a * d2 == b * d1) by (nonlinear_arith)
        requires
            n1 * d2 == n2 * d1,
            a == 2 * n1 - (2 * q + 1) * d1,
            b == 2 * n2 - (2 * q + 1) * d2,
    ;
    assert((a > 0 <==> b > 0) && (a == 0 <==> b == 0)) by (nonlinear_arith)
        requires
            a * d2 == b * d1,
            d1 > 0,
            d2 > 0,
    ;
}

/// How a rounded magnitude is found from any fraction equal to `n / d` scaled
/// by its binade.
pub proof fn lemma_nearest_from(n: nat, d: nat, e: nat, num: nat, den: nat)
    requires
        d > 0,
        den > 0,
        num * (d * pow2(e)) == n * den,
        num < den * LIMIT,
        e == 0 || num >= den * HIDDEN,
    ensures
        ({
            let raw = e * HIDDEN + half_even(num, den);
            nearest(n, d) == if raw >= INF { INF } else { raw as u64 }
        }),
{
    let big = d * pow2(e);
    lemma_pow2_pos(e);
    assert(big > 0) by (nonlinear_arith)
        requires
            big == d * pow2(e),
            d > 0,
            pow2(e) > 0,
    ;
    assert(n < big * LIMIT) by (nonlinear_arith)
        requires
            num * big == n * den,
            num < den * LIMIT,
            big > 0,
            den > 0,
    {
        assert(n * den < big * LIMIT * den);
    }
    if e > 0 {
        assert(n >= big * HIDDEN) by (nonlinear_arith)
            requires
                num * big == n * den,
                num >= den * HIDDEN,
                big > 0,
                den > 0,
        {
            assert(n * den >= big * HIDDEN * den);
        }
    }
    lemma_binade(n, d, e);
    lemma_half_even_cross(num, den, n, big);
}

/// Equal fractions have the same nearest double.
pub proof fn lemma_nearest_cross(n1: nat, d1: nat, n2: nat, d2: nat)
    requires
        d1 > 0,
        d2 > 0,
        n1 * d2 == n2 * d1,
    ensures
        nearest(n1, d1) == nearest(n2, d2),
{
    let e = binade(n1, d1);
    lemma_binade_bounds(n1, d1);
    let den = d1 * pow2(e);
    lemma_pow2_pos(e);
    assert(den > 0) by (nonlinear_arith)
        requires
            den == d1 * pow2(e),
            d1 > 0,
            pow2(e) > 0,
    ;
    assert(n1 * (d2 * pow2(e)) == n2 * den) by (nonlinear_arith)
        requires
            n1 * d2 == n2 * d1,
            den == d1 * pow2(e),
    ;
    lemma_nearest_from(n2, d2, e, n1, den);
}

pub proof fn lemma_binade_bounds(n: nat, d: nat)
    requires
        d > 0,
    ensures
        n < d * pow2(binade(n, d)) * LIMIT,
        binade(n, d) == 0 || n >= d * pow2(binade(n, d)) * HIDDEN,
    decreases (if n > d { (n - d) as nat } else { 0 }),
{
    lemma2_to64();
    if n < d * LIMIT {
        assert(d * pow2(0) == d) by (nonlinear_arith)
            requires
                pow2(0) == 1,
        ;
    } else {
        lemma_binade_bounds(n, 2 * d);
        let e = binade(n, 2 * d);
        lemma_pow2_unfold((e + 1) as nat);
        assert((2 * d) * pow2(e) == d * pow2((e + 1) as nat)) by (nonlinear_arith)
            requires
                pow2((e + 1) as nat) == 2 * pow2(e),
        ;
        if e == 0 {
            assert(d * pow2(1) == 2 * d) by (nonlinear_arith)
                requires
                    pow2(1) == 2,
            ;
        }
    }
}

/// What `n / d` is when the numerator carries a signed power of two.
spec fn scaled_num(s: nat, k: int) -> nat {
    if k >= 0 {
        s * pow2(k as nat)
    } else {
        s
    }
}

spec fn scaled_den(d: nat, k: int) -> nat {
    if k >= 0 {
        d
    } else {
        d * pow2((-k) as nat)
    }
}

/// Cross multiplication behind [`round_scaled`]: doubling the numerator `up`
/// times and the denominator `down` times leaves `e = k - up + down` halvings.
proof fn lemma_scaled(s: nat, d: nat, k: int, up: nat, down: nat)
    requires
        up == 0 || up <= k,
        k - up + down >= 0,
    ensures
        (s * pow2(up)) * (scaled_den(d, k) * pow2((k - up + down) as nat)) == scaled_num(s, k) * (d
            * pow2(down)),
{
    let e = (k - up + down) as nat;
    if k >= 0 {
        lemma_pow2_adds(up, e);
        lemma_pow2_adds(k as nat, down);
        assert(pow2(up) * pow2(e) == pow2(k as nat) * pow2(down));
        assert((s * pow2(up)) * (d * pow2(e)) == (s * pow2(k as nat)) * (d * pow2(down)))
            by (nonlinear_arith)
            requires
                pow2(up) * pow2(e) == pow2(k as nat) * pow2(down),
        ;
    } else {
        lemma2_to64();
        lemma_pow2_adds((-k) as nat, e);
        assert(((-k) as nat) + e == down);
        assert((s * pow2(0)) * ((d * pow2((-k) as nat)) * pow2(e)) == s * (d * pow2(down)))
            by (nonlinear_arith)
            requires
                pow2(0) == 1,
                pow2((-k) as nat) * pow2(e) == pow2(down),
        ;
    }
}

/// With fewer halvings than `k` asks for and `num / den` at most one half,
/// the scaled fraction rounds to zero.
proof fn lemma_scaled_vanishes(s: nat, d: nat, k: int, up: nat, down: nat)
    requires
        d > 0,
        up == 0 || up <= k,
        up - down > k,
        2 * (s * pow2(up)) <= d * pow2(down),
    ensures
        nearest(scaled_num(s, k), scaled_den(d, k)) == 0,
{
    let n = scaled_num(s, k);
    let m = scaled_den(d, k);
    assert(up == 0 && k < 0);
    lemma2_to64();
    let need = (-k) as nat;
    let more = (need - down) as nat;
    lemma_pow2_adds(down, more);
    lemma_pow2_pos(more);
    lemma_pow2_pos(need);
    assert(d * pow2(need) >= d * pow2(down)) by (nonlinear_arith)
        requires
            pow2(need) == pow2(down) * pow2(more),
            pow2(more) >= 1,
            d > 0,
    ;
    assert(s * pow2(0) == s) by (nonlinear_arith)
        requires
            pow2(0) == 1,
    ;
    assert(2 * n <= m);
    assert(m > 0) by (nonlinear_arith)
        requires
            m == d * pow2(need),
            d > 0,
            pow2(need) > 0,
    ;
    assert(n / m == 0) by (nonlinear_arith)
        requires
            2 * n <= m,
            m > 0,
            n >= 0,
    ;
    assert((2 * 0 + 1) * m == m) by (nonlinear_arith);
    assert(half_even(n, m) == 0);
    assert(m * pow2(0) == m) by (nonlinear_arith)
        requires
            pow2(0) == 1,
    ;
    lemma_binade(n, m, 0);
    assert(nearest(n, m) == 0);
}

/// Rounds `s * 2^k / d` units to the nearest double's magnitude.
fn round_scaled(s: u128, d: u64, k: i32) -> (mag: u64)
    requires
        s < 0x4000_0000_0000_0000_0000_0000_0000_0000,
        0 < d < LIMIT,
        -4000 <= k <= 4000,
    ensures
        mag == nearest(scaled_num(s as nat, k as int), scaled_den(d as nat, k as int)),
        mag <= INF,
{
    if s == 0 {
        proof {
            lemma_pow2_pos((-k) as nat);
            assert(0 * pow2(k as nat) == 0);
            assert(scaled_den(d as nat, k as int) > 0) by (nonlinear_arith)
                requires
                    scaled_den(d as nat, k as int) == d || scaled_den(d as nat, k as int) == d * pow2(
                        (-k) as nat,
                    ),
                    d > 0,
                    pow2((-k) as nat) > 0,
            ;
            lemma_nearest_zero(scaled_den(d as nat, k as int));
        }
        return 0;
    }
    let mut num: u128 = s;
    let mut den: u128 = d as u128;
    let mut j: i32 = 0;
    proof {
        lemma2_to64();
        assert(s * pow2(0) == s) by (nonlinear_arith)
            requires
                pow2(0) == 1,
        ;
    }
    while j < k && num / den < HIDDEN as u128
        invariant
            0 < s < 0x4000_0000_0000_0000_0000_0000_0000_0000,
            0 < d < LIMIT,
            den == d,
            0 <= j,
            j == 0 || j <= k,
            -4000 <= k <= 4000,
            num == s * pow2(j as nat),
            0 < num < 0x4000_0000_0000_0000_0000_0000_0000_0000,
        decreases 4000 - j,
    {
        proof {
            lemma_quotient(num as nat, den as nat, HIDDEN as nat);
            assert(den * HIDDEN < 0x1_0000_0000_0000_0000_0000_0000_0000) by (nonlinear_arith)
                requires
                    den < LIMIT,
            ;
            lemma_pow2_unfold((j + 1) as nat);
            assert(s * pow2((j + 1) as nat) == 2 * (s * pow2(j as nat))) by (nonlinear_arith)
                requires
                    pow2((j + 1) as nat) == 2 * pow2(j as nat),
            ;
        }
        num = num * 2;
        j = j + 1;
    }
    let ghost up = j as nat;
    let ghost mut down: nat = 0;
    proof {
        assert(d * pow2(0) == d) by (nonlinear_arith)
            requires
                pow2(0) == 1,
        ;
        lemma_quotient(num as nat, den as nat, HIDDEN as nat);
    }
    while j > k || num / den >= LIMIT as u128
        invariant
            0 < s,
            0 < d < LIMIT,
            -4000 <= k <= 4000,
            up == 0 || up <= k,
            j == up - down,
            up <= 4000,
            down <= 128,
            pow2(down) <= den,
            num == s * pow2(up),
            den == d * pow2(down),
            0 < num < 0x4000_0000_0000_0000_0000_0000_0000_0000,
            0 < den,
            j >= k || num >= den * HIDDEN,
        decreases (if 2 * num > den { 2 * num - den } else { 0 }),
    {
        proof {
            lemma_quotient(num as nat, den as nat, LIMIT as nat);
        }
        if den / 2 >= num {
            proof {
                if j > k {
                    lemma_scaled_vanishes(s as nat, d as nat, k as int, up, down);
                } else {
                    assert(den * LIMIT >= den) by (nonlinear_arith);
                }
            }
            return 0;
        }
        proof {
            lemma_pow2_unfold(down + 1);
            assert(d * pow2(down + 1) == 2 * (d * pow2(down))) by (nonlinear_arith)
                requires
                    pow2(down + 1) == 2 * pow2(down),
            ;
            if down >= 127 {
                lemma_pow2_adds(64, 63);
                lemma2_to64_rest();
                if down > 127 {
                    lemma_pow2_strictly_increases(127, down);
                }
                assert(false);
            }
            down = down + 1;
        }
        den = den * 2;
        j = j - 1;
    }
    let q: u128 = num / den;
    let r: u128 = num % den;
    let e: u64 = (k - j) as u64;
    proof {
        lemma_quotient(num as nat, den as nat, LIMIT as nat);
        lemma_scaled(s as nat, d as nat, k as int, up, down);
        let m = scaled_den(d as nat, k as int);
        lemma_pow2_pos((-k) as nat);
        assert(m > 0) by (nonlinear_arith)
            requires
                m == d || m == d * pow2((-k) as nat),
                d > 0,
                pow2((-k) as nat) > 0,
        ;
        lemma_nearest_from(
            scaled_num(s as nat, k as int),
            m,
            e as nat,
            num as nat,
            den as nat,
        );
        assert(num == q * den + r && r < den && 2 * num - (2 * q + 1) * den == 2 * r - den)
            by (nonlinear_arith)
            requires
                den > 0,
                q == num / den,
                r == num % den,
        ;
        assert((num as nat) / (den as nat) == q);
    }
    let up_one: bool = r > den - r || (r == den - r && q % 2 == 1);
    let sig: u64 = if up_one { q as u64 + 1 } else { q as u64 };
    assert(sig == half_even(num as nat, den as nat));
    if e >= 2047 {
        INF
    } else {
        let raw: u64 = e * HIDDEN + sig;
        if raw >= INF {
            INF
        } else {
            raw
        }
    }
}

proof fn lemma_quotient(n: nat, d: nat, bound: nat)
    requires
        d > 0,
    ensures
        n / d < bound <==> n < d * bound,
{
    let q = n / d;
    assert(q * d <= n && n < (q + 1) * d) by (nonlinear_arith)
        requires
            d > 0,
            q == n / d,
    ;
    if q < bound {
        assert((q + 1) * d <= d * bound) by (nonlinear_arith)
            requires
                q + 1 <= bound,
                d > 0,
        ;
    } else {
        assert(q * d >= d * bound) by (nonlinear_arith)
            requires
                q >= bound,
                d > 0,
        ;
    }
}

proof fn lemma_nearest_zero(d: nat)
    requires
        d > 0,
    ensures
        nearest(0, d) == 0,
{
    lemma2_to64();
    assert(d * LIMIT > 0) by (nonlinear_arith)
        requires
            d > 0,
    ;
    assert(d * pow2(0) == d) by (nonlinear_arith)
        requires
            pow2(0) == 1,
    ;
    assert(0nat / d == 0) by (nonlinear_arith)
        requires
            d > 0,
    ;
}

/// A finite magnitude taken apart: significand and power of two.
pub(crate) fn decode(mag: u64) -> (r: (u64, u32))
    requires
        mag < INF,
    ensures
        r.0 == significand(mag),
        r.1 == power(mag),
        r.0 < LIMIT,
        r.1 <= 2045,
        r.1 > 0 ==> r.0 >= HIDDEN,
        mag == r.1 * HIDDEN + r.0,
{
    let field: u64 = mag / HIDDEN;
    if field == 0 {
        (mag, 0)
    } else {
        (HIDDEN + mag % HIDDEN, (field - 1) as u32)
    }
}

/// `s * 2^by`.
pub(crate) fn shift_up(s: u128, by: u32) -> (r: u128)
    requires
        s < LIMIT,
        by <= 72,
    ensures
        r == s * pow2(by as nat),
        r < 0x2000_0000_0000_0000_0000_0000_0000_0000,
{
    let mut r: u128 = s;
    let mut i: u32 = 0;
    proof {
        lemma2_to64();
        assert(s * pow2(0) == s) by (nonlinear_arith)
            requires
                pow2(0) == 1,
        ;
        lemma2_to64_rest();
        lemma_pow2_adds(64, 8);
        assert(s * pow2(72) < 0x2000_0000_0000_0000_0000_0000_0000_0000) by (nonlinear_arith)
            requires
                s < LIMIT,
                pow2(72) == 0x100_0000_0000_0000_0000,
        ;
    }
    while i < by
        invariant
            i <= by <= 72,
            s < LIMIT,
            r == s * pow2(i as nat),
            s * pow2(72) < 0x2000_0000_0000_0000_0000_0000_0000_0000,
            r < 0x2000_0000_0000_0000_0000_0000_0000_0000,
        decreases by - i,
    {
        proof {
            lemma_pow2_unfold((i + 1) as nat);
            assert(s * pow2((i + 1) as nat) == 2 * (s * pow2(i as nat))) by (nonlinear_arith)
                requires
                    pow2((i + 1) as nat) == 2 * pow2(i as nat),
            ;
            if i + 1 < 72 {
                lemma_pow2_strictly_increases((i + 1) as nat, 72);
            }
            assert(s * pow2((i + 1) as nat) <= s * pow2(72)) by (nonlinear_arith)
                requires
                    pow2((i + 1) as nat) <= pow2(72),
            ;
        }
        r = r * 2;
        i = i + 1;
    }
    r
}

/// A term far below the last place of `u = sig * 2^x` does not move it.
proof fn lemma_absorbed(sig: nat, x: nat, w: nat, n: nat)
    requires
        HIDDEN <= sig < LIMIT,
        1 <= x <= 2045,
        w * 4 < pow2(x),
        n == sig * pow2(x) + w || n == sig * pow2(x) - w,
    ensures
        nearest(n, 1) == x * HIDDEN + sig,
{
    let p = pow2(x);
    lemma_pow2_pos(x);
    assert(1 * p == p);
    if n >= HIDDEN * p {
        assert(n < (sig + 1) * p && n < p * LIMIT && n >= p * HIDDEN) by (nonlinear_arith)
            requires
                n == sig * p + w || n == sig * p - w,
                w * 4 < p,
                sig + 1 <= LIMIT,
                n >= HIDDEN * p,
        ;
        lemma_nearest_from(n, 1, x, n, p);
        if n >= sig * p {
            assert(n / p == sig) by (nonlinear_arith)
                requires
                    sig * p <= n < (sig + 1) * p,
                    p > 0,
            ;
            assert(2 * n < (2 * sig + 1) * p) by (nonlinear_arith)
                requires
                    n == sig * p + w || n <= sig * p,
                    w * 4 < p,
            ;
        } else {
            assert((sig - 1) * p <= n && 2 * n > (2 * (sig - 1) + 1) * p) by (nonlinear_arith)
                requires
                    n == sig * p - w,
                    w * 4 < p,
            ;
            assert(n / p == sig - 1) by (nonlinear_arith)
                requires
                    (sig - 1) * p <= n < sig * p,
                    p > 0,
            ;
        }
    } else {
        assert(sig == HIDDEN) by (nonlinear_arith)
            requires
                n < HIDDEN * p,
                n == sig * p + w || n == sig * p - w,
                w * 4 < p,
                HIDDEN <= sig,
        ;
        let y = (x - 1) as nat;
        let h = pow2(y);
        lemma_pow2_unfold(x);
        lemma_pow2_pos(y);
        assert(1 * h == h);
        assert(n == LIMIT * h - w) by (nonlinear_arith)
            requires
                n == HIDDEN * p - w,
                p == 2 * h,
                LIMIT == 2 * HIDDEN,
        ;
        lemma_nearest_from(n, 1, y, n, h);
        assert(n / h == LIMIT - 1) by (nonlinear_arith)
            requires
                n == LIMIT * h - w,
                0 < w < h,
        ;
        assert(2 * n > (2 * (LIMIT - 1) + 1) * h) by (nonlinear_arith)
            requires
                n == LIMIT * h - w,
                w * 2 < h,
        ;
    }
}

impl Double {
    /// The number with the given bit pattern.
    pub fn from_bits(bits: u64) -> (r: Double)
        ensures
            r.bits == bits,
    {
        Double { bits }
    }

    pub fn to_bits(self) -> (bits: u64)
        ensures
            bits == self.bits,
    {
        self.bits
    }

    pub fn is_nan(self) -> (r: bool)
        ensures
            r == self.nan(),
    {
        self.bits % SIGN > INF
    }

    pub fn is_finite(self) -> (r: bool)
        ensures
            r == self.finite(),
    {
        self.bits % SIGN < INF
    }

    /// `self < other`; false where either is a NaN.
    pub fn lt(self, other: Double) -> (r: bool)
        ensures
            r == self.lt_spec(other),
    {
        if self.is_nan() || other.is_nan() {
            return false;
        }
        let a: u64 = self.bits % SIGN;
        let b: u64 = other.bits % SIGN;
        if self.bits >= SIGN {
            if other.bits >= SIGN {
                a > b
            } else {
                a > 0 || b > 0
            }
        } else if other.bits >= SIGN {
            false
        } else {
            a < b
        }
    }

    /// `self <= other`; false where either is a NaN.
    pub fn le(self, other: Double) -> (r: bool)
        ensures
            r == self.le_spec(other),
    {
        !self.is_nan() && !other.is_nan() && !other.lt(self)
    }

    pub(crate) fn with_sign(neg: bool, mag: u64) -> (r: Double)
        requires
            mag < SIGN,
        ensures
            r == signed(neg, mag),
            r.neg() == neg,
            r.mag() == mag,
    {
        if neg {
            Double { bits: mag + SIGN }
        } else {
            Double { bits: mag }
        }
    }

    pub fn negate(self) -> (r: Double)
        ensures
            r == self.negate_spec(),
    {
        Double::with_sign(self.bits < SIGN, self.bits % SIGN)
    }

    /// The sum of two finite doubles, the first with the larger power of two.
    fn add_finite(hi: Double, lo: Double) -> (r: Double)
        requires
            hi.finite(),
            lo.finite(),
            power(hi.mag()) >= power(lo.mag()),
        ensures
            r == hi.add_spec(lo),
    {
        let (sa, xa) = decode(hi.bits % SIGN);
        let (sb, xb) = decode(lo.bits % SIGN);
        let na: bool = hi.bits >= SIGN;
        let nb: bool = lo.bits >= SIGN;
        let gap: u32 = xa - xb;
        if gap > 72 {
            proof {
                lemma_pow2_adds(xb as nat, gap as nat);
                lemma2_to64();
                lemma2_to64_rest();
                lemma_pow2_adds(64, 8);
                if gap > 72 {
                    lemma_pow2_strictly_increases(72, gap as nat);
                }
                let w = lo.units();
                let p = pow2(xb as nat);
                lemma_pow2_pos(xb as nat);
                assert(w * 4 < pow2(xa as nat)) by (nonlinear_arith)
                    requires
                        w == sb * p,
                        sb < LIMIT,
                        p > 0,
                        pow2(xa as nat) == p * pow2(gap as nat),
                        pow2(gap as nat) > 0x100_0000_0000_0000_0000,
                {
                    assert(sb * p <= LIMIT * p);
                    assert(p * pow2(gap as nat) >= p * 0x100_0000_0000_0000_0000);
                }
                let u = hi.units();
                assert(u >= pow2(xa as nat)) by (nonlinear_arith)
                    requires
                        u == sa * pow2(xa as nat),
                        sa >= 1,
                ;
                let n = if na == nb { u + w } else { (u - w) as nat };
                lemma_absorbed(sa as nat, xa as nat, w, n);
            }
            return hi;
        }
        let a: u128 = shift_up(sa as u128, gap);
        let b: u128 = sb as u128;
        proof {
            lemma_pow2_adds(gap as nat, xb as nat);
            let p = pow2(xb as nat);
            lemma_pow2_pos(xb as nat);
            assert(sa * (pow2(gap as nat) * p) == a * p) by (nonlinear_arith)
                requires
                    a == sa * pow2(gap as nat),
            ;
            assert((a + b) * p == a * p + b * p) by (nonlinear_arith);
            assert((a - b) * p == a * p - b * p) by (nonlinear_arith);
            assert((b - a) * p == b * p - a * p) by (nonlinear_arith);
            assert((a > b ==> a * p > b * p) && (a < b ==> a * p < b * p) && (a + b > 0 ==> a * p + b
                * p > 0)) by (nonlinear_arith)
                requires
                    p > 0,
                    a >= 0,
                    b >= 0,
            ;
        }
        if na == nb {
            let mag: u64 = round_scaled(a + b, 1, xb as i32);
            proof {
                if a + b == 0 {
                    lemma_nearest_zero(1);
                }
            }
            Double::with_sign(na, mag)
        } else if a == b {
            Double::with_sign(false, 0)
        } else if a > b {
            let mag: u64 = round_scaled(a - b, 1, xb as i32);
            Double::with_sign(na, mag)
        } else {
            let mag: u64 = round_scaled(b - a, 1, xb as i32);
            Double::with_sign(nb, mag)
        }
    }

    /// Correctly rounded `self + other`.
    pub fn plus(self, other: Double) -> (r: Double)
        ensures
            r == self.add_spec(other),
    {
        if self.is_nan() || other.is_nan() {
            return Double { bits: QUIET_NAN };
        }
        if !self.is_finite() {
            if !other.is_finite() && (self.bits >= SIGN) != (other.bits >= SIGN) {
                return Double { bits: QUIET_NAN };
            }
            return self;
        }
        if !other.is_finite() {
            return other;
        }
        let (_, xa) = decode(self.bits % SIGN);
        let (_, xb) = decode(other.bits % SIGN);
        if xa >= xb {
            Double::add_finite(self, other)
        } else {
            Double::add_finite(other, self)
        }
    }

    /// Correctly rounded `self - other`.
    pub fn minus(self, other: Double) -> (r: Double)
        ensures
            r == self.sub_spec(other),
    {
        self.plus(other.negate())
    }

    /// Correctly rounded `self * other`.
    pub fn times(self, other: Double) -> (r: Double)
        ensures
            r == self.mul_spec(other),
    {
        if self.is_nan() || other.is_nan() {
            return Double { bits: QUIET_NAN };
        }
        let neg: bool = (self.bits >= SIGN) != (other.bits >= SIGN);
        let ma: u64 = self.bits % SIGN;
        let mb: u64 = other.bits % SIGN;
        if ma == INF || mb == INF {
            if ma == 0 || mb == 0 {
                return Double { bits: QUIET_NAN };
            }
            return Double::with_sign(neg, INF);
        }
        let (sa, xa) = decode(ma);
        let (sb, xb) = decode(mb);
        proof {
            assert(sa * sb < 0x1000_0000_0000_0000_0000_0000_0000) by (nonlinear_arith)
                requires
                    sa < LIMIT,
                    sb < LIMIT,
            ;
        }
        let k: i32 = xa as i32 + xb as i32 - 1074;
        let mag: u64 = round_scaled(sa as u128 * sb as u128, 1, k);
        proof {
            let s = (sa * sb) as nat;
            let n = mag_units(ma) * mag_units(mb);
            lemma_pow2_adds(xa as nat, xb as nat);
            lemma_pow2_pos(1074);
            let t = pow2((xa + xb) as nat);
            assert(n == s * t) by (nonlinear_arith)
                requires
                    n == (sa * pow2(xa as nat)) * (sb * pow2(xb as nat)),
                    t == pow2(xa as nat) * pow2(xb as nat),
                    s == sa * sb,
            ;
            let d = scaled_den(1, k as int);
            if k >= 0 {
                lemma_pow2_adds(k as nat, 1074);
                assert((s * pow2(k as nat)) * pow2(1074) == n * d) by (nonlinear_arith)
                    requires
                        n == s * t,
                        t == pow2(k as nat) * pow2(1074),
                        d == 1,
                ;
            } else {
                lemma_pow2_adds((xa + xb) as nat, (-k) as nat);
                lemma_pow2_pos((-k) as nat);
                assert(s * pow2(1074) == n * d) by (nonlinear_arith)
                    requires
                        n == s * t,
                        pow2(1074) == t * pow2((-k) as nat),
                        d == 1 * pow2((-k) as nat),
                ;
            }
            lemma_nearest_cross(scaled_num(s, k as int), d, n, pow2(1074));
        }
        Double::with_sign(neg, mag)
    }

    /// Correctly rounded `self / other`.
    pub fn over(self, other: Double) -> (r: Double)
        ensures
            r == self.div_spec(other),
    {
        if self.is_nan() || other.is_nan() {
            return Double { bits: QUIET_NAN };
        }
        let neg: bool = (self.bits >= SIGN) != (other.bits >= SIGN);
        let ma: u64 = self.bits % SIGN;
        let mb: u64 = other.bits % SIGN;
        if ma == INF {
            if mb == INF {
                return Double { bits: QUIET_NAN };
            }
            return Double::with_sign(neg, INF);
        }
        if mb == INF {
            return Double::with_sign(neg, 0);
        }
        if mb == 0 {
            if ma == 0 {
                return Double { bits: QUIET_NAN };
            }
            return Double::with_sign(neg, INF);
        }
        let (sa, xa) = decode(ma);
        let (sb, xb) = decode(mb);
        let k: i32 = xa as i32 + 1074 - xb as i32;
        let mag: u64 = round_scaled(sa as u128, sb, k);
        proof {
            let n = mag_units(ma) * pow2(1074);
            let d = mag_units(mb);
            lemma_pow2_adds(xa as nat, 1074);
            lemma_pow2_pos(xb as nat);
            let t = pow2((xa + 1074) as nat);
            let p = pow2(xb as nat);
            assert(n == sa * t) by (nonlinear_arith)
                requires
                    n == (sa * pow2(xa as nat)) * pow2(1074),
                    t == pow2(xa as nat) * pow2(1074),
            ;
            assert(d > 0) by (nonlinear_arith)
                requires
                    d == sb * p,
                    sb > 0,
                    p > 0,
            ;
            let sn = scaled_num(sa as nat, k as int);
            let sd = scaled_den(sb as nat, k as int);
            if k >= 0 {
                lemma_pow2_adds(k as nat, xb as nat);
                assert(sn * d == n * sd) by (nonlinear_arith)
                    requires
                        sn == sa * pow2(k as nat),
                        sd == sb,
                        n == sa * t,
                        d == sb * p,
                        t == pow2(k as nat) * p,
                ;
            } else {
                lemma_pow2_adds((xa + 1074) as nat, (-k) as nat);
                lemma_pow2_pos((-k) as nat);
                assert(sn * d == n * sd) by (nonlinear_arith)
                    requires
                        sn == sa,
                        sd == sb * pow2((-k) as nat),
                        n == sa * t,
                        d == sb * p,
                        p == t * pow2((-k) as nat),
                ;
                assert(sd > 0) by (nonlinear_arith)
                    requires
                        sd == sb * pow2((-k) as nat),
                        sb > 0,
                        pow2((-k) as nat) > 0,
                ;
            }
            lemma_nearest_cross(sn, sd, n, d);
        }
        Double::with_sign(neg, mag)
    }

    /// The double nearest to `n`.
    pub fn from_u64(n: u64) -> (r: Double)
        ensures
            r == Double::from_nat_spec(n as nat),
    {
        let mag: u64 = round_scaled(n as u128, 1, 1074);
        Double::with_sign(false, mag)
    }
}

// ---------------------------------------------------------------------------
// Choosing and rounding up
// ---------------------------------------------------------------------------

/// `value` units, rounded up to whole ones.
pub open spec fn ceil_spec(units: nat) -> int {
    (units + pow2(1074) - 1) / (pow2(1074) as int)
}

proof fn lemma_ceil_scaled(s: nat, p: nat, k: nat, c: int)
    requires
        p > 0,
        k > 0,
        c == (s + k - 1) / (k as int),
    ensures
        (s * p + p * k - 1) / ((p * k) as int) == c,
{
    let d = p * k;
    assert(d > 0) by (nonlinear_arith)
        requires
            d == p * k,
            p > 0,
            k > 0,
    ;
    assert(c * k <= s + k - 1 && s + k <= (c + 1) * k) by (nonlinear_arith)
        requires
            c == (s + k - 1) / (k as int),
            k > 0,
    ;
    let n = s * p + p * k - 1;
    assert(c * d <= n && n < (c + 1) * d) by (nonlinear_arith)
        requires
            c * k <= s + k - 1,
            s + k <= (c + 1) * k,
            d == p * k,
            n == s * p + p * k - 1,
            p > 0,
    {
        assert((c * k) * p <= (s + k - 1) * p);
        assert((s + k) * p <= ((c + 1) * k) * p);
    }
    assert(n / (d as int) == c) by (nonlinear_arith)
        requires
            c * d <= n,
            n < (c + 1) * d,
            d > 0,
    ;
}

impl Double {
    /// The larger of two doubles; the other one where one is a NaN.
    pub open spec fn max_spec(self, other: Double) -> Double {
        if self.nan() {
            other
        } else if other.nan() {
            self
        } else if self.lt_spec(other) {
            other
        } else {
            self
        }
    }

    /// The smaller of two doubles; the other one where one is a NaN.
    pub open spec fn min_spec(self, other: Double) -> Double {
        if self.nan() {
            other
        } else if other.nan() {
            self
        } else if other.lt_spec(self) {
            other
        } else {
            self
        }
    }

    pub fn max(self, other: Double) -> (r: Double)
        ensures
            r == self.max_spec(other),
    {
        if self.is_nan() {
            other
        } else if other.is_nan() {
            self
        } else if self.lt(other) {
            other
        } else {
            self
        }
    }

    pub fn min(self, other: Double) -> (r: Double)
        ensures
            r == self.min_spec(other),
    {
        if self.is_nan() {
            other
        } else if other.is_nan() {
            self
        } else if other.lt(self) {
            other
        } else {
            self
        }
    }

    /// The absolute value.
    pub open spec fn abs_spec(self) -> Double {
        signed(false, self.mag())
    }

    pub fn abs(self) -> (r: Double)
        ensures
            r == self.abs_spec(),
    {
        Double::with_sign(false, self.bits % SIGN)
    }

    /// A finite, non-negative double rounded up to a whole number, as far as
    /// 64 bits go.
    pub fn ceil_to_u64(self) -> (r: u64)
        requires
            self.finite(),
            !self.neg(),
        ensures
            r == if ceil_spec(self.units()) <= u64::MAX {
                ceil_spec(self.units())
            } else {
                u64::MAX as int
            },
    {
        let (s, x) = decode(self.bits % SIGN);
        proof {
            lemma2_to64();
            lemma2_to64_rest();
            lemma_pow2_pos(1074);
            lemma_pow2_pos(x as nat);
        }
        if x >= 1074 {
            let q: u32 = x - 1074;
            let ghost a = s * pow2(q as nat);
            proof {
                lemma_pow2_adds(q as nat, 1074);
                lemma_pow2_pos(q as nat);
                assert(s * (pow2(q as nat) * pow2(1074)) == a * pow2(1074)) by (nonlinear_arith)
                    requires
                        a == s * pow2(q as nat),
                ;
                lemma_ceil_scaled(a as nat, pow2(1074), 1, a as int);
                assert(pow2(1074) * 1 == pow2(1074));
            }
            if q > 11 {
                proof {
                    if q > 12 {
                        lemma_pow2_strictly_increases(12, q as nat);
                    }
                    assert(a >= 0x1_0000_0000_0000_0000) by (nonlinear_arith)
                        requires
                            a == s * pow2(q as nat),
                            s >= HIDDEN,
                            pow2(q as nat) >= 0x1000,
                    ;
                }
                return u64::MAX;
            }
            let n: u128 = shift_up(s as u128, q);
            if n > u64::MAX as u128 {
                u64::MAX
            } else {
                n as u64
            }
        } else {
            let k: u32 = 1074 - x;
            proof {
                lemma_pow2_adds(x as nat, k as nat);
                lemma_pow2_pos(k as nat);
                lemma_ceil_scaled(
                    s as nat,
                    pow2(x as nat),
                    pow2(k as nat),
                    (s + pow2(k as nat) - 1) / (pow2(k as nat) as int),
                );
            }
            if k >= 53 {
                proof {
                    if k > 53 {
                        lemma_pow2_strictly_increases(53, k as nat);
                    }
                    let w = pow2(k as nat) as int;
                    assert(s > 0 ==> (s + w - 1) / w == 1) by (nonlinear_arith)
                        requires
                            s < w,
                            w > 0,
                    ;
                    assert(s == 0 ==> (s + w - 1) / w == 0) by (nonlinear_arith)
                        requires
                            w > 0,
                    ;
                }
                if s > 0 {
                    1
                } else {
                    0
                }
            } else {
                let w: u128 = shift_up(1, k);
                proof {
                    assert(1 * pow2(k as nat) == pow2(k as nat));
                    if k < 52 {
                        lemma_pow2_strictly_increases(k as nat, 52);
                    }
                    assert((s + w - 1) / (w as int) <= s) by (nonlinear_arith)
                        requires
                            w >= 1,
                            s >= 0,
                    ;
                }
                ((s as u128 + w - 1) / w) as u64
            }
        }
    }
}

// ---------------------------------------------------------------------------
// Laws
// ---------------------------------------------------------------------------

/// `(x - x) / x`, scaled by any finite factor, is a zero.
pub proof fn lemma_nothing_over(x: Double, factor: Double)
    requires
        x.finite(),
        !x.zero(),
        factor.finite(),
    ensures
        x.sub_spec(x).div_spec(x).mul_spec(factor).zero(),
        !x.sub_spec(x).div_spec(x).mul_spec(factor).nan(),
{
    let minus = x.negate_spec();
    assert(minus.mag() == x.mag() && minus.neg() == !x.neg());
    let diff = x.sub_spec(x);
    assert(x.value() + minus.value() == 0);
    assert(diff.mag() == 0);
    lemma_pow2_pos(power(x.mag()));
    lemma_pow2_pos(1074);
    assert(x.units() > 0) by (nonlinear_arith)
        requires
            x.units() == significand(x.mag()) * pow2(power(x.mag())),
            significand(x.mag()) > 0,
            pow2(power(x.mag())) > 0,
    ;
    assert(diff.units() == 0) by {
        assert(significand(0) == 0);
        assert(0 * pow2(power(0)) == 0);
    }
    assert(0 * pow2(1074) == 0);
    lemma_nearest_zero(x.units());
    let quotient = diff.div_spec(x);
    assert(quotient.mag() == 0);
    assert(quotient.units() == 0) by {
        assert(significand(0) == 0);
        assert(0 * pow2(power(0)) == 0);
    }
    assert(0 * factor.units() == 0);
    lemma_nearest_zero(pow2(1074));
}

/// Rounding never goes past what it rounds to from below: `n / d` at most
/// `LIMIT * 2^e` units has a nearest magnitude of at most `(e + 2) * 2^52`.
proof fn lemma_nearest_bound(n: nat, d: nat, e: nat)
    requires
        d > 0,
        n <= d * pow2(e) * LIMIT,
        e <= 2000,
    ensures
        nearest(n, d) <= (e + 2) * HIDDEN,
{
    let b = binade(n, d);
    lemma_binade_bounds(n, d);
    lemma_pow2_pos(b);
    lemma_pow2_pos(e);
    let big = d * pow2(b);
    assert(big > 0) by (nonlinear_arith)
        requires
            big == d * pow2(b),
            d > 0,
            pow2(b) > 0,
    ;
    lemma_quotient(n, big, LIMIT as nat);
    assert(half_even(n, big) <= LIMIT);
    if b > e {
        lemma_pow2_unfold(e + 1);
        if b > e + 1 {
            lemma_pow2_strictly_increases(e + 1, b);
        }
        assert(pow2(b) >= 2 * pow2(e));
        // The fraction then equals exactly 2^53 * 2^e.
        assert(n >= d * pow2(e) * LIMIT) by (nonlinear_arith)
            requires
                n >= d * pow2(b) * HIDDEN,
                pow2(b) >= 2 * pow2(e),
                LIMIT == 2 * HIDDEN,
                d > 0,
        {
            assert(d * pow2(b) >= d * (2 * pow2(e)));
        }
        assert(b == e + 1) by {
            if b > e + 1 {
                lemma_pow2_unfold(e + 2);
                if b > e + 2 {
                    lemma_pow2_strictly_increases(e + 2, b);
                }
                assert(n > d * pow2(e) * LIMIT) by (nonlinear_arith)
                    requires
                        n >= d * pow2(b) * HIDDEN,
                        pow2(b) >= 4 * pow2(e),
                        LIMIT == 2 * HIDDEN,
                        d > 0,
                        pow2(e) > 0,
                {
                    assert(d * pow2(b) >= d * (4 * pow2(e)));
                    assert(d * pow2(e) > 0);
                }
            }
        }
        assert(n == big * HIDDEN) by (nonlinear_arith)
            requires
                n == d * pow2(e) * LIMIT,
                big == d * (2 * pow2(e)),
                LIMIT == 2 * HIDDEN,
        ;
        assert(n / big == HIDDEN) by (nonlinear_arith)
            requires
                n == big * HIDDEN,
                big > 0,
        ;
        assert(2 * n < (2 * HIDDEN + 1) * big) by (nonlinear_arith)
            requires
                n == big * HIDDEN,
                big > 0,
        ;
        assert(half_even(n, big) == HIDDEN);
        assert(b * HIDDEN + HIDDEN == (e + 2) * HIDDEN) by (nonlinear_arith)
            requires
                b == e + 1,
        ;
    } else {
        assert(b * HIDDEN + LIMIT <= (e + 2) * HIDDEN) by (nonlinear_arith)
            requires
                b <= e,
                LIMIT == 2 * HIDDEN,
        ;
    }
}

/// Every 64-bit count has a finite double.
pub proof fn lemma_u64_is_finite(n: u64)
    ensures
        Double::from_nat_spec(n as nat).finite(),
        !Double::from_nat_spec(n as nat).neg(),
{
    lemma_pow2_adds(11, 1074);
    lemma2_to64();
    lemma_pow2_pos(1074);
    assert(n * pow2(1074) <= 1 * pow2(1085) * LIMIT) by (nonlinear_arith)
        requires
            n <= 0xffff_ffff_ffff_ffff,
            pow2(1085) == 0x800 * pow2(1074),
            pow2(1074) > 0,
    ;
    lemma_nearest_bound((n * pow2(1074)) as nat, 1, 1085);
}

/// A finite double times one below 1 is finite, with the product's sign.
pub proof fn lemma_scaled_down_is_finite(a: Double, b: Double)
    requires
        a.finite(),
        b.finite(),
        b.mag() <= ONE,
    ensures
        a.mul_spec(b).finite(),
        a.mul_spec(b).neg() == (a.neg() != b.neg()),
{
    let (s, p) = (significand(a.mag()), power(a.mag()));
    let d = pow2(1074);
    lemma_pow2_pos(1074);
    lemma_pow2_pos(p);
    assert(b.units() <= d) by {
        assert(mag_units(ONE) == d) by {
            assert(significand(ONE) == HIDDEN && power(ONE) == 1022);
            lemma_pow2_adds(52, 1022);
            lemma2_to64_rest();
        }
        if b.mag() < ONE {
            lemma_units_increase(b.mag(), ONE);
        }
    }
    // The product rounds to at most what the first factor is.
    let n = a.units() * b.units();
    assert(n <= a.units() * d) by (nonlinear_arith)
        requires
            n == a.units() * b.units(),
            b.units() <= d,
    ;
    lemma_nearest_monotonic(n, a.units() * d, d);
    assert(a.units() * d * 1 == a.units() * d) by (nonlinear_arith);
    lemma_nearest_cross(a.units() * d, d, a.units(), 1);
    law_representable_values_round_to_themselves(a.mag());
}

/// Rounding to nearest keeps order.
pub proof fn lemma_nearest_monotonic(m: nat, n: nat, d: nat)
    requires
        d > 0,
        m <= n,
    ensures
        nearest(m, d) <= nearest(n, d),
{
    let (x, y) = (binade(m, d), binade(n, d));
    lemma_binade_bounds(m, d);
    lemma_binade_bounds(n, d);
    lemma_pow2_pos(x);
    lemma_pow2_pos(y);
    let (a, b) = (d * pow2(x), d * pow2(y));
    assert(a > 0 && b > 0) by (nonlinear_arith)
        requires
            a == d * pow2(x),
            b == d * pow2(y),
            d > 0,
            pow2(x) > 0,
            pow2(y) > 0,
    ;
    lemma_quotient(m, a, LIMIT as nat);
    lemma_quotient(n, b, LIMIT as nat);
    if y > 0 {
        lemma_quotient(n, b, HIDDEN as nat);
    }
    if x == y {
        lemma_half_even_monotonic(m, n, a);
    } else if x < y {
        assert(half_even(m, a) <= LIMIT);
        assert(half_even(n, b) >= HIDDEN);
        assert(x * HIDDEN + LIMIT <= y * HIDDEN + HIDDEN) by (nonlinear_arith)
            requires
                x + 1 <= y,
                LIMIT == 2 * HIDDEN,
        ;
    } else {
        // A larger scale for the smaller fraction is impossible.
        lemma_pow2_unfold(y + 1);
        if y + 1 < x {
            lemma_pow2_strictly_increases(y + 1, x);
        }
        assert(a >= 2 * b) by (nonlinear_arith)
            requires
                a == d * pow2(x),
                b == d * pow2(y),
                pow2(x) >= 2 * pow2(y),
                d > 0,
        ;
        assert(a * HIDDEN >= b * LIMIT) by (nonlinear_arith)
            requires
                a >= 2 * b,
                LIMIT == 2 * HIDDEN,
        ;
    }
}

proof fn lemma_half_even_monotonic(m: nat, n: nat, d: nat)
    requires
        d > 0,
        m <= n,
    ensures
        half_even(m, d) <= half_even(n, d),
{
    let (p, q) = (m / d, n / d);
    assert(p * d <= m && m < (p + 1) * d && q * d <= n && n < (q + 1) * d) by (nonlinear_arith)
        requires
            d > 0,
            p == m / d,
            q == n / d,
    ;
    assert(p <= q) by (nonlinear_arith)
        requires
            p * d <= m,
            m <= n,
            n < (q + 1) * d,
            d > 0,
    ;
}

pub proof fn lemma_units_increase(a: u64, b: u64)
    requires
        a < b < INF,
    ensures
        mag_units(a) < mag_units(b),
{
    let (p, q) = (power(a), power(b));
    let (s, t) = (significand(a), significand(b));
    lemma_pow2_pos(p);
    lemma_pow2_pos(q);
    assert(p <= q);
    if p == q {
        assert(s < t);
        assert(s * pow2(p) < t * pow2(p)) by (nonlinear_arith)
            requires
                s < t,
                pow2(p) > 0,
        ;
    } else {
        lemma_pow2_unfold(p + 1);
        if p + 1 < q {
            lemma_pow2_strictly_increases(p + 1, q);
        }
        assert(s < LIMIT && t >= HIDDEN);
        assert(s * pow2(p) < t * pow2(q)) by (nonlinear_arith)
            requires
                s < LIMIT,
                t >= HIDDEN,
                LIMIT == 2 * HIDDEN,
                2 * pow2(p) <= pow2(q),
                pow2(p) > 0,
        {
            assert(s * pow2(p) < LIMIT * pow2(p));
            assert(HIDDEN * pow2(q) <= t * pow2(q));
            assert(HIDDEN * (2 * pow2(p)) <= HIDDEN * pow2(q));
        }
    }
}

/// Finite doubles compare as the numbers that they stand for.
pub proof fn law_order_is_order_of_values(a: Double, b: Double)
    requires
        a.finite(),
        b.finite(),
    ensures
        a.le_spec(b) <==> a.value() <= b.value(),
        a.lt_spec(b) <==> a.value() < b.value(),
{
    let (x, y) = (a.mag(), b.mag());
    assert(mag_units(0) == 0) by {
        assert(significand(0) == 0);
        assert(0 * pow2(power(0)) == 0);
    }
    if x < y {
        lemma_units_increase(x, y);
    } else if y < x {
        lemma_units_increase(y, x);
    }
    if x > 0 {
        lemma_units_increase(0, x);
    }
    if y > 0 {
        lemma_units_increase(0, y);
    }
}

/// A number that is a double already is its own nearest double.
pub proof fn law_representable_values_round_to_themselves(mag: u64)
    requires
        mag < INF,
    ensures
        nearest(mag_units(mag), 1) == mag,
{
    let (s, p) = (significand(mag), power(mag));
    let n = mag_units(mag);
    lemma_pow2_pos(p);
    assert(s * (1 * pow2(p)) == n * 1) by (nonlinear_arith)
        requires
            n == s * pow2(p),
    ;
    assert(s < LIMIT && (p == 0 || s >= HIDDEN));
    lemma_nearest_from(n, 1, p, s, 1);
    assert(half_even(s, 1) == s) by {
        assert(s / 1 == s);
        assert((2 * s + 1) * 1 == 2 * s + 1) by (nonlinear_arith);
    }
}

} // verus!
