//! Doubles rounded to whole numbers and written with a fixed number of
//! decimals.
use crate::double;
use crate::double::Double;
use crate::numerals;
use crate::text;
use vstd::arithmetic::power2::*;
use vstd::prelude::*;

verus! {

// ---------------------------------------------------------------------------
// Rounding to whole numbers
// ---------------------------------------------------------------------------

/// The whole number nearest to `units`, ties away from zero.
pub open spec fn nearest_whole(units: nat) -> nat {
    (2 * units + pow2(1074)) / (2 * pow2(1074))
}

proof fn lemma_common_factor(a: nat, b: nat, p: nat)
    requires
        b > 0,
        p > 0,
    ensures
        (p * a) / (p * b) == a / b,
{
    let q = a / b;
    assert(q * b <= a && a < (q + 1) * b) by (nonlinear_arith)
        requires
            q == a / b,
            b > 0,
    ;
    assert(q * (p * b) <= p * a && p * a < (q + 1) * (p * b) && p * b > 0) by (nonlinear_arith)
        requires
            q * b <= a,
            a < (q + 1) * b,
            p > 0,
            b > 0,
    {
        assert((q * b) * p <= a * p);
        assert(a * p < ((q + 1) * b) * p);
    }
    let n = p * a;
    let d = p * b;
    assert(n / d == q) by (nonlinear_arith)
        requires
            q * d <= n,
            n < (q + 1) * d,
            d > 0,
    ;
}

impl Double {
    /// The nearest whole number, ties away from zero; what is not finite stays
    /// as it is.
    pub open spec fn round_spec(self) -> Double {
        if self.finite() {
            double::signed(self.neg(), Double::from_nat_spec(nearest_whole(self.units())).mag())
        } else {
            self
        }
    }

    pub fn round(self) -> (r: Double)
        ensures
            r == self.round_spec(),
    {
        if !self.is_finite() {
            return self;
        }
        let mag: u64 = self.bits % double::SIGN;
        let neg: bool = self.bits >= double::SIGN;
        let (s, x) = double::decode(mag);
        let ghost unit = pow2(1074);
        proof {
            lemma_pow2_pos(1074);
            lemma_pow2_pos(x as nat);
            lemma2_to64();
            lemma2_to64_rest();
        }
        if x >= 1074 {
            proof {
                let q = (x - 1074) as nat;
                let a = s as nat * pow2(q);
                lemma_pow2_adds(q, 1074);
                assert(s as nat * (pow2(q) * unit) == unit * a) by (nonlinear_arith)
                    requires
                        a == s as nat * pow2(q),
                ;
                assert(2 * (unit * a) + unit == unit * (2 * a + 1)) by (nonlinear_arith);
                assert(2 * unit == unit * 2) by (nonlinear_arith);
                lemma_common_factor(2 * a + 1, 2, unit);
                assert((2 * a + 1) / 2 == a);
                assert(nearest_whole(self.units()) == a);
                double::law_representable_values_round_to_themselves(mag);
                assert(a * unit == unit * a) by (nonlinear_arith);
            }
            self
        } else {
            let k: u32 = 1074 - x;
            proof {
                let p = pow2(x as nat);
                let w = pow2(k as nat);
                lemma_pow2_adds(x as nat, k as nat);
                lemma_pow2_pos(k as nat);
                assert(2 * (s as nat * p) + p * w == p * (2 * s as nat + w)) by (nonlinear_arith);
                assert(2 * (p * w) == p * (2 * w)) by (nonlinear_arith);
                lemma_common_factor(2 * s as nat + w, 2 * w, p);
                assert(nearest_whole(self.units()) == (2 * s as nat + w) / (2 * w));
            }
            let n: u64 = if k > 54 {
                proof {
                    let w = pow2(k as nat);
                    if k > 55 {
                        lemma_pow2_strictly_increases(55, k as nat);
                    }
                    assert((2 * s as nat + w) / (2 * w) == 0) by (nonlinear_arith)
                        requires
                            2 * s as nat + w < 2 * w,
                    ;
                }
                0
            } else {
                let w: u128 = double::shift_up(1, k);
                proof {
                    assert(1 * pow2(k as nat) == pow2(k as nat));
                    if k < 54 {
                        lemma_pow2_strictly_increases(k as nat, 54);
                    }
                    assert((2 * s + w) / (2 * w as int) <= s + 1) by (nonlinear_arith)
                        requires
                            w >= 1,
                            s >= 0,
                    ;
                }
                ((2 * s as u128 + w) / (2 * w)) as u64
            };
            let whole: Double = Double::from_u64(n);
            proof {
                double::lemma_u64_is_finite(n);
            }
            Double::with_sign(neg, whole.bits)
        }
    }
}

// ---------------------------------------------------------------------------
// Decimal places
// ---------------------------------------------------------------------------

/// The decimal places of `n`, most significant first.
pub open spec fn places(n: nat) -> Seq<u8>
    decreases n,
{
    if n < 10 {
        seq![n as u8]
    } else {
        places(n / 10).push((n % 10) as u8)
    }
}

proof fn lemma_places(n: nat)
    ensures
        places(n).len() > 0,
        n < 10 <==> places(n).len() == 1,
        places(n).last() == n % 10,
        n >= 10 ==> places(n).drop_last() == places(n / 10),
    decreases n,
{
    if n >= 10 {
        lemma_places(n / 10);
        assert(places(n).drop_last() =~= places(n / 10));
    }
}

/// The digits of a number are its places, written out.
proof fn lemma_places_digits(n: nat)
    ensures
        numerals::digits(n, 10) == places(n).map_values(|d: u8| numerals::digit(d as nat)),
    decreases n,
{
    let f = |d: u8| numerals::digit(d as nat);
    if n < 10 {
        assert(seq![n as u8].map_values(f) =~= seq![numerals::digit(n)]);
    } else {
        lemma_places_digits(n / 10);
        assert(places(n / 10).push((n % 10) as u8).map_values(f) =~= places(n / 10).map_values(
            f,
        ).push(numerals::digit(n % 10)));
    }
}

/// The places of `2 n + carry`, where the first `len` places are those of `n`.
fn doubled(v: &Vec<u8>, len: usize, carry: u8, Ghost(n): Ghost<nat>) -> (r: Vec<u8>)
    requires
        len <= v@.len(),
        v@.take(len as int) == places(n),
        carry <= 1,
    ensures
        r@ == places(2 * n + carry as nat),
    decreases len,
{
    proof {
        lemma_places(n);
        assert(v@.take(len as int).last() == v@[len - 1]);
    }
    let d: u8 = v[len - 1];
    let t: u8 = 2 * d + carry;
    let next: u8 = if t >= 10 {
        1
    } else {
        0
    };
    let low: u8 = if t >= 10 {
        t - 10
    } else {
        t
    };
    let ghost m = 2 * n + carry as nat;
    if len == 1 {
        if t >= 10 {
            assert(places(1) =~= seq![1u8]);
            let r: Vec<u8> = vec![1, low];
            assert(m / 10 == 1 && m % 10 == low);
            assert(r@ =~= places(m));
            r
        } else {
            let r: Vec<u8> = vec![low];
            assert(r@ =~= places(m));
            r
        }
    } else {
        let ghost h = n / 10;
        proof {
            assert(v@.take(len as int).drop_last() =~= v@.take(len - 1));
            assert(n == 10 * h + d);
            assert(m == 10 * (2 * h + next as nat) + low);
            assert(m / 10 == 2 * h + next as nat && m % 10 == low);
        }
        let mut r: Vec<u8> = doubled(v, len - 1, next, Ghost(h));
        r.push(low);
        r
    }
}

/// `s * 2^q` in decimal.
fn scaled_digits(s: u64, q: u32) -> (r: Vec<char>)
    ensures
        r@ == numerals::digits(s as nat * pow2(q as nat), 10),
{
    let ghost f = |d: u8| numerals::digit(d as nat);
    let mut v: Vec<u8> = places_of(s);
    let mut i: u32 = 0;
    proof {
        lemma2_to64();
        assert(s as nat * pow2(0) == s) by (nonlinear_arith)
            requires
                pow2(0) == 1,
        ;
    }
    while i < q
        invariant
            i <= q,
            v@ == places(s as nat * pow2(i as nat)),
        decreases q - i,
    {
        let ghost n = s as nat * pow2(i as nat);
        let n_places: usize = v.len();
        proof {
            assert(v@.take(v@.len() as int) =~= v@);
            lemma_pow2_unfold((i + 1) as nat);
            assert(s as nat * pow2((i + 1) as nat) == 2 * n) by (nonlinear_arith)
                requires
                    n == s as nat * pow2(i as nat),
                    pow2((i + 1) as nat) == 2 * pow2(i as nat),
            ;
        }
        v = doubled(&v, n_places, 0, Ghost(n));
        i = i + 1;
    }
    let mut out: Vec<char> = Vec::new();
    let mut j: usize = 0;
    proof {
        lemma_places_small(s as nat * pow2(q as nat));
    }
    while j < v.len()
        invariant
            j <= v@.len(),
            forall|k: int| 0 <= k < v@.len() ==> (#[trigger] v@[k]) < 10,
            f == |d: u8| numerals::digit(d as nat),
            out@ == v@.map_values(f).take(j as int),
        decreases v@.len() - j,
    {
        let c: char = numerals::digit_char(v[j] as u64);
        out.push(c);
        proof {
            let all = v@.map_values(f);
            assert(all[j as int] == c);
            assert(all.take(j + 1) =~= all.take(j as int).push(c));
        }
        j = j + 1;
    }
    proof {
        let all = v@.map_values(f);
        assert(all.take(all.len() as int) =~= all);
        lemma_places_digits(s as nat * pow2(q as nat));
    }
    out
}

proof fn lemma_places_small(n: nat)
    ensures
        forall|k: int| 0 <= k < places(n).len() ==> (#[trigger] places(n)[k]) < 10,
    decreases n,
{
    if n >= 10 {
        lemma_places_small(n / 10);
        assert forall|k: int| 0 <= k < places(n).len() implies (#[trigger] places(n)[k]) < 10 by {
            if k < places(n / 10).len() {
                assert(places(n)[k] == places(n / 10)[k]);
            }
        }
    } else {
        assert(places(n)[0] == n as u8);
    }
}

fn places_of(n: u64) -> (r: Vec<u8>)
    ensures
        r@ == places(n as nat),
    decreases n,
{
    if n < 10 {
        vec![n as u8]
    } else {
        let mut v: Vec<u8> = places_of(n / 10);
        v.push((n % 10) as u8);
        v
    }
}

// ---------------------------------------------------------------------------
// Fixed decimals
// ---------------------------------------------------------------------------

/// `10^k` for the few decimals that are written.
pub open spec fn ten_to(k: nat) -> nat {
    if k == 0 {
        1
    } else if k == 1 {
        10
    } else {
        100
    }
}

/// `r` hundredths (or tenths, or wholes) with `k` decimals.
pub open spec fn point_text(r: nat, k: nat) -> Seq<char> {
    if k == 0 {
        numerals::digits(r, 10)
    } else {
        numerals::digits(r / ten_to(k), 10) + "."@ + numerals::zero_padded(
            numerals::digits(r % ten_to(k), 10),
            k,
        )
    }
}

/// A finite magnitude with `k` decimals, rounded to nearest, ties to even.
pub open spec fn fixed_magnitude(units: nat, k: nat) -> Seq<char> {
    point_text(double::half_even(units * ten_to(k), pow2(1074)), k)
}

/// How a sign is written: a minus before what is negative, and a plus before
/// the rest where asked for.
pub open spec fn sign_text(neg: bool, plus: bool) -> Seq<char> {
    if neg {
        "-"@
    } else if plus {
        "+"@
    } else {
        ""@
    }
}

/// A double below the integers, times a power of ten, rounded to the nearest
/// whole number.
#[verifier::spinoff_prover]
fn rounded_part(s: u64, x: u32, ten: u64) -> (r: u64)
    requires
        s <= 0x20_0000_0000_0000,
        x < 1074,
        1 <= ten <= 100,
    ensures
        r == double::half_even(s as nat * pow2(x as nat) * ten as nat, pow2(1074)),
{
    let f: u32 = 1074 - x;
    assert(s as u128 * ten as u128 <= 0x20_0000_0000_0000u128 * 100) by (nonlinear_arith)
        requires
            s <= 0x20_0000_0000_0000,
            ten <= 100,
    ;
    let n: u128 = s as u128 * ten as u128;
    let ghost unit = pow2(1074);
    let ghost w = pow2(f as nat);
    proof {
        lemma2_to64();
        lemma2_to64_rest();
        lemma_pow2_pos(1074);
        lemma_pow2_adds(x as nat, f as nat);
        lemma_pow2_pos(f as nat);
        assert((s as nat * pow2(x as nat) * ten as nat) * w == (n as nat) * unit)
            by (nonlinear_arith)
            requires
                n == s * ten,
                unit == pow2(x as nat) * w,
        ;
        double::lemma_half_even_cross(
            s as nat * pow2(x as nat) * ten as nat,
            unit,
            n as nat,
            w,
        );
    }
    if f > 62 {
        proof {
            if f > 63 {
                lemma_pow2_strictly_increases(63, f as nat);
            }
            assert((n as nat) / w == 0) by (nonlinear_arith)
                requires
                    (n as nat) < w,
            ;
            assert((2 * 0 + 1) * w == w) by (nonlinear_arith);
        }
        0
    } else {
        let d: u128 = double::shift_up(1, f);
        proof {
            assert(1 * w == w) by (nonlinear_arith);
        }
        let q: u128 = n / d;
        proof {
            assert(q <= n && (2 * q + 1) * d <= 2 * n + d) by (nonlinear_arith)
                requires
                    q == n / d,
                    d >= 1,
                    n >= 0,
            ;
            if f < 64 {
                lemma_pow2_strictly_increases(f as nat, 64);
            }
            assert((2 * q + 1) * d < 0x1_0000_0000_0000_0000_0000);
            assert((n as nat) / w == q);
        }
        let middle: u128 = (2 * q + 1) * d;
        let up: bool = 2 * n > middle || (2 * n == middle && q % 2 == 1);
        if up {
            (q + 1) as u64
        } else {
            q as u64
        }
    }
}

impl Double {
    /// The double with `k` decimals, at most two.
    pub open spec fn fixed_spec(self, k: nat, plus: bool) -> Seq<char> {
        if self.nan() {
            "NaN"@
        } else if self.infinite() {
            sign_text(self.neg(), plus) + "inf"@
        } else {
            sign_text(self.neg(), plus) + fixed_magnitude(self.units(), k)
        }
    }

    /// The double with `k` decimals, a plus sign before what is not negative
    /// where asked for.
    pub fn fixed(self, k: u32, plus: bool) -> (r: String)
        requires
            k <= 2,
        ensures
            r@ == self.fixed_spec(k as nat, plus),
    {
        if self.is_nan() {
            return "NaN".to_string();
        }
        let neg: bool = self.bits >= double::SIGN;
        let sign: &str = if neg {
            "-"
        } else if plus {
            "+"
        } else {
            ""
        };
        if !self.is_finite() {
            return text::cat2(sign, "inf");
        }
        let (s, x) = double::decode(self.bits % double::SIGN);
        let ten: u64 = if k == 0 {
            1
        } else if k == 1 {
            10
        } else {
            100
        };
        let ghost unit = pow2(1074);
        proof {
            lemma_pow2_pos(1074);
            lemma_pow2_pos(x as nat);
            lemma2_to64();
            lemma2_to64_rest();
        }
        if x >= 1074 {
            let q: u32 = x - 1074;
            let ghost a = s as nat * pow2(q as nat);
            let ghost r = a * ten as nat;
            proof {
                lemma_pow2_adds(q as nat, 1074);
                assert((s as nat * (pow2(q as nat) * unit)) * ten as nat == unit * r)
                    by (nonlinear_arith)
                    requires
                        a == s as nat * pow2(q as nat),
                        r == a * ten as nat,
                ;
                lemma_exact(r, unit);
                assert(r / ten as nat == a && r % ten as nat == 0) by (nonlinear_arith)
                    requires
                        r == a * ten as nat,
                        ten > 0,
                ;
            }
            let whole: String = text::string_of(scaled_digits(s, q));
            if k == 0 {
                assert(r == a);
                text::cat2(sign, whole.as_str())
            } else {
                let rest: String = text::string_of(
                    numerals::pad(numerals::digit_chars(0, 10), k as usize),
                );
                let out: String = text::cat4(sign, whole.as_str(), ".", rest.as_str());
                proof {
                    assert(out@ =~= sign@ + (whole@ + "."@ + rest@));
                }
                out
            }
        } else {
            let r: u64 = rounded_part(s, x, ten);
            assert(r == double::half_even(self.units() * ten_to(k as nat), unit));
            let whole: String = numerals::decimal(r / ten);
            if k == 0 {
                text::cat2(sign, whole.as_str())
            } else {
                let rest: String = text::string_of(
                    numerals::pad(numerals::digit_chars(r % ten, 10), k as usize),
                );
                let out: String = text::cat4(sign, whole.as_str(), ".", rest.as_str());
                proof {
                    assert(out@ =~= sign@ + (whole@ + "."@ + rest@));
                }
                out
            }
        }
    }
}

/// A whole multiple needs no rounding.
proof fn lemma_exact(r: nat, unit: nat)
    requires
        unit > 0,
    ensures
        double::half_even(unit * r, unit) == r,
{
    let n = unit * r;
    assert(n / unit == r) by (nonlinear_arith)
        requires
            n == unit * r,
            unit > 0,
    ;
    assert(2 * n < (2 * r + 1) * unit) by (nonlinear_arith)
        requires
            n == unit * r,
            unit > 0,
    ;
}

} // verus!
