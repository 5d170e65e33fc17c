//! An exact decimal money type with a lossless fixed-point integer encoding.
//!
//! A [`Money`] value is the rational number `mantissa / 10^scale`, held in
//! normal form: the fraction carries no trailing zero digits, so every
//! representable value has exactly one representation and the derived
//! equality compares exact decimal values.
//!
//! The persisted form is a 64-bit integer holding the value scaled by
//! `10^8`. Values with more than eight fractional digits are rounded
//! half-to-even by [`Money::encode`]; values whose scaled magnitude does
//! not fit in 64 bits are rejected with `RangeOverflow`, never truncated.

use vstd::arithmetic::power::pow;
use vstd::prelude::*;

use crate::error::Error;

verus! {

/// Greatest number of fractional decimal digits a `Money` value can carry.
pub const MAX_SCALE: u32 = 28;

/// Number of fractional decimal digits of the persisted fixed-point encoding.
pub const ENCODE_SCALE: u32 = 8;

/// `10^e`.
pub open spec fn pow10(e: nat) -> int {
    pow(10, e)
}

/// An exact decimal amount `mantissa / 10^scale`, in normal form:
/// `scale <= 28`, and the mantissa of a fractional value never ends in a
/// zero digit. Values are built by [`Money::new`], [`Money::from_str`] and
/// [`Money::decode`], which all normalize.
#[derive(Clone, Copy, Debug, PartialEq, Eq, Structural)]
pub struct Money {
    pub mantissa: i128,
    pub scale: u32,
}

impl Money {
    /// The exact value, measured in units of `10^-28` (the finest
    /// representable fraction).
    pub open spec fn val(self) -> int {
        if self.scale <= MAX_SCALE {
            self.mantissa * pow10((MAX_SCALE - self.scale) as nat)
        } else {
            0
        }
    }

    /// Normal form: the invariant of every constructed value.
    pub open spec fn wf(self) -> bool {
        &&& self.scale <= MAX_SCALE
        &&& self.scale > 0 ==> self.mantissa % 10 != 0
    }

    /// Strips trailing zero digits from the fraction.
    fn normalize(mantissa: i128, scale: u32) -> (r: Money)
        requires
            scale <= MAX_SCALE,
        ensures
            r.wf(),
            r.val() == mantissa * pow10((MAX_SCALE - scale) as nat),
    {
        let mut m: i128 = mantissa;
        let mut s: u32 = scale;
        loop
            invariant
                s <= scale <= MAX_SCALE,
                m * pow10((MAX_SCALE - s) as nat) == mantissa * pow10(
                    (MAX_SCALE - scale) as nat,
                ),
            ensures
                s <= MAX_SCALE,
                s > 0 ==> m % 10 != 0,
                m * pow10((MAX_SCALE - s) as nat) == mantissa * pow10(
                    (MAX_SCALE - scale) as nat,
                ),
            decreases s,
        {
            if s == 0 {
                break ;
            }
            let rem = m.checked_rem_euclid(10).unwrap();
            if rem != 0 {
                break ;
            }
            let q = m.checked_div_euclid(10).unwrap();
            proof {
                lemma_strip_zero(m as int, (MAX_SCALE - s) as nat);
            }
            m = q;
            s = s - 1;
        }
        Money { mantissa: m, scale: s }
    }

    /// Builds the value `mantissa / 10^scale`.
    pub fn new(mantissa: i128, scale: u32) -> (r: Money)
        requires
            scale <= MAX_SCALE,
        ensures
            r.wf(),
            r.val() == mantissa * pow10((MAX_SCALE - scale) as nat),
    {
        Money::normalize(mantissa, scale)
    }

    /// The normalized mantissa.
    pub fn mantissa(&self) -> (r: i128)
        ensures
            r == self.mantissa,
    {
        self.mantissa
    }

    /// The normalized scale: the number of fractional decimal digits.
    pub fn scale(&self) -> (r: u32)
        ensures
            r == self.scale,
    {
        self.scale
    }

    /// The exact amount as its normalized mantissa and scale.
    pub fn amount(&self) -> (r: (i128, u32))
        ensures
            r.0 == self.mantissa,
            r.1 == self.scale,
    {
        (self.mantissa, self.scale)
    }

    /// Whether the value is exactly zero.
    pub fn is_zero(&self) -> (r: bool)
        requires
            self.wf(),
        ensures
            r == (self.val() == 0),
    {
        proof {
            lemma_val_sign(*self);
        }
        self.mantissa == 0
    }

    /// Whether the value is strictly positive.
    pub fn is_positive(&self) -> (r: bool)
        requires
            self.wf(),
        ensures
            r == (self.val() > 0),
    {
        proof {
            lemma_val_sign(*self);
        }
        self.mantissa > 0
    }

    /// Whether the value is strictly negative.
    pub fn is_negative(&self) -> (r: bool)
        requires
            self.wf(),
        ensures
            r == (self.val() < 0),
    {
        proof {
            lemma_val_sign(*self);
        }
        self.mantissa < 0
    }
}

impl Money {
    /// The integer the persisted form holds: the value scaled by `10^8`
    /// (here, divided by `10^20` out of the `10^-28` units of [`Money::val`]),
    /// rounded half-to-even — exact whenever the value has at most eight
    /// fractional digits.
    pub open spec fn encoded_of(self) -> int {
        div_round_half_even(self.val(), pow10((MAX_SCALE - ENCODE_SCALE) as nat))
    }

    /// The persisted form: the value scaled by `10^8` as a 64-bit integer,
    /// rounded half-to-even when the value has more than eight fractional
    /// digits. Fails with `RangeOverflow` exactly when the rounded scaled
    /// value falls outside the 64-bit range; nothing is ever truncated or
    /// wrapped.
    pub fn encode(&self) -> (r: Result<i64, Error>)
        requires
            self.wf(),
        ensures
            r is Ok <==> i64::MIN <= self.encoded_of() <= i64::MAX,
            r is Ok ==> r->Ok_0 == self.encoded_of(),
            r is Err ==> r->Err_0 == Error::RangeOverflow,
    {
        proof {
            lemma_pow10_vals();
        }
        let m = self.mantissa;
        let s = self.scale;
        if s <= ENCODE_SCALE {
            let f = pow10_i128(ENCODE_SCALE - s);
            proof {
                lemma_pow10_pos((ENCODE_SCALE - s) as nat);
                vstd::arithmetic::power::lemma_pow_adds(
                    10,
                    (ENCODE_SCALE - s) as nat,
                    (MAX_SCALE - ENCODE_SCALE) as nat,
                );
                assert(m * (f * pow10((MAX_SCALE - ENCODE_SCALE) as nat)) == (m * f) * pow10(
                    (MAX_SCALE - ENCODE_SCALE) as nat,
                )) by (nonlinear_arith);
                lemma_rhe_exact(m * f, pow10((MAX_SCALE - ENCODE_SCALE) as nat));
            }
            match m.checked_mul(f) {
                Some(scaled) => {
                    if i64::MIN as i128 <= scaled && scaled <= i64::MAX as i128 {
                        Ok(scaled as i64)
                    } else {
                        Err(Error::RangeOverflow)
                    }
                },
                None => Err(Error::RangeOverflow),
            }
        } else {
            let d = pow10_i128(s - ENCODE_SCALE);
            proof {
                lemma_pow10_pos((s - ENCODE_SCALE) as nat);
                lemma_pow10_increases((s - ENCODE_SCALE) as nat, 20);
                lemma_pow10_pos((MAX_SCALE - s) as nat);
                vstd::arithmetic::power::lemma_pow_adds(
                    10,
                    (s - ENCODE_SCALE) as nat,
                    (MAX_SCALE - s) as nat,
                );
                lemma_rhe_cancel_factor(
                    m as int,
                    d as int,
                    pow10((MAX_SCALE - s) as nat),
                );
            }
            let raw = div_rhe(m, d);
            if i64::MIN as i128 <= raw && raw <= i64::MAX as i128 {
                Ok(raw as i64)
            } else {
                Err(Error::RangeOverflow)
            }
        }
    }

    /// Reads a value back from its persisted scaled-integer form. Total:
    /// every 64-bit integer decodes, to the value `raw / 10^8`.
    pub fn decode(raw: i64) -> (r: Money)
        ensures
            r.wf(),
            r.val() == raw * pow10((MAX_SCALE - ENCODE_SCALE) as nat),
    {
        Money::normalize(raw as i128, ENCODE_SCALE)
    }
}

/// Division of `x` by positive `d`, rounding half-to-even: the nearest
/// quotient, ties going to the even one.
pub open spec fn div_round_half_even(x: int, d: int) -> int
    recommends
        d > 0,
{
    let q = x / d;
    let r = x % d;
    if 2 * r < d {
        q
    } else if 2 * r > d {
        q + 1
    } else if q % 2 == 0 {
        q
    } else {
        q + 1
    }
}

/// What [`Money::normalize`] computes, as a specification value: the
/// normal form of `m / 10^s`.
pub open spec fn spec_norm(m: int, s: nat) -> Money
    decreases s,
{
    if s == 0 || m % 10 != 0 {
        Money { mantissa: m as i128, scale: s as u32 }
    } else {
        spec_norm(m / 10, (s - 1) as nat)
    }
}

/// The normal form is well formed and keeps the value.
pub proof fn lemma_spec_norm(m: int, s: nat)
    requires
        i128::MIN <= m <= i128::MAX,
        s <= MAX_SCALE,
    ensures
        spec_norm(m, s).wf(),
        spec_norm(m, s).val() == m * pow10((MAX_SCALE - s) as nat),
    decreases s,
{
    if s == 0 || m % 10 != 0 {
    } else {
        vstd::arithmetic::div_mod::lemma_fundamental_div_mod(m, 10);
        assert(i128::MIN <= m / 10 <= i128::MAX) by (nonlinear_arith)
            requires
                m == 10 * (m / 10) + m % 10,
                m % 10 == 0,
                i128::MIN <= m <= i128::MAX,
        ;
        lemma_spec_norm(m / 10, (s - 1) as nat);
        lemma_strip_zero(m, (MAX_SCALE - s) as nat);
    }
}

/// Division rounding half-to-even, as executable code: mirrors
/// [`div_round_half_even`] exactly.
pub fn div_rhe(x: i128, d: i128) -> (r: i128)
    requires
        1 <= d,
        2 * d <= i128::MAX,
    ensures
        r == div_round_half_even(x as int, d as int),
{
    proof {
        vstd::arithmetic::div_mod::lemma_fundamental_div_mod(x as int, d as int);
        vstd::arithmetic::div_mod::lemma_mod_bound(x as int, d as int);
        let dd = d as int;
        assert(i128::MIN <= (x as int) / dd <= i128::MAX) by (nonlinear_arith)
            requires
                (x as int) == dd * ((x as int) / dd) + (x as int) % dd,
                0 <= (x as int) % dd < dd,
                1 <= dd,
                i128::MIN <= x <= i128::MAX,
        ;
    }
    let q0 = x.checked_div_euclid(d).unwrap();
    let r0 = x.checked_rem_euclid(d).unwrap();
    proof {
        // one above the quotient still fits: the quotient shrinks the
        // magnitude, or the remainder is zero and no rounding up happens
        if x > 0 && d > 1 {
            vstd::arithmetic::div_mod::lemma_div_decreases(x as int, d as int);
        } else if x <= 0 {
            assert((x as int) / (d as int) <= 0) by (nonlinear_arith)
                requires
                    x <= 0,
                    d >= 1,
                    (x as int) == (d as int) * ((x as int) / (d as int)) + (x as int) % (
                    d as int),
                    0 <= (x as int) % (d as int) < (d as int),
            ;
        }
    }
    let twice = 2 * r0;
    if twice < d {
        q0
    } else if twice > d {
        q0 + 1
    } else if q0.checked_rem_euclid(2).unwrap() == 0 {
        q0
    } else {
        q0 + 1
    }
}

/// Rounding an exact multiple changes nothing.
pub proof fn lemma_rhe_exact(q: int, d: int)
    requires
        d > 0,
    ensures
        div_round_half_even(q * d, d) == q,
{
    vstd::arithmetic::div_mod::lemma_mod_multiples_basic(q, d);
    vstd::arithmetic::div_mod::lemma_fundamental_div_mod_converse_div(q * d, d, q, 0);
}

/// Rounding half-to-even is unchanged by a common positive factor on the
/// dividend and the divisor.
pub proof fn lemma_rhe_cancel_factor(m: int, d: int, a: int)
    requires
        d > 0,
        a > 0,
    ensures
        div_round_half_even(m * a, d * a) == div_round_half_even(m, d),
{
    lemma_div_cancel_factor(m, a, d);
    vstd::arithmetic::div_mod::lemma_mod_bound(m, d);
    let r = m % d;
    if 2 * r < d {
        vstd::arithmetic::mul::lemma_mul_strict_inequality(2 * r, d, a);
    } else if d < 2 * r {
        vstd::arithmetic::mul::lemma_mul_strict_inequality(d, 2 * r, a);
    }
    assert((2 * r) * a == 2 * (r * a)) by (nonlinear_arith);
}

/// Cancelling a common positive factor preserves Euclidean quotient, and
/// scales the remainder by that factor.
proof fn lemma_div_cancel_factor(m: int, a: int, d: int)
    requires
        a > 0,
        d > 0,
    ensures
        (m * a) / (d * a) == m / d,
        (m * a) % (d * a) == (m % d) * a,
{
    vstd::arithmetic::div_mod::lemma_fundamental_div_mod(m, d);
    vstd::arithmetic::div_mod::lemma_mod_bound(m, d);
    let q = m / d;
    let r = m % d;
    assert(m * a == q * (d * a) + r * a) by (nonlinear_arith)
        requires m == d * q + r;
    vstd::arithmetic::mul::lemma_mul_strict_inequality(r, d, a);
    vstd::arithmetic::mul::lemma_mul_strictly_positive(d, a);
    if r > 0 {
        vstd::arithmetic::mul::lemma_mul_strictly_positive(r, a);
    }
    assert(r * a >= 0) by (nonlinear_arith)
        requires r >= 0 && a > 0;
    vstd::arithmetic::div_mod::lemma_fundamental_div_mod_converse_div(m * a, d * a, q, r * a);
    vstd::arithmetic::div_mod::lemma_fundamental_div_mod_converse_mod(m * a, d * a, q, r * a);
}

/// Concrete powers of ten that the codec reasons with.
pub proof fn lemma_pow10_vals()
    ensures
        pow10(0) == 1,
        pow10(1) == 10,
        pow10(8) == 0x5f5e100,
        pow10(10) == 10000000000,
        pow10(20) == 100000000000000000000,
        pow10(28) == 10000000000000000000000000000,
        pow10(38) == 100000000000000000000000000000000000000,
{
    reveal_with_fuel(pow, 11);
    assert(pow10(10) == 10000000000);
    vstd::arithmetic::power::lemma_pow_adds(10, 10, 10);
    assert(pow10(20) == 100000000000000000000);
    vstd::arithmetic::power::lemma_pow_adds(10, 20, 8);
    assert(pow10(28) == 10000000000000000000000000000);
    vstd::arithmetic::power::lemma_pow_adds(10, 28, 10);
    assert(pow10(38) == 100000000000000000000000000000000000000);
}

/// `10^e` grows with `e`.
pub proof fn lemma_pow10_increases(e1: nat, e2: nat)
    requires
        e1 <= e2,
    ensures
        pow10(e1) <= pow10(e2),
{
    vstd::arithmetic::power::lemma_pow_increases(10, e1, e2);
}

/// `10^e` as a 128-bit integer; `e` is at most 38 so the result fits.
pub fn pow10_i128(e: u32) -> (r: i128)
    requires
        e <= 38,
    ensures
        r == pow10(e as nat),
{
    proof {
        lemma_pow10_vals();
    }
    let mut r: i128 = 1;
    let mut i: u32 = 0;
    while i < e
        invariant
            i <= e <= 38,
            r == pow10(i as nat),
        decreases e - i,
    {
        proof {
            vstd::arithmetic::power::lemma_pow_adds(10, i as nat, 1);
            vstd::arithmetic::power::lemma_pow1(10);
            lemma_pow10_increases((i + 1) as nat, 38);
            lemma_pow10_vals();
            lemma_pow10_pos(i as nat);
        }
        r = r * 10;
        i = i + 1;
    }
    r
}

/// The machine limit on exact addition: both mantissas, brought to the
/// larger of the two scales, and their sum, must fit in 128 bits.
pub open spec fn add_in_range(a: Money, b: Money) -> bool {
    let smax = if a.scale >= b.scale {
        a.scale
    } else {
        b.scale
    };
    let ma = a.mantissa * pow10((smax - a.scale) as nat);
    let mb = b.mantissa * pow10((smax - b.scale) as nat);
    &&& i128::MIN <= ma <= i128::MAX
    &&& i128::MIN <= mb <= i128::MAX
    &&& i128::MIN <= ma + mb <= i128::MAX
}

/// The machine limit on exact subtraction, mirroring [`add_in_range`].
pub open spec fn sub_in_range(a: Money, b: Money) -> bool {
    let smax = if a.scale >= b.scale {
        a.scale
    } else {
        b.scale
    };
    let ma = a.mantissa * pow10((smax - a.scale) as nat);
    let mb = b.mantissa * pow10((smax - b.scale) as nat);
    &&& i128::MIN <= ma <= i128::MAX
    &&& i128::MIN <= mb <= i128::MAX
    &&& i128::MIN <= ma - mb <= i128::MAX
}

impl Money {
    /// Rescales both mantissas to the larger scale; the arithmetic then
    /// happens digit-exactly on integers.
    fn aligned_mantissas(self, other: Money) -> (r: (i128, i128, u32))
        requires
            self.wf(),
            other.wf(),
            i128::MIN <= self.mantissa * pow10(
                (max_scale_of(self, other) - self.scale) as nat,
            ) <= i128::MAX,
            i128::MIN <= other.mantissa * pow10(
                (max_scale_of(self, other) - other.scale) as nat,
            ) <= i128::MAX,
        ensures
            r.2 == max_scale_of(self, other),
            r.0 == self.mantissa * pow10((r.2 - self.scale) as nat),
            r.1 == other.mantissa * pow10((r.2 - other.scale) as nat),
            r.0 * pow10((MAX_SCALE - r.2) as nat) == self.val(),
            r.1 * pow10((MAX_SCALE - r.2) as nat) == other.val(),
    {
        let smax = if self.scale >= other.scale {
            self.scale
        } else {
            other.scale
        };
        let fa = pow10_i128(smax - self.scale);
        let fb = pow10_i128(smax - other.scale);
        let ma = self.mantissa.checked_mul(fa).unwrap();
        let mb = other.mantissa.checked_mul(fb).unwrap();
        proof {
            lemma_rescale_keeps_val(self.mantissa as int, self.scale, smax);
            lemma_rescale_keeps_val(other.mantissa as int, other.scale, smax);
        }
        (ma, mb, smax)
    }

    /// Exact decimal addition, no rounding: the result's value is the sum
    /// of the two values.
    pub fn add(self, other: Money) -> (r: Money)
        requires
            self.wf(),
            other.wf(),
            add_in_range(self, other),
        ensures
            r.wf(),
            r.val() == self.val() + other.val(),
    {
        let (ma, mb, smax) = self.aligned_mantissas(other);
        let msum = ma.checked_add(mb).unwrap();
        proof {
            vstd::arithmetic::mul::lemma_mul_is_distributive_add_other_way(
                pow10((MAX_SCALE - smax) as nat),
                ma as int,
                mb as int,
            );
        }
        Money::normalize(msum, smax)
    }

    /// Exact decimal subtraction, no rounding: the result's value is the
    /// difference of the two values.
    pub fn subtract(self, other: Money) -> (r: Money)
        requires
            self.wf(),
            other.wf(),
            sub_in_range(self, other),
        ensures
            r.wf(),
            r.val() == self.val() - other.val(),
    {
        let (ma, mb, smax) = self.aligned_mantissas(other);
        let mdiff = ma.checked_sub(mb).unwrap();
        proof {
            vstd::arithmetic::mul::lemma_mul_is_distributive_sub_other_way(
                pow10((MAX_SCALE - smax) as nat),
                ma as int,
                mb as int,
            );
        }
        Money::normalize(mdiff, smax)
    }

    /// Strict comparison of exact decimal values; total, whatever the two
    /// scales are.
    pub fn lt(&self, other: &Money) -> (r: bool)
        requires
            self.wf(),
            other.wf(),
        ensures
            r == (self.val() < other.val()),
    {
        let (ipa, fa) = self.place_parts();
        let (ipb, fb) = other.place_parts();
        proof {
            lemma_pow10_vals();
            lemma_place_value_order(
                ipa as int,
                fa as int,
                ipb as int,
                fb as int,
                self.val(),
                other.val(),
            );
        }
        if ipa != ipb {
            ipa < ipb
        } else {
            fa < fb
        }
    }

    /// Non-strict comparison of exact decimal values.
    pub fn le(&self, other: &Money) -> (r: bool)
        requires
            self.wf(),
            other.wf(),
        ensures
            r == (self.val() <= other.val()),
    {
        !other.lt(self)
    }

    /// Splits the value into its whole part (rounded toward minus
    /// infinity) and the fraction, measured in units of `10^-28`.
    fn place_parts(&self) -> (r: (i128, i128))
        requires
            self.wf(),
        ensures
            self.val() == r.0 * pow10(MAX_SCALE as nat) + r.1,
            0 <= r.1 < pow10(MAX_SCALE as nat),
    {
        let p = pow10_i128(self.scale);
        let m = self.mantissa;
        proof {
            lemma_pow10_pos(self.scale as nat);
            vstd::arithmetic::div_mod::lemma_fundamental_div_mod(m as int, p as int);
            vstd::arithmetic::div_mod::lemma_mod_bound(m as int, p as int);
            let dd = p as int;
            assert(i128::MIN <= (m as int) / dd <= i128::MAX) by (nonlinear_arith)
                requires
                    (m as int) == dd * ((m as int) / dd) + (m as int) % dd,
                    0 <= (m as int) % dd < dd,
                    1 <= dd,
                    i128::MIN <= m <= i128::MAX,
            ;
        }
        let ip = m.checked_div_euclid(p).unwrap();
        let fr = m.checked_rem_euclid(p).unwrap();
        let scale_up = pow10_i128(MAX_SCALE - self.scale);
        proof {
            lemma_pow10_pos((MAX_SCALE - self.scale) as nat);
            vstd::arithmetic::power::lemma_pow_adds(
                10,
                self.scale as nat,
                (MAX_SCALE - self.scale) as nat,
            );
            lemma_pow10_vals();
            // the fraction stays below one whole unit after rescaling
            if fr > 0 {
                vstd::arithmetic::mul::lemma_mul_strictly_positive(
                    fr as int,
                    scale_up as int,
                );
            }
            vstd::arithmetic::mul::lemma_mul_strict_inequality(
                fr as int,
                p as int,
                scale_up as int,
            );
            assert(fr * scale_up >= 0) by (nonlinear_arith)
                requires fr >= 0 && scale_up >= 1;
            // value == whole * 10^28 + fraction
            let pp = pow10(self.scale as nat);
            let qq = pow10((MAX_SCALE - self.scale) as nat);
            assert((m as int) * qq == (ip as int) * (pp * qq) + (fr as int) * qq)
                by (nonlinear_arith)
                requires (m as int) == pp * (ip as int) + (fr as int);
            assert(pp * qq == pow10(MAX_SCALE as nat));
        }
        let f = fr * scale_up;
        (ip, f)
    }
}

/// A mantissa at a coarser scale, multiplied up to a finer one, denotes
/// the same value.
proof fn lemma_rescale_keeps_val(m: int, s: u32, smax: u32)
    requires
        s <= smax <= MAX_SCALE,
    ensures
        (m * pow10((smax - s) as nat)) * pow10((MAX_SCALE - smax) as nat) == m * pow10(
            (MAX_SCALE - s) as nat,
        ),
{
    vstd::arithmetic::power::lemma_pow_adds(
        10,
        (smax - s) as nat,
        (MAX_SCALE - smax) as nat,
    );
    assert((m * pow10((smax - s) as nat)) * pow10((MAX_SCALE - smax) as nat) == m * (pow10(
        (smax - s) as nat,
    ) * pow10((MAX_SCALE - smax) as nat))) by (nonlinear_arith);
}

/// The larger of two scales.
pub open spec fn max_scale_of(a: Money, b: Money) -> u32 {
    if a.scale >= b.scale {
        a.scale
    } else {
        b.scale
    }
}

/// Place-value comparison: with both fractions in `[0, 10^28)`, values
/// order first by whole part, then by fraction.
proof fn lemma_place_value_order(ipa: int, fa: int, ipb: int, fb: int, va: int, vb: int)
    requires
        va == ipa * pow10(MAX_SCALE as nat) + fa,
        vb == ipb * pow10(MAX_SCALE as nat) + fb,
        0 <= fa < pow10(MAX_SCALE as nat),
        0 <= fb < pow10(MAX_SCALE as nat),
    ensures
        (va < vb) == (ipa < ipb || (ipa == ipb && fa < fb)),
{
    let p = pow10(MAX_SCALE as nat);
    lemma_pow10_pos(MAX_SCALE as nat);
    assert((ipa * p + fa < ipb * p + fb) == (ipa < ipb || (ipa == ipb && fa < fb)))
        by (nonlinear_arith)
        requires
            0 <= fa < p,
            0 <= fb < p,
            p >= 1,
    ;
}

/// Equality law: two well-formed `Money` values with the same exact value
/// are the same value — the derived `==` compares exact decimal values.
pub proof fn lemma_val_injective(a: Money, b: Money)
    requires
        a.wf(),
        b.wf(),
        a.val() == b.val(),
    ensures
        a == b,
{
    if a.scale == b.scale {
        let k = pow10((MAX_SCALE - a.scale) as nat);
        lemma_pow10_pos((MAX_SCALE - a.scale) as nat);
        assert(k * a.mantissa == k * b.mantissa) by (nonlinear_arith)
            requires (a.mantissa as int) * k == (b.mantissa as int) * k;
        vstd::arithmetic::mul::lemma_mul_equality_converse(
            k,
            a.mantissa as int,
            b.mantissa as int,
        );
    } else if a.scale < b.scale {
        lemma_val_injective_helper(a, b);
        // denied by b's normal form: distinct scales cannot denote one value
        assert(b.mantissa % 10 != 0);
    } else {
        lemma_val_injective_helper(b, a);
        assert(a.mantissa % 10 != 0);
    }
}

/// When two values coincide and the second carries the larger scale, the
/// second mantissa absorbs a factor of ten — which its normal form will
/// contradict at the use site.
proof fn lemma_val_injective_helper(a: Money, b: Money)
    requires
        a.scale <= MAX_SCALE,
        b.scale <= MAX_SCALE,
        a.val() == b.val(),
        a.scale < b.scale,
    ensures
        b.mantissa % 10 == 0,
{
    let ka = (MAX_SCALE - a.scale) as nat;
    let kb = (MAX_SCALE - b.scale) as nat;
    let diff = (b.scale - a.scale) as nat;
    vstd::arithmetic::power::lemma_pow_adds(10, diff, kb);
    lemma_pow10_pos(kb);
    lemma_pow10_pos(diff);
    assert((a.mantissa as int) * (pow10(diff) * pow10(kb)) == ((a.mantissa as int) * pow10(diff))
        * pow10(kb)) by (nonlinear_arith);
    assert(pow10(kb) * ((a.mantissa as int) * pow10(diff)) == pow10(kb) * (b.mantissa as int))
        by (nonlinear_arith)
        requires
            ((a.mantissa as int) * pow10(diff)) * pow10(kb) == (b.mantissa as int) * pow10(kb),
    ;
    vstd::arithmetic::mul::lemma_mul_equality_converse(
        pow10(kb),
        (a.mantissa as int) * pow10(diff),
        b.mantissa as int,
    );
    // so b's mantissa is a multiple of ten, denied by its normal form
    vstd::arithmetic::power::lemma_pow_adds(10, (diff - 1) as nat, 1);
    vstd::arithmetic::power::lemma_pow1(10);
    assert(b.mantissa == ((a.mantissa as int) * pow10((diff - 1) as nat)) * 10)
        by (nonlinear_arith)
        requires
            b.mantissa == (a.mantissa as int) * pow10(diff),
            pow10(diff) == pow10((diff - 1) as nat) * 10,
    ;
    vstd::arithmetic::div_mod::lemma_mod_multiples_basic(
        (a.mantissa as int) * pow10((diff - 1) as nat),
        10,
    );
}

/// Round-trip law: a value with at most eight fractional digits that is
/// encoded and decoded comes back unchanged. The first premise says the
/// value is a whole multiple of `10^-8`; the second is what `encode`
/// guarantees about the decoded result of the raw integer it returns.
pub proof fn lemma_encode_decode_round_trip(v: Money, w: Money)
    requires
        v.wf(),
        w.wf(),
        v.val() % pow10((MAX_SCALE - ENCODE_SCALE) as nat) == 0,
        w.val() == v.encoded_of() * pow10((MAX_SCALE - ENCODE_SCALE) as nat),
    ensures
        w == v,
{
    let p = pow10((MAX_SCALE - ENCODE_SCALE) as nat);
    lemma_pow10_vals();
    vstd::arithmetic::div_mod::lemma_fundamental_div_mod(v.val(), p);
    assert(v.val() == (v.val() / p) * p) by (nonlinear_arith)
        requires
            v.val() == p * (v.val() / p) + v.val() % p,
            v.val() % p == 0,
    ;
    lemma_rhe_exact(v.val() / p, p);
    lemma_val_injective(v, w);
}

/// The value and its mantissa always have the same sign.
proof fn lemma_val_sign(a: Money)
    requires
        a.scale <= MAX_SCALE,
    ensures
        a.val() > 0 <==> a.mantissa > 0,
        a.val() < 0 <==> a.mantissa < 0,
        a.val() == 0 <==> a.mantissa == 0,
{
    let k = (MAX_SCALE - a.scale) as nat;
    lemma_pow10_pos(k);
    vstd::arithmetic::mul::lemma_mul_strictly_positive(a.mantissa as int, pow10(k));
    vstd::arithmetic::mul::lemma_mul_strictly_positive(-(a.mantissa as int), pow10(k));
    assert(-(a.mantissa as int) * pow10(k) == -(a.mantissa * pow10(k)))
        by (nonlinear_arith);
}

/// `10^e` is strictly positive.
pub proof fn lemma_pow10_pos(e: nat)
    ensures
        pow10(e) >= 1,
{
    vstd::arithmetic::power::lemma_pow_positive(10, e);
}

/// Dividing a mantissa by ten while raising the scale keeps the value.
proof fn lemma_strip_zero(m: int, k: nat)
    requires
        m % 10 == 0,
    ensures
        (m / 10) * pow10(k + 1) == m * pow10(k),
{
    vstd::arithmetic::div_mod::lemma_fundamental_div_mod(m, 10);
    assert(pow10(k + 1) == 10 * pow10(k)) by {
        vstd::arithmetic::power::lemma_pow_adds(10, 1nat, k);
        vstd::arithmetic::power::lemma_pow1(10);
    }
    assert((m / 10) * (10 * pow10(k)) == (10 * (m / 10)) * pow10(k)) by (nonlinear_arith);
}

} // verus!
