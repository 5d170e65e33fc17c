//! Parsing of decimal money literals.
//!
//! The grammar: an optional sign (`-` or `+`), one or more integer digits,
//! then optionally a dot followed by one to 28 fractional digits. Nothing
//! else parses; a literal whose mantissa does not fit in 128 bits is
//! rejected rather than rounded.

use vstd::prelude::*;
use vstd::string::StrSliceExecFns;
use vstd::string::StringSliceAdditionalSpecFns;

use crate::error::Error;
use crate::money::{pow10, Money, MAX_SCALE};

verus! {

/// ASCII minus sign.
pub const MINUS: u8 = 45;

/// ASCII plus sign.
pub const PLUS: u8 = 43;

/// ASCII decimal point.
pub const DOT: u8 = 46;

/// ASCII zero.
pub const ZERO: u8 = 48;

/// ASCII nine.
pub const NINE: u8 = 57;

/// A decimal digit byte.
pub open spec fn is_digit(b: u8) -> bool {
    ZERO <= b <= NINE
}

/// Every byte of the sequence is a decimal digit.
pub open spec fn all_digits(s: Seq<u8>) -> bool {
    forall|i: int| 0 <= i < s.len() ==> is_digit(#[trigger] s[i])
}

/// The number a digit string denotes, most significant digit first.
pub open spec fn digits_val(s: Seq<u8>) -> int
    decreases s.len(),
{
    if s.len() == 0 {
        0
    } else {
        digits_val(s.drop_last()) * 10 + (s.last() - ZERO)
    }
}

/// Index of the first dot, or the length when there is none.
pub open spec fn dot_pos(s: Seq<u8>) -> int
    decreases s.len(),
{
    if s.len() == 0 {
        0
    } else if s[0] == DOT {
        0
    } else {
        1 + dot_pos(s.subrange(1, s.len() as int))
    }
}

/// How many leading bytes the sign takes: one or none.
pub open spec fn sign_len(s: Seq<u8>) -> int {
    if s.len() > 0 && (s[0] == MINUS || s[0] == PLUS) {
        1
    } else {
        0
    }
}

/// `-1` for a literal with a minus sign, `1` otherwise.
pub open spec fn sign_of(s: Seq<u8>) -> int {
    if s.len() > 0 && s[0] == MINUS {
        -1
    } else {
        1
    }
}

/// The literal with its sign stripped.
pub open spec fn unsigned_part(s: Seq<u8>) -> Seq<u8> {
    s.subrange(sign_len(s), s.len() as int)
}

/// The digits before the first dot of an unsigned literal.
pub open spec fn int_part(t: Seq<u8>) -> Seq<u8> {
    t.subrange(0, dot_pos(t))
}

/// The digits after the first dot of an unsigned literal; empty without one.
pub open spec fn frac_part(t: Seq<u8>) -> Seq<u8> {
    if dot_pos(t) < t.len() {
        t.subrange(dot_pos(t) + 1, t.len() as int)
    } else {
        Seq::empty()
    }
}

/// The magnitude of the literal's mantissa: its digits with the dot removed.
pub open spec fn literal_mantissa(s: Seq<u8>) -> int {
    digits_val(int_part(unsigned_part(s)) + frac_part(unsigned_part(s)))
}

/// The number of fractional digits the literal writes out.
pub open spec fn literal_scale(s: Seq<u8>) -> int {
    frac_part(unsigned_part(s)).len() as int
}

/// Whether the bytes form a money literal the type accepts.
pub open spec fn parse_ok(s: Seq<u8>) -> bool {
    let t = unsigned_part(s);
    &&& int_part(t).len() >= 1
    &&& all_digits(int_part(t))
    &&& dot_pos(t) < t.len() ==> frac_part(t).len() >= 1
    &&& all_digits(frac_part(t))
    &&& frac_part(t).len() <= MAX_SCALE
    &&& literal_mantissa(s) <= i128::MAX
}

/// The exact value a well-formed literal denotes, in units of `10^-28`.
pub open spec fn literal_val(s: Seq<u8>) -> int
    recommends
        parse_ok(s),
{
    sign_of(s) * literal_mantissa(s) * pow10((MAX_SCALE - literal_scale(s)) as nat)
}

/// The first dot really is the first dot.
proof fn lemma_dot_pos_charn(s: Seq<u8>)
    ensures
        0 <= dot_pos(s) <= s.len(),
        forall|i: int| 0 <= i < dot_pos(s) ==> s[i] != DOT,
        dot_pos(s) < s.len() ==> s[dot_pos(s)] == DOT,
    decreases s.len(),
{
    if s.len() == 0 {
    } else if s[0] == DOT {
    } else {
        let tail = s.subrange(1, s.len() as int);
        lemma_dot_pos_charn(tail);
        assert forall|i: int| 0 <= i < dot_pos(s) implies s[i] != DOT by {
            if i >= 1 {
                assert(s[i] == tail[i - 1]);
            }
        }
        if dot_pos(s) < s.len() {
            assert(s[dot_pos(s)] == tail[dot_pos(tail)]);
        }
    }
}

/// A scan that saw no dot before `p`, and a dot (or the end) at `p`,
/// found the first dot.
proof fn lemma_dot_pos_from_scan(s: Seq<u8>, p: int)
    requires
        0 <= p <= s.len(),
        forall|i: int| 0 <= i < p ==> s[i] != DOT,
        p < s.len() ==> s[p] == DOT,
    ensures
        dot_pos(s) == p,
{
    lemma_dot_pos_charn(s);
    if dot_pos(s) < p {
        assert(s[dot_pos(s)] == DOT);
    } else if dot_pos(s) > p {
        assert(s[p] != DOT);
    }
}

/// Concatenating digit strings multiplies the left value up by the length
/// of the right one.
proof fn lemma_digits_val_append(u: Seq<u8>, w: Seq<u8>)
    ensures
        digits_val(u + w) == digits_val(u) * pow10(w.len()) + digits_val(w),
    decreases w.len(),
{
    if w.len() == 0 {
        assert(u + w =~= u);
        vstd::arithmetic::power::lemma_pow0(10);
    } else {
        let w0 = w.drop_last();
        lemma_digits_val_append(u, w0);
        assert((u + w).drop_last() =~= u + w0);
        vstd::arithmetic::power::lemma_pow_adds(10, w0.len(), 1);
        vstd::arithmetic::power::lemma_pow1(10);
        let dvu = digits_val(u);
        let p0 = pow10(w0.len());
        assert((dvu * p0 + digits_val(w0)) * 10 + (w.last() - ZERO) == dvu * (p0 * 10) + (
        digits_val(w0) * 10 + (w.last() - ZERO))) by (nonlinear_arith);
    }
}

/// A digit string denotes a nonnegative number.
proof fn lemma_digits_val_nonneg(s: Seq<u8>)
    requires
        all_digits(s),
    ensures
        digits_val(s) >= 0,
    decreases s.len(),
{
    if s.len() > 0 {
        let s0 = s.drop_last();
        assert(all_digits(s0)) by {
            assert forall|i: int| 0 <= i < s0.len() implies is_digit(#[trigger] s0[i]) by {
                assert(s0[i] == s[i]);
            }
        }
        lemma_digits_val_nonneg(s0);
        assert(digits_val(s0) * 10 >= 0) by (nonlinear_arith)
            requires digits_val(s0) >= 0;
    }
}

/// A prefix of a digit string never denotes more than the whole string.
proof fn lemma_digits_val_prefix(w: Seq<u8>, m: int)
    requires
        all_digits(w),
        0 <= m <= w.len(),
    ensures
        digits_val(w.subrange(0, m)) <= digits_val(w),
{
    let pre = w.subrange(0, m);
    let suf = w.subrange(m, w.len() as int);
    assert(w =~= pre + suf);
    lemma_digits_val_append(pre, suf);
    assert(all_digits(pre));
    assert(all_digits(suf));
    lemma_digits_val_nonneg(pre);
    lemma_digits_val_nonneg(suf);
    crate::money::lemma_pow10_pos(suf.len());
    assert(digits_val(pre) * pow10(suf.len()) >= digits_val(pre)) by (nonlinear_arith)
        requires
            digits_val(pre) >= 0,
            pow10(suf.len()) >= 1,
    ;
}

impl Money {
    /// Parses a decimal literal: an optional sign, integer digits, then
    /// optionally a dot and one to 28 fractional digits. Returns
    /// `InvalidFormat` on exactly the strings that do not fit that shape,
    /// and the exact value the literal denotes on those that do.
    pub fn from_str(s: &str) -> (r: Result<Money, Error>)
        ensures
            r is Ok <==> parse_ok(s.spec_bytes()),
            r is Ok ==> r->Ok_0.wf() && r->Ok_0.val() == literal_val(s.spec_bytes()),
            r is Err ==> r->Err_0 == Error::InvalidFormat,
    {
        let v = s.as_bytes_vec();
        let n = v.len();
        let ghost bs = s.spec_bytes();
        let (start, neg): (usize, bool) = if n > 0 && (v[0] == MINUS || v[0]
            == PLUS) {
            (1, v[0] == MINUS)
        } else {
            (0, false)
        };
        let ghost t = unsigned_part(bs);
        proof {
            assert(t =~= bs.subrange(start as int, n as int));
            lemma_dot_pos_charn(t);
        }
        if start >= n {
            proof {
                assert(int_part(t).len() == 0);
            }
            return Err(Error::InvalidFormat);
        }
        // find the first dot; everything before it must be a digit
        let mut j = start;
        let mut dot: usize = n;
        loop
            invariant_except_break
                dot == n,
            invariant
                start <= j <= n,
                n == bs.len(),
                bs == s.spec_bytes(),
                v@ == bs,
                n == v@.len(),
                t == bs.subrange(start as int, n as int),
                start == sign_len(bs),
                forall|i: int| 0 <= i < j - start ==> is_digit(#[trigger] t[i]) && t[i] != DOT,
            ensures
                start <= j <= n,
                forall|i: int| 0 <= i < j - start ==> is_digit(#[trigger] t[i]) && t[i] != DOT,
                dot == n || (j < n && dot == j && t[j - start] == DOT),
                dot == n ==> j == n,
            decreases n - j,
        {
            if j == n {
                break ;
            }
            let b = v[j];
            if b == DOT {
                dot = j;
                break ;
            }
            if b < ZERO || b > NINE {
                proof {
                    lemma_dot_pos_charn(t);
                    assert(t[j - start] == bs[j as int]);
                    // the offending byte sits inside the integer part
                    if dot_pos(t) <= j - start {
                        assert(t[dot_pos(t)] == DOT);
                    }
                    assert(!is_digit(int_part(t)[j - start]));
                }
                return Err(Error::InvalidFormat);
            }
            j = j + 1;
        }
        proof {
            lemma_dot_pos_from_scan(t, (if dot == n { n } else { dot }) - start as int);
        }
        let d = dot;
        // the integer part may not be empty
        if d == start {
            proof {
                assert(int_part(t).len() == 0);
            }
            return Err(Error::InvalidFormat);
        }
        let ghost ip = int_part(t);
        proof {
            assert(ip =~= t.subrange(0, d - start));
            assert(all_digits(ip));
        }
        // validate the fraction
        let mut frac_len: usize = 0;
        if d < n {
            frac_len = n - d - 1;
            if frac_len == 0 {
                proof {
                    assert(frac_part(t).len() == 0);
                }
                return Err(Error::InvalidFormat);
            }
            if frac_len > 28 {
                proof {
                    assert(frac_part(t).len() > MAX_SCALE);
                }
                return Err(Error::InvalidFormat);
            }
            let mut k = d + 1;
            while k < n
                invariant
                    d + 1 <= k <= n,
                    n == bs.len(),
                    bs == s.spec_bytes(),
                    v@ == bs,
                    n == v@.len(),
                    t == bs.subrange(start as int, n as int),
                    start == sign_len(bs),
                    start <= d < n,
                    dot_pos(t) == d - start,
                    forall|i: int|
                        d + 1 - start <= i < k - start ==> is_digit(#[trigger] t[i]),
                decreases n - k,
            {
                let b = v[k];
                if b < ZERO || b > NINE {
                    proof {
                        assert(t[k - start] == bs[k as int]);
                        assert(!is_digit(frac_part(t)[k - start - (d - start) - 1]));
                    }
                    return Err(Error::InvalidFormat);
                }
                k = k + 1;
            }
        }
        let ghost fp = frac_part(t);
        proof {
            if d < n {
                assert(fp =~= t.subrange(d - start + 1, t.len() as int));
            }
            assert(all_digits(fp));
            assert(all_digits(ip + fp)) by {
                assert forall|i: int| 0 <= i < (ip + fp).len() implies is_digit(
                    #[trigger] (ip + fp)[i],
                ) by {
                    if i < ip.len() {
                        assert((ip + fp)[i] == ip[i]);
                    } else {
                        assert((ip + fp)[i] == fp[i - ip.len()]);
                    }
                }
            }
        }
        // accumulate the mantissa: the digits with the dot skipped
        let mut mag: i128 = 0;
        let mut k = start;
        proof {
            assert(t.subrange(0, 0) =~= Seq::<u8>::empty());
        }
        while k < d
            invariant
                start <= k <= d <= n,
                n == bs.len(),
                bs == s.spec_bytes(),
                v@ == bs,
                n == v@.len(),
                t == bs.subrange(start as int, n as int),
                start == sign_len(bs),
                dot_pos(t) == d - start,
                ip == int_part(t),
                fp == frac_part(t),
                all_digits(ip + fp),
                all_digits(ip),
                mag == digits_val(t.subrange(0, k - start)),
                mag >= 0,
            decreases d - k,
        {
            let b = v[k];
            proof {
                assert(t[k - start] == bs[k as int]);
                assert(is_digit(t[k - start])) by {
                    assert(ip[k - start] == t[k - start]);
                }
            }
            let dig = b - ZERO;
            let ghost u = t.subrange(0, k - start);
            let ghost u2 = t.subrange(0, k - start + 1);
            proof {
                assert(u2.drop_last() =~= u);
                assert(u2.last() == t[k - start]);
                // a too-large prefix makes the whole mantissa too large
                assert(u2 =~= (ip + fp).subrange(0, k - start + 1));
                lemma_digits_val_prefix(ip + fp, k - start + 1);
                lemma_digits_val_nonneg(u2);
            }
            let step = match mag.checked_mul(10) {
                Some(m10) => m10.checked_add(dig as i128),
                None => None,
            };
            match step {
                Some(m2) => {
                    mag = m2;
                },
                None => {
                    proof {
                        assert(digits_val(u2) > i128::MAX);
                    }
                    return Err(Error::InvalidFormat);
                },
            }
            k = k + 1;
        }
        proof {
            assert(t.subrange(0, d - start) =~= ip);
            assert(ip + frac_part(t).subrange(0, 0) =~= ip);
            lemma_digits_val_append(ip, fp.subrange(0, 0));
            vstd::arithmetic::power::lemma_pow0(10);
        }
        if d < n {
            let mut k = d + 1;
            proof {
                assert(ip + fp.subrange(0, 0) =~= ip);
            }
            while k < n
                invariant
                    d + 1 <= k <= n,
                    n == bs.len(),
                    bs == s.spec_bytes(),
                    v@ == bs,
                    n == v@.len(),
                    t == bs.subrange(start as int, n as int),
                    start == sign_len(bs),
                    start <= d < n,
                    dot_pos(t) == d - start,
                    ip == int_part(t),
                    fp == frac_part(t),
                    all_digits(ip + fp),
                    all_digits(fp),
                    mag == digits_val(ip + fp.subrange(0, k - d - 1)),
                    mag >= 0,
                decreases n - k,
            {
                let b = v[k];
                proof {
                    assert(t[k - start] == bs[k as int]);
                    assert(is_digit(t[k - start])) by {
                        assert(fp[k - d - 1] == t[k - start]);
                    }
                }
                let dig = b - ZERO;
                let ghost u = ip + fp.subrange(0, k - d - 1);
                let ghost u2 = ip + fp.subrange(0, k - d);
                proof {
                    assert(u2.drop_last() =~= u);
                    assert(u2.last() == fp[k - d - 1]);
                    assert(fp[k - d - 1] == t[k - start]);
                    assert(u2 =~= (ip + fp).subrange(0, ip.len() + k - d));
                    lemma_digits_val_prefix(ip + fp, ip.len() + k - d);
                    lemma_digits_val_nonneg(u2);
                }
                let step = match mag.checked_mul(10) {
                    Some(m10) => m10.checked_add(dig as i128),
                    None => None,
                };
                match step {
                    Some(m2) => {
                        mag = m2;
                    },
                    None => {
                        proof {
                            assert(digits_val(u2) > i128::MAX);
                        }
                        return Err(Error::InvalidFormat);
                    },
                }
                k = k + 1;
            }
            proof {
                assert(fp.subrange(0, n - d - 1) =~= fp);
            }
        } else {
            proof {
                assert(ip + fp =~= ip);
            }
        }
        proof {
            assert(mag == digits_val(ip + fp));
            assert(literal_mantissa(bs) == mag);
            assert(parse_ok(bs));
        }
        let scale: u32 = frac_len as u32;
        let mantissa: i128 = if neg {
            -mag
        } else {
            mag
        };
        let money = Money::new(mantissa, scale);
        proof {
            assert(literal_scale(bs) == scale as int);
            if neg {
                assert((-(mag as int)) * pow10((MAX_SCALE - scale) as nat) == -1 * (mag as int)
                    * pow10((MAX_SCALE - scale) as nat)) by (nonlinear_arith);
            }
        }
        Ok(money)
    }
}

} // verus!
