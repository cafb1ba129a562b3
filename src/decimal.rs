//! Exact comparison of JSON numbers as decimal values: no floating point is involved.
use vstd::prelude::*;

use crate::binding::lemma_digits_grow;
use crate::json::{Number, NumberV};
use crate::json_read::{
    all_digits, digits_end, digits_end_exec, digits_value, is_digit, lemma_digits_end,
    lemma_digits_value_step, number_end, number_end_exec,
};
use crate::text::{chars_of, sub_chars};

verus! {

pub open spec fn pow10(n: nat) -> nat
    decreases n,
{
    if n == 0 {
        1
    } else {
        10 * pow10((n - 1) as nat)
    }
}

/// The largest exponent and fraction length that comparisons take.
pub const EXP_LIMIT: u64 = 1_000_000_000_000_000;

/// The parts of a JSON number text: its sign, its digits without the point, the sign and
/// digits of its exponent, and the length of its fraction.
pub open spec fn float_parts(t: Seq<char>) -> Option<(bool, Seq<char>, bool, Seq<char>, nat)> {
    if t.len() == 0 || number_end(t, 0) != Some(t.len() as int) {
        None
    } else {
        let neg = t[0] == '-';
        let a: int = if neg {
            1
        } else {
            0
        };
        let b = digits_end(t, a);
        let c = if b < t.len() && t[b] == '.' {
            digits_end(t, b + 1)
        } else {
            b
        };
        let frac = if c > b {
            t.subrange(b + 1, c)
        } else {
            Seq::empty()
        };
        let mant = t.subrange(a, b) + frac;
        if c < t.len() {
            let eneg = c + 1 < t.len() && t[c + 1] == '-';
            let d0 = if c + 1 < t.len() && (t[c + 1] == '+' || t[c + 1] == '-') {
                c + 2
            } else {
                c + 1
            };
            Some((neg, mant, eneg, t.subrange(d0, t.len() as int), frac.len()))
        } else {
            Some((neg, mant, false, Seq::empty(), frac.len()))
        }
    }
}

/// A number as `(m, e)` with value `m * 10^e`. A decimal text counts where its digits fit 128
/// bits and its exponent and fraction length stay within `EXP_LIMIT`.
pub open spec fn decimal_value(n: NumberV) -> Option<(int, int)> {
    match n {
        NumberV::PosInt(k) => Some((k as int, 0)),
        NumberV::NegInt(k) => Some((k as int, 0)),
        NumberV::Float(t) => match float_parts(t) {
            Some((neg, mant, eneg, ed, fl)) => {
                let m = digits_value(mant);
                let ev = digits_value(ed);
                if m <= u128::MAX && ev <= EXP_LIMIT && fl <= EXP_LIMIT {
                    Some(
                        (
                            if neg {
                                -m
                            } else {
                                m as int
                            },
                            (if eneg {
                                -ev
                            } else {
                                ev as int
                            }) - fl,
                        ),
                    )
                } else {
                    None
                }
            },
            None => None,
        },
    }
}

/// `ma * 10^ea > mb * 10^eb`, compared at the smaller exponent.
pub open spec fn rational_gt(ma: int, ea: int, mb: int, eb: int) -> bool {
    if ea >= eb {
        ma * pow10((ea - eb) as nat) > mb
    } else {
        ma > mb * pow10((eb - ea) as nat)
    }
}

proof fn lemma_pow10_pos(n: nat)
    ensures
        pow10(n) >= 1,
    decreases n,
{
    if n > 0 {
        lemma_pow10_pos((n - 1) as nat);
    }
}

proof fn lemma_pow10_mono(a: nat, b: nat)
    requires
        a <= b,
    ensures
        pow10(a) <= pow10(b),
    decreases b,
{
    if a < b {
        lemma_pow10_mono(a, (b - 1) as nat);
        lemma_pow10_pos((b - 1) as nat);
    }
}

proof fn lemma_pow10_big(n: nat)
    requires
        n >= 39,
    ensures
        pow10(n) > u128::MAX,
{
    reveal_with_fuel(pow10, 40);
    assert(pow10(39) == 1_000_000_000_000_000_000_000_000_000_000_000_000_000nat);
    lemma_pow10_mono(39, n);
}

fn pow10_exec(d: u32) -> (r: u128)
    requires
        d <= 38,
    ensures
        r == pow10(d as nat),
        r >= 1,
{
    let mut q: u128 = 1;
    let mut k: u32 = 0;
    while k < d
        invariant
            k <= d <= 38,
            q == pow10(k as nat),
        decreases d - k,
    {
        proof {
            lemma_pow10_mono((k + 1) as nat, 38);
            reveal_with_fuel(pow10, 39);
            assert(pow10(38) == 100_000_000_000_000_000_000_000_000_000_000_000_000nat);
        }
        q = q * 10;
        k = k + 1;
    }
    proof {
        lemma_pow10_pos(d as nat);
    }
    q
}

/// `x * 10^ex > y * 10^ey` for non-negative mantissas.
fn magnitude_gt(x: u128, ex: i64, y: u128, ey: i64) -> (r: bool)
    requires
        -3 * EXP_LIMIT <= ex <= 3 * EXP_LIMIT,
        -3 * EXP_LIMIT <= ey <= 3 * EXP_LIMIT,
    ensures
        r == rational_gt(x as int, ex as int, y as int, ey as int),
{
    if ex >= ey {
        let d = ex - ey;
        let ghost p = pow10(d as nat);
        proof {
            lemma_pow10_pos(d as nat);
        }
        if x == 0 {
            assert(x * p == 0) by (nonlinear_arith)
                requires
                    x == 0,
            ;
            false
        } else if d >= 39 {
            proof {
                lemma_pow10_big(d as nat);
                assert(x * p >= p) by (nonlinear_arith)
                    requires
                        x >= 1,
                        p >= 1,
                ;
            }
            true
        } else {
            let q = pow10_exec(d as u32);
            proof {
                assert((x * q > y) == (x > y / q)) by (nonlinear_arith)
                    requires
                        q >= 1,
                        x >= 0,
                        y >= 0,
                ;
            }
            x > y / q
        }
    } else {
        let d = ey - ex;
        let ghost p = pow10(d as nat);
        proof {
            lemma_pow10_pos(d as nat);
        }
        if y == 0 {
            assert(y * p == 0) by (nonlinear_arith)
                requires
                    y == 0,
            ;
            x > 0
        } else if d >= 39 {
            proof {
                lemma_pow10_big(d as nat);
                assert(y * p >= p) by (nonlinear_arith)
                    requires
                        y >= 1,
                        p >= 1,
                ;
            }
            false
        } else {
            let q = pow10_exec(d as u32);
            proof {
                assert((x > y * q) == (x / q > y || (x / q == y && x % q > 0))) by (nonlinear_arith)
                    requires
                        q >= 1,
                        x >= 0,
                        y >= 0,
                ;
            }
            x / q > y || (x / q == y && x % q > 0)
        }
    }
}

/// The value of a run of digits, or none where it exceeds 128 bits.
fn digits_u128(ds: &Vec<char>) -> (r: Option<u128>)
    requires
        all_digits(ds@),
    ensures
        r matches Some(v) ==> v == digits_value(ds@),
        r is None ==> digits_value(ds@) > u128::MAX,
{
    let mut acc: u128 = 0;
    let mut k: usize = 0;
    while k < ds.len()
        invariant
            k <= ds@.len(),
            all_digits(ds@),
            acc as nat == digits_value(ds@.subrange(0, k as int)),
        decreases ds.len() - k,
    {
        proof {
            lemma_digits_value_step(ds@, k as int);
        }
        assert(is_digit(ds@[k as int]));
        let dig: u128 = (ds[k] as u32 - 48) as u128;
        if acc > (u128::MAX - dig) / 10 {
            proof {
                assert(acc * 10 + dig > u128::MAX) by (nonlinear_arith)
                    requires
                        acc > (u128::MAX - dig) / 10,
                        dig <= 9,
                ;
                lemma_digits_grow(ds@, k + 1);
            }
            return None;
        }
        proof {
            assert(acc * 10 + dig <= u128::MAX) by (nonlinear_arith)
                requires
                    acc <= (u128::MAX - dig) / 10,
                    dig <= 9,
            ;
        }
        acc = acc * 10 + dig;
        k = k + 1;
    }
    assert(ds@.subrange(0, k as int) =~= ds@);
    Some(acc)
}

pub open spec fn signed(neg: bool, m: u128) -> int {
    if neg {
        -(m as int)
    } else {
        m as int
    }
}

/// A number as `(negative, mantissa, exponent)`, where `decimal_value` gives it one.
pub fn decimal_of(n: &Number) -> (r: Option<(bool, u128, i64)>)
    ensures
        r matches Some((neg, m, e)) ==> decimal_value(n@) == Some((signed(neg, m), e as int))
            && -3 * EXP_LIMIT <= e <= 3 * EXP_LIMIT,
        r is None ==> decimal_value(n@) is None,
{
    match n {
        Number::PosInt(k) => Some((false, *k as u128, 0)),
        Number::NegInt(k) => {
            if *k < 0 {
                Some((true, (0 - (*k as i128)) as u128, 0))
            } else {
                Some((false, *k as u128, 0))
            }
        },
        Number::Float(t) => float_of(t.as_str()),
    }
}

#[verifier::rlimit(100)]
#[verifier::spinoff_prover]
fn float_of(text: &str) -> (r: Option<(bool, u128, i64)>)
    ensures
        r matches Some((neg, m, e)) ==> decimal_value(NumberV::Float(text@)) == Some(
            (signed(neg, m), e as int),
        ) && -3 * EXP_LIMIT <= e <= 3 * EXP_LIMIT,
        r is None ==> decimal_value(NumberV::Float(text@)) is None,
{
    let cs = chars_of(text);
    let n = cs.len();
    if n == 0 {
        return None;
    }
    match number_end_exec(&cs, 0) {
        Some(d) => {
            if d != n {
                return None;
            }
        },
        None => {
            return None;
        },
    }
    let ghost t = cs@;
    let neg = cs[0] == '-';
    let a: usize = if neg {
        1
    } else {
        0
    };
    let b = digits_end_exec(&cs, a);
    let c = if b < n && cs[b] == '.' {
        digits_end_exec(&cs, b + 1)
    } else {
        b
    };
    proof {
        lemma_digits_end(t, a as int);
        if b < n && cs@[b as int] == '.' {
            lemma_digits_end(t, b + 1);
        }
    }
    let mut mant = sub_chars(cs.as_slice(), a, b);
    let fl: usize = if c > b {
        let frac = sub_chars(cs.as_slice(), b + 1, c);
        let mut k: usize = 0;
        let ghost m0 = mant@;
        while k < frac.len()
            invariant
                k <= frac@.len(),
                mant@ == m0 + frac@.subrange(0, k as int),
            decreases frac.len() - k,
        {
            mant.push(frac[k]);
            assert(mant@ =~= m0 + frac@.subrange(0, k + 1));
            k = k + 1;
        }
        assert(frac@.subrange(0, k as int) =~= frac@);
        c - b - 1
    } else {
        0
    };
    assert(float_parts(t) matches Some(p) && mant@ == p.1);
    assert(all_digits(mant@)) by {
        assert forall|k: int| 0 <= k < mant@.len() implies is_digit(#[trigger] mant@[k]) by {
            if k < b - a {
                assert(mant@[k] == t[a + k]);
            } else {
                assert(mant@[k] == t[b + 1 + (k - (b - a))]);
            }
        }
    }
    let m = match digits_u128(&mant) {
        Some(m) => m,
        None => {
            return None;
        },
    };
    if fl as u64 > EXP_LIMIT {
        return None;
    }
    if c < n {
        let eneg = c + 1 < n && cs[c + 1] == '-';
        let d0 = if c + 1 < n && (cs[c + 1] == '+' || cs[c + 1] == '-') {
            c + 2
        } else {
            c + 1
        };
        let ed = sub_chars(cs.as_slice(), d0, n);
        proof {
            lemma_digits_end(t, d0 as int);
        }
        assert(all_digits(ed@)) by {
            assert forall|k: int| 0 <= k < ed@.len() implies is_digit(#[trigger] ed@[k]) by {
                assert(ed@[k] == t[d0 + k]);
            }
        }
        let ev = match digits_u128(&ed) {
            Some(v) => v,
            None => {
                return None;
            },
        };
        if ev > EXP_LIMIT as u128 {
            return None;
        }
        let e: i64 = if eneg {
            0 - (ev as i64) - (fl as i64)
        } else {
            (ev as i64) - (fl as i64)
        };
        Some((neg, m, e))
    } else {
        Some((neg, m, 0 - (fl as i64)))
    }
}

/// `a > b` for numbers as `decimal_of` gives them.
pub fn decimal_gt(a: (bool, u128, i64), b: (bool, u128, i64)) -> (r: bool)
    requires
        -3 * EXP_LIMIT <= a.2 <= 3 * EXP_LIMIT,
        -3 * EXP_LIMIT <= b.2 <= 3 * EXP_LIMIT,
    ensures
        r == rational_gt(signed(a.0, a.1), a.2 as int, signed(b.0, b.1), b.2 as int),
{
    let (na, ma, ea) = a;
    let (nb, mb, eb) = b;
    let a_neg = na && ma > 0;
    let b_neg = nb && mb > 0;
    let ghost sa = signed(na, ma);
    let ghost sb = signed(nb, mb);
    let ghost pa = pow10(if ea >= eb { (ea - eb) as nat } else { (eb - ea) as nat });
    proof {
        lemma_pow10_pos(if ea >= eb { (ea - eb) as nat } else { (eb - ea) as nat });
    }
    if !a_neg && b_neg {
        proof {
            assert(sa >= 0 && sb < 0);
            assert(sa * pa >= 0 && sb * pa < 0) by (nonlinear_arith)
                requires
                    pa >= 1,
                    sa >= 0,
                    sb < 0,
            ;
            assert(rational_gt(sa, ea as int, sb, eb as int));
        }
        true
    } else if a_neg && !b_neg {
        proof {
            assert(sa < 0 && sb >= 0);
            assert(sa * pa < 0 && sb * pa >= 0) by (nonlinear_arith)
                requires
                    pa >= 1,
                    sa < 0,
                    sb >= 0,
            ;
            assert(!rational_gt(sa, ea as int, sb, eb as int));
        }
        false
    } else if !a_neg {
        proof {
            assert(sa == ma as int && sb == mb as int);
        }
        magnitude_gt(ma, ea, mb, eb)
    } else {
        let r = magnitude_gt(mb, eb, ma, ea);
        proof {
            assert(sa == -(ma as int) && sb == -(mb as int));
            assert((-(ma as int)) * pa == -((ma as int) * pa)) by (nonlinear_arith);
            assert((-(mb as int)) * pa == -((mb as int) * pa)) by (nonlinear_arith);
            if ea == eb {
                assert(pow10(0) == 1);
                assert((mb as int) * 1 == mb as int && (ma as int) * 1 == ma as int);
                assert(-(ma as int) * 1 == -(ma as int));
            }
            assert(r == rational_gt(sa, ea as int, sb, eb as int));
        }
        r
    }
}

} // verus!
