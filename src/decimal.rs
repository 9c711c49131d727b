use vstd::arithmetic::div_mod::{lemma_fundamental_div_mod, lemma_fundamental_div_mod_converse, lemma_mod_multiples_basic};
use vstd::arithmetic::mul::{lemma_mul_equality_converse, lemma_mul_inequality, lemma_mul_is_associative};
use vstd::prelude::*;

verus! {

/// Prices and quantities are whole numbers of units of ten to the minus
/// this many.
pub const DECIMAL_PLACES: i64 = 8;

/// A decimal that is negative, or has more places than the engine keeps,
/// or does not fit.
#[derive(PartialEq, Eq, Structural, Debug, Copy, Clone)]
pub struct NumericConversionError;

pub open spec fn pow10(n: nat) -> nat
    decreases n,
{
    if n == 0 {
        1
    } else {
        10 * pow10((n - 1) as nat)
    }
}

/// The number of units that `digits × 10^-scale` is, when it is a whole,
/// non-negative number of units.
pub open spec fn exact_units(digits: int, scale: int) -> Option<int> {
    if digits < 0 {
        None
    } else if scale <= DECIMAL_PLACES {
        Some(digits * pow10((DECIMAL_PLACES - scale) as nat))
    } else if digits % (pow10((scale - DECIMAL_PLACES) as nat) as int) == 0 {
        Some(digits / (pow10((scale - DECIMAL_PLACES) as nat) as int))
    } else {
        None
    }
}

/// The units that `digits × 10^-scale` is, when it is exact, not negative
/// and fits in `u64`.
pub open spec fn units_of(digits: int, scale: int) -> Option<u64> {
    match exact_units(digits, scale) {
        Some(u) => if u <= u64::MAX {
            Some(u as u64)
        } else {
            None
        },
        None => None,
    }
}

proof fn lemma_pow10_add(a: nat, b: nat)
    ensures
        pow10(a + b) == pow10(a) * pow10(b),
        pow10(a) >= 1,
    decreases a,
{
    if a > 0 {
        let x = pow10((a - 1) as nat) as int;
        let y = pow10(b) as int;
        lemma_pow10_add((a - 1) as nat, b);
        assert(pow10(a + b) == 10 * pow10((a - 1 + b) as nat));
        assert(pow10(a) == 10 * x);
        lemma_mul_is_associative(10, x, y);
        assert(pow10(a + b) == (10 * x) * y);
    } else {
        assert(pow10(a) == 1);
        assert(pow10(a + b) == pow10(b));
        assert(1 * (pow10(b) as int) == pow10(b)) by (nonlinear_arith);
    }
}

/// Reads the decimal `digits × 10^-scale` as a whole number of units, and
/// refuses it when that is not exact, is negative, or does not fit in `u64`.
pub fn decimal_units(digits: i128, scale: i64) -> (r: Result<u64, NumericConversionError>)
    ensures
        match units_of(digits as int, scale as int) {
            Some(u) => r == Ok::<u64, NumericConversionError>(u),
            None => r == Err::<u64, NumericConversionError>(NumericConversionError),
        },
{
    if digits < 0 {
        return Err(NumericConversionError);
    }
    if digits == 0 {
        proof {
            lemma_pow10_add(0, 0);
            if scale > DECIMAL_PLACES {
                let d = pow10((scale - DECIMAL_PLACES) as nat) as int;
                lemma_pow10_add((scale - DECIMAL_PLACES) as nat, 0);
                lemma_fundamental_div_mod_converse(0, d, 0, 0);
            }
        }
        return Ok(0);
    }
    if scale <= DECIMAL_PLACES {
        let shift: i128 = DECIMAL_PLACES as i128 - scale as i128;
        proof {
            lemma_pow10_add(shift as nat, 0);
            lemma_mul_inequality(1, pow10(shift as nat) as int, digits as int);
        }
        if digits > u64::MAX as i128 {
            proof {
                let pw = pow10(shift as nat) as int;
                assert(digits as int * pw >= digits as int) by (nonlinear_arith)
                    requires
                        pw >= 1,
                        digits >= 0,
                ;
            }
            return Err(NumericConversionError);
        }
        let mut acc: u64 = digits as u64;
        let mut k: i128 = 0;
        proof {
            lemma_pow10_add(0, 0);
            assert(digits as int * 1 == digits as int) by (nonlinear_arith);
        }
        while k < shift
            invariant
                0 <= k <= shift,
                shift == DECIMAL_PLACES - scale,
                acc as int == digits * pow10(k as nat),
            decreases shift - k,
        {
            proof {
                lemma_pow10_add((k + 1) as nat, (shift - k - 1) as nat);
                lemma_pow10_add(k as nat, 1);
                lemma_pow10_add((shift - k - 1) as nat, 0);
                lemma_mul_is_associative(digits as int, pow10(k as nat) as int, 10);
            }
            if acc > u64::MAX / 10 {
                proof {
                    let rest = pow10((shift - k - 1) as nat) as int;
                    assert(pow10((k + 1) as nat) == pow10(k as nat) * 10);
                    lemma_mul_is_associative(digits as int, pow10((k + 1) as nat) as int, rest);
                    lemma_mul_inequality(1, rest, acc as int * 10);
                    assert(digits * pow10(shift as nat) == (acc as int * 10) * rest);
                }
                return Err(NumericConversionError);
            }
            acc = acc * 10;
            k = k + 1;
        }
        Ok(acc)
    } else {
        let shift: i128 = scale as i128 - DECIMAL_PLACES as i128;
        let mut acc: i128 = digits;
        let mut k: i128 = 0;
        proof {
            lemma_pow10_add(0, 0);
            assert(digits as int * 1 == digits as int) by (nonlinear_arith);
        }
        while k < shift
            invariant
                0 <= k <= shift,
                shift == scale - DECIMAL_PLACES,
                0 < acc <= digits,
                acc * pow10(k as nat) == digits,
            decreases shift - k,
        {
            proof {
                lemma_pow10_add(k as nat, 1);
                lemma_pow10_add(k as nat, (shift - k) as nat);
                lemma_pow10_add((shift - k - 1) as nat, 1);
            }
            if acc % 10 != 0 {
                proof {
                    let d = pow10(shift as nat) as int;
                    let pk = pow10(k as nat) as int;
                    let rest = pow10((shift - k) as nat) as int;
                    let below = pow10((shift - k - 1) as nat) as int;
                    lemma_pow10_add(shift as nat, 0);
                    assert(acc * pk == digits);
                    assert(pk * acc == acc * pk) by (nonlinear_arith);
                    if (digits as int) % d == 0 {
                        lemma_fundamental_div_mod(digits as int, d);
                        let q = (digits as int) / d;
                        assert(digits == d * q);
                        assert(d == pk * rest);
                        lemma_mul_is_associative(pk, rest, q);
                        assert(pk * acc == pk * (rest * q));
                        lemma_mul_equality_converse(pk, acc as int, rest * q);
                        assert(rest == below * 10);
                        assert((below * 10) * q == (below * q) * 10) by (nonlinear_arith);
                        assert(acc == (below * q) * 10);
                        lemma_mod_multiples_basic(below * q, 10);
                    }
                }
                return Err(NumericConversionError);
            }
            proof {
                lemma_fundamental_div_mod(acc as int, 10);
                lemma_mul_is_associative(acc as int / 10, 10, pow10(k as nat) as int);
                assert(pow10((k + 1) as nat) == pow10(k as nat) * 10);
            }
            acc = acc / 10;
            k = k + 1;
        }
        proof {
            let d = pow10(shift as nat) as int;
            lemma_pow10_add(shift as nat, 0);
            lemma_fundamental_div_mod_converse(digits as int, d, acc as int, 0);
        }
        if acc > u64::MAX as i128 {
            return Err(NumericConversionError);
        }
        Ok(acc as u64)
    }
}

} // verus!
