//! Exact ordering of integers and IEEE-754 binary64 floats.
use vstd::prelude::*;
use crate::value::{Value, ValueModel, float_key, float_key_of};

verus! {

/// Two to the power `e`.
pub open spec fn pow2i(e: nat) -> int
    decreases e,
{
    if e == 0 {
        1
    } else {
        2 * pow2i((e - 1) as nat)
    }
}

/// Sign of an integer: -1, 0 or 1.
pub open spec fn sign(x: int) -> int {
    if x < 0 {
        -1
    } else if x > 0 {
        1
    } else {
        0
    }
}

/// The magnitude bits of a float ordering key.
pub open spec fn key_mag(k: int) -> int {
    if k < 0 {
        -k
    } else {
        k
    }
}

/// A float ordering key that encodes NaN.
pub open spec fn key_is_nan(k: int) -> bool {
    key_mag(k) > 0x7ff0_0000_0000_0000
}

/// Biased exponent field of a float ordering key.
pub open spec fn key_exp_field(k: int) -> int {
    key_mag(k) / 0x10_0000_0000_0000
}

/// Fraction field of a float ordering key.
pub open spec fn key_frac(k: int) -> int {
    key_mag(k) % 0x10_0000_0000_0000
}

/// Integer significand of a finite float: value = ±significand · 2^exponent.
pub open spec fn key_significand(k: int) -> int {
    if key_exp_field(k) == 0 {
        key_frac(k)
    } else {
        key_frac(k) + 0x10_0000_0000_0000
    }
}

/// Binary exponent of a finite float.
pub open spec fn key_exponent(k: int) -> int {
    if key_exp_field(k) == 0 {
        -1074
    } else {
        key_exp_field(k) - 1075
    }
}

/// Sign of `n - f`, where `f` is the float with ordering key `k` (not NaN),
/// computed exactly on the rational value of `f`.
pub open spec fn int_vs_key(n: int, k: int) -> int {
    if key_exp_field(k) == 0x7ff {
        if k < 0 {
            1
        } else {
            -1
        }
    } else {
        let m = if k < 0 {
            -key_significand(k)
        } else {
            key_significand(k)
        };
        let e = key_exponent(k);
        if e >= 0 {
            sign(n - m * pow2i(e as nat))
        } else {
            sign(n * pow2i((-e) as nat) - m)
        }
    }
}

/// Numeric comparison: the sign of `a - b` when both are numbers and neither is NaN.
pub open spec fn num_compare(a: ValueModel, b: ValueModel) -> Option<int> {
    match (a, b) {
        (ValueModel::Int(x), ValueModel::Int(y)) => Some(sign(x - y)),
        (ValueModel::Float(x), ValueModel::Float(y)) => if key_is_nan(x) || key_is_nan(y) {
            None
        } else {
            Some(sign(x - y))
        },
        (ValueModel::Int(x), ValueModel::Float(k)) => if key_is_nan(k) {
            None
        } else {
            Some(int_vs_key(x, k))
        },
        (ValueModel::Float(k), ValueModel::Int(y)) => if key_is_nan(k) {
            None
        } else {
            Some(-int_vs_key(y, k))
        },
        _ => None,
    }
}

pub proof fn lemma_pow2i_mono(a: nat, b: nat)
    requires
        a <= b,
    ensures
        1 <= pow2i(a) <= pow2i(b),
    decreases b,
{
    if b > 0 {
        if a == b {
            lemma_pow2i_mono(0, (b - 1) as nat);
        } else {
            lemma_pow2i_mono(a, (b - 1) as nat);
        }
    }
}

/// Two to the power `e`, for small `e`.
pub fn pow2_u64(e: u64) -> (p: u64)
    requires
        e < 64,
    ensures
        p as int == pow2i(e as nat),
{
    proof {
        reveal_with_fuel(pow2i, 64);
        assert(pow2i(63) == 0x8000_0000_0000_0000);
    }
    let mut p: u64 = 1;
    let mut i: u64 = 0;
    while i < e
        invariant
            i <= e < 64,
            p as int == pow2i(i as nat),
            p * pow2i((63 - i) as nat) == 0x8000_0000_0000_0000,
        decreases e - i,
    {
        proof {
            let q = pow2i((62 - i) as nat);
            lemma_pow2i_mono(0, (62 - i) as nat);
            assert(pow2i((63 - i) as nat) == 2 * q);
            assert((p * 2) * q == p * (2 * q)) by (nonlinear_arith);
            assert(p * 2 <= 0x8000_0000_0000_0000) by (nonlinear_arith)
                requires
                    (p * 2) * q == 0x8000_0000_0000_0000,
                    q >= 1,
                    p >= 0,
            ;
        }
        p = p * 2;
        i = i + 1;
    }
    p
}

fn sign_of(x: i128) -> (r: i8)
    ensures
        r as int == sign(x as int),
{
    if x < 0 {
        -1
    } else if x > 0 {
        1
    } else {
        0
    }
}

/// Sign of `n - sm · 2^e` for a significand of a normal float.
fn int_vs_scaled(n: i64, sm: i128, e: u64) -> (r: i8)
    requires
        -0x20_0000_0000_0000 < sm < 0x20_0000_0000_0000,
        sm >= 0x10_0000_0000_0000 || sm <= -0x10_0000_0000_0000,
    ensures
        r as int == sign(n - sm * pow2i(e as nat)),
{
    if e >= 12 {
        proof {
            lemma_pow2i_mono(12, e as nat);
            reveal_with_fuel(pow2i, 13);
            assert(pow2i(12) == 4096);
            let p = pow2i(e as nat);
            if sm > 0 {
                assert(sm * p >= 0x10_0000_0000_0000 * 4096) by (nonlinear_arith)
                    requires
                        sm >= 0x10_0000_0000_0000,
                        p >= 4096,
                ;
            } else {
                assert(sm * p <= -0x10_0000_0000_0000 * 4096) by (nonlinear_arith)
                    requires
                        sm <= -0x10_0000_0000_0000,
                        p >= 4096,
                ;
            }
        }
        return if sm < 0 {
            1
        } else {
            -1
        };
    }
    let p: u64 = pow2_u64(e);
    proof {
        lemma_pow2i_mono(e as nat, 11);
        reveal_with_fuel(pow2i, 12);
        assert(pow2i(11) == 2048);
        assert(-0x20_0000_0000_0000 * 2048 <= sm * (p as i128) <= 0x20_0000_0000_0000 * 2048) by (nonlinear_arith)
            requires
                -0x20_0000_0000_0000 <= sm <= 0x20_0000_0000_0000,
                0 <= p <= 2048,
        ;
    }
    let rhs: i128 = sm * (p as i128);
    sign_of(n as i128 - rhs)
}

/// Sign of `n · 2^k - sm` for a float significand.
fn int_scaled_vs(n: i64, sm: i128, k: u64) -> (r: i8)
    requires
        -0x20_0000_0000_0000 < sm < 0x20_0000_0000_0000,
    ensures
        r as int == sign(n * pow2i(k as nat) - sm),
{
    if n == 0 {
        proof {
            assert(0 * pow2i(k as nat) == 0);
        }
        return sign_of(0 - sm);
    }
    if k >= 54 {
        proof {
            lemma_pow2i_mono(54, k as nat);
            reveal_with_fuel(pow2i, 55);
            assert(pow2i(54) == 0x40_0000_0000_0000);
            let p = pow2i(k as nat);
            if n > 0 {
                assert(n * p >= p) by (nonlinear_arith)
                    requires
                        n >= 1,
                        p >= 1,
                ;
            } else {
                assert(n * p <= -p) by (nonlinear_arith)
                    requires
                        n <= -1,
                        p >= 1,
                ;
            }
        }
        return if n > 0 {
            1
        } else {
            -1
        };
    }
    let p: u64 = pow2_u64(k);
    proof {
        lemma_pow2i_mono(k as nat, 53);
        reveal_with_fuel(pow2i, 54);
        assert(pow2i(53) == 0x20_0000_0000_0000);
        assert(-0x8000_0000_0000_0000 * 0x20_0000_0000_0000 <= (n as i128) * (p as i128) <= 0x8000_0000_0000_0000
            * 0x20_0000_0000_0000) by (nonlinear_arith)
            requires
                -0x8000_0000_0000_0000 <= n <= 0x8000_0000_0000_0000,
                0 <= p <= 0x20_0000_0000_0000,
        ;
    }
    let lhs: i128 = (n as i128) * (p as i128);
    sign_of(lhs - sm)
}

/// Sign of `n - f` for the float `f` with bit pattern `bits` (not NaN).
pub fn compare_int_float(n: i64, bits: u64) -> (r: i8)
    requires
        !key_is_nan(float_key(bits)),
    ensures
        r as int == int_vs_key(n as int, float_key(bits)),
{
    let mag: u64 = bits & 0x7fff_ffff_ffff_ffffu64;
    let neg: bool = bits >= 0x8000_0000_0000_0000u64 && mag > 0;
    let ef: u64 = mag >> 52u64;
    let fr: u64 = mag & 0xf_ffff_ffff_ffffu64;
    proof {
        assert(ef == mag / 0x10_0000_0000_0000 && fr == mag % 0x10_0000_0000_0000) by (bit_vector)
            requires
                ef == mag >> 52u64,
                fr == mag & 0xf_ffff_ffff_ffffu64,
        ;
        assert(mag <= 0x7fff_ffff_ffff_ffffu64) by (bit_vector)
            requires
                mag == bits & 0x7fff_ffff_ffff_ffffu64,
        ;
        let k = float_key(bits);
        assert(key_mag(k) == mag as int);
        assert(key_exp_field(k) == ef as int);
        assert(key_frac(k) == fr as int);
        assert((k < 0) == neg);
    }
    if ef == 0x7ff {
        return if neg {
            1
        } else {
            -1
        };
    }
    let m: i128 = if ef == 0 {
        fr as i128
    } else {
        fr as i128 + 0x10_0000_0000_0000i128
    };
    let sm: i128 = if neg {
        -m
    } else {
        m
    };
    if ef >= 1075 {
        int_vs_scaled(n, sm, ef - 1075)
    } else {
        let kk: u64 = if ef == 0 {
            1074
        } else {
            1075 - ef
        };
        int_scaled_vs(n, sm, kk)
    }
}

/// Numeric comparison of two values: `Some(sign of a - b)` when both are
/// numbers and neither is NaN, `None` otherwise.
pub fn compare_numbers(a: &Value, b: &Value) -> (r: Option<i8>)
    ensures
        r is Some == num_compare(a.model(), b.model()) is Some,
        r is Some ==> r->0 as int == num_compare(a.model(), b.model())->0,
{
    match (a, b) {
        (Value::Int(x), Value::Int(y)) => Some(sign_of(*x as i128 - *y as i128)),
        (Value::Float(x), Value::Float(y)) => {
            if float_is_nan_bits(*x) || float_is_nan_bits(*y) {
                None
            } else {
                let kx = float_key_of(*x);
                let ky = float_key_of(*y);
                Some(sign_of(kx as i128 - ky as i128))
            }
        },
        (Value::Int(x), Value::Float(y)) => {
            if float_is_nan_bits(*y) {
                None
            } else {
                Some(compare_int_float(*x, *y))
            }
        },
        (Value::Float(x), Value::Int(y)) => {
            if float_is_nan_bits(*x) {
                None
            } else {
                let r = compare_int_float(*y, *x);
                Some(-r)
            }
        },
        _ => None,
    }
}

/// True when the bit pattern encodes NaN.
pub fn float_is_nan_bits(bits: u64) -> (r: bool)
    ensures
        r == key_is_nan(float_key(bits)),
{
    let mag: u64 = bits & 0x7fff_ffff_ffff_ffffu64;
    assert(mag <= 0x7fff_ffff_ffff_ffffu64) by (bit_vector)
        requires
            mag == bits & 0x7fff_ffff_ffff_ffffu64,
    ;
    mag > 0x7ff0_0000_0000_0000u64
}

} // verus!
