//! Decomposition of IEEE-754 bit patterns into sign, exponent and mantissa
//! fields, and modular arithmetic on exponents.
use vstd::arithmetic::div_mod::{
    lemma_div_denominator, lemma_fundamental_div_mod, lemma_fundamental_div_mod_converse,
};
use vstd::arithmetic::power2::{lemma2_to64, lemma_pow2_adds, lemma_pow2_pos, pow2};
use vstd::bits::{
    lemma_u16_shl_is_mul, lemma_u64_low_bits_mask_is_mod, lemma_u64_shl_is_mul,
    lemma_u64_shr_is_div, low_bits_mask,
};
use vstd::prelude::*;

verus! {

/// Field widths the library supports: an exponent of 2 to 11 bits (so that
/// centred exponent deltas stay within the variable-length code), at least
/// one mantissa bit, and a sign bit, all inside 64 bits.
pub open spec fn valid_shape(e: nat, m: nat) -> bool {
    2 <= e <= 11 && 1 <= m && e + m <= 63
}

/// A floating-point format, described by the widths of its fields.
pub trait IEEEFloat {
    spec fn spec_exp_bits() -> nat;

    spec fn spec_mantissa_bits() -> nat;

    proof fn lemma_valid_shape()
        ensures
            valid_shape(Self::spec_exp_bits(), Self::spec_mantissa_bits()),
    ;

    fn exp_bits() -> (r: u64)
        ensures
            r == Self::spec_exp_bits(),
    ;

    fn mantissa_bits() -> (r: u64)
        ensures
            r == Self::spec_mantissa_bits(),
    ;
}

/// IEEE-754 binary32: 8 exponent bits, 23 mantissa bits.
pub struct Binary32;

/// IEEE-754 binary64: 11 exponent bits, 52 mantissa bits.
pub struct Binary64;

impl IEEEFloat for Binary32 {
    open spec fn spec_exp_bits() -> nat {
        8
    }

    open spec fn spec_mantissa_bits() -> nat {
        23
    }

    proof fn lemma_valid_shape() {
    }

    fn exp_bits() -> (r: u64) {
        8
    }

    fn mantissa_bits() -> (r: u64) {
        23
    }
}

impl IEEEFloat for Binary64 {
    open spec fn spec_exp_bits() -> nat {
        11
    }

    open spec fn spec_mantissa_bits() -> nat {
        52
    }

    proof fn lemma_valid_shape() {
    }

    fn exp_bits() -> (r: u64) {
        11
    }

    fn mantissa_bits() -> (r: u64) {
        52
    }
}

pub open spec fn ebits<F: IEEEFloat>() -> nat {
    F::spec_exp_bits()
}

pub open spec fn mbits<F: IEEEFloat>() -> nat {
    F::spec_mantissa_bits()
}

/// Number of bits in a bit pattern of the shape.
pub open spec fn total_bits<F: IEEEFloat>() -> nat {
    ebits::<F>() + mbits::<F>() + 1
}

/// `v` is a bit pattern of the shape: no bit above the sign bit is set.
pub open spec fn is_pattern<F: IEEEFloat>(v: u64) -> bool {
    v < pow2(total_bits::<F>())
}

/// The sign bit of `v`.
pub open spec fn sign_field<F: IEEEFloat>(v: u64) -> bool {
    (v as nat / pow2(ebits::<F>() + mbits::<F>())) % 2 == 1
}

/// The exponent field of `v`.
pub open spec fn exp_field<F: IEEEFloat>(v: u64) -> nat {
    (v as nat / pow2(mbits::<F>())) % pow2(ebits::<F>())
}

/// The mantissa field of `v`.
pub open spec fn mantissa_field<F: IEEEFloat>(v: u64) -> nat {
    v as nat % pow2(mbits::<F>())
}

/// The bit pattern with the given fields.
pub open spec fn compose<F: IEEEFloat>(sign: bool, exp: nat, mantissa: nat) -> nat {
    (if sign {
        pow2(ebits::<F>() + mbits::<F>())
    } else {
        0
    }) + exp * pow2(mbits::<F>()) + mantissa
}

/// Number of distinct exponents, `2^EXP_BITS`.
pub open spec fn exp_modulus<F: IEEEFloat>() -> int {
    pow2(ebits::<F>()) as int
}

/// Half the exponent modulus, the bound of centred deltas.
pub open spec fn exp_half<F: IEEEFloat>() -> int {
    pow2((ebits::<F>() - 1) as nat) as int
}

/// The representative in `(-half, half]` of `curr - prev` modulo the
/// exponent modulus.
pub open spec fn exp_delta<F: IEEEFloat>(prev: int, curr: int) -> int {
    let d = (curr - prev) % exp_modulus::<F>();
    if d <= exp_half::<F>() {
        d
    } else {
        d - exp_modulus::<F>()
    }
}

/// The exponent reached from `prev` by a step of `delta`, modulo the
/// exponent modulus.
pub open spec fn exp_step<F: IEEEFloat>(prev: int, delta: int) -> int {
    (prev + delta) % exp_modulus::<F>()
}

/// `d` lies in `(-half, half]`.
pub open spec fn in_centred_range<F: IEEEFloat>(d: int) -> bool {
    -exp_half::<F>() < d <= exp_half::<F>()
}

pub(crate) proof fn lemma_shape_facts<F: IEEEFloat>()
    ensures
        valid_shape(ebits::<F>(), mbits::<F>()),
        4 <= exp_modulus::<F>() <= 2048,
        exp_modulus::<F>() == 2 * exp_half::<F>(),
        pow2(mbits::<F>()) > 0,
        pow2(ebits::<F>() + mbits::<F>()) == pow2(ebits::<F>()) * pow2(mbits::<F>()),
        pow2(total_bits::<F>()) == 2 * pow2(ebits::<F>() + mbits::<F>()),
        total_bits::<F>() <= 64,
{
    F::lemma_valid_shape();
    let e = ebits::<F>();
    let m = mbits::<F>();
    lemma2_to64();
    lemma_pow2_adds((e - 1) as nat, 1);
    lemma_pow2_adds(e, m);
    lemma_pow2_adds(e + m, 1);
    lemma_pow2_pos(m);
    lemma_pow2_pos(e);
    vstd::arithmetic::power2::lemma_pow2_strictly_increases(e, 12);
    vstd::arithmetic::power2::lemma_pow2_strictly_increases(1, e);
    if e < 11 {
        vstd::arithmetic::power2::lemma_pow2_strictly_increases(e, 11);
    }
}

/// Every bit pattern of the shape is rebuilt exactly from its three fields.
pub proof fn lemma_field_round_trip<F: IEEEFloat>(v: u64)
    requires
        is_pattern::<F>(v),
    ensures
        compose::<F>(sign_field::<F>(v), exp_field::<F>(v), mantissa_field::<F>(v)) == v,
{
    lemma_shape_facts::<F>();
    let a = pow2(mbits::<F>()) as int;
    let b = pow2(ebits::<F>()) as int;
    let p = pow2(ebits::<F>() + mbits::<F>()) as int;
    let x = v as int;
    let q = x / a;
    lemma_fundamental_div_mod(x, a);
    lemma_fundamental_div_mod(q, b);
    lemma_div_denominator(x, a, b);
    assert(a * b == b * a) by (nonlinear_arith);
    assert(x / p < 2) by (nonlinear_arith)
        requires
            x < 2 * p,
            p > 0,
            x >= 0,
    ;
    assert(x / p >= 0) by (nonlinear_arith)
        requires
            p > 0,
            x >= 0,
    ;
    let s = x / p;
    assert(s % 2 == s);
    assert(x == (b * s + q % b) * a + x % a);
    assert((b * s + q % b) * a == s * p + (q % b) * a) by (nonlinear_arith)
        requires
            p == b * a,
    ;
    assert(q / b == s);
    if s == 1 {
        assert(s * p == p) by (nonlinear_arith)
            requires
                s == 1,
        ;
    } else {
        assert(s * p == 0) by (nonlinear_arith)
            requires
                s == 0,
        ;
    }
}

/// The fields of an assembled bit pattern are the ones it was assembled from.
pub proof fn lemma_fields_of_compose<F: IEEEFloat>(sign: bool, exp: nat, mantissa: nat)
    requires
        exp < exp_modulus::<F>(),
        mantissa < pow2(mbits::<F>()),
    ensures
        compose::<F>(sign, exp, mantissa) < pow2(total_bits::<F>()),
        compose::<F>(sign, exp, mantissa) <= u64::MAX ==> ({
            let v = compose::<F>(sign, exp, mantissa) as u64;
            &&& sign_field::<F>(v) == sign
            &&& exp_field::<F>(v) == exp
            &&& mantissa_field::<F>(v) == mantissa
        }),
{
    lemma_shape_facts::<F>();
    let a = pow2(mbits::<F>()) as int;
    let b = pow2(ebits::<F>()) as int;
    let p = pow2(ebits::<F>() + mbits::<F>()) as int;
    let s: int = if sign {
        1
    } else {
        0
    };
    let x = compose::<F>(sign, exp, mantissa) as int;
    assert(x == (s * b + exp) * a + mantissa) by (nonlinear_arith)
        requires
            x == s * p + exp * a + mantissa,
            p == b * a,
    ;
    assert(x < 2 * p) by (nonlinear_arith)
        requires
            x == (s * b + exp) * a + mantissa,
            p == b * a,
            s <= 1,
            exp < b,
            mantissa < a,
            0 <= s,
    ;
    lemma_fundamental_div_mod_converse(x, a, s * b + exp, mantissa as int);
    lemma_fundamental_div_mod_converse(s * b + exp, b, s, exp as int);
    lemma_div_denominator(x, a, b);
    assert(a * b == p) by (nonlinear_arith)
        requires
            p == b * a,
    ;
    lemma_fundamental_div_mod_converse(s, 2, 0, s);
}

/// The centred delta always lies in `(-half, half]`, and stepping from
/// `prev` by it leads back to `curr`.
pub proof fn lemma_exp_modular<F: IEEEFloat>(prev: int, curr: int)
    requires
        0 <= prev < exp_modulus::<F>(),
        0 <= curr < exp_modulus::<F>(),
    ensures
        in_centred_range::<F>(exp_delta::<F>(prev, curr)),
        exp_step::<F>(prev, exp_delta::<F>(prev, curr)) == curr,
{
    lemma_shape_facts::<F>();
    let n = exp_modulus::<F>();
    let d = curr - prev;
    if d >= 0 {
        lemma_fundamental_div_mod_converse(d, n, 0, d);
    } else {
        lemma_fundamental_div_mod_converse(d, n, -1, d + n);
    }
    let r = exp_delta::<F>(prev, curr);
    if prev + r >= n {
        lemma_fundamental_div_mod_converse(prev + r, n, 1, curr);
    } else if prev + r >= 0 {
        lemma_fundamental_div_mod_converse(prev + r, n, 0, curr);
    } else {
        lemma_fundamental_div_mod_converse(prev + r, n, -1, curr);
    }
}

pub(crate) fn exp_modulus_exec<F: IEEEFloat>() -> (r: u16)
    ensures
        r == exp_modulus::<F>(),
        4 <= r <= 2048,
{
    proof {
        lemma_shape_facts::<F>();
    }
    let e = F::exp_bits() as u16;
    proof {
        lemma_u16_shl_is_mul(1, e);
    }
    1u16 << e
}

/// Assembles the bit pattern with the given sign, exponent and mantissa;
/// exponent and mantissa bits beyond their fields' widths are masked off.
pub fn from_parts<F: IEEEFloat>(sign: bool, exp: u16, mantissa: u64) -> (r: u64)
    ensures
        r == compose::<F>(sign, exp as nat % pow2(ebits::<F>()), mantissa as nat % pow2(
            mbits::<F>(),
        )),
        is_pattern::<F>(r),
{
    proof {
        lemma_shape_facts::<F>();
        if total_bits::<F>() < 64 {
            vstd::arithmetic::power2::lemma_pow2_strictly_increases(total_bits::<F>(), 64);
        }
        lemma2_to64();
        vstd::arithmetic::power2::lemma2_to64_rest();
    }
    let e = F::exp_bits();
    let m = F::mantissa_bits();
    proof {
        vstd::bits::lemma_u64_pow2_no_overflow(e as nat);
        vstd::bits::lemma_u64_pow2_no_overflow(m as nat);
        lemma_u64_shl_is_mul(1, e);
        lemma_u64_shl_is_mul(1, m);
        lemma_u64_low_bits_mask_is_mod(exp as u64, e as nat);
        lemma_u64_low_bits_mask_is_mod(mantissa, m as nat);
    }
    let exp_mask: u64 = (1u64 << e) - 1;
    let mantissa_mask: u64 = (1u64 << m) - 1;
    assert(exp_mask == low_bits_mask(e as nat));
    assert(mantissa_mask == low_bits_mask(m as nat));
    let ex: u64 = (exp as u64) & exp_mask;
    let mt: u64 = mantissa & mantissa_mask;
    proof {
        lemma_fields_of_compose::<F>(sign, ex as nat, mt as nat);
        lemma_u64_shl_is_mul(1, (e + m) as u64);
        assert(ex * pow2(m as nat) <= u64::MAX) by (nonlinear_arith)
            requires
                ex < pow2(e as nat),
                pow2(e as nat) * pow2(m as nat) < u64::MAX,
        ;
        lemma_u64_shl_is_mul(ex, m);
    }
    let x1: u64 = if sign {
        1u64 << (e + m)
    } else {
        0u64
    };
    let x2: u64 = ex << m;
    x1 + x2 + mt
}

/// The sign bit of `v`.
pub fn get_sign<F: IEEEFloat>(v: u64) -> (r: bool)
    ensures
        r == sign_field::<F>(v),
{
    proof {
        lemma_shape_facts::<F>();
    }
    let e = F::exp_bits();
    let m = F::mantissa_bits();
    let t = v >> (e + m);
    proof {
        lemma_u64_shr_is_div(v, (e + m) as u64);
        assert(t & 1 == t % 2) by (bit_vector);
    }
    t & 1 == 1
}

/// The exponent field of `v`.
pub fn get_exp<F: IEEEFloat>(v: u64) -> (r: u16)
    ensures
        r == exp_field::<F>(v),
        r < exp_modulus::<F>(),
{
    proof {
        lemma_shape_facts::<F>();
    }
    let e = F::exp_bits();
    let m = F::mantissa_bits();
    let t = v >> m;
    proof {
        lemma_u64_shr_is_div(v, m);
        lemma_u64_shl_is_mul(1, e);
        lemma_pow2_pos(e as nat);
        lemma_u64_low_bits_mask_is_mod(t, e as nat);
    }
    let mask: u64 = (1u64 << e) - 1;
    assert(mask == low_bits_mask(e as nat));
    (t & mask) as u16
}

/// The mantissa field of `v`.
pub fn get_mantissa<F: IEEEFloat>(v: u64) -> (r: u64)
    ensures
        r == mantissa_field::<F>(v),
        r < pow2(mbits::<F>()),
{
    proof {
        lemma_shape_facts::<F>();
    }
    let m = F::mantissa_bits();
    proof {
        vstd::bits::lemma_u64_pow2_no_overflow(m as nat);
        lemma_u64_shl_is_mul(1, m);
        lemma_u64_low_bits_mask_is_mod(v, m as nat);
    }
    let mask: u64 = (1u64 << m) - 1;
    assert(mask == low_bits_mask(m as nat));
    v & mask
}

/// The centred modular difference from exponent `prev` to exponent `curr`.
pub fn exp_diff<F: IEEEFloat>(prev: u16, curr: u16) -> (r: i16)
    requires
        prev < exp_modulus::<F>(),
        curr < exp_modulus::<F>(),
    ensures
        r == exp_delta::<F>(prev as int, curr as int),
        in_centred_range::<F>(r as int),
{
    proof {
        lemma_shape_facts::<F>();
        lemma_exp_modular::<F>(prev as int, curr as int);
    }
    let bound = exp_modulus_exec::<F>();
    let t: u16 = (curr + bound) - prev;
    let ediff = (t % bound) as i16;
    proof {
        let n = bound as int;
        let d = curr as int - prev as int;
        if d >= 0 {
            lemma_fundamental_div_mod_converse(t as int, n, 1, d);
            lemma_fundamental_div_mod_converse(d, n, 0, d);
        } else {
            lemma_fundamental_div_mod_converse(t as int, n, 0, d + n);
            lemma_fundamental_div_mod_converse(d, n, -1, d + n);
        }
    }
    let half = (bound / 2) as i16;
    if ediff <= half {
        ediff
    } else {
        ediff - (bound as i16)
    }
}

/// The exponent reached from `prev` by a step of `delta`, modulo the
/// exponent modulus; `delta` may be any value within one modulus of zero.
pub fn exp_adv<F: IEEEFloat>(prev: u16, delta: i16) -> (r: u16)
    requires
        prev < exp_modulus::<F>(),
        -exp_modulus::<F>() <= delta <= exp_modulus::<F>(),
    ensures
        r == exp_step::<F>(prev as int, delta as int),
        r < exp_modulus::<F>(),
{
    proof {
        lemma_shape_facts::<F>();
    }
    let bound = exp_modulus_exec::<F>();
    let unsigned = (delta + bound as i16) as u16;
    let r = (prev + unsigned) % bound;
    proof {
        let n = bound as int;
        let s = prev as int + delta as int;
        if s < 0 {
            lemma_fundamental_div_mod_converse(s + n, n, 0, s + n);
            lemma_fundamental_div_mod_converse(s, n, -1, s + n);
        } else if s < n {
            lemma_fundamental_div_mod_converse(s + n, n, 1, s);
            lemma_fundamental_div_mod_converse(s, n, 0, s);
        } else {
            lemma_fundamental_div_mod_converse(s + n, n, 2, s - n);
            lemma_fundamental_div_mod_converse(s, n, 1, s - n);
        }
    }
    r
}

} // verus!

verus! {

/// Whether `value` has exactly the given fields and is rebuilt from them.
pub fn test_binary<F: IEEEFloat>(value: u64, sign: bool, exp: u16, mantissa: u64) -> (r: bool)
    ensures
        r == (sign_field::<F>(value) == sign && exp_field::<F>(value) == exp
            && mantissa_field::<F>(value) == mantissa && compose::<F>(
            sign,
            exp as nat,
            mantissa as nat,
        ) == value),
{
    if get_sign::<F>(value) != sign || get_exp::<F>(value) != exp || get_mantissa::<F>(value)
        != mantissa {
        return false;
    }
    proof {
        lemma_shape_facts::<F>();
        vstd::arithmetic::div_mod::lemma_small_mod(exp as nat, pow2(ebits::<F>()));
        vstd::arithmetic::div_mod::lemma_small_mod(mantissa as nat, pow2(mbits::<F>()));
    }
    from_parts::<F>(sign, exp, mantissa) == value
}

/// Checks, over every pair of exponents, that the centred delta lies in
/// `(-half, half]` and that stepping by it leads back; always true.
pub fn test_exp_modular<F: IEEEFloat>() -> (r: bool)
    ensures
        r,
{
    let bound = exp_modulus_exec::<F>();
    let half = (bound / 2) as i16;
    proof {
        lemma_shape_facts::<F>();
    }
    let mut e1: u16 = 0;
    while e1 < bound
        invariant
            bound == exp_modulus::<F>(),
            half == exp_half::<F>(),
            4 <= bound <= 2048,
        decreases bound - e1,
    {
        let mut e2: u16 = 0;
        while e2 < bound
            invariant
                bound == exp_modulus::<F>(),
                half == exp_half::<F>(),
                4 <= bound <= 2048,
                e1 < bound,
            decreases bound - e2,
        {
            let ed = exp_diff::<F>(e1, e2);
            if ed > half || ed <= -half {
                return false;
            }
            proof {
                lemma_exp_modular::<F>(e1 as int, e2 as int);
            }
            if exp_adv::<F>(e1, ed) != e2 {
                return false;
            }
            e2 = e2 + 1;
        }
        e1 = e1 + 1;
    }
    true
}

} // verus!
