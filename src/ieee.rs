//! IEEE-754 binary64 values handled through their raw `u64` representation.
//!
//! A double is `sign | 11-bit raw exponent | 52-bit mantissa`, most significant
//! bit first. Working on the bits keeps every operation exact.
use vstd::arithmetic::div_mod::{lemma_fundamental_div_mod, lemma_fundamental_div_mod_converse};
use vstd::arithmetic::power2::{
    lemma2_to64, lemma2_to64_rest, lemma_pow2_adds, lemma_pow2_pos, lemma_pow2_strictly_increases,
    lemma_pow2_unfold, pow2,
};
use vstd::bits::{lemma_u64_low_bits_mask_is_mod, lemma_u64_shl_is_mul, low_bits_mask};
use vstd::prelude::*;

use crate::error::{Error, ErrorKind};

verus! {

/// Raw exponent of infinities and NaNs.
pub const RAW_EXPONENT_SPECIAL: u16 = 0x7ff;

/// Bias between the raw and the unbiased exponent.
pub const EXPONENT_BIAS: i16 = 1023;

/// The sign bit of `bits`.
pub open spec fn sign_of(bits: u64) -> bool {
    (bits >> 63u64) & 1u64 == 1u64
}

/// The raw (biased) exponent field of `bits`.
pub open spec fn raw_exponent_of(bits: u64) -> u64 {
    (bits >> 52u64) & 0x7ffu64
}

/// The mantissa field of `bits`.
pub open spec fn mantissa_of(bits: u64) -> u64 {
    bits & 0xf_ffff_ffff_ffffu64
}

/// The bits with the given sign, raw exponent and mantissa fields laid side by side.
pub open spec fn compose(sign: bool, raw_exponent: u64, mantissa: u64) -> u64 {
    ((if sign { 1u64 } else { 0u64 }) << 63u64) | (raw_exponent << 52u64) | mantissa
}

/// Whether `bits` encodes a finite value (neither an infinity nor a NaN).
pub open spec fn is_finite(bits: u64) -> bool {
    raw_exponent_of(bits) != 0x7ff
}

/// Splitting `bits` into its fields and laying them side by side again gives `bits` back.
pub proof fn lemma_compose_fields(bits: u64)
    ensures
        compose(sign_of(bits), raw_exponent_of(bits), mantissa_of(bits)) == bits,
{
    if (bits >> 63u64) & 1u64 == 1u64 {
        assert((bits >> 63u64) & 1u64 == 1u64 ==> (1u64 << 63u64) | (((bits >> 52u64) & 0x7ffu64)
            << 52u64) | (bits & 0xf_ffff_ffff_ffffu64) == bits) by (bit_vector);
    } else {
        assert((bits >> 63u64) & 1u64 != 1u64 ==> (0u64 << 63u64) | (((bits >> 52u64) & 0x7ffu64)
            << 52u64) | (bits & 0xf_ffff_ffff_ffffu64) == bits) by (bit_vector);
    }
}

/// The fields of a composed value are the parts it was composed from.
pub proof fn lemma_fields_of_compose(sign: bool, raw_exponent: u64, mantissa: u64)
    requires
        raw_exponent <= 0x7ff,
        mantissa <= 0xf_ffff_ffff_ffff,
    ensures
        sign_of(compose(sign, raw_exponent, mantissa)) == sign,
        raw_exponent_of(compose(sign, raw_exponent, mantissa)) == raw_exponent,
        mantissa_of(compose(sign, raw_exponent, mantissa)) == mantissa,
{
    let s: u64 = if sign { 1u64 } else { 0u64 };
    assert(s <= 1 && raw_exponent <= 0x7ff && mantissa <= 0xf_ffff_ffff_ffff ==> {
        let b = (s << 63u64) | (raw_exponent << 52u64) | mantissa;
        &&& (b >> 63u64) & 1u64 == s
        &&& (b >> 52u64) & 0x7ffu64 == raw_exponent
        &&& b & 0xf_ffff_ffff_ffffu64 == mantissa
    }) by (bit_vector);
}

/// Splits `bits` into its sign, raw exponent and mantissa fields.
pub fn decompose_raw(bits: u64) -> (r: (bool, u16, u64))
    ensures
        r.0 == sign_of(bits),
        r.1 as u64 == raw_exponent_of(bits),
        r.2 == mantissa_of(bits),
        r.1 <= 0x7ff,
        r.2 <= 0xf_ffff_ffff_ffff,
{
    assert((bits >> 52u64) & 0x7ffu64 <= 0x7ff) by (bit_vector);
    assert(bits & 0xf_ffff_ffff_ffffu64 <= 0xf_ffff_ffff_ffff) by (bit_vector);
    let sign = (bits >> 63u64) & 1u64 == 1u64;
    let raw_exponent = ((bits >> 52u64) & 0x7ffu64) as u16;
    let mantissa = bits & 0xf_ffff_ffff_ffffu64;
    (sign, raw_exponent, mantissa)
}

/// Lays a sign, a raw exponent and a mantissa side by side.
pub fn recompose_raw(sign: bool, raw_exponent: u16, mantissa: u64) -> (r: u64)
    ensures
        r == compose(sign, raw_exponent as u64, mantissa),
{
    let s: u64 = if sign { 1 } else { 0 };
    (s << 63u64) | ((raw_exponent as u64) << 52u64) | mantissa
}

/// Splits `bits` into its sign, unbiased exponent and mantissa.
pub fn decompose(bits: u64) -> (r: (bool, i16, u64))
    ensures
        r.0 == sign_of(bits),
        r.1 == raw_exponent_of(bits) - 1023,
        r.2 == mantissa_of(bits),
{
    let (sign, raw_exponent, mantissa) = decompose_raw(bits);
    (sign, raw_exponent as i16 - EXPONENT_BIAS, mantissa)
}

/// Lays a sign, an unbiased exponent and a mantissa side by side.
pub fn recompose(sign: bool, exponent: i16, mantissa: u64) -> (r: u64)
    requires
        -1023 <= exponent <= 1024,
    ensures
        r == compose(sign, (exponent + 1023) as u64, mantissa),
{
    recompose_raw(sign, (exponent + EXPONENT_BIAS) as u16, mantissa)
}

/// The mantissa bits that stand for whole multiples of `2^m` when the value's
/// exponent exceeds `m` by `k`: the top `k` of the 52.
pub open spec fn integer_mask(k: u64) -> u64 {
    (((1u64 << k) - 1u64) as u64) << ((52u64 - k) as u64)
}

/// The low `d` bits.
pub open spec fn low_mask(d: u64) -> u64 {
    ((1u64 << d) - 1u64) as u64
}

/// Whether `bits` encodes a multiple of `2^m`: zero, or a normal value whose
/// significand `1.mantissa * 2^e` has no set bit below `2^m`.
pub open spec fn is_multiple_of_lambda(bits: u64, m: int) -> bool {
    let e = raw_exponent_of(bits);
    let mant = mantissa_of(bits);
    let k = e - 1023 - m;
    ||| (e == 0 && mant == 0)
    ||| (0 < e < 0x7ff && (k >= 52 || (0 <= k && mant & low_mask((52 - k) as u64) == 0)))
}

/// The multiple of `2^m` closest to the value that `bits` encodes, as bits.
///
/// With `k` the amount by which the value's exponent exceeds `m`, the magnitude
/// is rounded to the nearest multiple of `2^m`, halves away from zero: bits of
/// the mantissa below `2^m` are dropped and the first dropped bit decides
/// whether one unit of `2^m` is added (which may carry into the exponent). A
/// value already coarser than `2^m` (`k >= 52`), an infinity and a NaN are
/// kept; a magnitude in `[2^(m-1), 2^m)` becomes `2^m`; a smaller one becomes
/// zero. The sign is kept throughout.
pub open spec fn closest_multiple_of_lambda(bits: u64, m: int) -> u64 {
    let s = sign_of(bits);
    let e = raw_exponent_of(bits);
    let mant = mantissa_of(bits);
    let k = e - 1023 - m;
    if e == 0x7ff || k >= 52 {
        bits
    } else if k == -1 {
        compose(s, (m + 1023) as u64, 0)
    } else if k < -1 {
        compose(s, 0, 0)
    } else {
        let mask = integer_mask(k as u64);
        let kept = mant & mask;
        if mant & (1u64 << (51 - k) as u64) == 0 {
            compose(s, e, kept)
        } else if kept == mask {
            compose(s, (e + 1) as u64, 0)
        } else {
            compose(s, e, (kept + (1u64 << (52 - k) as u64)) as u64)
        }
    }
}

/// Finds the multiple of `lambda = 2^m` closest to the double whose bits are `x`.
///
/// `m` must lie in `[-1021, 1023]`: `2^m` is then a normal double and every
/// value below `2^(m-1)` in magnitude, subnormals included, rounds to zero.
/// Other values of `m` give `InvalidParameter`.
pub fn get_closest_multiple_of_lambda(x: u64, m: i16) -> (r: Result<u64, Error>)
    ensures
        r is Ok <==> -1021 <= m <= 1023,
        r is Ok ==> r->Ok_0 == closest_multiple_of_lambda(x, m as int),
        r is Err ==> r->Err_0.kind == ErrorKind::InvalidParameter,
{
    if m < -1021 || m > 1023 {
        return Err(Error::new(ErrorKind::InvalidParameter, "m must lie in [-1021, 1023]"));
    }
    let (sign, raw_exponent, mantissa) = decompose_raw(x);
    if raw_exponent == RAW_EXPONENT_SPECIAL {
        return Ok(x);
    }
    let k: i32 = raw_exponent as i32 - EXPONENT_BIAS as i32 - m as i32;
    if k >= 52 {
        Ok(x)
    } else if k == -1 {
        Ok(recompose_raw(sign, (m + EXPONENT_BIAS) as u16, 0))
    } else if k < -1 {
        Ok(recompose_raw(sign, 0, 0))
    } else {
        let ku = k as u64;
        assert(ku < 52 ==> 1u64 <= (1u64 << ku)) by (bit_vector);
        let mask: u64 = ((1u64 << ku) - 1) << (52 - ku);
        let kept: u64 = mantissa & mask;
        if mantissa & (1u64 << (51 - ku)) == 0 {
            Ok(recompose_raw(sign, raw_exponent, kept))
        } else if kept == mask {
            Ok(recompose_raw(sign, raw_exponent + 1, 0))
        } else {
            assert(ku < 52 && kept == mantissa & mask && mask == (((1u64 << ku) - 1u64) as u64) << ((52u64 - ku) as u64)
                && kept != mask ==> kept + (1u64 << ((52u64 - ku) as u64)) <= 0xf_ffff_ffff_ffffu64) by (bit_vector);
            Ok(recompose_raw(sign, raw_exponent, kept + (1u64 << (52 - ku))))
        }
    }
}

/// Bit facts about the mask of the top `k` mantissa bits, for `k < 52`.
proof fn lemma_integer_mask_facts(mant: u64, k: u64)
    requires
        k < 52,
        mant <= 0xf_ffff_ffff_ffff,
    ensures
        integer_mask(k) <= 0xf_ffff_ffff_ffff,
        (mant & integer_mask(k)) <= 0xf_ffff_ffff_ffff,
        (mant & integer_mask(k)) & low_mask((52 - k) as u64) == 0,
        (mant & integer_mask(k)) != integer_mask(k) ==> ((mant & integer_mask(k)) + (1u64 << (52
            - k) as u64)) as u64 & low_mask((52 - k) as u64) == 0,
        mant & low_mask((52 - k) as u64) == 0 ==> mant & integer_mask(k) == mant && mant & (1u64
            << (51 - k) as u64) == 0,
{
    let d = (52 - k) as u64;
    assert(k < 52 && d == 52 - k ==> (((1u64 << k) - 1u64) as u64) << d <= 0xf_ffff_ffff_ffffu64)
        by (bit_vector);
    assert(mant <= 0xf_ffff_ffff_ffffu64 && k < 52 && d == 52 - k ==> (mant & ((((1u64 << k)
        - 1u64) as u64) << d)) <= 0xf_ffff_ffff_ffffu64) by (bit_vector);
    assert(k < 52 && d == 52 - k ==> (mant & ((((1u64 << k) - 1u64) as u64) << d)) & (((1u64
        << d) - 1u64) as u64) == 0) by (bit_vector);
    assert(k < 52 && d == 52 - k && (mant & ((((1u64 << k) - 1u64) as u64) << d)) != ((((1u64
        << k) - 1u64) as u64) << d) ==> (((mant & ((((1u64 << k) - 1u64) as u64) << d)) + (1u64
        << d)) as u64) & (((1u64 << d) - 1u64) as u64) == 0) by (bit_vector);
    assert(mant <= 0xf_ffff_ffff_ffffu64 && k < 52 && d == 52 - k && mant & (((1u64 << d)
        - 1u64) as u64) == 0 ==> mant & ((((1u64 << k) - 1u64) as u64) << d) == mant && mant & (1u64
        << ((51u64 - k) as u64)) == 0) by (bit_vector);
}

/// Every result of the rounding is a multiple of `2^m`, unless the rounding
/// overflowed to infinity or the input was an infinity or a NaN.
pub proof fn lemma_closest_is_multiple(bits: u64, m: int)
    requires
        -1021 <= m <= 1023,
    ensures
        is_multiple_of_lambda(closest_multiple_of_lambda(bits, m), m) || !is_finite(
            closest_multiple_of_lambda(bits, m),
        ),
{
    let s = sign_of(bits);
    let e = raw_exponent_of(bits);
    let mant = mantissa_of(bits);
    let k = e - 1023 - m;
    let r = closest_multiple_of_lambda(bits, m);
    assert(e <= 0x7ff && mant <= 0xf_ffff_ffff_ffff) by (bit_vector)
        requires e == (bits >> 52u64) & 0x7ffu64 && mant == bits & 0xf_ffff_ffff_ffffu64;
    assert(0u64 & low_mask(52u64) == 0) by (bit_vector);
    if e == 0x7ff || k >= 52 {
    } else if k == -1 {
        lemma_fields_of_compose(s, (m + 1023) as u64, 0);
    } else if k < -1 {
        lemma_fields_of_compose(s, 0, 0);
    } else {
        let ku = k as u64;
        lemma_integer_mask_facts(mant, ku);
        let mask = integer_mask(ku);
        let kept = mant & mask;
        if mant & (1u64 << (51 - k) as u64) == 0 {
            lemma_fields_of_compose(s, e, kept);
        } else if kept == mask {
            lemma_fields_of_compose(s, (e + 1) as u64, 0);
            let d = (52 - (k + 1)) as u64;
            assert(0u64 & (((1u64 << d) - 1u64) as u64) == 0) by (bit_vector);
        } else {
            assert(kept + (1u64 << ((52u64 - ku) as u64)) <= 0xf_ffff_ffff_ffffu64) by (bit_vector)
                requires
                    ku < 52 && kept == mant & mask && mask == (((1u64 << ku) - 1u64) as u64) << ((52u64
                        - ku) as u64) && kept != mask;
            lemma_fields_of_compose(s, e, (kept + (1u64 << (52 - k) as u64)) as u64);
        }
    }
}

/// A multiple of `2^m`, an infinity and a NaN are kept by the rounding.
pub proof fn lemma_closest_keeps_multiple(bits: u64, m: int)
    requires
        -1021 <= m <= 1023,
        is_multiple_of_lambda(bits, m) || !is_finite(bits),
    ensures
        closest_multiple_of_lambda(bits, m) == bits,
{
    let e = raw_exponent_of(bits);
    let mant = mantissa_of(bits);
    let k = e - 1023 - m;
    assert(mant <= 0xf_ffff_ffff_ffff) by (bit_vector)
        requires mant == bits & 0xf_ffff_ffff_ffffu64;
    lemma_compose_fields(bits);
    if e == 0x7ff || k >= 52 {
    } else if e == 0 {
    } else {
        lemma_integer_mask_facts(mant, k as u64);
    }
}

/// Rounding to the lattice of multiples of `2^m` is idempotent: rounding an
/// already rounded value changes nothing.
pub proof fn lemma_closest_multiple_idempotent(bits: u64, m: int)
    requires
        -1021 <= m <= 1023,
    ensures
        closest_multiple_of_lambda(closest_multiple_of_lambda(bits, m), m)
            == closest_multiple_of_lambda(bits, m),
{
    lemma_closest_is_multiple(bits, m);
    lemma_closest_keeps_multiple(closest_multiple_of_lambda(bits, m), m);
}

/// Whether `bits` encodes a NaN.
pub open spec fn is_nan(bits: u64) -> bool {
    raw_exponent_of(bits) == 0x7ff && mantissa_of(bits) != 0
}

/// The place of the value that `bits` encodes on the number line, for any
/// double but a NaN: minus its magnitude bits when the sign is set, its
/// magnitude bits otherwise. IEEE-754 orders magnitudes like their bits, so
/// `x < y` exactly when `order_key(x) < order_key(y)`, and the two zeros
/// share the key zero.
pub open spec fn order_key(bits: u64) -> int {
    let magnitude = (bits & 0x7fff_ffff_ffff_ffffu64) as int;
    if sign_of(bits) {
        -magnitude
    } else {
        magnitude
    }
}

/// The double `x` clipped to `[lower, upper]`, all given as bits.
///
/// Bounds that are not finite or are out of order, and a NaN `x`, give
/// `InvalidParameter`.
pub fn clamp_bits(x: u64, lower: u64, upper: u64) -> (r: Result<u64, Error>)
    ensures
        r is Ok <==> is_finite(lower) && is_finite(upper) && order_key(lower) <= order_key(upper)
            && !is_nan(x),
        r is Ok ==> r->Ok_0 == (if order_key(x) < order_key(lower) {
            lower
        } else if order_key(x) > order_key(upper) {
            upper
        } else {
            x
        }),
        r is Ok ==> order_key(lower) <= order_key(r->Ok_0) <= order_key(upper),
        r is Err ==> r->Err_0.kind == ErrorKind::InvalidParameter,
{
    let (_, lower_exponent, _) = decompose_raw(lower);
    let (_, upper_exponent, _) = decompose_raw(upper);
    let (_, x_exponent, x_mantissa) = decompose_raw(x);
    if lower_exponent == RAW_EXPONENT_SPECIAL || upper_exponent == RAW_EXPONENT_SPECIAL {
        return Err(Error::new(ErrorKind::InvalidParameter, "bounds must be finite"));
    }
    if x_exponent == RAW_EXPONENT_SPECIAL && x_mantissa != 0 {
        return Err(Error::new(ErrorKind::InvalidParameter, "the value may not be NaN"));
    }
    let key_x = key_of(x);
    let key_lower = key_of(lower);
    let key_upper = key_of(upper);
    if key_lower > key_upper {
        return Err(Error::new(ErrorKind::InvalidParameter, "lower bound exceeds upper bound"));
    }
    if key_x < key_lower {
        Ok(lower)
    } else if key_x > key_upper {
        Ok(upper)
    } else {
        Ok(x)
    }
}

fn key_of(bits: u64) -> (r: i64)
    ensures
        r == order_key(bits),
{
    let magnitude = bits & 0x7fff_ffff_ffff_ffffu64;
    assert(bits & 0x7fff_ffff_ffff_ffffu64 <= 0x7fff_ffff_ffff_ffffu64) by (bit_vector);
    if (bits >> 63u64) & 1u64 == 1u64 {
        -(magnitude as i64)
    } else {
        magnitude as i64
    }
}

/// The integer significand of a finite double: the mantissa, with the hidden
/// leading bit of a normal value.
pub open spec fn significand(bits: u64) -> int {
    if raw_exponent_of(bits) == 0 {
        mantissa_of(bits) as int
    } else {
        pow2(52) + mantissa_of(bits)
    }
}

/// The power of two that scales the significand of a finite double: its
/// magnitude is `significand(bits) * 2^binary_scale(bits)`.
pub open spec fn binary_scale(bits: u64) -> int {
    if raw_exponent_of(bits) == 0 {
        -1074
    } else {
        raw_exponent_of(bits) - 1075
    }
}

/// The magnitude of a finite double measured in units of `2^m`, rounded to
/// the nearest integer, halves up.
pub open spec fn units_of_lambda(bits: u64, m: int) -> int {
    let shift = binary_scale(bits) - m;
    if shift >= 0 {
        significand(bits) * pow2(shift as nat)
    } else {
        (significand(bits) + pow2((-shift - 1) as nat)) / (pow2((-shift) as nat) as int)
    }
}

proof fn lemma_div_parts(q: int, d: int, r: int)
    requires
        d > 0,
        0 <= r < d,
    ensures
        (q * d + r) / d == q,
{
    lemma_fundamental_div_mod_converse(q * d + r, d, q, r);
}

/// Bit facts of the rounding step turned into arithmetic on `P = 2^d`, `d = 52 - k`.
proof fn lemma_mask_arithmetic(mant: u64, k: u64)
    requires
        k < 52,
        mant <= 0xf_ffff_ffff_ffff,
    ensures
        ({
            let d = (52 - k) as nat;
            let p = pow2(d) as int;
            let h = pow2((d - 1) as nat) as int;
            &&& p == 2 * h
            &&& (1u64 << ((52 - k) as u64)) as int == p
            &&& (mant & integer_mask(k)) as int == mant as int - (mant as int) % p
            &&& (mant & (1u64 << ((51 - k) as u64)) == 0 <==> (mant as int) % p < h)
            &&& integer_mask(k) as int == pow2(52) - p
            &&& pow2(52) == p * pow2(k as nat)
        }),
{
    let d = (52 - k) as u64;
    lemma_pow2_unfold(d as nat);
    vstd::bits::lemma_u64_pow2_no_overflow(d as nat);
    vstd::bits::lemma_u64_pow2_no_overflow((d - 1) as nat);
    lemma_u64_shl_is_mul(1, d);
    lemma_u64_shl_is_mul(1, (d - 1) as u64);
    lemma_u64_low_bits_mask_is_mod(mant, d as nat);
    vstd::bits::lemma_low_bits_mask_values();
    lemma_pow2_adds(k as nat, d as nat);
    lemma2_to64_rest();
    assert(low_bits_mask(d as nat) == pow2(d as nat) - 1) by {
        vstd::bits::lemma_low_bits_mask_unfold(d as nat);
        vstd::bits::lemma_low_bits_mask_div2(d as nat);
        reveal(low_bits_mask);
    }
    assert(mant <= 0xf_ffff_ffff_ffffu64 && k < 52 && d == 52 - k ==> (mant & ((((1u64 << k) - 1u64)
        as u64) << d)) == mant - (mant & (((1u64 << d) - 1u64) as u64))) by (bit_vector);
    assert(k < 52 && d == 52 - k ==> ((mant & (1u64 << ((51u64 - k) as u64)) == 0) == ((mant & (((1u64
        << d) - 1u64) as u64)) < (1u64 << ((d - 1u64) as u64))))) by (bit_vector);
    assert(k < 52 && d == 52 - k ==> (((1u64 << k) - 1u64) as u64) << d == (1u64 << 52u64) - (1u64
        << d)) by (bit_vector);
    assert((1u64 << 52u64) == 0x10_0000_0000_0000u64) by (bit_vector);
    assert(((1u64 << d) - 1u64) as u64 == (pow2(d as nat) - 1) as u64);
    let p = pow2(d as nat) as int;
    let h = pow2((d - 1) as nat) as int;
    assert(p == 2 * h);
    assert((1u64 << ((52 - k) as u64)) as int == p);
    assert((mant & (((1u64 << d) - 1u64) as u64)) as int == (mant as int) % p);
    assert((mant & integer_mask(k)) as int == mant as int - (mant as int) % p);
    assert((mant & (1u64 << ((51 - k) as u64)) == 0 <==> (mant as int) % p < h));
    assert(integer_mask(k) as int == pow2(52) - p);
    assert((k + d) as nat == 52);
    assert(pow2(52) == pow2(k as nat) * pow2(d as nat));
    assert(pow2(52) == p * pow2(k as nat)) by (nonlinear_arith)
        requires
            pow2(52) == pow2(k as nat) * pow2(d as nat),
            p == pow2(d as nat),
    ;
}

proof fn lemma_rounds_below_half(sig: int, a: nat, bound: nat)
    requires
        bound <= a - 1,
        a >= 1,
        0 <= sig < pow2(bound),
    ensures
        (sig + pow2((a - 1) as nat)) / (pow2(a) as int) == 0,
{
    lemma_pow2_unfold(a);
    if bound < a - 1 {
        lemma_pow2_strictly_increases(bound, (a - 1) as nat);
    }
    lemma_div_parts(0, pow2(a) as int, sig + pow2((a - 1) as nat));
}

/// The rounding lands on the multiple of `2^m` nearest to the input, halves
/// away from zero: the sign is kept, and the magnitudes of the result and of
/// the input, each measured in units of `2^m` and rounded to the nearest
/// integer (halves up), agree. Unless it overflowed to infinity, the result
/// is itself a multiple of `2^m` (see `lemma_closest_is_multiple`).
pub proof fn lemma_closest_rounds_to_nearest(bits: u64, m: int)
    requires
        -1021 <= m <= 1023,
        is_finite(bits),
        is_finite(closest_multiple_of_lambda(bits, m)),
    ensures
        sign_of(closest_multiple_of_lambda(bits, m)) == sign_of(bits),
        units_of_lambda(closest_multiple_of_lambda(bits, m), m) == units_of_lambda(bits, m),
{
    let s = sign_of(bits);
    let e = raw_exponent_of(bits);
    let mant = mantissa_of(bits);
    let k = e - 1023 - m;
    let r = closest_multiple_of_lambda(bits, m);
    assert(e <= 0x7ff && mant <= 0xf_ffff_ffff_ffff) by (bit_vector)
        requires
            e == (bits >> 52u64) & 0x7ffu64 && mant == bits & 0xf_ffff_ffff_ffffu64,
    ;
    lemma2_to64();
    lemma2_to64_rest();
    lemma_pow2_unfold(53);
    if k >= 52 {
    } else if k == -1 {
        lemma_fields_of_compose(s, (m + 1023) as u64, 0);
        assert(binary_scale(r) - m == -52);
        lemma_div_parts(1, pow2(52) as int, pow2(51) as int);
        assert(binary_scale(bits) - m == -53);
        lemma_div_parts(1, pow2(53) as int, mant as int);
        assert(significand(bits) + pow2(52) == 1 * pow2(53) + mant);
    } else if k < -1 {
        lemma_fields_of_compose(s, 0, 0);
        let a = (1074 + m) as nat;
        assert(binary_scale(r) - m == -(a as int));
        lemma_pow2_pos(52);
        lemma_rounds_below_half(0, a, 52);
        if e == 0 {
            lemma_rounds_below_half(mant as int, a, 52);
        } else {
            lemma_rounds_below_half(significand(bits), (52 - k) as nat, 53);
        }
    } else {
        let ku = k as u64;
        lemma_integer_mask_facts(mant, ku);
        lemma_mask_arithmetic(mant, ku);
        let d = (52 - k) as nat;
        let p = pow2(d) as int;
        let h = pow2((d - 1) as nat) as int;
        let low = (mant as int) % p;
        let t = pow2(ku as nat) + (mant as int) / p;
        lemma_pow2_pos(d);
        lemma_fundamental_div_mod(mant as int, p);
        assert(significand(bits) == p * t + low) by (nonlinear_arith)
            requires
                significand(bits) == pow2(52) + mant,
                pow2(52) == p * pow2(ku as nat),
                mant == p * ((mant as int) / p) + low,
                t == pow2(ku as nat) + (mant as int) / p,
        ;
        assert(binary_scale(bits) - m == -(d as int));
        let mask = integer_mask(ku);
        let kept = mant & mask;
        assert(0 <= low < p);
        if mant & (1u64 << (51 - k) as u64) == 0 {
            lemma_fields_of_compose(s, e, kept);
            assert(significand(r) == p * t) by (nonlinear_arith)
                requires
                    significand(r) == pow2(52) + kept,
                    kept == mant - low,
                    significand(bits) == p * t + low,
                    significand(bits) == pow2(52) + mant,
            ;
            lemma_div_parts(t, p, h);
            lemma_div_parts(t, p, low + h);
            assert(p * t + h == t * p + h) by (nonlinear_arith);
            assert(p * t + low + h == t * p + (low + h)) by (nonlinear_arith);
        } else if kept == mask {
            lemma_fields_of_compose(s, (e + 1) as u64, 0);
            assert(low >= h);
            assert(mant - low == pow2(52) - p);
            assert(p * t == 2 * pow2(52) - p) by (nonlinear_arith)
                requires
                    significand(bits) == p * t + low,
                    significand(bits) == pow2(52) + mant,
                    mant - low == pow2(52) - p,
            ;
            lemma_div_parts(t + 1, p, low + h - p);
            assert(p * t + low + h == (t + 1) * p + (low + h - p)) by (nonlinear_arith);
            assert(units_of_lambda(bits, m) == t + 1);
            assert(p * (t + 1) == pow2(53)) by (nonlinear_arith)
                requires
                    p * t == 2 * pow2(52) - p,
                    pow2(53) == 2 * pow2(52),
            ;
            if d == 1 {
                assert(binary_scale(r) - m == 0);
                assert(p == 2);
                assert(units_of_lambda(r, m) == pow2(52));
                assert(t + 1 == pow2(52)) by (nonlinear_arith)
                    requires
                        p == 2,
                        p * (t + 1) == pow2(53),
                        pow2(53) == 2 * pow2(52),
                ;
            } else {
                assert(binary_scale(r) - m == -((d - 1) as int));
                lemma_pow2_unfold((d - 1) as nat);
                lemma_pow2_pos((d - 2) as nat);
                lemma_pow2_adds((d - 1) as nat, (53 - d) as nat);
                assert(((d - 1) + (53 - d)) as nat == 52);
                let q = pow2((53 - d) as nat) as int;
                assert(pow2(52) == h * q);
                lemma_div_parts(q, h, pow2((d - 2) as nat) as int);
                assert(pow2(52) + pow2((d - 2) as nat) == q * h + pow2((d - 2) as nat)) by (nonlinear_arith)
                    requires
                        pow2(52) == h * q,
                ;
                assert(units_of_lambda(r, m) == q);
                lemma_pow2_adds(d, (53 - d) as nat);
                assert((d + (53 - d)) as nat == 53);
                assert(pow2(53) == p * q);
                assert(t + 1 == q) by (nonlinear_arith)
                    requires
                        p * (t + 1) == pow2(53),
                        pow2(53) == p * q,
                        p > 0,
                ;
            }
        } else {
            assert(kept + (1u64 << ((52u64 - ku) as u64)) <= 0xf_ffff_ffff_ffffu64) by (bit_vector)
                requires
                    ku < 52 && kept == mant & mask && mask == (((1u64 << ku) - 1u64) as u64) << ((52u64
                        - ku) as u64) && kept != mask,
            ;
            lemma_fields_of_compose(s, e, (kept + (1u64 << (52 - k) as u64)) as u64);
            assert(low >= h);
            assert(significand(r) == p * (t + 1)) by (nonlinear_arith)
                requires
                    significand(r) == pow2(52) + kept + p,
                    kept == mant - low,
                    significand(bits) == p * t + low,
                    significand(bits) == pow2(52) + mant,
            ;
            lemma_div_parts(t + 1, p, h);
            lemma_div_parts(t + 1, p, low + h - p);
            assert(p * (t + 1) + h == (t + 1) * p + h) by (nonlinear_arith);
            assert(p * t + low + h == (t + 1) * p + (low + h - p)) by (nonlinear_arith);
        }
    }
}

} // verus!
