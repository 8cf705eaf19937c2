//! The integer and bit-level steps of the mechanisms' scalar kernels.
use vstd::arithmetic::power2::{lemma2_to64_rest, lemma_pow2_unfold, pow2};
use vstd::prelude::*;

use crate::array::{cell, Array};
use crate::error::{Error, ErrorKind};
use crate::ieee::{
    binary_scale, decompose_raw, mantissa_of, raw_exponent_of, sign_of, significand,
    RAW_EXPONENT_SPECIAL,
};

verus! {

/// `v` clipped to `[lo, hi]`.
pub open spec fn clamp(v: int, lo: int, hi: int) -> int {
    if v < lo {
        lo
    } else if v > hi {
        hi
    } else {
        v
    }
}

/// The release of the simple geometric mechanism: `value + noise`, with the
/// noise clipped to `[count_min - value, count_max - value]` so that the
/// release stays within `[count_min, count_max]`.
///
/// Bounds with `count_min > count_max` give `InvalidParameter`.
pub fn simple_geometric_release(value: i64, noise: i64, count_min: i64, count_max: i64) -> (r:
    Result<i64, Error>)
    ensures
        r is Ok <==> count_min <= count_max,
        r is Ok ==> r->Ok_0 == clamp(value + noise, count_min as int, count_max as int),
        r is Ok ==> count_min <= r->Ok_0 <= count_max,
        r is Err ==> r->Err_0.kind == ErrorKind::InvalidParameter,
{
    if count_min > count_max {
        return Err(Error::new(ErrorKind::InvalidParameter, "count_min may not exceed count_max"));
    }
    let sum: i128 = value as i128 + noise as i128;
    if sum < count_min as i128 {
        Ok(count_min)
    } else if sum > count_max as i128 {
        Ok(count_max)
    } else {
        Ok(sum as i64)
    }
}

/// The exponent `m` of the smallest power of two `2^m` at or above the
/// positive normal double whose bits are `lambda`: its unbiased exponent when
/// the mantissa is zero (it is itself a power of two), one more otherwise.
pub open spec fn power_of_two_ceiling(lambda: u64) -> int {
    raw_exponent_of(lambda) - 1023 + (if mantissa_of(lambda) == 0 {
        0int
    } else {
        1int
    })
}

/// Whether `bits` encodes a positive normal double.
pub open spec fn is_positive_normal(bits: u64) -> bool {
    !sign_of(bits) && 0 < raw_exponent_of(bits) < 0x7ff
}

/// `2^m`, for `m = power_of_two_ceiling(lambda)`, is the least power of two
/// at or above `lambda`: written `lambda = significand * 2^scale`, it holds
/// that `2^(m - 1) < lambda <= 2^m`, that is
/// `2^(m - scale - 1) < significand <= 2^(m - scale)`.
pub proof fn lemma_power_of_two_ceiling_bounds(lambda: u64)
    requires
        is_positive_normal(lambda),
    ensures
        ({
            let k = power_of_two_ceiling(lambda) - binary_scale(lambda);
            &&& 52 <= k <= 53
            &&& pow2((k - 1) as nat) < significand(lambda) <= pow2(k as nat)
        }),
{
    lemma2_to64_rest();
    lemma_pow2_unfold(53);
    assert(mantissa_of(lambda) <= 0xf_ffff_ffff_ffff) by (bit_vector)
        requires
            mantissa_of(lambda) == lambda & 0xf_ffff_ffff_ffffu64,
    ;
}

/// Rounds the noise scale `lambda` (as bits) up to a power of two `2^m` and
/// returns `m`, read off the exponent field.
///
/// A `lambda` that is not a positive normal double gives `InvalidParameter`.
pub fn get_smallest_greater_or_equal_power_of_two(lambda: u64) -> (r: Result<i16, Error>)
    ensures
        r is Ok <==> is_positive_normal(lambda),
        r is Ok ==> r->Ok_0 == power_of_two_ceiling(lambda),
        r is Err ==> r->Err_0.kind == ErrorKind::InvalidParameter,
{
    let (sign, raw_exponent, mantissa) = decompose_raw(lambda);
    if sign || raw_exponent == 0 || raw_exponent == RAW_EXPONENT_SPECIAL {
        return Err(Error::new(ErrorKind::InvalidParameter, "lambda must be a positive normal number"));
    }
    let exponent: i16 = raw_exponent as i16 - 1023;
    if mantissa == 0 {
        Ok(exponent)
    } else {
        Ok(exponent + 1)
    }
}

/// The value of a per-column argument for column `j`: its only value, or its
/// `j`-th one.
pub open spec fn column_argument(argument: Seq<i64>, j: int) -> i64 {
    if argument.len() == 1 {
        argument[0]
    } else {
        argument[j]
    }
}

/// Whether a per-column argument holds one value, or one per column.
pub open spec fn fits_columns(argument: Seq<i64>, num_columns: nat) -> bool {
    argument.len() == 1 || argument.len() == num_columns
}

/// Applies the simple geometric mechanism's release to every cell of an
/// integer array: cell `(i, j)` becomes `data(i, j) + noise(i, j)` clipped to
/// `[lower_j, upper_j]`, the bounds being per-column arguments.
///
/// Noise of another shape than the data, or bounds with neither one value nor
/// one per column, give `ShapeMismatch`; a column whose lower bound exceeds
/// its upper bound gives `InvalidParameter`.
pub fn simple_geometric_release_columns(
    data: &Array<i64>,
    noise: &Array<i64>,
    lower: &Array<i64>,
    upper: &Array<i64>,
) -> (r: Result<Array<i64>, Error>)
    requires
        data.wf(),
        noise.wf(),
    ensures
        r is Ok <==> noise.shape@ == data.shape@ && fits_columns(lower.data@, data.cols())
            && fits_columns(upper.data@, data.cols()) && forall|j: int|
            0 <= j < data.cols() ==> column_argument(lower.data@, j) <= column_argument(
                upper.data@,
                j,
            ),
        r is Ok ==> {
            let out = r->Ok_0;
            &&& out.wf()
            &&& out.shape@ == data.shape@
            &&& forall|i: int, j: int|
                0 <= i < data.rows() && 0 <= j < data.cols() ==> #[trigger] out.at(i, j) == clamp(
                    data.at(i, j) + noise.at(i, j),
                    column_argument(lower.data@, j) as int,
                    column_argument(upper.data@, j) as int,
                )
        },
        r is Err && noise.shape@ == data.shape@ && fits_columns(lower.data@, data.cols())
            && fits_columns(upper.data@, data.cols()) ==> r->Err_0.kind
            == ErrorKind::InvalidParameter,
        r is Err && !(noise.shape@ == data.shape@ && fits_columns(lower.data@, data.cols())
            && fits_columns(upper.data@, data.cols())) ==> r->Err_0.kind == ErrorKind::ShapeMismatch,
{
    let rank = data.shape.len();
    let mut same_shape = noise.shape.len() == rank;
    let mut a: usize = 0;
    while a < rank && same_shape
        invariant
            rank == data.shape@.len(),
            a <= rank,
            same_shape ==> noise.shape@.len() == rank,
            same_shape ==> forall|b: int| 0 <= b < a ==> noise.shape@[b] == data.shape@[b],
            !same_shape ==> noise.shape@ != data.shape@,
        decreases rank - a,
    {
        if noise.shape[a] != data.shape[a] {
            same_shape = false;
        }
        a = a + 1;
    }
    if !same_shape {
        return Err(Error::new(ErrorKind::ShapeMismatch, "noise must have the shape of the data"));
    }
    assert(noise.shape@ =~= data.shape@);
    let rows: usize = if rank == 0 {
        1
    } else {
        data.shape[0]
    };
    let cols: usize = if rank == 2 {
        data.shape[1]
    } else {
        1
    };
    let n_lower = lower.data.len();
    let n_upper = upper.data.len();
    if !(n_lower == 1 || n_lower == cols) || !(n_upper == 1 || n_upper == cols) {
        return Err(
            Error::new(ErrorKind::ShapeMismatch, "bounds must hold one value or one per column"),
        );
    }
    let mut j: usize = 0;
    while j < cols
        invariant
            cols == data.cols(),
            noise.shape@ == data.shape@,
            n_lower == lower.data@.len() && n_upper == upper.data@.len(),
            fits_columns(lower.data@, cols as nat) && fits_columns(upper.data@, cols as nat),
            j <= cols,
            forall|k: int|
                0 <= k < j ==> column_argument(lower.data@, k) <= column_argument(upper.data@, k),
        decreases cols - j,
    {
        let lo = if n_lower == 1 {
            lower.data[0]
        } else {
            lower.data[j]
        };
        let hi = if n_upper == 1 {
            upper.data[0]
        } else {
            upper.data[j]
        };
        assert(lo == column_argument(lower.data@, j as int) && hi == column_argument(upper.data@, j as int));
        if lo > hi {
            return Err(Error::new(ErrorKind::InvalidParameter, "lower bound exceeds upper bound"));
        }
        j = j + 1;
    }
    let mut out: Vec<i64> = Vec::new();
    let mut k: usize = 0;
    let n = data.data.len();
    while k < n
        invariant
            n == data.data@.len() && n == noise.data@.len(),
            data.wf(),
            noise.shape@ == data.shape@,
            cols == data.cols(),
            n == data.rows() * cols,
            n_lower == lower.data@.len() && n_upper == upper.data@.len(),
            fits_columns(lower.data@, cols as nat) && fits_columns(upper.data@, cols as nat),
            forall|c: int|
                0 <= c < cols ==> column_argument(lower.data@, c) <= column_argument(upper.data@, c),
            k <= n,
            out@.len() == k,
            forall|t: int|
                0 <= t < k ==> #[trigger] out@[t] == clamp(
                    data.data@[t] + noise.data@[t],
                    column_argument(lower.data@, t % cols as int) as int,
                    column_argument(upper.data@, t % cols as int) as int,
                ),
        decreases n - k,
    {
        assert(cols > 0) by (nonlinear_arith)
            requires
                k < n,
                n == data.rows() * cols,
        ;
        let column = k % cols;
        let lo = if n_lower == 1 {
            lower.data[0]
        } else {
            lower.data[column]
        };
        let hi = if n_upper == 1 {
            upper.data[0]
        } else {
            upper.data[column]
        };
        assert(lo == column_argument(lower.data@, column as int) && hi == column_argument(upper.data@, column as int));
        assert(lo <= hi);
        let released = match simple_geometric_release(data.data[k], noise.data[k], lo, hi) {
            Ok(v) => v,
            Err(e) => {
                return Err(e);
            },
        };
        out.push(released);
        k = k + 1;
    }
    proof {
        assert forall|i: int, j: int| 0 <= i < data.rows() && 0 <= j < data.cols() implies
            #[trigger] cell(out@, cols as nat, i, j) == clamp(
            data.at(i, j) + noise.at(i, j),
            column_argument(lower.data@, j) as int,
            column_argument(upper.data@, j) as int,
        ) by {
            let t = i * cols + j;
            assert(0 <= t < n && t % cols as int == j) by (nonlinear_arith)
                requires
                    0 <= i < data.rows(),
                    0 <= j < cols,
                    t == i * cols + j,
                    n == data.rows() * cols,
            {
                assert(0 <= i * cols + j < data.rows() * cols);
                vstd::arithmetic::div_mod::lemma_mod_multiples_vanish(i, j, cols as int);
            }
        }
    }
    let shape = data.shape.clone();
    assert(shape@ == data.shape@);
    Ok(Array { shape, data: out })
}

/// Clips every cell of an integer array to its column's bounds, given as
/// per-column arguments.
///
/// Bounds with neither one value nor one per column give `ShapeMismatch`; a
/// column whose lower bound exceeds its upper bound gives `InvalidParameter`.
pub fn clamp_numeric(data: &Array<i64>, lower: &Array<i64>, upper: &Array<i64>) -> (r: Result<
    Array<i64>,
    Error,
>)
    requires
        data.wf(),
    ensures
        r is Ok <==> fits_columns(lower.data@, data.cols()) && fits_columns(upper.data@, data.cols())
            && forall|j: int|
            0 <= j < data.cols() ==> column_argument(lower.data@, j) <= column_argument(
                upper.data@,
                j,
            ),
        r is Ok ==> {
            let out = r->Ok_0;
            &&& out.wf()
            &&& out.shape@ == data.shape@
            &&& forall|i: int, j: int|
                0 <= i < data.rows() && 0 <= j < data.cols() ==> #[trigger] out.at(i, j) == clamp(
                    data.at(i, j) as int,
                    column_argument(lower.data@, j) as int,
                    column_argument(upper.data@, j) as int,
                )
        },
        r is Err && fits_columns(lower.data@, data.cols()) && fits_columns(upper.data@, data.cols())
            ==> r->Err_0.kind == ErrorKind::InvalidParameter,
        r is Err && !(fits_columns(lower.data@, data.cols()) && fits_columns(
            upper.data@,
            data.cols(),
        )) ==> r->Err_0.kind == ErrorKind::ShapeMismatch,
{
    let shape = data.shape.clone();
    let zeros: Vec<i64> = vec![0i64; data.data.len()];
    let noise = Array { shape, data: zeros };
    assert(noise.shape@ == data.shape@);
    let r = simple_geometric_release_columns(data, &noise, lower, upper);
    proof {
        if r is Ok {
            let out = r->Ok_0;
            assert forall|i: int, j: int| 0 <= i < data.rows() && 0 <= j < data.cols() implies
                #[trigger] out.at(i, j) == clamp(
                data.at(i, j) as int,
                column_argument(lower.data@, j) as int,
                column_argument(upper.data@, j) as int,
            ) by {
                assert(0 <= i * data.cols() + j < data.rows() * data.cols()) by (nonlinear_arith)
                    requires
                        0 <= i < data.rows(),
                        0 <= j < data.cols(),
                ;
                assert(noise.at(i, j) == 0);
            }
        }
    }
    r
}

} // verus!
