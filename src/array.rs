//! Arrays of rank at most two, row-major, and the column-wise broadcasting
//! that the mechanisms use to pair data with per-column arguments.
//!
//! Every array is read as a matrix: a scalar is `1 x 1`, a vector of length
//! `n` is one column (`n x 1`), and a rank-two array of shape `[r, c]` is
//! `r x c`. Axes are added and removed at the end of the shape.
use vstd::pervasive::cloned;
use vstd::prelude::*;

use crate::error::{Error, ErrorKind};

verus! {

/// The number of rows of the matrix that a shape describes.
pub open spec fn shape_rows(shape: Seq<usize>) -> nat {
    if shape.len() == 0 {
        1
    } else {
        shape[0] as nat
    }
}

/// The number of columns of the matrix that a shape describes.
pub open spec fn shape_cols(shape: Seq<usize>) -> nat {
    if shape.len() == 2 {
        shape[1] as nat
    } else {
        1
    }
}

/// Element `(i, j)` of row-major data with `cols` columns.
pub open spec fn cell<T>(data: Seq<T>, cols: nat, i: int, j: int) -> T {
    data[i * cols + j]
}

/// A rank-0, rank-1 or rank-2 array stored row-major.
#[derive(Debug, Clone)]
pub struct Array<T> {
    pub shape: Vec<usize>,
    pub data: Vec<T>,
}

impl<T> Array<T> {
    /// The rank is at most two and the data fills the shape exactly.
    pub open spec fn wf(&self) -> bool {
        &&& self.shape@.len() <= 2
        &&& self.data@.len() == self.rows() * self.cols()
    }

    pub open spec fn rows(&self) -> nat {
        shape_rows(self.shape@)
    }

    pub open spec fn cols(&self) -> nat {
        shape_cols(self.shape@)
    }

    /// Element `(i, j)` of the matrix view.
    pub open spec fn at(&self, i: int, j: int) -> T {
        cell(self.data@, self.cols(), i, j)
    }

    /// An array of the given shape holding `data` in row-major order.
    ///
    /// A shape of rank above two, or data that does not fill the shape,
    /// gives `ShapeMismatch`.
    pub fn from_shape_vec(shape: Vec<usize>, data: Vec<T>) -> (r: Result<Array<T>, Error>)
        ensures
            r is Ok <==> shape@.len() <= 2 && data@.len() == shape_rows(shape@) * shape_cols(
                shape@,
            ),
            r is Ok ==> r->Ok_0.shape@ == shape@ && r->Ok_0.data@ == data@,
            r is Err ==> r->Err_0.kind == ErrorKind::ShapeMismatch,
    {
        if shape.len() > 2 {
            return Err(Error::new(ErrorKind::ShapeMismatch, "arrays may be at most 2-dimensional"));
        }
        let rows: usize = if shape.len() == 0 {
            1
        } else {
            shape[0]
        };
        let cols: usize = if shape.len() == 2 {
            shape[1]
        } else {
            1
        };
        let n_data = data.len();
        match rows.checked_mul(cols) {
            Some(n) => {
                if n == n_data {
                    Ok(Array { shape, data })
                } else {
                    Err(Error::new(ErrorKind::ShapeMismatch, "data does not fill the shape"))
                }
            },
            None => Err(Error::new(ErrorKind::ShapeMismatch, "data does not fill the shape")),
        }
    }

    /// The rank of the array.
    pub fn ndim(&self) -> (r: usize)
        ensures
            r == self.shape@.len(),
    {
        self.shape.len()
    }

    /// The number of elements.
    pub fn len(&self) -> (r: usize)
        ensures
            r == self.data@.len(),
    {
        self.data.len()
    }
}

/// The number of columns of `data`: one for a scalar or a vector, the second
/// axis for a rank-two array.
///
/// A column count beyond `i64` gives `ShapeMismatch`.
pub fn get_num_columns<T>(data: &Array<T>) -> (r: Result<i64, Error>)
    requires
        data.wf(),
    ensures
        r is Ok <==> data.cols() <= i64::MAX,
        r is Ok ==> r->Ok_0 == data.cols(),
        r is Err ==> r->Err_0.kind == ErrorKind::ShapeMismatch,
{
    if data.shape.len() == 2 {
        if data.shape[1] as u64 > 9223372036854775807u64 {
            Err(Error::new(ErrorKind::ShapeMismatch, "too many columns"))
        } else {
            Ok(data.shape[1] as i64)
        }
    } else {
        Ok(1)
    }
}

/// The shape of `shape` brought to rank `ndim` by dropping trailing axes of
/// length one or appending axes of length one.
pub open spec fn nd_shape(shape: Seq<usize>, ndim: nat) -> Seq<usize> {
    if ndim <= shape.len() {
        shape.subrange(0, ndim as int)
    } else {
        shape + Seq::new((ndim - shape.len()) as nat, |i: int| 1usize)
    }
}

/// Whether `shape` can be brought to rank `ndim`: every axis that would be
/// dropped has length one.
pub open spec fn can_reach_rank(shape: Seq<usize>, ndim: nat) -> bool {
    forall|i: int| ndim <= i < shape.len() ==> #[trigger] shape[i] == 1
}

/// Brings `array` to rank `ndim`, removing trailing axes of length one or
/// adding trailing axes of length one; the data is untouched.
///
/// A rank above two, or a trailing axis to remove whose length is not one,
/// gives `ShapeMismatch`.
pub fn to_nd<T>(array: Array<T>, ndim: usize) -> (r: Result<Array<T>, Error>)
    requires
        array.wf(),
    ensures
        r is Ok <==> ndim <= 2 && can_reach_rank(array.shape@, ndim as nat),
        r is Ok ==> r->Ok_0.wf() && r->Ok_0.shape@ == nd_shape(array.shape@, ndim as nat)
            && r->Ok_0.data@ == array.data@ && r->Ok_0.rows() == array.rows() && r->Ok_0.cols()
            == array.cols(),
        r is Err ==> r->Err_0.kind == ErrorKind::ShapeMismatch,
{
    if ndim > 2 {
        return Err(Error::new(ErrorKind::ShapeMismatch, "arrays may be at most 2-dimensional"));
    }
    let ghost old_shape = array.shape@;
    let Array { shape, data } = array;
    assert(shape@ == old_shape);
    let mut shape = shape;
    while shape.len() > ndim
        invariant
            old_shape == array.shape@,
            shape@.len() <= 2,
            shape@ == old_shape.subrange(0, shape@.len() as int),
            shape@.len() <= old_shape.len(),
            old_shape.len() <= ndim ==> shape@.len() == old_shape.len(),
            old_shape.len() > ndim ==> shape@.len() >= ndim,
            forall|i: int| shape@.len() <= i < old_shape.len() ==> #[trigger] old_shape[i] == 1,
        decreases shape@.len(),
    {
        let last = shape[shape.len() - 1];
        if last != 1 {
            assert(old_shape[shape@.len() - 1] != 1);
            assert(!can_reach_rank(old_shape, ndim as nat));
            return Err(Error::new(ErrorKind::ShapeMismatch, "cannot remove a non-singleton trailing axis"));
        }
        shape.pop();
    }
    while shape.len() < ndim
        invariant
            ndim <= 2,
            old_shape.len() <= ndim ==> shape@ == nd_shape(old_shape, shape@.len() as nat),
            old_shape.len() > ndim ==> shape@ == old_shape.subrange(0, ndim as int),
            old_shape.len() <= ndim ==> old_shape.len() <= shape@.len(),
            shape@.len() <= ndim,
            old_shape.len() > ndim ==> shape@.len() == ndim,
            forall|i: int| ndim <= i < old_shape.len() ==> #[trigger] old_shape[i] == 1,
        decreases ndim - shape@.len(),
    {
        shape.push(1);
        assert(shape@ =~= nd_shape(old_shape, shape@.len() as nat));
    }
    assert(shape@ =~= nd_shape(old_shape, ndim as nat));
    Ok(Array { shape, data })
}

/// The shape of the result of broadcasting two operands: that of the operand
/// of higher rank; for equal ranks, that of the one with more elements (the
/// right one on a tie).
pub open spec fn broadcast_shape(
    left_shape: Seq<usize>,
    left_len: nat,
    right_shape: Seq<usize>,
    right_len: nat,
) -> Seq<usize> {
    if left_shape.len() < right_shape.len() {
        right_shape
    } else if left_shape.len() > right_shape.len() {
        left_shape
    } else if left_len > right_len {
        left_shape
    } else {
        right_shape
    }
}

/// Whether a `rows x cols` operand stretches to `target_rows x target_cols`:
/// along each axis its length is the target's or one.
pub open spec fn stretches_to(rows: nat, cols: nat, target_rows: nat, target_cols: nat) -> bool {
    &&& (rows == target_rows || rows == 1)
    &&& (cols == target_cols || cols == 1)
}

/// The position along an axis of length `dim` that position `i` of the
/// stretched axis reads.
pub open spec fn source_index(dim: nat, i: int) -> int {
    if dim == 1 {
        0
    } else {
        i
    }
}

/// Whether `left` and `right` both stretch to their broadcast shape.
pub open spec fn broadcastable<T>(left: Array<T>, right: Array<T>) -> bool {
    let s = broadcast_shape(left.shape@, left.data@.len(), right.shape@, right.data@.len());
    &&& stretches_to(left.rows(), left.cols(), shape_rows(s), shape_cols(s))
    &&& stretches_to(right.rows(), right.cols(), shape_rows(s), shape_cols(s))
}

proof fn lemma_row_major_index(i: int, j: int, rows: int, cols: int)
    requires
        0 <= i < rows,
        0 <= j < cols,
    ensures
        0 <= i * cols + j < rows * cols,
        i * cols + j + 1 <= rows * cols,
{
    assert(0 <= i * cols + j < rows * cols) by (nonlinear_arith)
        requires
            0 <= i < rows,
            0 <= j < cols,
    ;
}

fn copy_shape(shape: &Vec<usize>) -> (r: Vec<usize>)
    ensures
        r@ == shape@,
{
    let mut r: Vec<usize> = Vec::new();
    let mut i: usize = 0;
    while i < shape.len()
        invariant
            i <= shape@.len(),
            r@ == shape@.subrange(0, i as int),
        decreases shape@.len() - i,
    {
        r.push(shape[i]);
        i = i + 1;
        assert(r@ =~= shape@.subrange(0, i as int));
    }
    assert(r@ =~= shape@);
    r
}

/// Broadcasts `left` and `right` to a common shape and maps `operator` over
/// the pairs of elements.
///
/// The result has the broadcast shape; its element `(i, j)` is `operator`
/// applied to the elements of `left` and `right` that position reads, an axis
/// of length one being read at position zero throughout. Operands that do not
/// stretch to the broadcast shape give `ShapeMismatch`.
pub fn broadcast_map<T, U, F: Fn(&T, &T) -> U>(left: Array<T>, right: Array<T>, operator: &F) -> (r:
    Result<Array<U>, Error>)
    requires
        left.wf(),
        right.wf(),
        forall|a: &T, b: &T| operator.requires((a, b)),
    ensures
        r is Ok <==> broadcastable(left, right),
        r is Ok ==> {
            let out = r->Ok_0;
            &&& out.wf()
            &&& out.shape@ == broadcast_shape(
                left.shape@,
                left.data@.len(),
                right.shape@,
                right.data@.len(),
            )
            &&& forall|i: int, j: int|
                0 <= i < out.rows() && 0 <= j < out.cols() ==> operator.ensures(
                    (
                        &left.at(source_index(left.rows(), i), source_index(left.cols(), j)),
                        &right.at(source_index(right.rows(), i), source_index(right.cols(), j)),
                    ),
                    #[trigger] out.at(i, j),
                )
        },
        r is Err ==> r->Err_0.kind == ErrorKind::ShapeMismatch,
{
    let ghost s = broadcast_shape(left.shape@, left.data@.len(), right.shape@, right.data@.len());
    let shape: Vec<usize> = if left.shape.len() < right.shape.len() {
        copy_shape(&right.shape)
    } else if left.shape.len() > right.shape.len() {
        copy_shape(&left.shape)
    } else if left.data.len() > right.data.len() {
        copy_shape(&left.shape)
    } else {
        copy_shape(&right.shape)
    };
    assert(shape@ == s);
    let ghost left0 = left;
    let ghost right0 = right;
    let left = to_nd(left, shape.len())?;
    let right = to_nd(right, shape.len())?;
    let rows: usize = if shape.len() == 0 {
        1
    } else {
        shape[0]
    };
    let cols: usize = if shape.len() == 2 {
        shape[1]
    } else {
        1
    };
    let left_rows: usize = if left.shape.len() == 0 {
        1
    } else {
        left.shape[0]
    };
    let left_cols: usize = if left.shape.len() == 2 {
        left.shape[1]
    } else {
        1
    };
    let right_rows: usize = if right.shape.len() == 0 {
        1
    } else {
        right.shape[0]
    };
    let right_cols: usize = if right.shape.len() == 2 {
        right.shape[1]
    } else {
        1
    };
    if !((left_rows == rows || left_rows == 1) && (left_cols == cols || left_cols == 1)) {
        return Err(Error::new(ErrorKind::ShapeMismatch, "could not broadcast left argument"));
    }
    if !((right_rows == rows || right_rows == 1) && (right_cols == cols || right_cols == 1)) {
        return Err(Error::new(ErrorKind::ShapeMismatch, "could not broadcast right argument"));
    }
    let mut out: Vec<U> = Vec::new();
    let mut i: usize = 0;
    while i < rows
        invariant
            left.wf(),
            right.wf(),
            left.data@ == left0.data@,
            right.data@ == right0.data@,
            left_rows == left0.rows() && left_cols == left0.cols(),
            right_rows == right0.rows() && right_cols == right0.cols(),
            left.rows() == left_rows && left.cols() == left_cols,
            right.rows() == right_rows && right.cols() == right_cols,
            stretches_to(left_rows as nat, left_cols as nat, rows as nat, cols as nat),
            stretches_to(right_rows as nat, right_cols as nat, rows as nat, cols as nat),
            forall|a: &T, b: &T| operator.requires((a, b)),
            i <= rows,
            out@.len() == i * cols,
            forall|i2: int, j2: int|
                0 <= i2 < i && 0 <= j2 < cols ==> operator.ensures(
                    (
                        &left0.at(source_index(left0.rows(), i2), source_index(left0.cols(), j2)),
                        &right0.at(source_index(right0.rows(), i2), source_index(right0.cols(), j2)),
                    ),
                    #[trigger] cell(out@, cols as nat, i2, j2),
                ),
        decreases rows - i,
    {
        let mut j: usize = 0;
        while j < cols
            invariant
                left.wf(),
                right.wf(),
                left.data@ == left0.data@,
                right.data@ == right0.data@,
                left_rows == left0.rows() && left_cols == left0.cols(),
                right_rows == right0.rows() && right_cols == right0.cols(),
                left.rows() == left_rows && left.cols() == left_cols,
                right.rows() == right_rows && right.cols() == right_cols,
                stretches_to(left_rows as nat, left_cols as nat, rows as nat, cols as nat),
                stretches_to(right_rows as nat, right_cols as nat, rows as nat, cols as nat),
                forall|a: &T, b: &T| operator.requires((a, b)),
                i < rows,
                j <= cols,
                out@.len() == i * cols + j,
                forall|i2: int, j2: int|
                    0 <= i2 < i && 0 <= j2 < cols ==> operator.ensures(
                        (
                            &left0.at(source_index(left0.rows(), i2), source_index(left0.cols(), j2)),
                            &right0.at(
                                source_index(right0.rows(), i2),
                                source_index(right0.cols(), j2),
                            ),
                        ),
                        #[trigger] cell(out@, cols as nat, i2, j2),
                    ),
                forall|j2: int|
                    0 <= j2 < j ==> operator.ensures(
                        (
                            &left0.at(source_index(left0.rows(), i as int), source_index(left0.cols(), j2)),
                            &right0.at(
                                source_index(right0.rows(), i as int),
                                source_index(right0.cols(), j2),
                            ),
                        ),
                        #[trigger] cell(out@, cols as nat, i as int, j2),
                    ),
            decreases cols - j,
        {
            let li: usize = if left_rows == 1 {
                0
            } else {
                i
            };
            let lj: usize = if left_cols == 1 {
                0
            } else {
                j
            };
            let ri: usize = if right_rows == 1 {
                0
            } else {
                i
            };
            let rj: usize = if right_cols == 1 {
                0
            } else {
                j
            };
            let left_len = left.data.len();
            let right_len = right.data.len();
            proof {
                lemma_row_major_index(li as int, lj as int, left_rows as int, left_cols as int);
                lemma_row_major_index(ri as int, rj as int, right_rows as int, right_cols as int);
                lemma_row_major_index(i as int, j as int, rows as int, cols as int);
            }
            let lx = &left.data[li * left_cols + lj];
            let rx = &right.data[ri * right_cols + rj];
            let v = operator(lx, rx);
            let ghost before = out@;
            out.push(v);
            proof {
                assert(*lx == left0.at(source_index(left0.rows(), i as int), source_index(left0.cols(), j as int)));
                assert(*rx == right0.at(source_index(right0.rows(), i as int), source_index(right0.cols(), j as int)));
                assert forall|i2: int, j2: int| 0 <= i2 < i && 0 <= j2 < cols implies operator.ensures(
                    (
                        &left0.at(source_index(left0.rows(), i2), source_index(left0.cols(), j2)),
                        &right0.at(source_index(right0.rows(), i2), source_index(right0.cols(), j2)),
                    ),
                    #[trigger] cell(out@, cols as nat, i2, j2),
                ) by {
                    lemma_row_major_index(i2, j2, i as int, cols as int);
                    assert(cell(out@, cols as nat, i2, j2) == cell(before, cols as nat, i2, j2));
                }
                assert forall|j2: int| 0 <= j2 < j implies operator.ensures(
                    (
                        &left0.at(source_index(left0.rows(), i as int), source_index(left0.cols(), j2)),
                        &right0.at(source_index(right0.rows(), i as int), source_index(right0.cols(), j2)),
                    ),
                    #[trigger] cell(out@, cols as nat, i as int, j2),
                ) by {
                    lemma_row_major_index(i as int, j2, rows as int, cols as int);
                    assert(cell(out@, cols as nat, i as int, j2) == cell(before, cols as nat, i as int, j2));
                }
                assert(cell(out@, cols as nat, i as int, j as int) == v);
            }
            j = j + 1;
        }
        proof {
            assert(out@.len() == (i + 1) * cols) by (nonlinear_arith)
                requires
                    out@.len() == i * cols + cols,
            ;
        }
        i = i + 1;
    }
    proof {
        lemma_row_major_index(0, 0, 1, 1);
    }
    Ok(Array { shape, data: out })
}

/// Brings the data to exactly `column_len` columns.
///
/// A vector is kept when one column is asked for. A rank-two array keeps its
/// rows; its first `column_len` columns are kept (as clones) and missing
/// columns are filled with default values. A scalar, a vector asked for
/// another number of columns, or a result too large to index gives
/// `ShapeMismatch`.
pub fn standardize_columns<T: Default + Clone>(array: Array<T>, column_len: usize) -> (r: Result<
    Array<T>,
    Error,
>)
    requires
        array.wf(),
    ensures
        r is Ok <==> (array.shape@.len() == 1 && column_len == 1) || (array.shape@.len() == 2
            && array.rows() * column_len <= usize::MAX),
        r is Ok && array.shape@.len() == 1 ==> r->Ok_0.shape@ == array.shape@ && r->Ok_0.data@
            == array.data@,
        r is Ok ==> r->Ok_0.wf(),
        r is Ok && array.shape@.len() == 2 ==> {
            let out = r->Ok_0;
            &&& out.shape@ == seq![array.shape@[0], column_len]
            &&& forall|i: int, j: int|
                0 <= i < out.rows() && 0 <= j < out.cols() && j < array.cols() ==> cloned(
                    array.at(i, j),
                    #[trigger] out.at(i, j),
                )
        },
        r is Err ==> r->Err_0.kind == ErrorKind::ShapeMismatch,
{
    if array.shape.len() == 0 {
        return Err(Error::new(ErrorKind::ShapeMismatch, "dataset may not be a scalar"));
    }
    if array.shape.len() == 1 {
        if column_len == 1 {
            return Ok(array);
        }
        return Err(Error::new(ErrorKind::ShapeMismatch, "a vector has exactly one column"));
    }
    let rows = array.shape[0];
    let cols = array.shape[1];
    let total = rows.checked_mul(column_len);
    if total.is_none() {
        return Err(Error::new(ErrorKind::ShapeMismatch, "too many cells"));
    }
    let n_data = array.data.len();
    let mut out: Vec<T> = Vec::new();
    let mut i: usize = 0;
    while i < rows
        invariant
            array.wf(),
            array.shape@.len() == 2,
            rows == array.shape@[0],
            cols == array.shape@[1],
            n_data == array.data@.len(),
            rows * column_len <= usize::MAX,
            i <= rows,
            out@.len() == i * column_len,
            forall|i2: int, j2: int|
                0 <= i2 < i && 0 <= j2 < column_len && j2 < cols ==> cloned(
                    array.at(i2, j2),
                    #[trigger] cell(out@, column_len as nat, i2, j2),
                ),
        decreases rows - i,
    {
        let mut j: usize = 0;
        while j < column_len
            invariant
                array.wf(),
                array.shape@.len() == 2,
                rows == array.shape@[0],
                cols == array.shape@[1],
                n_data == array.data@.len(),
                rows * column_len <= usize::MAX,
                i < rows,
                j <= column_len,
                out@.len() == i * column_len + j,
                forall|i2: int, j2: int|
                    0 <= i2 < i && 0 <= j2 < column_len && j2 < cols ==> cloned(
                        array.at(i2, j2),
                        #[trigger] cell(out@, column_len as nat, i2, j2),
                    ),
                forall|j2: int|
                    0 <= j2 < j && j2 < cols ==> cloned(
                        array.at(i as int, j2),
                        #[trigger] cell(out@, column_len as nat, i as int, j2),
                    ),
            decreases column_len - j,
        {
            proof {
                lemma_row_major_index(i as int, j as int, rows as int, column_len as int);
            }
            let ghost before = out@;
            if j < cols {
                proof {
                    lemma_row_major_index(i as int, j as int, rows as int, cols as int);
                }
                let x = array.data[i * cols + j].clone();
                out.push(x);
            } else {
                out.push(T::default());
            }
            proof {
                assert forall|i2: int, j2: int|
                    0 <= i2 < i && 0 <= j2 < column_len && j2 < cols implies cloned(
                    array.at(i2, j2),
                    #[trigger] cell(out@, column_len as nat, i2, j2),
                ) by {
                    lemma_row_major_index(i2, j2, i as int, column_len as int);
                    assert(cell(out@, column_len as nat, i2, j2) == cell(before, column_len as nat, i2, j2));
                }
                assert forall|j2: int| 0 <= j2 < j + 1 && j2 < cols implies cloned(
                    array.at(i as int, j2),
                    #[trigger] cell(out@, column_len as nat, i as int, j2),
                ) by {
                    lemma_row_major_index(i as int, j2, rows as int, column_len as int);
                    if j2 < j {
                        assert(cell(out@, column_len as nat, i as int, j2) == cell(
                            before,
                            column_len as nat,
                            i as int,
                            j2,
                        ));
                    }
                }
            }
            j = j + 1;
        }
        proof {
            assert(out@.len() == (i + 1) * column_len) by (nonlinear_arith)
                requires
                    out@.len() == i * column_len + column_len,
            ;
        }
        i = i + 1;
    }
    let shape: Vec<usize> = vec![rows, column_len];
    assert(shape@ =~= seq![array.shape@[0], column_len]);
    Ok(Array { shape, data: out })
}

/// Expands a per-column argument to one value per column: a single value is
/// repeated for every column, and `num_columns` values are taken as they are
/// (as clones), in row-major order.
///
/// Any other number of values gives `ShapeMismatch`.
pub fn standardize_numeric_argument<T: Clone>(argument: &Array<T>, num_columns: usize) -> (r: Result<
    Vec<T>,
    Error,
>)
    requires
        argument.wf(),
    ensures
        r is Ok <==> argument.data@.len() == 1 || argument.data@.len() == num_columns,
        r is Ok ==> r->Ok_0@.len() == num_columns,
        r is Ok && argument.data@.len() == 1 ==> forall|j: int|
            0 <= j < num_columns ==> cloned(argument.data@[0], #[trigger] r->Ok_0@[j]),
        r is Ok && argument.data@.len() != 1 ==> forall|j: int|
            0 <= j < num_columns ==> cloned(argument.data@[j], #[trigger] r->Ok_0@[j]),
        r is Err ==> r->Err_0.kind == ErrorKind::ShapeMismatch,
{
    let n = argument.data.len();
    if n != 1 && n != num_columns {
        return Err(
            Error::new(ErrorKind::ShapeMismatch, "argument must hold one value or one per column"),
        );
    }
    let mut out: Vec<T> = Vec::new();
    let mut j: usize = 0;
    while j < num_columns
        invariant
            n == argument.data@.len(),
            n == 1 || n == num_columns,
            j <= num_columns,
            out@.len() == j,
            forall|k: int|
                0 <= k < j ==> cloned(
                    argument.data@[if n == 1 {
                        0
                    } else {
                        k
                    }],
                    #[trigger] out@[k],
                ),
        decreases num_columns - j,
    {
        let index = if n == 1 {
            0
        } else {
            j
        };
        out.push(argument.data[index].clone());
        j = j + 1;
    }
    Ok(out)
}

/// The smaller of `l` and `r`.
pub open spec fn min_of(l: i64, r: i64) -> i64 {
    if l <= r {
        l
    } else {
        r
    }
}

/// The larger of `l` and `r`.
pub open spec fn max_of(l: i64, r: i64) -> i64 {
    if l >= r {
        l
    } else {
        r
    }
}

/// The element-wise minimum of two broadcast integer arrays.
///
/// Operands that do not broadcast give `ShapeMismatch`.
pub fn row_wise_min(left: Array<i64>, right: Array<i64>) -> (r: Result<Array<i64>, Error>)
    requires
        left.wf(),
        right.wf(),
    ensures
        r is Ok <==> broadcastable(left, right),
        r is Ok ==> {
            let out = r->Ok_0;
            &&& out.wf()
            &&& out.shape@ == broadcast_shape(
                left.shape@,
                left.data@.len(),
                right.shape@,
                right.data@.len(),
            )
            &&& forall|i: int, j: int|
                0 <= i < out.rows() && 0 <= j < out.cols() ==> #[trigger] out.at(i, j) == min_of(
                    left.at(source_index(left.rows(), i), source_index(left.cols(), j)),
                    right.at(source_index(right.rows(), i), source_index(right.cols(), j)),
                )
        },
        r is Err ==> r->Err_0.kind == ErrorKind::ShapeMismatch,
{
    let smaller = |l: &i64, r: &i64| -> (o: i64)
        ensures
            o == min_of(*l, *r),
        {
            if *l <= *r {
                *l
            } else {
                *r
            }
        };
    broadcast_map(left, right, &smaller)
}

/// The element-wise maximum of two broadcast integer arrays.
///
/// Operands that do not broadcast give `ShapeMismatch`.
pub fn row_wise_max(left: Array<i64>, right: Array<i64>) -> (r: Result<Array<i64>, Error>)
    requires
        left.wf(),
        right.wf(),
    ensures
        r is Ok <==> broadcastable(left, right),
        r is Ok ==> {
            let out = r->Ok_0;
            &&& out.wf()
            &&& out.shape@ == broadcast_shape(
                left.shape@,
                left.data@.len(),
                right.shape@,
                right.data@.len(),
            )
            &&& forall|i: int, j: int|
                0 <= i < out.rows() && 0 <= j < out.cols() ==> #[trigger] out.at(i, j) == max_of(
                    left.at(source_index(left.rows(), i), source_index(left.cols(), j)),
                    right.at(source_index(right.rows(), i), source_index(right.cols(), j)),
                )
        },
        r is Err ==> r->Err_0.kind == ErrorKind::ShapeMismatch,
{
    let larger = |l: &i64, r: &i64| -> (o: i64)
        ensures
            o == max_of(*l, *r),
        {
            if *l >= *r {
                *l
            } else {
                *r
            }
        };
    broadcast_map(left, right, &larger)
}

} // verus!
