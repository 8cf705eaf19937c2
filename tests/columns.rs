use smartnoise_core::array::{row_wise_max, row_wise_min, standardize_numeric_argument, Array};
use smartnoise_core::impute::{distribution_from_lowercase, impute_method, ImputeMethod};
use smartnoise_core::mechanisms::{clamp_numeric, simple_geometric_release_columns};
use smartnoise_core::ErrorKind;

fn ints(shape: Vec<usize>, data: Vec<i64>) -> Array<i64> {
    Array::from_shape_vec(shape, data).unwrap()
}

#[test]
fn row_wise_min_takes_smaller_element() {
    let left = ints(vec![3], vec![1, 5, -2]);
    let right = ints(vec![], vec![2]);
    assert_eq!(row_wise_min(left, right).unwrap().data, vec![1, 2, -2]);
}

#[test]
fn row_wise_max_takes_larger_element() {
    let left = ints(vec![2, 2], vec![1, 5, -2, 8]);
    let right = ints(vec![2], vec![3, 0]);
    let out = row_wise_max(left, right).unwrap();
    assert_eq!(out.shape, vec![2, 2]);
    assert_eq!(out.data, vec![3, 5, 0, 8]);
    assert!(row_wise_max(ints(vec![2], vec![1, 2]), ints(vec![3], vec![1, 2, 3])).is_err());
}

#[test]
fn numeric_argument_broadcasts_single_value() {
    let one = ints(vec![1], vec![7]);
    assert_eq!(standardize_numeric_argument(&one, 3).unwrap(), vec![7, 7, 7]);
    let each = ints(vec![3], vec![1, 2, 3]);
    assert_eq!(standardize_numeric_argument(&each, 3).unwrap(), vec![1, 2, 3]);
    assert_eq!(standardize_numeric_argument(&each, 2).unwrap_err().kind, ErrorKind::ShapeMismatch);
}

#[test]
fn geometric_columns_clip_per_column() {
    let data = ints(vec![2, 2], vec![0, 0, 5, 5]);
    let noise = ints(vec![2, 2], vec![-10, 10, 1, -1]);
    let lower = ints(vec![2], vec![-3, 0]);
    let upper = ints(vec![], vec![3]);
    let out = simple_geometric_release_columns(&data, &noise, &lower, &upper).unwrap();
    assert_eq!(out.shape, vec![2, 2]);
    assert_eq!(out.data, vec![-3, 3, 3, 3]);
}

#[test]
fn geometric_columns_reject_bad_arguments() {
    let data = ints(vec![2], vec![0, 1]);
    let noise = ints(vec![1, 2], vec![0, 1]);
    let bound = ints(vec![], vec![0]);
    let err = simple_geometric_release_columns(&data, &noise, &bound, &bound).unwrap_err();
    assert_eq!(err.kind, ErrorKind::ShapeMismatch);
    let noise = ints(vec![2], vec![0, 1]);
    let lower = ints(vec![], vec![4]);
    let upper = ints(vec![], vec![2]);
    let err = simple_geometric_release_columns(&data, &noise, &lower, &upper).unwrap_err();
    assert_eq!(err.kind, ErrorKind::InvalidParameter);
}

#[test]
fn impute_method_is_case_insensitive() {
    assert_eq!(impute_method(false, Some("Gaussian")).unwrap(), ImputeMethod::Gaussian);
    assert_eq!(impute_method(false, Some("UNIFORM")).unwrap(), ImputeMethod::Uniform);
    assert_eq!(impute_method(false, None).unwrap(), ImputeMethod::Uniform);
    assert_eq!(impute_method(true, Some("nonsense")).unwrap(), ImputeMethod::Categorical);
    assert_eq!(impute_method(false, Some("Poisson")).unwrap_err().kind, ErrorKind::InvalidParameter);
}

#[test]
fn distribution_names_are_exact_in_lower_case() {
    assert_eq!(distribution_from_lowercase("uniform").unwrap(), ImputeMethod::Uniform);
    assert_eq!(distribution_from_lowercase("gaussian").unwrap(), ImputeMethod::Gaussian);
    assert!(distribution_from_lowercase("Gaussian").is_err());
    assert!(distribution_from_lowercase("").is_err());
}

#[test]
fn clamp_numeric_clips_each_column() {
    let data = ints(vec![3, 2], vec![-5, 5, 0, 0, 9, -9]);
    let lower = ints(vec![2], vec![-1, -3]);
    let upper = ints(vec![2], vec![1, 3]);
    let out = clamp_numeric(&data, &lower, &upper).unwrap();
    assert_eq!(out.shape, vec![3, 2]);
    assert_eq!(out.data, vec![-1, 3, 0, 0, 1, -3]);
    let bad = ints(vec![3], vec![0, 0, 0]);
    assert_eq!(
        clamp_numeric(&data, &bad, &upper).unwrap_err().kind,
        ErrorKind::ShapeMismatch
    );
}
