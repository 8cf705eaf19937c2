use smartnoise_core::array::{broadcast_map, get_num_columns, standardize_columns, to_nd, Array};
use smartnoise_core::ieee::get_closest_multiple_of_lambda;
use smartnoise_core::ErrorKind;

fn arr0(v: f64) -> Array<f64> {
    Array::from_shape_vec(vec![], vec![v]).unwrap()
}

fn arr1(v: &[f64]) -> Array<f64> {
    Array::from_shape_vec(vec![v.len()], v.to_vec()).unwrap()
}

fn arr2(rows: &[[f64; 2]]) -> Array<f64> {
    let data: Vec<f64> = rows.iter().flat_map(|r| r.iter().copied()).collect();
    Array::from_shape_vec(vec![rows.len(), 2], data).unwrap()
}

fn closest(x: f64, m: i16) -> f64 {
    f64::from_bits(get_closest_multiple_of_lambda(x.to_bits(), m).unwrap())
}

#[test]
fn test_broadcasting() {
    let data0d = arr0(2.);
    let data1d = arr1(&[2., 3., 5.]);
    let data2d = arr2(&[[2., 4.], [3., 7.], [5., 2.]]);

    let r = broadcast_map(data0d.clone(), data1d.clone(), &|l: &f64, r: &f64| l * r).unwrap();
    let e = arr1(&[4., 6., 10.]);
    assert_eq!((r.shape, r.data), (e.shape, e.data));

    let r = broadcast_map(data1d.clone(), data2d.clone(), &|l: &f64, r: &f64| l / r).unwrap();
    let e = arr2(&[[1., 2. / 4.], [1., 3. / 7.], [1., 5. / 2.]]);
    assert_eq!((r.shape, r.data), (e.shape, e.data));

    let r = broadcast_map(data2d, data0d, &|l: &f64, r: &f64| l + r).unwrap();
    let e = arr2(&[[4., 6.], [5., 9.], [7., 4.]]);
    assert_eq!((r.shape, r.data), (e.shape, e.data));
}

#[test]
fn non_conformable() {
    let left = arr1(&[2., 3., 5.]);
    let right = arr1(&[2., 3., 5., 6.]);

    assert!(broadcast_map(left, right, &|l: &f64, r: &f64| l * r).is_err());
}

#[test]
fn broadcast_mismatch_is_shape_error() {
    let left = Array::from_shape_vec(vec![3, 1], vec![1i64, 2, 3]).unwrap();
    let right = Array::from_shape_vec(vec![1, 4], vec![1i64, 2, 3, 4]).unwrap();
    let err = broadcast_map(left, right, &|l: &i64, r: &i64| l + r).unwrap_err();
    assert_eq!(err.kind, ErrorKind::ShapeMismatch);
}

#[test]
fn broadcast_matches_double_loop() {
    let shapes: Vec<Vec<usize>> = vec![vec![], vec![1], vec![3], vec![3, 1], vec![1, 2], vec![3, 2], vec![1, 1]];
    for ls in shapes.iter() {
        for rs in shapes.iter() {
            let ln: usize = ls.iter().product();
            let rn: usize = rs.iter().product();
            let left = Array::from_shape_vec(ls.clone(), (0..ln as i64).collect()).unwrap();
            let right = Array::from_shape_vec(rs.clone(), (0..rn as i64).map(|v| 10 * v).collect()).unwrap();
            let dims = |s: &Vec<usize>| -> (usize, usize) {
                (if s.is_empty() { 1 } else { s[0] }, if s.len() == 2 { s[1] } else { 1 })
            };
            let (lr, lc) = dims(ls);
            let (rr, rc) = dims(rs);
            let out_shape = if ls.len() < rs.len() {
                rs.clone()
            } else if ls.len() > rs.len() {
                ls.clone()
            } else if ln > rn {
                ls.clone()
            } else {
                rs.clone()
            };
            let (or, oc) = dims(&out_shape);
            let fits = |r: usize, c: usize| (r == or || r == 1) && (c == oc || c == 1);
            let result = broadcast_map(left, right, &|l: &i64, r: &i64| l + r);
            if !(fits(lr, lc) && fits(rr, rc)) {
                assert!(result.is_err());
                continue;
            }
            let out = result.unwrap();
            assert_eq!(out.shape, out_shape);
            for i in 0..or {
                for j in 0..oc {
                    let li = if lr == 1 { 0 } else { i };
                    let lj = if lc == 1 { 0 } else { j };
                    let ri = if rr == 1 { 0 } else { i };
                    let rj = if rc == 1 { 0 } else { j };
                    let expected = (li * lc + lj) as i64 + 10 * (ri * rc + rj) as i64;
                    assert_eq!(out.data[i * oc + j], expected);
                }
            }
        }
    }
}

#[test]
fn num_columns_by_rank() {
    assert_eq!(get_num_columns(&arr0(1.)).unwrap(), 1);
    assert_eq!(get_num_columns(&arr1(&[1., 2., 3.])).unwrap(), 1);
    assert_eq!(get_num_columns(&arr2(&[[1., 2.], [3., 4.], [5., 6.]])).unwrap(), 2);
}

#[test]
fn from_shape_vec_rejects_bad_shapes() {
    assert_eq!(Array::from_shape_vec(vec![2, 2], vec![1, 2, 3]).unwrap_err().kind, ErrorKind::ShapeMismatch);
    assert_eq!(Array::from_shape_vec(vec![1, 1, 1], vec![1]).unwrap_err().kind, ErrorKind::ShapeMismatch);
}

#[test]
fn to_nd_adds_and_removes_trailing_axes() {
    let a = to_nd(arr1(&[1., 2.]), 2).unwrap();
    assert_eq!(a.shape, vec![2, 1]);
    assert_eq!(a.data, vec![1., 2.]);
    let b = to_nd(a, 1).unwrap();
    assert_eq!(b.shape, vec![2]);
    let c = to_nd(arr2(&[[1., 2.]]), 1);
    assert_eq!(c.unwrap_err().kind, ErrorKind::ShapeMismatch);
    assert!(to_nd(arr0(1.), 3).is_err());
}

#[test]
fn standardize_columns_pads_and_truncates() {
    let a = Array::from_shape_vec(vec![2, 2], vec![1i64, 2, 3, 4]).unwrap();
    let padded = standardize_columns(a.clone(), 3).unwrap();
    assert_eq!(padded.shape, vec![2, 3]);
    assert_eq!(padded.data, vec![1, 2, 0, 3, 4, 0]);
    let cut = standardize_columns(a.clone(), 1).unwrap();
    assert_eq!(cut.shape, vec![2, 1]);
    assert_eq!(cut.data, vec![1, 3]);
    let same = standardize_columns(a, 2).unwrap();
    assert_eq!(same.data, vec![1, 2, 3, 4]);
    let v = Array::from_shape_vec(vec![3], vec![1i64, 2, 3]).unwrap();
    assert_eq!(standardize_columns(v.clone(), 1).unwrap().data, vec![1, 2, 3]);
    assert_eq!(standardize_columns(v, 2).unwrap_err().kind, ErrorKind::ShapeMismatch);
    let s = Array::from_shape_vec(vec![], vec![1i64]).unwrap();
    assert_eq!(standardize_columns(s, 1).unwrap_err().kind, ErrorKind::ShapeMismatch);
}

#[test]
fn test_get_closest_multiple_of_lambda_range() {
    (0..100).for_each(|i| {
        let x = 1. - 0.01 * (i as f64);
        println!("{}: {}", x, closest(x, -1))
    });
}

#[test]
fn test_get_closest_multiple_of_lambda() {
    let input = vec![-30.01, -2.51, -1.01, -0.76, -0.51, -0.26, 0.0, 0.26, 0.51, 0.76, 1.01, 2.51, 30.01];

    vec![
        (-2, vec![-30., -2.5, -1.0, -0.75, -0.5, -0.25, 0.0, 0.25, 0.5, 0.75, 1.0, 2.5, 30.0]),
        (-1, vec![-30., -2.5, -1.0, -1.0, -0.5, -0.5, 0.0, 0.5, 0.5, 1.0, 1.0, 2.5, 30.0]),
        (0, vec![-30., -3.0, -1.0, -1.0, -1.0, -0.0, 0.0, 0.0, 1.0, 1.0, 1.0, 3.0, 30.0]),
        (1, vec![-30., -2.0, -2.0, 0.0, 0.0, 0.0, 0.0, 0.0, 0.0, 0.0, 2.0, 2.0, 30.0]),
        (2, vec![-32., -4.0, 0.0, 0.0, 0.0, 0.0, 0.0, 0.0, 0.0, 0.0, 0.0, 4.0, 32.0]),
    ].into_iter().for_each(|(m, outputs)| {
        input.iter().copied().zip(outputs.into_iter())
            .for_each(|(input, expected)| {
                let actual = closest(input, m);
                println!("m: {:?}, input: {:?}, actual: {:?}, expected: {:?}",
                         m, input, actual, expected);
                assert_eq!(actual, expected)
            })
    });
}

#[test]
fn closest_multiple_examples() {
    // 0.75 is not a multiple of 2^-1; the nearest multiple of 0.5 is 1.0
    assert_eq!(closest(0.76, -1), 1.0);
    assert_eq!(closest(0.76, -2), 0.75);
    assert_eq!(closest(-0.26, -1), -0.5);
    assert_eq!(closest(30.01, 2), 32.0);
}

#[test]
fn closest_multiple_is_idempotent() {
    for m in [-5i16, -1, 0, 1, 3, 10] {
        for x in [0.0, -0.0, 1e-310, 0.3, -0.7, 2.5, 1e10, -123.456, f64::MAX, f64::INFINITY] {
            let once = get_closest_multiple_of_lambda(x.to_bits(), m).unwrap();
            let twice = get_closest_multiple_of_lambda(once, m).unwrap();
            assert_eq!(once, twice);
        }
    }
}

#[test]
fn closest_multiple_lands_on_lattice() {
    for m in [-3i16, 0, 2] {
        let lambda = 2f64.powi(m as i32);
        for x in [0.1, -0.9, 3.3, 17.77, -1000.5] {
            let r = closest(x, m);
            assert_eq!((r / lambda).fract(), 0.0);
            assert!((r - x).abs() <= lambda / 2.0);
        }
    }
}

#[test]
fn closest_multiple_rejects_m_out_of_range() {
    assert_eq!(get_closest_multiple_of_lambda(1.0f64.to_bits(), -1022).unwrap_err().kind, ErrorKind::InvalidParameter);
    assert_eq!(get_closest_multiple_of_lambda(1.0f64.to_bits(), 1024).unwrap_err().kind, ErrorKind::InvalidParameter);
    assert!(get_closest_multiple_of_lambda(1.0f64.to_bits(), 1023).is_ok());
}

#[test]
fn closest_multiple_keeps_nan_and_infinity() {
    let nan = f64::NAN.to_bits();
    assert_eq!(get_closest_multiple_of_lambda(nan, 1000).unwrap(), nan);
    let inf = f64::NEG_INFINITY.to_bits();
    assert_eq!(get_closest_multiple_of_lambda(inf, 0).unwrap(), inf);
}
