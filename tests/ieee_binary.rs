use ieee754::Ieee754;
use smartnoise_core::binary::{
    binary_to_f64, bytes_to_binary, combine_components_into_ieee, f64_to_binary,
    split_ieee_into_components, to_binary_string,
};
use smartnoise_core::ieee::{clamp_bits, decompose, get_closest_multiple_of_lambda, decompose_raw, recompose, recompose_raw};
use smartnoise_core::mechanisms::get_smallest_greater_or_equal_power_of_two;
use smartnoise_core::random::{fill_bytes, get_bytes};
use smartnoise_core::ErrorKind;

const SAMPLES: [f64; 10] = [0.0, -0.0, 1.0, -1.5, 0.1, 1e-310, 123456.789, f64::MAX, f64::MIN_POSITIVE, -2.5e-8];

#[test]
fn decompose_matches_ieee754() {
    for x in SAMPLES {
        assert_eq!(decompose_raw(x.to_bits()), x.decompose_raw());
        assert_eq!(decompose(x.to_bits()), x.decompose());
        let (s, e, m) = x.decompose();
        assert_eq!(recompose(s, e, m), x.to_bits());
        let (s, e, m) = x.decompose_raw();
        assert_eq!(recompose_raw(s, e, m), x.to_bits());
    }
}

#[test]
fn f64_to_binary_writes_ieee_layout() {
    assert_eq!(
        f64_to_binary(1.0f64.to_bits()),
        "0011111111110000000000000000000000000000000000000000000000000000"
    );
    assert_eq!(
        f64_to_binary((-2.0f64).to_bits()),
        "1100000000000000000000000000000000000000000000000000000000000000"
    );
    for x in SAMPLES {
        assert_eq!(f64_to_binary(x.to_bits()), format!("{:064b}", x.to_bits()));
    }
}

#[test]
fn binary_round_trip() {
    for x in SAMPLES {
        let s = f64_to_binary(x.to_bits());
        assert_eq!(binary_to_f64(&s).unwrap(), x.to_bits());
        assert_eq!(f64::from_bits(binary_to_f64(&s).unwrap()), x);
    }
}

#[test]
fn binary_to_f64_rejects_malformed_strings() {
    assert_eq!(binary_to_f64("0101").unwrap_err().kind, ErrorKind::InvalidParameter);
    let bad = format!("2{}", "0".repeat(63));
    assert_eq!(binary_to_f64(&bad).unwrap_err().kind, ErrorKind::InvalidParameter);
    let long = "0".repeat(65);
    assert!(binary_to_f64(&long).is_err());
}

#[test]
fn split_and_combine_components() {
    let s = f64_to_binary((-2.0f64).to_bits());
    let (sign, exponent, mantissa) = split_ieee_into_components(s.clone());
    assert_eq!(sign, "1");
    assert_eq!(exponent, "10000000000");
    assert_eq!(mantissa, "0".repeat(52));
    assert_eq!(combine_components_into_ieee((sign, exponent, mantissa)), s);
}

#[test]
fn binary_digits_of_small_numbers() {
    assert_eq!(to_binary_string(5, 8), "00000101");
    assert_eq!(to_binary_string(255, 8), "11111111");
    assert_eq!(to_binary_string(6, 0), "");
    assert_eq!(bytes_to_binary(&vec![1u8, 128]), "0000000110000000");
}

#[test]
fn get_bytes_gives_eight_digits_per_byte() {
    let s = get_bytes(16).unwrap();
    assert_eq!(s.len(), 128);
    assert!(s.chars().all(|c| c == '0' || c == '1'));
    assert_eq!(get_bytes(0).unwrap(), "");
}

#[test]
fn fill_bytes_overwrites_buffer() {
    let mut buffer = vec![0u8; 64];
    fill_bytes(&mut buffer).unwrap();
    assert_eq!(buffer.len(), 64);
    assert!(buffer.iter().any(|b| *b != 0));
}

#[test]
fn power_of_two_ceiling_of_lambda() {
    assert_eq!(get_smallest_greater_or_equal_power_of_two(1.0f64.to_bits()).unwrap(), 0);
    assert_eq!(get_smallest_greater_or_equal_power_of_two(1.5f64.to_bits()).unwrap(), 1);
    assert_eq!(get_smallest_greater_or_equal_power_of_two(0.3f64.to_bits()).unwrap(), -1);
    assert_eq!(get_smallest_greater_or_equal_power_of_two(4.0f64.to_bits()).unwrap(), 2);
    assert_eq!(
        get_smallest_greater_or_equal_power_of_two((-1.0f64).to_bits()).unwrap_err().kind,
        ErrorKind::InvalidParameter
    );
    assert!(get_smallest_greater_or_equal_power_of_two(0.0f64.to_bits()).is_err());
    assert!(get_smallest_greater_or_equal_power_of_two(f64::INFINITY.to_bits()).is_err());
}

fn clamp(x: f64, lo: f64, hi: f64) -> f64 {
    f64::from_bits(clamp_bits(x.to_bits(), lo.to_bits(), hi.to_bits()).unwrap())
}

#[test]
fn clamp_bits_follows_number_order() {
    assert_eq!(clamp(0.7, 0.0, 1.0), 0.7);
    assert_eq!(clamp(-3.5, -1.0, 2.0), -1.0);
    assert_eq!(clamp(2.5, -1.0, 2.0), 2.0);
    assert_eq!(clamp(-0.5, -1.0, -0.25), -0.5);
    assert_eq!(clamp(f64::INFINITY, -1.0, 1.0), 1.0);
    assert_eq!(clamp(f64::NEG_INFINITY, -1.0, 1.0), -1.0);
    assert_eq!(clamp(1e-300, 0.0, 1.0), 1e-300);
}

#[test]
fn clamp_bits_rejects_bad_bounds_and_nan() {
    let err = clamp_bits(0.5f64.to_bits(), 1.0f64.to_bits(), 0.0f64.to_bits()).unwrap_err();
    assert_eq!(err.kind, ErrorKind::InvalidParameter);
    assert!(clamp_bits(f64::NAN.to_bits(), 0.0f64.to_bits(), 1.0f64.to_bits()).is_err());
    assert!(clamp_bits(0.5f64.to_bits(), 0.0f64.to_bits(), f64::INFINITY.to_bits()).is_err());
}

#[test]
fn snapping_steps_land_on_unit_lattice_within_bounds() {
    // lambda = sensitivity / epsilon = 1 rounds to 2^0
    let m = get_smallest_greater_or_equal_power_of_two(1.0f64.to_bits()).unwrap();
    assert_eq!(m, 0);
    for noised in [0.7f64, -0.4, 0.49, 0.5, 1.7, -3.2, 12.5, 0.0] {
        let snapped = get_closest_multiple_of_lambda(noised.to_bits(), m).unwrap();
        let released = f64::from_bits(clamp_bits(snapped, 0.0f64.to_bits(), 1.0f64.to_bits()).unwrap());
        assert!((0.0..=1.0).contains(&released));
        assert_eq!(released.fract(), 0.0);
    }
}
