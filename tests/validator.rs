use smartnoise_core::mechanisms::simple_geometric_release;
use smartnoise_core::validator::{
    parse_data_type, propagate_mechanism_property, sensitivity_space, AggregatorKind, ArrayProperties, DataType, Mechanism, Neighboring,
    NodeProperties, PrivacyDefinition, SensitivitySpace, ValueProperties,
};
use smartnoise_core::ErrorKind;

fn definition(protect_floating_point: bool) -> Option<PrivacyDefinition> {
    Some(PrivacyDefinition {
        protect_elapsed_time: false,
        protect_floating_point,
        group_size: 1,
        strict_parameter_checks: false,
        neighboring: Neighboring::AddRemove,
    })
}

fn mean_of_clamped(num_records: i64) -> ArrayProperties {
    ArrayProperties {
        num_records: Some(num_records),
        num_columns: Some(1),
        nullity: false,
        releasable: false,
        aggregator: Some(AggregatorKind::Mean),
        data_type: DataType::F64,
        dataset_id: Some(0),
        is_not_empty: true,
        dimensionality: Some(1),
    }
}

fn node(data: ArrayProperties) -> NodeProperties {
    NodeProperties { data: Some(ValueProperties::Array(data)) }
}

#[test]
fn laplace_on_mean_is_released() {
    let out = propagate_mechanism_property(Mechanism::Laplace, &definition(false), &node(mean_of_clamped(100))).unwrap();
    assert!(out.releasable);
    assert_eq!(out.aggregator, None);
    assert_eq!(out.num_records, Some(100));
    assert_eq!(out.data_type, DataType::F64);
}

#[test]
fn laplace_rejected_under_floating_point_protection() {
    let err = propagate_mechanism_property(Mechanism::Laplace, &definition(true), &node(mean_of_clamped(100))).unwrap_err();
    assert_eq!(err.kind, ErrorKind::PropertyViolation);
    assert!(err.message.contains("susceptible to floating-point attacks"));
    // snapping is the mechanism meant for that setting
    assert!(propagate_mechanism_property(Mechanism::Snapping, &definition(true), &node(mean_of_clamped(100))).is_ok());
}

#[test]
fn mechanism_rejects_released_or_unaggregated_input() {
    for mechanism in [Mechanism::Laplace, Mechanism::Gaussian, Mechanism::Snapping, Mechanism::Exponential] {
        let mut released = mean_of_clamped(10);
        released.releasable = true;
        let err = propagate_mechanism_property(mechanism, &definition(false), &node(released)).unwrap_err();
        assert_eq!(err.kind, ErrorKind::PropertyViolation);
        let mut raw = mean_of_clamped(10);
        raw.aggregator = None;
        let err = propagate_mechanism_property(mechanism, &definition(false), &node(raw)).unwrap_err();
        assert_eq!(err.kind, ErrorKind::PropertyViolation);
    }
}

#[test]
fn mechanism_checks_definition_and_types() {
    let data = node(mean_of_clamped(10));
    assert_eq!(propagate_mechanism_property(Mechanism::Laplace, &None, &data).unwrap_err().kind, ErrorKind::MissingArgument);
    let mut zero_group = definition(false).unwrap();
    zero_group.group_size = 0;
    assert_eq!(
        propagate_mechanism_property(Mechanism::Laplace, &Some(zero_group), &data).unwrap_err().kind,
        ErrorKind::InvalidParameter
    );
    assert_eq!(
        propagate_mechanism_property(Mechanism::SimpleGeometric, &definition(false), &data).unwrap_err().kind,
        ErrorKind::TypeMismatch
    );
    let missing = NodeProperties { data: None };
    assert_eq!(
        propagate_mechanism_property(Mechanism::Gaussian, &definition(false), &missing).unwrap_err().kind,
        ErrorKind::MissingArgument
    );
    let jagged = NodeProperties { data: Some(ValueProperties::Jagged) };
    assert_eq!(
        propagate_mechanism_property(Mechanism::Gaussian, &definition(false), &jagged).unwrap_err().kind,
        ErrorKind::TypeMismatch
    );
    let mut counts = mean_of_clamped(10);
    counts.data_type = DataType::I64;
    counts.aggregator = Some(AggregatorKind::Count);
    assert!(propagate_mechanism_property(Mechanism::SimpleGeometric, &definition(false), &node(counts)).is_ok());
}

#[test]
fn geometric_release_stays_in_bounds() {
    for noise in -10i64..=10 {
        let r = simple_geometric_release(0, noise, -3, 3).unwrap();
        assert!((-3..=3).contains(&r));
        assert_eq!(r, noise.clamp(-3, 3));
    }
    assert_eq!(simple_geometric_release(i64::MAX, i64::MAX, -3, 3).unwrap(), 3);
    assert_eq!(simple_geometric_release(i64::MIN, i64::MIN, -3, 3).unwrap(), -3);
    assert_eq!(simple_geometric_release(5, 1, 0, 10).unwrap(), 6);
}

#[test]
fn geometric_release_rejects_inverted_bounds() {
    assert_eq!(simple_geometric_release(0, 0, 3, -3).unwrap_err().kind, ErrorKind::InvalidParameter);
}

#[test]
fn data_source_types_by_name() {
    assert_eq!(parse_data_type("BOOL").unwrap(), DataType::Bool);
    assert_eq!(parse_data_type("I64").unwrap(), DataType::I64);
    assert_eq!(parse_data_type("F64").unwrap(), DataType::F64);
    assert_eq!(parse_data_type("STRING").unwrap(), DataType::Str);
    assert_eq!(parse_data_type("f64").unwrap_err().kind, ErrorKind::TypeMismatch);
    assert_eq!(parse_data_type("BYTES").unwrap_err().kind, ErrorKind::TypeMismatch);
}

#[test]
fn sensitivity_spaces_per_mechanism() {
    assert_eq!(sensitivity_space(Mechanism::Laplace), SensitivitySpace::KNorm(1));
    assert_eq!(sensitivity_space(Mechanism::Snapping), SensitivitySpace::KNorm(1));
    assert_eq!(sensitivity_space(Mechanism::SimpleGeometric), SensitivitySpace::KNorm(1));
    assert_eq!(sensitivity_space(Mechanism::Gaussian), SensitivitySpace::KNorm(2));
    assert_eq!(sensitivity_space(Mechanism::Exponential), SensitivitySpace::Exponential);
}
