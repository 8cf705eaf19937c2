//! Static checks on the inputs of differential-privacy mechanisms, and the
//! properties a mechanism's output carries.
use vstd::prelude::*;

use crate::error::{Error, ErrorKind};
use crate::text::same_chars;

verus! {

/// Element type of an array.
#[derive(Debug, Clone, Copy, PartialEq, Eq, Structural)]
pub enum DataType {
    Bool,
    I64,
    F64,
    Str,
    Unknown,
}

/// Which records count as neighbours.
#[derive(Debug, Clone, Copy, PartialEq, Eq, Structural)]
pub enum Neighboring {
    AddRemove,
    Substitute,
}

/// The settings under which a graph is analysed.
#[derive(Debug, Clone, Copy, PartialEq, Eq, Structural)]
pub struct PrivacyDefinition {
    pub protect_elapsed_time: bool,
    pub protect_floating_point: bool,
    pub group_size: u32,
    pub strict_parameter_checks: bool,
    pub neighboring: Neighboring,
}

/// The differential-privacy mechanisms.
#[derive(Debug, Clone, Copy, PartialEq, Eq, Structural)]
pub enum Mechanism {
    Laplace,
    Gaussian,
    SimpleGeometric,
    Snapping,
    Exponential,
}

/// The statistic that produced an unreleased aggregate.
#[derive(Debug, Clone, Copy, PartialEq, Eq, Structural)]
pub enum AggregatorKind {
    Count,
    Sum,
    Mean,
    Variance,
    KthRawSampleMoment,
    Median,
    Histogram,
}

/// What the validator knows statically of an array-valued edge of the graph.
#[derive(Debug, Clone, Copy, PartialEq, Eq, Structural)]
pub struct ArrayProperties {
    pub num_records: Option<i64>,
    pub num_columns: Option<i64>,
    pub nullity: bool,
    pub releasable: bool,
    pub aggregator: Option<AggregatorKind>,
    pub data_type: DataType,
    pub dataset_id: Option<i64>,
    pub is_not_empty: bool,
    pub dimensionality: Option<i64>,
}

/// What the validator knows statically of an edge of the graph.
#[derive(Debug, Clone, Copy, PartialEq, Eq, Structural)]
pub enum ValueProperties {
    Array(ArrayProperties),
    Jagged,
    Dataframe,
}

/// The properties of the arguments of a node; a mechanism reads its `data`.
#[derive(Debug, Clone, Copy, PartialEq, Eq, Structural)]
pub struct NodeProperties {
    pub data: Option<ValueProperties>,
}

/// The space in which a mechanism asks its input's aggregator for sensitivities.
#[derive(Debug, Clone, Copy, PartialEq, Eq, Structural)]
pub enum SensitivitySpace {
    /// The L1 (`k = 1`) or L2 (`k = 2`) norm.
    KNorm(u32),
    /// The utility sensitivity of the exponential mechanism.
    Exponential,
}

/// The sensitivity space of each mechanism: L1 for Laplace, snapping and the
/// geometric mechanism, L2 for Gaussian, utilities for the exponential one.
pub open spec fn sensitivity_space_of(mechanism: Mechanism) -> SensitivitySpace {
    match mechanism {
        Mechanism::Laplace | Mechanism::SimpleGeometric | Mechanism::Snapping => SensitivitySpace::KNorm(1),
        Mechanism::Gaussian => SensitivitySpace::KNorm(2),
        Mechanism::Exponential => SensitivitySpace::Exponential,
    }
}

/// The space in which `mechanism` needs the sensitivity of its input.
pub fn sensitivity_space(mechanism: Mechanism) -> (r: SensitivitySpace)
    ensures
        r == sensitivity_space_of(mechanism),
{
    match mechanism {
        Mechanism::Laplace | Mechanism::SimpleGeometric | Mechanism::Snapping => SensitivitySpace::KNorm(1),
        Mechanism::Gaussian => SensitivitySpace::KNorm(2),
        Mechanism::Exponential => SensitivitySpace::Exponential,
    }
}

/// Whether `mechanism` accepts elements of type `data_type`: floats for
/// Laplace, Gaussian and Snapping, integers for the geometric mechanism, and
/// anything for the exponential mechanism.
pub open spec fn accepts_type(mechanism: Mechanism, data_type: DataType) -> bool {
    match mechanism {
        Mechanism::Laplace | Mechanism::Gaussian | Mechanism::Snapping => data_type == DataType::F64,
        Mechanism::SimpleGeometric => data_type == DataType::I64,
        Mechanism::Exponential => true,
    }
}

/// The first check that a mechanism node fails, in the order the validator
/// makes them, or `None` when the node is accepted.
pub open spec fn mechanism_rejection(
    mechanism: Mechanism,
    privacy_definition: Option<PrivacyDefinition>,
    properties: NodeProperties,
) -> Option<ErrorKind> {
    match privacy_definition {
        None => Some(ErrorKind::MissingArgument),
        Some(definition) => if mechanism == Mechanism::Laplace && definition.protect_floating_point {
            Some(ErrorKind::PropertyViolation)
        } else if definition.group_size == 0 {
            Some(ErrorKind::InvalidParameter)
        } else {
            match properties.data {
                None => Some(ErrorKind::MissingArgument),
                Some(ValueProperties::Array(data)) => if !accepts_type(mechanism, data.data_type) {
                    Some(ErrorKind::TypeMismatch)
                } else if data.aggregator is None || data.releasable {
                    Some(ErrorKind::PropertyViolation)
                } else {
                    None
                },
                Some(_) => Some(ErrorKind::TypeMismatch),
            }
        },
    }
}

/// The array properties of a node's `data` argument, where it has them.
pub open spec fn data_of(properties: NodeProperties) -> ArrayProperties {
    match properties.data {
        Some(ValueProperties::Array(data)) => data,
        _ => arbitrary(),
    }
}

/// The properties of a mechanism's output, given those of its input: the same
/// array, now releasable and no longer an aggregate.
pub open spec fn released(data: ArrayProperties) -> ArrayProperties {
    ArrayProperties { releasable: true, aggregator: None, ..data }
}

/// Checks the input of a mechanism node and derives the properties of its output.
///
/// The node is rejected when the privacy definition is missing
/// (`MissingArgument`); when it is the Laplace mechanism and floating-point
/// protections are on (`PropertyViolation`); when the group size is zero
/// (`InvalidParameter`); when `data` is missing (`MissingArgument`), is not an
/// array or has an element type the mechanism does not take (`TypeMismatch`);
/// and when `data` is not an unreleased aggregate (`PropertyViolation`).
/// Otherwise the output is `data`, releasable and without aggregator.
pub fn propagate_mechanism_property(
    mechanism: Mechanism,
    privacy_definition: &Option<PrivacyDefinition>,
    properties: &NodeProperties,
) -> (r: Result<ArrayProperties, Error>)
    ensures
        r is Err <==> mechanism_rejection(mechanism, *privacy_definition, *properties) is Some,
        r is Err ==> r->Err_0.kind == mechanism_rejection(
            mechanism,
            *privacy_definition,
            *properties,
        )->Some_0,
        r is Ok ==> properties.data == Some(ValueProperties::Array(data_of(*properties)))
            && r->Ok_0 == released(data_of(*properties)),
{
    let definition = match privacy_definition {
        Some(d) => d,
        None => {
            return Err(Error::new(ErrorKind::MissingArgument, "privacy_definition must be defined"));
        },
    };
    if mechanism == Mechanism::Laplace && definition.protect_floating_point {
        return Err(
            Error::new(
                ErrorKind::PropertyViolation,
                "Floating-point protections are enabled. The laplace mechanism is susceptible to floating-point attacks.",
            ),
        );
    }
    if definition.group_size == 0 {
        return Err(Error::new(ErrorKind::InvalidParameter, "group size must be greater than zero"));
    }
    let data = match properties.data {
        None => {
            return Err(Error::new(ErrorKind::MissingArgument, "data: missing"));
        },
        Some(ValueProperties::Array(data)) => data,
        Some(_) => {
            return Err(Error::new(ErrorKind::TypeMismatch, "data: must be an array"));
        },
    };
    let accepted = match mechanism {
        Mechanism::Laplace | Mechanism::Gaussian | Mechanism::Snapping => data.data_type
            == DataType::F64,
        Mechanism::SimpleGeometric => data.data_type == DataType::I64,
        Mechanism::Exponential => true,
    };
    if !accepted {
        return Err(Error::new(ErrorKind::TypeMismatch, "data: wrong atomic type for this mechanism"));
    }
    if data.aggregator.is_none() {
        return Err(Error::new(ErrorKind::PropertyViolation, "aggregator: missing"));
    }
    if data.releasable {
        return Err(Error::new(ErrorKind::PropertyViolation, "data: already released"));
    }
    let mut output = data;
    output.releasable = true;
    output.aggregator = None;
    Ok(output)
}

/// A mechanism never accepts an input that is already releasable or that no
/// aggregator produced.
pub proof fn lemma_rejects_unaggregated_input(
    mechanism: Mechanism,
    privacy_definition: Option<PrivacyDefinition>,
    data: ArrayProperties,
)
    requires
        data.releasable || data.aggregator is None,
    ensures
        mechanism_rejection(
            mechanism,
            privacy_definition,
            NodeProperties { data: Some(ValueProperties::Array(data)) },
        ) is Some,
{
}

/// The element type that a data source's `datatype` argument names.
pub open spec fn data_type_named(name: Seq<char>) -> Option<DataType> {
    if name == "BOOL"@ {
        Some(DataType::Bool)
    } else if name == "I64"@ {
        Some(DataType::I64)
    } else if name == "F64"@ {
        Some(DataType::F64)
    } else if name == "STRING"@ {
        Some(DataType::Str)
    } else {
        None
    }
}

/// Reads the `datatype` argument of a data source: `BOOL`, `I64`, `F64` or
/// `STRING`. Any other name gives `TypeMismatch`.
pub fn parse_data_type(name: &str) -> (r: Result<DataType, Error>)
    ensures
        r is Ok <==> data_type_named(name@) is Some,
        r is Ok ==> r->Ok_0 == data_type_named(name@)->Some_0,
        r is Err ==> r->Err_0.kind == ErrorKind::TypeMismatch,
{
    if same_chars(name, "BOOL") {
        Ok(DataType::Bool)
    } else if same_chars(name, "I64") {
        Ok(DataType::I64)
    } else if same_chars(name, "F64") {
        Ok(DataType::F64)
    } else if same_chars(name, "STRING") {
        Ok(DataType::Str)
    } else {
        Err(Error::new(ErrorKind::TypeMismatch, "Datatype is not recognized."))
    }
}

} // verus!
