//! The choice of how missing values of a column are imputed.
use vstd::prelude::*;

use crate::error::{Error, ErrorKind};
use crate::text::same_chars;

verus! {

/// How a node fills in missing values.
#[derive(Debug, Clone, Copy, PartialEq, Eq, Structural)]
pub enum ImputeMethod {
    /// Replace null values by draws from the column's categories.
    Categorical,
    /// Replace NaNs by uniform draws within the column's bounds.
    Uniform,
    /// Replace NaNs by draws from a Gaussian truncated to the column's bounds.
    Gaussian,
}

/// What `str::to_lowercase` makes of a string.
pub uninterp spec fn lower_of(s: Seq<char>) -> Seq<char>;

/// Relies on `str::to_lowercase`: its result depends on the characters of `s`
/// alone, and the empty string stays empty.
#[verifier::external_body]
fn lowercase(s: &str) -> (r: String)
    ensures
        r@ == lower_of(s@),
        s@.len() == 0 ==> r@.len() == 0,
{
    s.to_lowercase()
}

/// The continuous imputation that a lower-case distribution name selects.
pub open spec fn distribution_named(name: Seq<char>) -> Option<ImputeMethod> {
    if name == "uniform"@ {
        Some(ImputeMethod::Uniform)
    } else if name == "gaussian"@ {
        Some(ImputeMethod::Gaussian)
    } else {
        None
    }
}

/// The continuous imputation named by `name`, which is already in lower case.
///
/// A name other than `uniform` or `gaussian` gives `InvalidParameter`.
pub fn distribution_from_lowercase(name: &str) -> (r: Result<ImputeMethod, Error>)
    ensures
        r is Ok <==> distribution_named(name@) is Some,
        r is Ok ==> r->Ok_0 == distribution_named(name@)->Some_0,
        r is Err ==> r->Err_0.kind == ErrorKind::InvalidParameter,
{
    if same_chars(name, "uniform") {
        Ok(ImputeMethod::Uniform)
    } else if same_chars(name, "gaussian") {
        Ok(ImputeMethod::Gaussian)
    } else {
        Err(Error::new(ErrorKind::InvalidParameter, "Distribution not supported"))
    }
}

/// How an impute node fills in missing values: categorically when the node
/// has categories; otherwise by the distribution it names, in any case of
/// letters, uniform when it names none.
///
/// An unknown distribution gives `InvalidParameter`.
pub fn impute_method(has_categories: bool, distribution: Option<&str>) -> (r: Result<
    ImputeMethod,
    Error,
>)
    ensures
        has_categories ==> r == Ok::<ImputeMethod, Error>(ImputeMethod::Categorical),
        !has_categories && distribution is None ==> r == Ok::<ImputeMethod, Error>(
            ImputeMethod::Uniform,
        ),
        !has_categories && distribution is Some ==> {
            let named = distribution_named(lower_of(distribution->Some_0@));
            &&& r is Ok <==> named is Some
            &&& r is Ok ==> r->Ok_0 == named->Some_0
            &&& r is Err ==> r->Err_0.kind == ErrorKind::InvalidParameter
        },
{
    if has_categories {
        return Ok(ImputeMethod::Categorical);
    }
    match distribution {
        None => Ok(ImputeMethod::Uniform),
        Some(name) => {
            let lower = lowercase(name);
            distribution_from_lowercase(lower.as_str())
        },
    }
}

} // verus!
