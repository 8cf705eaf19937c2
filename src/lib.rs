//! Differentially private release mechanisms and the analysis-graph runtime
//! around them: bit-exact IEEE-754 rounding and clipping for the snapping
//! mechanism, binary encodings of doubles, random bytes, arrays with
//! column-wise broadcasting of per-column arguments, the integer releases of
//! the geometric mechanism, the validator's checks on mechanism inputs, the
//! choice of imputation, and the evaluation order of a graph.

pub mod array;
pub mod binary;
pub mod error;
pub mod graph;
pub mod ieee;
pub mod impute;
pub mod mechanisms;
pub mod random;
mod text;
pub mod validator;

pub use error::{Error, ErrorKind};
