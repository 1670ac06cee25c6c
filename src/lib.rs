//! Resolution of absolute build-target labels into import directives.

pub mod imports;
pub mod label;
pub mod literal;
pub mod laws;
pub mod text;
