//! Transaction records in three interchangeable formats: `KEY: value` text
//! blocks, CSV, and a length-framed binary format. Each codec decodes a whole
//! input into records, or fails with the first error, and encodes records back.
use vstd::prelude::*;

pub mod bin_format;
pub mod cli_types;
pub mod codec;
pub mod compare;
pub mod csv_format;
pub mod error;
pub mod fields;
pub mod model;
pub mod number;
pub mod scan;
pub mod text_format;

verus! {

} // verus!
