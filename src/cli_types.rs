//! The values that the command-line tools take.
use vstd::prelude::*;

use crate::model::Format;

verus! {

/// A format as named on the command line.
#[derive(Debug, PartialEq, Eq, Clone, Copy, Structural)]
pub enum CliFormat {
    Text,
    Csv,
    Bin,
}

impl From<CliFormat> for Format {
    fn from(value: CliFormat) -> Self {
        match value {
            CliFormat::Bin => Format::Bin,
            CliFormat::Csv => Format::Csv,
            CliFormat::Text => Format::Text,
        }
    }
}

impl vstd::std_specs::convert::FromSpecImpl<CliFormat> for Format {
    open spec fn obeys_from_spec() -> bool {
        true
    }

    open spec fn from_spec(v: CliFormat) -> Format {
        match v {
            CliFormat::Bin => Format::Bin,
            CliFormat::Csv => Format::Csv,
            CliFormat::Text => Format::Text,
        }
    }
}

/// Arguments of the comparing tool: two files and their formats.
#[derive(Debug, Clone)]
pub struct ComparerCli {
    pub file1: String,
    pub format1: CliFormat,
    pub file2: String,
    pub format2: CliFormat,
}

/// Arguments of the converting tool: input and output files and their formats.
#[derive(Debug, Clone)]
pub struct ConverterCli {
    pub input: String,
    pub input_format: CliFormat,
    pub output: String,
    pub output_format: CliFormat,
}

} // verus!
