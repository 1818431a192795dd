//! Settings of the placer that concern its input and output.

use vstd::prelude::*;

verus! {

/// Configuration variables related to input/output operations.
#[derive(Clone, Debug)]
pub struct IOConfig {
    /// Input file name (a protobuf-formatted yosys design).
    pub input_file: String,
    /// Output file name (a placement file).
    pub output_file: String,
    /// Directory of the structure database, derived from the path to the technology library.
    pub structure_directory: String,
}

} // verus!
