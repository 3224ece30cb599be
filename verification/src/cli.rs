//! The command line of the tool, as plain values.
use vstd::prelude::*;

use crate::marker::OutputID;

verus! {

/// The command line: the input and output patterns, whether to only show
/// the result, and the IDs of the output blocks to fill.
pub struct Cli {
    pub input: Vec<String>,
    pub output: Vec<String>,
    pub dry_run: bool,
    pub id: Vec<OutputID>,
}

} // verus!
