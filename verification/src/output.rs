//! How listings are shown.
use vstd::prelude::*;

verus! {

/// The format of a listing: a table or JSON.
#[derive(Debug, Clone, Copy, PartialEq, Eq, Structural)]
pub enum OutputFormat {
    Table,
    Json,
}

} // verus!
