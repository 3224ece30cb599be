//! Checks on files and on the blocks of located files.
use vstd::prelude::*;

use crate::engine::types::{Error, ErrorView};
use crate::validator::file::is_binary;

pub mod check;
pub mod id;

verus! {

/// Decides whether a file can be parsed, from whether it exists and from
/// the bytes read from its start: a missing file, then a binary one (a NUL
/// byte among those bytes), is the error.
pub fn check_file(exists: bool, head: &[u8]) -> (r: Result<(), Error>)
    ensures
        !exists ==> (r matches Err(e) && e@ == ErrorView::FileNotExist),
        exists && head@.contains(0u8) ==> (r matches Err(e) && e@ == ErrorView::BinaryFile),
        exists && !head@.contains(0u8) ==> r is Ok,
{
    if !exists {
        return Err(Error::FileNotExist);
    }
    if is_binary(head) {
        return Err(Error::BinaryFile);
    }
    Ok(())
}

} // verus!
