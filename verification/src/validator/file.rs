//! Whether a file can be parsed: it must exist and must not be binary.
use vstd::prelude::*;

use crate::validator::error::ValidatorError;

verus! {

/// How many bytes from the start of a file are looked at to tell whether
/// it is binary.
pub const PROBE_LEN: usize = 8192;

/// A file is binary when the bytes read from its start hold a NUL byte.
pub fn is_binary(head: &[u8]) -> (r: bool)
    ensures
        r == head@.contains(0u8),
{
    let mut i: usize = 0;
    while i < head.len()
        invariant
            i <= head.len(),
            forall|j: int| 0 <= j < i ==> head@[j] != 0u8,
        decreases head.len() - i,
    {
        if head[i] == 0 {
            assert(head@[i as int] == 0u8);
            return true;
        }
        i += 1;
    }
    false
}

/// Decides whether the file at `path` can be parsed, from whether it exists
/// and from the bytes read from its start (at most `PROBE_LEN` of them).
pub fn validate_file(path: &str, exists: bool, head: &[u8]) -> (r: Result<(), ValidatorError>)
    ensures
        !exists ==> (r matches Err(ValidatorError::FileNotExist { path: p }) && p@ == path@),
        exists && head@.contains(0u8) ==> (r matches Err(ValidatorError::BinaryFile { path: p })
            && p@ == path@),
        exists && !head@.contains(0u8) ==> r is Ok,
{
    if !exists {
        return Err(ValidatorError::FileNotExist { path: path.to_owned() });
    }
    if is_binary(head) {
        return Err(ValidatorError::BinaryFile { path: path.to_owned() });
    }
    Ok(())
}

} // verus!
