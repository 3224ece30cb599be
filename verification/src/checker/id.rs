//! Checks on the IDs of located marker blocks, with the errors of marker
//! extraction: every output ID must be offered by an input block, and no
//! input ID may be offered twice.
use vstd::prelude::*;

use crate::engine::checker::{
    all_distinct, all_offered, blocks_input_ids, files_input_ids, files_output_ids,
    first_duplicate_id, first_missing_id, is_first_duplicate, is_first_missing,
};
use crate::engine::types::{Error, ErrorView};
use crate::types::{span_block_views, MarkerBlock, ParsedFile};
use crate::validator::id::{files_input_ids_of, files_output_ids_of, input_ids_of, span_file_views};

verus! {

/// Every output ID of the output files must be an input ID of the input
/// files; the first one that is not is the error.
pub fn check_missing_ids(output_files: &[ParsedFile], input_files: &[ParsedFile]) -> (r: Result<
    (),
    Error,
>)
    ensures
        r is Ok <==> all_offered(
            files_output_ids(span_file_views(output_files@)),
            files_input_ids(span_file_views(input_files@)),
        ),
        r matches Err(e) ==> (e@ matches ErrorView::MissingInputId(id) && is_first_missing(
            files_output_ids(span_file_views(output_files@)),
            files_input_ids(span_file_views(input_files@)),
            id,
        )),
{
    let ins = files_input_ids_of(input_files);
    let outs = files_output_ids_of(output_files);
    match first_missing_id(&outs, &ins) {
        Some(id) => Err(Error::MissingInputId { id }),
        None => Ok(()),
    }
}

/// No input ID may be offered twice by the blocks; the first repeated one
/// is the error.
pub fn check_duplicated_input_ids(blocks: &[MarkerBlock]) -> (r: Result<(), Error>)
    ensures
        r is Ok <==> all_distinct(blocks_input_ids(span_block_views(blocks@))),
        r matches Err(e) ==> (e@ matches ErrorView::DuplicatedInputId(id) && is_first_duplicate(
            blocks_input_ids(span_block_views(blocks@)),
            id,
        )),
{
    let ids = input_ids_of(blocks);
    match first_duplicate_id(&ids) {
        Some(id) => Err(Error::DuplicatedInputId { id }),
        None => Ok(()),
    }
}

} // verus!
