//! Whether the output blocks of the output files hold what the input blocks
//! of the input files hold.
use vstd::prelude::*;

use crate::checker::check::{
    block_refs, check_sync, issue_views, output_spans_fit, spans_fit, sync_issues, SyncIssue,
};
use crate::cmd::utils::{all_blocks, into_blocks};
use crate::engine::checker::{
    all_distinct, all_offered, blocks_input_ids, files_input_ids, files_output_ids,
    is_first_duplicate, is_first_missing,
};
use crate::types::ParsedFile;
use crate::validator::error::ValidatorError;
use crate::validator::id::{span_file_views, validate_duplicated_input_ids, validate_missing_ids};

verus! {

/// Checks the output files against the input files: every output ID must be
/// offered by an input block and no input ID may be offered twice (the
/// first failing check is the error); then the output blocks whose content
/// differs from that of their input block are the issues. `None` where the
/// markers of an output block with an ID do not lie within its file.
pub fn check_files(input_files: Vec<ParsedFile>, output_files: &[ParsedFile]) -> (r: Option<
    Result<Vec<SyncIssue>, ValidatorError>,
>)
    ensures
        !all_offered(
            files_output_ids(span_file_views(output_files@)),
            files_input_ids(span_file_views(input_files@)),
        ) ==> (r matches Some(Err(e)) && e matches ValidatorError::MissingInputID { id }
            && is_first_missing(
            files_output_ids(span_file_views(output_files@)),
            files_input_ids(span_file_views(input_files@)),
            id@,
        )),
        all_offered(
            files_output_ids(span_file_views(output_files@)),
            files_input_ids(span_file_views(input_files@)),
        ) && !all_distinct(blocks_input_ids(all_blocks(span_file_views(input_files@)))) ==> (
        r matches Some(Err(e)) && e matches ValidatorError::DuplicatedInputID { id }
            && is_first_duplicate(blocks_input_ids(all_blocks(span_file_views(input_files@))), id@)),
        all_offered(
            files_output_ids(span_file_views(output_files@)),
            files_input_ids(span_file_views(input_files@)),
        ) && all_distinct(blocks_input_ids(all_blocks(span_file_views(input_files@)))) ==> match r {
            Some(Ok(v)) => output_spans_fit(span_file_views(output_files@)) && issue_views(v@)
                == sync_issues(
                all_blocks(span_file_views(input_files@)),
                span_file_views(output_files@),
            ),
            Some(Err(_)) => false,
            None => !output_spans_fit(span_file_views(output_files@)),
        },
{
    match validate_missing_ids(output_files, input_files.as_slice()) {
        Err(e) => {
            return Some(Err(e));
        },
        Ok(()) => {},
    }
    let input_blocks = into_blocks(input_files);
    match validate_duplicated_input_ids(input_blocks.as_slice()) {
        Err(e) => {
            return Some(Err(e));
        },
        Ok(()) => {},
    }
    if !spans_fit(output_files) {
        return None;
    }
    let refs = block_refs(&input_blocks);
    Some(Ok(check_sync(refs.as_slice(), output_files)))
}

} // verus!
