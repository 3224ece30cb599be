//! Checks on the IDs of located marker blocks: every output ID must be
//! offered by an input block, and no input ID may be offered twice.
use vstd::prelude::*;

use crate::engine::checker::{
    all_distinct, all_offered, blocks_input_ids, blocks_output_ids, files_input_ids,
    files_output_ids, first_duplicate_id, first_missing_id, is_first_duplicate, is_first_missing,
    push_input_ids, push_output_ids,
};
use crate::engine::types::FileView;
use crate::types::{span_block_views, MarkerBlock, ParsedFile};
use crate::validator::error::ValidatorError;

verus! {

/// The views of a sequence of parsed files.
pub open spec fn span_file_views(fs: Seq<ParsedFile>) -> Seq<FileView> {
    fs.map_values(|f: ParsedFile| f@)
}

/// The input IDs of the blocks, in order.
pub fn input_ids_of(blocks: &[MarkerBlock]) -> (r: Vec<String>)
    ensures
        r.deep_view() == blocks_input_ids(span_block_views(blocks@)),
{
    let mut r: Vec<String> = Vec::new();
    let mut i: usize = 0;
    while i < blocks.len()
        invariant
            i <= blocks.len(),
            r.deep_view() == blocks_input_ids(span_block_views(blocks@).take(i as int)),
        decreases blocks.len() - i,
    {
        assert(span_block_views(blocks@).take(i + 1).drop_last() =~= span_block_views(
            blocks@,
        ).take(i as int));
        push_input_ids(&mut r, &blocks[i].role);
        i += 1;
    }
    assert(span_block_views(blocks@).take(blocks.len() as int) =~= span_block_views(blocks@));
    r
}

/// The output IDs of the blocks, in order.
pub fn output_ids_of(blocks: &[MarkerBlock]) -> (r: Vec<String>)
    ensures
        r.deep_view() == blocks_output_ids(span_block_views(blocks@)),
{
    let mut r: Vec<String> = Vec::new();
    let mut i: usize = 0;
    while i < blocks.len()
        invariant
            i <= blocks.len(),
            r.deep_view() == blocks_output_ids(span_block_views(blocks@).take(i as int)),
        decreases blocks.len() - i,
    {
        assert(span_block_views(blocks@).take(i + 1).drop_last() =~= span_block_views(
            blocks@,
        ).take(i as int));
        push_output_ids(&mut r, &blocks[i].role);
        i += 1;
    }
    assert(span_block_views(blocks@).take(blocks.len() as int) =~= span_block_views(blocks@));
    r
}

/// The input IDs of the blocks of the files, in order.
pub fn files_input_ids_of(files: &[ParsedFile]) -> (r: Vec<String>)
    ensures
        r.deep_view() == files_input_ids(span_file_views(files@)),
{
    let mut r: Vec<String> = Vec::new();
    let mut i: usize = 0;
    while i < files.len()
        invariant
            i <= files.len(),
            r.deep_view() == files_input_ids(span_file_views(files@).take(i as int)),
        decreases files.len() - i,
    {
        assert(span_file_views(files@).take(i + 1).drop_last() =~= span_file_views(files@).take(
            i as int,
        ));
        let ghost before = r.deep_view();
        let mut more = input_ids_of(files[i].blocks.as_slice());
        let ghost extra = more.deep_view();
        r.append(&mut more);
        assert(r.deep_view() =~= before + extra);
        i += 1;
    }
    assert(span_file_views(files@).take(files.len() as int) =~= span_file_views(files@));
    r
}

/// The output IDs of the blocks of the files, in order.
pub fn files_output_ids_of(files: &[ParsedFile]) -> (r: Vec<String>)
    ensures
        r.deep_view() == files_output_ids(span_file_views(files@)),
{
    let mut r: Vec<String> = Vec::new();
    let mut i: usize = 0;
    while i < files.len()
        invariant
            i <= files.len(),
            r.deep_view() == files_output_ids(span_file_views(files@).take(i as int)),
        decreases files.len() - i,
    {
        assert(span_file_views(files@).take(i + 1).drop_last() =~= span_file_views(files@).take(
            i as int,
        ));
        let ghost before = r.deep_view();
        let mut more = output_ids_of(files[i].blocks.as_slice());
        let ghost extra = more.deep_view();
        r.append(&mut more);
        assert(r.deep_view() =~= before + extra);
        i += 1;
    }
    assert(span_file_views(files@).take(files.len() as int) =~= span_file_views(files@));
    r
}

/// Every output ID of the output files must be an input ID of the input
/// files; the first one that is not is the error.
pub fn validate_missing_ids(output_files: &[ParsedFile], input_files: &[ParsedFile]) -> (r: Result<
    (),
    ValidatorError,
>)
    ensures
        r is Ok <==> all_offered(
            files_output_ids(span_file_views(output_files@)),
            files_input_ids(span_file_views(input_files@)),
        ),
        r matches Err(e) ==> (e matches ValidatorError::MissingInputID { id } && is_first_missing(
            files_output_ids(span_file_views(output_files@)),
            files_input_ids(span_file_views(input_files@)),
            id@,
        )),
{
    let ins = files_input_ids_of(input_files);
    let outs = files_output_ids_of(output_files);
    match first_missing_id(&outs, &ins) {
        Some(id) => Err(ValidatorError::MissingInputID { id }),
        None => Ok(()),
    }
}

/// No input ID may be offered twice by the blocks; the first repeated one
/// is the error.
pub fn validate_duplicated_input_ids(blocks: &[MarkerBlock]) -> (r: Result<(), ValidatorError>)
    ensures
        r is Ok <==> all_distinct(blocks_input_ids(span_block_views(blocks@))),
        r matches Err(e) ==> (e matches ValidatorError::DuplicatedInputID { id }
            && is_first_duplicate(blocks_input_ids(span_block_views(blocks@)), id@)),
{
    let ids = input_ids_of(blocks);
    match first_duplicate_id(&ids) {
        Some(id) => Err(ValidatorError::DuplicatedInputID { id }),
        None => Ok(()),
    }
}

} // verus!
