//! The blocks of parsed files, taken together.
use vstd::prelude::*;

use crate::engine::types::{BlockView, FileView};
use crate::types::{span_block_views, MarkerBlock, ParsedFile};
use crate::validator::id::span_file_views;

verus! {

/// The blocks of the files, file after file.
pub open spec fn all_blocks(fs: Seq<FileView>) -> Seq<BlockView>
    decreases fs.len(),
{
    if fs.len() == 0 {
        seq![]
    } else {
        fs[0].blocks + all_blocks(fs.drop_first())
    }
}

/// The blocks of the files, file after file.
pub fn into_blocks(files: Vec<ParsedFile>) -> (r: Vec<MarkerBlock>)
    ensures
        span_block_views(r@) == all_blocks(span_file_views(files@)),
{
    let ghost all = all_blocks(span_file_views(files@));
    let mut files = files;
    let mut r: Vec<MarkerBlock> = Vec::new();
    while files.len() > 0
        invariant
            span_block_views(r@) + all_blocks(span_file_views(files@)) == all,
        decreases files.len(),
    {
        let ghost fs = span_file_views(files@);
        let mut f = files.remove(0);
        assert(span_file_views(files@) =~= fs.drop_first());
        assert(fs[0] == f@);
        let ghost before = span_block_views(r@);
        let ghost added = span_block_views(f.blocks@);
        r.append(&mut f.blocks);
        assert(span_block_views(r@) =~= before + added);
        assert(before + added + all_blocks(fs.drop_first()) =~= before + all_blocks(fs));
    }
    assert(span_block_views(r@) + all_blocks(span_file_views(files@)) =~= span_block_views(r@));
    r
}

} // verus!
