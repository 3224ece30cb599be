//! The rows of the listing of marker blocks.
use vstd::prelude::*;

use crate::engine::checker::file_views;
use crate::engine::types::{
    block_views, BlockRole, BlockView, FileView, MarkerInfo, MarkerType, ParsedFile, RoleView,
};
use crate::text::{push_decimal, push_str};
use crate::types::span_display;

verus! {

/// A listed row as plain values.
pub struct RowView {
    pub file: Seq<char>,
    pub id: Seq<char>,
    pub marker_type: MarkerType,
    pub lines: Seq<char>,
}

impl View for MarkerInfo {
    type V = RowView;

    open spec fn view(&self) -> RowView {
        RowView {
            file: self.file@,
            id: self.id@,
            marker_type: self.marker_type,
            lines: self.lines@,
        }
    }
}

/// The views of a sequence of rows.
pub open spec fn row_views(v: Seq<MarkerInfo>) -> Seq<RowView> {
    v.map_values(|r: MarkerInfo| r@)
}

/// The rows of one block: one per input ID of an input block, one for the ID
/// of an output block, none otherwise.
pub open spec fn block_rows(path: Seq<char>, b: BlockView) -> Seq<RowView> {
    match b.role {
        RoleView::Input(ids, _) => Seq::new(
            ids.len(),
            |k: int|
                RowView {
                    file: path,
                    id: ids[k],
                    marker_type: MarkerType::Input,
                    lines: span_display(b.begin, b.end),
                },
        ),
        RoleView::Output(Some(id)) => seq![
            RowView {
                file: path,
                id,
                marker_type: MarkerType::Output,
                lines: span_display(b.begin, b.end),
            },
        ],
        _ => seq![],
    }
}

/// The rows of the blocks of one file, in order.
pub open spec fn file_rows(path: Seq<char>, bs: Seq<BlockView>) -> Seq<RowView>
    decreases bs.len(),
{
    if bs.len() == 0 {
        seq![]
    } else {
        file_rows(path, bs.drop_last()) + block_rows(path, bs.last())
    }
}

/// The rows of the blocks of the files, in order.
pub open spec fn listing(fs: Seq<FileView>) -> Seq<RowView>
    decreases fs.len(),
{
    if fs.len() == 0 {
        seq![]
    } else {
        listing(fs.drop_last()) + file_rows(fs.last().path, fs.last().blocks)
    }
}

/// Every row of the listing of a file names that file.
pub proof fn law_file_rows_name_the_file(path: Seq<char>, bs: Seq<BlockView>)
    ensures
        forall|k: int| 0 <= k < file_rows(path, bs).len() ==> (#[trigger] file_rows(path, bs)[k]).file
            == path,
    decreases bs.len(),
{
    if bs.len() > 0 {
        law_file_rows_name_the_file(path, bs.drop_last());
        let a = file_rows(path, bs.drop_last());
        let b = block_rows(path, bs.last());
        assert(file_rows(path, bs) == a + b);
        assert forall|k: int| 0 <= k < (a + b).len() implies (#[trigger] (a + b)[k]).file == path by {
            if k < a.len() {
                assert((a + b)[k] == a[k]);
            } else {
                assert((a + b)[k] == b[k - a.len()]);
            }
        }
    }
}

/// The listing of several files is the listing of each file alone, in
/// order: the listing of files put together is the listings put together,
/// and the listing of one file is its rows, each naming that file.
pub proof fn law_listing_of_files(fs: Seq<FileView>, gs: Seq<FileView>)
    ensures
        listing(fs + gs) == listing(fs) + listing(gs),
        forall|f: FileView| #[trigger] listing(seq![f]) == file_rows(f.path, f.blocks),
    decreases gs.len(),
{
    assert forall|f: FileView| #[trigger] listing(seq![f]) == file_rows(f.path, f.blocks) by {
        assert(seq![f].drop_last() =~= Seq::<FileView>::empty());
        assert(seq![f].last() == f);
        assert(listing(Seq::<FileView>::empty()) == Seq::<RowView>::empty());
        assert(listing(seq![f]) == listing(seq![f].drop_last()) + file_rows(f.path, f.blocks));
        assert(Seq::<RowView>::empty() + file_rows(f.path, f.blocks) =~= file_rows(f.path, f.blocks));
    }
    if gs.len() == 0 {
        assert(fs + gs =~= fs);
        assert(listing(fs) + listing(gs) =~= listing(fs));
    } else {
        law_listing_of_files(fs, gs.drop_last());
        assert((fs + gs).drop_last() =~= fs + gs.drop_last());
        assert((fs + gs).last() == gs.last());
        assert(listing(fs) + listing(gs) =~= listing(fs) + listing(gs.drop_last()) + file_rows(
            gs.last().path,
            gs.last().blocks,
        ));
    }
}

/// The line numbers of every block can be shown 1-based.
pub open spec fn lines_displayable(fs: Seq<FileView>) -> bool {
    forall|i: int, j: int|
        0 <= i < fs.len() && 0 <= j < fs[i].blocks.len() ==> #[trigger] fs[i].blocks[j].begin
            < usize::MAX && fs[i].blocks[j].end < usize::MAX
}

/// The patterns to list: the given ones, or the current directory when none
/// is given.
pub fn list_patterns(input: Vec<String>) -> (r: Vec<String>)
    ensures
        input.len() == 0 ==> r.deep_view() == seq![seq!['.']],
        input.len() > 0 ==> r == input,
{
    if input.len() == 0 {
        let mut dot = String::new();
        let d: Vec<char> = vec!['.'];
        crate::text::push_chars(&mut dot, d.as_slice());
        assert(dot@ =~= seq!['.']);
        let r = vec![dot];
        assert(r.deep_view() =~= seq![seq!['.']]);
        r
    } else {
        input
    }
}

/// The 1-based line numbers of a block, as `begin-end`.
fn block_lines(begin: usize, end: usize) -> (r: String)
    requires
        begin < usize::MAX,
        end < usize::MAX,
    ensures
        r@ == span_display(begin, end),
{
    let mut r = String::new();
    push_decimal(&mut r, begin + 1);
    push_str(&mut r, "-");
    push_decimal(&mut r, end + 1);
    assert(r@ =~= span_display(begin, end));
    r
}

/// The rows of the listing of the marker blocks of the files: for each
/// block in order, one row per input ID, or one row for an output ID.
pub fn run(files: &[ParsedFile]) -> (rows: Vec<MarkerInfo>)
    requires
        lines_displayable(file_views(files@)),
    ensures
        row_views(rows@) == listing(file_views(files@)),
{
    let ghost fv = file_views(files@);
    let mut rows: Vec<MarkerInfo> = Vec::new();
    let mut i: usize = 0;
    while i < files.len()
        invariant
            i <= files.len(),
            fv == file_views(files@),
            lines_displayable(fv),
            row_views(rows@) == listing(fv.take(i as int)),
        decreases files.len() - i,
    {
        let file = &files[i];
        assert(fv.take(i + 1).drop_last() =~= fv.take(i as int));
        assert(fv[i as int] == file@);
        let ghost base = row_views(rows@);
        let ghost bv = block_views(file.blocks@);
        let mut j: usize = 0;
        while j < file.blocks.len()
            invariant
                i < files.len(),
                j <= file.blocks.len(),
                file == &files[i as int],
                fv == file_views(files@),
                fv[i as int] == file@,
                lines_displayable(fv),
                bv == block_views(file.blocks@),
                row_views(rows@) == base + file_rows(file.path@, bv.take(j as int)),
            decreases file.blocks.len() - j,
        {
            let block = &file.blocks[j];
            assert(bv.take(j + 1).drop_last() =~= bv.take(j as int));
            assert(bv[j as int] == block@);
            assert(fv[i as int].blocks[j as int] == block@);
            assert(fv[i as int].blocks[j as int].begin < usize::MAX && fv[i as int].blocks[
                j as int].end < usize::MAX);
            let ghost mid = row_views(rows@);
            match &block.role {
                BlockRole::Input { ids, .. } => {
                    let mut k: usize = 0;
                    while k < ids.len()
                        invariant
                            k <= ids.len(),
                            block.begin_line < usize::MAX,
                            block.end_line < usize::MAX,
                            block.role@ == RoleView::Input(ids.deep_view(), block.role@->1),
                            row_views(rows@) == mid + block_rows(file.path@, block@).take(
                                k as int,
                            ),
                        decreases ids.len() - k,
                    {
                        let row = MarkerInfo {
                            file: file.path.clone(),
                            marker_type: MarkerType::Input,
                            id: ids[k].clone(),
                            lines: block_lines(block.begin_line, block.end_line),
                        };
                        let ghost before = row_views(rows@);
                        rows.push(row);
                        assert(row_views(rows@) =~= before.push(row@));
                        assert(block_rows(file.path@, block@).take(k + 1) =~= block_rows(
                            file.path@,
                            block@,
                        ).take(k as int).push(row@));
                        k += 1;
                    }
                    assert(block_rows(file.path@, block@).take(ids.len() as int) =~= block_rows(
                        file.path@,
                        block@,
                    ));
                },
                BlockRole::Output { id } => {
                    match id {
                        Some(id) => {
                            let row = MarkerInfo {
                                file: file.path.clone(),
                                marker_type: MarkerType::Output,
                                id: id.clone(),
                                lines: block_lines(block.begin_line, block.end_line),
                            };
                            rows.push(row);
                            assert(row_views(rows@) =~= mid + block_rows(file.path@, block@));
                        },
                        None => {
                            assert(row_views(rows@) =~= mid + block_rows(file.path@, block@));
                        },
                    }
                },
                BlockRole::Default => {
                    assert(row_views(rows@) =~= mid + block_rows(file.path@, block@));
                },
            }
            assert(file_rows(file.path@, bv.take(j + 1)) == file_rows(file.path@, bv.take(j as int))
                + block_rows(file.path@, block@));
            assert(row_views(rows@) =~= base + file_rows(file.path@, bv.take(j + 1)));
            j += 1;
        }
        assert(bv.take(file.blocks.len() as int) =~= bv);
        i += 1;
    }
    assert(fv.take(files.len() as int) =~= fv);
    rows
}

/// Whether the line numbers of every block can be shown 1-based.
pub fn lines_fit(files: &[ParsedFile]) -> (r: bool)
    ensures
        r == lines_displayable(file_views(files@)),
{
    let ghost fv = file_views(files@);
    let mut i: usize = 0;
    while i < files.len()
        invariant
            i <= files.len(),
            fv == file_views(files@),
            forall|k: int, m: int|
                0 <= k < i && 0 <= m < fv[k].blocks.len() ==> #[trigger] fv[k].blocks[m].begin
                    < usize::MAX && fv[k].blocks[m].end < usize::MAX,
        decreases files.len() - i,
    {
        let f = &files[i];
        assert(fv[i as int] == f@);
        let mut j: usize = 0;
        while j < f.blocks.len()
            invariant
                i < files.len(),
                fv == file_views(files@),
                fv[i as int] == f@,
                j <= f.blocks.len(),
                forall|k: int, m: int|
                    0 <= k < i && 0 <= m < fv[k].blocks.len() ==> #[trigger] fv[k].blocks[m].begin
                        < usize::MAX && fv[k].blocks[m].end < usize::MAX,
                forall|m: int|
                    0 <= m < j ==> #[trigger] fv[i as int].blocks[m].begin < usize::MAX
                        && fv[i as int].blocks[m].end < usize::MAX,
            decreases f.blocks.len() - j,
        {
            let b = &f.blocks[j];
            assert(fv[i as int].blocks[j as int] == b@);
            if b.begin_line == usize::MAX || b.end_line == usize::MAX {
                assert(!(fv[i as int].blocks[j as int].begin < usize::MAX && fv[i as int].blocks[
                    j as int].end < usize::MAX));
                return false;
            }
            j += 1;
        }
        i += 1;
    }
    true
}

} // verus!
