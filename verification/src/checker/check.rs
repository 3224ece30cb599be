//! Whether output blocks hold what their input blocks hold.
use vstd::prelude::*;

use crate::engine::marker::spec_matches_output;
use crate::engine::types::{BlockRole, BlockView, FileView, RoleView};
use crate::injector::{
    filled, filling, first_role_match, inject_text, law_injection_reads_back,
    law_single_block_filling,
};
use crate::text::{
    clean_lines, join_nl, join_range, lines, lines_of, pieces_clean, split_nl, views,
};
use crate::types::{span_block_views, MarkerBlock, ParsedFile, SourceSpan};
use crate::validator::id::span_file_views;

verus! {

/// An output block whose content differs from that of its input block.
pub struct SyncIssue {
    pub path: String,
    pub span: SourceSpan,
    pub id: String,
    pub expected: String,
    pub actual: String,
}

/// A sync issue as plain values.
pub struct IssueView {
    pub path: Seq<char>,
    pub begin: usize,
    pub end: usize,
    pub id: Seq<char>,
    pub expected: Seq<char>,
    pub actual: Seq<char>,
}

impl View for SyncIssue {
    type V = IssueView;

    open spec fn view(&self) -> IssueView {
        IssueView {
            path: self.path@,
            begin: self.span.begin_marker,
            end: self.span.end_marker,
            id: self.id@,
            expected: self.expected@,
            actual: self.actual@,
        }
    }
}

/// The views of a sequence of issues.
pub open spec fn issue_views(v: Seq<SyncIssue>) -> Seq<IssueView> {
    v.map_values(|i: SyncIssue| i@)
}

/// The views of a sequence of block references.
pub open spec fn ref_block_views(v: Seq<&MarkerBlock>) -> Seq<BlockView> {
    v.map_values(|b: &MarkerBlock| b@)
}

/// Index of the first input block from `i` on that matches the output role.
pub open spec fn first_match_from(inputs: Seq<BlockView>, out: RoleView, i: int) -> Option<int>
    decreases inputs.len() - i,
{
    if i < 0 || i >= inputs.len() {
        None
    } else if spec_matches_output(inputs[i].role, out) {
        Some(i)
    } else {
        first_match_from(inputs, out, i + 1)
    }
}

/// The content of an input role.
pub open spec fn input_text(r: RoleView) -> Seq<char> {
    match r {
        RoleView::Input(_, c) => c,
        _ => seq![],
    }
}

/// The text strictly between the markers of a block of a file.
pub open spec fn block_text(content: Seq<char>, b: BlockView) -> Seq<char> {
    join_nl(lines_of(content).subrange(b.begin + 1, b.end as int))
}

/// Every output block with an ID of the file lies within its lines, with
/// its end marker after its begin marker.
pub open spec fn file_spans_fit(f: FileView) -> bool {
    forall|j: int|
        0 <= j < f.blocks.len() && (#[trigger] f.blocks[j].role matches RoleView::Output(Some(_)))
            ==> f.blocks[j].begin < f.blocks[j].end <= lines_of(f.content).len()
}

/// Every output block with an ID lies within the lines of its file.
pub open spec fn output_spans_fit(fs: Seq<FileView>) -> bool {
    forall|i: int| 0 <= i < fs.len() ==> file_spans_fit(#[trigger] fs[i])
}

/// The issue of one output block: where an output block with an ID has a
/// matching input block (the first one) whose content differs from its own.
pub open spec fn block_issue(inputs: Seq<BlockView>, f: FileView, ob: BlockView) -> Seq<IssueView> {
    match ob.role {
        RoleView::Output(Some(id)) => match first_match_from(inputs, ob.role, 0) {
            Some(k) => {
                let expected = input_text(inputs[k].role);
                let actual = block_text(f.content, ob);
                if expected != actual {
                    seq![
                        IssueView {
                            path: f.path,
                            begin: ob.begin,
                            end: ob.end,
                            id,
                            expected,
                            actual,
                        },
                    ]
                } else {
                    seq![]
                }
            },
            None => seq![],
        },
        _ => seq![],
    }
}

/// The issues of the blocks of one file, in order.
pub open spec fn file_issues(inputs: Seq<BlockView>, f: FileView, bs: Seq<BlockView>) -> Seq<
    IssueView,
>
    decreases bs.len(),
{
    if bs.len() == 0 {
        seq![]
    } else {
        file_issues(inputs, f, bs.drop_last()) + block_issue(inputs, f, bs.last())
    }
}

/// The issues of the blocks of the files, in order.
pub open spec fn sync_issues(inputs: Seq<BlockView>, fs: Seq<FileView>) -> Seq<IssueView>
    decreases fs.len(),
{
    if fs.len() == 0 {
        seq![]
    } else {
        sync_issues(inputs, fs.drop_last()) + file_issues(inputs, fs.last(), fs.last().blocks)
    }
}

/// The index of the first input block that matches the output block.
fn find_match(input_blocks: &[&MarkerBlock], output_block: &MarkerBlock) -> (r: Option<usize>)
    ensures
        r matches Some(k) ==> k < input_blocks.len(),
        match r {
            Some(k) => first_match_from(ref_block_views(input_blocks@), output_block.role@, 0)
                == Some(k as int),
            None => first_match_from(ref_block_views(input_blocks@), output_block.role@, 0)
                is None,
        },
{
    let ghost iv = ref_block_views(input_blocks@);
    let mut i: usize = 0;
    while i < input_blocks.len()
        invariant
            i <= input_blocks.len(),
            iv == ref_block_views(input_blocks@),
            first_match_from(iv, output_block.role@, 0) == first_match_from(
                iv,
                output_block.role@,
                i as int,
            ),
        decreases input_blocks.len() - i,
    {
        assert(iv[i as int] == input_blocks@[i as int]@);
        if input_blocks[i].matches_output(output_block) {
            return Some(i);
        }
        i += 1;
    }
    None
}

/// The content of an input block.
fn input_content(b: &MarkerBlock) -> (r: String)
    ensures
        r@ == input_text(b.role@),
{
    match &b.role {
        BlockRole::Input { content, .. } => content.clone(),
        _ => String::new(),
    }
}

/// The issues of the blocks of one output file, in order.
fn check_file_sync(input_blocks: &[&MarkerBlock], output_file: &ParsedFile) -> (r: Vec<SyncIssue>)
    requires
        file_spans_fit(output_file@),
    ensures
        issue_views(r@) == file_issues(
            ref_block_views(input_blocks@),
            output_file@,
            output_file@.blocks,
        ),
{
    let ghost iv = ref_block_views(input_blocks@);
    let ghost f = output_file@;
    let ls = lines(output_file.content.as_str());
    let mut issues: Vec<SyncIssue> = Vec::new();
    let mut j: usize = 0;
    while j < output_file.blocks.len()
        invariant
            j <= output_file.blocks.len(),
            iv == ref_block_views(input_blocks@),
            f == output_file@,
            views(ls@) == lines_of(f.content),
            file_spans_fit(f),
            issue_views(issues@) == file_issues(iv, f, f.blocks.take(j as int)),
        decreases output_file.blocks.len() - j,
    {
        let output_block = &output_file.blocks[j];
        assert(f.blocks.take(j + 1).drop_last() =~= f.blocks.take(j as int));
        assert(f.blocks[j as int] == output_block@);
        let ghost before = issue_views(issues@);
        match &output_block.role {
            BlockRole::Output { id: Some(id) } => {
                match find_match(input_blocks, output_block) {
                    Some(k) => {
                        assert(iv[k as int] == input_blocks@[k as int]@);
                        let expected = input_content(input_blocks[k]);
                        assert(f.blocks[j as int].role matches RoleView::Output(Some(_)));
                        let b = output_block.span.begin_marker;
                        let e = output_block.span.end_marker;
                        let actual = join_range(&ls, b + 1, e);
                        if expected != actual {
                            let issue = SyncIssue {
                                path: output_file.path.clone(),
                                span: output_block.span,
                                id: id.clone(),
                                expected,
                                actual,
                            };
                            issues.push(issue);
                            assert(issue_views(issues@) =~= before + seq![issue@]);
                        } else {
                            assert(issue_views(issues@) =~= before + Seq::<IssueView>::empty());
                        }
                    },
                    None => {
                        assert(issue_views(issues@) =~= before + Seq::<IssueView>::empty());
                    },
                }
            },
            _ => {
                assert(issue_views(issues@) =~= before + Seq::<IssueView>::empty());
            },
        }
        j += 1;
    }
    assert(f.blocks.take(output_file.blocks.len() as int) =~= f.blocks);
    issues
}

/// The output blocks with an ID whose content differs from that of the
/// first input block that matches them, in file and block order.
pub fn check_sync(input_blocks: &[&MarkerBlock], output_files: &[ParsedFile]) -> (r: Vec<SyncIssue>)
    requires
        output_spans_fit(span_file_views(output_files@)),
    ensures
        issue_views(r@) == sync_issues(
            ref_block_views(input_blocks@),
            span_file_views(output_files@),
        ),
{
    let ghost iv = ref_block_views(input_blocks@);
    let ghost fv = span_file_views(output_files@);
    let mut issues: Vec<SyncIssue> = Vec::new();
    let mut i: usize = 0;
    while i < output_files.len()
        invariant
            i <= output_files.len(),
            iv == ref_block_views(input_blocks@),
            fv == span_file_views(output_files@),
            output_spans_fit(fv),
            issue_views(issues@) == sync_issues(iv, fv.take(i as int)),
        decreases output_files.len() - i,
    {
        assert(fv.take(i + 1).drop_last() =~= fv.take(i as int));
        assert(fv[i as int] == output_files@[i as int]@);
        assert(file_spans_fit(fv[i as int]));
        let ghost before = issue_views(issues@);
        let mut more = check_file_sync(input_blocks, &output_files[i]);
        let ghost extra = issue_views(more@);
        issues.append(&mut more);
        assert(issue_views(issues@) =~= before + extra);
        i += 1;
    }
    assert(fv.take(output_files.len() as int) =~= fv);
    issues
}

/// Whether every output block with an ID lies within the lines of its file,
/// with its end marker after its begin marker.
pub fn spans_fit(files: &[ParsedFile]) -> (r: bool)
    ensures
        r == output_spans_fit(span_file_views(files@)),
{
    let ghost fv = span_file_views(files@);
    let mut i: usize = 0;
    while i < files.len()
        invariant
            i <= files.len(),
            fv == span_file_views(files@),
            forall|k: int| 0 <= k < i ==> file_spans_fit(#[trigger] fv[k]),
        decreases files.len() - i,
    {
        let f = &files[i];
        let ghost v = f@;
        assert(fv[i as int] == v);
        let ls = lines(f.content.as_str());
        let mut j: usize = 0;
        while j < f.blocks.len()
            invariant
                i < files.len(),
                fv == span_file_views(files@),
                fv[i as int] == v,
                forall|k: int| 0 <= k < i ==> file_spans_fit(#[trigger] fv[k]),
                j <= f.blocks.len(),
                v == f@,
                views(ls@) == lines_of(v.content),
                forall|m: int|
                    0 <= m < j && (#[trigger] v.blocks[m].role matches RoleView::Output(Some(_)))
                        ==> v.blocks[m].begin < v.blocks[m].end <= lines_of(v.content).len(),
            decreases f.blocks.len() - j,
        {
            let b = &f.blocks[j];
            assert(v.blocks[j as int] == b@);
            match &b.role {
                BlockRole::Output { id: Some(_) } => {
                    if !(b.span.begin_marker < b.span.end_marker && b.span.end_marker <= ls.len()) {
                        assert(ls@.len() == views(ls@).len());
                        assert(v.blocks[j as int].role matches RoleView::Output(Some(_)));
                        assert(!file_spans_fit(fv[i as int]));
                        return false;
                    }
                },
                _ => {},
            }
            j += 1;
        }
        assert(file_spans_fit(fv[i as int]));
        i += 1;
    }
    true
}

/// References to each of the blocks, in order.
pub fn block_refs(blocks: &Vec<MarkerBlock>) -> (r: Vec<&MarkerBlock>)
    ensures
        ref_block_views(r@) == span_block_views(blocks@),
{
    let mut r: Vec<&MarkerBlock> = Vec::new();
    let mut k: usize = 0;
    while k < blocks.len()
        invariant
            k <= blocks.len(),
            ref_block_views(r@) == span_block_views(blocks@).take(k as int),
        decreases blocks.len() - k,
    {
        let ghost before = ref_block_views(r@);
        let b = &blocks[k];
        r.push(b);
        assert(ref_block_views(r@) =~= before.push(b@));
        assert(span_block_views(blocks@).take(k + 1) =~= span_block_views(blocks@).take(k as int).push(
            b@,
        ));
        k += 1;
    }
    assert(span_block_views(blocks@).take(blocks.len() as int) =~= span_block_views(blocks@));
    r
}

/// The roles of a sequence of blocks.
pub open spec fn block_roles(bs: Seq<BlockView>) -> Seq<RoleView> {
    bs.map_values(|b: BlockView| b.role)
}

/// Looking for the matching input among blocks is looking for it among
/// their roles.
proof fn lemma_first_match_roles(bs: Seq<BlockView>, out: RoleView, i: int)
    ensures
        first_match_from(bs, out, i) == first_role_match(block_roles(bs), out, i),
    decreases bs.len() - i,
{
    if 0 <= i < bs.len() {
        lemma_first_match_roles(bs, out, i + 1);
    }
}

/// The match found among the roles is one of them.
proof fn lemma_first_role_match_bounds(rs: Seq<RoleView>, out: RoleView, i: int)
    ensures
        first_role_match(rs, out, i) matches Some(k) ==> 0 <= i <= k < rs.len(),
    decreases rs.len() - i,
{
    if 0 <= i < rs.len() {
        lemma_first_role_match_bounds(rs, out, i + 1);
    }
}

/// A filled output block is in sync: after an output block with an ID was
/// filled from the input blocks (its end marker moved to just after the
/// filled content), checking it against the same input blocks reports no
/// issue. Stated for texts none of whose lines ends with a carriage return
/// (every file whose lines end in `"\n"` or `"\r\n"`), for filled content
/// with no carriage return right before a newline or at its end (the lines
/// read back lose such a carriage return, and the check would then report
/// the difference), and for an end marker that is a line of the text.
pub proof fn law_filled_block_in_sync(
    c: Seq<char>,
    path: Seq<char>,
    blk: BlockView,
    inputs: Seq<BlockView>,
    s: Seq<char>,
)
    requires
        blk.role matches RoleView::Output(Some(_)),
        filling(block_roles(inputs), blk.role) == Some(s),
        clean_lines(c),
        pieces_clean(s),
        blk.begin < lines_of(c).len(),
        blk.end < lines_of(c).len(),
        blk.begin + 1 + split_nl(s).len() <= usize::MAX,
    ensures
        ({
            let moved = BlockView {
                begin: blk.begin,
                end: (blk.begin + 1 + split_nl(s).len()) as usize,
                role: blk.role,
            };
            let t = filled(c, seq![blk], block_roles(inputs));
            &&& t is Some
            &&& file_issues(
                inputs,
                FileView { content: t->0, blocks: seq![moved], path },
                seq![moved],
            ) == Seq::<IssueView>::empty()
        }),
{
    let b = blk.begin;
    let e = blk.end;
    law_single_block_filling(c, blk, block_roles(inputs), s);
    law_injection_reads_back(c, b as int, e as int, s);
    lemma_first_match_roles(inputs, blk.role, 0);
    let e2 = (b + 1 + split_nl(s).len()) as usize;
    let moved = BlockView { begin: b, end: e2, role: blk.role };
    let t = inject_text(c, b as int, e as int, s);
    let f = FileView { content: t, blocks: seq![moved], path };
    lemma_first_role_match_bounds(block_roles(inputs), blk.role, 0);
    let k = first_role_match(block_roles(inputs), blk.role, 0)->0;
    assert(block_roles(inputs)[k] == inputs[k].role);
    assert(input_text(inputs[k].role) == s);
    assert(block_text(t, moved) == s);
    assert(block_issue(inputs, f, moved) == Seq::<IssueView>::empty());
    assert(seq![moved].drop_last() =~= Seq::<BlockView>::empty());
    assert(file_issues(inputs, f, seq![moved]) =~= file_issues(inputs, f, Seq::<BlockView>::empty())
        + block_issue(inputs, f, moved));
}

/// The first input block that matches an output role is found, wherever
/// the search starts before it.
proof fn lemma_first_match_at(inputs: Seq<BlockView>, out: RoleView, k: int, i: int)
    requires
        0 <= i <= k < inputs.len(),
        spec_matches_output(inputs[k].role, out),
        forall|m: int| 0 <= m < k ==> !spec_matches_output(#[trigger] inputs[m].role, out),
    ensures
        first_match_from(inputs, out, i) == Some(k),
    decreases k - i,
{
    if i < k {
        lemma_first_match_at(inputs, out, k, i + 1);
    }
}

/// The issues of the blocks of a file hold the issues of each block.
proof fn lemma_file_issues_hold(inputs: Seq<BlockView>, f: FileView, bs: Seq<BlockView>, j: int)
    requires
        0 <= j < bs.len(),
    ensures
        forall|m: int|
            0 <= m < block_issue(inputs, f, bs[j]).len() ==> file_issues(inputs, f, bs).contains(
                #[trigger] block_issue(inputs, f, bs[j])[m],
            ),
    decreases bs.len(),
{
    let front = file_issues(inputs, f, bs.drop_last());
    let last = block_issue(inputs, f, bs.last());
    assert(file_issues(inputs, f, bs) == front + last);
    if j < bs.len() - 1 {
        lemma_file_issues_hold(inputs, f, bs.drop_last(), j);
        assert(bs.drop_last()[j] == bs[j]);
        assert forall|m: int| 0 <= m < block_issue(inputs, f, bs[j]).len() implies file_issues(
            inputs,
            f,
            bs,
        ).contains(#[trigger] block_issue(inputs, f, bs[j])[m]) by {
            let x = block_issue(inputs, f, bs[j])[m];
            assert(front.contains(x));
            let q = choose|q: int| 0 <= q < front.len() && front[q] == x;
            assert((front + last)[q] == x);
        }
    } else {
        assert(bs[j] == bs.last());
        assert forall|m: int| 0 <= m < last.len() implies file_issues(inputs, f, bs).contains(
            #[trigger] last[m],
        ) by {
            assert((front + last)[front.len() + m] == last[m]);
        }
    }
}

/// Every issue of the blocks of a file is a real difference: what its input
/// block holds differs from what lies between its markers.
proof fn lemma_file_issues_differ(inputs: Seq<BlockView>, f: FileView, bs: Seq<BlockView>)
    ensures
        forall|m: int|
            0 <= m < file_issues(inputs, f, bs).len() ==> #[trigger] file_issues(inputs, f, bs)[m].expected
                != file_issues(inputs, f, bs)[m].actual && file_issues(inputs, f, bs)[m].actual
                == join_nl(
                lines_of(f.content).subrange(
                    file_issues(inputs, f, bs)[m].begin + 1,
                    file_issues(inputs, f, bs)[m].end as int,
                ),
            ) && file_issues(inputs, f, bs)[m].path == f.path,
    decreases bs.len(),
{
    if bs.len() > 0 {
        lemma_file_issues_differ(inputs, f, bs.drop_last());
        let front = file_issues(inputs, f, bs.drop_last());
        let last = block_issue(inputs, f, bs.last());
        assert(file_issues(inputs, f, bs) == front + last);
        assert forall|m: int| 0 <= m < (front + last).len() implies #[trigger] (front + last)[m].expected
            != (front + last)[m].actual && (front + last)[m].actual == join_nl(
            lines_of(f.content).subrange((front + last)[m].begin + 1, (front + last)[m].end as int),
        ) && (front + last)[m].path == f.path by {
            if m < front.len() {
                assert((front + last)[m] == front[m]);
                assert(front[m].expected != front[m].actual);
            } else {
                assert((front + last)[m] == last[m - front.len()]);
                assert(last.len() == 1);
                assert(m - front.len() == 0);
            }
        }
    }
}

/// The check reports an output block exactly when it is out of sync. For an
/// output block with an ID whose first matching input block holds
/// `content`: where the text strictly between the output block's markers
/// differs from `content`, the issues of the file include one for the block
/// with that ID, `content` as expected and that text as actual; and every
/// issue reported for a file names the file, and has an expected text that
/// differs from the text between the markers it names.
pub proof fn law_check_reports_out_of_sync_blocks(
    inputs: Seq<BlockView>,
    f: FileView,
    j: int,
    k: int,
    id: Seq<char>,
    ids: Seq<Seq<char>>,
    content: Seq<char>,
)
    requires
        0 <= j < f.blocks.len(),
        f.blocks[j].role == RoleView::Output(Some(id)),
        0 <= k < inputs.len(),
        inputs[k].role == RoleView::Input(ids, content),
        ids.contains(id),
        forall|m: int| 0 <= m < k ==> !spec_matches_output(#[trigger] inputs[m].role, f.blocks[j].role),
    ensures
        ({
            let ob = f.blocks[j];
            let text = join_nl(lines_of(f.content).subrange(ob.begin + 1, ob.end as int));
            content != text ==> file_issues(inputs, f, f.blocks).contains(
                IssueView {
                    path: f.path,
                    begin: ob.begin,
                    end: ob.end,
                    id,
                    expected: content,
                    actual: text,
                },
            )
        }),
        forall|m: int|
            0 <= m < file_issues(inputs, f, f.blocks).len() ==> #[trigger] file_issues(
                inputs,
                f,
                f.blocks,
            )[m].expected != file_issues(inputs, f, f.blocks)[m].actual && file_issues(
                inputs,
                f,
                f.blocks,
            )[m].actual == join_nl(
                lines_of(f.content).subrange(
                    file_issues(inputs, f, f.blocks)[m].begin + 1,
                    file_issues(inputs, f, f.blocks)[m].end as int,
                ),
            ) && file_issues(inputs, f, f.blocks)[m].path == f.path,
{
    let ob = f.blocks[j];
    lemma_first_match_at(inputs, ob.role, k, 0);
    lemma_file_issues_hold(inputs, f, f.blocks, j);
    lemma_file_issues_differ(inputs, f, f.blocks);
    let text = join_nl(lines_of(f.content).subrange(ob.begin + 1, ob.end as int));
    if content != text {
        assert(block_issue(inputs, f, ob)[0] == IssueView {
            path: f.path,
            begin: ob.begin,
            end: ob.end,
            id,
            expected: content,
            actual: text,
        });
    }
}

} // verus!
