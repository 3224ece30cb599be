//! Marker blocks from comments, with the input IDs, the input content and the
//! output ID of each block kept apart.
use vstd::prelude::*;

use crate::engine::marker::{
    begin_marker, comments_in_order, end_marker, is_marker_comment, marker_comments, prefixed,
    prefixed_ids, role_of,
};
use crate::engine::types::{ErrorView, RoleView};
use crate::extractor::{comment_views, Comment, CommentView};
use crate::text::{
    chars_of, contains_chars, dec, join_nl, join_range, lines, lines_of, occurs, push_decimal,
    push_str, split_whitespace, tokens, views,
};

verus! {

/// The ID that an output marker names, if any.
pub type OutputID = Option<String>;

/// A block between an `injm begin` and an `injm end` comment.
pub struct MarkerBlock {
    pub begin_line: usize,
    pub end_line: usize,
    // Allow multiple input markers,
    // while a block can have at most one output marker.
    pub input_ids: Option<Vec<String>>,
    pub input_content: Option<String>,
    pub output_id: OutputID,
}

/// A block as plain values.
pub struct BlockModel {
    pub begin: usize,
    pub end: usize,
    pub input_ids: Option<Seq<Seq<char>>>,
    pub input_content: Option<Seq<char>>,
    pub output_id: Option<Seq<char>>,
}

/// The view of an optional string.
pub open spec fn opt_string(o: Option<String>) -> Option<Seq<char>> {
    match o {
        Some(s) => Some(s@),
        None => None,
    }
}

/// The view of an optional list of strings.
pub open spec fn opt_strings(o: Option<Vec<String>>) -> Option<Seq<Seq<char>>> {
    match o {
        Some(v) => Some(v.deep_view()),
        None => None,
    }
}

impl View for MarkerBlock {
    type V = BlockModel;

    open spec fn view(&self) -> BlockModel {
        BlockModel {
            begin: self.begin_line,
            end: self.end_line,
            input_ids: opt_strings(self.input_ids),
            input_content: opt_string(self.input_content),
            output_id: opt_string(self.output_id),
        }
    }
}

/// The views of a sequence of blocks.
pub open spec fn block_models(v: Seq<MarkerBlock>) -> Seq<BlockModel> {
    v.map_values(|b: MarkerBlock| b@)
}

/// The errors of marker extraction.
#[derive(Debug, Clone, Copy, PartialEq, Eq, Structural)]
pub enum MarkerError {
    NestedBegin { line: usize },
    EndWithoutBegin { line: usize },
    BeginWithoutEnd { line: usize },
    MultipleOutputs,
}

/// The message that describes an error.
pub open spec fn marker_error_message(e: MarkerError) -> Seq<char> {
    match e {
        MarkerError::NestedBegin { line } => "found nested `injm begin` without `injm end` in line "@
            + dec(line as nat),
        MarkerError::EndWithoutBegin { line } => "found `injm end` without `injm begin` in line "@
            + dec(line as nat),
        MarkerError::BeginWithoutEnd { line } => "found `injm begin` without `injm end` at line "@
            + dec(line as nat),
        MarkerError::MultipleOutputs => "multiple output markers detected"@,
    }
}

impl MarkerError {
    /// The message that describes the error.
    pub fn message(&self) -> (r: String)
        ensures
            r@ == marker_error_message(*self),
    {
        let mut r = String::new();
        match self {
            MarkerError::NestedBegin { line } => {
                push_str(&mut r, "found nested `injm begin` without `injm end` in line ");
                push_decimal(&mut r, *line);
            },
            MarkerError::EndWithoutBegin { line } => {
                push_str(&mut r, "found `injm end` without `injm begin` in line ");
                push_decimal(&mut r, *line);
            },
            MarkerError::BeginWithoutEnd { line } => {
                push_str(&mut r, "found `injm begin` without `injm end` at line ");
                push_decimal(&mut r, *line);
            },
            MarkerError::MultipleOutputs => push_str(&mut r, "multiple output markers detected"),
        }
        proof {
            assert(Seq::<char>::empty() + marker_error_message(*self) =~= marker_error_message(
                *self,
            ));
        }
        r
    }
}

/// The IDs on a begin marker: the words that start with `<` are input IDs
/// (`None` when there is none), the word that starts with `>` is the output
/// ID; more than one output ID is an error.
pub open spec fn ids_of(text: Seq<char>) -> Result<
    (Option<Seq<Seq<char>>>, Option<Seq<char>>),
    MarkerError,
> {
    let ins = prefixed(tokens(text), '<');
    let outs = prefixed(tokens(text), '>');
    let input = if ins.len() == 0 {
        None
    } else {
        Some(ins)
    };
    if outs.len() == 0 {
        Ok((input, None))
    } else if outs.len() == 1 {
        Ok((input, Some(outs[0])))
    } else {
        Err(MarkerError::MultipleOutputs)
    }
}

/// The view of a result of ID extraction.
pub open spec fn ids_result_view(r: Result<(Option<Vec<String>>, OutputID), MarkerError>) -> Result<
    (Option<Seq<Seq<char>>>, Option<Seq<char>>),
    MarkerError,
> {
    match r {
        Ok((i, o)) => Ok((opt_strings(i), opt_string(o))),
        Err(e) => Err(e),
    }
}

/// The IDs on a begin marker.
pub fn extract_id(comment: &str) -> (r: Result<(Option<Vec<String>>, OutputID), MarkerError>)
    ensures
        ids_result_view(r) == ids_of(comment@),
{
    let toks = split_whitespace(comment);
    let ins = prefixed_ids(&toks, '<');
    let mut outs = prefixed_ids(&toks, '>');
    let input_ids = if ins.len() == 0 {
        None
    } else {
        Some(ins)
    };
    if outs.len() == 0 {
        return Ok((input_ids, None));
    }
    if outs.len() == 1 {
        let ghost first = outs.deep_view()[0];
        match outs.pop() {
            Some(id) => {
                assert(id@ == first);
                return Ok((input_ids, Some(id)));
            },
            None => {
                return Err(MarkerError::MultipleOutputs);
            },
        }
    }
    Err(MarkerError::MultipleOutputs)
}

/// The state of the walk over the comments: the blocks closed so far, the
/// line of the open begin marker, and its IDs.
pub struct IdWalkState {
    pub blocks: Seq<BlockModel>,
    pub open: Option<usize>,
    pub input_ids: Option<Seq<Seq<char>>>,
    pub output_id: Option<Seq<char>>,
}

/// Where the walk over the comments stands.
pub enum IdWalk {
    Going(IdWalkState),
    Failed(MarkerError),
    Stuck,
}

/// One step of the walk: a comment that contains `injm begin` opens a block
/// (at its last line) and records its IDs; one that contains `injm end`
/// closes the open block (at its first line). A block with input IDs takes
/// the lines strictly between its markers as its input content.
pub open spec fn id_walk_step(w: IdWalk, c: CommentView, lines: Seq<Seq<char>>) -> IdWalk {
    match w {
        IdWalk::Going(st) => if occurs(c.text, begin_marker()) {
            if st.open is Some {
                IdWalk::Failed(MarkerError::NestedBegin { line: c.start })
            } else {
                match ids_of(c.text) {
                    Ok((i, o)) => IdWalk::Going(
                        IdWalkState {
                            blocks: st.blocks,
                            open: Some(c.end),
                            input_ids: i,
                            output_id: o,
                        },
                    ),
                    Err(e) => IdWalk::Failed(e),
                }
            }
        } else if occurs(c.text, end_marker()) {
            match st.open {
                None => IdWalk::Failed(MarkerError::EndWithoutBegin { line: c.start }),
                Some(b) => {
                    let e = c.start;
                    if st.input_ids is Some && !(b < e && e <= lines.len()) {
                        IdWalk::Stuck
                    } else {
                        let content = if st.input_ids is Some {
                            Some(join_nl(lines.subrange(b + 1, e as int)))
                        } else {
                            None
                        };
                        IdWalk::Going(
                            IdWalkState {
                                blocks: st.blocks.push(
                                    BlockModel {
                                        begin: b,
                                        end: e,
                                        input_ids: st.input_ids,
                                        input_content: content,
                                        output_id: st.output_id,
                                    },
                                ),
                                open: None,
                                input_ids: None,
                                output_id: None,
                            },
                        )
                    }
                },
            }
        } else {
            w
        },
        _ => w,
    }
}

/// The walk over the comments, in order.
pub open spec fn id_walk(cs: Seq<CommentView>, lines: Seq<Seq<char>>) -> IdWalk
    decreases cs.len(),
{
    if cs.len() == 0 {
        IdWalk::Going(IdWalkState { blocks: seq![], open: None, input_ids: None, output_id: None })
    } else {
        id_walk_step(id_walk(cs.drop_last(), lines), cs.last(), lines)
    }
}

/// The outcome of extracting marker blocks from comments: `None` where the
/// walk gets stuck; otherwise the blocks, or the first error, where a begin
/// marker that is still open at the end is an error too.
pub open spec fn id_extraction(cs: Seq<CommentView>, content: Seq<char>) -> Option<
    Result<Seq<BlockModel>, MarkerError>,
> {
    match id_walk(cs, lines_of(content)) {
        IdWalk::Going(st) => match st.open {
            Some(b) => Some(Err(MarkerError::BeginWithoutEnd { line: b })),
            None => Some(Ok(st.blocks)),
        },
        IdWalk::Failed(e) => Some(Err(e)),
        IdWalk::Stuck => None,
    }
}

/// The view of a result of block extraction.
pub open spec fn models_result_view(r: Result<Vec<MarkerBlock>, MarkerError>) -> Result<
    Seq<BlockModel>,
    MarkerError,
> {
    match r {
        Ok(v) => Ok(block_models(v@)),
        Err(e) => Err(e),
    }
}

/// Once the walk has stopped or got stuck, the later comments change nothing.
pub proof fn lemma_id_walk_settled(cs: Seq<CommentView>, lines: Seq<Seq<char>>, i: int)
    requires
        0 <= i <= cs.len(),
        !(id_walk(cs.take(i), lines) is Going),
    ensures
        id_walk(cs, lines) == id_walk(cs.take(i), lines),
    decreases cs.len() - i,
{
    if i < cs.len() {
        assert(cs.take(i + 1).drop_last() =~= cs.take(i));
        lemma_id_walk_settled(cs, lines, i + 1);
    } else {
        assert(cs.take(i) =~= cs);
    }
}

/// Extracts the marker blocks from the comments, in order; `None` where a
/// block with input IDs has lines that do not lie within the content.
pub fn try_extract_marker_blocks(comments: &[Comment], content: &str) -> (r: Option<
    Result<Vec<MarkerBlock>, MarkerError>,
>)
    ensures
        match r {
            Some(res) => id_extraction(comment_views(comments@), content@) == Some(
                models_result_view(res),
            ),
            None => id_extraction(comment_views(comments@), content@) is None,
        },
{
    let ghost cvs = comment_views(comments@);
    let ls = lines(content);
    let ghost lv = views(ls@);
    let begin_chars: Vec<char> = vec!['i', 'n', 'j', 'm', ' ', 'b', 'e', 'g', 'i', 'n'];
    let end_chars: Vec<char> = vec!['i', 'n', 'j', 'm', ' ', 'e', 'n', 'd'];
    assert(begin_chars@ =~= begin_marker());
    assert(end_chars@ =~= end_marker());
    let mut marker_blocks: Vec<MarkerBlock> = Vec::new();
    let mut begin: Option<usize> = None;
    let mut input_ids: Option<Vec<String>> = None;
    let mut output_id: OutputID = None;
    let mut i: usize = 0;
    assert(cvs.take(0) =~= Seq::<CommentView>::empty());
    assert(block_models(marker_blocks@) =~= Seq::<BlockModel>::empty());
    while i < comments.len()
        invariant
            i <= comments.len(),
            cvs == comment_views(comments@),
            lv == views(ls@),
            lv == lines_of(content@),
            begin_chars@ == begin_marker(),
            end_chars@ == end_marker(),
            id_walk(cvs.take(i as int), lv) == IdWalk::Going(
                IdWalkState {
                    blocks: block_models(marker_blocks@),
                    open: begin,
                    input_ids: opt_strings(input_ids),
                    output_id: opt_string(output_id),
                },
            ),
        decreases comments.len() - i,
    {
        let comment = &comments[i];
        let ghost pre = cvs.take(i as int);
        let ghost next = cvs.take(i + 1);
        assert(next.drop_last() =~= pre);
        assert(next.last() == comment@);
        let text = chars_of(comment.text.as_str());
        if contains_chars(&text, &begin_chars) {
            if begin.is_some() {
                proof {
                    lemma_id_walk_settled(cvs, lv, i + 1);
                }
                return Some(Err(MarkerError::NestedBegin { line: comment.start_line }));
            }
            match extract_id(comment.text.as_str()) {
                Ok((ins, out)) => {
                    begin = Some(comment.end_line);
                    input_ids = ins;
                    output_id = out;
                },
                Err(e) => {
                    proof {
                        lemma_id_walk_settled(cvs, lv, i + 1);
                    }
                    return Some(Err(e));
                },
            }
        } else if contains_chars(&text, &end_chars) {
            match begin {
                None => {
                    proof {
                        lemma_id_walk_settled(cvs, lv, i + 1);
                    }
                    return Some(Err(MarkerError::EndWithoutBegin { line: comment.start_line }));
                },
                Some(begin_line) => {
                    let end_line = comment.start_line;
                    let has_input = input_ids.is_some();
                    if has_input && !(begin_line < end_line && end_line <= ls.len()) {
                        proof {
                            lemma_id_walk_settled(cvs, lv, i + 1);
                        }
                        return None;
                    }
                    let input_content = if has_input {
                        Some(join_range(&ls, begin_line + 1, end_line))
                    } else {
                        None
                    };
                    let ids = input_ids;
                    let out = output_id;
                    input_ids = None;
                    output_id = None;
                    begin = None;
                    let blk = MarkerBlock {
                        begin_line,
                        end_line,
                        input_ids: ids,
                        output_id: out,
                        input_content,
                    };
                    let ghost before = block_models(marker_blocks@);
                    marker_blocks.push(blk);
                    assert(block_models(marker_blocks@) =~= before.push(blk@));
                },
            }
        }
        i += 1;
    }
    assert(cvs.take(comments.len() as int) =~= cvs);
    match begin {
        Some(b) => Some(Err(MarkerError::BeginWithoutEnd { line: b })),
        None => Some(Ok(marker_blocks)),
    }
}

/// Extracts the marker blocks from the comments, in order.
pub fn extract_marker_blocks(comments: &[Comment], content: &str) -> (r: Result<
    Vec<MarkerBlock>,
    MarkerError,
>)
    requires
        id_extraction(comment_views(comments@), content@) is Some,
    ensures
        id_extraction(comment_views(comments@), content@) == Some(models_result_view(r)),
{
    match try_extract_marker_blocks(comments, content) {
        Some(r) => r,
        None => Ok(Vec::new()),
    }
}

/// The two readings of the IDs on a begin marker agree: a default role has
/// no IDs, an input role has its input IDs and no output ID, and an output
/// role has its output ID and no input IDs.
pub proof fn law_role_and_ids_agree(text: Seq<char>)
    ensures
        (role_of(text) == Ok::<RoleView, ErrorView>(RoleView::Default)) == (ids_of(text) == Ok::<
            (Option<Seq<Seq<char>>>, Option<Seq<char>>),
            MarkerError,
        >((None, None))),
        forall|ids: Seq<Seq<char>>|
            role_of(text) == Ok::<RoleView, ErrorView>(RoleView::Input(ids, seq![])) ==> ids_of(
                text,
            ) == Ok::<(Option<Seq<Seq<char>>>, Option<Seq<char>>), MarkerError>((Some(ids), None)),
        forall|id: Seq<char>|
            role_of(text) == Ok::<RoleView, ErrorView>(RoleView::Output(Some(id))) ==> ids_of(
                text,
            ) == Ok::<(Option<Seq<Seq<char>>>, Option<Seq<char>>), MarkerError>((None, Some(id))),
{
}

/// The walk over the comments is the walk over their marker comments.
proof fn lemma_id_walk_marker_comments(cs: Seq<CommentView>, lines: Seq<Seq<char>>)
    ensures
        id_walk(cs, lines) == id_walk(marker_comments(cs), lines),
    decreases cs.len(),
{
    if cs.len() > 0 {
        lemma_id_walk_marker_comments(cs.drop_last(), lines);
        let f = marker_comments(cs.drop_last());
        let pred = |c: CommentView| is_marker_comment(c);
        assert(cs == cs.drop_last().push(cs.last()));
        cs.drop_last().lemma_filter_push(cs.last(), pred);
        assert(marker_comments(cs) == cs.filter(pred));
        assert(f == cs.drop_last().filter(pred));
        if is_marker_comment(cs.last()) {
            assert(marker_comments(cs) == f.push(cs.last()));
            assert(f.push(cs.last()).drop_last() =~= f);
        } else {
            assert(marker_comments(cs) == f);
        }
    }
}

/// Comments that neither open nor close a block change nothing: comments
/// with the same marker comments, in the same order, give the same
/// extraction (the same blocks, or the same error).
pub proof fn law_non_marker_comments_ignored_by_ids(
    cs1: Seq<CommentView>,
    cs2: Seq<CommentView>,
    content: Seq<char>,
)
    requires
        marker_comments(cs1) == marker_comments(cs2),
    ensures
        id_extraction(cs1, content) == id_extraction(cs2, content),
{
    lemma_id_walk_marker_comments(cs1, lines_of(content));
    lemma_id_walk_marker_comments(cs2, lines_of(content));
}

/// Each block's end marker comes after its begin marker, and each block
/// ends before the next one begins.
pub open spec fn models_in_order(bs: Seq<BlockModel>) -> bool {
    &&& forall|i: int| 0 <= i < bs.len() ==> #[trigger] bs[i].begin < bs[i].end
    &&& forall|i: int, j: int| 0 <= i < j < bs.len() ==> #[trigger] bs[i].end < #[trigger] bs[j].begin
}

/// The blocks of a walk state, and its open begin marker, lie at or before
/// line `x`, and the open marker comes after every closed block.
pub open spec fn id_state_within(st: IdWalkState, x: int) -> bool {
    &&& forall|i: int| 0 <= i < st.blocks.len() ==> #[trigger] st.blocks[i].end <= x
    &&& st.open matches Some(b) ==> b <= x && forall|i: int|
        0 <= i < st.blocks.len() ==> #[trigger] st.blocks[i].end < b
}

/// Walking over comments in order keeps the blocks in order, within the
/// last comment.
proof fn lemma_id_walk_in_order(cs: Seq<CommentView>, lines: Seq<Seq<char>>)
    requires
        comments_in_order(cs),
    ensures
        id_walk(cs, lines) matches IdWalk::Going(st) ==> models_in_order(st.blocks) && (if cs.len()
            == 0 {
            st.blocks.len() == 0 && st.open is None
        } else {
            id_state_within(st, cs.last().end as int)
        }),
    decreases cs.len(),
{
    if cs.len() > 0 {
        let prev = cs.drop_last();
        let c = cs.last();
        assert(comments_in_order(prev)) by {
            assert forall|i: int, j: int| 0 <= i < j < prev.len() implies #[trigger] prev[i].end
                < #[trigger] prev[j].start by {
                assert(prev[i] == cs[i] && prev[j] == cs[j]);
            }
            assert forall|i: int| 0 <= i < prev.len() implies #[trigger] prev[i].start <= prev[i].end by {
                assert(prev[i] == cs[i]);
            }
        }
        lemma_id_walk_in_order(prev, lines);
        assert(c.start <= c.end) by {
            assert(cs[cs.len() - 1] == c);
        }
        if prev.len() > 0 {
            assert(prev.last().end < c.start) by {
                assert(cs[prev.len() - 1] == prev.last());
                assert(cs[cs.len() - 1] == c);
            }
        }
        match id_walk(prev, lines) {
            IdWalk::Going(st) => {
                if occurs(c.text, begin_marker()) {
                } else if occurs(c.text, end_marker()) {
                    match st.open {
                        None => {},
                        Some(b) => {
                            match id_walk(cs, lines) {
                                IdWalk::Going(st2) => {
                                    let t = st2.blocks;
                                    assert(t.len() == st.blocks.len() + 1);
                                    assert forall|i: int| 0 <= i < st.blocks.len() implies #[trigger] t[i]
                                        == st.blocks[i] by {}
                                    assert(t[st.blocks.len() as int].begin == b);
                                    assert(t[st.blocks.len() as int].end == c.start);
                                },
                                _ => {},
                            }
                        },
                    }
                } else {
                }
            },
            _ => {},
        }
    }
}

/// Blocks extracted from comments in the order of the file are in order:
/// each block's end marker comes after its begin marker, and each block
/// ends before the next one begins.
pub proof fn law_id_extracted_blocks_in_order(cs: Seq<CommentView>, content: Seq<char>)
    requires
        comments_in_order(cs),
    ensures
        id_extraction(cs, content) matches Some(Ok(bs)) ==> models_in_order(bs),
{
    lemma_id_walk_in_order(cs, lines_of(content));
}

} // verus!
