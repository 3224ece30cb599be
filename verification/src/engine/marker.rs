//! Marker blocks from the comments of a file: `injm begin` and `injm end`
//! comments, and the input (`<id`) and output (`>id`) IDs on a begin marker.
use vstd::prelude::*;

use crate::engine::types::{
    block_views, opt_view, BlockRole, BlockView, Error, ErrorView, MarkerBlock, RoleView,
};
use crate::extractor::{comment_views, Comment, CommentView};
use crate::text::{
    chars_of, contains_chars, contains_string, join_nl, join_range, lines, lines_of, occurs,
    split_whitespace, string_of_range, tokens, views,
};

verus! {

// ---------------------------------------------------------------------------
// Roles
// ---------------------------------------------------------------------------

/// The tokens that start with `c`, without that first character, in order.
pub open spec fn prefixed(ts: Seq<Seq<char>>, c: char) -> Seq<Seq<char>>
    decreases ts.len(),
{
    if ts.len() == 0 {
        seq![]
    } else {
        let r = prefixed(ts.drop_last(), c);
        let t = ts.last();
        if t.len() > 0 && t[0] == c {
            r.push(t.drop_first())
        } else {
            r
        }
    }
}

/// The single role that the text of a begin marker names: input IDs are
/// the words that start with `<`, output IDs those that start with `>`.
/// A marker with neither is a default block; one with both, or with more
/// than one output ID, names no single role (the extraction reads such a
/// marker with `roles_of`, which keeps both kinds of ID).
pub open spec fn role_of(text: Seq<char>) -> Result<RoleView, ErrorView> {
    let ins = prefixed(tokens(text), '<');
    let outs = prefixed(tokens(text), '>');
    if ins.len() == 0 && outs.len() == 0 {
        Ok(RoleView::Default)
    } else if ins.len() > 0 && outs.len() > 0 {
        Err(ErrorView::BothInputAndOutput)
    } else if ins.len() > 0 {
        Ok(RoleView::Input(ins, seq![]))
    } else if outs.len() == 1 {
        Ok(RoleView::Output(Some(outs[0])))
    } else {
        Err(ErrorView::MultipleOutputs)
    }
}

/// The view of a role result.
pub open spec fn role_result_view(r: Result<BlockRole, Error>) -> Result<RoleView, ErrorView> {
    match r {
        Ok(x) => Ok(x@),
        Err(e) => Err(e@),
    }
}

/// The words of `toks` that start with `c`, without that character.
pub fn prefixed_ids(toks: &Vec<Vec<char>>, c: char) -> (r: Vec<String>)
    ensures
        r.deep_view() == prefixed(views(toks@), c),
{
    let mut r: Vec<String> = Vec::new();
    let mut i: usize = 0;
    while i < toks.len()
        invariant
            i <= toks.len(),
            r.deep_view() == prefixed(views(toks@).take(i as int), c),
        decreases toks.len() - i,
    {
        let ghost t = views(toks@).take(i + 1);
        assert(t.drop_last() =~= views(toks@).take(i as int));
        assert(t.last() == toks@[i as int]@);
        let tok = &toks[i];
        if tok.len() > 0 && tok[0] == c {
            let id = string_of_range(tok.as_slice(), 1, tok.len());
            let ghost before = r.deep_view();
            r.push(id);
            assert(r.deep_view() =~= before.push(tok@.drop_first()));
        }
        i += 1;
    }
    assert(views(toks@).take(toks.len() as int) =~= views(toks@));
    r
}

/// The role that the text of a begin marker gives its block.
pub fn extract_role(comment: &str) -> (r: Result<BlockRole, Error>)
    ensures
        role_result_view(r) == role_of(comment@),
{
    let toks = split_whitespace(comment);
    let ins = prefixed_ids(&toks, '<');
    let mut outs = prefixed_ids(&toks, '>');
    if ins.len() == 0 && outs.len() == 0 {
        return Ok(BlockRole::Default);
    }
    if ins.len() > 0 && outs.len() > 0 {
        return Err(Error::BothInputAndOutput);
    }
    if ins.len() > 0 {
        return Ok(BlockRole::Input { ids: ins, content: String::new() });
    }
    if outs.len() == 1 {
        let ghost first = outs.deep_view()[0];
        match outs.pop() {
            Some(id) => {
                assert(id@ == first);
                return Ok(BlockRole::Output { id: Some(id) });
            },
            None => {
                return Err(Error::MultipleOutputs);
            },
        }
    }
    Err(Error::MultipleOutputs)
}

/// The roles that the text of a begin marker gives its block, as the
/// extraction reads them: the role of `role_of`, except that a marker with
/// input IDs and exactly one output ID gives an input role and, besides it,
/// that output ID (its block is both an input and an output block). More
/// than one output ID is an error.
pub open spec fn roles_of(text: Seq<char>) -> Result<(RoleView, Option<Seq<char>>), ErrorView> {
    let ins = prefixed(tokens(text), '<');
    let outs = prefixed(tokens(text), '>');
    if ins.len() > 0 && outs.len() == 1 {
        Ok((RoleView::Input(ins, seq![]), Some(outs[0])))
    } else if ins.len() > 0 && outs.len() > 1 {
        Err(ErrorView::MultipleOutputs)
    } else {
        match role_of(text) {
            Ok(r) => Ok((r, None)),
            Err(e) => Err(e),
        }
    }
}

/// The view of a result of reading the roles of a begin marker.
pub open spec fn roles_result_view(r: Result<(BlockRole, Option<String>), Error>) -> Result<
    (RoleView, Option<Seq<char>>),
    ErrorView,
> {
    match r {
        Ok((x, o)) => Ok((x@, opt_view(o))),
        Err(e) => Err(e@),
    }
}

/// The roles that the text of a begin marker gives its block: its role,
/// and the output ID of a block that is also an input block.
pub fn extract_roles(comment: &str) -> (r: Result<(BlockRole, Option<String>), Error>)
    ensures
        roles_result_view(r) == roles_of(comment@),
{
    let toks = split_whitespace(comment);
    let ins = prefixed_ids(&toks, '<');
    let mut outs = prefixed_ids(&toks, '>');
    if ins.len() > 0 && outs.len() == 1 {
        let ghost first = outs.deep_view()[0];
        match outs.pop() {
            Some(id) => {
                assert(id@ == first);
                return Ok((BlockRole::Input { ids: ins, content: String::new() }, Some(id)));
            },
            None => {
                return Err(Error::MultipleOutputs);
            },
        }
    }
    if ins.len() > 0 && outs.len() > 1 {
        return Err(Error::MultipleOutputs);
    }
    match extract_role(comment) {
        Ok(role) => Ok((role, None)),
        Err(e) => Err(e),
    }
}

/// An input role matches an output role when it offers the output's ID, or,
/// for an output without ID, when it offers no ID at all.
pub open spec fn spec_matches_output(input: RoleView, output: RoleView) -> bool {
    match input {
        RoleView::Input(ids, _) => match output {
            RoleView::Output(Some(id)) => ids.contains(id),
            _ => ids.len() == 0,
        },
        _ => false,
    }
}

/// Whether an input role matches an output role.
pub fn role_matches_output(input: &BlockRole, output: &BlockRole) -> (r: bool)
    ensures
        r == spec_matches_output(input@, output@),
{
    match input {
        BlockRole::Input { ids, .. } => match output {
            BlockRole::Output { id: Some(id) } => contains_string(ids, id),
            _ => ids.len() == 0,
        },
        _ => false,
    }
}

impl MarkerBlock {
    /// Whether this input block matches the output block.
    pub fn matches_output(&self, output: &MarkerBlock) -> (r: bool)
        ensures
            r == spec_matches_output(self.role@, output.role@),
    {
        role_matches_output(&self.role, &output.role)
    }
}

// ---------------------------------------------------------------------------
// Blocks
// ---------------------------------------------------------------------------

/// `injm begin`
pub open spec fn begin_marker() -> Seq<char> {
    seq!['i', 'n', 'j', 'm', ' ', 'b', 'e', 'g', 'i', 'n']
}

/// `injm end`
pub open spec fn end_marker() -> Seq<char> {
    seq!['i', 'n', 'j', 'm', ' ', 'e', 'n', 'd']
}

/// The state of the walk over the comments: the blocks closed so far and the
/// begin marker that is open, if any (its line, its role, and the output ID
/// of a block that is also an input block).
pub struct WalkState {
    pub blocks: Seq<BlockView>,
    pub open: Option<(usize, RoleView, Option<Seq<char>>)>,
}

/// Where the walk over the comments stands: going on, stopped at an error,
/// or stuck at an input block whose lines lie outside the content.
pub enum Walk {
    Going(WalkState),
    Failed(ErrorView),
    Stuck,
}

/// The blocks with, where the closed block is also an output block, that
/// output block after them (with the same markers).
pub open spec fn with_output(bs: Seq<BlockView>, b: usize, e: usize, out: Option<Seq<char>>) -> Seq<
    BlockView,
> {
    match out {
        Some(id) => bs.push(BlockView { begin: b, end: e, role: RoleView::Output(Some(id)) }),
        None => bs,
    }
}

/// Closes the open block `(b, r, out)` at the end marker on line `e`. An
/// input block takes the lines strictly between its markers as its content;
/// a block that is also an output block gives an output block after it.
pub open spec fn close_block(
    st: WalkState,
    b: usize,
    r: RoleView,
    out: Option<Seq<char>>,
    e: usize,
    lines: Seq<Seq<char>>,
) -> Walk {
    match r {
        RoleView::Input(ids, _) => if b < e && e <= lines.len() {
            Walk::Going(
                WalkState {
                    blocks: with_output(
                        st.blocks.push(
                            BlockView {
                                begin: b,
                                end: e,
                                role: RoleView::Input(ids, join_nl(lines.subrange(b + 1, e as int))),
                            },
                        ),
                        b,
                        e,
                        out,
                    ),
                    open: None,
                },
            )
        } else {
            Walk::Stuck
        },
        _ => Walk::Going(
            WalkState {
                blocks: with_output(st.blocks.push(BlockView { begin: b, end: e, role: r }), b, e, out),
                open: None,
            },
        ),
    }
}

/// One step of the walk: a comment that contains `injm begin` opens a
/// block (at its last line), one that contains `injm end` closes the open
/// block (at its first line); other comments are passed over.
pub open spec fn walk_step(w: Walk, c: CommentView, lines: Seq<Seq<char>>, path: Seq<char>) -> Walk {
    match w {
        Walk::Going(st) => if occurs(c.text, begin_marker()) {
            if st.open is Some {
                Walk::Failed(ErrorView::NestedBegin(c.start, path))
            } else {
                match roles_of(c.text) {
                    Ok((r, out)) => Walk::Going(
                        WalkState { blocks: st.blocks, open: Some((c.end, r, out)) },
                    ),
                    Err(e) => Walk::Failed(e),
                }
            }
        } else if occurs(c.text, end_marker()) {
            match st.open {
                None => Walk::Failed(ErrorView::EndWithoutBegin(c.start)),
                Some((b, r, out)) => close_block(st, b, r, out, c.start, lines),
            }
        } else {
            w
        },
        _ => w,
    }
}

/// The walk over the comments, in order.
pub open spec fn walk(cs: Seq<CommentView>, lines: Seq<Seq<char>>, path: Seq<char>) -> Walk
    decreases cs.len(),
{
    if cs.len() == 0 {
        Walk::Going(WalkState { blocks: seq![], open: None })
    } else {
        walk_step(walk(cs.drop_last(), lines, path), cs.last(), lines, path)
    }
}

/// The outcome of extracting the marker blocks of a file from its comments:
/// `None` where the walk gets stuck; otherwise the blocks, or the first
/// error, where a begin marker that is still open at the end is an error too.
pub open spec fn extraction(cs: Seq<CommentView>, content: Seq<char>, path: Seq<char>) -> Option<
    Result<Seq<BlockView>, ErrorView>,
> {
    match walk(cs, lines_of(content), path) {
        Walk::Going(st) => match st.open {
            Some((b, _, _)) => Some(Err(ErrorView::BeginWithoutEnd(b))),
            None => Some(Ok(st.blocks)),
        },
        Walk::Failed(e) => Some(Err(e)),
        Walk::Stuck => None,
    }
}

/// The view of a result of block extraction.
pub open spec fn blocks_result_view(r: Result<Vec<MarkerBlock>, Error>) -> Result<
    Seq<BlockView>,
    ErrorView,
> {
    match r {
        Ok(v) => Ok(block_views(v@)),
        Err(e) => Err(e@),
    }
}

/// The view of the open block of the walk.
pub open spec fn open_view(o: Option<(usize, BlockRole, Option<String>)>) -> Option<
    (usize, RoleView, Option<Seq<char>>),
> {
    match o {
        Some((b, r, out)) => Some((b, r@, opt_view(out))),
        None => None,
    }
}

/// Once the walk has stopped or got stuck, the later comments change nothing.
pub proof fn lemma_walk_settled(cs: Seq<CommentView>, lines: Seq<Seq<char>>, path: Seq<char>, i: int)
    requires
        0 <= i <= cs.len(),
        !(walk(cs.take(i), lines, path) is Going),
    ensures
        walk(cs, lines, path) == walk(cs.take(i), lines, path),
    decreases cs.len() - i,
{
    if i < cs.len() {
        assert(cs.take(i + 1).drop_last() =~= cs.take(i));
        lemma_walk_settled(cs, lines, path, i + 1);
    } else {
        assert(cs.take(i) =~= cs);
    }
}

/// Extracts the marker blocks of a file from its comments, in order; `None`
/// where an input block's lines do not lie within the content.
pub fn try_extract_marker_blocks(comments: &[Comment], content: &str, path: &str) -> (r: Option<
    Result<Vec<MarkerBlock>, Error>,
>)
    ensures
        match r {
            Some(res) => extraction(comment_views(comments@), content@, path@) == Some(
                blocks_result_view(res),
            ),
            None => extraction(comment_views(comments@), content@, path@) is None,
        },
{
    let ghost cvs = comment_views(comments@);
    let ls = lines(content);
    let ghost lv = views(ls@);
    let begin: Vec<char> = vec!['i', 'n', 'j', 'm', ' ', 'b', 'e', 'g', 'i', 'n'];
    let end: Vec<char> = vec!['i', 'n', 'j', 'm', ' ', 'e', 'n', 'd'];
    assert(begin@ =~= begin_marker());
    assert(end@ =~= end_marker());
    let mut blocks: Vec<MarkerBlock> = Vec::new();
    let mut open: Option<(usize, BlockRole, Option<String>)> = None;
    let mut i: usize = 0;
    assert(cvs.take(0) =~= Seq::<CommentView>::empty());
    assert(block_views(blocks@) =~= Seq::<BlockView>::empty());
    while i < comments.len()
        invariant
            i <= comments.len(),
            cvs == comment_views(comments@),
            lv == views(ls@),
            lv == lines_of(content@),
            begin@ == begin_marker(),
            end@ == end_marker(),
            walk(cvs.take(i as int), lv, path@) == Walk::Going(
                WalkState { blocks: block_views(blocks@), open: open_view(open) },
            ),
        decreases comments.len() - i,
    {
        let c = &comments[i];
        let ghost pre = cvs.take(i as int);
        let ghost next = cvs.take(i + 1);
        assert(next.drop_last() =~= pre);
        assert(next.last() == c@);
        let text = chars_of(c.text.as_str());
        if contains_chars(&text, &begin) {
            if open.is_some() {
                proof {
                    lemma_walk_settled(cvs, lv, path@, i + 1);
                }
                return Some(Err(Error::NestedBegin { line: c.start_line, path: path.to_owned() }));
            }
            match extract_roles(c.text.as_str()) {
                Ok((role, out)) => {
                    open = Some((c.end_line, role, out));
                },
                Err(e) => {
                    proof {
                        lemma_walk_settled(cvs, lv, path@, i + 1);
                    }
                    return Some(Err(e));
                },
            }
        } else if contains_chars(&text, &end) {
            let o = open;
            open = None;
            match o {
                None => {
                    proof {
                        lemma_walk_settled(cvs, lv, path@, i + 1);
                    }
                    return Some(Err(Error::EndWithoutBegin { line: c.start_line }));
                },
                Some((b, role, out)) => {
                    let e = c.start_line;
                    let ghost before = block_views(blocks@);
                    match role {
                        BlockRole::Input { ids, .. } => {
                            if b < e && e <= ls.len() {
                                let joined = join_range(&ls, b + 1, e);
                                let blk = MarkerBlock {
                                    begin_line: b,
                                    end_line: e,
                                    role: BlockRole::Input { ids, content: joined },
                                };
                                blocks.push(blk);
                                assert(block_views(blocks@) =~= before.push(blk@));
                            } else {
                                proof {
                                    lemma_walk_settled(cvs, lv, path@, i + 1);
                                }
                                return None;
                            }
                        },
                        other => {
                            let blk = MarkerBlock { begin_line: b, end_line: e, role: other };
                            blocks.push(blk);
                            assert(block_views(blocks@) =~= before.push(blk@));
                        },
                    }
                    let ghost mid = block_views(blocks@);
                    match out {
                        Some(id) => {
                            let blk = MarkerBlock {
                                begin_line: b,
                                end_line: e,
                                role: BlockRole::Output { id: Some(id) },
                            };
                            blocks.push(blk);
                            assert(block_views(blocks@) =~= mid.push(blk@));
                        },
                        None => {},
                    }
                },
            }
        }
        i += 1;
    }
    assert(cvs.take(comments.len() as int) =~= cvs);
    match open {
        Some((b, _, _)) => Some(Err(Error::BeginWithoutEnd { line: b })),
        None => Some(Ok(blocks)),
    }
}

/// Extracts the marker blocks of a file from its comments, in order.
pub fn extract_marker_blocks(comments: &[Comment], content: &str, path: &str) -> (r: Result<
    Vec<MarkerBlock>,
    Error,
>)
    requires
        extraction(comment_views(comments@), content@, path@) is Some,
    ensures
        extraction(comment_views(comments@), content@, path@) == Some(blocks_result_view(r)),
{
    match try_extract_marker_blocks(comments, content, path) {
        Some(r) => r,
        None => Ok(Vec::new()),
    }
}

// ---------------------------------------------------------------------------
// Order of the blocks
// ---------------------------------------------------------------------------

/// The comments come in the order of the file: each ends no earlier than it
/// starts, and before the next one starts.
pub open spec fn comments_in_order(cs: Seq<CommentView>) -> bool {
    &&& forall|i: int| 0 <= i < cs.len() ==> #[trigger] cs[i].start <= cs[i].end
    &&& forall|i: int, j: int| 0 <= i < j < cs.len() ==> #[trigger] cs[i].end < #[trigger] cs[j].start
}

/// Each block's end marker comes after its begin marker, and each block
/// ends before the next one begins, or has the same markers (a block that
/// is both an input and an output block).
pub open spec fn blocks_in_order(bs: Seq<BlockView>) -> bool {
    &&& forall|i: int| 0 <= i < bs.len() ==> #[trigger] bs[i].begin < bs[i].end
    &&& forall|i: int, j: int|
        0 <= i < j < bs.len() ==> #[trigger] bs[i].end < #[trigger] bs[j].begin || (bs[i].begin
            == bs[j].begin && bs[i].end == bs[j].end)
}

/// The blocks of a walk state, and its open begin marker, lie at or before
/// line `x`, and the open marker comes after every closed block.
pub open spec fn state_within(st: WalkState, x: int) -> bool {
    &&& forall|i: int| 0 <= i < st.blocks.len() ==> #[trigger] st.blocks[i].end <= x
    &&& st.open matches Some((b, _, _)) ==> b <= x && forall|i: int|
        0 <= i < st.blocks.len() ==> #[trigger] st.blocks[i].end < b
}

/// Adding blocks with markers `b < e` after blocks in order that end before
/// `b` keeps them in order, and within `x >= e`.
proof fn lemma_push_in_order(bs: Seq<BlockView>, x: BlockView, b: usize, e: usize)
    requires
        blocks_in_order(bs),
        forall|i: int| 0 <= i < bs.len() ==> #[trigger] bs[i].end < b,
        x.begin == b,
        x.end == e,
        b < e,
    ensures
        blocks_in_order(bs.push(x)),
        forall|i: int| 0 <= i < bs.push(x).len() ==> #[trigger] bs.push(x)[i].end <= e,
{
    let t = bs.push(x);
    assert forall|i: int, j: int| 0 <= i < j < t.len() implies #[trigger] t[i].end < #[trigger] t[
        j].begin || (t[i].begin == t[j].begin && t[i].end == t[j].end) by {
        if j < bs.len() {
            assert(t[i] == bs[i] && t[j] == bs[j]);
        } else {
            assert(t[i] == bs[i]);
        }
    }
    assert forall|i: int| 0 <= i < t.len() implies #[trigger] t[i].begin < t[i].end by {
        if i < bs.len() {
            assert(t[i] == bs[i]);
        }
    }
    assert forall|i: int| 0 <= i < t.len() implies #[trigger] t[i].end <= e by {
        if i < bs.len() {
            assert(t[i] == bs[i]);
        }
    }
}

/// Closing a block with markers `b < e` keeps the blocks in order, within
/// `e`.
proof fn lemma_close_in_order(
    st: WalkState,
    b: usize,
    r: RoleView,
    out: Option<Seq<char>>,
    e: usize,
    lines: Seq<Seq<char>>,
)
    requires
        blocks_in_order(st.blocks),
        forall|i: int| 0 <= i < st.blocks.len() ==> #[trigger] st.blocks[i].end < b,
        b < e,
    ensures
        close_block(st, b, r, out, e, lines) matches Walk::Going(st2) ==> blocks_in_order(st2.blocks)
            && st2.open is None && forall|i: int|
            0 <= i < st2.blocks.len() ==> #[trigger] st2.blocks[i].end <= e,
{
    let first = match r {
        RoleView::Input(ids, _) => BlockView {
            begin: b,
            end: e,
            role: RoleView::Input(ids, join_nl(lines.subrange(b + 1, e as int))),
        },
        _ => BlockView { begin: b, end: e, role: r },
    };
    lemma_push_in_order(st.blocks, first, b, e);
    let bs1 = st.blocks.push(first);
    match out {
        Some(id) => {
            let second = BlockView { begin: b, end: e, role: RoleView::Output(Some(id)) };
            let t = bs1.push(second);
            assert forall|i: int, j: int| 0 <= i < j < t.len() implies #[trigger] t[i].end
                < #[trigger] t[j].begin || (t[i].begin == t[j].begin && t[i].end == t[j].end) by {
                if j < bs1.len() {
                    assert(t[i] == bs1[i] && t[j] == bs1[j]);
                } else if i < st.blocks.len() {
                    assert(t[i] == st.blocks[i]);
                } else {
                    assert(t[i] == first);
                }
            }
            assert forall|i: int| 0 <= i < t.len() implies #[trigger] t[i].begin < t[i].end by {
                if i < bs1.len() {
                    assert(t[i] == bs1[i]);
                }
            }
            assert forall|i: int| 0 <= i < t.len() implies #[trigger] t[i].end <= e by {
                if i < bs1.len() {
                    assert(t[i] == bs1[i]);
                }
            }
        },
        None => {},
    }
}

/// Walking over comments in order keeps the blocks in order, within the
/// last comment.
proof fn lemma_walk_in_order(cs: Seq<CommentView>, lines: Seq<Seq<char>>, path: Seq<char>)
    requires
        comments_in_order(cs),
    ensures
        walk(cs, lines, path) matches Walk::Going(st) ==> blocks_in_order(st.blocks) && (if cs.len()
            == 0 {
            st.blocks.len() == 0 && st.open is None
        } else {
            state_within(st, cs.last().end as int)
        }),
    decreases cs.len(),
{
    if cs.len() > 0 {
        let prev = cs.drop_last();
        let c = cs.last();
        assert(comments_in_order(prev)) by {
            assert forall|i: int, j: int| 0 <= i < j < prev.len() implies #[trigger] prev[i].end
                < #[trigger] prev[j].start by {
                assert(prev[i] == cs[i] && prev[j] == cs[j]);
            }
            assert forall|i: int| 0 <= i < prev.len() implies #[trigger] prev[i].start <= prev[i].end by {
                assert(prev[i] == cs[i]);
            }
        }
        lemma_walk_in_order(prev, lines, path);
        assert(c.start <= c.end) by {
            assert(cs[cs.len() - 1] == c);
        }
        if prev.len() > 0 {
            assert(prev.last().end < c.start) by {
                assert(cs[prev.len() - 1] == prev.last());
                assert(cs[cs.len() - 1] == c);
            }
        }
        match walk(prev, lines, path) {
            Walk::Going(st) => {
                if occurs(c.text, begin_marker()) {
                } else if occurs(c.text, end_marker()) {
                    match st.open {
                        None => {},
                        Some((b, r, out)) => {
                            lemma_close_in_order(st, b, r, out, c.start, lines);
                        },
                    }
                } else {
                }
            },
            _ => {},
        }
    }
}

/// Blocks extracted from comments in the order of the file are in order:
/// each block's end marker comes after its begin marker, and each block
/// ends before the next one begins, or has the same markers.
pub proof fn law_extracted_blocks_in_order(cs: Seq<CommentView>, content: Seq<char>, path: Seq<char>)
    requires
        comments_in_order(cs),
    ensures
        extraction(cs, content, path) matches Some(Ok(bs)) ==> blocks_in_order(bs),
{
    lemma_walk_in_order(cs, lines_of(content), path);
}

// ---------------------------------------------------------------------------
// Comments that are not markers
// ---------------------------------------------------------------------------

/// A comment that opens or closes a block.
pub open spec fn is_marker_comment(c: CommentView) -> bool {
    occurs(c.text, begin_marker()) || occurs(c.text, end_marker())
}

/// The marker comments among the comments, in order.
pub open spec fn marker_comments(cs: Seq<CommentView>) -> Seq<CommentView> {
    cs.filter(|c: CommentView| is_marker_comment(c))
}

/// The walk over the comments is the walk over their marker comments.
proof fn lemma_walk_marker_comments(cs: Seq<CommentView>, lines: Seq<Seq<char>>, path: Seq<char>)
    ensures
        walk(cs, lines, path) == walk(marker_comments(cs), lines, path),
    decreases cs.len(),
{
    if cs.len() > 0 {
        lemma_walk_marker_comments(cs.drop_last(), lines, path);
        let f = marker_comments(cs.drop_last());
        let pred = |c: CommentView| is_marker_comment(c);
        assert(cs == cs.drop_last().push(cs.last()));
        cs.drop_last().lemma_filter_push(cs.last(), pred);
        assert(marker_comments(cs) == cs.filter(pred));
        assert(f == cs.drop_last().filter(pred));
        if is_marker_comment(cs.last()) {
            assert(marker_comments(cs) == f.push(cs.last()));
            assert(f.push(cs.last()).drop_last() =~= f);
        } else {
            assert(marker_comments(cs) == f);
        }
    }
}

/// Comments that neither open nor close a block change nothing: comments
/// with the same marker comments, in the same order, give the same
/// extraction (the same blocks, or the same error).
pub proof fn law_non_marker_comments_ignored(
    cs1: Seq<CommentView>,
    cs2: Seq<CommentView>,
    content: Seq<char>,
    path: Seq<char>,
)
    requires
        marker_comments(cs1) == marker_comments(cs2),
    ensures
        extraction(cs1, content, path) == extraction(cs2, content, path),
{
    lemma_walk_marker_comments(cs1, lines_of(content), path);
    lemma_walk_marker_comments(cs2, lines_of(content), path);
}

} // verus!
