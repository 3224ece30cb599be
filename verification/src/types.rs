//! Marker blocks located by a source span.
use vstd::prelude::*;

use crate::engine::marker::{role_matches_output, spec_matches_output};
use crate::engine::types::{BlockView, FileView};
use crate::text::{dec, push_decimal, push_str};

pub use crate::engine::types::BlockRole;

verus! {

/// A block between an `injm begin` and an `injm end` comment, with its role.
pub struct MarkerBlock {
    pub span: SourceSpan,
    pub role: BlockRole,
}

impl View for MarkerBlock {
    type V = BlockView;

    open spec fn view(&self) -> BlockView {
        BlockView { begin: self.span.begin_marker, end: self.span.end_marker, role: self.role@ }
    }
}

/// The (0-based) lines of the begin and the end marker of a block.
#[derive(Debug, Clone, Copy, PartialEq, Eq, Structural)]
pub struct SourceSpan {
    pub begin_marker: usize,
    pub end_marker: usize,
}

/// A file with its content and its marker blocks.
pub struct ParsedFile {
    pub content: String,
    pub blocks: Vec<MarkerBlock>,
    pub path: String,
}

/// The views of a sequence of blocks.
pub open spec fn span_block_views(v: Seq<MarkerBlock>) -> Seq<BlockView> {
    v.map_values(|b: MarkerBlock| b@)
}

impl View for ParsedFile {
    type V = FileView;

    open spec fn view(&self) -> FileView {
        FileView { content: self.content@, blocks: span_block_views(self.blocks@), path: self.path@ }
    }
}

/// The lines up to and including `end` (`..=end`).
#[derive(Debug, Clone, Copy, PartialEq, Eq, Structural)]
pub struct LinesUpTo {
    pub end: usize,
}

/// The lines from `start` on (`start..`).
#[derive(Debug, Clone, Copy, PartialEq, Eq, Structural)]
pub struct LinesFrom {
    pub start: usize,
}

impl LinesUpTo {
    /// Whether line `i` is in the range.
    pub fn contains(&self, i: usize) -> (r: bool)
        ensures
            r == (i <= self.end),
    {
        i <= self.end
    }
}

impl LinesFrom {
    /// Whether line `i` is in the range.
    pub fn contains(&self, i: usize) -> (r: bool)
        ensures
            r == (self.start <= i),
    {
        self.start <= i
    }
}

/// The 1-based line numbers of the markers of a span, as `begin-end`.
pub open spec fn span_display(begin: usize, end: usize) -> Seq<char> {
    dec((begin + 1) as nat) + "-"@ + dec((end + 1) as nat)
}

impl SourceSpan {
    pub fn new(begin_marker: usize, end_marker: usize) -> (s: Self)
        ensures
            s.begin_marker == begin_marker,
            s.end_marker == end_marker,
    {
        Self { begin_marker, end_marker }
    }

    /// The lines strictly between the markers.
    pub fn content_lines(&self) -> (r: std::ops::Range<usize>)
        requires
            self.begin_marker < usize::MAX,
        ensures
            r.start == self.begin_marker + 1,
            r.end == self.end_marker,
    {
        self.begin_marker + 1..self.end_marker
    }

    /// The 1-based line numbers of the markers, as `begin-end`.
    pub fn display_lines(&self) -> (r: String)
        requires
            self.begin_marker < usize::MAX,
            self.end_marker < usize::MAX,
        ensures
            r@ == span_display(self.begin_marker, self.end_marker),
    {
        let mut r = String::new();
        push_decimal(&mut r, self.begin_marker + 1);
        push_str(&mut r, "-");
        push_decimal(&mut r, self.end_marker + 1);
        assert(r@ =~= span_display(self.begin_marker, self.end_marker));
        r
    }

    /// The lines up to and including the begin marker.
    pub fn before_lines(&self) -> (r: LinesUpTo)
        ensures
            r.end == self.begin_marker,
    {
        LinesUpTo { end: self.begin_marker }
    }

    /// The lines from the end marker on.
    pub fn after_lines(&self) -> (r: LinesFrom)
        ensures
            r.start == self.end_marker,
    {
        LinesFrom { start: self.end_marker }
    }
}

impl MarkerBlock {
    /// Whether this input block matches the output block.
    pub fn matches_output(&self, output: &MarkerBlock) -> (r: bool)
        ensures
            r == spec_matches_output(self.role@, output.role@),
    {
        role_matches_output(&self.role, &output.role)
    }
}

impl ParsedFile {
    /// The same file, with each block located by a span.
    pub fn located(f: crate::engine::types::ParsedFile) -> (r: ParsedFile)
        ensures
            r@ == f@,
    {
        let crate::engine::types::ParsedFile { content, blocks, path } = f;
        let ghost all = crate::engine::types::block_views(blocks@);
        let mut rest = blocks;
        let mut out: Vec<MarkerBlock> = Vec::new();
        while rest.len() > 0
            invariant
                span_block_views(out@) + crate::engine::types::block_views(rest@) == all,
            decreases rest.len(),
        {
            let ghost rs = rest@;
            let b = rest.remove(0);
            assert(rest@ =~= rs.drop_first());
            let ghost before = span_block_views(out@);
            let blk = MarkerBlock { span: SourceSpan::new(b.begin_line, b.end_line), role: b.role };
            out.push(blk);
            assert(span_block_views(out@) =~= before.push(blk@));
            assert(crate::engine::types::block_views(rs) =~= seq![blk@] + crate::engine::types::block_views(rest@));
            assert(before.push(blk@) + crate::engine::types::block_views(rest@) =~= before + crate::engine::types::block_views(rs));
        }
        assert(span_block_views(out@) + crate::engine::types::block_views(rest@) =~= span_block_views(out@));
        ParsedFile { content, blocks: out, path }
    }
}

} // verus!
