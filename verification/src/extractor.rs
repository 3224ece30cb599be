//! Comments of a source file.
use vstd::prelude::*;

use crate::text::{trim, trimmed};

verus! {

/// A comment as plain values: its text and the lines where it starts and ends.
pub struct CommentView {
    pub text: Seq<char>,
    pub start: usize,
    pub end: usize,
}

/// A comment of a source file: its text and the (0-based) lines where it
/// starts and ends.
pub struct Comment {
    pub text: String,
    pub start_line: usize,
    pub end_line: usize,
}

impl View for Comment {
    type V = CommentView;

    open spec fn view(&self) -> CommentView {
        CommentView { text: self.text@, start: self.start_line, end: self.end_line }
    }
}

/// The views of a sequence of comments.
pub open spec fn comment_views(cs: Seq<Comment>) -> Seq<CommentView> {
    cs.map_values(|c: Comment| c@)
}

impl Comment {
    /// The comment with the given raw text, trimmed of surrounding whitespace.
    pub fn trimmed(raw_text: &str, start_line: usize, end_line: usize) -> (c: Comment)
        ensures
            c@ == (CommentView { text: trimmed(raw_text@), start: start_line, end: end_line }),
    {
        Comment { text: trim(raw_text), start_line, end_line }
    }
}

} // verus!
