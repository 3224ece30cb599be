//! The data that marker extraction produces, and its mathematical model.
use vstd::prelude::*;

use crate::text::{dec, push_decimal, push_str};

verus! {

// ---------------------------------------------------------------------------
// Model
// ---------------------------------------------------------------------------

/// What a marker block is for, as plain values.
pub enum RoleView {
    /// An output block, filled from the input block with this ID (if any).
    Output(Option<Seq<char>>),
    /// An input block: its IDs and the text between its markers.
    Input(Seq<Seq<char>>, Seq<char>),
    /// A block without IDs.
    Default,
}

/// A marker block as plain values: the line of its begin marker, the line of
/// its end marker, and its role.
pub struct BlockView {
    pub begin: usize,
    pub end: usize,
    pub role: RoleView,
}

/// A parsed file as plain values.
pub struct FileView {
    pub content: Seq<char>,
    pub blocks: Seq<BlockView>,
    pub path: Seq<char>,
}

/// The view of an optional string.
pub open spec fn opt_view(o: Option<String>) -> Option<Seq<char>> {
    match o {
        Some(s) => Some(s@),
        None => None,
    }
}

/// The IDs that a role offers as input (none unless it is an input role).
pub open spec fn role_input_ids(r: RoleView) -> Seq<Seq<char>> {
    match r {
        RoleView::Input(ids, _) => ids,
        _ => seq![],
    }
}

/// The IDs that a role asks for as output (at most one).
pub open spec fn role_output_ids(r: RoleView) -> Seq<Seq<char>> {
    match r {
        RoleView::Output(Some(id)) => seq![id],
        _ => seq![],
    }
}

// ---------------------------------------------------------------------------
// Executable types
// ---------------------------------------------------------------------------

/// The role of a marker block.
#[derive(Debug)]
pub enum BlockRole {
    Output { id: Option<String> },
    Input { ids: Vec<String>, content: String },
    Default,
}

impl View for BlockRole {
    type V = RoleView;

    open spec fn view(&self) -> RoleView {
        match self {
            BlockRole::Output { id } => RoleView::Output(opt_view(*id)),
            BlockRole::Input { ids, content } => RoleView::Input(ids.deep_view(), content@),
            BlockRole::Default => RoleView::Default,
        }
    }
}

/// A block between an `injm begin` and an `injm end` comment.
pub struct MarkerBlock {
    pub begin_line: usize,
    pub end_line: usize,
    pub role: BlockRole,
}

impl View for MarkerBlock {
    type V = BlockView;

    open spec fn view(&self) -> BlockView {
        BlockView { begin: self.begin_line, end: self.end_line, role: self.role@ }
    }
}

/// One row of the listing of marker blocks.
pub struct MarkerInfo {
    pub file: String,
    pub id: String,
    pub marker_type: MarkerType,
    pub lines: String,
}

/// A file with its content and its marker blocks.
pub struct ParsedFile {
    pub content: String,
    pub blocks: Vec<MarkerBlock>,
    pub path: String,
}

impl View for ParsedFile {
    type V = FileView;

    open spec fn view(&self) -> FileView {
        FileView { content: self.content@, blocks: block_views(self.blocks@), path: self.path@ }
    }
}

/// The views of a sequence of blocks.
pub open spec fn block_views(v: Seq<MarkerBlock>) -> Seq<BlockView> {
    v.map_values(|b: MarkerBlock| b@)
}

/// Whether a listed marker is an input or an output.
#[derive(Clone, Copy, PartialEq, Eq, Structural)]
pub enum MarkerType {
    Input,
    Output,
}

impl MarkerType {
    /// The name of the marker type, as it is displayed.
    pub open spec fn spec_name(self) -> Seq<char> {
        match self {
            MarkerType::Input => "input"@,
            MarkerType::Output => "output"@,
        }
    }

    /// The name of the marker type, as it is displayed.
    pub fn name(&self) -> (r: String)
        ensures
            r@ == self.spec_name(),
    {
        let mut r = String::new();
        match self {
            MarkerType::Input => push_str(&mut r, "input"),
            MarkerType::Output => push_str(&mut r, "output"),
        }
        r
    }
}

/// The errors of marker extraction, file checks and ID checks.
#[derive(Debug)]
pub enum Error {
    FileNotExist,
    BinaryFile,
    UnsupportedFileType { path: String },
    Io { message: String },
    NestedBegin { line: usize, path: String },
    EndWithoutBegin { line: usize },
    BeginWithoutEnd { line: usize },
    BothInputAndOutput,
    MultipleOutputs,
    MissingInputId { id: String },
    DuplicatedInputId { id: String },
    NoPatternMatch { pattern: String },
}

/// The errors of marker extraction and the checks, as plain values.
pub enum ErrorView {
    FileNotExist,
    BinaryFile,
    UnsupportedFileType(Seq<char>),
    Io(Seq<char>),
    NestedBegin(usize, Seq<char>),
    EndWithoutBegin(usize),
    BeginWithoutEnd(usize),
    BothInputAndOutput,
    MultipleOutputs,
    MissingInputId(Seq<char>),
    DuplicatedInputId(Seq<char>),
    NoPatternMatch(Seq<char>),
}

impl View for Error {
    type V = ErrorView;

    open spec fn view(&self) -> ErrorView {
        match self {
            Error::FileNotExist => ErrorView::FileNotExist,
            Error::BinaryFile => ErrorView::BinaryFile,
            Error::UnsupportedFileType { path } => ErrorView::UnsupportedFileType(path@),
            Error::Io { message } => ErrorView::Io(message@),
            Error::NestedBegin { line, path } => ErrorView::NestedBegin(*line, path@),
            Error::EndWithoutBegin { line } => ErrorView::EndWithoutBegin(*line),
            Error::BeginWithoutEnd { line } => ErrorView::BeginWithoutEnd(*line),
            Error::BothInputAndOutput => ErrorView::BothInputAndOutput,
            Error::MultipleOutputs => ErrorView::MultipleOutputs,
            Error::MissingInputId { id } => ErrorView::MissingInputId(id@),
            Error::DuplicatedInputId { id } => ErrorView::DuplicatedInputId(id@),
            Error::NoPatternMatch { pattern } => ErrorView::NoPatternMatch(pattern@),
        }
    }
}

/// The message that describes an error.
pub open spec fn error_message(e: ErrorView) -> Seq<char> {
    match e {
        ErrorView::FileNotExist => "file does not exist"@,
        ErrorView::BinaryFile => "binary file"@,
        ErrorView::UnsupportedFileType(path) => "unsupported file type: "@ + path,
        ErrorView::Io(message) => message,
        ErrorView::NestedBegin(line, path) => "found nested `injm begin` without `injm end` in line "@
            + dec(line as nat) + " of "@ + path,
        ErrorView::EndWithoutBegin(line) => "found `injm end` without `injm begin` in line "@ + dec(
            line as nat,
        ),
        ErrorView::BeginWithoutEnd(line) => "found `injm begin` without `injm end` at line "@ + dec(
            line as nat,
        ),
        ErrorView::BothInputAndOutput => "found both input and output token"@,
        ErrorView::MultipleOutputs => "multiple output markers detected"@,
        ErrorView::MissingInputId(id) => "missing input id `"@ + id + "`"@,
        ErrorView::DuplicatedInputId(id) => "duplicated input id `"@ + id + "`"@,
        ErrorView::NoPatternMatch(pattern) => "no files matched pattern `"@ + pattern + "`"@,
    }
}

impl Error {
    /// The message that describes the error.
    pub fn message(&self) -> (r: String)
        ensures
            r@ == error_message(self@),
    {
        let mut r = String::new();
        match self {
            Error::FileNotExist => push_str(&mut r, "file does not exist"),
            Error::BinaryFile => push_str(&mut r, "binary file"),
            Error::UnsupportedFileType { path } => {
                push_str(&mut r, "unsupported file type: ");
                push_str(&mut r, path.as_str());
            },
            Error::Io { message } => push_str(&mut r, message.as_str()),
            Error::NestedBegin { line, path } => {
                push_str(&mut r, "found nested `injm begin` without `injm end` in line ");
                push_decimal(&mut r, *line);
                push_str(&mut r, " of ");
                push_str(&mut r, path.as_str());
            },
            Error::EndWithoutBegin { line } => {
                push_str(&mut r, "found `injm end` without `injm begin` in line ");
                push_decimal(&mut r, *line);
            },
            Error::BeginWithoutEnd { line } => {
                push_str(&mut r, "found `injm begin` without `injm end` at line ");
                push_decimal(&mut r, *line);
            },
            Error::BothInputAndOutput => push_str(&mut r, "found both input and output token"),
            Error::MultipleOutputs => push_str(&mut r, "multiple output markers detected"),
            Error::MissingInputId { id } => {
                push_str(&mut r, "missing input id `");
                push_str(&mut r, id.as_str());
                push_str(&mut r, "`");
            },
            Error::DuplicatedInputId { id } => {
                push_str(&mut r, "duplicated input id `");
                push_str(&mut r, id.as_str());
                push_str(&mut r, "`");
            },
            Error::NoPatternMatch { pattern } => {
                push_str(&mut r, "no files matched pattern `");
                push_str(&mut r, pattern.as_str());
                push_str(&mut r, "`");
            },
        }
        proof {
            assert(Seq::<char>::empty() + error_message(self@) =~= error_message(self@));
        }
        r
    }
}

} // verus!
