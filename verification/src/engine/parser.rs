//! Parsing the files that patterns match, from what was read of them.
//!
//! Finding the files (globbing), reading them and finding their comments is
//! done by the caller; each matched file comes here as a `FileProbe`, and the
//! checks and the marker extraction are made here, in the order of the files.
use vstd::prelude::*;

use crate::engine::marker::{blocks_result_view, extraction, try_extract_marker_blocks};
use crate::engine::types::{block_views, Error, ErrorView, FileView, ParsedFile};
use crate::extractor::{comment_views, Comment};
use crate::checker::check_file;

verus! {

/// What was found out about one file that a pattern matched.
pub struct FileProbe {
    /// An error met before the file could be looked at (such as a glob error).
    pub failure: Option<String>,
    pub path: String,
    pub exists: bool,
    /// The bytes read from the start of the file.
    pub head: Vec<u8>,
    /// The language of the file, if it was recognised.
    pub lang: Option<String>,
    /// The text of the file, or the error met reading it.
    pub content: Result<String, String>,
    /// The comments of the file, or the error met finding them.
    pub comments: Result<Vec<Comment>, String>,
}

/// What a pattern matched: the pattern (a directory already expanded to all
/// the files below it), an error met with the pattern itself, and the files
/// it matched, directories left out.
pub struct PatternProbe {
    pub pattern: String,
    pub failure: Option<String>,
    pub files: Vec<FileProbe>,
}

/// `s` without trailing `'/'` characters.
pub open spec fn trim_end_slashes(s: Seq<char>) -> Seq<char>
    decreases s.len(),
{
    if s.len() > 0 && s.last() == '/' {
        trim_end_slashes(s.drop_last())
    } else {
        s
    }
}

/// `/**/*`
pub open spec fn recursive_suffix() -> Seq<char> {
    seq!['/', '*', '*', '/', '*']
}

/// The glob pattern for a pattern: a directory stands for all the files
/// below it.
pub open spec fn spec_glob_pattern(pattern: Seq<char>, is_dir: bool) -> Seq<char> {
    if is_dir {
        trim_end_slashes(pattern) + recursive_suffix()
    } else {
        pattern
    }
}

/// The glob pattern for a pattern: a directory stands for all the files
/// below it.
pub fn glob_pattern(pattern: &str, is_dir: bool) -> (r: String)
    ensures
        r@ == spec_glob_pattern(pattern@, is_dir),
{
    let cs = crate::text::chars_of(pattern);
    if !is_dir {
        return crate::text::string_of(cs.as_slice());
    }
    let mut n = cs.len();
    assert(cs@.take(n as int) =~= cs@);
    while n > 0 && cs[n - 1] == '/'
        invariant
            n <= cs.len(),
            cs@ == pattern@,
            trim_end_slashes(pattern@) == trim_end_slashes(cs@.take(n as int)),
        decreases n,
    {
        assert(cs@.take(n as int).drop_last() =~= cs@.take(n - 1));
        n -= 1;
    }
    assert(cs@.take(n as int) =~= cs@.subrange(0, n as int));
    let mut r = crate::text::string_of_range(cs.as_slice(), 0, n);
    let suffix: Vec<char> = vec!['/', '*', '*', '/', '*'];
    crate::text::push_chars(&mut r, suffix.as_slice());
    assert(suffix@ =~= recursive_suffix());
    r
}

/// The outcome of parsing one file: the first failed check (an earlier
/// error, a missing file, a binary file, an unknown language, a read error,
/// an error finding the comments), or the marker extraction. `None` where
/// the extraction gets stuck.
pub open spec fn probe_outcome(p: FileProbe) -> Option<Result<FileView, ErrorView>> {
    match p.failure {
        Some(m) => Some(Err(ErrorView::Io(m@))),
        None => if !p.exists {
            Some(Err(ErrorView::FileNotExist))
        } else if p.head@.contains(0u8) {
            Some(Err(ErrorView::BinaryFile))
        } else if p.lang is None {
            Some(Err(ErrorView::UnsupportedFileType(p.path@)))
        } else {
            match p.content {
                Err(m) => Some(Err(ErrorView::Io(m@))),
                Ok(c) => match p.comments {
                    Err(m) => Some(Err(ErrorView::Io(m@))),
                    Ok(cs) => match extraction(comment_views(cs@), c@, p.path@) {
                        None => None,
                        Some(Err(e)) => Some(Err(e)),
                        Some(Ok(bs)) => Some(Ok(FileView { content: c@, blocks: bs, path: p.path@ })),
                    },
                },
            }
        },
    }
}

/// `acc` followed by the files of an outcome.
pub open spec fn prepend(acc: Seq<FileView>, o: Option<Result<Seq<FileView>, ErrorView>>) -> Option<
    Result<Seq<FileView>, ErrorView>,
> {
    match o {
        Some(Ok(v)) => Some(Ok(acc + v)),
        other => other,
    }
}

/// The outcome of parsing the files in order, stopping at the first that
/// does not parse.
pub open spec fn files_outcome(fs: Seq<FileProbe>) -> Option<Result<Seq<FileView>, ErrorView>>
    decreases fs.len(),
{
    if fs.len() == 0 {
        Some(Ok(seq![]))
    } else {
        match probe_outcome(fs[0]) {
            Some(Ok(f)) => prepend(seq![f], files_outcome(fs.drop_first())),
            Some(Err(e)) => Some(Err(e)),
            None => None,
        }
    }
}

/// The outcome of parsing the files a pattern matched; a pattern that
/// matched no file is an error.
pub open spec fn pattern_outcome(p: PatternProbe) -> Option<Result<Seq<FileView>, ErrorView>> {
    match p.failure {
        Some(m) => Some(Err(ErrorView::Io(m@))),
        None => match files_outcome(p.files@) {
            Some(Ok(v)) => if v.len() == 0 {
                Some(Err(ErrorView::NoPatternMatch(p.pattern@)))
            } else {
                Some(Ok(v))
            },
            other => other,
        },
    }
}

/// The outcome of parsing the files of the patterns in order, stopping at
/// the first error.
pub open spec fn patterns_outcome(ps: Seq<PatternProbe>) -> Option<Result<Seq<FileView>, ErrorView>>
    decreases ps.len(),
{
    if ps.len() == 0 {
        Some(Ok(seq![]))
    } else {
        match pattern_outcome(ps[0]) {
            Some(Ok(v)) => prepend(v, patterns_outcome(ps.drop_first())),
            Some(Err(e)) => Some(Err(e)),
            None => None,
        }
    }
}

/// The view of a parse result.
pub open spec fn files_result_view(r: Result<Vec<ParsedFile>, Error>) -> Result<
    Seq<FileView>,
    ErrorView,
> {
    match r {
        Ok(v) => Ok(crate::engine::checker::file_views(v@)),
        Err(e) => Err(e@),
    }
}

/// Parses one file.
fn parse_probe(p: FileProbe) -> (r: Option<Result<ParsedFile, Error>>)
    ensures
        match r {
            Some(Ok(f)) => probe_outcome(p) == Some(Ok::<FileView, ErrorView>(f@)),
            Some(Err(e)) => probe_outcome(p) == Some(Err::<FileView, ErrorView>(e@)),
            None => probe_outcome(p) is None,
        },
{
    let ghost p0 = p;
    let FileProbe { failure, path, exists, head, lang, content, comments } = p;
    if let Some(message) = failure {
        return Some(Err(Error::Io { message }));
    }
    if let Err(e) = check_file(exists, head.as_slice()) {
        return Some(Err(e));
    }
    if lang.is_none() {
        return Some(Err(Error::UnsupportedFileType { path }));
    }
    match content {
        Err(message) => Some(Err(Error::Io { message })),
        Ok(content) => match comments {
            Err(message) => Some(Err(Error::Io { message })),
            Ok(comments) => match try_extract_marker_blocks(
                comments.as_slice(),
                content.as_str(),
                path.as_str(),
            ) {
                None => None,
                Some(Err(e)) => Some(Err(e)),
                Some(Ok(blocks)) => {
                    let f = ParsedFile { content, blocks, path };
                    assert(f@ == FileView { content: f.content@, blocks: block_views(f.blocks@), path: f.path@ });
                    Some(Ok(f))
                },
            },
        },
    }
}

/// Parses the files a pattern matched.
fn parse_pattern(p: PatternProbe) -> (r: Option<Result<Vec<ParsedFile>, Error>>)
    ensures
        match r {
            Some(res) => pattern_outcome(p) == Some(files_result_view(res)),
            None => pattern_outcome(p) is None,
        },
{
    let ghost p0 = p;
    let PatternProbe { pattern, failure, files } = p;
    if let Some(message) = failure {
        return Some(Err(Error::Io { message }));
    }
    let ghost all = files@;
    let mut rest = files;
    let mut result: Vec<ParsedFile> = Vec::new();
    assert(crate::engine::checker::file_views(result@) + Seq::<FileView>::empty() =~= Seq::<FileView>::empty());
    while rest.len() > 0
        invariant
            all == p0.files@,
            p0 == p,
            p0.failure is None,
            p0.pattern == pattern,
            files_outcome(all) == prepend(
                crate::engine::checker::file_views(result@),
                files_outcome(rest@),
            ),
        decreases rest.len(),
    {
        let ghost rs = rest@;
        let probe = rest.remove(0);
        assert(rest@ =~= rs.drop_first());
        assert(rs[0] == probe);
        match parse_probe(probe) {
            None => {
                assert(files_outcome(rs) is None);
                return None;
            },
            Some(Err(e)) => {
                assert(files_outcome(rs) == Some(Err::<Seq<FileView>, ErrorView>(e@)));
                return Some(Err(e));
            },
            Some(Ok(f)) => {
                let ghost before = crate::engine::checker::file_views(result@);
                result.push(f);
                assert(crate::engine::checker::file_views(result@) =~= before.push(f@));
                assert(before + (seq![f@] + Seq::<FileView>::empty()) =~= before.push(f@));
                proof {
                    let o = files_outcome(rest@);
                    match o {
                        Some(Ok(v)) => {
                            assert(before + (seq![f@] + v) =~= before.push(f@) + v);
                        },
                        _ => {},
                    }
                }
            },
        }
    }
    assert(crate::engine::checker::file_views(result@) + Seq::<FileView>::empty()
        =~= crate::engine::checker::file_views(result@));
    if result.len() == 0 {
        return Some(Err(Error::NoPatternMatch { pattern }));
    }
    Some(Ok(result))
}

/// Parses the files that the patterns matched, in order; `None` where the
/// marker extraction of a file gets stuck.
pub fn try_parse_patterns(patterns: Vec<PatternProbe>) -> (r: Option<Result<Vec<ParsedFile>, Error>>)
    ensures
        match r {
            Some(res) => patterns_outcome(patterns@) == Some(files_result_view(res)),
            None => patterns_outcome(patterns@) is None,
        },
{
    let ghost all = patterns@;
    let mut rest = patterns;
    let mut files: Vec<ParsedFile> = Vec::new();
    assert(crate::engine::checker::file_views(files@) + Seq::<FileView>::empty() =~= Seq::<FileView>::empty());
    while rest.len() > 0
        invariant
            all == patterns@,
            patterns_outcome(all) == prepend(
                crate::engine::checker::file_views(files@),
                patterns_outcome(rest@),
            ),
        decreases rest.len(),
    {
        let ghost rs = rest@;
        let p = rest.remove(0);
        assert(rest@ =~= rs.drop_first());
        assert(rs[0] == p);
        match parse_pattern(p) {
            None => {
                assert(patterns_outcome(rs) is None);
                return None;
            },
            Some(Err(e)) => {
                assert(patterns_outcome(rs) == Some(Err::<Seq<FileView>, ErrorView>(e@)));
                return Some(Err(e));
            },
            Some(Ok(mut more)) => {
                let ghost before = crate::engine::checker::file_views(files@);
                let ghost added = crate::engine::checker::file_views(more@);
                files.append(&mut more);
                assert(crate::engine::checker::file_views(files@) =~= before + added);
                proof {
                    let o = patterns_outcome(rest@);
                    match o {
                        Some(Ok(v)) => {
                            assert(before + (added + v) =~= before + added + v);
                        },
                        _ => {},
                    }
                }
            },
        }
    }
    assert(crate::engine::checker::file_views(files@) + Seq::<FileView>::empty()
        =~= crate::engine::checker::file_views(files@));
    Some(Ok(files))
}

/// Parses the files that the patterns matched, in order.
pub fn parse_patterns(patterns: Vec<PatternProbe>) -> (r: Result<Vec<ParsedFile>, Error>)
    requires
        patterns_outcome(patterns@) is Some,
    ensures
        patterns_outcome(patterns@) == Some(files_result_view(r)),
{
    match try_parse_patterns(patterns) {
        Some(r) => r,
        None => Ok(Vec::new()),
    }
}

/// Parsing two lists of patterns one after the other: the files of the
/// first list followed by those of the second, or the first error (or stuck
/// extraction) met, in order.
pub proof fn law_patterns_concat(p: Seq<PatternProbe>, q: Seq<PatternProbe>)
    ensures
        patterns_outcome(p + q) == match patterns_outcome(p) {
            Some(Ok(a)) => prepend(a, patterns_outcome(q)),
            other => other,
        },
    decreases p.len(),
{
    if p.len() == 0 {
        assert(p + q =~= q);
        match patterns_outcome(q) {
            Some(Ok(v)) => {
                assert(Seq::<FileView>::empty() + v =~= v);
            },
            _ => {},
        }
    } else {
        assert((p + q)[0] == p[0]);
        assert((p + q).drop_first() =~= p.drop_first() + q);
        law_patterns_concat(p.drop_first(), q);
        match pattern_outcome(p[0]) {
            Some(Ok(v)) => {
                match patterns_outcome(p.drop_first()) {
                    Some(Ok(a)) => {
                        match patterns_outcome(q) {
                            Some(Ok(b)) => {
                                assert(v + (a + b) =~= (v + a) + b);
                            },
                            _ => {},
                        }
                    },
                    _ => {},
                }
            },
            _ => {},
        }
    }
}

/// Parsing no pattern gives no file.
pub proof fn law_no_patterns()
    ensures
        patterns_outcome(Seq::<PatternProbe>::empty()) == Some(
            Ok::<Seq<FileView>, ErrorView>(Seq::<FileView>::empty()),
        ),
{
}

} // verus!
