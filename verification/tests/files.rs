use injm::checker::check_file;
use injm::cmd::inject::{inject_from_files, inject_from_stdin};
use injm::engine::marker::extract_marker_blocks;
use injm::engine::parser::{parse_patterns, PatternProbe};
use injm::engine::types::{Error, ParsedFile};
use injm::extractor::Comment;
use injm::validator::file::validate_file;
use injm::validator::ValidatorError;

// What is read of a file comes in as values: whether it exists and the
// bytes at its start.

#[test]
fn checker_test_file_not_exist() {
    assert!(check_file(false, b"").is_err());
}

#[test]
fn checker_test_text_file() {
    assert!(check_file(true, b"fn main() {}\n").is_ok());
}

#[test]
fn checker_test_binary_file() {
    assert!(matches!(check_file(true, &[0x00, 0x01, 0x02, 0x03]), Err(Error::BinaryFile)));
}

#[test]
fn checker_test_empty_file() {
    assert!(check_file(true, b"").is_ok());
}

#[test]
fn file_test_file_not_exist() {
    assert!(matches!(
        validate_file("not_exist.rs", false, b""),
        Err(ValidatorError::FileNotExist { path }) if path == "not_exist.rs"
    ));
}

#[test]
fn file_test_text_file() {
    assert!(validate_file("a.rs", true, b"fn main() {}\n").is_ok());
}

#[test]
fn file_test_binary_file() {
    assert!(validate_file("a.rs", true, &[0x00, 0x01, 0x02, 0x03]).is_err());
}

#[test]
fn file_test_empty_file() {
    assert!(validate_file("a.rs", true, b"").is_ok());
}

fn line_comments(content: &str) -> Vec<Comment> {
    content
        .lines()
        .enumerate()
        .filter(|(_, l)| l.trim_start().starts_with("//"))
        .map(|(i, l)| Comment::trimmed(l, i, i))
        .collect()
}

fn parse(content: &str, path: &str) -> Result<ParsedFile, Error> {
    let blocks = extract_marker_blocks(&line_comments(content), content, path)?;
    Ok(ParsedFile {
        content: content.to_string(),
        blocks,
        path: path.to_string(),
    })
}

#[test]
fn test_map_missing_input_id_returns_error() {
    let src = "fn main() {\n    // injm begin <hello\n    println!(\"Hello injm\")\n    // injm end\n}\n";
    let dest = "fn main() {\n    // injm begin >not_exist\n    // injm end\n}\n";
    let inputs = vec![parse(src, "src.rs").unwrap()];
    let outputs = vec![parse(dest, "dest.rs").unwrap()];
    assert!(matches!(
        inject_from_files(&outputs, &inputs),
        Some(Err(Error::MissingInputId { id })) if id == "not_exist"
    ));
}

#[test]
fn test_unclosed_marker_returns_error() {
    let f = "fn main() {\n    // injm begin\n}\n";
    let outcome = parse(f, "f.rs").and_then(|file| {
        inject_from_stdin(&[file], vec![], "x".to_string()).unwrap().map(|_| ())
    });
    assert!(matches!(outcome, Err(Error::BeginWithoutEnd { line: 1 })));
}

#[test]
fn test_map_input_file_not_exist_returns_error() {
    // A path that names no file matches nothing.
    let input = PatternProbe {
        pattern: "not_exist_input.rs".to_string(),
        failure: None,
        files: vec![],
    };
    assert!(matches!(
        parse_patterns(vec![input]),
        Err(Error::NoPatternMatch { pattern }) if pattern == "not_exist_input.rs"
    ));
}

#[test]
fn test_list_file_not_exist_returns_error() {
    let input = PatternProbe {
        pattern: "dir/not_exist.rs".to_string(),
        failure: None,
        files: vec![],
    };
    assert!(parse_patterns(vec![input]).is_err());
}

#[test]
fn test_list_no_match_returns_error() {
    let input = PatternProbe {
        pattern: "dir/*.rs".to_string(),
        failure: None,
        files: vec![],
    };
    match parse_patterns(vec![input]) {
        Err(e) => assert_eq!(e.message(), "no files matched pattern `dir/*.rs`"),
        Ok(_) => panic!("expected no match"),
    }
}
