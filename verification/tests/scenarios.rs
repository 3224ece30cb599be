use injm::cmd::inject::{inject_from_files, inject_from_stdin};
use injm::cmd::list::run;
use injm::engine::marker::extract_marker_blocks;
use injm::engine::parser::{parse_patterns, FileProbe, PatternProbe};
use injm::engine::types::{Error, MarkerType, ParsedFile};
use injm::extractor::Comment;

fn line_comments(content: &str) -> Vec<Comment> {
    content
        .lines()
        .enumerate()
        .filter(|(_, l)| l.trim_start().starts_with("//"))
        .map(|(i, l)| Comment::trimmed(l, i, i))
        .collect()
}

fn parse(content: &str, path: &str) -> ParsedFile {
    let blocks = extract_marker_blocks(&line_comments(content), content, path).unwrap();
    ParsedFile {
        content: content.to_string(),
        blocks,
        path: path.to_string(),
    }
}

fn fill_stdin(content: &str, ids: &[&str], stdin: &str) -> String {
    let ids = ids.iter().map(|s| Some(s.to_string())).collect();
    let mut r = inject_from_stdin(&[parse(content, "f.rs")], ids, stdin.to_string())
        .unwrap()
        .unwrap();
    r.remove(0)
}

fn probe(path: &str, content: &[u8]) -> FileProbe {
    let text = String::from_utf8_lossy(content).to_string();
    FileProbe {
        failure: None,
        path: path.to_string(),
        exists: true,
        head: content.to_vec(),
        lang: Some("rust".to_string()),
        comments: Ok(line_comments(&text)),
        content: Ok(text),
    }
}

#[test]
fn test_basic_injection() {
    let f = "fn main() {\n    // injm begin\n    // injm end\n}\n";
    let result = fill_stdin(f, &[], "    println!(\"hello\");");
    assert!(result.contains("println!(\"hello\")"));
    assert!(!result.contains("injm begin\n    // injm end"));
}

#[test]
fn test_inject_with_id() {
    let f = "fn main() {\n    // injm begin >greeting\n    // injm end\n    // injm begin >farewell\n    // injm end\n}\n";
    let result = fill_stdin(f, &["greeting"], "    println!(\"hello\");");
    assert!(result.contains("println!(\"hello\")"));
    assert_eq!(result.matches("println!(\"hello\")").count(), 1);
    assert!(!result.contains("println!(\"bye\")"));
}

#[test]
fn test_inject_multiple_ids() {
    let f = "fn main() {\n    // injm begin >first\n    old first\n    // injm end\n    // injm begin >second\n    old second\n    // injm end\n    // injm begin >third\n    old third\n    // injm end\n}\n";
    let result = fill_stdin(f, &["first", "third"], "new content");
    assert!(!result.contains("old first"));
    assert!(result.contains("old second"));
    assert!(!result.contains("old third"));
    assert_eq!(result.matches("new content").count(), 2);
}

#[test]
fn test_inject_all_when_no_id_specified() {
    let f = "fn main() {\n    // injm begin\n    old default\n    // injm end\n    // injm begin >first\n    old first\n    // injm end\n}\n";
    let result = fill_stdin(f, &[], "new content");
    assert!(!result.contains("old default"));
    assert!(result.contains("old first"));
}

#[test]
fn test_reinjection_replaces_content() {
    let f = "// injm begin\n// injm end\n";
    let first = fill_stdin(f, &[], "first content");
    let result = fill_stdin(&first, &[], "second content");
    assert!(result.contains("second content"));
    assert!(!result.contains("first content"));
    assert!(result.contains("// injm begin"));
    assert!(result.contains("// injm end"));
}

#[test]
fn test_map_between_files() {
    let src = "fn main() {\n    // injm begin <hello\n    println!(\"Hello injm\")\n    // injm end\n}\n";
    let dest = "fn main() {\n    println!(\"Greeting from injm\")\n    // injm begin >hello\n    // injm end\n}\n";
    let result = inject_from_files(&[parse(dest, "dest.rs")], &[parse(src, "src.rs")])
        .unwrap()
        .unwrap();
    assert!(result[0].contains("println!(\"Hello injm\")"));
    assert!(result[0].contains("println!(\"Greeting from injm\")"));
}

#[test]
fn test_map_multiple_ids() {
    let src = "fn main() {\n    // injm begin <first\n    println!(\"first\")\n    // injm end\n    // injm begin <second\n    println!(\"second\")\n    // injm end\n}\n";
    let dest = "fn main() {\n    // injm begin >first\n    // injm end\n    // injm begin >second\n    // injm end\n}\n";
    let result = inject_from_files(&[parse(dest, "dest.rs")], &[parse(src, "src.rs")])
        .unwrap()
        .unwrap();
    assert!(result[0].contains("println!(\"first\")"));
    assert!(result[0].contains("println!(\"second\")"));
}

#[test]
fn test_duplicate_input_id_returns_error() {
    let a = "\n// injm begin <hello\nprintln!(\"a\");\n// injm end\n";
    let b = "\n// injm begin <hello\nprintln!(\"b\");\n// injm end\n";
    let dest = "// injm begin >hello\n// injm end\n";
    let inputs = parse_patterns(vec![PatternProbe {
        pattern: "dir/*.rs".to_string(),
        failure: None,
        files: vec![probe("dir/a.rs", a.as_bytes()), probe("dir/b.rs", b.as_bytes())],
    }]);
    let inputs = match inputs {
        Ok(files) => files,
        Err(e) => panic!("{}", e.message()),
    };
    assert!(matches!(
        inject_from_files(&[parse(dest, "dest.rs")], &inputs),
        Some(Err(Error::DuplicatedInputId { id })) if id == "hello"
    ));
}

#[test]
fn test_binary_file_returns_error() {
    let r = parse_patterns(vec![PatternProbe {
        pattern: "f".to_string(),
        failure: None,
        files: vec![probe("f", &[0x00, 0x01, 0x02, 0x03])],
    }]);
    assert!(matches!(r, Err(Error::BinaryFile)));
}

#[test]
fn test_list_single_file() {
    let content = "// injm begin <input_id\ncontent\n// injm end\n// injm begin >output_id\ncontent\n// injm end\n";
    let rows = run(&[parse(content, "test.rs")]);
    assert_eq!(rows.len(), 2);
    assert!(rows[0].id == "input_id" && rows[0].marker_type == MarkerType::Input);
    assert!(rows[1].id == "output_id" && rows[1].marker_type == MarkerType::Output);
}

#[test]
fn test_list_multiple_input_ids() {
    let rows = run(&[parse("// injm begin <first <second\ncontent\n// injm end\n", "test.rs")]);
    assert_eq!(rows.len(), 2);
    assert_eq!(rows[0].id, "first");
    assert_eq!(rows[1].id, "second");
}

#[test]
fn test_list_anonymous_block_produces_no_rows() {
    let rows = run(&[parse("// injm begin\ncontent\n// injm end\n", "test.rs")]);
    assert!(rows.is_empty());
}

#[test]
fn test_list_empty_file() {
    let files = parse_patterns(vec![PatternProbe {
        pattern: "empty.rs".to_string(),
        failure: None,
        files: vec![probe("empty.rs", b"")],
    }]);
    match files {
        Ok(files) => assert!(run(&files).is_empty()),
        Err(e) => panic!("{}", e.message()),
    }
}

#[test]
fn test_list_input_and_output_same_block() {
    let content = "// injm begin <in_id >out_id\ncontent\n// injm end\n";
    let rows = run(&[parse(content, "test.rs")]);
    assert_eq!(rows.len(), 2);
    assert!(rows[0].id == "in_id" && rows[0].marker_type == MarkerType::Input);
    assert!(rows[1].id == "out_id" && rows[1].marker_type == MarkerType::Output);
    assert_eq!(rows[0].lines, "1-3");
    assert_eq!(rows[1].lines, "1-3");
}
