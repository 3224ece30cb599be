use injm::injector::inject;
use injm::marker::MarkerBlock;

fn block(output_id: Option<&str>, begin_line: usize, end_line: usize) -> MarkerBlock {
    MarkerBlock {
        input_ids: None,
        input_content: None,
        output_id: output_id.map(|s| s.to_string()),
        begin_line,
        end_line,
    }
}

#[test]
fn test_inject_single_block() {
    let content = "fn main() {\n    // injm begin\n    old content\n    // injm end\n}\n";
    let blocks = vec![block(None, 1, 3)];
    let result = inject(content, &blocks, "    new content", &[None]);
    assert!(result.contains("new content"));
    assert!(!result.contains("old content"));
}

#[test]
fn test_inject_preserves_markers() {
    let content = "// injm begin\nold\n// injm end\n";
    let blocks = vec![block(None, 0, 2)];
    let result = inject(content, &blocks, "new", &[None]);
    assert!(result.contains("// injm begin"));
    assert!(result.contains("// injm end"));
}

#[test]
fn test_inject_preserves_trailing_newline() {
    let content = "// injm begin\nold\n// injm end\n";
    let blocks = vec![block(None, 0, 2)];
    let result = inject(content, &blocks, "new", &[None]);
    assert!(result.ends_with('\n'));
}

#[test]
fn test_inject_no_trailing_newline() {
    let content = "// injm begin\nold\n// injm end";
    let blocks = vec![block(None, 0, 2)];
    let result = inject(content, &blocks, "new", &[None]);
    assert!(!result.ends_with('\n'));
}

#[test]
fn test_inject_multiple_blocks() {
    let content =
        "// injm begin\nold one\n// injm end\ncode\n// injm begin\nold two\n// injm end\n";
    let blocks = vec![block(None, 0, 2), block(None, 4, 6)];
    let result = inject(content, &blocks, "new", &[None]);
    assert!(!result.contains("old one"));
    assert!(!result.contains("old two"));
    assert_eq!(result.matches("new").count(), 2);
}

#[test]
fn test_inject_empty_block() {
    let content = "// injm begin\n// injm end\n";
    let blocks = vec![block(None, 0, 1)];
    let result = inject(content, &blocks, "new content", &[None]);
    assert!(result.contains("new content"));
}

#[test]
fn test_inject_multiline_stdin() {
    let content = "// injm begin\nold\n// injm end\n";
    let blocks = vec![block(None, 0, 2)];
    let result = inject(content, &blocks, "line one\nline two\nline three", &[None]);
    assert!(result.contains("line one\nline two\nline three"));
}

#[test]
fn injector_test_inject_with_id() {
    let content = "\
// injm begin :first
old first
// injm end :first
// injm begin :second
old second
// injm end :second
";
    let blocks = vec![block(Some("first"), 0, 2), block(Some("second"), 3, 5)];
    let result = inject(content, &blocks, "new content", &[Some("first".to_string())]);
    assert!(result.contains("new content"));
    assert!(!result.contains("old first"));
    assert!(result.contains("old second"));
}

#[test]
fn test_inject_when_no_ids() {
    let content = "\
// injm begin :first
old first
// injm end :first
// injm begin :second
old second
// injm end :second
// injm begin
// injm end
";
    let blocks = vec![
        block(Some("first"), 0, 2),
        block(Some("second"), 3, 5),
        block(None, 6, 8),
    ];
    let result = inject(content, &blocks, "new content", &[]);
    assert!(result.contains("old first"));
    assert!(result.contains("old second"));
    assert_eq!(result.matches("new content").count(), 1);
}

#[test]
fn injector_test_inject_multiple_ids() {
    let content = "\
// injm begin :first
old first
// injm end :first
// injm begin :second
old second
// injm end :second
// injm begin :third
old third
// injm end :third
";
    let blocks = vec![
        block(Some("first"), 0, 2),
        block(Some("second"), 3, 5),
        block(Some("third"), 6, 8),
    ];
    let result = inject(
        content,
        &blocks,
        "new content",
        &[Some("first".to_string()), Some("third".to_string())],
    );
    assert!(!result.contains("old first"));
    assert!(result.contains("old second"));
    assert!(!result.contains("old third"));
    assert_eq!(result.matches("new content").count(), 2);
}
