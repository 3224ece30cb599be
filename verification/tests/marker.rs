use injm::engine::marker::{extract_marker_blocks as extract_core_blocks, extract_role};
use injm::engine::types::BlockRole;
use injm::extractor::Comment;
use injm::marker::{extract_id, extract_marker_blocks};

fn make_comment(text: &str, start_line: usize, end_line: usize) -> Comment {
    Comment {
        text: text.to_string(),
        start_line,
        end_line,
    }
}

/// The comments of a text whose comments are the lines that start with
/// `//` (after indentation), as the comment parser finds them.
fn line_comments(content: &str) -> Vec<Comment> {
    content
        .lines()
        .enumerate()
        .filter(|(_, l)| l.trim_start().starts_with("//"))
        .map(|(i, l)| Comment::trimmed(l, i, i))
        .collect()
}

#[test]
fn marker_test_single_block() {
    let comments = vec![
        make_comment("// injm begin", 1, 1),
        make_comment("// injm end", 5, 5),
    ];
    let blocks = extract_marker_blocks(&comments, "").unwrap();
    assert_eq!(blocks.len(), 1);
    assert_eq!(blocks[0].begin_line, 1);
    assert_eq!(blocks[0].end_line, 5);

    let content = "\n// injm begin\n\n\n\n// injm end\n";
    let blocks = extract_core_blocks(&line_comments(content), content, "").unwrap();
    assert_eq!(blocks.len(), 1);
    assert_eq!(blocks[0].begin_line, 1);
    assert_eq!(blocks[0].end_line, 5);
}

#[test]
fn marker_test_multiple_blocks() {
    let comments = vec![
        make_comment("// injm begin", 1, 1),
        make_comment("// injm end", 3, 3),
        make_comment("// injm begin", 6, 6),
        make_comment("// injm end", 9, 9),
    ];
    let blocks = extract_marker_blocks(&comments, "").unwrap();
    assert_eq!(blocks.len(), 2);
    assert_eq!(blocks[0].begin_line, 1);
    assert_eq!(blocks[0].end_line, 3);
    assert_eq!(blocks[1].begin_line, 6);
    assert_eq!(blocks[1].end_line, 9);

    let content = "\n// injm begin\n\n// injm end\n\n\n// injm begin\n\n\n// injm end\n";
    let blocks = extract_core_blocks(&line_comments(content), content, "").unwrap();
    assert_eq!(blocks.len(), 2);
    assert_eq!(blocks[0].begin_line, 1);
    assert_eq!(blocks[0].end_line, 3);
    assert_eq!(blocks[1].begin_line, 6);
    assert_eq!(blocks[1].end_line, 9);
}

#[test]
fn marker_test_nested_begin_returns_error() {
    let comments = vec![
        make_comment("// injm begin", 1, 1),
        make_comment("// injm begin", 3, 3),
    ];
    assert!(extract_marker_blocks(&comments, "").is_err());

    let content = "\n// injm begin\n\n// injm begin\n";
    assert!(extract_core_blocks(&line_comments(content), content, "").is_err());
}

#[test]
fn marker_test_end_without_begin_returns_error() {
    let comments = vec![make_comment("// injm end", 1, 1)];
    assert!(extract_marker_blocks(&comments, "").is_err());

    let content = "\n// injm end\n";
    assert!(extract_core_blocks(&line_comments(content), content, "").is_err());
}

#[test]
fn marker_test_begin_without_end_returns_error() {
    let comments = vec![make_comment("// injm begin", 1, 1)];
    assert!(extract_marker_blocks(&comments, "").is_err());

    let content = "\n// injm begin\n";
    assert!(extract_core_blocks(&line_comments(content), content, "").is_err());
}

#[test]
fn marker_test_empty_comments() {
    let comments = vec![];
    let blocks = extract_marker_blocks(&comments, "").unwrap();
    assert_eq!(blocks.len(), 0);

    let blocks = extract_core_blocks(&line_comments("fn main() {}"), "fn main() {}", "").unwrap();
    assert_eq!(blocks.len(), 0);
}

#[test]
fn marker_test_non_marker_comments_are_ignored() {
    let comments = vec![
        make_comment("// some comment", 1, 1),
        make_comment("// injm begin", 2, 2),
        make_comment("// another comment", 3, 3),
        make_comment("// injm end", 4, 4),
    ];
    let blocks = extract_marker_blocks(&comments, "").unwrap();
    assert_eq!(blocks.len(), 1);

    let content = "\n// some comment\n// injm begin\n// another comment\n// injm end\n";
    let blocks = extract_core_blocks(&line_comments(content), content, "").unwrap();
    assert_eq!(blocks.len(), 1);
}

#[test]
fn test_extract_id_no_markers() {
    let (input, output) = extract_id("// injm begin").unwrap();
    assert_eq!(input, None);
    assert_eq!(output, None);
}

#[test]
fn test_extract_id_with_output() {
    let (input, output) = extract_id("// injm begin >first").unwrap();
    assert_eq!(input, None);
    assert_eq!(output, Some("first".to_string()));
}

#[test]
fn test_extract_id_with_input() {
    let (input, output) = extract_id("// injm begin <first <second").unwrap();
    assert_eq!(input, Some(vec!["first".to_string(), "second".to_string()]));
    assert_eq!(output, None);
}

#[test]
fn test_extract_id_with_both() {
    let (input, output) = extract_id("// injm begin <first >second").unwrap();
    assert_eq!(input, Some(vec!["first".to_string()]));
    assert_eq!(output, Some("second".to_string()));
}

#[test]
fn test_extract_id_multiple_outputs_returns_error() {
    assert!(extract_id("// injm begin >first >second").is_err());
}

#[test]
fn test_extract_role_default() {
    let role = extract_role("// injm begin").unwrap();
    assert!(matches!(role, BlockRole::Default));
}

#[test]
fn test_extract_role_output() {
    let role = extract_role("// injm begin >first").unwrap();
    assert!(matches!(role, BlockRole::Output { id: Some(ref id) } if id == "first"));
}

#[test]
fn test_extract_role_input() {
    let role = extract_role("// injm begin <first <second").unwrap();
    assert!(
        matches!(role, BlockRole::Input { ref ids, .. } if ids == &vec!["first".to_string(), "second".to_string()])
    );
}

#[test]
fn test_extract_role_both_input_and_output_returns_error() {
    assert!(extract_role("// injm begin <first >second").is_err());
}

#[test]
fn test_extract_role_multiple_outputs_returns_error() {
    assert!(extract_role("// injm begin >first >second").is_err());
}

#[test]
fn marker_test_single_block_no_id() {
    let comments = vec![
        make_comment("// injm begin", 1, 1),
        make_comment("// injm end", 5, 5),
    ];
    let blocks = extract_marker_blocks(&comments, "").unwrap();
    assert_eq!(blocks.len(), 1);
    assert_eq!(blocks[0].input_ids, None);
    assert_eq!(blocks[0].output_id, None);

    let content = "\n// injm begin\n\n\n\n// injm end\n";
    let blocks = extract_core_blocks(&line_comments(content), content, "").unwrap();
    assert_eq!(blocks.len(), 1);
    assert!(matches!(blocks[0].role, BlockRole::Default));
}

#[test]
fn marker_test_single_block_with_output() {
    let comments = vec![
        make_comment("// injm begin >first", 1, 1),
        make_comment("// injm end", 5, 5),
    ];
    let blocks = extract_marker_blocks(&comments, "").unwrap();
    assert_eq!(blocks.len(), 1);
    assert_eq!(blocks[0].output_id, Some("first".to_string()));

    let content = "\n// injm begin >first\n\n\n\n// injm end\n";
    let blocks = extract_core_blocks(&line_comments(content), content, "").unwrap();
    assert_eq!(blocks.len(), 1);
    assert!(matches!(
        blocks[0].role,
        BlockRole::Output { id: Some(ref id) } if id == "first"
    ));
}

#[test]
fn marker_test_multiple_blocks_ids_dont_leak() {
    let comments = vec![
        make_comment("// injm begin >first", 1, 1),
        make_comment("// injm end", 3, 3),
        make_comment("// injm begin", 5, 5),
        make_comment("// injm end", 7, 7),
    ];
    let blocks = extract_marker_blocks(&comments, "").unwrap();
    assert_eq!(blocks.len(), 2);
    assert_eq!(blocks[0].output_id, Some("first".to_string()));
    assert_eq!(blocks[1].output_id, None);

    let content = "\n// injm begin >first\n\n// injm end\n\n\n// injm begin\n\n// injm end\n";
    let blocks = extract_core_blocks(&line_comments(content), content, "").unwrap();
    assert_eq!(blocks.len(), 2);
    assert!(matches!(
        blocks[0].role,
        BlockRole::Output { id: Some(ref id) } if id == "first"
    ));
    assert!(matches!(blocks[1].role, BlockRole::Default));
}

#[test]
fn marker_test_block_with_input_content() {
    let content = "\
// injm begin <hello
println!(\"Hello injm\")
// injm end";
    let comments = vec![
        make_comment("// injm begin <hello", 0, 0),
        make_comment("// injm end", 2, 2),
    ];
    let blocks = extract_marker_blocks(&comments, content).unwrap();
    assert_eq!(blocks.len(), 1);
    assert_eq!(blocks[0].input_ids, Some(vec!["hello".to_string()]));
    assert_eq!(
        blocks[0].input_content,
        Some("println!(\"Hello injm\")".to_string())
    );

    let content = "// injm begin <hello\nprintln!(\"Hello injm\")\n// injm end";
    let blocks = extract_core_blocks(&line_comments(content), content, "").unwrap();
    assert_eq!(blocks.len(), 1);
    assert!(matches!(
        blocks[0].role,
        BlockRole::Input { ref ids, .. } if ids == &vec!["hello".to_string()]
    ));
    if let BlockRole::Input { content, .. } = &blocks[0].role {
        assert_eq!(content, "println!(\"Hello injm\")");
    } else {
        panic!("expected Input role");
    }
}

#[test]
fn marker_test_block_with_multiple_lines_input_content() {
    let content = "\
// injm begin <hello
println!(\"Hello injm\")
println!(\"Hello injm\")
println!(\"Hello injm\")
// injm end";
    let comments = vec![
        make_comment("// injm begin <hello", 0, 0),
        make_comment("// injm end", 4, 4),
    ];
    let blocks = extract_marker_blocks(&comments, content).unwrap();
    assert_eq!(blocks.len(), 1);
    assert_eq!(blocks[0].input_ids, Some(vec!["hello".to_string()]));
    assert_eq!(
        blocks[0].input_content,
        Some(
            "println!(\"Hello injm\")\nprintln!(\"Hello injm\")\nprintln!(\"Hello injm\")"
                .to_string()
        )
    );

    let blocks = extract_core_blocks(&line_comments(content), content, "").unwrap();
    assert_eq!(blocks.len(), 1);
    assert!(matches!(
        blocks[0].role,
        BlockRole::Input { ref ids, .. } if ids == &vec!["hello".to_string()]
    ));
    if let BlockRole::Input { content, .. } = &blocks[0].role {
        assert_eq!(
            content,
            "println!(\"Hello injm\")\nprintln!(\"Hello injm\")\nprintln!(\"Hello injm\")"
        );
    } else {
        panic!("expected Input role");
    }
}

#[test]
fn marker_test_block_without_input_has_no_content() {
    let content = "\
// injm begin >first
println!(\"Hello\")
// injm end";
    let comments = vec![
        make_comment("// injm begin >first", 0, 0),
        make_comment("// injm end", 2, 2),
    ];
    let blocks = extract_marker_blocks(&comments, content).unwrap();
    assert_eq!(blocks.len(), 1);
    assert_eq!(blocks[0].input_ids, None);
    assert_eq!(blocks[0].input_content, None);

    let blocks = extract_core_blocks(&line_comments(content), content, "").unwrap();
    assert_eq!(blocks.len(), 1);
    assert!(matches!(
        blocks[0].role,
        BlockRole::Output { id: Some(ref id) } if id == "first"
    ));
}

#[test]
fn marker_test_block_with_multiple_input_ids() {
    let content = "\
// injm begin <first <second
old content
// injm end";
    let comments = vec![
        make_comment("// injm begin <first <second", 0, 0),
        make_comment("// injm end", 2, 2),
    ];
    let blocks = extract_marker_blocks(&comments, content).unwrap();
    assert_eq!(blocks.len(), 1);
    assert_eq!(
        blocks[0].input_ids,
        Some(vec!["first".to_string(), "second".to_string()])
    );
    assert_eq!(blocks[0].input_content, Some("old content".to_string()));

    let blocks = extract_core_blocks(&line_comments(content), content, "").unwrap();
    assert_eq!(blocks.len(), 1);
    assert!(matches!(
        blocks[0].role,
        BlockRole::Input { ref ids, .. }
            if ids == &vec!["first".to_string(), "second".to_string()]
    ));
    if let BlockRole::Input { content, .. } = &blocks[0].role {
        assert_eq!(content, "old content");
    } else {
        panic!("expected Input role");
    }
}

#[test]
fn marker_test_input_content_not_leak_between_blocks() {
    let content = "\
// injm begin <hello
content one
// injm end
// injm begin
content two
// injm end";
    let comments = vec![
        make_comment("// injm begin <hello", 0, 0),
        make_comment("// injm end", 2, 2),
        make_comment("// injm begin", 3, 3),
        make_comment("// injm end", 5, 5),
    ];
    let blocks = extract_marker_blocks(&comments, content).unwrap();
    assert_eq!(blocks.len(), 2);
    assert!(blocks[0].input_content.is_some());
    assert!(blocks[1].input_content.is_none());

    let blocks = extract_core_blocks(&line_comments(content), content, "").unwrap();
    assert_eq!(blocks.len(), 2);
    assert!(matches!(blocks[0].role, BlockRole::Input { .. }));
    assert!(matches!(blocks[1].role, BlockRole::Default));
}
