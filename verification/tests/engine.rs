use injm::checker::check::check_sync;
use injm::cmd::inject::stdin_blocks;
use injm::cmd::list::{list_patterns, run};
use injm::cmd::utils::into_blocks;
use injm::engine::checker::{
    check_duplicated_input_ids, check_missing_ids, first_duplicate_id, first_missing_id,
};
use injm::engine::marker::{extract_marker_blocks, extract_role, try_extract_marker_blocks};
use injm::engine::parser::{
    glob_pattern, parse_patterns, try_parse_patterns, FileProbe, PatternProbe,
};
use injm::engine::types::{BlockRole, Error, MarkerBlock, MarkerType, ParsedFile};
use injm::extractor::Comment;
use injm::injector::{inject_blocks, try_inject_blocks};
use injm::types::{ParsedFile as LocatedFile, SourceSpan};
use injm::validator::ValidatorError;

/// The comments of a text whose comments are the lines that start with
/// `//` (after indentation).
fn line_comments(content: &str) -> Vec<Comment> {
    content
        .lines()
        .enumerate()
        .filter(|(_, l)| l.trim_start().starts_with("//"))
        .map(|(i, l)| Comment::trimmed(l, i, i))
        .collect()
}

fn parse(content: &str, path: &str) -> ParsedFile {
    let blocks = extract_marker_blocks(&line_comments(content), content, path).unwrap();
    ParsedFile {
        content: content.to_string(),
        blocks,
        path: path.to_string(),
    }
}

fn input_ids(role: &BlockRole) -> Vec<String> {
    match role {
        BlockRole::Input { ids, .. } => ids.clone(),
        _ => panic!("not an input block"),
    }
}

fn input_content(role: &BlockRole) -> String {
    match role {
        BlockRole::Input { content, .. } => content.clone(),
        _ => panic!("not an input block"),
    }
}

fn output_id(role: &BlockRole) -> Option<String> {
    match role {
        BlockRole::Output { id } => id.clone(),
        _ => panic!("not an output block"),
    }
}

const INPUT_AND_OUTPUT: &str = "// injm begin <a <b\nhello\nworld\n// injm end\n// injm begin >a\nold\n// injm end\n";

#[test]
fn comment_trimmed_drops_surrounding_whitespace() {
    let c = Comment::trimmed("  // injm begin \t", 3, 4);
    assert_eq!(c.text, "// injm begin");
    assert_eq!(c.start_line, 3);
    assert_eq!(c.end_line, 4);
}

#[test]
fn extract_role_kinds() {
    assert!(matches!(extract_role("// injm begin").unwrap(), BlockRole::Default));
    let r = extract_role("// injm begin <x\t<y").unwrap();
    assert_eq!(input_ids(&r), vec!["x".to_string(), "y".to_string()]);
    assert_eq!(input_content(&r), "");
    let r = extract_role("// injm begin >out").unwrap();
    assert_eq!(output_id(&r), Some("out".to_string()));
    assert!(matches!(
        extract_role("// injm begin <a >b"),
        Err(Error::BothInputAndOutput)
    ));
    assert!(matches!(
        extract_role("// injm begin >a >b"),
        Err(Error::MultipleOutputs)
    ));
}

#[test]
fn extraction_takes_input_content_between_markers() {
    let f = parse(INPUT_AND_OUTPUT, "a.rs");
    assert_eq!(f.blocks.len(), 2);
    assert_eq!((f.blocks[0].begin_line, f.blocks[0].end_line), (0, 3));
    assert_eq!(input_ids(&f.blocks[0].role), vec!["a".to_string(), "b".to_string()]);
    assert_eq!(input_content(&f.blocks[0].role), "hello\nworld");
    assert_eq!((f.blocks[1].begin_line, f.blocks[1].end_line), (4, 6));
    assert_eq!(output_id(&f.blocks[1].role), Some("a".to_string()));
}

#[test]
fn extraction_errors() {
    let content = "// injm begin\n// injm begin\n// injm end\n";
    match extract_marker_blocks(&line_comments(content), content, "x.rs") {
        Err(Error::NestedBegin { line, path }) => {
            assert_eq!(line, 1);
            assert_eq!(path, "x.rs");
        }
        _ => panic!("expected a nested begin"),
    }
    let content = "a\n// injm end\n";
    assert!(matches!(
        extract_marker_blocks(&line_comments(content), content, "x.rs"),
        Err(Error::EndWithoutBegin { line: 1 })
    ));
    let content = "a\nb\n// injm begin\n";
    assert!(matches!(
        extract_marker_blocks(&line_comments(content), content, "x.rs"),
        Err(Error::BeginWithoutEnd { line: 2 })
    ));
}

#[test]
fn extraction_of_input_block_outside_content_is_refused() {
    // The comments claim lines that the content does not have.
    let comments = vec![
        Comment::trimmed("// injm begin <a", 0, 0),
        Comment::trimmed("// injm end", 7, 7),
    ];
    assert!(try_extract_marker_blocks(&comments, "one line\n", "x.rs").is_none());
}

#[test]
fn error_messages() {
    let e = Error::NestedBegin { line: 12, path: "src/a.rs".to_string() };
    assert_eq!(
        e.message(),
        "found nested `injm begin` without `injm end` in line 12 of src/a.rs"
    );
    assert_eq!(
        Error::EndWithoutBegin { line: 0 }.message(),
        "found `injm end` without `injm begin` in line 0"
    );
    assert_eq!(
        Error::BeginWithoutEnd { line: 105 }.message(),
        "found `injm begin` without `injm end` at line 105"
    );
    assert_eq!(Error::FileNotExist.message(), "file does not exist");
    assert_eq!(Error::BinaryFile.message(), "binary file");
    assert_eq!(
        Error::UnsupportedFileType { path: "a.xyz".to_string() }.message(),
        "unsupported file type: a.xyz"
    );
    assert_eq!(Error::Io { message: "denied".to_string() }.message(), "denied");
    assert_eq!(Error::BothInputAndOutput.message(), "found both input and output token");
    assert_eq!(Error::MultipleOutputs.message(), "multiple output markers detected");
    assert_eq!(
        Error::MissingInputId { id: "q".to_string() }.message(),
        "missing input id `q`"
    );
    assert_eq!(
        Error::DuplicatedInputId { id: "q".to_string() }.message(),
        "duplicated input id `q`"
    );
    assert_eq!(
        Error::NoPatternMatch { pattern: "src/**/*".to_string() }.message(),
        "no files matched pattern `src/**/*`"
    );
}

#[test]
fn marker_type_names() {
    assert_eq!(MarkerType::Input.name(), "input");
    assert_eq!(MarkerType::Output.name(), "output");
}

#[test]
fn missing_and_duplicated_ids() {
    let inputs = vec![parse("// injm begin <a\nx\n// injm end\n", "in.rs")];
    let ok = vec![parse("// injm begin >a\n// injm end\n", "out.rs")];
    assert!(check_missing_ids(&ok, &inputs).is_ok());
    let bad = vec![parse(
        "// injm begin >a\n// injm end\n// injm begin >c\n// injm end\n",
        "out.rs",
    )];
    match check_missing_ids(&bad, &inputs) {
        Err(Error::MissingInputId { id }) => assert_eq!(id, "c"),
        _ => panic!("expected a missing id"),
    }

    let f = parse(
        "// injm begin <a\n// injm end\n// injm begin <b <a\n// injm end\n",
        "in.rs",
    );
    match check_duplicated_input_ids(&f.blocks) {
        Err(Error::DuplicatedInputId { id }) => assert_eq!(id, "a"),
        _ => panic!("expected a duplicated id"),
    }
    let f = parse("// injm begin <a <b\n// injm end\n", "in.rs");
    assert!(check_duplicated_input_ids(&f.blocks).is_ok());
}

#[test]
fn first_missing_and_duplicate() {
    let s = |v: &[&str]| v.iter().map(|x| x.to_string()).collect::<Vec<String>>();
    assert_eq!(first_missing_id(&s(&["a", "z", "y"]), &s(&["a", "b"])), Some("z".to_string()));
    assert_eq!(first_missing_id(&s(&["a"]), &s(&["a", "b"])), None);
    assert_eq!(first_duplicate_id(&s(&["a", "b", "c", "b", "a"])), Some("b".to_string()));
    assert_eq!(first_duplicate_id(&s(&["a", "b"])), None);
}

#[test]
fn glob_patterns() {
    assert_eq!(glob_pattern("src", true), "src/**/*");
    assert_eq!(glob_pattern("src//", true), "src/**/*");
    assert_eq!(glob_pattern("src/*.rs", false), "src/*.rs");
}

fn probe(path: &str, content: &str) -> FileProbe {
    FileProbe {
        failure: None,
        path: path.to_string(),
        exists: true,
        head: content.as_bytes().to_vec(),
        lang: Some("rust".to_string()),
        content: Ok(content.to_string()),
        comments: Ok(line_comments(content)),
    }
}

fn pattern(p: &str, files: Vec<FileProbe>) -> PatternProbe {
    PatternProbe {
        pattern: p.to_string(),
        failure: None,
        files,
    }
}

#[test]
fn parse_patterns_in_order() {
    let files = parse_patterns(vec![
        pattern("a.rs", vec![probe("a.rs", INPUT_AND_OUTPUT)]),
        pattern("b.rs", vec![probe("b.rs", "no markers\n")]),
    ])
    .unwrap();
    assert_eq!(files.len(), 2);
    assert_eq!(files[0].path, "a.rs");
    assert_eq!(files[0].blocks.len(), 2);
    assert_eq!(files[1].path, "b.rs");
    assert_eq!(files[1].content, "no markers\n");
    assert!(files[1].blocks.is_empty());
}

#[test]
fn parse_patterns_errors() {
    let mut missing = probe("a.rs", "");
    missing.exists = false;
    assert!(matches!(
        parse_patterns(vec![pattern("a.rs", vec![missing])]),
        Err(Error::FileNotExist)
    ));

    let mut binary = probe("a.rs", "");
    binary.head = vec![b'a', 0, b'b'];
    assert!(matches!(
        parse_patterns(vec![pattern("a.rs", vec![binary])]),
        Err(Error::BinaryFile)
    ));

    let mut unknown = probe("a.xyz", "");
    unknown.lang = None;
    match parse_patterns(vec![pattern("a.xyz", vec![unknown])]) {
        Err(Error::UnsupportedFileType { path }) => assert_eq!(path, "a.xyz"),
        _ => panic!("expected an unsupported file type"),
    }

    match parse_patterns(vec![pattern("src/**/*", vec![])]) {
        Err(Error::NoPatternMatch { pattern }) => assert_eq!(pattern, "src/**/*"),
        _ => panic!("expected no match"),
    }

    let mut failed = pattern("[", vec![]);
    failed.failure = Some("bad pattern".to_string());
    match parse_patterns(vec![failed]) {
        Err(Error::Io { message }) => assert_eq!(message, "bad pattern"),
        _ => panic!("expected a pattern error"),
    }

    let mut unreadable = probe("a.rs", "");
    unreadable.content = Err("cannot read".to_string());
    match parse_patterns(vec![pattern("a.rs", vec![unreadable])]) {
        Err(Error::Io { message }) => assert_eq!(message, "cannot read"),
        _ => panic!("expected a read error"),
    }

    // The first error wins: the second pattern is never looked at.
    let mut missing = probe("b.rs", "");
    missing.exists = false;
    assert!(matches!(
        parse_patterns(vec![
            pattern("a.rs", vec![probe("a.rs", "// injm end\n")]),
            pattern("b.rs", vec![missing]),
        ]),
        Err(Error::EndWithoutBegin { line: 0 })
    ));
}

#[test]
fn try_parse_patterns_stuck_extraction() {
    let mut p = probe("a.rs", "x\n");
    p.comments = Ok(vec![
        Comment::trimmed("// injm begin <a", 0, 0),
        Comment::trimmed("// injm end", 9, 9),
    ]);
    assert!(try_parse_patterns(vec![pattern("a.rs", vec![p])]).is_none());
}

#[test]
fn inject_blocks_fills_matching_outputs() {
    let f = parse(INPUT_AND_OUTPUT, "a.rs");
    let inputs = vec![&f.blocks[0].role];
    let out = inject_blocks(&f.content, &f.blocks[1..], &inputs);
    assert_eq!(
        out,
        "// injm begin <a <b\nhello\nworld\n// injm end\n// injm begin >a\nhello\nworld\n// injm end\n"
    );
    // Filling again changes nothing.
    let g = parse(&out, "a.rs");
    let inputs = vec![&g.blocks[0].role];
    assert_eq!(inject_blocks(&g.content, &g.blocks[1..], &inputs), out);
}

#[test]
fn inject_blocks_leaves_unmatched_outputs() {
    let content = "// injm begin >zzz\nkeep\n// injm end";
    let f = parse(content, "a.rs");
    let input = BlockRole::Input {
        ids: vec!["a".to_string()],
        content: "new".to_string(),
    };
    assert_eq!(inject_blocks(content, &f.blocks, &[&input]), content);
}

#[test]
fn try_inject_blocks_refuses_blocks_outside_content() {
    let input = BlockRole::Input { ids: vec![], content: "x".to_string() };
    let block = MarkerBlock {
        begin_line: 0,
        end_line: 9,
        role: BlockRole::Output { id: None },
    };
    assert!(try_inject_blocks("a\nb\n", &[block], &[&input]).is_none());
}

#[test]
fn check_sync_reports_differing_outputs() {
    let inputs = vec![LocatedFile::located(parse(
        "// injm begin <a\nhello\n// injm end\n",
        "in.rs",
    ))];
    let outputs = vec![LocatedFile::located(parse(
        "x\n// injm begin >a\nold\n// injm end\n// injm begin >b\nold\n// injm end\n",
        "out.rs",
    ))];
    let refs: Vec<&injm::types::MarkerBlock> = inputs.iter().flat_map(|f| f.blocks.iter()).collect();
    let issues = check_sync(&refs, &outputs);
    assert_eq!(issues.len(), 1);
    assert_eq!(issues[0].path, "out.rs");
    assert_eq!(issues[0].span, SourceSpan::new(1, 3));
    assert_eq!(issues[0].id, "a");
    assert_eq!(issues[0].expected, "hello");
    assert_eq!(issues[0].actual, "old");

    let in_sync = vec![LocatedFile::located(parse(
        "// injm begin >a\nhello\n// injm end\n",
        "out.rs",
    ))];
    assert!(check_sync(&refs, &in_sync).is_empty());
}

#[test]
fn listing_rows() {
    let files = vec![parse(INPUT_AND_OUTPUT, "a.rs")];
    let rows = run(&files);
    assert_eq!(rows.len(), 3);
    assert_eq!(rows[0].file, "a.rs");
    assert!(rows[0].marker_type == MarkerType::Input);
    assert_eq!(rows[0].id, "a");
    assert_eq!(rows[0].lines, "1-4");
    assert!(rows[1].marker_type == MarkerType::Input);
    assert_eq!(rows[1].id, "b");
    assert!(rows[2].marker_type == MarkerType::Output);
    assert_eq!(rows[2].id, "a");
    assert_eq!(rows[2].lines, "5-7");
}

#[test]
fn listing_defaults_to_current_directory() {
    assert_eq!(list_patterns(vec![]), vec![".".to_string()]);
    assert_eq!(list_patterns(vec!["src".to_string()]), vec!["src".to_string()]);
}

#[test]
fn blocks_of_files_in_order() {
    let files = vec![
        LocatedFile::located(parse(INPUT_AND_OUTPUT, "a.rs")),
        LocatedFile::located(parse("// injm begin\n// injm end\n", "b.rs")),
    ];
    let blocks = into_blocks(files);
    assert_eq!(blocks.len(), 3);
    assert_eq!(blocks[0].span, SourceSpan::new(0, 3));
    assert_eq!(blocks[1].span, SourceSpan::new(4, 6));
    assert_eq!(blocks[2].span, SourceSpan::new(0, 1));
    assert!(matches!(blocks[2].role, BlockRole::Default));
}

#[test]
fn stdin_block_takes_given_ids() {
    let blocks = stdin_blocks(
        vec![Some("a".to_string()), None, Some("b".to_string())],
        "text".to_string(),
    );
    assert_eq!(blocks.len(), 1);
    assert_eq!(blocks[0].span, SourceSpan::new(0, 0));
    assert_eq!(input_ids(&blocks[0].role), vec!["a".to_string(), "b".to_string()]);
    assert_eq!(input_content(&blocks[0].role), "text");
}

#[test]
fn located_blocks_match_outputs() {
    let f = LocatedFile::located(parse(INPUT_AND_OUTPUT, "a.rs"));
    assert_eq!(f.path, "a.rs");
    assert!(f.blocks[0].matches_output(&f.blocks[1]));
    assert!(!f.blocks[1].matches_output(&f.blocks[0]));
    let g = LocatedFile::located(parse("// injm begin >c\n// injm end\n", "b.rs"));
    assert!(!f.blocks[0].matches_output(&g.blocks[0]));
}

#[test]
fn inject_from_input_files() {
    let outputs = vec![
        parse("// injm begin >a\nold\n// injm end\n", "o1.rs"),
        parse("x\n// injm begin >b\n// injm end", "o2.rs"),
    ];
    let inputs = vec![parse(INPUT_AND_OUTPUT, "in.rs")];
    let r = injm::cmd::inject::inject_from_files(&outputs, &inputs)
        .unwrap()
        .unwrap();
    assert_eq!(
        r,
        vec![
            "// injm begin >a\nhello\nworld\n// injm end\n".to_string(),
            "x\n// injm begin >b\nhello\nworld\n// injm end".to_string(),
        ]
    );

    let missing = vec![parse("// injm begin >zz\n// injm end\n", "o.rs")];
    match injm::cmd::inject::inject_from_files(&missing, &inputs) {
        Some(Err(Error::MissingInputId { id })) => assert_eq!(id, "zz"),
        _ => panic!("expected a missing id"),
    }

    let twice = vec![parse(INPUT_AND_OUTPUT, "in.rs"), parse(INPUT_AND_OUTPUT, "in2.rs")];
    match injm::cmd::inject::inject_from_files(&outputs, &twice) {
        Some(Err(Error::DuplicatedInputId { id })) => assert_eq!(id, "a"),
        _ => panic!("expected a duplicated id"),
    }
}

#[test]
fn inject_from_standard_input() {
    let outputs = vec![parse(
        "// injm begin\nold\n// injm end\n// injm begin >k\nold\n// injm end\n",
        "o.rs",
    )];
    let r = injm::cmd::inject::inject_from_stdin(&outputs, vec![], "new".to_string())
        .unwrap()
        .unwrap();
    assert_eq!(
        r,
        vec!["// injm begin\nnew\n// injm end\n// injm begin >k\nold\n// injm end\n".to_string()]
    );
    let r = injm::cmd::inject::inject_from_stdin(&outputs, vec![Some("k".to_string())], "new".to_string())
        .unwrap()
        .unwrap();
    assert_eq!(
        r,
        vec!["// injm begin\nold\n// injm end\n// injm begin >k\nnew\n// injm end\n".to_string()]
    );
    match injm::cmd::inject::inject_from_stdin(
        &outputs,
        vec![Some("k".to_string()), Some("k".to_string())],
        "new".to_string(),
    ) {
        Some(Err(Error::DuplicatedInputId { id })) => assert_eq!(id, "k"),
        _ => panic!("expected a duplicated id"),
    }
}

#[test]
fn check_files_outcomes() {
    let inputs = || vec![LocatedFile::located(parse("// injm begin <a\nhello\n// injm end\n", "in.rs"))];
    let outputs = vec![LocatedFile::located(parse(
        "// injm begin >a\nold\n// injm end\n",
        "out.rs",
    ))];
    let issues = injm::cmd::check::check_files(inputs(), &outputs).unwrap().unwrap();
    assert_eq!(issues.len(), 1);
    assert_eq!(issues[0].expected, "hello");
    assert_eq!(issues[0].actual, "old");

    let missing = vec![LocatedFile::located(parse("// injm begin >q\n// injm end\n", "out.rs"))];
    assert!(matches!(
        injm::cmd::check::check_files(inputs(), &missing),
        Some(Err(ValidatorError::MissingInputID { id })) if id == "q"
    ));

    let mut twice = inputs();
    twice.extend(inputs());
    assert!(matches!(
        injm::cmd::check::check_files(twice, &outputs),
        Some(Err(ValidatorError::DuplicatedInputID { id })) if id == "a"
    ));

    let synced = vec![LocatedFile::located(parse("// injm begin >a\nhello\n// injm end\n", "out.rs"))];
    assert!(injm::cmd::check::check_files(inputs(), &synced).unwrap().unwrap().is_empty());
}

#[test]
fn spans_and_lines_fit() {
    let good = vec![LocatedFile::located(parse("// injm begin >a\nx\n// injm end\n", "o.rs"))];
    assert!(injm::checker::check::spans_fit(&good));
    let bad = vec![LocatedFile {
        content: "one\n".to_string(),
        blocks: vec![injm::types::MarkerBlock {
            span: SourceSpan::new(0, 5),
            role: BlockRole::Output { id: Some("a".to_string()) },
        }],
        path: "o.rs".to_string(),
    }];
    assert!(!injm::checker::check::spans_fit(&bad));

    let files = vec![parse(INPUT_AND_OUTPUT, "a.rs")];
    assert!(injm::cmd::list::lines_fit(&files));
    let huge = vec![ParsedFile {
        content: String::new(),
        blocks: vec![MarkerBlock {
            begin_line: usize::MAX,
            end_line: 0,
            role: BlockRole::Default,
        }],
        path: "h.rs".to_string(),
    }];
    assert!(!injm::cmd::list::lines_fit(&huge));
}

#[test]
fn refilling_replaces_earlier_content() {
    let content = "a\n// injm begin\nold\n// injm end\nb\n";
    let f = parse(content, "o.rs");
    let first = BlockRole::Input { ids: vec![], content: "x\ny".to_string() };
    let second = BlockRole::Input { ids: vec![], content: "z".to_string() };
    let once = inject_blocks(content, &f.blocks, &[&first]);
    assert_eq!(once, "a\n// injm begin\nx\ny\n// injm end\nb\n");
    let g = parse(&once, "o.rs");
    assert_eq!((g.blocks[0].begin_line, g.blocks[0].end_line), (1, 4));
    let twice = inject_blocks(&once, &g.blocks, &[&second]);
    assert_eq!(twice, inject_blocks(content, &f.blocks, &[&second]));
    assert_eq!(twice, "a\n// injm begin\nz\n// injm end\nb\n");
}

#[test]
fn filling_keeps_final_newline() {
    let content = "// injm begin\n// injm end\n";
    let f = parse(content, "o.rs");
    let input = BlockRole::Input { ids: vec![], content: "body".to_string() };
    let out = inject_blocks(content, &f.blocks, &[&input]);
    assert_eq!(out, "// injm begin\nbody\n// injm end\n");
    assert!(out.ends_with('\n'));
}

#[test]
fn filled_outputs_check_in_sync() {
    let input_text = "// injm begin <a\nfirst\nsecond\n// injm end\n";
    let output_text = "x\n// injm begin >a\nstale\n// injm end\ny\n";
    let inputs = vec![parse(input_text, "in.rs")];
    let outputs = vec![parse(output_text, "out.rs")];
    let filled = injm::cmd::inject::inject_from_files(&outputs, &inputs)
        .unwrap()
        .unwrap();
    let refilled = vec![LocatedFile::located(parse(&filled[0], "out.rs"))];
    let located_inputs = vec![LocatedFile::located(parse(input_text, "in.rs"))];
    let issues = injm::cmd::check::check_files(located_inputs, &refilled)
        .unwrap()
        .unwrap();
    assert!(issues.is_empty());
}

#[test]
fn extracted_blocks_are_in_order() {
    let content = "// injm begin\n// injm end\nx\n// injm begin <p\ny\n// injm end\n// injm begin >p\n\n// injm end\n";
    let f = parse(content, "a.rs");
    let spans: Vec<(usize, usize)> = f.blocks.iter().map(|b| (b.begin_line, b.end_line)).collect();
    assert_eq!(spans, vec![(0, 1), (3, 5), (6, 8)]);
    for w in spans.windows(2) {
        assert!(w[0].0 < w[0].1 && w[0].1 < w[1].0);
    }
}

#[test]
fn extract_roles_of_input_and_output_block() {
    let (role, out) = injm::engine::marker::extract_roles("// injm begin <a <b >c").unwrap();
    assert_eq!(input_ids(&role), vec!["a".to_string(), "b".to_string()]);
    assert_eq!(out, Some("c".to_string()));
    let (role, out) = injm::engine::marker::extract_roles("// injm begin >c").unwrap();
    assert_eq!(output_id(&role), Some("c".to_string()));
    assert_eq!(out, None);
    assert!(matches!(
        injm::engine::marker::extract_roles("// injm begin <a >b >c"),
        Err(Error::MultipleOutputs)
    ));
    assert!(matches!(
        injm::engine::marker::extract_roles("// injm begin >b >c"),
        Err(Error::MultipleOutputs)
    ));
}

#[test]
fn input_and_output_block_gives_two_blocks() {
    let content = "x\n// injm begin <in >out\nbody\n// injm end\n";
    let f = parse(content, "a.rs");
    assert_eq!(f.blocks.len(), 2);
    assert_eq!((f.blocks[0].begin_line, f.blocks[0].end_line), (1, 3));
    assert_eq!(input_ids(&f.blocks[0].role), vec!["in".to_string()]);
    assert_eq!(input_content(&f.blocks[0].role), "body");
    assert_eq!((f.blocks[1].begin_line, f.blocks[1].end_line), (1, 3));
    assert_eq!(output_id(&f.blocks[1].role), Some("out".to_string()));
}

#[test]
fn non_marker_comments_change_nothing() {
    let content = "// injm begin <a\n// a remark\nx\n// injm end\n// another remark\n";
    let all = line_comments(content);
    let markers: Vec<Comment> = line_comments(content)
        .into_iter()
        .filter(|c| c.text.contains("injm begin") || c.text.contains("injm end"))
        .collect();
    let a = extract_marker_blocks(&all, content, "a.rs").unwrap();
    let b = extract_marker_blocks(&markers, content, "a.rs").unwrap();
    assert_eq!(a.len(), b.len());
    assert_eq!(input_content(&a[0].role), input_content(&b[0].role));
    assert_eq!(input_content(&a[0].role), "// a remark\nx");
}

#[test]
fn missing_id_check_stable_when_files_are_added() {
    let inputs = vec![parse("// injm begin <a\n// injm end\n", "in.rs")];
    let outputs = vec![parse("// injm begin >a\n// injm end\n// injm begin >m\n// injm end\n", "o.rs")];
    let more_inputs = vec![
        parse("// injm begin <a\n// injm end\n", "in.rs"),
        parse("// injm begin <b\n// injm end\n", "in2.rs"),
    ];
    let ok_outputs = vec![parse("// injm begin >a\n// injm end\n", "o.rs")];
    assert!(check_missing_ids(&ok_outputs, &inputs).is_ok());
    assert!(check_missing_ids(&ok_outputs, &more_inputs).is_ok());
    let mut more_outputs = vec![parse(
        "// injm begin >a\n// injm end\n// injm begin >m\n// injm end\n",
        "o.rs",
    )];
    more_outputs.push(parse("// injm begin >z\n// injm end\n", "o2.rs"));
    let e1 = check_missing_ids(&outputs, &inputs).unwrap_err().message();
    let e2 = check_missing_ids(&more_outputs, &inputs).unwrap_err().message();
    assert_eq!(e1, "missing input id `m`");
    assert_eq!(e1, e2);
}

#[test]
fn duplicate_check_ignores_order() {
    let one = parse("// injm begin <a <b\n// injm end\n// injm begin <c\n// injm end\n", "x.rs");
    let other = parse("// injm begin <c\n// injm end\n// injm begin <b <a\n// injm end\n", "x.rs");
    assert!(check_duplicated_input_ids(&one.blocks).is_ok());
    assert!(check_duplicated_input_ids(&other.blocks).is_ok());
    let dup1 = parse("// injm begin <a <b\n// injm end\n// injm begin <a\n// injm end\n", "x.rs");
    let dup2 = parse("// injm begin <a\n// injm end\n// injm begin <b <a\n// injm end\n", "x.rs");
    assert!(check_duplicated_input_ids(&dup1.blocks).is_err());
    assert!(check_duplicated_input_ids(&dup2.blocks).is_err());
}

#[test]
fn parse_patterns_concatenated() {
    let p = || vec![pattern("a.rs", vec![probe("a.rs", "// injm begin\n// injm end\n")])];
    let q = || vec![pattern("b.rs", vec![probe("b.rs", "b\n")])];
    let both = parse_patterns(p().into_iter().chain(q()).collect()).unwrap();
    let a = parse_patterns(p()).unwrap();
    let b = parse_patterns(q()).unwrap();
    assert_eq!(both.len(), a.len() + b.len());
    assert_eq!(both[0].path, a[0].path);
    assert_eq!(both[1].path, b[0].path);
    assert!(parse_patterns(vec![]).unwrap().is_empty());
    let bad = || vec![pattern("none", vec![])];
    assert!(parse_patterns(p().into_iter().chain(bad()).collect()).is_err());
    assert!(parse_patterns(bad().into_iter().chain(q()).collect()).is_err());
}

#[test]
fn refilling_on_crlf_file() {
    let content = "a\r\n// injm begin\r\nold\r\n// injm end\r\nb\r\n";
    let f = parse(content, "o.rs");
    let first = BlockRole::Input { ids: vec![], content: "x\ny".to_string() };
    let second = BlockRole::Input { ids: vec![], content: "z".to_string() };
    let once = inject_blocks(content, &f.blocks, &[&first]);
    let g = parse(&once, "o.rs");
    assert_eq!((g.blocks[0].begin_line, g.blocks[0].end_line), (1, 4));
    let twice = inject_blocks(&once, &g.blocks, &[&second]);
    assert_eq!(twice, inject_blocks(content, &f.blocks, &[&second]));
    assert_eq!(twice, "a\n// injm begin\nz\n// injm end\nb\n");
}
