use commentreducr::docstring::ExtractError;
use commentreducr::parse::{comments_of_tree, extract_comments, group_blocks};
use commentreducr::syntax::SyntaxNode;
use commentreducr::types::{CommentKind, Language};

#[test]
fn python_comments_in_source_order() {
    let src = "x = 1  # trailing\n# own line\n    # indented\ns = '# not a comment'\n";
    let cs = extract_comments(src, Language::Python).unwrap();
    let texts: Vec<&str> = cs.iter().map(|c| c.text.as_str()).collect();
    assert_eq!(texts, vec!["# trailing", "# own line", "# indented"]);
    assert!(!cs[0].own_line);
    assert!(!cs[0].code_after);
    assert_eq!(cs[0].start, 7);
    assert_eq!(cs[0].end, 17);
    assert!(cs[1].own_line);
    assert_eq!((cs[1].start_line, cs[1].end_line), (1, 1));
    assert!(cs[2].own_line);
    assert_eq!(cs[2].start_line, 2);
    assert!(cs.iter().all(|c| c.kind == CommentKind::Line));
}

#[test]
fn js_block_and_line_comments() {
    let src = "foo(/* x */ 1);\n// line\nconst s = `// not ${a} a comment`;\n";
    let cs = extract_comments(src, Language::JavaScript).unwrap();
    assert_eq!(cs.len(), 2);
    assert_eq!(cs[0].text, "/* x */");
    assert_eq!(cs[0].kind, CommentKind::Block);
    assert!(!cs[0].own_line);
    assert!(cs[0].code_after);
    assert_eq!(cs[1].text, "// line");
    assert_eq!(cs[1].kind, CommentKind::Line);
    assert!(cs[1].own_line);
}

#[test]
fn yaml_and_typescript_comments() {
    let y = extract_comments("# top\nkey: value # why\n", Language::Yaml).unwrap();
    assert_eq!(y.len(), 2);
    assert_eq!(y[1].text, "# why");
    assert!(!y[1].own_line);
    let t = extract_comments("let x: number = 1; // n\n", Language::TypeScript).unwrap();
    assert_eq!(t.len(), 1);
    let x = extract_comments("const e = <div>{/* jsx */}</div>;\n", Language::Tsx).unwrap();
    assert_eq!(x.len(), 1);
    assert_eq!(x[0].kind, CommentKind::Block);
}

#[test]
fn syntax_errors_are_refused() {
    assert_eq!(
        extract_comments("def f(:\n  # c\n", Language::Python).unwrap_err(),
        ExtractError::SyntaxErrors
    );
}

#[test]
fn adjacent_own_line_comments_merge() {
    let src = "# a\n# b\nx = 1\n    # c\n# d\ny = 2  # e\n# f\n";
    let cs = extract_comments(src, Language::Python).unwrap();
    assert_eq!(cs.len(), 6);
    let blocks = group_blocks(src, cs);
    let shapes: Vec<Vec<&str>> = blocks
        .iter()
        .map(|b| b.comments.iter().map(|c| c.text.as_str()).collect())
        .collect();
    assert_eq!(
        shapes,
        vec![
            vec!["# a", "# b"],
            vec!["# c"],
            vec!["# d"],
            vec!["# e"],
            vec!["# f"]
        ]
    );
    assert_eq!((blocks[0].start, blocks[0].end), (0, 7));
    assert_eq!((blocks[0].start_line, blocks[0].end_line), (0, 1));
    assert_eq!(blocks[1].indent, "    ");
    assert!(!blocks[3].own_line);
}

#[test]
fn block_comments_never_merge() {
    let src = "/* a */\n/* b */\n// c\n// d\n";
    let cs = extract_comments(src, Language::JavaScript).unwrap();
    let blocks = group_blocks(src, cs);
    assert_eq!(blocks.len(), 3);
    assert_eq!(blocks[2].comments.len(), 2);
    assert_eq!(blocks[2].kind, CommentKind::Line);
}

fn node(kind: &str, start: usize, end: usize, row: usize, children: Vec<SyntaxNode>) -> SyntaxNode {
    SyntaxNode {
        kind: kind.to_string(),
        field: None,
        named: true,
        has_error: false,
        start,
        end,
        start_row: row,
        end_row: row,
        children,
    }
}

#[test]
fn comments_from_a_given_tree() {
    let src = "x = 1  # hi
# own
";
    let tree = node(
        "module",
        0,
        18,
        0,
        vec![
            node("expression_statement", 0, 5, 0, vec![]),
            node("comment", 7, 11, 0, vec![]),
            node("comment", 12, 17, 1, vec![]),
        ],
    );
    let cs = comments_of_tree(&tree, src).unwrap();
    assert_eq!(cs.len(), 2);
    assert_eq!(cs[0].text, "# hi");
    assert!(!cs[0].own_line && !cs[0].code_after);
    assert_eq!(cs[0].kind, CommentKind::Line);
    assert_eq!(cs[1].text, "# own");
    assert!(cs[1].own_line);
    assert_eq!((cs[1].start_line, cs[1].end_line), (1, 1));
    // Errors in the tree, or offsets that do not fit the source, give no comments.
    let mut bad = node("module", 0, 18, 0, vec![]);
    bad.has_error = true;
    assert_eq!(comments_of_tree(&bad, src).unwrap_err(), ExtractError::SyntaxErrors);
    let off = node("module", 0, 99, 0, vec![]);
    assert_eq!(comments_of_tree(&off, src).unwrap_err(), ExtractError::BadOffsets);
    // A comment node that covers no byte.
    let empty = node("module", 0, 18, 0, vec![node("comment", 7, 7, 0, vec![])]);
    assert_eq!(comments_of_tree(&empty, src).unwrap_err(), ExtractError::BadOffsets);
}

#[test]
fn comments_out_of_order_or_overlapping_are_refused() {
    let src = "x = 1  # hi
# own
";
    let swapped = node(
        "module",
        0,
        18,
        0,
        vec![node("comment", 12, 17, 1, vec![]), node("comment", 7, 11, 0, vec![])],
    );
    assert_eq!(comments_of_tree(&swapped, src).unwrap_err(), ExtractError::BadOffsets);
    let overlapping = node(
        "module",
        0,
        18,
        0,
        vec![node("comment", 7, 13, 0, vec![]), node("comment", 12, 17, 1, vec![])],
    );
    assert_eq!(comments_of_tree(&overlapping, src).unwrap_err(), ExtractError::BadOffsets);
}

#[test]
fn extracted_comments_come_in_increasing_order() {
    let src = "# a\nx = 1  # b\n\ndef f():\n    # c\n    return 2  # d\n";
    let cs = extract_comments(src, Language::Python).unwrap();
    assert_eq!(cs.len(), 4);
    for w in cs.windows(2) {
        assert!(w[0].start < w[0].end && w[0].end <= w[1].start);
    }
}

#[test]
fn comment_lines_are_the_line_numbers_in_the_source() {
    let src = "x = 1  # hi
# own
";
    // A comment node whose row does not match its place in the source is refused.
    let wrong_row = node("module", 0, 18, 0, vec![node("comment", 12, 17, 0, vec![])]);
    assert_eq!(comments_of_tree(&wrong_row, src).unwrap_err(), ExtractError::BadOffsets);
    let right_row = node("module", 0, 18, 0, vec![node("comment", 12, 17, 1, vec![])]);
    assert_eq!(comments_of_tree(&right_row, src).unwrap()[0].start_line, 1);
    let js = "let a = 1;\n/* one\n   two */\n// three\n";
    let cs = extract_comments(js, Language::JavaScript).unwrap();
    assert_eq!(cs.len(), 2);
    assert_eq!((cs[0].start_line, cs[0].end_line), (1, 2));
    assert_eq!((cs[1].start_line, cs[1].end_line), (3, 3));
    for c in &cs {
        assert_eq!(c.start_line, js[..c.start].matches('\n').count());
        assert_eq!(c.end_line, js[..c.end].matches('\n').count());
    }
}
