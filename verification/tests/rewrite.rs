use commentreducr::rewrite::{apply, apply_checked, delete_edit, edits_fit, line_start, reduce_edit, Edit};
use commentreducr::types::{Comment, CommentBlock, CommentKind, Language};

fn block(src: &str, start: usize, end: usize, own_line: bool, code_after: bool) -> CommentBlock {
    let indent_start = line_start(src, start);
    let indent = src[indent_start..start].to_string();
    let start_line = src[..start].matches('\n').count();
    let end_line = src[..end].matches('\n').count();
    CommentBlock {
        comments: vec![Comment {
            start,
            end,
            kind: CommentKind::Line,
            text: src[start..end].to_string(),
            start_line,
            end_line,
            own_line,
            code_after,
        }],
        start,
        end,
        start_line,
        end_line,
        indent,
        own_line,
        code_after,
        kind: CommentKind::Line,
    }
}

#[test]
fn multibyte_last_char_in_comment_does_not_panic() {
    // Comment ends in a 3-byte char, so block.end - 1 is not a char boundary.
    let src = "let a = 1;\n// ─────\nlet b = 2;\n";
    let start = src.find("//").unwrap();
    let end = src.find("\nlet b").unwrap();
    let b = block(src, start, end, true, false);
    assert_eq!(
        apply(src, vec![delete_edit(src, &b)]),
        "let a = 1;\nlet b = 2;\n"
    );
    assert_eq!(
        apply(src, vec![reduce_edit(src, &b, Language::JavaScript, "x")]),
        "let a = 1;\n// x\nlet b = 2;\n"
    );
    // Same for a trailing comment and for a last line without a terminator.
    let src = "let a = 1; // ─\nlet b = 2; // ─";
    let s1 = src.find("//").unwrap();
    let e1 = src.find('\n').unwrap();
    let s2 = src.rfind("//").unwrap();
    let edits = vec![
        delete_edit(src, &block(src, s1, e1, false, false)),
        delete_edit(src, &block(src, s2, src.len(), false, false)),
    ];
    assert_eq!(apply(src, edits), "let a = 1;\nlet b = 2;");
}

#[test]
fn own_line_run_deletion_crlf() {
    let src = "let a = 1;\r\n// foo\r\n// bar\r\nlet b = 2;\r\n";
    let start = src.find("// foo").unwrap();
    let end = src.find("// bar").unwrap() + "// bar".len();
    let b = block(src, start, end, true, false);
    let edit = delete_edit(src, &b);
    let out = apply(src, vec![edit]);
    assert_eq!(out, "let a = 1;\r\nlet b = 2;\r\n");
}

#[test]
fn trailing_comment_deletion() {
    let src = "let a = 1; // set a\nlet b = 2;\n";
    let start = src.find("// set a").unwrap();
    let end = src.find('\n').unwrap();
    let b = block(src, start, end, false, false);
    let edit = delete_edit(src, &b);
    let out = apply(src, vec![edit]);
    assert_eq!(out, "let a = 1;\nlet b = 2;\n");
}

#[test]
fn inline_block_comment_deletion_does_not_glue_adjacent_tokens() {
    let src = "function f() {\n  return/* explicit */undefined;\n}\n";
    let start = src.find("/* explicit */").unwrap();
    let end = start + "/* explicit */".len();
    let b = block(src, start, end, false, true);
    let edit = delete_edit(src, &b);
    let out = apply(src, vec![edit]);
    assert_eq!(out, "function f() {\n  return undefined;\n}\n");
}

#[test]
fn reduce_preserves_indent() {
    let src = "fn f() {\n    // line one\n    // line two\n    do_thing();\n}\n";
    let start = src.find("// line one").unwrap();
    let end = start + "// line one\n    // line two".len();
    let b = block(src, start, end, true, false);
    let edit = reduce_edit(src, &b, Language::JavaScript, "does the thing");
    let out = apply(src, vec![edit]);
    assert_eq!(out, "fn f() {\n    // does the thing\n    do_thing();\n}\n");
}

fn edit(start: usize, end: usize, replacement: &str) -> Edit {
    Edit { start, end, replacement: replacement.to_string() }
}

#[test]
fn apply_keeps_bytes_outside_the_ranges_in_any_order() {
    let src = "a = 1  # one\nb = 2\n# two\nc = 3\n";
    let e1 = edit(5, 12, "");
    let e2 = edit(19, 25, "");
    let e3 = edit(0, 0, "# top\n");
    let want = "# top\na = 1\nb = 2\nc = 3\n";
    assert_eq!(apply(src, vec![e1.clone(), e2.clone(), e3.clone()]), want);
    assert_eq!(apply(src, vec![e3.clone(), e2.clone(), e1.clone()]), want);
    assert_eq!(apply(src, vec![]), src);
    // An insertion at the very end.
    assert_eq!(apply(src, vec![edit(src.len(), src.len(), "x\n")]), format!("{src}x\n"));
}

#[test]
fn overlapping_or_misplaced_edits_are_refused() {
    let src = "héllo world\n";
    assert!(edits_fit(src, &vec![edit(0, 3, ""), edit(6, 7, "")]));
    // Overlap.
    assert!(!edits_fit(src, &vec![edit(0, 4, ""), edit(3, 6, "")]));
    assert_eq!(apply_checked(src, vec![edit(0, 4, ""), edit(3, 6, "")]), None);
    // Two edits starting at one byte, the later listed not an insertion.
    assert!(!edits_fit(src, &vec![edit(3, 3, "a"), edit(3, 4, "")]));
    // Inside a multi-byte character.
    assert!(!edits_fit(src, &vec![edit(2, 3, "")]));
    // Past the end.
    assert!(!edits_fit(src, &vec![edit(5, 99, "")]));
    assert_eq!(apply_checked(src, vec![edit(6, 12, "")]), Some("héllo\n".to_string()));
}

#[test]
fn insertions_at_one_byte_go_in_before_the_earlier_listed_edit() {
    let src = "abc";
    assert_eq!(apply(src, vec![edit(1, 1, "X"), edit(1, 1, "Y")]), "aYXbc");
    assert_eq!(apply(src, vec![edit(1, 2, "Z"), edit(1, 1, "Y")]), "aYZc");
    assert_eq!(apply_checked(src, vec![edit(1, 2, "Z"), edit(1, 1, "Y"), edit(0, 1, "")]), Some("YZc".to_string()));
    assert!(edits_fit(src, &vec![edit(1, 1, "X"), edit(1, 1, "Y")]));
    assert_eq!(apply_checked(src, vec![edit(1, 1, "Y"), edit(1, 2, "Z")]), None);
}
