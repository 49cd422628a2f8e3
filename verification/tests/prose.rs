use commentreducr::prose::{analyze, clean_lines, yaml_value_given};
use commentreducr::types::{Comment, CommentBlock, CommentKind, Language};

fn line_block(lines: &[&str]) -> CommentBlock {
    let comments: Vec<Comment> = lines
        .iter()
        .map(|l| Comment {
            start: 0,
            end: 0,
            kind: CommentKind::Line,
            text: l.to_string(),
            start_line: 0,
            end_line: 0,
            own_line: true,
            code_after: false,
        })
        .collect();
    CommentBlock {
        comments,
        start: 0,
        end: 0,
        start_line: 0,
        end_line: 0,
        indent: String::new(),
        own_line: true,
        code_after: false,
        kind: CommentKind::Line,
    }
}

fn block_comment(text: &str) -> CommentBlock {
    let mut b = line_block(&[text]);
    b.comments[0].kind = CommentKind::Block;
    b.kind = CommentKind::Block;
    b
}

#[test]
fn cleans_line_comments() {
    let block = line_block(&["// hello world", "/// doc line"]);
    let lines = clean_lines(&block, Language::JavaScript);
    assert_eq!(
        lines,
        vec!["hello world".to_string(), "doc line".to_string()]
    );
}

#[test]
fn yaml_commented_out_config_is_code_like() {
    let block = line_block(&[
        "# name: myapp",
        "# image: nginx:latest",
        "# ports:",
        "#   - 8080:80",
    ]);
    assert!(analyze(&block, Language::Yaml).code_like);
}

#[test]
fn yaml_english_prose_is_not_code_like() {
    let block = line_block(&[
        "# This service handles incoming requests and forwards them to the",
        "# appropriate backend based on the path prefix in the URL.",
    ]);
    assert!(!analyze(&block, Language::Yaml).code_like);
}

#[test]
fn yaml_label_prose_is_not_code_like() {
    // A "Label: sentence." line shares its prefix shape with a commented-out `key: value`,
    // but the long, punctuated remainder marks it as English prose, not YAML.
    let block = line_block(&[
        "# Warning: this value must be updated whenever the schema changes upstream.",
        "# The downstream consumer reads this key directly at startup and caches it.",
        "# If it drifts from the real schema, requests will fail in a confusing way.",
        "# Always run the validation script after editing this file by hand please.",
    ]);
    let a = analyze(&block, Language::Yaml);
    assert!(!a.code_like);
    assert_eq!(a.lines.len(), 4, "no line should be dropped as code-like");
}

#[test]
fn yaml_bullet_prose_is_not_code_like() {
    let block = line_block(&[
        "# - first check the connection before doing anything else in this handler",
        "# - then verify the credentials actually match the ones on file for the user",
    ]);
    assert!(!analyze(&block, Language::Yaml).code_like);
}

#[test]
fn block_comment_leaders_are_stripped() {
    let block = block_comment("/**\n * First line here.\n *   Second line.\n */");
    let lines = clean_lines(&block, Language::TypeScript);
    assert_eq!(lines, vec!["", "First line here.", "Second line.", ""]);
}

#[test]
fn python_markers_and_bangs_are_stripped() {
    let block = line_block(&["#!  shebang-like", "#   spaced   "]);
    assert_eq!(
        clean_lines(&block, Language::Python),
        vec!["shebang-like".to_string(), "spaced".to_string()]
    );
}

#[test]
fn analysis_drops_separators_and_counts_words() {
    let block = line_block(&[
        "# ---------------",
        "# The cache is rebuilt lazily on first access.",
        "#",
        "# return compute(x);",
        "# It never blocks the caller thread.",
    ]);
    let a = analyze(&block, Language::Python);
    assert_eq!(
        a.lines,
        vec![
            "The cache is rebuilt lazily on first access.".to_string(),
            "It never blocks the caller thread.".to_string()
        ]
    );
    assert_eq!(
        a.text,
        "The cache is rebuilt lazily on first access. It never blocks the caller thread."
    );
    assert_eq!(a.word_count, 14);
    assert!(!a.code_like);
}

#[test]
fn mostly_code_is_code_like() {
    let block = line_block(&[
        "// const x = compute(1);",
        "// if (x > 2) {",
        "// }",
        "// a short note",
    ]);
    let a = analyze(&block, Language::JavaScript);
    assert!(a.code_like);
    assert_eq!(a.lines, vec!["a short note".to_string()]);
}

#[test]
fn punctuation_heavy_line_is_code_like() {
    // 7 punctuation characters out of 20 is exactly 35%: not above the threshold.
    let at = line_block(&["# a,b.c;d:e!f?g-hijklm"]);
    assert!(!analyze(&at, Language::Python).code_like);
    let above = line_block(&["# a,b.c;d:e!f?g-h"]);
    assert!(analyze(&above, Language::Python).code_like);
}

fn chars(s: &str) -> Vec<char> {
    s.chars().collect()
}

#[test]
fn yaml_shape_from_a_given_key_search() {
    // `name:` matched (bytes 0..6): the rest is a short value.
    assert!(yaml_value_given(&chars("name: myapp"), Some(Some((0, 6)))));
    // A label followed by a sentence is prose.
    let label = "Warning: this value must be updated whenever the schema changes upstream.";
    assert!(!yaml_value_given(&chars(label), Some(Some((0, 9)))));
    // No key: a short `- ` item is config, a long one is prose.
    assert!(yaml_value_given(&chars("- 8080:80"), Some(None)));
    assert!(!yaml_value_given(
        &chars("- first check the connection before doing anything else in this handler"),
        Some(None)
    ));
    // No answer from the search at all: only the list-item rule applies.
    assert!(yaml_value_given(&chars("- item"), None));
    assert!(!yaml_value_given(&chars("plain words"), None));
}
