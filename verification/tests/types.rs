use commentreducr::types::{CommentBlock, CommentKind, Language};

#[test]
fn language_from_path_by_extension() {
    let cases: &[(&str, Option<Language>)] = &[
        ("a.py", Some(Language::Python)),
        ("pkg/stubs.pyi", Some(Language::Python)),
        ("web/app.jsx", Some(Language::JavaScript)),
        ("x.mjs", Some(Language::JavaScript)),
        ("x.cjs", Some(Language::JavaScript)),
        ("src/lib.ts", Some(Language::TypeScript)),
        ("x.mts", Some(Language::TypeScript)),
        ("x.cts", Some(Language::TypeScript)),
        ("ui/App.tsx", Some(Language::Tsx)),
        ("deploy/values.yaml", Some(Language::Yaml)),
        ("ci.yml", Some(Language::Yaml)),
        ("main.rs", None),
        (".py", None),
        ("Makefile", None),
        ("dir.py/", Some(Language::Python)),
        ("a/..", None),
        ("archive.tar.py", Some(Language::Python)),
        ("weird.", None),
    ];
    for (path, expected) in cases {
        assert_eq!(Language::from_path(path), *expected, "path = {path:?}");
    }
}

#[test]
fn line_prefixes() {
    assert_eq!(Language::Python.line_prefix(), "#");
    assert_eq!(Language::Yaml.line_prefix(), "#");
    assert_eq!(Language::JavaScript.line_prefix(), "//");
    assert_eq!(Language::Tsx.line_prefix(), "//");
}

#[test]
fn block_line_count() {
    let b = CommentBlock {
        comments: Vec::new(),
        start: 0,
        end: 0,
        start_line: 3,
        end_line: 7,
        indent: String::new(),
        own_line: true,
        code_after: false,
        kind: CommentKind::Line,
    };
    assert_eq!(b.line_count(), 5);
}
