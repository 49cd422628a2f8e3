use commentreducr::files::{ignore_file_text, ignored_entries, select_sources, split_nul};
use commentreducr::types::Language;

#[test]
fn nul_listing_drops_empty_entries() {
    assert_eq!(split_nul("a.py\0b/c.js\0\0"), vec!["a.py", "b/c.js"]);
    assert!(split_nul("").is_empty());
    assert!(split_nul("\0\0").is_empty());
    assert_eq!(split_nul("only"), vec!["only"]);
}

#[test]
fn check_ignore_status() {
    assert_eq!(ignored_entries(Some(0), "gen.py\0"), Some(vec!["gen.py".to_string()]));
    assert_eq!(ignored_entries(Some(1), ""), Some(vec![]));
    assert_eq!(ignored_entries(Some(128), "gen.py\0"), None);
    assert_eq!(ignored_entries(None, ""), None);
}

#[test]
fn excludes_file_has_one_pattern_per_line() {
    let pats = vec!["migrations/".to_string(), "*.gen.py".to_string()];
    assert_eq!(ignore_file_text(&pats), "migrations/\n*.gen.py\n");
    assert_eq!(ignore_file_text(&vec![]), "");
}

#[test]
fn ignored_and_unsupported_files_are_dropped() {
    // The listing `git ls-files -z` gives for the repository of the original ignore test.
    let listing = ".gitignore\0a.py\0gen.py\0keep/b.py\0migrations/0001_x.py\0";
    let ignored = vec!["gen.py".to_string(), "migrations/0001_x.py".to_string()];
    let got = select_sources(listing, &ignored);
    assert_eq!(
        got,
        vec![("a.py".to_string(), Language::Python), ("keep/b.py".to_string(), Language::Python)]
    );
    // Without the extra pattern only the repository's own rule applies.
    let got = select_sources(listing, &vec!["gen.py".to_string()]);
    let names: Vec<&str> = got.iter().map(|(p, _)| p.as_str()).collect();
    assert_eq!(names, vec!["a.py", "keep/b.py", "migrations/0001_x.py"]);
    // Languages come from the extension; a Rust file is not one of them.
    let got = select_sources("x.ts\0y.tsx\0z.yml\0w.rs\0v.mjs\0", &vec![]);
    assert_eq!(
        got,
        vec![
            ("x.ts".to_string(), Language::TypeScript),
            ("y.tsx".to_string(), Language::Tsx),
            ("z.yml".to_string(), Language::Yaml),
            ("v.mjs".to_string(), Language::JavaScript),
        ]
    );
}
