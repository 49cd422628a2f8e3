use commentreducr::eval::{language, prose_of, reply_size, EvalTally, ProseError};
use commentreducr::types::Language;
use commentreducr::Stats;

#[test]
fn dataset_languages() {
    assert_eq!(language("python"), Some(Language::Python));
    assert_eq!(language("javascript"), Some(Language::JavaScript));
    assert_eq!(language("typescript"), Some(Language::TypeScript));
    assert_eq!(language("tsx"), Some(Language::Tsx));
    assert_eq!(language("yaml"), Some(Language::Yaml));
    assert_eq!(language("rust"), None);
}

#[test]
fn prose_of_a_raw_comment() {
    let p = prose_of("# The retry loop backs off\n# exponentially up to a minute.\n", Language::Python)
        .unwrap();
    assert_eq!(p, "The retry loop backs off exponentially up to a minute.");
    let j = prose_of("/**\n * Keep the lock.\n */", Language::JavaScript).unwrap();
    assert_eq!(j, "Keep the lock.");
    assert_eq!(prose_of("x = 1\n", Language::Python), Err(ProseError::NoComment));
}

#[test]
fn tallies() {
    let mut t = EvalTally::new();
    t.record(true, true, 0, 0);
    t.record(true, false, 5, 1);
    t.record(false, false, 7, 1);
    t.record(false, true, 0, 0);
    assert_eq!(t.n, 4);
    assert_eq!(t.agree, 2);
    assert_eq!(t.expected_delete, 2);
    assert_eq!(t.got_delete, 2);
    assert_eq!(t.both_delete, 1);
    assert_eq!(t.kept_words, 12);
    assert_eq!(t.kept_lines, 2);
    assert_eq!(t.kept(), 2);
}

#[test]
fn stats_errors() {
    let mut s = Stats::new();
    assert!(!s.has_errors());
    s.llm_errors = 1;
    assert!(s.has_errors());
    let mut s = Stats::new();
    s.files_skipped = 2;
    assert!(s.has_errors());
}

#[test]
fn stats_add_file_tallies() {
    use_tally();
}

fn use_tally() {
    let mut s = Stats::new();
    let t = commentreducr::pipeline::FileTally { kept: 2, deleted: 3, lines_deleted: 10, reduced: 1, lines_saved: 4 };
    s.add_tally(&t);
    s.add_tally(&t);
    assert_eq!(
        (s.comments_kept, s.comments_deleted, s.lines_deleted, s.comments_reduced, s.lines_reduced),
        (4, 6, 20, 2, 8)
    );
    assert_eq!(s.files_changed, 0);
    s.lines_deleted = usize::MAX - 1;
    s.add_tally(&t);
    assert_eq!(s.lines_deleted, usize::MAX);
}

#[test]
fn reply_sizes_count_words_and_lines() {
    assert_eq!(reply_size("Parses the config."), (3, 1));
    assert_eq!(reply_size("Line one\n\n  Line two  \n"), (4, 3));
    assert_eq!(reply_size("a\r\nb"), (2, 2));
    assert_eq!(reply_size(""), (0, 0));
    assert_eq!(reply_size("\u{3000}wide\u{3000}space"), (2, 1));
}

#[test]
fn stats_count_changed_unchanged_and_skipped_files() {
    let t = commentreducr::pipeline::FileTally { kept: 1, deleted: 2, lines_deleted: 5, reduced: 0, lines_saved: 0 };
    let mut s = Stats::new();
    s.record_file(&t, "a # x\n", &Some("a\n".to_string()));
    assert_eq!((s.files_changed, s.files_skipped, s.comments_deleted, s.lines_deleted), (1, 0, 2, 5));
    s.record_file(&t, "same\n", &Some("same\n".to_string()));
    assert_eq!((s.files_changed, s.comments_deleted, s.comments_kept), (1, 4, 2));
    s.record_file(&t, "a\n", &None);
    assert_eq!((s.files_changed, s.files_skipped, s.comments_deleted), (1, 1, 4));
    s.write_failed();
    assert_eq!((s.files_changed, s.files_skipped), (0, 2));
    assert!(s.has_errors());
}
