use commentreducr::policy::decide;
use commentreducr::prose::ProseAnalysis;
use commentreducr::types::{Action, Comment, CommentBlock, CommentKind, Config, Mode, Target};

fn cfg(mode: Mode) -> Config {
    Config {
        target: Target::Comments,
        mode,
        min_lines: 4,
        min_density_milli: 5000,
        max_summary_words: 20,
        endpoint: "http://localhost:8000/v1".to_string(),
        model: "m".to_string(),
        api_key: None,
        llm_concurrency: 8,
        dry_run: false,
        verbose: false,
    }
}

fn block(own_line: bool, code_after: bool) -> CommentBlock {
    CommentBlock {
        comments: vec![Comment {
            start: 0,
            end: 3,
            kind: CommentKind::Line,
            text: "# x".to_string(),
            start_line: 0,
            end_line: 0,
            own_line,
            code_after,
        }],
        start: 0,
        end: 3,
        start_line: 0,
        end_line: 0,
        indent: String::new(),
        own_line,
        code_after,
        kind: CommentKind::Line,
    }
}

fn analysis(lines: usize, words_per_line: usize, code_like: bool) -> ProseAnalysis {
    let line = vec!["w"; words_per_line].join(" ");
    let lines: Vec<String> = (0..lines).map(|_| line.clone()).collect();
    ProseAnalysis {
        text: lines.join(" "),
        word_count: lines.len() * words_per_line,
        lines,
        code_like,
    }
}

#[test]
fn structural_is_kept_in_both_modes() {
    let a = analysis(6, 8, false);
    assert!(matches!(decide(&block(true, false), &a, true, &cfg(Mode::Delete)), Action::Keep));
    assert!(matches!(decide(&block(true, false), &a, true, &cfg(Mode::Reduce)), Action::Keep));
}

#[test]
fn delete_mode_deletes_everything_else() {
    let a = analysis(1, 1, true);
    assert!(matches!(decide(&block(false, true), &a, false, &cfg(Mode::Delete)), Action::Delete));
}

#[test]
fn reduce_mode_gates() {
    let c = cfg(Mode::Reduce);
    // trailing or inline
    assert!(matches!(decide(&block(false, false), &analysis(6, 8, false), false, &c), Action::Keep));
    assert!(matches!(decide(&block(true, true), &analysis(6, 8, false), false, &c), Action::Keep));
    // too short
    assert!(matches!(decide(&block(true, false), &analysis(3, 8, false), false, &c), Action::Keep));
    // low density: 4 words per line is below 5
    assert!(matches!(decide(&block(true, false), &analysis(6, 4, false), false, &c), Action::Keep));
    // exactly the minimum density is not low
    match decide(&block(true, false), &analysis(4, 5, false), false, &c) {
        Action::Reduce { prose } => assert_eq!(prose, analysis(4, 5, false).text),
        _ => panic!("dense prose should be reduced"),
    }
    // code-like
    assert!(matches!(decide(&block(true, false), &analysis(6, 8, true), false, &c), Action::Keep));
}
