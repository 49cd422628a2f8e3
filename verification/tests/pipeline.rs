use commentreducr::config::{parse_config, resolve_config, Overrides};
use commentreducr::docstring::{extract_docstrings, DocKind};
use commentreducr::llm::{parse_summary_reply, DocVerdict, Verdict};
use commentreducr::parse::extract_comments;
use commentreducr::pipeline::{
    block_edit, comment_edits, doc_edits, doc_outcome_of, outcome_of, plan_comments,
    plan_docstring, DocPlan, Outcome,
};
use commentreducr::rewrite::apply_checked;
use commentreducr::types::{Action, Config, Language, Target};

fn config(target: Target, delete: bool) -> Config {
    let flags = Overrides {
        delete,
        dry_run: false,
        verbose: false,
        endpoint: None,
        model: None,
        api_key: None,
        workers: None,
        min_lines: None,
        min_density_milli: None,
        max_words: None,
    };
    resolve_config(target, &flags, &parse_config("").unwrap(), None)
}

/// `comments --delete` on one file's text.
fn delete_comments(src: &str, lang: Language) -> String {
    let cfg = config(Target::Comments, true);
    let plans = plan_comments(src, lang, &cfg).unwrap();
    let outcomes: Vec<Outcome> = plans.iter().map(|p| outcome_of(&p.action, None)).collect();
    let (edits, _) = comment_edits(src, lang, &plans, &outcomes);
    apply_checked(src, edits).unwrap()
}

/// `docstrings --delete` on one Python file's text.
fn delete_docstrings(src: &str, in_test_file: bool) -> String {
    let cfg = config(Target::Docstrings, true);
    let docs = extract_docstrings(src, in_test_file).unwrap();
    let outcomes: Vec<Option<DocVerdict>> =
        docs.iter().map(|d| doc_outcome_of(plan_docstring(d, src, &cfg), None)).collect();
    let (edits, _, left) = doc_edits(src, &docs, &outcomes);
    assert!(left.is_empty());
    apply_checked(src, edits).unwrap()
}

struct Fixture {
    name: &'static str,
    lang: Language,
    text: &'static str,
    init_comment: &'static str,
    trailing_remark: &'static str,
    survive: &'static [&'static str],
}

const SAMPLE_PY: &str = r##"# Copyright 2024 Example Corp. Licensed under the MIT License.
# SPDX-License-Identifier: MIT
"""Module docstring: a small stats helper, not a comment at all."""

import os  # noqa: E501


# This function walks the list of samples and computes the mean and the
# variance in one pass, using the running update so that large inputs do
# not lose their precision to cancellation. It returns both numbers as a
# pair, and an empty list gives two zeros rather than an error.
def stats(samples):
    # init
    n = 0
    label = "# not a comment"
    return n, label  # trailing remark about the return shape
"##;

const SAMPLE_JS: &str = r##"// Copyright 2024 Example Corp. Licensed under the MIT License.
// SPDX-License-Identifier: MIT

// This function walks the list of samples and computes the mean and the
// variance in one pass, using the running update so that large inputs do
// not lose their precision to cancellation. It returns both numbers as a
// pair, and an empty list gives two zeros rather than an error.
function stats(samples, marker) {
  // init
  let n = 0;
  const a = "// not a comment";
  const b = `value is // not a comment either: ${marker}`;
  const re = /\/\/ still not a comment/;
  // eslint-disable-next-line no-unused-vars
  const unused = [a, b, re];
  return n / samples.length; // trailing remark about the divisor
}
"##;

const SAMPLE_TS: &str = r##"// Copyright 2024 Example Corp. Licensed under the MIT License.
// SPDX-License-Identifier: MIT

/**
 * Computes a running mean and variance over a stream of numbers.
 */
// This function walks the list of samples and computes the mean and the
// variance in one pass, using the running update so that large inputs do
// not lose their precision to cancellation. It returns both numbers as a
// pair, and an empty list gives two zeros rather than an error.
export function stats(samples: number[], marker: string): number {
  // init
  let n: number = 0;
  const a = "// not a comment";
  const b = `value is // not a comment either: ${marker}`;
  const re = /\/\/ still not a comment/;
  // @ts-ignore
  const unused: string = [a, b, re];
  return n / samples.length; // trailing remark about the divisor
}
"##;

const SAMPLE_TSX: &str = r##"// Copyright 2024 Example Corp. Licensed under the MIT License.
// SPDX-License-Identifier: MIT

/**
 * Renders a small stats summary panel.
 */
// This function walks the list of samples and computes the mean and the
// variance in one pass, using the running update so that large inputs do
// not lose their precision to cancellation. It returns both numbers as a
// pair, and an empty list gives two zeros rather than an error.
export function Panel(props: { samples: number[]; marker: string }) {
  // init
  const a = "// not a comment";
  const b = `value is // not a comment either: ${props.marker}`;
  const re = /\/\/ still not a comment/;
  // @ts-ignore
  const n: number = props.samples.length / 2; // trailing remark about the divisor
  return <p title={a + b + re}>Path notation uses // as a separator, not a comment</p>;
}
"##;

const SAMPLE_YAML: &str = r##"# yaml-language-server: $schema=https://json.schemastore.org/github-workflow.json
# Copyright 2024 Example Corp. Licensed under the MIT License.
# SPDX-License-Identifier: MIT

# This function walks the list of samples and computes the mean and the
# variance in one pass, using the running update so that large inputs do
# not lose their precision to cancellation. It returns both numbers as a
# pair, and an empty list gives two zeros rather than an error.
name: stats
on: push
# init
notes: |
  # TODO: keep me
count: 5  # noqa
label: "# not a comment"
plain: a#b
# yamllint disable-line rule:line-length
jobs:
  build:
    run: |
      echo "starting build"
      # not a comment
      exit 0
    divisor: 2  # trailing remark about the divisor
"##;

const FIXTURES: &[Fixture] = &[
    Fixture {
        name: "sample.py",
        lang: Language::Python,
        text: SAMPLE_PY,
        init_comment: "# init",
        trailing_remark: "# trailing remark about the return shape",
        survive: &[
            "# Copyright 2024 Example Corp. Licensed under the MIT License.",
            "# SPDX-License-Identifier: MIT",
            "\"\"\"Module docstring: a small stats helper, not a comment at all.\"\"\"",
            "\"# not a comment\"",
            "# noqa: E501",
        ],
    },
    Fixture {
        name: "sample.js",
        lang: Language::JavaScript,
        text: SAMPLE_JS,
        init_comment: "// init",
        trailing_remark: "// trailing remark about the divisor",
        survive: &[
            "// Copyright 2024 Example Corp. Licensed under the MIT License.",
            "// SPDX-License-Identifier: MIT",
            "\"// not a comment\"",
            "`value is // not a comment either: ${marker}`",
            "/\\/\\/ still not a comment/",
            "// eslint-disable-next-line no-unused-vars",
        ],
    },
    Fixture {
        name: "sample.ts",
        lang: Language::TypeScript,
        text: SAMPLE_TS,
        init_comment: "// init",
        trailing_remark: "// trailing remark about the divisor",
        survive: &[
            "// Copyright 2024 Example Corp. Licensed under the MIT License.",
            "// SPDX-License-Identifier: MIT",
            "* Computes a running mean and variance over a stream of numbers.",
            "\"// not a comment\"",
            "`value is // not a comment either: ${marker}`",
            "/\\/\\/ still not a comment/",
            "// @ts-ignore",
        ],
    },
    Fixture {
        name: "sample.tsx",
        lang: Language::Tsx,
        text: SAMPLE_TSX,
        init_comment: "// init",
        trailing_remark: "// trailing remark about the divisor",
        survive: &[
            "// Copyright 2024 Example Corp. Licensed under the MIT License.",
            "// SPDX-License-Identifier: MIT",
            "* Renders a small stats summary panel.",
            "\"// not a comment\"",
            "`value is // not a comment either: ${props.marker}`",
            "/\\/\\/ still not a comment/",
            "// @ts-ignore",
            "Path notation uses // as a separator, not a comment",
        ],
    },
    Fixture {
        name: "sample.yaml",
        lang: Language::Yaml,
        text: SAMPLE_YAML,
        init_comment: "# init",
        trailing_remark: "# trailing remark about the divisor",
        survive: &[
            "# Copyright 2024 Example Corp. Licensed under the MIT License.",
            "# SPDX-License-Identifier: MIT",
            "# yaml-language-server: $schema=https://json.schemastore.org/github-workflow.json",
            "# TODO: keep me",
            "# yamllint disable-line rule:line-length",
            "count: 5  # noqa",
            "\"# not a comment\"",
            "      echo \"starting build\"\n      # not a comment\n      exit 0",
            "a#b",
        ],
    },
];

#[test]
fn delete_mode_removes_non_structural_comments_and_is_idempotent() {
    for f in FIXTURES {
        let content = delete_comments(f.text, f.lang);
        for s in f.survive {
            assert!(content.contains(s), "{}: lost {:?}\n{}", f.name, s, content);
        }
        assert!(
            !content.contains("This function walks the list of samples"),
            "{}: big block not deleted",
            f.name
        );
        assert!(!content.contains(f.init_comment), "{}: short comment not deleted", f.name);
        assert!(
            !content.contains(f.trailing_remark),
            "{}: trailing comment not deleted",
            f.name
        );
        // Idempotent: deleting again changes nothing.
        assert_eq!(delete_comments(&content, f.lang), content, "{}: not idempotent", f.name);
        // What is left still parses.
        assert!(extract_comments(&content, f.lang).is_ok(), "{}: broken\n{}", f.name, content);
    }
}

const TEST_SAMPLE_PY: &str = r##""""Tests for the helpers.

These tests consolidate a handful of near-duplicate helper functions that used to live
in three places, so each behaviour is checked once.
"""
import pytest

MESSAGE = """not a docstring"""


def add(a, b):
    """Add two numbers.

    >>> add(1, 2)
    3
    """
    return a + b


def normalize(items):
    """Normalizes a list of items before they are compared."""
    x = 1
    """also not a docstring, the bare string after an assignment"""
    return [i.strip().lower() for i in items]


def shout():
    f"""this looks like a docstring but is an f-string, not one"""
    return 1


# comment
def test_empty():
    """Guards the empty-list case."""
    assert normalize([]) == []


def test_mixed():
    """Ensures mixed-case, whitespace-padded items are normalized
    to one canonical spelling.
    """
    assert normalize([" A "]) == ["a"]


class TestThing:
    """Placeholder test class reserved for future thing-related tests."""


class Widget:
    def probe(self): """inline"""
"##;

#[test]
fn docstrings_delete_removes_docstrings_and_is_idempotent() {
    let after = delete_docstrings(TEST_SAMPLE_PY, true);
    for gone in [
        "consolidate a handful of near-duplicate helper functions",
        "Normalizes a list of items before they are compared",
        "Guards the empty-list case.",
        "Ensures mixed-case, whitespace-padded items are normalized",
        "Placeholder test class reserved for future thing-related tests.",
    ] {
        assert!(!after.contains(gone), "docstring survived deletion: {gone:?}\n{after}");
    }
    assert!(after.contains(">>> add(1, 2)"), "doctest docstring lost\n{after}");
    assert!(after.contains("MESSAGE = \"\"\"not a docstring\"\"\""));
    assert!(after.contains("\"\"\"also not a docstring, the bare string after an assignment\"\"\""));
    assert!(after.contains("f\"\"\"this looks like a docstring but is an f-string, not one\"\"\""));
    assert!(after.contains("# comment"));
    assert!(after.contains("class TestThing:\n    pass\n"), "{after}");
    assert!(after.contains("def probe(self): pass"), "{after}");
    // The rewritten file still parses cleanly.
    assert!(extract_docstrings(&after, true).is_ok(), "rewritten file has parse errors:\n{after}");

    // Comments of another Python file stay; only its module docstring goes.
    let sample_py = delete_docstrings(SAMPLE_PY, false);
    for comment in [
        "# Copyright 2024 Example Corp. Licensed under the MIT License.",
        "# SPDX-License-Identifier: MIT",
        "# noqa: E501",
        "# init",
        "# trailing remark about the return shape",
        "This function walks the list of samples",
    ] {
        assert!(sample_py.contains(comment), "sample.py comment lost: {comment:?}");
    }
    assert!(!sample_py.contains("Module docstring: a small stats helper"));

    // Idempotent.
    assert_eq!(delete_docstrings(&after, true), after, "test_sample.py: not idempotent");
    assert_eq!(delete_docstrings(&sample_py, false), sample_py, "sample.py: not idempotent");
}

#[test]
fn comments_delete_leaves_docstrings_in_test_sample_intact() {
    let before = TEST_SAMPLE_PY;
    let after = delete_comments(before, Language::Python);
    for survives in [
        "consolidate a handful of near-duplicate helper functions",
        "Normalizes a list of items before they are compared",
        "Guards the empty-list case.",
        "Ensures mixed-case, whitespace-padded items are normalized",
        "Placeholder test class reserved for future thing-related tests.",
        "def probe(self): \"\"\"inline\"\"\"",
    ] {
        assert!(after.contains(survives), "comments --delete touched a docstring: lost {survives:?}");
    }
    assert!(!after.contains("# comment"), "{after}");
    assert_ne!(before, after, "comments --delete should have removed # comment");
}

#[test]
fn reduce_mode_plans_and_applies_model_verdicts() {
    let src = "def f():\n    # The cache is keyed by the resolved path rather than the raw one so\n    # that two spellings of one file share an entry and do not evict each\n    # other under load when many workers read the same tree at once today.\n    # Clearing it mid-run is safe because every reader re-resolves its path.\n    return 1\n";
    let cfg = config(Target::Comments, false);
    let plans = plan_comments(src, Language::Python, &cfg).unwrap();
    assert_eq!(plans.len(), 1);
    let prose = match &plans[0].action {
        Action::Reduce { prose } => prose.clone(),
        other => panic!("expected a reduce action, got {other:?}"),
    };
    assert!(prose.starts_with("The cache is keyed"));
    assert_eq!(plans[0].context, "return 1");

    // The model keeps one line.
    let v = Verdict::Line("keyed by resolved path so spellings share an entry".to_string());
    let outcomes = vec![outcome_of(&plans[0].action, Some(&v))];
    let (edits, t) = comment_edits(src, Language::Python, &plans, &outcomes);
    assert_eq!((t.reduced, t.lines_saved, t.kept, t.deleted), (1, 3, 0, 0));
    let out = apply_checked(src, edits).unwrap();
    assert_eq!(
        out,
        "def f():\n    # keyed by resolved path so spellings share an entry\n    return 1\n"
    );

    // The model says delete.
    let outcomes = vec![outcome_of(&plans[0].action, Some(&Verdict::Delete))];
    let (edits, t) = comment_edits(src, Language::Python, &plans, &outcomes);
    assert_eq!((t.deleted, t.lines_deleted), (1, 4));
    assert_eq!(apply_checked(src, edits).unwrap(), "def f():\n    return 1\n");

    // The call failed: the block stays.
    let outcomes = vec![outcome_of(&plans[0].action, None)];
    let (edits, t) = comment_edits(src, Language::Python, &plans, &outcomes);
    assert!(edits.is_empty());
    assert_eq!(t.kept, 1);
    assert_eq!(apply_checked(src, edits).unwrap(), src);
    // A kept outcome makes no edit.
    assert!(block_edit(src, &plans[0].block, Language::Python, &Outcome::Keep).is_none());
}

#[test]
fn docstring_plans_and_verdicts() {
    let src = "def f():\n    \"\"\"Line one.\n\n    Line two.\n    Line three.\n    Line four.\n    \"\"\"\n    return 1\n\n\ndef g():\n    \"\"\"Short.\"\"\"\n    return 2\n";
    let docs = extract_docstrings(src, false).unwrap();
    assert_eq!(docs.len(), 2);
    assert_eq!(docs[0].kind, DocKind::Function);
    let reduce = config(Target::Docstrings, false);
    assert_eq!(plan_docstring(&docs[0], src, &reduce), DocPlan::Ask);
    assert_eq!(plan_docstring(&docs[1], src, &reduce), DocPlan::Keep);
    let delete = config(Target::Docstrings, true);
    assert_eq!(plan_docstring(&docs[1], src, &delete), DocPlan::Delete);

    let text = DocVerdict::Text("Returns one.".to_string());
    let outcomes = vec![doc_outcome_of(DocPlan::Ask, Some(&text)), doc_outcome_of(DocPlan::Keep, None)];
    let (edits, t, left) = doc_edits(src, &docs, &outcomes);
    assert!(left.is_empty());
    assert_eq!((t.reduced, t.lines_saved, t.kept), (1, 5, 1));
    assert_eq!(
        apply_checked(src, edits).unwrap(),
        "def f():\n    \"\"\"Returns one.\"\"\"\n    return 1\n\n\ndef g():\n    \"\"\"Short.\"\"\"\n    return 2\n"
    );

    // Text that cannot be spliced in safely leaves the docstring, and says which one.
    let bad = DocVerdict::Text("has \"\"\" inside".to_string());
    let outcomes = vec![doc_outcome_of(DocPlan::Ask, Some(&bad)), None];
    let (edits, t, left) = doc_edits(src, &docs, &outcomes);
    assert!(edits.is_empty());
    assert_eq!(left, vec![0]);
    assert_eq!(t.kept, 2);
}

#[test]
fn a_reduced_block_becomes_one_line_whatever_the_reply() {
    let src = "x = 1\r\n    # The cache is keyed by the resolved path rather than the raw one so\r\n    # that two spellings of one file share an entry and do not evict each\r\n    # other under load when many workers read the same tree at once today.\r\n    # Clearing it mid-run is safe because every reader re-resolves its path.\r\ny = 2\r\n";
    let cfg = config(Target::Comments, false);
    let plans = plan_comments(src, Language::Python, &cfg).unwrap();
    assert_eq!(plans.len(), 1);
    let v = parse_summary_reply("K1 keyed by   resolved\tpath\nand a second line", 20).unwrap();
    assert_eq!(v, Verdict::Line("keyed by resolved path".to_string()));
    let outcomes = vec![outcome_of(&plans[0].action, Some(&v))];
    let (edits, _) = comment_edits(src, Language::Python, &plans, &outcomes);
    assert_eq!(edits.len(), 1);
    assert_eq!(edits[0].replacement, "    # keyed by resolved path\r\n");
    assert_eq!(edits[0].replacement.matches('\n').count(), 1);
    let out = apply_checked(src, edits).unwrap();
    assert_eq!(out, "x = 1\r\n    # keyed by resolved path\r\ny = 2\r\n");
}
