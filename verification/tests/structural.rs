use commentreducr::structural::is_structural;
use commentreducr::types::{Comment, CommentBlock, CommentKind, Language};

fn block_for(text: &str, start: usize, start_line: usize) -> CommentBlock {
    let kind = if text.starts_with("/*") {
        CommentKind::Block
    } else {
        CommentKind::Line
    };
    let comment = Comment {
        start,
        end: start + text.len(),
        kind,
        text: text.to_string(),
        start_line,
        end_line: start_line,
        own_line: true,
        code_after: false,
    };
    CommentBlock {
        comments: vec![comment],
        start,
        end: start + text.len(),
        start_line,
        end_line: start_line,
        indent: String::new(),
        own_line: true,
        code_after: false,
        kind,
    }
}

#[test]
fn table_of_directives() {
    let cases: &[(&str, Language, usize, usize, bool)] = &[
        ("#!/usr/bin/env python3", Language::Python, 0, 0, true),
        ("# -*- coding: utf-8 -*-", Language::Python, 0, 0, true),
        ("# noqa: E501", Language::Python, 100, 5, true),
        ("# just a plain comment", Language::Python, 100, 5, false),
        ("// eslint-disable-next-line no-unused-vars", Language::JavaScript, 50, 3, true),
        ("/** JSDoc comment */", Language::JavaScript, 0, 0, true),
        ("// TODO: fix this later", Language::JavaScript, 200, 20, true),
        ("// Copyright 2024 Acme Corp", Language::JavaScript, 0, 0, true),
    ];
    for (text, lang, start, start_line, expected) in cases {
        let block = block_for(text, *start, *start_line);
        let src = " ".repeat(*start);
        assert_eq!(
            is_structural(&block, *lang, &src),
            *expected,
            "text = {text:?}"
        );
    }
}

#[test]
fn yaml_directives_and_modelines_are_structural() {
    let cases: &[(&str, Language, bool)] = &[
        ("#!/usr/bin/env yq", Language::Yaml, true),
        ("# yaml-language-server: $schema=./schema.json", Language::Yaml, true),
        ("# yamllint disable-line rule:line-length", Language::Yaml, true),
        ("# checkov:skip=CKV_K8S_8", Language::Yaml, true),
        ("# a plain yaml comment", Language::Yaml, false),
        ("# vim: set ts=2 sw=2:", Language::Python, true),
        ("// -*- mode: js -*-", Language::JavaScript, true),
        ("# yamllint disable", Language::Python, false),
        ("// noqa", Language::JavaScript, false),
    ];
    for (text, lang, expected) in cases {
        let block = block_for(text, 0, 0);
        assert_eq!(is_structural(&block, *lang, text), *expected, "text = {text:?}");
    }
}

#[test]
fn coding_cookie_only_on_first_two_lines() {
    let early = block_for("# vim-free: coding=latin-1", 10, 1);
    let late = block_for("# vim-free: coding=latin-1", 100, 2);
    assert!(is_structural(&early, Language::Python, ""));
    assert!(!is_structural(&late, Language::Python, ""));
}
