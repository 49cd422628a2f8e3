//! Detection of comments that must never be touched: tool directives, shebangs, encoding cookies,
//! license headers, JSDoc, source maps, region markers, editor modelines, TODO/FIXME, etc.
use vstd::prelude::*;
use crate::ext::{pattern_matches, regex_is_match};
use crate::text::{has_prefix, chars_of, starts_with};
use crate::types::{CommentBlock, Comment, CommentKind, Language};

verus! {

/// Which languages a directive rule applies to.
#[derive(Clone, Copy, PartialEq, Eq, Structural)]
enum Scope {
    Python,
    Js,
    Yaml,
    Both,
}

/// JavaScript, TypeScript or TSX.
pub open spec fn is_js(lang: Language) -> bool {
    lang == Language::JavaScript || lang == Language::TypeScript || lang == Language::Tsx
}

spec fn scope_covers(scope: Scope, lang: Language) -> bool {
    match scope {
        Scope::Both => true,
        Scope::Python => lang == Language::Python,
        Scope::Js => is_js(lang),
        Scope::Yaml => lang == Language::Yaml,
    }
}

impl Scope {
    fn matches(self, lang: Language) -> (r: bool)
        ensures
            r == scope_covers(self, lang),
    {
        match self {
            Scope::Both => true,
            Scope::Python => lang == Language::Python,
            Scope::Js => lang == Language::JavaScript || lang == Language::TypeScript || lang
                == Language::Tsx,
            Scope::Yaml => lang == Language::Yaml,
        }
    }
}

/// Python: noqa, type:, pyright:, pylint:, mypy:, ruff:, isort:, fmt:, pragma, nosec,
/// noinspection, cython:, distutils:, %% cell markers.
pub const PYTHON_DIRECTIVES: &'static str = r"(?i)^#\s*(noqa\b|type:|pyright:|pylint:|mypy:|ruff:|isort:|fmt:|pragma\b|nosec\b|noinspection\b|cython:|distutils:|%%)";

/// All languages: TODO/FIXME/XXX/HACK/NOTE, anywhere in the comment.
pub const WORK_MARKERS: &'static str = r"(?i)\b(TODO|FIXME|XXX|HACK|NOTE)\b";

/// JS/TS: eslint-*, @ts-*, prettier/biome ignore, coverage ignores, @flow, @jsx*, @license,
/// @preserve, @generated, #region/#endregion, webpack/vite magic comments.
pub const JS_DIRECTIVES: &'static str = r"(?i)(eslint-(disable|enable)(-next-line|-line)?\b|@ts-(ignore|expect-error|nocheck|check)\b|prettier-ignore\b|biome-ignore\b|istanbul ignore\b|c8 ignore\b|v8 ignore\b|@flow\b|@jsx[-\w]*|@license\b|@preserve\b|@generated\b|#region\b|#endregion\b|\bwebpack\w*\s*:|\bvite\b\s*:?\s*ignore)";

/// JS/TS: reference/sourcemap directives anchored at the start of the comment.
pub const JS_ANCHORED: &'static str = r"^(///\s*<reference|//#\s*source(MappingURL|URL))";

/// YAML: schema, linter, scanner and bot directives, IDE injections and region markers.
pub const YAML_DIRECTIVES: &'static str = r"(?i)(yaml-language-server:|yamllint\b|prettier-ignore\b|\bnoqa\b|checkov:skip|bridgecrew:skip|kics-scan\b|tflint-ignore\b|trivy:ignore\b|renovate:|ansible-lint\b|kube-linter\b|nosemgrep\b|ruleid:|\bpragma\b|@formatter:|#\s*(end)?region\b|language=)";

/// All languages: editor modelines (`vim: set ...`, `vi: settings`, `ex: set ...`, or an Emacs
/// `-*- ... -*-` line).
pub const MODELINES: &'static str = r"(?i)(\b(vim?|ex):\s*(set|settings)\b|-\*-.*-\*-)";

/// PEP 263 coding cookie.
pub const CODING_COOKIE: &'static str = r"(?i)coding[:=]\s*[-\w.]+";

/// License, copyright or SPDX text.
pub const LICENSE_TEXT: &'static str = r"(?i)\b(license|copyright|SPDX)\b";

/// Some comment of the block matches the pattern.
pub open spec fn some_comment_matches(cs: Seq<Comment>, pattern: Seq<char>) -> bool {
    exists|i: int| 0 <= i < cs.len() && pattern_matches(pattern, #[trigger] cs[i].text@)
}

/// The block opens the file with a shebang (`#!` at byte 0).
pub open spec fn is_shebang(block: CommentBlock) -> bool {
    block.start == 0 && block.comments@.len() > 0 && block.comments@[0].start == 0 && has_prefix(
        block.comments@[0].text@,
        seq!['#', '!'],
    )
}

/// A comment on the first two lines carries a PEP 263 coding cookie.
pub open spec fn has_coding_cookie(cs: Seq<Comment>) -> bool {
    exists|i: int|
        0 <= i < cs.len() && #[trigger] cs[i].start_line <= 1 && pattern_matches(
            CODING_COOKIE@,
            cs[i].text@,
        )
}

/// A block comment opening with `/**` (JSDoc) or `/*!` (a preserved banner).
pub open spec fn has_doc_block(cs: Seq<Comment>) -> bool {
    exists|i: int|
        0 <= i < cs.len() && #[trigger] cs[i].kind == CommentKind::Block && (has_prefix(
            cs[i].text@,
            seq!['/', '*', '*'],
        ) || has_prefix(cs[i].text@, seq!['/', '*', '!']))
}

/// The directive table: some rule whose scope covers the language matches some comment.
pub open spec fn directive_hit(cs: Seq<Comment>, lang: Language) -> bool {
    ||| (lang == Language::Python && some_comment_matches(cs, PYTHON_DIRECTIVES@))
    ||| some_comment_matches(cs, WORK_MARKERS@)
    ||| (is_js(lang) && some_comment_matches(cs, JS_DIRECTIVES@))
    ||| (is_js(lang) && some_comment_matches(cs, JS_ANCHORED@))
    ||| (lang == Language::Yaml && some_comment_matches(cs, YAML_DIRECTIVES@))
    ||| some_comment_matches(cs, MODELINES@)
}

/// `directive_hit` is the directive table read rule by rule: it holds exactly when some rule
/// whose scope covers the language matches some comment.
proof fn lemma_directive_table(cs: Seq<Comment>, lang: Language, rules: Seq<(Scope, &'static str)>)
    requires
        rules == seq![
            (Scope::Python, PYTHON_DIRECTIVES),
            (Scope::Both, WORK_MARKERS),
            (Scope::Js, JS_DIRECTIVES),
            (Scope::Js, JS_ANCHORED),
            (Scope::Yaml, YAML_DIRECTIVES),
            (Scope::Both, MODELINES),
        ],
    ensures
        directive_hit(cs, lang) <==> exists|j: int|
            0 <= j < rules.len() && scope_covers(#[trigger] rules[j].0, lang)
                && some_comment_matches(cs, rules[j].1@),
{
    let hit = |j: int| scope_covers(rules[j].0, lang) && some_comment_matches(cs, rules[j].1@);
    assert(directive_hit(cs, lang) == (hit(0) || hit(1) || hit(2) || hit(3) || hit(4) || hit(5)));
}

/// Whether a block must be preserved in both modes.
pub open spec fn spec_is_structural(block: CommentBlock, lang: Language) -> bool {
    let cs = block.comments@;
    ||| ((lang == Language::Python || lang == Language::Yaml) && is_shebang(block))
    ||| (lang == Language::Python && has_coding_cookie(cs))
    ||| (is_js(lang) && has_doc_block(cs))
    ||| some_comment_matches(cs, LICENSE_TEXT@)
    ||| directive_hit(cs, lang)
}

fn any_comment_matches(cs: &Vec<Comment>, pattern: &str) -> (r: bool)
    ensures
        r == some_comment_matches(cs@, pattern@),
{
    let mut i: usize = 0;
    while i < cs.len()
        invariant
            0 <= i <= cs@.len(),
            forall|k: int| 0 <= k < i ==> !pattern_matches(pattern@, #[trigger] cs@[k].text@),
        decreases cs@.len() - i,
    {
        if regex_is_match(pattern, cs[i].text.as_str()) == Some(true) {
            return true;
        }
        i += 1;
    }
    false
}

fn any_coding_cookie(cs: &Vec<Comment>) -> (r: bool)
    ensures
        r == has_coding_cookie(cs@),
{
    let mut i: usize = 0;
    while i < cs.len()
        invariant
            0 <= i <= cs@.len(),
            forall|k: int|
                0 <= k < i ==> !(#[trigger] cs@[k].start_line <= 1 && pattern_matches(
                    CODING_COOKIE@,
                    cs@[k].text@,
                )),
        decreases cs@.len() - i,
    {
        if cs[i].start_line <= 1 && regex_is_match(CODING_COOKIE, cs[i].text.as_str()) == Some(
            true,
        ) {
            return true;
        }
        i += 1;
    }
    false
}

fn any_doc_block(cs: &Vec<Comment>) -> (r: bool)
    ensures
        r == has_doc_block(cs@),
{
    let jsdoc = ['/', '*', '*'];
    let banner = ['/', '*', '!'];
    assert(jsdoc@ =~= seq!['/', '*', '*']);
    assert(banner@ =~= seq!['/', '*', '!']);
    let mut i: usize = 0;
    while i < cs.len()
        invariant
            0 <= i <= cs@.len(),
            jsdoc@ == seq!['/', '*', '*'],
            banner@ == seq!['/', '*', '!'],
            forall|k: int|
                0 <= k < i ==> !(#[trigger] cs@[k].kind == CommentKind::Block && (has_prefix(
                    cs@[k].text@,
                    seq!['/', '*', '*'],
                ) || has_prefix(cs@[k].text@, seq!['/', '*', '!']))),
        decreases cs@.len() - i,
    {
        if cs[i].kind == CommentKind::Block {
            let t = chars_of(cs[i].text.as_str());
            if starts_with(&t, &jsdoc) || starts_with(&t, &banner) {
                return true;
            }
        }
        i += 1;
    }
    false
}

/// True if the block (or any comment in it) is structural and must be preserved in both modes.
/// `src` is unused now that license/copyright/SPDX detection no longer depends on file position,
/// but is kept in the signature per the module contract.
pub fn is_structural(block: &CommentBlock, lang: Language, _src: &str) -> (r: bool)
    ensures
        r == spec_is_structural(*block, lang),
{
    let cs = &block.comments;
    // Shebang: the very first byte of the file.
    if (lang == Language::Python || lang == Language::Yaml) && block.start == 0 && cs.len() > 0
        && cs[0].start == 0 {
        let bang = ['#', '!'];
        assert(bang@ =~= seq!['#', '!']);
        let first = &cs[0];
        let t = chars_of(first.text.as_str());
        assert(cs@[0] == *first);
        if starts_with(&t, &bang) {
            assert(is_shebang(*block));
            return true;
        }
    }
    // PEP 263 coding cookie: must be on line 0 or 1 of the file.
    if lang == Language::Python && any_coding_cookie(cs) {
        return true;
    }
    // JS/TS: any Block comment starting with `/**` or `/*!` (JSDoc, `@license`/`@preserve` banners).
    let js = lang == Language::JavaScript || lang == Language::TypeScript || lang
        == Language::Tsx;
    if js && any_doc_block(cs) {
        return true;
    }
    // License/copyright/SPDX text anywhere in the block is always structural,
    // regardless of where in the file it appears.
    if any_comment_matches(cs, LICENSE_TEXT) {
        return true;
    }
    let rules: [(Scope, &'static str); 6] = [
        (Scope::Python, PYTHON_DIRECTIVES),
        (Scope::Both, WORK_MARKERS),
        (Scope::Js, JS_DIRECTIVES),
        (Scope::Js, JS_ANCHORED),
        (Scope::Yaml, YAML_DIRECTIVES),
        (Scope::Both, MODELINES),
    ];
    let mut k: usize = 0;
    while k < 6
        invariant
            0 <= k <= 6,
            *cs == block.comments,
            rules@ == seq![
                (Scope::Python, PYTHON_DIRECTIVES),
                (Scope::Both, WORK_MARKERS),
                (Scope::Js, JS_DIRECTIVES),
                (Scope::Js, JS_ANCHORED),
                (Scope::Yaml, YAML_DIRECTIVES),
                (Scope::Both, MODELINES),
            ],
            forall|j: int|
                0 <= j < k ==> !(scope_covers(#[trigger] rules@[j].0, lang)
                    && some_comment_matches(cs@, rules@[j].1@)),
        decreases 6 - k,
    {
        let (scope, pattern) = rules[k];
        if scope.matches(lang) && any_comment_matches(cs, pattern) {
            proof {
                assert(rules@[k as int] == (scope, pattern));
                lemma_directive_table(cs@, lang, rules@);
            }
            return true;
        }
        k += 1;
    }
    proof {
        lemma_directive_table(cs@, lang, rules@);
    }
    false
}


/// In JavaScript and TypeScript (TSX included), a block holding a block comment that opens
/// with `/**` (JSDoc) or `/*!` (a preserved banner) is structural, wherever it stands.
pub proof fn law_js_doc_and_banner_blocks_are_structural(block: CommentBlock, lang: Language, i: int)
    requires
        lang == Language::JavaScript || lang == Language::TypeScript || lang == Language::Tsx,
        0 <= i < block.comments@.len(),
        block.comments@[i].kind == CommentKind::Block,
        has_prefix(block.comments@[i].text@, seq!['/', '*', '*']) || has_prefix(
            block.comments@[i].text@,
            seq!['/', '*', '!'],
        ),
    ensures
        spec_is_structural(block, lang),
{
    assert(block.comments@[i].kind == CommentKind::Block);
    assert(has_doc_block(block.comments@));
}

} // verus!
