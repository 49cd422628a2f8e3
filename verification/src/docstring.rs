//! Python docstrings: the "always keep" structural rules, the delete/replace edits used to remove
//! or rewrite one, and extraction from a parsed syntax tree.
//!
//! A docstring is `expression_statement > string` as the first non-comment statement of `module`,
//! or of the `block` child of `class_definition` / `function_definition` (an `async def` is still
//! a `function_definition`; a decorated def/class is wrapped in `decorated_definition`, whose
//! `decorator` children are the decorators and whose `definition` field is the real node). A
//! `string` node with an `f`/`F`/`b`/`B` anywhere in its prefix is a formatted or byte string, not
//! a docstring; only `r`/`R`/`u`/`U` (or no prefix) qualify.
use vstd::prelude::*;
use crate::ext::{pattern_matches, regex_is_match, to_lowercase, unicode_lowercase};
use vstd::string::*;
use crate::text::{
    chars_of, contains, has_char, has_infix, has_prefix, has_suffix, starts_with, ends_with,
    same_chars, all_ws, is_blank, push_all, string_of, view_lines, copy_range, join, join_chars,
    trim_start, trim_start_chars, trim_end_set, trim_end_set_chars, ws_prefix_len, first_non_ws,
    occurs_at,
};
use vstd::utf8::*;
use crate::utf8::{
    chars_between, substr, lemma_boundary_after_ascii, lemma_boundary_at_ascii, lemma_decode_ascii,
    lemma_chars_between_split,
};
use crate::text::{spec_is_ws, lemma_all_ws_concat};
use crate::syntax::{
    SyntaxNode, kind_is, field_index, is_kind, child_by_field, boundary, boundary_exec, well_placed,
    lemma_placed,
    parsed_tree, parse_tree, check_placement,
};
use crate::types::Language;
use crate::text::spec_lines;
use crate::text::{trim_chars, split_ws, take_chars};
use crate::rewrite::{line_start, lemma_line_start_of};
use crate::text::{trim, words, take_at_most};
use crate::llm::string_views;
use crate::rewrite::line_start_of;
use crate::llm::{empty_prefix_len, empty_suffix_len, lemma_empty_prefix_len, lemma_empty_suffix_len};
use crate::types::{
    path_components, path_components_of, spec_file_name, file_name_of, split_on, split_chars,
    split_scan,
};
use crate::rewrite::{
    Edit, edit_is, line_end_incl_of, lemma_line_end_incl_of, line_end_incl_terminator,
    unterminated_eof, before_terminator, blank_line_at, blank_between,
};
use crate::structural::LICENSE_TEXT;

verus! {

#[derive(Debug, Clone, Copy, PartialEq, Eq, Structural)]
pub enum DocKind {
    Module,
    Class,
    Function,
}

#[derive(Debug, Clone)]
pub struct Docstring {
    /// Byte range of the whole string node (prefix + quotes).
    pub start: usize,
    pub end: usize,
    /// 0-based.
    pub start_line: usize,
    pub end_line: usize,
    /// Leading whitespace of the line the string starts on.
    pub indent: String,
    pub kind: DocKind,
    /// def/class name; "" for Module.
    pub name: String,
    /// The def/class header line(s) collapsed to one line, trimmed, <= 120 chars; "" for Module.
    pub signature: String,
    /// Decorator texts (e.g. "@click.command()"), trimmed.
    pub decorators: Vec<String>,
    /// Function named test*/Test*, Class named Test*, or Module when in_test_file.
    pub is_test: bool,
    pub in_test_file: bool,
    /// The docstring is the entire body (deleting it would leave an empty block).
    pub only_statement: bool,
    /// Only whitespace precedes the string on its first line.
    pub own_line: bool,
    /// Non-whitespace follows the string on its last line (e.g. `"""x"""; y = 1`).
    pub code_after: bool,
    /// "", "r", "u", ...
    pub prefix: String,
    /// `"""`, `'''`, `"`, or `'`.
    pub quote: String,
    /// Cleaned docstring text: `inspect.cleandoc` semantics (first line stripped, common indent
    /// of the rest removed, leading/trailing blank lines dropped).
    pub text: String,
    /// For Function/Class: up to 3 trimmed non-blank source lines of the body after the
    /// docstring, each cut to 80 chars; empty for Module.
    pub body_preview: Vec<String>,
    /// Number of non-blank body lines after the docstring (0 when only_statement).
    pub body_lines: usize,
}

/// The file name marks a test module: `conftest.py`, `test_*.py` or `*_test.py`.
pub open spec fn is_test_file_name(name: Seq<char>) -> bool {
    ||| name == seq!['c', 'o', 'n', 'f', 't', 'e', 's', 't', '.', 'p', 'y']
    ||| (has_suffix(name, seq!['.', 'p', 'y']) && {
        let stem = name.take(name.len() - 3);
        has_prefix(stem, seq!['t', 'e', 's', 't', '_']) || has_suffix(
            stem,
            seq!['_', 't', 'e', 's', 't'],
        )
    })
}

/// A test file: its name marks it, or some component of its path is `tests` or `test`.
pub open spec fn spec_is_test_file(path: Seq<char>) -> bool {
    ||| is_test_file_name(spec_file_name(path))
    ||| path_components(path).contains(seq!['t', 'e', 's', 't', 's'])
    ||| path_components(path).contains(seq!['t', 'e', 's', 't'])
}

/// File name `test_*.py` / `*_test.py` / `conftest.py`, or any path component named "tests" or
/// "test". Paths are `/`-separated.
pub fn is_test_file(path: &str) -> (r: bool)
    ensures
        r == spec_is_test_file(path@),
{
    let p = chars_of(path);
    let name = file_name_of(&p);
    let conftest = ['c', 'o', 'n', 'f', 't', 'e', 's', 't', '.', 'p', 'y'];
    let py = ['.', 'p', 'y'];
    let test_ = ['t', 'e', 's', 't', '_'];
    let _test = ['_', 't', 'e', 's', 't'];
    let tests = ['t', 'e', 's', 't', 's'];
    let test = ['t', 'e', 's', 't'];
    assert(conftest@ =~= seq!['c', 'o', 'n', 'f', 't', 'e', 's', 't', '.', 'p', 'y']);
    assert(py@ =~= seq!['.', 'p', 'y']);
    assert(test_@ =~= seq!['t', 'e', 's', 't', '_']);
    assert(_test@ =~= seq!['_', 't', 'e', 's', 't']);
    assert(tests@ =~= seq!['t', 'e', 's', 't', 's']);
    assert(test@ =~= seq!['t', 'e', 's', 't']);
    if same_chars(&name, &conftest) {
        return true;
    }
    if ends_with(&name, &py) {
        let stem = crate::text::copy_range(&name, 0, name.len() - 3);
        assert(stem@ =~= name@.take(name@.len() - 3));
        if starts_with(&stem, &test_) || ends_with(&stem, &_test) {
            return true;
        }
    }
    let comps = path_components_of(&p);
    let ghost cs = path_components(p@);
    let mut i: usize = 0;
    while i < comps.len()
        invariant
            0 <= i <= comps@.len(),
            crate::text::view_lines(comps@) == cs,
            cs == path_components(path@),
            tests@ == seq!['t', 'e', 's', 't', 's'],
            test@ == seq!['t', 'e', 's', 't'],
            forall|k: int|
                0 <= k < i ==> #[trigger] cs[k] != seq!['t', 'e', 's', 't', 's'] && cs[k] != seq![
                    't',
                    'e',
                    's',
                    't',
                ],
        decreases comps@.len() - i,
    {
        assert(cs[i as int] == comps@[i as int]@);
        if same_chars(&comps[i], &tests) || same_chars(&comps[i], &test) {
            return true;
        }
        i += 1;
    }
    false
}

/// Index of the first `'` or `"` in `s`, or its length when there is none.
pub open spec fn first_quote_index(s: Seq<char>) -> int
    decreases s.len(),
{
    if s.len() == 0 {
        0
    } else if s[0] == '\'' || s[0] == '"' {
        0
    } else {
        1 + first_quote_index(s.drop_first())
    }
}

proof fn lemma_first_quote_index(s: Seq<char>, j: int)
    requires
        0 <= j <= s.len(),
        forall|k: int| 0 <= k < j ==> s[k] != '\'' && s[k] != '"',
        j == s.len() || s[j] == '\'' || s[j] == '"',
    ensures
        first_quote_index(s) == j,
    decreases j,
{
    if j > 0 {
        lemma_first_quote_index(s.drop_first(), j - 1);
    }
}

/// Prefix (chars before the first quote char) and quote sequence of a `string_start` node's text.
fn split_prefix_quote(text: &[char]) -> (r: (Vec<char>, Vec<char>))
    ensures
        r.0@ == text@.take(first_quote_index(text@)),
        r.1@ == text@.skip(first_quote_index(text@)),
{
    let mut i: usize = 0;
    while i < text.len() && text[i] != '\'' && text[i] != '"'
        invariant
            0 <= i <= text@.len(),
            forall|k: int| 0 <= k < i ==> text@[k] != '\'' && text@[k] != '"',
        decreases text@.len() - i,
    {
        i += 1;
    }
    proof {
        lemma_first_quote_index(text@, i as int);
    }
    (
        crate::text::copy_range(text, 0, i),
        crate::text::copy_range(text, i, text.len()),
    )
}

/// Only `r`, `R`, `u`, `U` (or nothing) may prefix a docstring.
pub open spec fn spec_is_docstring_prefix(prefix: Seq<char>) -> bool {
    forall|i: int|
        0 <= i < prefix.len() ==> #[trigger] prefix[i] == 'r' || prefix[i] == 'R' || prefix[i]
            == 'u' || prefix[i] == 'U'
}

fn is_docstring_prefix(prefix: &[char]) -> (r: bool)
    ensures
        r == spec_is_docstring_prefix(prefix@),
{
    let mut i: usize = 0;
    while i < prefix.len()
        invariant
            0 <= i <= prefix@.len(),
            forall|k: int|
                0 <= k < i ==> #[trigger] prefix@[k] == 'r' || prefix@[k] == 'R' || prefix@[k]
                    == 'u' || prefix@[k] == 'U',
        decreases prefix@.len() - i,
    {
        let c = prefix[i];
        if !(c == 'r' || c == 'R' || c == 'u' || c == 'U') {
            return false;
        }
        i += 1;
    }
    true
}

/// A decorator (lower-cased) that names a click/typer command or group.
pub open spec fn is_command_decorator(d: Seq<char>) -> bool {
    let lower = unicode_lowercase(d);
    has_infix(lower, seq!['c', 'o', 'm', 'm', 'a', 'n', 'd']) || has_infix(
        lower,
        seq!['g', 'r', 'o', 'u', 'p'],
    )
}

/// Whether a docstring must be kept in every mode.
pub open spec fn spec_doc_is_structural(doc: Docstring, src: Seq<char>) -> bool {
    ||| has_infix(doc.text@, seq!['>', '>', '>'])
    ||| (doc.kind == DocKind::Module && has_infix(src, seq!['_', '_', 'd', 'o', 'c', '_', '_']))
    ||| pattern_matches(LICENSE_TEXT@, doc.text@)
    ||| exists|i: int|
        0 <= i < doc.decorators@.len() && is_command_decorator(#[trigger] doc.decorators@[i]@)
}

/// Always kept, in every mode: doctest prompts, a Module docstring in a file that reads
/// `__doc__` (argparse/click render it as help text), license/copyright/SPDX text, or any
/// decorator that looks like a click/typer command (its docstring becomes the command's help).
pub fn is_structural(doc: &Docstring, src: &str) -> (r: bool)
    ensures
        r == spec_doc_is_structural(*doc, src@),
{
    let prompt = ['>', '>', '>'];
    let dunder = ['_', '_', 'd', 'o', 'c', '_', '_'];
    let command = ['c', 'o', 'm', 'm', 'a', 'n', 'd'];
    let group = ['g', 'r', 'o', 'u', 'p'];
    assert(prompt@ =~= seq!['>', '>', '>']);
    assert(dunder@ =~= seq!['_', '_', 'd', 'o', 'c', '_', '_']);
    assert(command@ =~= seq!['c', 'o', 'm', 'm', 'a', 'n', 'd']);
    assert(group@ =~= seq!['g', 'r', 'o', 'u', 'p']);
    let text = chars_of(doc.text.as_str());
    if contains(&text, &prompt) {
        return true;
    }
    if doc.kind == DocKind::Module && contains(&chars_of(src), &dunder) {
        return true;
    }
    if regex_is_match(LICENSE_TEXT, doc.text.as_str()) == Some(true) {
        return true;
    }
    let ds = &doc.decorators;
    let mut i: usize = 0;
    while i < ds.len()
        invariant
            0 <= i <= ds@.len(),
            *ds == doc.decorators,
            command@ == seq!['c', 'o', 'm', 'm', 'a', 'n', 'd'],
            group@ == seq!['g', 'r', 'o', 'u', 'p'],
            forall|k: int| 0 <= k < i ==> !is_command_decorator(#[trigger] ds@[k]@),
        decreases ds@.len() - i,
    {
        let lower = to_lowercase(ds[i].as_str());
        let l = chars_of(lower.as_str());
        if contains(&l, &command) || contains(&l, &group) {
            return true;
        }
        i += 1;
    }
    false
}

/// Byte length of a docstring's indentation.
pub open spec fn doc_indent_len(doc: Docstring) -> int {
    encode_utf8(doc.indent@).len() as int
}

/// The docstring's last byte position (`end - 1`, but never before `start`).
pub open spec fn doc_last_pos(doc: Docstring) -> int {
    let e1: int = if doc.end > 0 { doc.end - 1 } else { 0 };
    if e1 > doc.start { e1 } else { doc.start as int }
}

/// From a line start `e`, past every blank line that follows.
pub open spec fn skip_blank_lines(b: Seq<u8>, e: int) -> int
    decreases b.len() - e,
{
    if 0 <= e < b.len() && blank_line_at(b, e) && line_end_incl_of(b, e) <= b.len() {
        skip_blank_lines(b, line_end_incl_of(b, e))
    } else {
        e
    }
}

/// Range and replacement that delete a docstring, or `None` when it is left alone.
pub open spec fn spec_doc_delete_edit(b: Seq<u8>, doc: Docstring) -> Option<(int, int, Seq<char>)> {
    if doc.only_statement {
        Some((doc.start as int, doc.end as int, seq!['p', 'a', 's', 's']))
    } else if !doc.own_line || doc.code_after {
        None
    } else {
        let s0 = doc.start - doc_indent_len(doc);
        let e0 = line_end_incl_of(b, doc_last_pos(doc));
        if unterminated_eof(b, e0) {
            Some((before_terminator(b, s0), b.len() as int, seq![]))
        } else {
            Some((s0, skip_blank_lines(b, e0), seq![]))
        }
    }
}

/// What `delete_edit` needs of an own-line docstring so that no index is out of range: its
/// indentation fits before it and its range lies in the source.
pub open spec fn doc_delete_ok(b: Seq<u8>, doc: Docstring) -> bool {
    !doc.only_statement && doc.own_line && !doc.code_after ==> {
        &&& doc_indent_len(doc) <= doc.start
        &&& doc.start <= b.len()
        &&& doc.end <= b.len() + 1
    }
}

/// The edit, when there is one, is the given range and replacement.
pub open spec fn edit_matches(r: Option<Edit>, x: Option<(int, int, Seq<char>)>) -> bool {
    match (r, x) {
        (Some(e), Some(t)) => edit_is(e, t),
        (None, None) => true,
        _ => false,
    }
}

/// Edit that removes `doc`, or `None` when it is too risky to touch (code shares its first or
/// last line with something else besides its own `def`/`class` header).
/// - `only_statement`: the whole string node becomes `pass` (handles both an own-line docstring
///   and an inline `def g(self): """x"""`).
/// - own-line, nothing after it on the line: remove its whole lines (indent through terminator)
///   plus any immediately-following blank lines, so the body/module never starts on a blank line.
/// - anything else (code after it on the same line, or sharing a line with other statements):
///   left untouched.
pub fn delete_edit(src: &str, doc: &Docstring) -> (r: Option<Edit>)
    requires
        doc_delete_ok(src.spec_bytes(), *doc),
    ensures
        edit_matches(r, spec_doc_delete_edit(src.spec_bytes(), *doc)),
{
    if doc.only_statement {
        proof {
            reveal_strlit("pass");
            assert("pass"@ =~= seq!['p', 'a', 's', 's']);
        }
        return Some(Edit { start: doc.start, end: doc.end, replacement: String::from_str("pass") });
    }
    if !doc.own_line || doc.code_after {
        return None;
    }
    let bytes = src.as_bytes();
    let ghost b = bytes@;
    let mut start = doc.start - doc.indent.as_str().len();
    let last = if doc.end > 0 { doc.end - 1 } else { 0 };
    let last_pos = if last > doc.start { last } else { doc.start };
    let mut end = line_end_incl_terminator(src, last_pos);
    proof {
        lemma_line_end_incl_of(b, last_pos as int);
    }
    let hit_eof = end == bytes.len() && !(bytes.len() > 0 && bytes[bytes.len() - 1] == 10u8);
    if hit_eof {
        // No terminator on the last line; remove through EOF, and also strip the terminator
        // preceding our span so we don't leave a dangling blank line.
        if start > 0 && bytes[start - 1] == 10u8 {
            let mut new_start = start - 1;
            if new_start > 0 && bytes[new_start - 1] == 13u8 {
                new_start -= 1;
            }
            start = new_start;
        }
        end = bytes.len();
    } else {
        // Consume every immediately-following blank line so the body/module doesn't start blank.
        let ghost e0 = end as int;
        let mut more = true;
        while more && end < bytes.len()
            invariant
                0 < end <= b.len(),
                b == src.spec_bytes(),
                bytes@ == b,
                end < b.len() ==> b[end - 1] == 10,
                skip_blank_lines(b, end as int) == skip_blank_lines(b, e0),
                !more ==> skip_blank_lines(b, end as int) == end,
            decreases b.len() - end + (if more { 1int } else { 0int }),
        {
            let next_end = line_end_incl_terminator(src, end);
            proof {
                lemma_line_end_incl_of(b, end as int);
            }
            if next_end > end && blank_between(src, end, next_end) {
                assert(skip_blank_lines(b, end as int) == skip_blank_lines(b, next_end as int));
                end = next_end;
            } else {
                more = false;
            }
        }
    }
    Some(Edit { start, end, replacement: String::new() })
}

/// One continuation line of a rewritten docstring: blank lines stay empty, others get the
/// docstring's indentation; each ends in `'\n'`.
pub open spec fn continuation_line(line: Seq<char>, indent: Seq<char>) -> Seq<char> {
    if all_ws(line) {
        seq!['\n']
    } else {
        indent + line + seq!['\n']
    }
}

/// Every continuation line, in order.
pub open spec fn continuation_lines(lines: Seq<Seq<char>>, indent: Seq<char>) -> Seq<char>
    decreases lines.len(),
{
    if lines.len() == 0 {
        seq![]
    } else {
        continuation_lines(lines.drop_last(), indent) + continuation_line(lines.last(), indent)
    }
}

/// The new text is refused: empty, holding the quote sequence or a backslash, or one line that
/// ends with the quote's character (the closing quote would follow it directly and the literal
/// would close early; several lines put the closing quote on a line of its own).
pub open spec fn replace_refused(new_text: Seq<char>, quote: Seq<char>) -> bool {
    ||| new_text.len() == 0
    ||| has_infix(new_text, quote)
    ||| new_text.contains('\\')
    ||| (split_on(new_text, '\n').len() == 1 && quote.len() > 0 && new_text.last() == quote[0])
}

/// A quote delimiter: one character that is not whitespace, repeated (`"`, `'`, `"""`, `'''`).
pub open spec fn quote_ok(q: Seq<char>) -> bool {
    &&& q.len() > 0
    &&& !spec_is_ws(q[0])
    &&& forall|i: int| 0 <= i < q.len() ==> #[trigger] q[i] == q[0]
}

/// In `r`, the string literal whose text starts at `open` ends exactly at `r`'s end: the first
/// occurrence of the quote `q` at or after `open` is `r`'s last `q.len()` characters.
pub open spec fn literal_closes_at_end(r: Seq<char>, open: nat, q: Seq<char>) -> bool {
    &&& open <= r.len() - q.len()
    &&& occurs_at(r, q, r.len() - q.len())
    &&& forall|k: int| open <= k < r.len() - q.len() ==> !#[trigger] occurs_at(r, q, k)
}

proof fn lemma_occurrence_chars(s: Seq<char>, q: Seq<char>, k: int, j: int)
    requires
        quote_ok(q),
        occurs_at(s, q, k),
        k <= j < k + q.len(),
    ensures
        s[j] == q[0],
{
    assert(s.subrange(k, k + q.len())[j - k] == q[j - k]);
}

proof fn lemma_no_quote_char(s: Seq<char>, q: Seq<char>)
    requires
        quote_ok(q),
        !s.contains(q[0]),
    ensures
        !has_infix(s, q),
{
    if has_infix(s, q) {
        let k = choose|k: int| occurs_at(s, q, k);
        lemma_occurrence_chars(s, q, k, k);
        assert(s.contains(q[0]));
    }
}

proof fn lemma_sub_no_quote(s: Seq<char>, q: Seq<char>, lo: int, hi: int)
    requires
        0 <= lo <= hi <= s.len(),
        !has_infix(s, q),
    ensures
        !has_infix(s.subrange(lo, hi), q),
{
    if has_infix(s.subrange(lo, hi), q) {
        let k = choose|k: int| occurs_at(s.subrange(lo, hi), q, k);
        assert(s.subrange(lo, hi).subrange(k, k + q.len()) =~= s.subrange(lo + k, lo + k + q.len()));
        assert(occurs_at(s, q, lo + k));
    }
}

/// Two texts without the quote make none when joined, unless the quote character meets itself
/// across the seam.
proof fn lemma_concat_no_quote(a: Seq<char>, b: Seq<char>, q: Seq<char>)
    requires
        quote_ok(q),
        !has_infix(a, q),
        !has_infix(b, q),
        a.len() == 0 || b.len() == 0 || a.last() != q[0] || b[0] != q[0],
    ensures
        !has_infix(a + b, q),
{
    if has_infix(a + b, q) {
        let k = choose|k: int| occurs_at(a + b, q, k);
        let n = q.len() as int;
        if k + n <= a.len() {
            assert((a + b).subrange(k, k + n) =~= a.subrange(k, k + n));
            assert(occurs_at(a, q, k));
        } else if k >= a.len() {
            assert((a + b).subrange(k, k + n) =~= b.subrange(k - a.len(), k - a.len() + n));
            assert(occurs_at(b, q, k - a.len()));
        } else {
            lemma_occurrence_chars(a + b, q, k, a.len() - 1);
            lemma_occurrence_chars(a + b, q, k, a.len() as int);
            assert((a + b)[a.len() - 1] == a.last());
            assert((a + b)[a.len() as int] == b[0]);
        }
    }
}

proof fn lemma_split_scan_suffix(s: Seq<char>, sep: char)
    ensures
        split_scan(s, sep).1.len() <= s.len(),
        split_scan(s, sep).1 == s.subrange(s.len() - split_scan(s, sep).1.len(), s.len() as int),
    decreases s.len(),
{
    if s.len() > 0 {
        lemma_split_scan_suffix(s.drop_last(), sep);
        let cur = split_scan(s.drop_last(), sep).1;
        if s.last() == sep {
            assert(split_scan(s, sep).1 =~= s.subrange(s.len() as int, s.len() as int));
        } else {
            assert(cur.push(s.last()) =~= s.subrange(s.len() - cur.len() - 1, s.len() as int));
        }
    } else {
        assert(split_scan(s, sep).1 =~= s.subrange(0, 0));
    }
}

proof fn lemma_split_scan_no_quote(s: Seq<char>, sep: char, q: Seq<char>)
    requires
        !has_infix(s, q),
    ensures
        forall|i: int|
            0 <= i < split_scan(s, sep).0.len() ==> !has_infix(#[trigger] split_scan(s, sep).0[i], q),
        !has_infix(split_scan(s, sep).1, q),
    decreases s.len(),
{
    lemma_split_scan_suffix(s, sep);
    let cur = split_scan(s, sep).1;
    lemma_sub_no_quote(s, q, s.len() - cur.len(), s.len() as int);
    if s.len() > 0 {
        lemma_sub_no_quote(s, q, 0, s.len() - 1);
        assert(s.subrange(0, s.len() - 1) =~= s.drop_last());
        lemma_split_scan_no_quote(s.drop_last(), sep, q);
        let done0 = split_scan(s.drop_last(), sep).0;
        let cur0 = split_scan(s.drop_last(), sep).1;
        assert forall|i: int| 0 <= i < split_scan(s, sep).0.len() implies !has_infix(
            #[trigger] split_scan(s, sep).0[i],
            q,
        ) by {
            if i < done0.len() {
                assert(split_scan(s, sep).0[i] == done0[i]);
            } else {
                assert(split_scan(s, sep).0[i] == cur0);
            }
        }
    }
}

proof fn lemma_split_no_quote(s: Seq<char>, sep: char, q: Seq<char>)
    requires
        !has_infix(s, q),
    ensures
        forall|i: int| 0 <= i < split_on(s, sep).len() ==> !has_infix(#[trigger] split_on(s, sep)[i], q),
{
    lemma_split_scan_no_quote(s, sep, q);
    let (done, cur) = split_scan(s, sep);
    assert forall|i: int| 0 <= i < split_on(s, sep).len() implies !has_infix(
        #[trigger] split_on(s, sep)[i],
        q,
    ) by {
        if i < done.len() {
            assert(split_on(s, sep)[i] == done[i]);
        } else {
            assert(split_on(s, sep)[i] == cur);
        }
    }
}

proof fn lemma_newline_not_quote(q: Seq<char>)
    requires
        quote_ok(q),
    ensures
        q[0] != '\n',
        !has_infix(seq!['\n'], q),
{
    assert(spec_is_ws('\n'));
    assert(!seq!['\n'].contains(q[0])) by {
        if seq!['\n'].contains(q[0]) {
            let i = choose|i: int| 0 <= i < 1 && seq!['\n'][i] == q[0];
            assert(seq!['\n'][i] == '\n');
        }
    }
    lemma_no_quote_char(seq!['\n'], q);
}

proof fn lemma_continuation_no_quote(ls: Seq<Seq<char>>, indent: Seq<char>, q: Seq<char>)
    requires
        quote_ok(q),
        !indent.contains(q[0]),
        forall|i: int| 0 <= i < ls.len() ==> !has_infix(#[trigger] ls[i], q),
    ensures
        !has_infix(continuation_lines(ls, indent), q),
        ls.len() > 0 ==> continuation_lines(ls, indent).len() > 0 && continuation_lines(
            ls,
            indent,
        ).last() == '\n',
    decreases ls.len(),
{
    if ls.len() > 0 {
        let init = ls.drop_last();
        assert forall|i: int| 0 <= i < init.len() implies !has_infix(#[trigger] init[i], q) by {
            assert(init[i] == ls[i]);
        }
        lemma_continuation_no_quote(init, indent, q);
        let l = ls.last();
        let nl = seq!['\n'];
        lemma_newline_not_quote(q);
        let line = continuation_line(l, indent);
        if !all_ws(l) {
            lemma_no_quote_char(indent, q);
            assert(!has_infix(l, q)) by {
                assert(l == ls[ls.len() - 1]);
            }
            if indent.len() > 0 {
                assert(indent[indent.len() - 1] != q[0]);
            }
            lemma_concat_no_quote(indent, l, q);
            lemma_concat_no_quote(indent + l, nl, q);
            assert(line =~= (indent + l) + nl);
        }
        lemma_concat_no_quote(continuation_lines(init, indent), line, q);
    }
}

proof fn lemma_closes_at_end(pre: Seq<char>, q: Seq<char>, body: Seq<char>)
    requires
        quote_ok(q),
        !has_infix(body, q),
        body.len() > 0 ==> body.last() != q[0],
    ensures
        literal_closes_at_end(pre + q + body + q, pre.len() + q.len(), q),
{
    let r = pre + q + body + q;
    let n = q.len() as int;
    let o = pre.len() + n;
    assert(r.subrange(r.len() - n, r.len() as int) =~= q);
    assert forall|k: int| o <= k < r.len() - n implies !#[trigger] occurs_at(r, q, k) by {
        if occurs_at(r, q, k) {
            if k + n <= r.len() - n {
                assert(r.subrange(k, k + n) =~= body.subrange(k - o, k - o + n));
                assert(occurs_at(body, q, k - o));
            } else {
                lemma_occurrence_chars(r, q, k, r.len() - n - 1);
                assert(r[r.len() - n - 1] == body.last());
            }
        }
    }
}

/// A replacement the text is not refused for is one string literal: it opens with the
/// docstring's prefix and quote, and the first quote after the opening one is the closing quote
/// at its very end, so nothing of the text spills out into the code around it. (For a quote
/// that is one non-whitespace character repeated, and an indentation without that character.)
pub proof fn law_replacement_is_one_literal(doc: Docstring, new_text: Seq<char>)
    requires
        !replace_refused(new_text, doc.quote@),
        quote_ok(doc.quote@),
        !doc.indent@.contains(doc.quote@[0]),
    ensures
        has_prefix(spec_replacement(doc, new_text), doc.prefix@ + doc.quote@),
        literal_closes_at_end(
            spec_replacement(doc, new_text),
            doc.prefix@.len() + doc.quote@.len(),
            doc.quote@,
        ),
{
    let q = doc.quote@;
    let pre = doc.prefix@;
    let indent = doc.indent@;
    let lines = split_on(new_text, '\n');
    let r = spec_replacement(doc, new_text);
    if lines.len() == 1 {
        lemma_closes_at_end(pre, q, new_text);
        assert(r.take((pre + q).len() as int) =~= pre + q);
    } else {
        lemma_split_no_quote(new_text, '\n', q);
        lemma_newline_not_quote(q);
        let rest = lines.drop_first();
        assert forall|i: int| 0 <= i < rest.len() implies !has_infix(#[trigger] rest[i], q) by {
            assert(rest[i] == lines[i + 1]);
        }
        lemma_continuation_no_quote(rest, indent, q);
        let cont = continuation_lines(rest, indent);
        let nl = seq!['\n'];
        assert(!has_infix(lines[0], q));
        lemma_concat_no_quote(lines[0], nl, q);
        let a = lines[0] + nl;
        lemma_concat_no_quote(a, cont, q);
        let bb = a + cont;
        assert(bb.len() > 0 && bb.last() == '\n');
        lemma_no_quote_char(indent, q);
        lemma_concat_no_quote(bb, indent, q);
        let body = bb + indent;
        if indent.len() > 0 {
            assert(body.last() == indent[indent.len() - 1]);
        }
        lemma_closes_at_end(pre, q, body);
        assert(r =~= pre + q + body + q);
        assert(r.take((pre + q).len() as int) =~= pre + q);
    }
}

/// The string literal that replaces a docstring: prefix and quote kept, one line as is, several
/// lines shaped PEP 257-style (first line after the quote, the rest indented, closing quote on a
/// line of its own).
pub open spec fn spec_replacement(doc: Docstring, new_text: Seq<char>) -> Seq<char> {
    let lines = split_on(new_text, '\n');
    if lines.len() == 1 {
        doc.prefix@ + doc.quote@ + new_text + doc.quote@
    } else {
        doc.prefix@ + doc.quote@ + lines[0] + seq!['\n'] + continuation_lines(
            lines.drop_first(),
            doc.indent@,
        ) + doc.indent@ + doc.quote@
    }
}

/// Edit that replaces `doc`'s text with `new_text` (lines already joined with "\n", already
/// trimmed), keeping the docstring's own prefix and quote. `None` if `new_text` is empty or would be
/// unsafe to splice in verbatim (it contains the quote sequence itself or a backslash, or is one
/// line ending with the quote's character).
pub fn replace_edit(_src: &str, doc: &Docstring, new_text: &str) -> (r: Option<Edit>)
    ensures
        replace_refused(new_text@, doc.quote@) ==> r is None,
        !replace_refused(new_text@, doc.quote@) ==> (r matches Some(e) && e.start == doc.start
            && e.end == doc.end && e.replacement@ == spec_replacement(*doc, new_text@)),
        quote_ok(doc.quote@) && !doc.indent@.contains(doc.quote@[0]) ==> (r matches Some(e)
            ==> literal_closes_at_end(
            e.replacement@,
            doc.prefix@.len() + doc.quote@.len(),
            doc.quote@,
        )),
        tidy_text(new_text@) && (forall|i: int|
            0 <= i < doc.indent@.len() ==> doc.indent@[i] == ' ' || doc.indent@[i] == '\t') ==> (
        r matches Some(e) ==> spec_cleandoc(
            e.replacement@.subrange(
                (doc.prefix@.len() + doc.quote@.len()) as int,
                e.replacement@.len() - doc.quote@.len(),
            ),
        ) == new_text@),
{
    let text = chars_of(new_text);
    let quote = chars_of(doc.quote.as_str());
    if text.len() == 0 || contains(&text, &quote) || has_char(&text, '\\') {
        return None;
    }
    let lines = split_chars(&text, '\n');
    if lines.len() == 1 && quote.len() > 0 && text[text.len() - 1] == quote[0] {
        return None;
    }
    let ghost ls = split_on(text@, '\n');
    let prefix = chars_of(doc.prefix.as_str());
    let indent = chars_of(doc.indent.as_str());
    let mut out: Vec<char> = Vec::new();
    push_all(&mut out, &prefix);
    push_all(&mut out, &quote);
    if lines.len() == 1 {
        push_all(&mut out, &text);
        push_all(&mut out, &quote);
    } else {
        assert(ls.len() > 0);
        assert(ls[0] == lines@[0]@);
        push_all(&mut out, &lines[0]);
        out.push('\n');
        let ghost head = out@;
        let mut i: usize = 1;
        while i < lines.len()
            invariant
                1 <= i <= lines@.len(),
                view_lines(lines@) == ls,
                indent@ == doc.indent@,
                out@ == head + continuation_lines(ls.drop_first().take(i - 1), indent@),
            decreases lines@.len() - i,
        {
            let ghost before = ls.drop_first().take(i - 1);
            assert(ls.drop_first().take(i as int).drop_last() =~= before);
            assert(ls.drop_first().take(i as int).last() == lines@[i as int]@);
            if is_blank(&lines[i]) {
                out.push('\n');
            } else {
                push_all(&mut out, &indent);
                push_all(&mut out, &lines[i]);
                out.push('\n');
            }
            i += 1;
        }
        assert(ls.drop_first().take(lines@.len() - 1) =~= ls.drop_first());
        push_all(&mut out, &indent);
        push_all(&mut out, &quote);
    }
    let replacement = string_of(&out);
    proof {
        let rv = replacement@;
        let p = doc.prefix@.len() + doc.quote@.len();
        assert(rv == spec_replacement(*doc, new_text@));
        assert(!replace_refused(new_text@, doc.quote@));
        assert(quote_ok(doc.quote@) && !doc.indent@.contains(doc.quote@[0]) ==> literal_closes_at_end(
            rv,
            p,
            doc.quote@,
        )) by {
            if quote_ok(doc.quote@) && !doc.indent@.contains(doc.quote@[0]) {
                law_replacement_is_one_literal(*doc, new_text@);
            }
        }
        assert(tidy_text(new_text@) && (forall|i: int|
            0 <= i < doc.indent@.len() ==> doc.indent@[i] == ' ' || doc.indent@[i] == '\t')
            ==> spec_cleandoc(rv.subrange(p as int, rv.len() - doc.quote@.len())) == new_text@) by {
            if tidy_text(new_text@) && (forall|i: int|
                0 <= i < doc.indent@.len() ==> doc.indent@[i] == ' ' || doc.indent@[i] == '\t') {
                law_replacement_reads_back(*doc, new_text@);
            }
        }
    }
    Some(Edit { start: doc.start, end: doc.end, replacement })
}

/// A source small enough that its text with tabs expanded (at most eight characters for one)
/// stays within `usize`.
pub open spec fn fits_in_memory(n: nat) -> bool {
    n <= usize::MAX / 8
}

/// Whether a source is small enough for docstring extraction (its size bounds the arithmetic
/// on offsets), tested before `extract_docstrings`.
pub fn source_fits(src: &str) -> (r: bool)
    ensures
        r == fits_in_memory(src.spec_bytes().len()),
{
    src.as_bytes().len() <= usize::MAX / 8
}

/// `n` spaces.
pub open spec fn spaces(n: nat) -> Seq<char> {
    Seq::new(n, |i: int| ' ')
}

/// Left-to-right tab expansion: the output so far and the current column.
pub open spec fn expand_scan(s: Seq<char>, tab: nat) -> (Seq<char>, nat)
    decreases s.len(),
{
    if s.len() == 0 {
        (seq![], 0)
    } else {
        let (out, col) = expand_scan(s.drop_last(), tab);
        let c = s.last();
        if c == '\t' {
            let n = (tab - col % tab) as nat;
            (out + spaces(n), col + n)
        } else if c == '\n' {
            (out.push(c), 0)
        } else {
            (out.push(c), col + 1)
        }
    }
}

/// `str.expandtabs(tab)`: each tab advances to the next multiple of `tab`; columns restart after
/// each newline.
pub open spec fn spec_expandtabs(s: Seq<char>, tab: nat) -> Seq<char> {
    expand_scan(s, tab).0
}

/// `str.expandtabs()` with the given tab size: each `\t` advances to the next stop, columns reset
/// after `\n`.
fn expandtabs(s: &[char], tabsize: usize) -> (r: Vec<char>)
    requires
        0 < tabsize <= 8,
        fits_in_memory(s@.len()),
    ensures
        r@ == spec_expandtabs(s@, tabsize as nat),
        r@.len() <= 8 * s@.len(),
{
    let mut out: Vec<char> = Vec::new();
    let mut col: usize = 0;
    let mut i: usize = 0;
    while i < s.len()
        invariant
            0 < tabsize <= 8,
            fits_in_memory(s@.len()),
            0 <= i <= s@.len(),
            (out@, col as nat) == expand_scan(s@.take(i as int), tabsize as nat),
            col <= out@.len() <= 8 * i,
        decreases s@.len() - i,
    {
        assert(s@.take(i + 1).drop_last() =~= s@.take(i as int));
        let c = s[i];
        if c == '\t' {
            let n = tabsize - col % tabsize;
            let ghost before = out@;
            let mut k: usize = 0;
            while k < n
                invariant
                    k <= n <= tabsize <= 8,
                    out@ == before + spaces(k as nat),
                    before.len() <= 8 * i,
                decreases n - k,
            {
                out.push(' ');
                k += 1;
                assert(out@ =~= before + spaces(k as nat));
            }
            col = col + n;
        } else if c == '\n' {
            out.push(c);
            col = 0;
        } else {
            out.push(c);
            col = col + 1;
        }
        i += 1;
    }
    assert(s@.take(s@.len() as int) =~= s@);
    out
}

/// The smallest leading-whitespace length (in characters) among the non-blank lines, if any.
pub open spec fn margin_of(ls: Seq<Seq<char>>) -> Option<nat>
    decreases ls.len(),
{
    if ls.len() == 0 {
        None
    } else {
        let m = margin_of(ls.drop_last());
        let l = ls.last();
        if all_ws(l) {
            m
        } else {
            match m {
                None => Some(ws_prefix_len(l)),
                Some(x) => Some(if x <= ws_prefix_len(l) { x } else { ws_prefix_len(l) }),
            }
        }
    }
}

/// One line after the first, dedented by the margin: its first `m` characters dropped, a line
/// shorter than the margin becoming empty.
pub open spec fn dedent(l: Seq<char>, m: Option<nat>) -> Seq<char> {
    match m {
        None => l,
        Some(m) => if l.len() >= m {
            l.skip(m as int)
        } else {
            seq![]
        },
    }
}

/// The raw docstring's lines after tab expansion, with trailing `'\r'`s dropped.
pub open spec fn doc_raw_lines(raw: Seq<char>) -> Seq<Seq<char>> {
    split_on(spec_expandtabs(raw, 8), '\n').map_values(|l: Seq<char>| trim_end_set(l, seq!['\r']))
}

/// The first line stripped of leading whitespace, the others dedented by the margin.
pub open spec fn cleaned_lines(raw: Seq<char>) -> Seq<Seq<char>> {
    let ls = doc_raw_lines(raw);
    let m = margin_of(ls.drop_first());
    seq![trim_start(ls[0])] + ls.drop_first().map_values(|l: Seq<char>| dedent(l, m))
}

/// Leading and trailing empty lines dropped.
pub open spec fn trim_empty_edges(ls: Seq<Seq<char>>) -> Seq<Seq<char>> {
    let a = ls.take(ls.len() - empty_suffix_len(ls));
    a.skip(empty_prefix_len(a) as int)
}

/// `inspect.cleandoc`.
pub open spec fn spec_cleandoc(raw: Seq<char>) -> Seq<char> {
    join(trim_empty_edges(cleaned_lines(raw)), seq!['\n'])
}

/// The margin as a sequence of naturals.
pub open spec fn opt_nat(m: Option<usize>) -> Option<nat> {
    match m {
        Some(x) => Some(x as nat),
        None => None,
    }
}

/// The lines of a raw docstring after tab expansion, trailing `'\r'`s dropped.
fn raw_lines(raw: &[char]) -> (r: Vec<Vec<char>>)
    requires
        fits_in_memory(raw@.len()),
    ensures
        view_lines(r@) == doc_raw_lines(raw@),
        r@.len() >= 1,
{
    let expanded = expandtabs(raw, 8);
    let pieces = split_chars(&expanded, '\n');
    let cr = ['\r'];
    assert(cr@ =~= seq!['\r']);
    let ghost ps = view_lines(pieces@);
    let mut lines: Vec<Vec<char>> = Vec::new();
    let mut i: usize = 0;
    while i < pieces.len()
        invariant
            0 <= i <= pieces@.len(),
            ps == view_lines(pieces@),
            ps == split_on(spec_expandtabs(raw@, 8), '\n'),
            cr@ == seq!['\r'],
            lines@.len() == i,
            forall|k: int| 0 <= k < i ==> #[trigger] lines@[k]@ == trim_end_set(ps[k], seq!['\r']),
        decreases pieces@.len() - i,
    {
        let t = trim_end_set_chars(&pieces[i], &cr);
        assert(ps[i as int] == pieces@[i as int]@);
        let ghost before = lines@;
        lines.push(t);
        assert forall|k: int| 0 <= k < i + 1 implies #[trigger] lines@[k]@ == trim_end_set(
            ps[k],
            seq!['\r'],
        ) by {
            if k < i {
                assert(lines@[k] == before[k]);
            }
        }
        i += 1;
    }
    assert(view_lines(lines@) =~= doc_raw_lines(raw@));
    lines
}

/// The smallest leading-whitespace length (in characters) over the non-blank lines after the
/// first.
fn margin(lines: &Vec<Vec<char>>) -> (r: Option<usize>)
    requires
        lines@.len() >= 1,
    ensures
        opt_nat(r) == margin_of(view_lines(lines@).drop_first()),
{
    let ghost ls = view_lines(lines@);
    let mut margin: Option<usize> = None;
    let mut i: usize = 1;
    while i < lines.len()
        invariant
            1 <= i <= lines@.len(),
            ls == view_lines(lines@),
            opt_nat(margin) == margin_of(ls.drop_first().take(i - 1)),
        decreases lines@.len() - i,
    {
        assert(ls.drop_first().take(i as int).drop_last() =~= ls.drop_first().take(i - 1));
        assert(ls.drop_first().take(i as int).last() == lines@[i as int]@);
        if !is_blank(&lines[i]) {
            let w = first_non_ws(&lines[i]);
            margin = match margin {
                None => Some(w),
                Some(x) => Some(if x <= w { x } else { w }),
            };
        }
        i += 1;
    }
    assert(ls.drop_first().take(lines@.len() - 1) =~= ls.drop_first());
    margin
}

/// One line dedented by the margin.
fn dedent_line(line: &Vec<char>, margin: Option<usize>) -> (r: Vec<char>)
    ensures
        r@ == dedent(line@, opt_nat(margin)),
{
    match margin {
        None => copy_range(line, 0, line.len()),
        Some(mg) => {
            if line.len() >= mg {
                copy_range(line, mg, line.len())
            } else {
                Vec::new()
            }
        },
    }
}

/// The first line stripped, the others dedented by the margin.
fn clean_lines_of(lines: &Vec<Vec<char>>, m: Option<usize>) -> (r: Vec<Vec<char>>)
    requires
        lines@.len() >= 1,
    ensures
        view_lines(r@) == seq![trim_start(view_lines(lines@)[0])] + view_lines(
            lines@,
        ).drop_first().map_values(|l: Seq<char>| dedent(l, opt_nat(m))),
{
    let ghost ls = view_lines(lines@);
    let ghost mm = opt_nat(m);
    let mut cleaned: Vec<Vec<char>> = Vec::new();
    cleaned.push(trim_start_chars(&lines[0]));
    let mut i: usize = 1;
    while i < lines.len()
        invariant
            1 <= i <= lines@.len(),
            ls == view_lines(lines@),
            mm == opt_nat(m),
            cleaned@.len() == i,
            cleaned@[0]@ == trim_start(ls[0]),
            forall|k: int| 1 <= k < i ==> #[trigger] cleaned@[k]@ == dedent(ls[k], mm),
        decreases lines@.len() - i,
    {
        assert(ls[i as int] == lines@[i as int]@);
        let d = dedent_line(&lines[i], m);
        let ghost before = cleaned@;
        cleaned.push(d);
        assert forall|k: int| 1 <= k < i + 1 implies #[trigger] cleaned@[k]@ == dedent(
            ls[k],
            mm,
        ) by {
            if k < i {
                assert(cleaned@[k] == before[k]);
            }
        }
        i += 1;
    }
    let ghost cv = view_lines(cleaned@);
    assert(cv =~= seq![trim_start(ls[0])] + ls.drop_first().map_values(
        |l: Seq<char>| dedent(l, mm),
    )) by {
        assert forall|k: int| 0 <= k < cv.len() implies #[trigger] cv[k] == (seq![
            trim_start(ls[0]),
        ] + ls.drop_first().map_values(|l: Seq<char>| dedent(l, mm)))[k] by {
            if k > 0 {
                assert(ls.drop_first()[k - 1] == ls[k]);
            }
        }
    }
    cleaned
}

/// The lines with leading and trailing empty lines dropped.
fn trim_empty_edges_exec(cleaned: &Vec<Vec<char>>) -> (r: Vec<Vec<char>>)
    ensures
        view_lines(r@) == trim_empty_edges(view_lines(cleaned@)),
{
    let ghost cv = view_lines(cleaned@);
    let mut z: usize = cleaned.len();
    while z > 0 && cleaned[z - 1].len() == 0
        invariant
            0 <= z <= cleaned@.len(),
            cv == view_lines(cleaned@),
            forall|k: int| z <= k < cv.len() ==> #[trigger] cv[k].len() == 0,
        decreases z,
    {
        z -= 1;
    }
    proof {
        if z > 0 {
            assert(cv[z - 1] == cleaned@[z - 1]@);
        }
        lemma_empty_suffix_len(cv, z as int);
    }
    let ghost ca = cv.take(z as int);
    let mut a: usize = 0;
    while a < z && cleaned[a].len() == 0
        invariant
            0 <= a <= z <= cleaned@.len(),
            cv == view_lines(cleaned@),
            ca == cv.take(z as int),
            forall|k: int| 0 <= k < a ==> #[trigger] ca[k].len() == 0,
        decreases z - a,
    {
        assert(ca[a as int] == cleaned@[a as int]@);
        a += 1;
    }
    proof {
        if a < z {
            assert(ca[a as int] == cleaned@[a as int]@);
        }
        lemma_empty_prefix_len(ca, a as int);
    }
    let mut kept: Vec<Vec<char>> = Vec::new();
    let mut j: usize = a;
    while j < z
        invariant
            a <= j <= z <= cleaned@.len(),
            cv == view_lines(cleaned@),
            view_lines(kept@) == cv.subrange(a as int, j as int),
        decreases z - j,
    {
        let line = copy_range(&cleaned[j], 0, cleaned[j].len());
        assert(line@ =~= cv[j as int]);
        let ghost before = kept@;
        kept.push(line);
        assert(view_lines(kept@) =~= view_lines(before).push(line@));
        assert(cv.subrange(a as int, j + 1) =~= cv.subrange(a as int, j as int).push(cv[j as int]));
        j += 1;
    }
    assert(cv.subrange(a as int, z as int) =~= trim_empty_edges(cv));
    kept
}

/// `inspect.cleandoc` semantics: expand tabs, strip the first line, dedent every other line by the
/// smallest indentation (in characters) among the non-blank ones, then drop leading/trailing
/// blank lines.
fn cleandoc(raw: &[char]) -> (r: Vec<char>)
    requires
        fits_in_memory(raw@.len()),
    ensures
        r@ == spec_cleandoc(raw@),
{
    let lines = raw_lines(raw);
    let m = margin(&lines);
    let cleaned = clean_lines_of(&lines, m);
    let kept = trim_empty_edges_exec(&cleaned);
    let nl = ['\n'];
    assert(nl@ =~= seq!['\n']);
    join_chars(&kept, &nl)
}

/// Grammar kinds and field names the extractor looks for.
pub const KIND_MODULE: &'static str = "module";
pub const KIND_FUNCTION: &'static str = "function_definition";
pub const KIND_CLASS: &'static str = "class_definition";
pub const KIND_DECORATED: &'static str = "decorated_definition";
pub const KIND_DECORATOR: &'static str = "decorator";
pub const KIND_COMMENT: &'static str = "comment";
pub const KIND_EXPRESSION: &'static str = "expression_statement";
pub const KIND_STRING: &'static str = "string";
pub const KIND_STRING_START: &'static str = "string_start";
pub const KIND_STRING_CONTENT: &'static str = "string_content";
pub const KIND_COLON: &'static str = ":";
pub const FIELD_BODY: &'static str = "body";
pub const FIELD_NAME: &'static str = "name";

/// Why docstrings could not be extracted from a source.
#[derive(Debug, Clone, Copy, PartialEq, Eq, Structural)]
pub enum ExtractError {
    /// The parser produced no tree.
    NoTree,
    /// The tree holds syntax errors.
    SyntaxErrors,
    /// The tree's byte offsets do not fit the source.
    BadOffsets,
}

/// Index of the first node that is not a comment (the length when all are comments).
pub open spec fn first_non_comment(ns: Seq<SyntaxNode>) -> int
    decreases ns.len(),
{
    if ns.len() > 0 && kind_is(ns[0], KIND_COMMENT@) {
        1 + first_non_comment(ns.drop_first())
    } else {
        0
    }
}

/// Number of nodes that are not comments.
pub open spec fn non_comment_count(ns: Seq<SyntaxNode>) -> nat
    decreases ns.len(),
{
    if ns.len() == 0 {
        0
    } else {
        non_comment_count(ns.drop_last()) + if kind_is(ns.last(), KIND_COMMENT@) {
            0nat
        } else {
            1nat
        }
    }
}

/// The index of the first statement of a `module` or `block` when that statement is a bare
/// string expression: exactly one child, of kind `string`.
pub open spec fn docstring_stmt(p: SyntaxNode) -> Option<int> {
    let j = first_non_comment(p.children@);
    if j < p.children@.len() && kind_is(p.children@[j], KIND_EXPRESSION@)
        && p.children@[j].children@.len() == 1 && kind_is(
        p.children@[j].children@[0],
        KIND_STRING@,
    ) {
        Some(j)
    } else {
        None
    }
}

/// Where a docstring candidate sits: the node whose first statement it is, the string node,
/// the last row of the enclosing def/class, its kind, the def/class (or module) node, and the
/// decorators of that def/class.
pub type DocSite = (SyntaxNode, SyntaxNode, int, DocKind, SyntaxNode, Seq<Seq<char>>);

/// The candidate a node itself carries: a module's docstring, or a def/class body's.
pub open spec fn own_site(n: SyntaxNode, decos: Seq<Seq<char>>) -> Option<DocSite> {
    if kind_is(n, KIND_MODULE@) {
        match docstring_stmt(n) {
            Some(j) => Some((n, n.children@[j].children@[0], 0, DocKind::Module, n, seq![])),
            None => None,
        }
    } else if kind_is(n, KIND_FUNCTION@) || kind_is(n, KIND_CLASS@) {
        let kind = if kind_is(n, KIND_FUNCTION@) {
            DocKind::Function
        } else {
            DocKind::Class
        };
        match field_index(n.children@, FIELD_BODY@) {
            Some(bi) => {
                let body = n.children@[bi];
                match docstring_stmt(body) {
                    Some(j) => Some(
                        (body, body.children@[j].children@[0], n.end_row as int, kind, n, decos),
                    ),
                    None => None,
                }
            },
            None => None,
        }
    } else {
        None
    }
}

/// The text of a node.
pub open spec fn node_text(n: SyntaxNode, b: Seq<u8>) -> Seq<char> {
    chars_between(b, n.start as int, n.end as int)
}

/// The prefix-and-quote text of a string: its `string_start` child.
pub open spec fn opening(s: SyntaxNode, b: Seq<u8>) -> Seq<char> {
    node_text(s.children@[0], b)
}

/// The candidate is a real docstring: its string opens with `string_start` and a prefix of
/// only `r`/`R`/`u`/`U`.
pub open spec fn qualifies(site: DocSite, b: Seq<u8>) -> bool {
    let s = site.1;
    &&& s.children@.len() > 0
    &&& kind_is(s.children@[0], KIND_STRING_START@)
    &&& spec_is_docstring_prefix(opening(s, b).take(first_quote_index(opening(s, b))))
}

/// The trimmed texts of the `decorator` nodes, in order.
pub open spec fn decorator_texts(ns: Seq<SyntaxNode>, b: Seq<u8>) -> Seq<Seq<char>>
    decreases ns.len(),
{
    if ns.len() == 0 {
        seq![]
    } else if kind_is(ns.last(), KIND_DECORATOR@) {
        decorator_texts(ns.drop_last(), b).push(trim(node_text(ns.last(), b)))
    } else {
        decorator_texts(ns.drop_last(), b)
    }
}

/// The decorators a node hands to its children: those of a `decorated_definition`.
pub open spec fn child_decos(n: SyntaxNode, b: Seq<u8>) -> Seq<Seq<char>> {
    if kind_is(n, KIND_DECORATED@) {
        decorator_texts(n.children@, b)
    } else {
        seq![]
    }
}

/// Every docstring in the subtree, in source order (the node's own first, then its children's).
pub open spec fn spec_sites(n: SyntaxNode, decos: Seq<Seq<char>>, b: Seq<u8>) -> Seq<DocSite>
    decreases n, n.children@.len() + 1,
{
    let own = match own_site(n, decos) {
        Some(s) => if qualifies(s, b) {
            seq![s]
        } else {
            seq![]
        },
        None => seq![],
    };
    own + children_sites(n, n.children@.len() as int, child_decos(n, b), b)
}

/// The docstrings of the first `i` children's subtrees, in order.
pub open spec fn children_sites(n: SyntaxNode, i: int, decos: Seq<Seq<char>>, b: Seq<u8>) -> Seq<
    DocSite,
>
    decreases n, i,
{
    if i <= 0 || i > n.children@.len() {
        seq![]
    } else {
        children_sites(n, i - 1, decos, b) + spec_sites(n.children@[i - 1], decos, b)
    }
}

/// End of the line containing `pos`: its `'\n'`, or the length.
pub open spec fn line_end_of(b: Seq<u8>, pos: int) -> int
    decreases b.len() - pos,
{
    if pos >= b.len() {
        b.len() as int
    } else if b[pos] == 10 {
        pos
    } else {
        line_end_of(b, pos + 1)
    }
}

/// Index of the first anonymous `:` child.
pub open spec fn colon_index(ns: Seq<SyntaxNode>) -> Option<int>
    decreases ns.len(),
{
    if ns.len() == 0 {
        None
    } else if !ns[0].named && kind_is(ns[0], KIND_COLON@) {
        Some(0)
    } else {
        match colon_index(ns.drop_first()) {
            Some(i) => Some(i + 1),
            None => None,
        }
    }
}

/// The def/class header, whitespace runs collapsed to one space, through the `:` that is a
/// direct child of the definition, cut to 120 characters.
pub open spec fn spec_header_signature(def: SyntaxNode, b: Seq<u8>) -> Seq<char> {
    let end = match colon_index(def.children@) {
        Some(k) => def.children@[k].end as int,
        None => def.start as int,
    };
    take_at_most(join(words(chars_between(b, def.start as int, end)), seq![' ']), 120)
}

/// Index of the first `string_content` child.
pub open spec fn content_index(ns: Seq<SyntaxNode>) -> Option<int>
    decreases ns.len(),
{
    if ns.len() == 0 {
        None
    } else if kind_is(ns[0], KIND_STRING_CONTENT@) {
        Some(0)
    } else {
        match content_index(ns.drop_first()) {
            Some(i) => Some(i + 1),
            None => None,
        }
    }
}

/// The raw text between a docstring's quotes: its first `string_content` child, or nothing.
pub open spec fn site_raw(site: DocSite, b: Seq<u8>) -> Seq<char> {
    match content_index(site.1.children@) {
        Some(k) => node_text(site.1.children@[k], b),
        None => seq![],
    }
}

/// The def/class name (empty for a module or a def without one).
pub open spec fn site_name(site: DocSite, b: Seq<u8>) -> Seq<char> {
    if site.3 == DocKind::Module {
        seq![]
    } else {
        match field_index(site.4.children@, FIELD_NAME@) {
            Some(k) => node_text(site.4.children@[k], b),
            None => seq![],
        }
    }
}

/// Test code: a function named `test*`/`Test*`, a class named `Test*`, a module in a test file.
pub open spec fn spec_is_test(kind: DocKind, name: Seq<char>, in_test_file: bool) -> bool {
    match kind {
        DocKind::Module => in_test_file,
        DocKind::Function => has_prefix(name, seq!['t', 'e', 's', 't']) || has_prefix(
            name,
            seq!['T', 'e', 's', 't'],
        ),
        DocKind::Class => has_prefix(name, seq!['T', 'e', 's', 't']),
    }
}

/// Up to 3 trimmed non-blank lines (each cut to 80 characters) among `lines[lo..hi]`, and the
/// number of non-blank lines there; rows past the last line count as blank.
pub open spec fn preview_upto(lines: Seq<Seq<char>>, lo: int, hi: int) -> (Seq<Seq<char>>, nat)
    decreases hi - lo,
{
    if hi <= lo {
        (seq![], 0)
    } else {
        let (p, c) = preview_upto(lines, lo, hi - 1);
        let row = hi - 1;
        if 0 <= row < lines.len() && trim(lines[row]).len() > 0 {
            (if p.len() < 3 {
                p.push(take_at_most(trim(lines[row]), 80))
            } else {
                p
            }, c + 1)
        } else {
            (p, c)
        }
    }
}

/// A docstring value is what extraction makes of a site.
pub open spec fn doc_matches(
    d: Docstring,
    site: DocSite,
    b: Seq<u8>,
    lines: Seq<Seq<char>>,
    in_test_file: bool,
) -> bool {
    let s = site.1;
    let ls = line_start_of(b, s.start as int);
    let q = first_quote_index(opening(s, b));
    let only = non_comment_count(site.0.children@) == 1;
    &&& d.start == s.start && d.end == s.end
    &&& d.start_line == s.start_row && d.end_line == s.end_row
    &&& d.indent@ == chars_between(b, ls, s.start as int)
    &&& d.own_line == all_ws(chars_between(b, ls, s.start as int))
    &&& d.code_after == !all_ws(chars_between(b, s.end as int, line_end_of(b, s.end as int)))
    &&& d.kind == site.3
    &&& d.name@ == site_name(site, b)
    &&& d.signature@ == if site.3 == DocKind::Module {
        seq![]
    } else {
        spec_header_signature(site.4, b)
    }
    &&& string_views(d.decorators@) == site.5
    &&& d.is_test == spec_is_test(site.3, site_name(site, b), in_test_file)
    &&& d.in_test_file == in_test_file
    &&& d.only_statement == only
    &&& d.prefix@ == opening(s, b).take(q)
    &&& d.quote@ == opening(s, b).skip(q)
    &&& d.text@ == spec_cleandoc(site_raw(site, b))
    &&& (string_views(d.body_preview@), d.body_lines as nat) == if site.3 != DocKind::Module
        && !only {
        preview_upto(lines, s.end_row + 1, site.2 + 1)
    } else {
        (seq![], 0)
    }
}

/// The docstrings are exactly the sites' values, in order.
pub open spec fn docs_match(
    docs: Seq<Docstring>,
    sites: Seq<DocSite>,
    b: Seq<u8>,
    lines: Seq<Seq<char>>,
    in_test_file: bool,
) -> bool {
    &&& docs.len() == sites.len()
    &&& forall|i: int|
        0 <= i < sites.len() ==> doc_matches(#[trigger] docs[i], sites[i], b, lines, in_test_file)
}

proof fn lemma_decode_len(bytes: Seq<u8>)
    requires
        valid_utf8(bytes),
    ensures
        decode_utf8(bytes).len() <= bytes.len(),
    decreases bytes.len(),
{
    if bytes.len() > 0 {
        assert(1 <= length_of_first_scalar(bytes) <= bytes.len());
        lemma_decode_len(pop_first_scalar(bytes));
    }
}

pub(crate) proof fn lemma_boundary(b: Seq<u8>, i: int)
    requires
        valid_utf8(b),
        boundary(b, i),
    ensures
        is_char_boundary(b, i),
{
    if i == b.len() {
        is_char_boundary_start_end_of_seq(b);
    } else {
        is_char_boundary_iff_not_is_continuation_byte(b, i);
    }
}

/// The characters of `src[a..c]`, for boundaries `a <= c`.
fn text_between(src: &str, a: usize, c: usize) -> (r: Vec<char>)
    requires
        a <= c <= src.spec_bytes().len(),
        boundary(src.spec_bytes(), a as int),
        boundary(src.spec_bytes(), c as int),
    ensures
        r@ == chars_between(src.spec_bytes(), a as int, c as int),
        r@.len() <= c - a,
{
    proof {
        encode_utf8_valid_utf8(src@);
        lemma_boundary(src.spec_bytes(), a as int);
        lemma_boundary(src.spec_bytes(), c as int);
    }
    let seg = substr(src, a, c);
    proof {
        lemma_decode_len(src.spec_bytes().subrange(a as int, c as int));
    }
    chars_of(seg)
}

/// The text of a node whose range lies on character boundaries of the source.
pub(crate) fn text_of_node(src: &str, n: &SyntaxNode) -> (r: Vec<char>)
    requires
        n.start <= n.end <= src.spec_bytes().len(),
        boundary(src.spec_bytes(), n.start as int),
        boundary(src.spec_bytes(), n.end as int),
    ensures
        r@ == node_text(*n, src.spec_bytes()),
{
    node_text_exec(src, n)
}

/// The characters of `src[a..c]`, for boundaries `a <= c`.
pub(crate) fn text_in(src: &str, a: usize, c: usize) -> (r: Vec<char>)
    requires
        a <= c <= src.spec_bytes().len(),
        boundary(src.spec_bytes(), a as int),
        boundary(src.spec_bytes(), c as int),
    ensures
        r@ == chars_between(src.spec_bytes(), a as int, c as int),
{
    text_between(src, a, c)
}

/// End of the line containing `pos`: its `'\n'`, or the length.
pub(crate) fn line_end_pos(src: &str, pos: usize) -> (r: usize)
    requires
        pos <= src.spec_bytes().len(),
    ensures
        r == line_end_of(src.spec_bytes(), pos as int),
        pos <= r <= src.spec_bytes().len(),
        r == src.spec_bytes().len() || src.spec_bytes()[r as int] == 10,
{
    line_end(src, pos)
}

/// The text of a well-placed node.
fn node_text_exec(src: &str, n: &SyntaxNode) -> (r: Vec<char>)
    requires
        n.start <= n.end <= src.spec_bytes().len(),
        boundary(src.spec_bytes(), n.start as int),
        boundary(src.spec_bytes(), n.end as int),
    ensures
        r@ == node_text(*n, src.spec_bytes()),
        r@.len() <= src.spec_bytes().len(),
{
    text_between(src, n.start, n.end)
}

proof fn lemma_first_non_comment(ns: Seq<SyntaxNode>, j: int)
    requires
        0 <= j <= ns.len(),
        forall|k: int| 0 <= k < j ==> kind_is(#[trigger] ns[k], KIND_COMMENT@),
        j == ns.len() || !kind_is(ns[j], KIND_COMMENT@),
    ensures
        first_non_comment(ns) == j,
    decreases j,
{
    if j > 0 {
        assert forall|k: int| 0 <= k < j - 1 implies kind_is(
            #[trigger] ns.drop_first()[k],
            KIND_COMMENT@,
        ) by {
            assert(ns.drop_first()[k] == ns[k + 1]);
        }
        if j < ns.len() {
            assert(ns.drop_first()[j - 1] == ns[j]);
        }
        lemma_first_non_comment(ns.drop_first(), j - 1);
    }
}

/// The first statement of `p` when it is a bare string expression (see `docstring_stmt`).
fn first_stmt_string(p: &SyntaxNode) -> (r: Option<usize>)
    ensures
        match (r, docstring_stmt(*p)) {
            (Some(i), Some(j)) => i == j && i < p.children@.len(),
            (None, None) => true,
            _ => false,
        },
{
    let mut i: usize = 0;
    while i < p.children.len() && is_kind(&p.children[i], KIND_COMMENT)
        invariant
            0 <= i <= p.children@.len(),
            forall|k: int| 0 <= k < i ==> kind_is(#[trigger] p.children@[k], KIND_COMMENT@),
        decreases p.children@.len() - i,
    {
        i += 1;
    }
    proof {
        lemma_first_non_comment(p.children@, i as int);
    }
    if i < p.children.len() && is_kind(&p.children[i], KIND_EXPRESSION) && p.children[i].children.len()
        == 1 && is_kind(&p.children[i].children[0], KIND_STRING) {
        Some(i)
    } else {
        None
    }
}

/// True if `parent`'s only non-comment child is the docstring statement itself.
fn only_stmt_of(p: &SyntaxNode) -> (r: bool)
    ensures
        r == (non_comment_count(p.children@) == 1),
{
    let mut count: usize = 0;
    let mut i: usize = 0;
    while i < p.children.len()
        invariant
            0 <= i <= p.children@.len(),
            count == non_comment_count(p.children@.take(i as int)),
            count <= i,
        decreases p.children@.len() - i,
    {
        assert(p.children@.take(i + 1).drop_last() =~= p.children@.take(i as int));
        if !is_kind(&p.children[i], KIND_COMMENT) {
            count += 1;
        }
        i += 1;
    }
    assert(p.children@.take(p.children@.len() as int) =~= p.children@);
    count == 1
}

/// Decorator texts (trimmed) among the children of a `decorated_definition`; empty for any
/// other node.
fn decorators_of(n: &SyntaxNode, src: &str) -> (r: Vec<String>)
    requires
        well_placed(*n, src.spec_bytes()),
    ensures
        string_views(r@) == child_decos(*n, src.spec_bytes()),
{
    let ghost b = src.spec_bytes();
    let mut out: Vec<String> = Vec::new();
    if !is_kind(n, KIND_DECORATED) {
        assert(string_views(out@) =~= seq![]);
        return out;
    }
    let mut i: usize = 0;
    while i < n.children.len()
        invariant
            0 <= i <= n.children@.len(),
            b == src.spec_bytes(),
            well_placed(*n, b),
            string_views(out@) == decorator_texts(n.children@.take(i as int), b),
        decreases n.children@.len() - i,
    {
        assert(n.children@.take(i + 1).drop_last() =~= n.children@.take(i as int));
        proof {
            lemma_placed(*n, b);
        }
        let c = &n.children[i];
        if is_kind(c, KIND_DECORATOR) {
            let t = trim_chars(&node_text_exec(src, c));
            let ghost before = out@;
            out.push(string_of(&t));
            assert(string_views(out@) =~= string_views(before).push(t@));
        }
        i += 1;
    }
    assert(n.children@.take(n.children@.len() as int) =~= n.children@);
    out
}

/// End of the line containing `pos`: its `'\n'`, or the length.
fn line_end(src: &str, pos: usize) -> (r: usize)
    requires
        pos <= src.spec_bytes().len(),
    ensures
        r == line_end_of(src.spec_bytes(), pos as int),
        pos <= r <= src.spec_bytes().len(),
        r == src.spec_bytes().len() || src.spec_bytes()[r as int] == 10,
{
    let bytes = src.as_bytes();
    let mut i = pos;
    while i < bytes.len() && bytes[i] != 10u8
        invariant
            pos <= i <= bytes@.len(),
            bytes@ == src.spec_bytes(),
            line_end_of(bytes@, pos as int) == line_end_of(bytes@, i as int),
        decreases bytes@.len() - i,
    {
        i += 1;
    }
    i
}

/// The def/class header, collapsed to one line and trimmed, up to and including the `:` that is a
/// direct child of the definition node (so a `:` nested in a type annotation or default value is
/// never mistaken for it).
fn header_signature(n: &SyntaxNode, src: &str) -> (r: Vec<char>)
    requires
        well_placed(*n, src.spec_bytes()),
    ensures
        r@ == spec_header_signature(*n, src.spec_bytes()),
{
    let mut end = n.start;
    let mut i: usize = 0;
    let mut found = false;
    proof {
        lemma_placed(*n, src.spec_bytes());
    }
    assert(n.children@.skip(0) =~= n.children@);
    while i < n.children.len() && !found
        invariant
            0 <= i <= n.children@.len(),
            found ==> i > 0 && colon_index(n.children@) == Some(i - 1) && end
                == n.children@[i - 1].end,
            !found ==> end == n.start && colon_index(n.children@) == match colon_index(
                n.children@.skip(i as int),
            ) {
                Some(k) => Some(k + i),
                None => None::<int>,
            },
        decreases n.children@.len() - i + if found { 0int } else { 1int },
    {
        let c = &n.children[i];
        assert(n.children@.skip(i as int)[0] == n.children@[i as int]);
        assert(n.children@.skip(i as int).drop_first() =~= n.children@.skip(i + 1));
        if !c.named && is_kind(c, KIND_COLON) {
            end = c.end;
            found = true;
        }
        i += 1;
    }
    proof {
        if !found {
            assert(n.children@.skip(n.children@.len() as int) =~= Seq::<SyntaxNode>::empty());
        }
    }
    let text = text_between(src, n.start, end);
    let ws = split_ws(&text);
    let sp = [' '];
    assert(sp@ =~= seq![' ']);
    let joined = join_chars(&ws, &sp);
    take_chars(&joined, 120)
}

/// The raw text between the quotes of a string node: its first `string_content` child.
fn raw_content(s: &SyntaxNode, src: &str) -> (r: Vec<char>)
    requires
        well_placed(*s, src.spec_bytes()),
    ensures
        r@ == match content_index(s.children@) {
            Some(k) => node_text(s.children@[k], src.spec_bytes()),
            None => seq![],
        },
        r@.len() <= src.spec_bytes().len(),
{
    let mut i: usize = 0;
    proof {
        lemma_placed(*s, src.spec_bytes());
    }
    assert(s.children@.skip(0) =~= s.children@);
    while i < s.children.len()
        invariant
            0 <= i <= s.children@.len(),
            well_placed(*s, src.spec_bytes()),
            content_index(s.children@) == match content_index(s.children@.skip(i as int)) {
                Some(k) => Some(k + i),
                None => None::<int>,
            },
        decreases s.children@.len() - i,
    {
        assert(s.children@.skip(i as int)[0] == s.children@[i as int]);
        assert(s.children@.skip(i as int).drop_first() =~= s.children@.skip(i + 1));
        if is_kind(&s.children[i], KIND_STRING_CONTENT) {
            proof {
                lemma_placed(*s, src.spec_bytes());
            }
            return node_text_exec(src, &s.children[i]);
        }
        i += 1;
    }
    assert(s.children@.skip(s.children@.len() as int) =~= Seq::<SyntaxNode>::empty());
    Vec::new()
}

/// Up to 3 trimmed, 80-char-capped non-blank source lines after the docstring's last line through
/// `block_end_line` (both inclusive of range, 0-based), plus a count of all non-blank lines in
/// that range.
fn body_preview_and_lines(lines: &Vec<Vec<char>>, doc_end_line: usize, block_end_line: usize) -> (r: (
    Vec<String>,
    usize,
))
    ensures
        (string_views(r.0@), r.1 as nat) == preview_upto(
            view_lines(lines@),
            doc_end_line + 1,
            block_end_line + 1,
        ),
{
    let ghost ls = view_lines(lines@);
    let mut preview: Vec<String> = Vec::new();
    let mut count: usize = 0;
    if doc_end_line >= block_end_line {
        assert(string_views(preview@) =~= seq![]);
        return (preview, count);
    }
    let mut row: usize = doc_end_line + 1;
    let mut more = true;
    while more
        invariant
            doc_end_line < row <= block_end_line,
            ls == view_lines(lines@),
            more ==> count <= row - doc_end_line - 1,
            more ==> (string_views(preview@), count as nat) == preview_upto(
                ls,
                doc_end_line + 1,
                row as int,
            ),
            !more ==> row == block_end_line && (string_views(preview@), count as nat)
                == preview_upto(ls, doc_end_line + 1, block_end_line + 1),
            count <= row - doc_end_line,
        decreases block_end_line - row + if more { 1int } else { 0int },
    {
        if row < lines.len() {
            let t = trim_chars(&lines[row]);
            assert(ls[row as int] == lines@[row as int]@);
            if t.len() > 0 {
                count += 1;
                if preview.len() < 3 {
                    let cut = take_chars(&t, 80);
                    let ghost before = preview@;
                    preview.push(string_of(&cut));
                    assert(string_views(preview@) =~= string_views(before).push(cut@));
                }
            }
        }
        if row == block_end_line {
            more = false;
        } else {
            row += 1;
        }
    }
    (preview, count)
}

/// The docstring a site makes, if the site qualifies.
fn make_docstring(
    string_node: &SyntaxNode,
    stmt_parent: &SyntaxNode,
    enclosing_end_line: usize,
    kind: DocKind,
    def: &SyntaxNode,
    decorators: &Vec<String>,
    src: &str,
    lines: &Vec<Vec<char>>,
    in_test_file: bool,
) -> (r: Option<Docstring>)
    requires
        well_placed(*string_node, src.spec_bytes()),
        well_placed(*def, src.spec_bytes()),
        fits_in_memory(src.spec_bytes().len()),
        kind == DocKind::Module ==> string_views(decorators@) == Seq::<Seq<char>>::empty(),
    ensures
        ({
            let site = (
                *stmt_parent,
                *string_node,
                enclosing_end_line as int,
                kind,
                *def,
                string_views(decorators@),
            );
            let b = src.spec_bytes();
            match r {
                Some(d) => qualifies(site, b) && doc_matches(
                    d,
                    site,
                    b,
                    view_lines(lines@),
                    in_test_file,
                ),
                None => !qualifies(site, b),
            }
        }),
{
    let ghost b = src.spec_bytes();
    if string_node.children.len() == 0 || !is_kind(&string_node.children[0], KIND_STRING_START) {
        return None;
    }
    proof {
        lemma_placed(*string_node, b);
        lemma_placed(*def, b);
    }
    let opening = node_text_exec(src, &string_node.children[0]);
    let (prefix, quote) = split_prefix_quote(&opening);
    if !is_docstring_prefix(&prefix) {
        return None;
    }
    let start = string_node.start;
    let end = string_node.end;
    let ls = line_start(src, start);
    proof {
        lemma_line_start_of(b, start as int);
        encode_utf8_valid_utf8(src@);
        if ls > 0 && ls < b.len() {
            lemma_boundary_after_ascii(b, ls as int);
            is_char_boundary_iff_not_is_continuation_byte(b, ls as int);
        }
    }
    let indent = text_between(src, ls, start);
    let own_line = is_blank(&indent);
    let le = line_end(src, end);
    proof {
        if le < b.len() {
            lemma_boundary_at_ascii(b, le as int);
            is_char_boundary_iff_not_is_continuation_byte(b, le as int);
        }
    }
    let code_after = !is_blank(&text_between(src, end, le));
    let raw = raw_content(string_node, src);
    let text = cleandoc(&raw);
    let only_statement = only_stmt_of(stmt_parent);
    let end_line = string_node.end_row;
    let is_def = kind == DocKind::Function || kind == DocKind::Class;
    let (body_preview, body_lines) = if is_def && !only_statement {
        body_preview_and_lines(lines, end_line, enclosing_end_line)
    } else {
        let empty: Vec<String> = Vec::new();
        assert(string_views(empty@) =~= seq![]);
        (empty, 0)
    };
    let (name, signature) = if kind == DocKind::Module {
        (Vec::new(), Vec::new())
    } else {
        let name = match child_by_field(def, FIELD_NAME) {
            Some(k) => node_text_exec(src, &def.children[k]),
            None => Vec::new(),
        };
        (name, header_signature(def, src))
    };
    let test_lower = ['t', 'e', 's', 't'];
    let test_upper = ['T', 'e', 's', 't'];
    assert(test_lower@ =~= seq!['t', 'e', 's', 't']);
    assert(test_upper@ =~= seq!['T', 'e', 's', 't']);
    let is_test = match kind {
        DocKind::Module => in_test_file,
        DocKind::Function => starts_with(&name, &test_lower) || starts_with(&name, &test_upper),
        DocKind::Class => starts_with(&name, &test_upper),
    };
    let mut decos: Vec<String> = Vec::new();
    let mut i: usize = 0;
    while i < decorators.len()
        invariant
            0 <= i <= decorators@.len(),
            string_views(decos@) == string_views(decorators@).take(i as int),
        decreases decorators@.len() - i,
    {
        let d = string_of(&chars_of(decorators[i].as_str()));
        let ghost before = decos@;
        decos.push(d);
        assert(string_views(decos@) =~= string_views(before).push(decorators@[i as int]@));
        assert(string_views(decorators@).take(i + 1) =~= string_views(decorators@).take(
            i as int,
        ).push(decorators@[i as int]@));
        i += 1;
    }
    assert(string_views(decorators@).take(decorators@.len() as int) =~= string_views(
        decorators@,
    ));
    Some(
        Docstring {
            start,
            end,
            start_line: string_node.start_row,
            end_line,
            indent: string_of(&indent),
            kind,
            name: string_of(&name),
            signature: string_of(&signature),
            decorators: decos,
            is_test,
            in_test_file,
            only_statement,
            own_line,
            code_after,
            prefix: string_of(&prefix),
            quote: string_of(&quote),
            text: string_of(&text),
            body_preview,
            body_lines,
        },
    )
}

/// Appends the docstrings of `node`'s subtree, in source order.
fn walk(
    node: &SyntaxNode,
    decorators: &Vec<String>,
    src: &str,
    lines: &Vec<Vec<char>>,
    in_test_file: bool,
    out: &mut Vec<Docstring>,
)
    requires
        well_placed(*node, src.spec_bytes()),
        fits_in_memory(src.spec_bytes().len()),
    ensures
        ({
            let b = src.spec_bytes();
            let sites = spec_sites(*node, string_views(decorators@), b);
            &&& final(out)@.len() == old(out)@.len() + sites.len()
            &&& final(out)@.take(old(out)@.len() as int) == old(out)@
            &&& docs_match(
                final(out)@.skip(old(out)@.len() as int),
                sites,
                b,
                view_lines(lines@),
                in_test_file,
            )
        }),
    decreases node,
{
    let ghost b = src.spec_bytes();
    let ghost decos = string_views(decorators@);
    let ghost start_len = out@.len();
    let ghost start_out = out@;
    proof {
        lemma_placed(*node, b);
    }
    // The node's own docstring.
    let mut site_found = false;
    if is_kind(node, KIND_MODULE) {
        if let Some(j) = first_stmt_string(node) {
            proof {
                lemma_placed(node.children@[j as int], b);
            }
            let none: Vec<String> = Vec::new();
            assert(string_views(none@) =~= Seq::<Seq<char>>::empty());
            match make_docstring(
                &node.children[j].children[0],
                node,
                0,
                DocKind::Module,
                node,
                &none,
                src,
                lines,
                in_test_file,
            ) {
                Some(d) => {
                    out.push(d);
                },
                None => {},
            }
        }
    } else if is_kind(node, KIND_FUNCTION) || is_kind(node, KIND_CLASS) {
        let kind = if is_kind(node, KIND_FUNCTION) {
            DocKind::Function
        } else {
            DocKind::Class
        };
        if let Some(bi) = child_by_field(node, FIELD_BODY) {
            let body = &node.children[bi];
            proof {
                lemma_placed(*body, b);
            }
            if let Some(j) = first_stmt_string(body) {
                proof {
                    lemma_placed(body.children@[j as int], b);
                }
                match make_docstring(
                    &body.children[j].children[0],
                    body,
                    node.end_row,
                    kind,
                    node,
                    decorators,
                    src,
                    lines,
                    in_test_file,
                ) {
                    Some(d) => {
                        out.push(d);
                    },
                    None => {},
                }
            }
        }
    }
    let ghost own: Seq<DocSite> = match own_site(*node, decos) {
        Some(s) => if qualifies(s, b) {
            seq![s]
        } else {
            seq![]
        },
        None => seq![],
    };
    assert(out@.len() == start_len + own.len());
    assert(out@.take(start_len as int) =~= start_out);
    assert(docs_match(out@.skip(start_len as int), own, b, view_lines(lines@), in_test_file));
    // The children's subtrees, with the decorators a `decorated_definition` hands down.
    let child_decorators = decorators_of(node, src);
    let ghost cd = child_decos(*node, b);
    assert(spec_sites(*node, decos, b) =~= own + children_sites(
        *node,
        node.children@.len() as int,
        cd,
        b,
    ));
    let mut i: usize = 0;
    while i < node.children.len()
        invariant
            0 <= i <= node.children@.len(),
            b == src.spec_bytes(),
            well_placed(*node, b),
            fits_in_memory(b.len()),
            string_views(child_decorators@) == cd,
            decos == string_views(decorators@),
            spec_sites(*node, decos, b) == own + children_sites(
                *node,
                node.children@.len() as int,
                cd,
                b,
            ),
            out@.len() == start_len + own.len() + children_sites(*node, i as int, cd, b).len(),
            out@.take(start_len as int) == start_out,
            docs_match(
                out@.skip(start_len as int),
                own + children_sites(*node, i as int, cd, b),
                b,
                view_lines(lines@),
                in_test_file,
            ),
        decreases node.children@.len() - i,
    {
        proof {
            lemma_placed(*node, b);
        }
        assert(decreases_to!(node => node.children));
        assert(decreases_to!(node.children => node.children@));
        assert(decreases_to!(node.children@ => node.children@[i as int]));
        let ghost before = out@;
        let ghost prev = own + children_sites(*node, i as int, cd, b);
        let ghost sub = spec_sites(node.children@[i as int], cd, b);
        walk(&node.children[i], &child_decorators, src, lines, in_test_file, out);
        proof {
            assert(children_sites(*node, i + 1, cd, b) == children_sites(*node, i as int, cd, b)
                + sub);
            let next = own + children_sites(*node, i + 1, cd, b);
            assert(next =~= prev + sub);
            assert(out@.take(start_len as int) =~= start_out) by {
                assert(out@.take(before.len() as int) == before);
                assert forall|k: int| 0 <= k < start_len implies out@[k] == start_out[k] by {
                    assert(out@.take(before.len() as int)[k] == before[k]);
                    assert(before.take(start_len as int)[k] == before[k]);
                }
            }
            let tail = out@.skip(start_len as int);
            assert forall|k: int| 0 <= k < next.len() implies doc_matches(
                #[trigger] tail[k],
                next[k],
                b,
                view_lines(lines@),
                in_test_file,
            ) by {
                if k < prev.len() {
                    assert(next[k] == prev[k]);
                    assert(tail[k] == before.skip(start_len as int)[k]) by {
                        assert(out@.take(before.len() as int)[start_len + k] == before[start_len
                            + k]);
                    }
                } else {
                    assert(next[k] == sub[k - prev.len()]);
                    assert(tail[k] == out@.skip(before.len() as int)[k - prev.len()]);
                }
            }
        }
        i += 1;
    }
    assert(own + children_sites(*node, node.children@.len() as int, cd, b) == spec_sites(
        *node,
        decos,
        b,
    ));
}

/// Every docstring in `src`, in source order (module, then every class/function's docstring,
/// nested ones included), none overlapping another. `Err` when the parser gives no tree or a
/// tree with syntax errors, or when its offsets do not fit the source or place the docstrings out
/// of order.
pub fn extract_docstrings(src: &str, in_test_file: bool) -> (r: Result<Vec<Docstring>, ExtractError>)
    requires
        fits_in_memory(src.spec_bytes().len()),
    ensures
        ({
            let b = src.spec_bytes();
            match parsed_tree(src@, Language::Python) {
                None => r == Err::<Vec<Docstring>, ExtractError>(ExtractError::NoTree),
                Some(t) => tree_docstrings_are(t, src, in_test_file, r),
            }
        }),
        r matches Ok(v) ==> forall|i: int|
            0 <= i < v@.len() ==> doc_wf(src.spec_bytes(), #[trigger] v@[i]),
{
    match parse_tree(src, Language::Python) {
        Some(t) => docstrings_of_tree(&t, src, in_test_file),
        None => Err(ExtractError::NoTree),
    }
}

/// What the docstrings of a parsed tree of `src` are: an error for a tree with syntax errors or
/// offsets that do not fit or put the sites out of order, else the docstring of every site, in
/// order.
pub open spec fn tree_docstrings_are(
    t: SyntaxNode,
    src: &str,
    in_test_file: bool,
    r: Result<Vec<Docstring>, ExtractError>,
) -> bool {
    let b = src.spec_bytes();
    if t.has_error {
        r == Err::<Vec<Docstring>, ExtractError>(ExtractError::SyntaxErrors)
    } else if !well_placed(t, b) {
        r == Err::<Vec<Docstring>, ExtractError>(ExtractError::BadOffsets)
    } else {
        let sites = spec_sites(t, seq![], b);
        match r {
            Ok(v) => sites_placed(sites, b) && docs_match(
                v@,
                sites,
                b,
                spec_lines(src@),
                in_test_file,
            ) && docs_in_order(v@),
            Err(e) => e == ExtractError::BadOffsets && !sites_placed(sites, b),
        }
    }
}

/// Every site's string covers at least one byte, within the source and between boundaries, and
/// ends before any later site's string starts.
pub open spec fn sites_placed(sites: Seq<DocSite>, b: Seq<u8>) -> bool {
    &&& forall|i: int|
        0 <= i < sites.len() ==> {
            let s = (#[trigger] sites[i]).1;
            &&& s.start < s.end <= b.len()
            &&& boundary(b, s.start as int)
            &&& boundary(b, s.end as int)
        }
    &&& sites_in_order(sites)
}

/// Every site's string ends before any later one's starts.
#[verifier::opaque]
pub open spec fn sites_in_order(sites: Seq<DocSite>) -> bool {
    forall|j: int, k: int| #![trigger sites[j], sites[k]]
        0 <= j < k < sites.len() ==> sites[j].1.end <= sites[k].1.start
}

/// Every docstring ends before any later one starts.
#[verifier::opaque]
pub open spec fn docs_in_order(ds: Seq<Docstring>) -> bool {
    forall|j: int, k: int| #![trigger ds[j], ds[k]] 0 <= j < k < ds.len() ==> ds[j].end <= ds[k].start
}

/// The docstrings of a parsed tree of `src`, in source order.
pub fn docstrings_of_tree(tree: &SyntaxNode, src: &str, in_test_file: bool) -> (r: Result<
    Vec<Docstring>,
    ExtractError,
>)
    requires
        fits_in_memory(src.spec_bytes().len()),
    ensures
        tree_docstrings_are(*tree, src, in_test_file, r),
        r matches Ok(v) ==> forall|i: int|
            0 <= i < v@.len() ==> doc_wf(src.spec_bytes(), #[trigger] v@[i]),
{
    if tree.has_error {
        return Err(ExtractError::SyntaxErrors);
    }
    if !check_placement(tree, src.as_bytes()) {
        return Err(ExtractError::BadOffsets);
    }
    let lines = crate::text::lines(&chars_of(src));
    let none: Vec<String> = Vec::new();
    assert(string_views(none@) =~= Seq::<Seq<char>>::empty());
    let mut out: Vec<Docstring> = Vec::new();
    walk(tree, &none, src, &lines, in_test_file, &mut out);
    assert(out@.skip(0) =~= out@);
    let ghost b = src.spec_bytes();
    let ghost sites = spec_sites(*tree, seq![], b);
    let bytes = src.as_bytes();
    let mut i: usize = 0;
    while i < out.len()
        invariant
            0 <= i <= out@.len(),
            bytes@ == b,
            b == src.spec_bytes(),
            !tree.has_error,
            well_placed(*tree, b),
            sites == spec_sites(*tree, seq![], b),
            docs_match(out@, sites, b, spec_lines(src@), in_test_file),
            forall|k: int|
                0 <= k < i ==> {
                    let s = (#[trigger] sites[k]).1;
                    &&& s.start < s.end <= b.len()
                    &&& boundary(b, s.start as int)
                    &&& boundary(b, s.end as int)
                },
            forall|j: int, k: int| #![trigger sites[j], sites[k]]
                0 <= j < k < i ==> sites[j].1.end <= sites[k].1.start,
        decreases out@.len() - i,
    {
        assert(doc_matches(out@[i as int], sites[i as int], b, spec_lines(src@), in_test_file));
        let d = &out[i];
        if !(d.start < d.end && d.end <= bytes.len() && boundary_exec(bytes, d.start)
            && boundary_exec(bytes, d.end)) {
            assert(!sites_placed(sites, b)) by {
                let s = sites[i as int].1;
                assert(!(s.start < s.end <= b.len() && boundary(b, s.start as int) && boundary(
                    b,
                    s.end as int,
                )));
            }
            return Err(ExtractError::BadOffsets);
        }
        if i > 0 && out[i - 1].end > out[i].start {
            assert(doc_matches(out@[i - 1], sites[i - 1], b, spec_lines(src@), in_test_file));
            assert(!sites_placed(sites, b)) by {
                reveal(sites_in_order);
                assert(!(sites[i - 1].1.end <= sites[i as int].1.start));
            }
            return Err(ExtractError::BadOffsets);
        }
        proof {
            if i > 0 {
                assert(doc_matches(out@[i - 1], sites[i - 1], b, spec_lines(src@), in_test_file));
            }
            assert forall|j: int, k: int| #![trigger sites[j], sites[k]] 0 <= j < k < i + 1 implies sites[j].1.end
                <= sites[k].1.start by {
                if k == i && j < i - 1 {
                    assert(sites[j].1.end <= sites[i - 1].1.start);
                }
            }
        }
        i += 1;
    }
    proof {
        reveal(sites_in_order);
        reveal(docs_in_order);
        assert forall|j: int, k: int| #![trigger out@[j], out@[k]] 0 <= j < k < out@.len() implies out@[j].end
            <= out@[k].start by {
            assert(doc_matches(out@[j], sites[j], b, spec_lines(src@), in_test_file));
            assert(doc_matches(out@[k], sites[k], b, spec_lines(src@), in_test_file));
            assert(sites[j].1.end <= sites[k].1.start);
        }
    }
    proof {
        encode_utf8_valid_utf8(src@);
        assert forall|k: int| 0 <= k < out@.len() implies doc_wf(b, #[trigger] out@[k]) by {
            assert(doc_matches(out@[k], sites[k], b, spec_lines(src@), in_test_file));
            let s = sites[k].1;
            lemma_boundary(b, s.start as int);
            lemma_boundary(b, s.end as int);
        }
    }
    Ok(out)
}

/// A docstring as extraction makes it: a non-empty range between character boundaries, its
/// indentation is the text from its line start to its start, `own_line` says that indentation is
/// all whitespace, and `code_after` says the rest of its last line is not.
pub open spec fn doc_wf(b: Seq<u8>, doc: Docstring) -> bool {
    &&& doc.start < doc.end <= b.len()
    &&& is_char_boundary(b, doc.start as int)
    &&& is_char_boundary(b, doc.end as int)
    &&& doc.indent@ == chars_between(b, line_start_of(b, doc.start as int), doc.start as int)
    &&& doc.own_line == all_ws(doc.indent@)
    &&& doc.code_after == !all_ws(chars_between(b, doc.end as int, line_end_of(b, doc.end as int)))
}

pub(crate) proof fn lemma_line_end_of(b: Seq<u8>, pos: int)
    requires
        0 <= pos <= b.len(),
    ensures
        pos <= line_end_of(b, pos) <= b.len(),
        line_end_of(b, pos) < b.len() ==> b[line_end_of(b, pos)] == 10,
        forall|k: int| pos <= k < line_end_of(b, pos) ==> b[k] != 10,
        line_end_incl_of(b, pos) == if line_end_of(b, pos) < b.len() {
            line_end_of(b, pos) + 1
        } else {
            b.len() as int
        },
    decreases b.len() - pos,
{
    if pos < b.len() && b[pos] != 10 {
        lemma_line_end_of(b, pos + 1);
    }
}

proof fn lemma_skip_blank_lines(b: Seq<u8>, e: int)
    requires
        valid_utf8(b),
        0 <= e <= b.len(),
        e == 0 || e == b.len() || b[e - 1] == 10,
    ensures
        e <= skip_blank_lines(b, e) <= b.len(),
        is_char_boundary(b, skip_blank_lines(b, e)),
        all_ws(chars_between(b, e, skip_blank_lines(b, e))),
    decreases b.len() - e,
{
    let n = line_end_incl_of(b, e);
    lemma_line_end_incl_of(b, e);
    assert(chars_between(b, e, e) =~= Seq::<char>::empty());
    is_char_boundary_start_end_of_seq(b);
    if 0 < e < b.len() {
        lemma_boundary_after_ascii(b, e);
    }
    if 0 <= e < b.len() && blank_line_at(b, e) && n <= b.len() {
        lemma_skip_blank_lines(b, n);
        if n < b.len() {
            lemma_boundary_after_ascii(b, n);
        }
        lemma_chars_between_split(b, e, n, skip_blank_lines(b, n));
        lemma_all_ws_concat(chars_between(b, e, n), chars_between(b, n, skip_blank_lines(b, n)));
    }
}

/// Deleting a well-formed docstring never touches code: a sole statement becomes `pass`; an
/// own-line one loses only its own range, the whitespace before it on its line (or, at the end
/// of a file without a final newline, the line break before it too), and whitespace after it
/// (the rest of its line and the blank lines that follow); any other docstring is left alone.
pub proof fn law_doc_delete_removes_only_docstring_and_whitespace(b: Seq<u8>, doc: Docstring)
    requires
        valid_utf8(b),
        doc_wf(b, doc),
    ensures
        doc_delete_ok(b, doc),
        match spec_doc_delete_edit(b, doc) {
            Some((s, e, r)) => if doc.only_statement {
                s == doc.start && e == doc.end && r == seq!['p', 'a', 's', 's']
            } else {
                &&& doc.own_line && !doc.code_after
                &&& 0 <= s <= doc.start
                &&& doc.end <= e <= b.len()
                &&& is_char_boundary(b, s)
                &&& is_char_boundary(b, e)
                &&& all_ws(chars_between(b, s, doc.start as int))
                &&& all_ws(chars_between(b, doc.end as int, e))
                &&& r.len() == 0
            },
            None => !doc.only_statement && (!doc.own_line || doc.code_after),
        },
{
    let st = doc.start as int;
    let en = doc.end as int;
    let ls = line_start_of(b, st);
    lemma_line_start_of(b, st);
    is_char_boundary_start_end_of_seq(b);
    if 0 < ls < b.len() {
        lemma_boundary_after_ascii(b, ls);
    }
    crate::utf8::lemma_chars_between_bytes(b, ls, st);
    assert(doc_indent_len(doc) == st - ls);
    if !doc.only_statement && doc.own_line && !doc.code_after {
        let le = line_end_of(b, en);
        lemma_line_end_of(b, en);
        assert(doc_last_pos(doc) == en - 1);
        let e0 = line_end_incl_of(b, en - 1);
        lemma_line_end_incl_of(b, en - 1);
        assert(e0 == if b[en - 1] == 10 { en } else { line_end_incl_of(b, en) });
        assert(chars_between(b, en, en) =~= Seq::<char>::empty());
        if le < b.len() {
            lemma_boundary_at_ascii(b, le);
            lemma_boundary_after_ascii(b, le + 1);
            let nl = b.subrange(le, le + 1);
            assert forall|i: int| 0 <= i < nl.len() implies #[trigger] nl[i] < 0x80 by {
                assert(nl[i] == b[le]);
            }
            lemma_decode_ascii(nl);
            assert(chars_between(b, le, le + 1)[0] as u32 == 10);
            lemma_chars_between_split(b, en, le, le + 1);
            lemma_all_ws_concat(chars_between(b, en, le), chars_between(b, le, le + 1));
        }
        assert(all_ws(chars_between(b, en, e0)));
        if e0 < b.len() {
            lemma_boundary_after_ascii(b, e0);
        }
        if unterminated_eof(b, e0) {
            let s = before_terminator(b, ls);
            if s < ls {
                lemma_boundary_at_ascii(b, s);
                let head = b.subrange(s, ls);
                assert forall|i: int| 0 <= i < head.len() implies #[trigger] head[i] < 0x80 by {
                    assert(head[i] == b[s + i]);
                }
                lemma_decode_ascii(head);
                let d = chars_between(b, s, ls);
                assert forall|i: int| 0 <= i < d.len() implies #[trigger] spec_is_ws(d[i]) by {
                    assert(head[i] == b[s + i]);
                    assert(d[i] as u32 == head[i] as u32);
                }
                lemma_chars_between_split(b, s, ls, st);
                lemma_all_ws_concat(chars_between(b, s, ls), chars_between(b, ls, st));
            }
        } else {
            lemma_skip_blank_lines(b, e0);
            lemma_chars_between_split(b, en, e0, skip_blank_lines(b, e0));
            lemma_all_ws_concat(chars_between(b, en, e0), chars_between(b, e0, skip_blank_lines(b, e0)));
        }
    }
}


proof fn lemma_expand_no_tab(s: Seq<char>, tab: nat)
    requires
        !s.contains('\t'),
    ensures
        spec_expandtabs(s, tab) == s,
    decreases s.len(),
{
    if s.len() > 0 {
        let init = s.drop_last();
        assert(!init.contains('\t')) by {
            if init.contains('\t') {
                let i = choose|i: int| 0 <= i < init.len() && init[i] == '\t';
                assert(s[i] == '\t');
            }
        }
        lemma_expand_no_tab(init, tab);
        assert(s[s.len() - 1] == s.last());
        assert(init.push(s.last()) =~= s);
    }
}

/// Scanning on after a separator starts a fresh piece: the pieces of the rest are appended.
proof fn lemma_split_scan_after_sep(p: Seq<char>, b: Seq<char>, sep: char)
    requires
        split_scan(p, sep).1 == Seq::<char>::empty(),
    ensures
        split_scan(p + b, sep) == (split_scan(p, sep).0 + split_scan(b, sep).0, split_scan(b, sep).1),
    decreases b.len(),
{
    if b.len() == 0 {
        assert(p + b =~= p);
        assert(split_scan(p, sep).0 + split_scan(b, sep).0 =~= split_scan(p, sep).0);
    } else {
        assert((p + b).drop_last() =~= p + b.drop_last());
        lemma_split_scan_after_sep(p, b.drop_last(), sep);
        let d = split_scan(p, sep).0;
        let db = split_scan(b.drop_last(), sep).0;
        let cb = split_scan(b.drop_last(), sep).1;
        if b.last() == sep {
            assert((d + db).push(cb) =~= d + db.push(cb));
        }
    }
}

/// Splitting `x`, a separator, then `y` gives the pieces of `x` followed by those of `y`.
proof fn lemma_split_on_concat(x: Seq<char>, y: Seq<char>, sep: char)
    ensures
        split_on(x + seq![sep] + y, sep) == split_on(x, sep) + split_on(y, sep),
{
    let p = x + seq![sep];
    assert(p.drop_last() =~= x);
    assert(p.last() == sep);
    lemma_split_scan_after_sep(p, y, sep);
    let (dx, cx) = split_scan(x, sep);
    let (dy, cy) = split_scan(y, sep);
    assert((dx.push(cx) + dy).push(cy) =~= dx.push(cx) + dy.push(cy));
}

proof fn lemma_split_scan_free(s: Seq<char>, sep: char)
    ensures
        !split_scan(s, sep).1.contains(sep),
        forall|i: int|
            0 <= i < split_scan(s, sep).0.len() ==> !(#[trigger] split_scan(s, sep).0[i]).contains(
                sep,
            ),
        !s.contains(sep) ==> split_scan(s, sep) == (Seq::<Seq<char>>::empty(), s),
    decreases s.len(),
{
    if s.len() > 0 {
        lemma_split_scan_free(s.drop_last(), sep);
        let (d, c) = split_scan(s.drop_last(), sep);
        if s.last() != sep {
            assert(!c.push(s.last()).contains(sep)) by {
                if c.push(s.last()).contains(sep) {
                    let i = choose|i: int| 0 <= i < c.len() + 1 && c.push(s.last())[i] == sep;
                    if i < c.len() {
                        assert(c[i] == sep);
                    }
                }
            }
        } else {
            assert forall|i: int| 0 <= i < d.len() + 1 implies !(#[trigger] d.push(c)[i]).contains(
                sep,
            ) by {
                if i < d.len() {
                    assert(d.push(c)[i] == d[i]);
                }
            }
        }
        if !s.contains(sep) {
            assert(!s.drop_last().contains(sep)) by {
                if s.drop_last().contains(sep) {
                    let i = choose|i: int| 0 <= i < s.len() - 1 && s.drop_last()[i] == sep;
                    assert(s[i] == sep);
                }
            }
            assert(s[s.len() - 1] == s.last());
            assert(s.drop_last().push(s.last()) =~= s);
        }
    } else {
        assert(s =~= Seq::<char>::empty());
    }
}

/// The pieces of a split hold no separator; a text without one is a single piece.
proof fn lemma_split_on_free(s: Seq<char>, sep: char)
    ensures
        forall|i: int| 0 <= i < split_on(s, sep).len() ==> !(#[trigger] split_on(s, sep)[i]).contains(sep),
        !s.contains(sep) ==> split_on(s, sep) == seq![s],
{
    lemma_split_scan_free(s, sep);
    let (d, c) = split_scan(s, sep);
    assert forall|i: int| 0 <= i < split_on(s, sep).len() implies !(#[trigger] split_on(s, sep)[i]).contains(
        sep,
    ) by {
        if i < d.len() {
            assert(split_on(s, sep)[i] == d[i]);
        }
    }
    if !s.contains(sep) {
        assert(Seq::<Seq<char>>::empty().push(s) =~= seq![s]);
    }
}

/// Joining the pieces of a split with the separator gives the text back.
proof fn lemma_join_split(s: Seq<char>, sep: char)
    ensures
        join(split_on(s, sep), seq![sep]) == s,
    decreases s.len(),
{
    if s.len() > 0 {
        let init = s.drop_last();
        lemma_join_split(init, sep);
        let (d, c) = split_scan(init, sep);
        if s.last() == sep {
            assert(d.push(c).push(Seq::<char>::empty()).drop_last() =~= d.push(c));
            assert(join(d.push(c).push(Seq::<char>::empty()), seq![sep]) =~= init + seq![sep]);
        } else if d.len() == 0 {
            assert(d.push(c.push(s.last())) =~= seq![c.push(s.last())]);
            assert(d.push(c) =~= seq![c]);
        } else {
            assert(d.push(c.push(s.last())).drop_last() =~= d);
            assert(d.push(c).drop_last() =~= d);
            assert(join(d, seq![sep]) + seq![sep] + c.push(s.last()) =~= (join(d, seq![sep])
                + seq![sep] + c).push(s.last()));
        }
        assert(init.push(s.last()) =~= s);
    } else {
        assert(s =~= Seq::<char>::empty());
    }
}


proof fn lemma_contains_as_infix(s: Seq<char>, c: char)
    ensures
        s.contains(c) == has_infix(s, seq![c]),
{
    if s.contains(c) {
        let i = choose|i: int| 0 <= i < s.len() && s[i] == c;
        assert(s.subrange(i, i + 1) =~= seq![c]);
        assert(occurs_at(s, seq![c], i));
    }
    if has_infix(s, seq![c]) {
        let k = choose|k: int| occurs_at(s, seq![c], k);
        assert(s.subrange(k, k + 1)[0] == s[k]);
    }
}

proof fn lemma_concat_free(a: Seq<char>, b: Seq<char>, c: char)
    requires
        !a.contains(c),
        !b.contains(c),
    ensures
        !(a + b).contains(c),
{
    if (a + b).contains(c) {
        let i = choose|i: int| 0 <= i < a.len() + b.len() && (a + b)[i] == c;
        if i < a.len() {
            assert(a[i] == c);
        } else {
            assert(b[i - a.len()] == c);
        }
    }
}

proof fn lemma_continuation_free(rs: Seq<Seq<char>>, indent: Seq<char>, c: char)
    requires
        c != '\n',
        !indent.contains(c),
        forall|i: int| 0 <= i < rs.len() ==> !(#[trigger] rs[i]).contains(c),
    ensures
        !continuation_lines(rs, indent).contains(c),
    decreases rs.len(),
{
    if rs.len() > 0 {
        let init = rs.drop_last();
        assert forall|i: int| 0 <= i < init.len() implies !(#[trigger] init[i]).contains(c) by {
            assert(init[i] == rs[i]);
        }
        lemma_continuation_free(init, indent, c);
        let l = rs.last();
        assert(!l.contains(c)) by {
            assert(l == rs[rs.len() - 1]);
        }
        assert(!seq!['\n'].contains(c)) by {
            if seq!['\n'].contains(c) {
                let i = choose|i: int| 0 <= i < 1 && seq!['\n'][i] == c;
                assert(seq!['\n'][i] == '\n');
            }
        }
        if !all_ws(l) {
            lemma_concat_free(indent, l, c);
            lemma_concat_free(indent + l, seq!['\n'], c);
        }
        lemma_concat_free(continuation_lines(init, indent), continuation_line(l, indent), c);
    }
}

/// The line a continuation line reads back as once split at line breaks: empty for a blank
/// line, else the indentation followed by the line.
pub open spec fn continuation_piece(l: Seq<char>, indent: Seq<char>) -> Seq<char> {
    if all_ws(l) {
        seq![]
    } else {
        indent + l
    }
}

proof fn lemma_split_continuation(rs: Seq<Seq<char>>, indent: Seq<char>, y: Seq<char>)
    requires
        !indent.contains('\n'),
        forall|i: int| 0 <= i < rs.len() ==> !(#[trigger] rs[i]).contains('\n'),
    ensures
        split_on(continuation_lines(rs, indent) + y, '\n') == rs.map_values(
            |l: Seq<char>| continuation_piece(l, indent),
        ) + split_on(y, '\n'),
    decreases rs.len(),
{
    let f = |l: Seq<char>| continuation_piece(l, indent);
    if rs.len() == 0 {
        assert(continuation_lines(rs, indent) + y =~= y);
        assert(rs.map_values(f) + split_on(y, '\n') =~= split_on(y, '\n'));
    } else {
        let init = rs.drop_last();
        let l = rs.last();
        let piece = continuation_piece(l, indent);
        assert forall|i: int| 0 <= i < init.len() implies !(#[trigger] init[i]).contains('\n') by {
            assert(init[i] == rs[i]);
        }
        assert(!l.contains('\n')) by {
            assert(l == rs[rs.len() - 1]);
        }
        assert(continuation_line(l, indent) =~= piece + seq!['\n']);
        assert(continuation_lines(rs, indent) + y =~= continuation_lines(init, indent) + (piece
            + seq!['\n'] + y));
        lemma_split_continuation(init, indent, piece + seq!['\n'] + y);
        lemma_split_on_concat(piece, y, '\n');
        if !all_ws(l) {
            lemma_concat_free(indent, l, '\n');
        }
        lemma_split_on_free(piece, '\n');
        assert(rs.map_values(f) =~= init.map_values(f).push(piece));
        assert(init.map_values(f) + (seq![piece] + split_on(y, '\n')) =~= rs.map_values(f)
            + split_on(y, '\n'));
    }
}

proof fn lemma_margin_uniform(ls: Seq<Seq<char>>, w: nat)
    requires
        forall|i: int| 0 <= i < ls.len() ==> all_ws(#[trigger] ls[i]) || ws_prefix_len(ls[i]) == w,
    ensures
        margin_of(ls) matches Some(m) ==> m == w,
        ls.len() > 0 && !all_ws(ls.last()) ==> margin_of(ls) == Some(w),
    decreases ls.len(),
{
    if ls.len() > 0 {
        let init = ls.drop_last();
        assert forall|i: int| 0 <= i < init.len() implies all_ws(#[trigger] init[i])
            || ws_prefix_len(init[i]) == w by {
            assert(init[i] == ls[i]);
        }
        lemma_margin_uniform(init, w);
        assert(ls.last() == ls[ls.len() - 1]);
    }
}

/// A line that is its own trim starts and ends with a non-whitespace character, or is empty.
proof fn lemma_trimmed_edges(l: Seq<char>)
    requires
        trim(l) == l,
    ensures
        l.len() > 0 ==> !spec_is_ws(l[0]) && !spec_is_ws(l.last()),
        all_ws(l) ==> l.len() == 0,
        trim_start(l) == l,
        trim_end_set(l, seq!['\r']) == l,
{
    crate::text::lemma_trim_idempotent(l);
    crate::text::lemma_ws_prefix_len_char(l, 0);
    assert(l.skip(0) =~= l);
    if l.len() > 0 {
        assert(spec_is_ws('\r'));
        assert(!seq!['\r'].contains(l[l.len() - 1])) by {
            if seq!['\r'].contains(l[l.len() - 1]) {
                let i = choose|i: int| 0 <= i < 1 && seq!['\r'][i] == l[l.len() - 1];
                assert(seq!['\r'][i] == '\r');
            }
        }
        if all_ws(l) {
            assert(spec_is_ws(l[0]));
        }
    }
    crate::text::lemma_run_suffix_len_char(l, seq!['\r'], l.len() as int);
    assert(l.take(l.len() as int) =~= l);
}

/// Text that reads back unchanged from a rewritten docstring: no tabs, no line with whitespace
/// around it, and neither the first nor the last line empty.
pub open spec fn tidy_text(t: Seq<char>) -> bool {
    let ls = split_on(t, '\n');
    &&& !t.contains('\t')
    &&& forall|i: int| 0 <= i < ls.len() ==> trim(#[trigger] ls[i]) == ls[i]
    &&& ls[0].len() > 0
    &&& ls.last().len() > 0
}

/// The text of a replacement literal: what stands between its opening and its closing quote.
pub open spec fn replacement_text(doc: Docstring, new_text: Seq<char>) -> Seq<char> {
    let r = spec_replacement(doc, new_text);
    r.subrange((doc.prefix@.len() + doc.quote@.len()) as int, r.len() - doc.quote@.len())
}

/// What `spec_replacement` writes between the quotes, for a given indentation.
pub open spec fn literal_body(t: Seq<char>, indent: Seq<char>) -> Seq<char> {
    let lines = split_on(t, '\n');
    if lines.len() == 1 {
        t
    } else {
        lines[0] + seq!['\n'] + continuation_lines(lines.drop_first(), indent) + indent
    }
}

proof fn lemma_body_reads_back(t: Seq<char>, indent: Seq<char>)
    requires
        tidy_text(t),
        forall|i: int| 0 <= i < indent.len() ==> indent[i] == ' ',
    ensures
        spec_expandtabs(literal_body(t, indent), 8) == literal_body(t, indent),
        spec_cleandoc(literal_body(t, indent)) == t,
{
    let ls = split_on(t, '\n');
    let body = literal_body(t, indent);
    lemma_join_split(t, '\n');
    lemma_split_on_free(t, '\n');
    lemma_contains_as_infix(t, '\t');
    lemma_split_no_quote(t, '\n', seq!['\t']);
    assert forall|i: int| 0 <= i < ls.len() implies !(#[trigger] ls[i]).contains('\t') by {
        lemma_contains_as_infix(ls[i], '\t');
    }
    assert(spec_is_ws(' '));
    assert(!indent.contains('\n') && !indent.contains('\t')) by {
        if indent.contains('\n') {
            let i = choose|i: int| 0 <= i < indent.len() && indent[i] == '\n';
            assert(indent[i] == ' ');
        }
        if indent.contains('\t') {
            let i = choose|i: int| 0 <= i < indent.len() && indent[i] == '\t';
            assert(indent[i] == ' ');
        }
    }
    lemma_trimmed_edges(ls[0]);
    if ls.len() == 1 {
        assert(t == ls[0]);
        lemma_expand_no_tab(t, 8);
        assert(doc_raw_lines(t) =~= seq![t]);
        assert(cleaned_lines(t) =~= seq![t]);
        lemma_empty_suffix_len(seq![t], 1);
        lemma_empty_prefix_len(seq![t], 0);
        assert(trim_empty_edges(seq![t]) =~= seq![t]);
    } else {
        let m = ls.len() as int;
        let rest = ls.drop_first();
        let cont = continuation_lines(rest, indent);
        assert(body =~= ls[0] + seq!['\n'] + (cont + indent));
        assert(body =~= ls[0] + seq!['\n'] + cont + indent);
        assert forall|i: int| 0 <= i < rest.len() implies !(#[trigger] rest[i]).contains('\n')
            && !rest[i].contains('\t') by {
            assert(rest[i] == ls[i + 1]);
        }
        // No tabs anywhere, so tab expansion changes nothing.
        lemma_continuation_free(rest, indent, '\t');
        assert(!seq!['\n'].contains('\t')) by {
            if seq!['\n'].contains('\t') {
                let i = choose|i: int| 0 <= i < 1 && seq!['\n'][i] == '\t';
                assert(seq!['\n'][i] == '\n');
            }
        }
        lemma_concat_free(ls[0], seq!['\n'], '\t');
        lemma_concat_free(cont, indent, '\t');
        lemma_concat_free(ls[0] + seq!['\n'], cont + indent, '\t');
        lemma_expand_no_tab(body, 8);
        // The lines of the literal's text.
        let f = |l: Seq<char>| continuation_piece(l, indent);
        let xs = rest.map_values(f);
        lemma_split_on_concat(ls[0], cont + indent, '\n');
        lemma_split_continuation(rest, indent, indent);
        lemma_split_on_free(ls[0], '\n');
        lemma_split_on_free(indent, '\n');
        let bl = seq![ls[0]] + xs + seq![indent];
        assert(split_on(body, '\n') =~= bl);
        let w = indent.len();
        assert forall|i: int| 0 <= i < rest.len() implies {
            &&& trim(#[trigger] rest[i]) == rest[i]
            &&& (all_ws(xs[i]) || ws_prefix_len(xs[i]) == w)
            &&& (all_ws(rest[i]) ==> xs[i] == Seq::<char>::empty() && rest[i].len() == 0)
            &&& (!all_ws(rest[i]) ==> xs[i] == indent + rest[i] && rest[i].len() > 0)
            &&& (xs[i].len() == 0 || !spec_is_ws(xs[i].last()))
        } by {
            assert(rest[i] == ls[i + 1]);
            lemma_trimmed_edges(rest[i]);
            if !all_ws(rest[i]) {
                let x = indent + rest[i];
                assert forall|k: int| 0 <= k < w implies #[trigger] spec_is_ws(x[k]) by {
                    assert(x[k] == indent[k]);
                }
                assert(x[w as int] == rest[i][0]);
                crate::text::lemma_ws_prefix_len_char(x, w as int);
                assert(x.last() == rest[i].last());
            }
        }
        // Every line ends without a carriage return, so dropping one changes nothing.
        assert(doc_raw_lines(body) =~= bl) by {
            assert forall|k: int| 0 <= k < bl.len() implies trim_end_set(#[trigger] bl[k], seq!['\r'])
                == bl[k] by {
                if k == 0 {
                } else if k <= xs.len() {
                    assert(bl[k] == xs[k - 1]);
                    let l = xs[k - 1];
                    if l.len() > 0 {
                        assert(!seq!['\r'].contains(l[l.len() - 1])) by {
                            assert(spec_is_ws('\r'));
                            if seq!['\r'].contains(l[l.len() - 1]) {
                                let j = choose|j: int| 0 <= j < 1 && seq!['\r'][j] == l[l.len() - 1];
                                assert(seq!['\r'][j] == '\r');
                            }
                        }
                    }
                    crate::text::lemma_run_suffix_len_char(l, seq!['\r'], l.len() as int);
                    assert(l.take(l.len() as int) =~= l);
                } else {
                    assert(bl[k] == indent);
                    if indent.len() > 0 {
                        assert(!seq!['\r'].contains(indent[indent.len() - 1])) by {
                            if seq!['\r'].contains(indent[indent.len() - 1]) {
                                let j = choose|j: int| 0 <= j < 1 && seq!['\r'][j]
                                    == indent[indent.len() - 1];
                                assert(seq!['\r'][j] == '\r');
                            }
                        }
                    }
                    crate::text::lemma_run_suffix_len_char(indent, seq!['\r'], indent.len() as int);
                    assert(indent.take(indent.len() as int) =~= indent);
                }
            }
        }
        // The margin is the indentation.
        assert(all_ws(indent));
        assert(bl.drop_first() =~= xs + seq![indent]);
        assert((xs + seq![indent]).drop_last() =~= xs);
        lemma_margin_uniform(xs, w);
        assert(xs.last() == xs[xs.len() - 1]);
        assert(rest.last() == ls.last());
        assert(!all_ws(xs.last())) by {
            let l = rest[rest.len() - 1];
            lemma_trimmed_edges(l);
            assert(xs.last() == indent + l);
            assert((indent + l)[w as int] == l[0]);
        }
        assert(margin_of(bl.drop_first()) == Some(w));
        // Dedenting gives the lines back, and one empty line for the closing quote's.
        let cl = cleaned_lines(body);
        assert(cl =~= ls.push(Seq::<char>::empty())) by {
            assert forall|k: int| 0 <= k < m + 1 implies #[trigger] cl[k] == ls.push(
                Seq::<char>::empty(),
            )[k] by {
                if k == 0 {
                } else if k < m {
                    assert(cl[k] == dedent(xs[k - 1], Some(w)));
                    assert(rest[k - 1] == ls[k]);
                    if all_ws(rest[k - 1]) {
                    } else {
                        assert((indent + rest[k - 1]).skip(w as int) =~= rest[k - 1]);
                    }
                } else {
                    assert(cl[k] == dedent(indent, Some(w)));
                    assert(indent.skip(w as int) =~= Seq::<char>::empty());
                }
            }
        }
        lemma_empty_suffix_len(ls.push(Seq::<char>::empty()), m);
        lemma_empty_prefix_len(ls, 0);
        assert(ls.push(Seq::<char>::empty()).take(m) =~= ls);
        assert(ls.skip(0) =~= ls);
        assert(trim_empty_edges(cl) =~= ls);
    }
}


proof fn lemma_expand_after_col0(p: Seq<char>, b: Seq<char>, tab: nat)
    requires
        expand_scan(p, tab).1 == 0,
    ensures
        expand_scan(p + b, tab) == (expand_scan(p, tab).0 + expand_scan(b, tab).0, expand_scan(
            b,
            tab,
        ).1),
    decreases b.len(),
{
    let op = expand_scan(p, tab).0;
    if b.len() == 0 {
        assert(p + b =~= p);
        assert(op + expand_scan(b, tab).0 =~= op);
    } else {
        assert((p + b).drop_last() =~= p + b.drop_last());
        lemma_expand_after_col0(p, b.drop_last(), tab);
        let ob = expand_scan(b.drop_last(), tab).0;
        let cb = expand_scan(b.drop_last(), tab).1;
        let c = b.last();
        assert((p + b).last() == c);
        if c == '\t' {
            let n = (tab - cb % tab) as nat;
            assert((op + ob) + spaces(n) =~= op + (ob + spaces(n)));
        } else {
            assert((op + ob).push(c) =~= op + ob.push(c));
        }
    }
}

proof fn lemma_expand_plain_tail(a: Seq<char>, l: Seq<char>, tab: nat)
    requires
        !l.contains('\t'),
        !l.contains('\n'),
    ensures
        expand_scan(a + l, tab).0 == expand_scan(a, tab).0 + l,
    decreases l.len(),
{
    if l.len() == 0 {
        assert(a + l =~= a);
        assert(expand_scan(a, tab).0 + l =~= expand_scan(a, tab).0);
    } else {
        let init = l.drop_last();
        assert(!init.contains('\t') && !init.contains('\n')) by {
            if init.contains('\t') {
                let i = choose|i: int| 0 <= i < init.len() && init[i] == '\t';
                assert(l[i] == '\t');
            }
            if init.contains('\n') {
                let i = choose|i: int| 0 <= i < init.len() && init[i] == '\n';
                assert(l[i] == '\n');
            }
        }
        lemma_expand_plain_tail(a, init, tab);
        assert((a + l).drop_last() =~= a + init);
        assert(l[l.len() - 1] == l.last());
        assert((a + l).last() == l.last());
        assert((expand_scan(a, tab).0 + init).push(l.last()) =~= expand_scan(a, tab).0 + l);
    }
}

proof fn lemma_expand_indent(indent: Seq<char>, tab: nat)
    requires
        forall|i: int| 0 <= i < indent.len() ==> indent[i] == ' ' || indent[i] == '\t',
    ensures
        forall|i: int|
            0 <= i < expand_scan(indent, tab).0.len() ==> #[trigger] expand_scan(indent, tab).0[i]
                == ' ',
    decreases indent.len(),
{
    if indent.len() > 0 {
        let init = indent.drop_last();
        assert forall|i: int| 0 <= i < init.len() implies init[i] == ' ' || init[i] == '\t' by {
            assert(init[i] == indent[i]);
        }
        lemma_expand_indent(init, tab);
        assert(indent[indent.len() - 1] == indent.last());
        assert(indent.drop_last() == init);
        let o = expand_scan(init, tab).0;
        let c = expand_scan(init, tab).1;
        let r = expand_scan(indent, tab).0;
        if indent.last() == '\t' {
            let n = (tab - c % tab) as nat;
            assert(r == o + spaces(n));
            assert forall|i: int| 0 <= i < r.len() implies #[trigger] r[i] == ' ' by {
                if i < o.len() {
                    assert(r[i] == o[i]);
                } else {
                    assert(r[i] == spaces(n)[i - o.len()]);
                }
            }
        } else {
            assert(r == o.push(' '));
            assert forall|i: int| 0 <= i < r.len() implies #[trigger] r[i] == ' ' by {
                if i < o.len() {
                    assert(r[i] == o[i]);
                }
            }
        }
    }
}

proof fn lemma_expand_continuation(rs: Seq<Seq<char>>, indent: Seq<char>, tab: nat)
    requires
        forall|i: int| 0 <= i < indent.len() ==> indent[i] == ' ' || indent[i] == '\t',
        forall|i: int| 0 <= i < rs.len() ==> !(#[trigger] rs[i]).contains('\t') && !rs[i].contains('\n'),
    ensures
        expand_scan(continuation_lines(rs, indent), tab) == (continuation_lines(
            rs,
            expand_scan(indent, tab).0,
        ), 0nat),
    decreases rs.len(),
{
    let ei = expand_scan(indent, tab).0;
    if rs.len() > 0 {
        let init = rs.drop_last();
        assert forall|i: int| 0 <= i < init.len() implies !(#[trigger] init[i]).contains('\t')
            && !init[i].contains('\n') by {
            assert(init[i] == rs[i]);
        }
        lemma_expand_continuation(init, indent, tab);
        let l = rs.last();
        assert(l == rs[rs.len() - 1]);
        let line = continuation_line(l, indent);
        assert(rs.drop_last() == init);
        assert(continuation_lines(rs, indent) == continuation_lines(init, indent) + line);
        assert(continuation_lines(rs, ei) == continuation_lines(init, ei) + continuation_line(l, ei));
        lemma_expand_after_col0(continuation_lines(init, indent), line, tab);
        if all_ws(l) {
            assert(line == seq!['\n']);
            assert(seq!['\n'].drop_last() =~= Seq::<char>::empty());
            assert(seq!['\n'].last() == '\n');
            assert(Seq::<char>::empty().push('\n') =~= seq!['\n']);
            assert(expand_scan(Seq::<char>::empty(), tab) == (Seq::<char>::empty(), 0nat));
            assert(expand_scan(seq!['\n'], tab).0 =~= seq!['\n']);
            assert(expand_scan(seq!['\n'], tab).1 == 0);
            assert(continuation_lines(init, ei) + seq!['\n'] == continuation_lines(rs, ei));
        } else {
            assert(line.drop_last() =~= indent + l);
            assert(line.last() == '\n');
            lemma_expand_plain_tail(indent, l, tab);
            assert(expand_scan(line, tab) == ((ei + l).push('\n'), 0nat));
            assert((ei + l).push('\n') =~= ei + l + seq!['\n']);
            assert(continuation_lines(init, ei) + (ei + l).push('\n') == continuation_lines(rs, ei));
        }
    } else {
        assert(continuation_lines(rs, indent) =~= Seq::<char>::empty());
    }
}

/// Read back as a docstring is read (`inspect.cleandoc`, tabs expanded), the text of a
/// replacement literal is the new text itself: for tidy text, under an indentation of spaces
/// and tabs.
pub proof fn law_replacement_reads_back(doc: Docstring, new_text: Seq<char>)
    requires
        tidy_text(new_text),
        forall|i: int|
            0 <= i < doc.indent@.len() ==> doc.indent@[i] == ' ' || doc.indent@[i] == '\t',
    ensures
        spec_cleandoc(replacement_text(doc, new_text)) == new_text,
{
    let t = new_text;
    let indent = doc.indent@;
    let ls = split_on(t, '\n');
    let ei = expand_scan(indent, 8).0;
    lemma_expand_indent(indent, 8);
    let body = literal_body(t, indent);
    let body_sp = literal_body(t, ei);
    assert(replacement_text(doc, t) =~= body);
    lemma_body_reads_back(t, ei);
    lemma_join_split(t, '\n');
    lemma_split_on_free(t, '\n');
    lemma_contains_as_infix(t, '\t');
    lemma_split_no_quote(t, '\n', seq!['\t']);
    assert forall|i: int| 0 <= i < ls.len() implies !(#[trigger] ls[i]).contains('\t') by {
        lemma_contains_as_infix(ls[i], '\t');
    }
    if ls.len() == 1 {
        lemma_expand_no_tab(t, 8);
    } else {
        let rest = ls.drop_first();
        assert forall|i: int| 0 <= i < rest.len() implies !(#[trigger] rest[i]).contains('\t')
            && !rest[i].contains('\n') by {
            assert(rest[i] == ls[i + 1]);
        }
        let cont = continuation_lines(rest, indent);
        let p1 = ls[0] + seq!['\n'];
        lemma_expand_plain_tail(Seq::<char>::empty(), ls[0], 8);
        assert(Seq::<char>::empty() + ls[0] =~= ls[0]);
        assert(p1.drop_last() =~= ls[0]);
        assert(expand_scan(Seq::<char>::empty(), 8).0 + ls[0] =~= ls[0]);
        assert(expand_scan(p1, 8) == (p1, 0nat));
        lemma_expand_continuation(rest, indent, 8);
        lemma_expand_after_col0(cont, indent, 8);
        lemma_expand_after_col0(p1, cont + indent, 8);
        assert(body =~= p1 + (cont + indent));
        assert(body_sp =~= p1 + (continuation_lines(rest, ei) + ei));
    }
    assert(spec_expandtabs(body, 8) == body_sp);
    assert(doc_raw_lines(body) == doc_raw_lines(body_sp));
}


/// A docstring counts as test code exactly when it is a function's whose name starts with
/// `test` or `Test`, a class's whose name starts with `Test`, or a module's in a test file.
pub proof fn law_test_docstrings(t: SyntaxNode, src: &str, in_test_file: bool, v: Vec<Docstring>)
    requires
        tree_docstrings_are(t, src, in_test_file, Ok(v)),
    ensures
        forall|i: int|
            0 <= i < v@.len() ==> ((#[trigger] v@[i]).is_test <==> (v@[i].kind == DocKind::Class
                && has_prefix(v@[i].name@, seq!['T', 'e', 's', 't']) || v@[i].kind
                == DocKind::Function && (has_prefix(v@[i].name@, seq!['t', 'e', 's', 't'])
                || has_prefix(v@[i].name@, seq!['T', 'e', 's', 't'])) || v@[i].kind
                == DocKind::Module && in_test_file)),
{
    let b = src.spec_bytes();
    let sites = spec_sites(t, seq![], b);
    assert forall|i: int| 0 <= i < v@.len() implies ((#[trigger] v@[i]).is_test <==> (v@[i].kind
        == DocKind::Class && has_prefix(v@[i].name@, seq!['T', 'e', 's', 't']) || v@[i].kind
        == DocKind::Function && (has_prefix(v@[i].name@, seq!['t', 'e', 's', 't']) || has_prefix(
        v@[i].name@,
        seq!['T', 'e', 's', 't'],
    )) || v@[i].kind == DocKind::Module && in_test_file)) by {
        assert(doc_matches(v@[i], sites[i], b, spec_lines(src@), in_test_file));
    }
}

} // verus!
