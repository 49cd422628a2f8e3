//! Lightweight NLP over comment text: strip delimiters, drop separators / commented-out code,
//! unwrap paragraphs, measure density.
use vstd::prelude::*;
use vstd::string::*;
use vstd::utf8::*;
use crate::ext::{is_alphanumeric, regex_find, regex_find_result, unicode_alphanumeric};
use crate::text::{
    all_ws, chars_of, copy_range, ends_with, has_char, has_infix, has_prefix, has_suffix,
    is_blank, is_ws, join, lines, occurs_at, occurs_at_exec, push_all, spec_is_ws, spec_lines,
    split_ws, starts_with, string_of, trim, trim_chars, trim_start_set, trim_start_set_chars,
    view_lines, words, words_scan, contains,
};
use crate::types::{Comment, CommentBlock, CommentKind, Language};
use crate::utf8::{chars_between, substr};

verus! {

broadcast use vstd::seq::group_seq_axioms;

/// The result of analysing a comment block's text.
#[derive(Debug, Clone)]
pub struct ProseAnalysis {
    /// Cleaned prose lines (delimiters and leaders stripped; separators and code-like lines dropped).
    pub lines: Vec<String>,
    /// Prose lines joined into flowing text.
    pub text: String,
    pub word_count: usize,
    /// Most of the raw lines look like commented-out code rather than English.
    pub code_like: bool,
}

/// `s` without the prefix `p` when it has it (`strip_prefix(p).unwrap_or(s)`).
pub open spec fn strip_prefix_or(s: Seq<char>, p: Seq<char>) -> Seq<char> {
    if has_prefix(s, p) {
        s.skip(p.len() as int)
    } else {
        s
    }
}

/// `s` without the suffix `p` when it has it (`strip_suffix(p).unwrap_or(s)`).
pub open spec fn strip_suffix_or(s: Seq<char>, p: Seq<char>) -> Seq<char> {
    if has_suffix(s, p) {
        s.take(s.len() - p.len())
    } else {
        s
    }
}

/// The marker a line comment starts with.
pub open spec fn line_marker(lang: Language) -> Seq<char> {
    match lang {
        Language::Python | Language::Yaml => seq!['#'],
        _ => seq!['/', '/'],
    }
}

/// The prose of a line comment: marker dropped, then any further `/` and `!`, then trimmed.
pub open spec fn clean_line_comment(text: Seq<char>, lang: Language) -> Seq<char> {
    trim(trim_start_set(strip_prefix_or(text, line_marker(lang)), seq!['/', '!']))
}

/// One line of a block comment: trimmed, one leading `*` dropped, trimmed again.
pub open spec fn clean_block_line(l: Seq<char>) -> Seq<char> {
    trim(strip_prefix_or(trim(l), seq!['*']))
}

/// The inside of a block comment: trimmed, `/**` or `/*` dropped from the front, `*/` from the
/// back.
pub open spec fn block_inner(text: Seq<char>) -> Seq<char> {
    let s = trim(text);
    let s = if has_prefix(s, seq!['/', '*', '*']) {
        s.skip(3)
    } else {
        strip_prefix_or(s, seq!['/', '*'])
    };
    strip_suffix_or(s, seq!['*', '/'])
}

/// The prose lines of one comment.
pub open spec fn clean_comment(c: Comment, lang: Language) -> Seq<Seq<char>> {
    match c.kind {
        CommentKind::Line => seq![clean_line_comment(c.text@, lang)],
        CommentKind::Block => spec_lines(block_inner(c.text@)).map_values(
            |l: Seq<char>| clean_block_line(l),
        ),
    }
}

/// The prose lines of every comment, in order.
pub open spec fn spec_clean_lines(cs: Seq<Comment>, lang: Language) -> Seq<Seq<char>>
    decreases cs.len(),
{
    if cs.len() == 0 {
        seq![]
    } else {
        spec_clean_lines(cs.drop_last(), lang) + clean_comment(cs.last(), lang)
    }
}

fn strip_prefix_chars(s: &[char], p: &[char]) -> (r: Vec<char>)
    ensures
        r@ == strip_prefix_or(s@, p@),
{
    if starts_with(s, p) {
        copy_range(s, p.len(), s.len())
    } else {
        copy_range(s, 0, s.len())
    }
}

fn strip_suffix_chars(s: &[char], p: &[char]) -> (r: Vec<char>)
    ensures
        r@ == strip_suffix_or(s@, p@),
{
    if ends_with(s, p) {
        copy_range(s, 0, s.len() - p.len())
    } else {
        copy_range(s, 0, s.len())
    }
}

/// Strip comment delimiters/leaders from each raw line of the block: `#`, `//`, `/*`, `*/`,
/// leading `*` in block comments, and surrounding whitespace.
pub fn clean_lines(block: &CommentBlock, lang: Language) -> (r: Vec<String>)
    ensures
        crate::llm::string_views(r@) == spec_clean_lines(block.comments@, lang),
{
    let hash = ['#'];
    let slashes = ['/', '/'];
    let leaders = ['/', '!'];
    let open_doc = ['/', '*', '*'];
    let open = ['/', '*'];
    let close = ['*', '/'];
    let star = ['*'];
    assert(hash@ =~= seq!['#']);
    assert(slashes@ =~= seq!['/', '/']);
    assert(leaders@ =~= seq!['/', '!']);
    assert(open_doc@ =~= seq!['/', '*', '*']);
    assert(open@ =~= seq!['/', '*']);
    assert(close@ =~= seq!['*', '/']);
    assert(star@ =~= seq!['*']);
    let cs = &block.comments;
    let mut out: Vec<String> = Vec::new();
    let mut i: usize = 0;
    while i < cs.len()
        invariant
            0 <= i <= cs@.len(),
            *cs == block.comments,
            hash@ == seq!['#'],
            slashes@ == seq!['/', '/'],
            leaders@ == seq!['/', '!'],
            open_doc@ == seq!['/', '*', '*'],
            open@ == seq!['/', '*'],
            close@ == seq!['*', '/'],
            star@ == seq!['*'],
            crate::llm::string_views(out@) == spec_clean_lines(cs@.take(i as int), lang),
        decreases cs@.len() - i,
    {
        assert(cs@.take(i + 1).drop_last() =~= cs@.take(i as int));
        let c = &cs[i];
        let text = chars_of(c.text.as_str());
        let ghost before = out@;
        match c.kind {
            CommentKind::Line => {
                let marker: &[char] = if lang == Language::Python || lang == Language::Yaml {
                    &hash
                } else {
                    &slashes
                };
                let rest = trim_start_set_chars(&strip_prefix_chars(&text, marker), &leaders);
                let line = trim_chars(&rest);
                out.push(string_of(&line));
                assert(crate::llm::string_views(out@) =~= crate::llm::string_views(before).push(
                    line@,
                ));
            },
            CommentKind::Block => {
                let s = trim_chars(&text);
                let s = if starts_with(&s, &open_doc) {
                    copy_range(&s, 3, s.len())
                } else {
                    strip_prefix_chars(&s, &open)
                };
                let s = strip_suffix_chars(&s, &close);
                let ls = lines(&s);
                let ghost vl = view_lines(ls@);
                let mut j: usize = 0;
                while j < ls.len()
                    invariant
                        0 <= j <= ls@.len(),
                        vl == view_lines(ls@),
                        star@ == seq!['*'],
                        crate::llm::string_views(out@) == crate::llm::string_views(before)
                            + vl.take(j as int).map_values(|l: Seq<char>| clean_block_line(l)),
                    decreases ls@.len() - j,
                {
                    let line = trim_chars(&strip_prefix_chars(&trim_chars(&ls[j]), &star));
                    let ghost mid = out@;
                    out.push(string_of(&line));
                    assert(vl.take(j + 1) =~= vl.take(j as int).push(ls@[j as int]@));
                    assert(crate::llm::string_views(out@) =~= crate::llm::string_views(mid).push(
                        line@,
                    ));
                    assert(vl.take(j + 1).map_values(|l: Seq<char>| clean_block_line(l))
                        =~= vl.take(j as int).map_values(|l: Seq<char>| clean_block_line(l)).push(
                        clean_block_line(ls@[j as int]@),
                    ));
                    j += 1;
                }
                assert(vl.take(ls@.len() as int) =~= vl);
            },
        }
        i += 1;
    }
    assert(cs@.take(cs@.len() as int) =~= cs@);
    out
}

/// Separator punctuation.
pub open spec fn separator_chars() -> Seq<char> {
    seq!['-', '=', '*', '#', '~', '_', '+', '/', '|', '.']
}

/// >= 3 chars, entirely made of separator punctuation (e.g. `----`, `====`, `****`).
pub open spec fn spec_is_separator(line: Seq<char>) -> bool {
    let t = trim(line);
    t.len() >= 3 && forall|i: int| 0 <= i < t.len() ==> separator_chars().contains(#[trigger] t[i])
}

fn is_separator(line: &[char]) -> (r: bool)
    ensures
        r == spec_is_separator(line@),
{
    let t = trim_chars(line);
    if t.len() < 3 {
        return false;
    }
    let seps = ['-', '=', '*', '#', '~', '_', '+', '/', '|', '.'];
    assert(seps@ =~= separator_chars());
    let mut i: usize = 0;
    while i < t.len()
        invariant
            0 <= i <= t@.len(),
            t@ == trim(line@),
            seps@ == separator_chars(),
            forall|k: int| 0 <= k < i ==> separator_chars().contains(#[trigger] t@[k]),
        decreases t@.len() - i,
    {
        if !has_char(&seps, t[i]) {
            assert(!separator_chars().contains(t@[i as int]));
            return false;
        }
        i += 1;
    }
    true
}

/// A commented-out YAML key (`foo:` / `foo: bar`, no space before the colon).
pub const YAML_KEY_PATTERN: &'static str = r"^[A-Za-z0-9_./-]+:(\s|$)";

/// Whether `rest` (the text after a YAML `key:` or `- ` prefix) reads as a short scalar/list
/// value rather than a full English clause: empty, or at most 6 words with no terminal sentence
/// punctuation.
pub open spec fn spec_short_yaml_value(rest: Seq<char>) -> bool {
    if rest.len() == 0 {
        true
    } else if rest.last() == '.' || rest.last() == '!' || rest.last() == '?' {
        false
    } else {
        words(rest).len() <= 6
    }
}

fn looks_like_short_yaml_value(rest: &[char]) -> (r: bool)
    ensures
        r == spec_short_yaml_value(rest@),
{
    if rest.len() == 0 {
        return true;
    }
    let last = rest[rest.len() - 1];
    if last == '.' || last == '!' || last == '?' {
        return false;
    }
    split_ws(rest).len() <= 6
}

/// The YAML shape of commented-out config: a `key:` line whose value is short, or (when the
/// line is no key) a `- ` list item whose value is short.
pub open spec fn yaml_value_line(t: Seq<char>) -> bool {
    spec_yaml_value_given(t, regex_find_result(YAML_KEY_PATTERN@, t))
}

/// The line opens like a statement.
pub open spec fn code_start(t: Seq<char>) -> bool {
    ||| has_prefix(t, seq!['d', 'e', 'f', ' '])
    ||| has_prefix(t, seq!['c', 'l', 'a', 's', 's', ' '])
    ||| has_prefix(t, seq!['i', 'm', 'p', 'o', 'r', 't', ' '])
    ||| has_prefix(t, seq!['f', 'r', 'o', 'm', ' '])
    ||| has_prefix(t, seq!['r', 'e', 't', 'u', 'r', 'n', ' '])
    ||| has_prefix(t, seq!['i', 'f', ' '])
    ||| has_prefix(t, seq!['f', 'o', 'r', ' '])
    ||| has_prefix(t, seq!['w', 'h', 'i', 'l', 'e', ' '])
    ||| has_prefix(t, seq!['c', 'o', 'n', 's', 't', ' '])
    ||| has_prefix(t, seq!['l', 'e', 't', ' '])
    ||| has_prefix(t, seq!['v', 'a', 'r', ' '])
    ||| has_prefix(t, seq!['f', 'u', 'n', 'c', 't', 'i', 'o', 'n', ' '])
    ||| has_prefix(t, seq!['e', 'x', 'p', 'o', 'r', 't', ' '])
    ||| has_prefix(t, seq!['}'])
}

/// Index of the first occurrence of `p` in `s` at or after `i`.
pub open spec fn find_from(s: Seq<char>, p: Seq<char>, i: int) -> Option<int>
    decreases s.len() + 1 - i,
{
    if i < 0 || i + p.len() > s.len() {
        None
    } else if occurs_at(s, p, i) {
        Some(i)
    } else {
        find_from(s, p, i + 1)
    }
}

/// A bare assignment from a call: `" = "` occurs, and a `(` follows its first occurrence.
pub open spec fn assigns_call(t: Seq<char>) -> bool {
    match find_from(t, seq![' ', '=', ' '], 0) {
        Some(k) => t.skip(k + 3).contains('('),
        None => false,
    }
}

/// Number of characters that are neither alphanumeric nor whitespace.
pub open spec fn punct_count(s: Seq<char>) -> nat
    decreases s.len(),
{
    if s.len() == 0 {
        0
    } else {
        punct_count(s.drop_last()) + if !unicode_alphanumeric(s.last()) && !spec_is_ws(
            s.last(),
        ) {
            1nat
        } else {
            0nat
        }
    }
}

/// Does this line look like code rather than English prose?
pub open spec fn spec_is_code_like(line: Seq<char>, lang: Language) -> bool {
    let t = trim(line);
    if t.len() == 0 {
        false
    } else {
        ||| (lang == Language::Yaml && yaml_value_line(t))
        ||| has_suffix(t, seq![';'])
        ||| has_suffix(t, seq!['{'])
        ||| has_suffix(t, seq!['}'])
        ||| code_start(t)
        ||| has_infix(t, seq!['=', '>'])
        ||| has_infix(t, seq!['-', '>'])
        ||| has_infix(t, seq![')', ';'])
        ||| assigns_call(t)
        ||| punct_count(t) * 20 > t.len() * 7
    }
}

fn yaml_value_line_exec(t: &[char]) -> (r: bool)
    ensures
        r == yaml_value_line(t@),
{
    let ts = string_of(t);
    let found = regex_find(YAML_KEY_PATTERN, ts.as_str());
    yaml_value_given(t, found)
}

/// What the key pattern's search over a line may give: no answer, no match, or a match whose
/// end lies in the line's bytes at a character boundary.
pub open spec fn key_search_fits(t: Seq<char>, found: Option<Option<(usize, usize)>>) -> bool {
    match found {
        Some(Some((s, e))) => s <= e <= encode_utf8(t).len() && is_char_boundary(encode_utf8(t), e as int),
        _ => true,
    }
}

/// The YAML shape of commented-out config, given what the key pattern's search over the line
/// found: after a `key:` match the rest must be a short value; otherwise a `- ` list item with a
/// short value.
pub open spec fn spec_yaml_value_given(t: Seq<char>, found: Option<Option<(usize, usize)>>) -> bool {
    match found {
        Some(Some((s, e))) => spec_short_yaml_value(
            trim(chars_between(encode_utf8(t), e as int, encode_utf8(t).len() as int)),
        ),
        _ => has_prefix(t, seq!['-', ' ']) && spec_short_yaml_value(trim(t.skip(2))),
    }
}

/// Decides the YAML shape of a line from what the key pattern's search found.
pub fn yaml_value_given(t: &[char], found: Option<Option<(usize, usize)>>) -> (r: bool)
    requires
        key_search_fits(t@, found),
    ensures
        r == spec_yaml_value_given(t@, found),
{
    let ts = string_of(t);
    let tstr = ts.as_str();
    let dash = ['-', ' '];
    assert(dash@ =~= seq!['-', ' ']);
    match found {
        Some(Some((_s, e))) => {
            let n = tstr.as_bytes().len();
            proof {
                encode_utf8_valid_utf8(tstr@);
                is_char_boundary_start_end_of_seq(tstr.spec_bytes());
            }
            let rest = chars_of(substr(tstr, e, n));
            looks_like_short_yaml_value(&trim_chars(&rest))
        },
        _ => {
            if starts_with(t, &dash) {
                looks_like_short_yaml_value(&trim_chars(&copy_range(t, 2, t.len())))
            } else {
                false
            }
        },
    }
}

fn code_start_exec(t: &[char]) -> (r: bool)
    ensures
        r == code_start(t@),
{
    let a = ['d', 'e', 'f', ' '];
    let b = ['c', 'l', 'a', 's', 's', ' '];
    let c = ['i', 'm', 'p', 'o', 'r', 't', ' '];
    let d = ['f', 'r', 'o', 'm', ' '];
    let e = ['r', 'e', 't', 'u', 'r', 'n', ' '];
    let f = ['i', 'f', ' '];
    let g = ['f', 'o', 'r', ' '];
    let h = ['w', 'h', 'i', 'l', 'e', ' '];
    let i = ['c', 'o', 'n', 's', 't', ' '];
    let j = ['l', 'e', 't', ' '];
    let k = ['v', 'a', 'r', ' '];
    let l = ['f', 'u', 'n', 'c', 't', 'i', 'o', 'n', ' '];
    let m = ['e', 'x', 'p', 'o', 'r', 't', ' '];
    let n = ['}'];
    assert(a@ =~= seq!['d', 'e', 'f', ' ']);
    assert(b@ =~= seq!['c', 'l', 'a', 's', 's', ' ']);
    assert(c@ =~= seq!['i', 'm', 'p', 'o', 'r', 't', ' ']);
    assert(d@ =~= seq!['f', 'r', 'o', 'm', ' ']);
    assert(e@ =~= seq!['r', 'e', 't', 'u', 'r', 'n', ' ']);
    assert(f@ =~= seq!['i', 'f', ' ']);
    assert(g@ =~= seq!['f', 'o', 'r', ' ']);
    assert(h@ =~= seq!['w', 'h', 'i', 'l', 'e', ' ']);
    assert(i@ =~= seq!['c', 'o', 'n', 's', 't', ' ']);
    assert(j@ =~= seq!['l', 'e', 't', ' ']);
    assert(k@ =~= seq!['v', 'a', 'r', ' ']);
    assert(l@ =~= seq!['f', 'u', 'n', 'c', 't', 'i', 'o', 'n', ' ']);
    assert(m@ =~= seq!['e', 'x', 'p', 'o', 'r', 't', ' ']);
    assert(n@ =~= seq!['}']);
    starts_with(t, &a) || starts_with(t, &b) || starts_with(t, &c) || starts_with(t, &d)
        || starts_with(t, &e) || starts_with(t, &f) || starts_with(t, &g) || starts_with(t, &h)
        || starts_with(t, &i) || starts_with(t, &j) || starts_with(t, &k) || starts_with(t, &l)
        || starts_with(t, &m) || starts_with(t, &n)
}

fn assigns_call_exec(t: &[char]) -> (r: bool)
    ensures
        r == assigns_call(t@),
{
    let eq = [' ', '=', ' '];
    assert(eq@ =~= seq![' ', '=', ' ']);
    let mut i: usize = 0;
    while i < t.len() && t.len() - i >= 3
        invariant
            0 <= i <= t@.len(),
            eq@ == seq![' ', '=', ' '],
            find_from(t@, eq@, 0) == find_from(t@, eq@, i as int),
        decreases t@.len() - i,
    {
        if occurs_at_exec(t, &eq, i) {
            return has_char(&copy_range(t, i + 3, t.len()), '(');
        }
        i += 1;
    }
    false
}

fn punct_heavy(t: &[char]) -> (r: bool)
    ensures
        r == (punct_count(t@) * 20 > t@.len() * 7),
{
    let mut punct: usize = 0;
    let mut i: usize = 0;
    while i < t.len()
        invariant
            0 <= i <= t@.len(),
            punct == punct_count(t@.take(i as int)),
            punct <= i,
        decreases t@.len() - i,
    {
        assert(t@.take(i + 1).drop_last() =~= t@.take(i as int));
        let c = t[i];
        if !is_alphanumeric(c) && !is_ws(c) {
            punct += 1;
        }
        i += 1;
    }
    assert(t@.take(t@.len() as int) =~= t@);
    (punct as u128) * 20 > (t.len() as u128) * 7
}

/// Small heuristic: does this line look like code rather than English prose?
fn is_code_like(line: &[char], lang: Language) -> (r: bool)
    ensures
        r == spec_is_code_like(line@, lang),
{
    let t = trim_chars(line);
    if t.len() == 0 {
        return false;
    }
    // YAML-only: commented-out config (a list item or a `key:`/`key: value` line) reads as code,
    // but only when the value/item itself is short.
    if lang == Language::Yaml && yaml_value_line_exec(&t) {
        return true;
    }
    let semi = [';'];
    let open = ['{'];
    let close = ['}'];
    let arrow = ['=', '>'];
    let thin = ['-', '>'];
    let call_end = [')', ';'];
    assert(semi@ =~= seq![';']);
    assert(open@ =~= seq!['{']);
    assert(close@ =~= seq!['}']);
    assert(arrow@ =~= seq!['=', '>']);
    assert(thin@ =~= seq!['-', '>']);
    assert(call_end@ =~= seq![')', ';']);
    if ends_with(&t, &semi) || ends_with(&t, &open) || ends_with(&t, &close) {
        return true;
    }
    if code_start_exec(&t) {
        return true;
    }
    if contains(&t, &arrow) || contains(&t, &thin) || contains(&t, &call_end) {
        return true;
    }
    // bare assignment like `foo = bar(`
    if assigns_call_exec(&t) {
        return true;
    }
    punct_heavy(&t)
}

proof fn lemma_words_scan_len(s: Seq<char>)
    ensures
        words_scan(s).0.len() + words_scan(s).1.len() <= s.len(),
    decreases s.len(),
{
    if s.len() > 0 {
        lemma_words_scan_len(s.drop_last());
    }
}

/// A line has at most as many words as characters.
proof fn lemma_words_len(s: Seq<char>)
    ensures
        words(s).len() <= s.len(),
{
    lemma_words_scan_len(s);
}

/// The prose lines (blank, separator and code-like lines dropped) and the number of code-like
/// lines.
pub open spec fn prose_scan(raw: Seq<Seq<char>>, lang: Language) -> (Seq<Seq<char>>, nat)
    decreases raw.len(),
{
    if raw.len() == 0 {
        (seq![], 0)
    } else {
        let (p, c) = prose_scan(raw.drop_last(), lang);
        let l = raw.last();
        if trim(l).len() == 0 || spec_is_separator(l) {
            (p, c)
        } else if spec_is_code_like(l, lang) {
            (p, c + 1)
        } else {
            (p.push(l), c)
        }
    }
}

/// Total number of words over the lines.
pub open spec fn word_total(ls: Seq<Seq<char>>) -> nat
    decreases ls.len(),
{
    if ls.len() == 0 {
        0
    } else {
        word_total(ls.drop_last()) + words(ls.last()).len()
    }
}

/// What `analyze` finds in a block.
pub open spec fn analysis_is(a: ProseAnalysis, block: CommentBlock, lang: Language) -> bool {
    let (p, c) = prose_scan(spec_clean_lines(block.comments@, lang), lang);
    &&& crate::llm::string_views(a.lines@) == p
    &&& a.text@ == join(p, seq![' '])
    &&& a.word_count == word_total(p)
    &&& a.code_like == (c > p.len())
}

/// Cleans the block's lines, drops blank and separator lines, sets code-like lines aside, and
/// measures the prose that remains.
pub fn analyze(block: &CommentBlock, lang: Language) -> (r: ProseAnalysis)
    ensures
        analysis_is(r, *block, lang),
{
    let raw = clean_lines(block, lang);
    let ghost rv = crate::llm::string_views(raw@);
    let mut code_line_count: usize = 0;
    let mut prose: Vec<String> = Vec::new();
    let mut text: Vec<char> = Vec::new();
    let mut word_count: usize = 0;
    let mut i: usize = 0;
    while i < raw.len()
        invariant
            0 <= i <= raw@.len(),
            rv == crate::llm::string_views(raw@),
            rv == spec_clean_lines(block.comments@, lang),
            (crate::llm::string_views(prose@), code_line_count as nat) == prose_scan(
                rv.take(i as int),
                lang,
            ),
            text@ == join(crate::llm::string_views(prose@), seq![' ']),
            word_count == word_total(crate::llm::string_views(prose@)),
            word_count <= text@.len(),
            code_line_count <= i,
        decreases raw@.len() - i,
    {
        assert(rv.take(i + 1).drop_last() =~= rv.take(i as int));
        assert(rv.take(i + 1).last() == raw@[i as int]@);
        let line = chars_of(raw[i].as_str());
        if is_blank(&line) || is_separator(&line) {
            proof {
                crate::text::lemma_trim_empty(line@);
            }
        } else if is_code_like(&line, lang) {
            proof {
                crate::text::lemma_trim_empty(line@);
            }
            code_line_count += 1;
        } else {
            proof {
                crate::text::lemma_trim_empty(line@);
                lemma_words_len(line@);
            }
            let ghost pv = crate::llm::string_views(prose@);
            let n = split_ws(&line).len();
            if prose.len() > 0 {
                text.push(' ');
            }
            let ghost old_len = text@.len();
            push_all(&mut text, &line);
            let tl = text.len();
            assert(word_count + n <= tl);
            word_count = word_count + n;
            prose.push(string_of(&line));
            assert(crate::llm::string_views(prose@) =~= pv.push(line@));
            assert(crate::llm::string_views(prose@).drop_last() =~= pv);
            proof {
                if pv.len() == 0 {
                    assert(join(pv.push(line@), seq![' ']) =~= line@);
                }
            }
        }
        i += 1;
    }
    assert(rv.take(raw@.len() as int) =~= rv);
    let code_like = code_line_count > prose.len();
    ProseAnalysis { lines: prose, text: string_of(&text), word_count, code_like }
}


proof fn lemma_prose_scan_lines(raw: Seq<Seq<char>>, lang: Language)
    ensures
        forall|i: int|
            0 <= i < prose_scan(raw, lang).0.len() ==> !spec_is_code_like(
                #[trigger] prose_scan(raw, lang).0[i],
                lang,
            ) && trim(prose_scan(raw, lang).0[i]).len() > 0,
    decreases raw.len(),
{
    if raw.len() > 0 {
        lemma_prose_scan_lines(raw.drop_last(), lang);
        let p = prose_scan(raw.drop_last(), lang).0;
        assert forall|i: int| 0 <= i < prose_scan(raw, lang).0.len() implies !spec_is_code_like(
            #[trigger] prose_scan(raw, lang).0[i],
            lang,
        ) && trim(prose_scan(raw, lang).0[i]).len() > 0 by {
            if i < p.len() {
                assert(prose_scan(raw, lang).0[i] == p[i]);
            }
        }
    }
}

/// A line of a block's prose never opens like a statement: no prose line, once trimmed, starts
/// with `def `, `class `, `import `, `from `, `return `, `if `, `for `, `while `, `const `,
/// `let `, `var `, `function `, `export ` or `}`. Such lines are commented-out code and are set
/// aside.
pub proof fn law_prose_lines_are_not_statements(a: ProseAnalysis, block: CommentBlock, lang: Language)
    requires
        analysis_is(a, block, lang),
    ensures
        forall|i: int|
            0 <= i < a.lines@.len() ==> {
                let t = trim(#[trigger] a.lines@[i]@);
                !(has_prefix(t, seq!['d', 'e', 'f', ' ']) || has_prefix(
                    t,
                    seq!['c', 'l', 'a', 's', 's', ' '],
                ) || has_prefix(t, seq!['i', 'm', 'p', 'o', 'r', 't', ' ']) || has_prefix(
                    t,
                    seq!['f', 'r', 'o', 'm', ' '],
                ) || has_prefix(t, seq!['r', 'e', 't', 'u', 'r', 'n', ' ']) || has_prefix(
                    t,
                    seq!['i', 'f', ' '],
                ) || has_prefix(t, seq!['f', 'o', 'r', ' ']) || has_prefix(
                    t,
                    seq!['w', 'h', 'i', 'l', 'e', ' '],
                ) || has_prefix(t, seq!['c', 'o', 'n', 's', 't', ' ']) || has_prefix(
                    t,
                    seq!['l', 'e', 't', ' '],
                ) || has_prefix(t, seq!['v', 'a', 'r', ' ']) || has_prefix(
                    t,
                    seq!['f', 'u', 'n', 'c', 't', 'i', 'o', 'n', ' '],
                ) || has_prefix(t, seq!['e', 'x', 'p', 'o', 'r', 't', ' ']) || has_prefix(
                    t,
                    seq!['}'],
                ))
            },
{
    let raw = spec_clean_lines(block.comments@, lang);
    lemma_prose_scan_lines(raw, lang);
    let p = prose_scan(raw, lang).0;
    assert forall|i: int| 0 <= i < a.lines@.len() implies !spec_is_code_like(
        #[trigger] a.lines@[i]@,
        lang,
    ) && trim(a.lines@[i]@).len() > 0 by {
        assert(crate::llm::string_views(a.lines@)[i] == a.lines@[i]@);
        assert(p[i] == a.lines@[i]@);
    }
}

} // verus!
