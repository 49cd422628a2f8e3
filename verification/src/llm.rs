//! What the library says to the language model and how it reads the replies: the prompts and
//! few-shot demos, the user messages built for one comment block or one docstring, and the
//! parsers that turn a raw reply into a verdict. The HTTP exchange itself lives with the caller.
use vstd::prelude::*;
use crate::ext::{pattern_matches, regex_is_match, unicode_alphanumeric, is_alphanumeric};
use crate::text::{
    has_prefix, trim, trim_start, trim_end, index_of, lemma_index_of, lemma_trim_len,
    lemma_trim_idempotent,
    trim_start_set, trim_end_str, join, words, spec_lines, view_lines, trim_chars, starts_with,
    string_of, index_of_chars, copy_range, trim_start_chars, trim_start_set_chars,
    trim_end_str_chars, trim_end_chars, split_ws, join_chars, has_char, chars_of, lines,
    all_ws, is_blank, has_suffix, ends_with, trim_end_set, trim_end_set_chars, take_at_most,
    take_lines, eq_ignore_ascii_case, eq_ignore_ascii_case_chars, spec_is_ws, is_ws, push_all,
    take_chars, occurs_at_exec, words_scan,
};
use crate::types::Config;

verus! {

/// What the model decided about a comment block.
#[derive(Debug, Clone, PartialEq, Eq)]
pub enum Verdict {
    /// The comment carries nothing the code does not already say.
    Delete,
    /// Replace the block with this single terse line.
    Line(String),
}

/// Why a reply could not be used.
#[derive(Debug, Clone, Copy, PartialEq, Eq, Structural)]
pub enum ReplyError {
    /// The reply was empty or only whitespace.
    Empty,
    /// Nothing usable remained once fences, preambles and quotes were stripped.
    EmptyAfterCleanup,
    /// A kept line ran longer than twice the word limit: its word count.
    TooLong(usize),
}

/// `"```"`, the Markdown code-fence marker.
pub open spec fn fence() -> Seq<char> {
    seq!['`', '`', '`']
}

/// A line that opens or closes a Markdown code fence.
pub open spec fn is_fence(t: Seq<char>) -> bool {
    has_prefix(t, fence())
}

/// The first line that, once trimmed, is neither empty nor a code-fence marker (trimmed).
pub open spec fn first_content_line(ls: Seq<Seq<char>>) -> Option<Seq<char>>
    decreases ls.len(),
{
    if ls.len() == 0 {
        None
    } else {
        let t = trim(ls[0]);
        if !is_fence(t) && t.len() > 0 {
            Some(t)
        } else {
            first_content_line(ls.drop_first())
        }
    }
}

/// Matches a leading conversational preamble ("Here is the summary: ...", "Sure, ...:") up to
/// and including its colon, so it can be stripped and the real content kept.
pub const PREAMBLE_PATTERN: &'static str =
    r"(?i)^(here('s| is)\b|sure\b|certainly\b|the (one[- ]line )?summary( is)?\b)[^:]{0,40}:\s*";

/// The text after the first `':'`, trimmed (empty when there is no colon).
pub open spec fn after_first_colon(line: Seq<char>) -> Seq<char> {
    let i = index_of(line, ':');
    if i >= 0 {
        trim(line.skip(i + 1))
    } else {
        seq![]
    }
}

/// A line that starts with a conversational preamble loses it, unless nothing follows it. The
/// preamble pattern contains no colon before the one it ends with, so the match ends at the
/// line's first colon (plus the whitespace that trimming drops anyway).
pub open spec fn drop_preamble(line: Seq<char>) -> Seq<char> {
    if pattern_matches(PREAMBLE_PATTERN@, line) && after_first_colon(line).len() > 0 {
        after_first_colon(line)
    } else {
        line
    }
}

/// A quote character that may wrap a reply: `"`, `'` or a backtick.
pub open spec fn is_quote_char(c: char) -> bool {
    c == '"' || c == '\'' || c == '`'
}

/// Repeatedly strips a matching pair of quote characters around the text, trimming after each.
pub open spec fn unwrap_pairs(t: Seq<char>) -> Seq<char>
    decreases t.len(),
{
    if t.len() >= 2 && t[0] == t.last() && is_quote_char(t[0]) {
        let inner = t.subrange(1, t.len() - 1);
        proof {
            lemma_trim_len(inner);
        }
        unwrap_pairs(trim(inner))
    } else {
        t
    }
}

/// Characters a comment leader is made of.
pub open spec fn leader_chars() -> Seq<char> {
    seq!['#', '/', '*']
}

/// Drops a leading `#`, `/` or `*` run and a trailing `*/`, with the whitespace around them.
pub open spec fn strip_delimiters(line: Seq<char>) -> Seq<char> {
    let a = trim_start(trim_start_set(line, leader_chars()));
    trim_end(trim_end_str(trim_end(a), seq!['*', '/']))
}

/// Words joined by single spaces.
pub open spec fn collapse_ws(s: Seq<char>) -> Seq<char> {
    join(words(s), seq![' '])
}

/// A cleaned reply that cannot be a summary: empty, no letter or digit at all, or a single
/// ASCII character.
pub open spec fn is_junk(c: Seq<char>) -> bool {
    ||| c.len() == 0
    ||| (forall|i: int| 0 <= i < c.len() ==> !unicode_alphanumeric(#[trigger] c[i]))
    ||| (!c.contains(' ') && c.len() == 1 && (c[0] as u32) < 0x80)
}

/// What `clean_reply` makes of a raw reply.
pub open spec fn spec_clean_reply(raw: Seq<char>) -> Seq<char> {
    match first_content_line(spec_lines(raw)) {
        None => seq![],
        Some(line) => {
            let c = collapse_ws(strip_delimiters(unwrap_pairs(drop_preamble(line))));
            if is_junk(c) {
                seq![]
            } else {
                c
            }
        },
    }
}

fn first_content_line_exec(ls: &Vec<Vec<char>>) -> (r: Option<Vec<char>>)
    ensures
        match r {
            Some(v) => first_content_line(view_lines(ls@)) == Some(v@),
            None => first_content_line(view_lines(ls@)) is None,
        },
{
    let fence_chars = ['`', '`', '`'];
    assert(fence_chars@ =~= fence());
    assert(view_lines(ls@).skip(0) =~= view_lines(ls@));
    let mut i: usize = 0;
    while i < ls.len()
        invariant
            0 <= i <= ls@.len(),
            fence_chars@ == fence(),
            first_content_line(view_lines(ls@)) == first_content_line(
                view_lines(ls@).skip(i as int),
            ),
        decreases ls@.len() - i,
    {
        assert(view_lines(ls@).skip(i as int).drop_first() =~= view_lines(ls@).skip(i + 1));
        assert(view_lines(ls@).skip(i as int)[0] == ls@[i as int]@);
        let t = trim_chars(&ls[i]);
        if !starts_with(&t, &fence_chars) && t.len() > 0 {
            return Some(t);
        }
        i += 1;
    }
    assert(view_lines(ls@).skip(i as int).len() == 0);
    None
}

fn drop_preamble_exec(line: Vec<char>) -> (r: Vec<char>)
    ensures
        r@ == drop_preamble(line@),
{
    let line_str = string_of(&line);
    let hit = regex_is_match(PREAMBLE_PATTERN, line_str.as_str());
    strip_preamble(line, hit == Some(true))
}

/// A line the preamble pattern matched (`hit`) loses everything through its first colon,
/// unless nothing follows it; any other line stays as it is.
pub fn strip_preamble(line: Vec<char>, hit: bool) -> (r: Vec<char>)
    ensures
        r@ == if hit && after_first_colon(line@).len() > 0 {
            after_first_colon(line@)
        } else {
            line@
        },
{
    if hit {
        if let Some(i) = index_of_chars(&line, ':') {
            proof {
                lemma_index_of(line@, ':');
            }
            let n = line.len();
            assert(i < n);
            let after = copy_range(&line, i + 1, n);
            let rest = trim_chars(&after);
            if rest.len() > 0 {
                return rest;
            }
        }
    }
    line
}

fn is_quote_char_exec(c: char) -> (r: bool)
    ensures
        r == is_quote_char(c),
{
    c == '"' || c == '\'' || c == '`'
}

fn unwrap_pairs_exec(t: Vec<char>) -> (r: Vec<char>)
    ensures
        r@ == unwrap_pairs(t@),
{
    let ghost orig = t@;
    let mut t = t;
    while t.len() >= 2 && t[0] == t[t.len() - 1] && is_quote_char_exec(t[0])
        invariant
            unwrap_pairs(t@) == unwrap_pairs(orig),
        decreases t@.len(),
    {
        let inner = copy_range(&t, 1, t.len() - 1);
        proof {
            lemma_trim_len(inner@);
        }
        t = trim_chars(&inner);
    }
    t
}

fn strip_delimiters_exec(line: &[char]) -> (r: Vec<char>)
    ensures
        r@ == strip_delimiters(line@),
{
    let leaders = ['#', '/', '*'];
    assert(leaders@ =~= leader_chars());
    let close = ['*', '/'];
    let a = trim_start_chars(&trim_start_set_chars(line, &leaders));
    let b = trim_end_str_chars(&trim_end_chars(&a), &close);
    assert(close@ =~= seq!['*', '/']);
    trim_end_chars(&b)
}

fn collapse_ws_exec(s: &[char]) -> (r: Vec<char>)
    ensures
        r@ == collapse_ws(s@),
{
    let ws = split_ws(s);
    let sp = [' '];
    assert(sp@ =~= seq![' ']);
    join_chars(&ws, &sp)
}

fn is_junk_exec(c: &[char]) -> (r: bool)
    ensures
        r == is_junk(c@),
{
    if c.len() == 0 {
        return true;
    }
    let mut any_alnum = false;
    let mut i: usize = 0;
    while i < c.len()
        invariant
            0 <= i <= c@.len(),
            any_alnum == exists|k: int| 0 <= k < i && unicode_alphanumeric(#[trigger] c@[k]),
        decreases c@.len() - i,
    {
        if is_alphanumeric(c[i]) {
            any_alnum = true;
        }
        i += 1;
    }
    if !any_alnum {
        return true;
    }
    let single_ascii = !has_char(c, ' ') && c.len() == 1 && (c[0] as u32) < 0x80;
    single_ascii
}

/// Take the first non-empty, non-fence line, trim, strip a leading conversational preamble,
/// strip wrapping quotes/backticks, strip a leading "#", "//" or "*" run, collapse internal
/// whitespace, strip trailing "*/". Returns "" if nothing usable remains (e.g. the cleaned
/// text is empty, only punctuation, or a single very short token).
pub fn clean_reply(raw: &str) -> (r: String)
    ensures
        r@ == spec_clean_reply(raw@),
{
    let chars = chars_of(raw);
    let ls = lines(&chars);
    match first_content_line_exec(&ls) {
        None => String::new(),
        Some(line) => {
            let a = drop_preamble_exec(line);
            let b = unwrap_pairs_exec(a);
            let c = strip_delimiters_exec(&b);
            let d = collapse_ws_exec(&c);
            if is_junk_exec(&d) {
                String::new()
            } else {
                string_of(&d)
            }
        },
    }
}

/// What the model decided about a docstring.
#[derive(Debug, Clone, PartialEq, Eq)]
pub enum DocVerdict {
    /// The docstring carries nothing a caller needs; remove it.
    Delete,
    /// Replace the docstring with this text (lines joined with '\n', trimmed).
    Text(String),
}

/// What the model is shown about one docstring.
pub struct DocRequest<'a> {
    pub kind: &'a str,
    pub name: &'a str,
    pub signature: &'a str,
    pub is_test: bool,
    pub in_test_file: bool,
    pub text: &'a str,
    pub body_preview: &'a [String],
    pub body_lines: usize,
}

/// Matches a leading conversational preamble line before the DELETE/KEEP marker, e.g.
/// "Docstring:", "Here is the rewritten docstring:", "Sure:".
pub const DOC_PREAMBLE_PATTERN: &'static str =
    r"(?i)^(docstring|here('s| is)\b.*|sure|certainly)\s*:?\s*$";

/// The lines of a reply that are not code-fence markers (after leading whitespace).
pub open spec fn non_fence_lines(ls: Seq<Seq<char>>) -> Seq<Seq<char>>
    decreases ls.len(),
{
    if ls.len() == 0 {
        seq![]
    } else {
        let rest = non_fence_lines(ls.drop_last());
        if is_fence(trim_start(ls.last())) {
            rest
        } else {
            rest.push(ls.last())
        }
    }
}

/// Drops leading lines that are blank or a conversational preamble.
pub open spec fn drop_leading_filler(ls: Seq<Seq<char>>) -> Seq<Seq<char>>
    decreases ls.len(),
{
    if ls.len() > 0 && (trim(ls[0]).len() == 0 || pattern_matches(
        DOC_PREAMBLE_PATTERN@,
        trim(ls[0]),
    )) {
        drop_leading_filler(ls.drop_first())
    } else {
        ls
    }
}

/// Three double quotes.
pub open spec fn triple_dq() -> Seq<char> {
    seq!['"', '"', '"']
}

/// Three single quotes.
pub open spec fn triple_sq() -> Seq<char> {
    seq!['\'', '\'', '\'']
}

/// Repeatedly strips a matching pair of triple quotes (double or single), or a matching pair of
/// single quote characters, around the text, trimming after each.
pub open spec fn unwrap_quotes(t: Seq<char>) -> Seq<char>
    decreases t.len(),
{
    if t.len() >= 6 && ((has_prefix(t, triple_dq()) && has_suffix(t, triple_dq())) || (
    has_prefix(t, triple_sq()) && has_suffix(t, triple_sq()))) {
        let inner = t.subrange(3, t.len() - 3);
        proof {
            lemma_trim_len(inner);
        }
        unwrap_quotes(trim(inner))
    } else if t.len() >= 2 && t[0] == t.last() && is_quote_char(t[0]) {
        let inner = t.subrange(1, t.len() - 1);
        proof {
            lemma_trim_len(inner);
        }
        unwrap_quotes(trim(inner))
    } else {
        t
    }
}

/// The trimmed text with any wrapping quotes removed, repeatedly.
pub open spec fn spec_strip_wrapping_quotes(s: Seq<char>) -> Seq<char> {
    unwrap_quotes(trim(s))
}

/// Number of leading empty lines.
pub open spec fn empty_prefix_len(ls: Seq<Seq<char>>) -> nat
    decreases ls.len(),
{
    if ls.len() > 0 && ls[0].len() == 0 {
        1 + empty_prefix_len(ls.drop_first())
    } else {
        0
    }
}

/// Number of trailing empty lines.
pub open spec fn empty_suffix_len(ls: Seq<Seq<char>>) -> nat
    decreases ls.len(),
{
    if ls.len() > 0 && ls.last().len() == 0 {
        1 + empty_suffix_len(ls.drop_last())
    } else {
        0
    }
}

/// Each run of consecutive empty lines shortened to one.
pub open spec fn collapse_blank_runs(ls: Seq<Seq<char>>) -> Seq<Seq<char>>
    decreases ls.len(),
{
    if ls.len() == 0 {
        seq![]
    } else {
        let c = collapse_blank_runs(ls.drop_last());
        if ls.last().len() == 0 && ls.len() >= 2 && ls[ls.len() - 2].len() == 0 {
            c
        } else {
            c.push(ls.last())
        }
    }
}

/// Leading and trailing empty lines dropped, runs of empty lines collapsed to one.
pub open spec fn spec_trim_blank_edges_and_collapse(ls: Seq<Seq<char>>) -> Seq<Seq<char>> {
    let a = ls.skip(empty_prefix_len(ls) as int);
    let b = a.take(a.len() - empty_suffix_len(a));
    collapse_blank_runs(b)
}

/// The lines of `text` with trailing whitespace trimmed, then blank edges dropped and blank runs
/// collapsed.
pub open spec fn spec_normalize_lines(text: Seq<char>) -> Seq<Seq<char>> {
    spec_trim_blank_edges_and_collapse(spec_lines(text).map_values(|l: Seq<char>| trim_end(l)))
}

/// Line cap for a docstring rewrite: 2 for a test function/method, 5 for another test
/// docstring, 15 for everything else.
pub open spec fn spec_max_lines(is_test: bool, kind: Seq<char>) -> int {
    if is_test {
        if kind == seq!['f', 'u', 'n', 'c', 't', 'i', 'o', 'n'] {
            2
        } else {
            5
        }
    } else {
        15
    }
}

/// Index of the first whitespace character, or -1.
pub open spec fn index_of_ws(s: Seq<char>) -> int
    decreases s.len(),
{
    if s.len() == 0 {
        -1
    } else if spec_is_ws(s[0]) {
        0
    } else {
        let i = index_of_ws(s.drop_first());
        if i < 0 {
            -1
        } else {
            i + 1
        }
    }
}

/// The first line split at its first whitespace character: the marker before it and the rest
/// after it (`str::split_once(char::is_whitespace)`, or the whole line and nothing).
pub open spec fn split_marker(first: Seq<char>) -> (Seq<char>, Seq<char>) {
    let i = index_of_ws(first);
    if i >= 0 {
        (first.take(i), first.skip(i + 1))
    } else {
        (first, seq![])
    }
}

/// Punctuation tolerated after a DELETE/KEEP marker.
pub open spec fn marker_punct() -> Seq<char> {
    seq!['.', ':', '!', '-']
}

pub open spec fn word_delete() -> Seq<char> {
    seq!['d', 'e', 'l', 'e', 't', 'e']
}

pub open spec fn word_keep() -> Seq<char> {
    seq!['k', 'e', 'e', 'p']
}

/// What `parse_doc_reply` makes of a raw reply: an error, `None` for delete, or the kept text.
pub open spec fn spec_parse_doc_reply(raw: Seq<char>, is_test: bool, kind: Seq<char>) -> Result<
    Option<Seq<char>>,
    ReplyError,
> {
    if all_ws(raw) {
        Err(ReplyError::Empty)
    } else {
        let ls = drop_leading_filler(non_fence_lines(spec_lines(raw)));
        if ls.len() == 0 {
            Err(ReplyError::EmptyAfterCleanup)
        } else {
            let joined = spec_strip_wrapping_quotes(join(ls, seq!['\n']));
            let jl = spec_lines(joined);
            if jl.len() == 0 {
                Err(ReplyError::EmptyAfterCleanup)
            } else {
                let (marker, rest) = split_marker(trim(jl[0]));
                let core = trim_end_set(marker, marker_punct());
                if eq_ignore_ascii_case(core, word_delete()) {
                    Ok(None)
                } else {
                    let text = if eq_ignore_ascii_case(core, word_keep()) {
                        join(seq![trim_start(rest)] + jl.skip(1), seq!['\n'])
                    } else {
                        joined
                    };
                    let normalized = spec_normalize_lines(spec_strip_wrapping_quotes(text));
                    let capped = spec_trim_blank_edges_and_collapse(
                        take_at_most(normalized, spec_max_lines(is_test, kind)),
                    );
                    if normalized.len() == 0 || capped.len() == 0 {
                        Ok(None)
                    } else {
                        Ok(Some(trim(join(capped, seq!['\n']))))
                    }
                }
            }
        }
    }
}

/// The verdict an outcome of `spec_parse_doc_reply` stands for.
pub open spec fn doc_verdict_is(v: DocVerdict, x: Option<Seq<char>>) -> bool {
    match x {
        None => v is Delete,
        Some(t) => v matches DocVerdict::Text(s) && s@ == t,
    }
}

fn non_fence_lines_exec(ls: &Vec<Vec<char>>) -> (r: Vec<Vec<char>>)
    ensures
        view_lines(r@) == non_fence_lines(view_lines(ls@)),
{
    let fence_chars = ['`', '`', '`'];
    assert(fence_chars@ =~= fence());
    let mut out: Vec<Vec<char>> = Vec::new();
    let mut i: usize = 0;
    while i < ls.len()
        invariant
            0 <= i <= ls@.len(),
            fence_chars@ == fence(),
            view_lines(out@) == non_fence_lines(view_lines(ls@).take(i as int)),
        decreases ls@.len() - i,
    {
        assert(view_lines(ls@).take(i + 1).drop_last() =~= view_lines(ls@).take(i as int));
        assert(view_lines(ls@).take(i + 1).last() == ls@[i as int]@);
        let t = trim_start_chars(&ls[i]);
        if !starts_with(&t, &fence_chars) {
            let line = copy_range(&ls[i], 0, ls[i].len());
            assert(line@ =~= ls@[i as int]@);
            let ghost before = out@;
            out.push(line);
            assert(view_lines(out@) =~= view_lines(before).push(line@));
        }
        i += 1;
    }
    assert(view_lines(ls@).take(ls@.len() as int) =~= view_lines(ls@));
    out
}

pub(crate) fn copy_lines_from(ls: &Vec<Vec<char>>, i: usize) -> (r: Vec<Vec<char>>)
    requires
        i <= ls@.len(),
    ensures
        view_lines(r@) == view_lines(ls@).skip(i as int),
{
    let mut out: Vec<Vec<char>> = Vec::new();
    let mut j: usize = i;
    while j < ls.len()
        invariant
            i <= j <= ls@.len(),
            out@.len() == j - i,
            view_lines(out@) == view_lines(ls@).subrange(i as int, j as int),
        decreases ls@.len() - j,
    {
        let line = copy_range(&ls[j], 0, ls[j].len());
        assert(line@ =~= ls@[j as int]@);
        let ghost before = out@;
        out.push(line);
        assert forall|k: int| 0 <= k < j + 1 - i implies #[trigger] view_lines(out@)[k]
            == view_lines(ls@).subrange(i as int, j + 1)[k] by {
            if k < j - i {
                assert(out@[k] == before[k]);
                assert(view_lines(before)[k] == view_lines(ls@).subrange(i as int, j as int)[k]);
            }
        }
        assert(view_lines(out@) =~= view_lines(ls@).subrange(i as int, j + 1));
        j += 1;
    }
    assert(view_lines(ls@).subrange(i as int, ls@.len() as int) =~= view_lines(ls@).skip(
        i as int,
    ));
    out
}

fn drop_leading_filler_exec(ls: &Vec<Vec<char>>) -> (r: Vec<Vec<char>>)
    ensures
        view_lines(r@) == drop_leading_filler(view_lines(ls@)),
{
    let mut i: usize = 0;
    assert(view_lines(ls@).skip(0) =~= view_lines(ls@));
    let mut done = false;
    while i < ls.len() && !done
        invariant
            0 <= i <= ls@.len(),
            drop_leading_filler(view_lines(ls@)) == if done {
                view_lines(ls@).skip(i as int)
            } else {
                drop_leading_filler(view_lines(ls@).skip(i as int))
            },
        decreases ls@.len() - i + if done { 0int } else { 1int },
    {
        let t = trim_chars(&ls[i]);
        let ts = string_of(&t);
        let is_filler = t.len() == 0 || regex_is_match(DOC_PREAMBLE_PATTERN, ts.as_str()) == Some(
            true,
        );
        assert(view_lines(ls@).skip(i as int)[0] == ls@[i as int]@);
        if is_filler {
            assert(view_lines(ls@).skip(i as int).drop_first() =~= view_lines(ls@).skip(i + 1));
            i += 1;
        } else {
            done = true;
        }
    }
    copy_lines_from(ls, i)
}

fn unwrap_quotes_exec(t: Vec<char>) -> (r: Vec<char>)
    ensures
        r@ == unwrap_quotes(t@),
{
    let tdq = ['"', '"', '"'];
    let tsq = ['\'', '\'', '\''];
    assert(tdq@ =~= triple_dq());
    assert(tsq@ =~= triple_sq());
    let ghost orig = t@;
    let mut t = t;
    loop
        invariant
            tdq@ == triple_dq(),
            tsq@ == triple_sq(),
            unwrap_quotes(t@) == unwrap_quotes(orig),
        ensures
            t@ == unwrap_quotes(orig),
        decreases t@.len(),
    {
        let n = t.len();
        if n >= 6 && ((starts_with(&t, &tdq) && ends_with(&t, &tdq)) || (starts_with(&t, &tsq)
            && ends_with(&t, &tsq))) {
            let inner = copy_range(&t, 3, n - 3);
            proof {
                lemma_trim_len(inner@);
            }
            t = trim_chars(&inner);
        } else if n >= 2 && t[0] == t[n - 1] && is_quote_char_exec(t[0]) {
            let inner = copy_range(&t, 1, n - 1);
            proof {
                lemma_trim_len(inner@);
            }
            t = trim_chars(&inner);
        } else {
            break;
        }
    }
    t
}

/// Strip quotes wrapping the whole (trimmed) text: a matching pair of triple quotes, or a
/// matching pair of single quote characters. Repeats until no more wrapping is found.
pub fn strip_wrapping_quotes(s: &[char]) -> (r: Vec<char>)
    ensures
        r@ == spec_strip_wrapping_quotes(s@),
{
    unwrap_quotes_exec(trim_chars(s))
}

/// The text has a matching pair of quote characters around it.
pub open spec fn wrapped_in_quotes(t: Seq<char>) -> bool {
    t.len() >= 2 && t[0] == t.last() && is_quote_char(t[0])
}

proof fn lemma_unwrap_quotes_settles(t: Seq<char>)
    requires
        trim(t) == t,
    ensures
        trim(unwrap_quotes(t)) == unwrap_quotes(t),
        !wrapped_in_quotes(unwrap_quotes(t)),
    decreases t.len(),
{
    if t.len() >= 6 && ((has_prefix(t, triple_dq()) && has_suffix(t, triple_dq())) || (has_prefix(
        t,
        triple_sq(),
    ) && has_suffix(t, triple_sq()))) {
        let inner = t.subrange(3, t.len() - 3);
        lemma_trim_len(inner);
        lemma_trim_idempotent(inner);
        lemma_unwrap_quotes_settles(trim(inner));
    } else if t.len() >= 2 && t[0] == t.last() && is_quote_char(t[0]) {
        let inner = t.subrange(1, t.len() - 1);
        lemma_trim_len(inner);
        lemma_trim_idempotent(inner);
        lemma_unwrap_quotes_settles(trim(inner));
    }
}

/// Stripping wrapping quotes leaves trimmed text with no matching pair of quote characters
/// around it, so stripping again changes nothing.
pub proof fn law_strip_wrapping_quotes_settles(s: Seq<char>)
    ensures
        trim(spec_strip_wrapping_quotes(s)) == spec_strip_wrapping_quotes(s),
        !wrapped_in_quotes(spec_strip_wrapping_quotes(s)),
        spec_strip_wrapping_quotes(spec_strip_wrapping_quotes(s)) == spec_strip_wrapping_quotes(s),
{
    lemma_trim_idempotent(s);
    lemma_unwrap_quotes_settles(trim(s));
    let t = spec_strip_wrapping_quotes(s);
    if t.len() >= 6 && has_prefix(t, triple_dq()) && has_suffix(t, triple_dq()) {
        assert(t.take(3)[0] == t[0]);
        assert(t.skip(t.len() - 3)[2] == t.last());
    }
    if t.len() >= 6 && has_prefix(t, triple_sq()) && has_suffix(t, triple_sq()) {
        assert(t.take(3)[0] == t[0]);
        assert(t.skip(t.len() - 3)[2] == t.last());
    }
}

pub(crate) proof fn lemma_empty_prefix_len(ls: Seq<Seq<char>>, j: int)
    requires
        0 <= j <= ls.len(),
        forall|k: int| 0 <= k < j ==> #[trigger] ls[k].len() == 0,
        j == ls.len() || ls[j].len() > 0,
    ensures
        empty_prefix_len(ls) == j,
    decreases j,
{
    if j > 0 {
        let t = ls.drop_first();
        assert forall|k: int| 0 <= k < j - 1 implies #[trigger] t[k].len() == 0 by {
            assert(t[k] == ls[k + 1]);
        }
        if j < ls.len() {
            assert(t[j - 1] == ls[j]);
        }
        lemma_empty_prefix_len(t, j - 1);
    }
}

pub(crate) proof fn lemma_empty_suffix_len(ls: Seq<Seq<char>>, j: int)
    requires
        0 <= j <= ls.len(),
        forall|k: int| j <= k < ls.len() ==> #[trigger] ls[k].len() == 0,
        j == 0 || ls[j - 1].len() > 0,
    ensures
        empty_suffix_len(ls) == ls.len() - j,
    decreases ls.len() - j,
{
    if j < ls.len() {
        let t = ls.drop_last();
        assert forall|k: int| j <= k < t.len() implies #[trigger] t[k].len() == 0 by {
            assert(t[k] == ls[k]);
        }
        if j > 0 {
            assert(t[j - 1] == ls[j - 1]);
        }
        lemma_empty_suffix_len(t, j);
    }
}

/// Drop leading/trailing blank lines and collapse runs of blank lines to one.
pub fn trim_blank_edges_and_collapse(ls: &Vec<Vec<char>>) -> (r: Vec<Vec<char>>)
    ensures
        view_lines(r@) == spec_trim_blank_edges_and_collapse(view_lines(ls@)),
{
    let ghost v = view_lines(ls@);
    let mut a: usize = 0;
    while a < ls.len() && ls[a].len() == 0
        invariant
            0 <= a <= ls@.len(),
            v == view_lines(ls@),
            forall|k: int| 0 <= k < a ==> #[trigger] v[k].len() == 0,
        decreases ls@.len() - a,
    {
        a += 1;
    }
    proof {
        lemma_empty_prefix_len(v, a as int);
    }
    let ghost va = v.skip(a as int);
    let mut z: usize = ls.len();
    while z > a && ls[z - 1].len() == 0
        invariant
            a <= z <= ls@.len(),
            v == view_lines(ls@),
            va == v.skip(a as int),
            forall|k: int| z <= k < ls@.len() ==> #[trigger] v[k].len() == 0,
        decreases z,
    {
        z -= 1;
    }
    proof {
        assert forall|k: int| z - a <= k < va.len() implies #[trigger] va[k].len() == 0 by {
            assert(va[k] == v[k + a]);
        }
        if z > a {
            assert(va[z - a - 1] == v[z - 1]);
        }
        lemma_empty_suffix_len(va, z - a);
    }
    let ghost vb = va.take(va.len() - empty_suffix_len(va));
    assert(vb =~= v.subrange(a as int, z as int));
    let mut out: Vec<Vec<char>> = Vec::new();
    let mut i: usize = a;
    while i < z
        invariant
            a <= i <= z <= ls@.len(),
            v == view_lines(ls@),
            vb == v.subrange(a as int, z as int),
            view_lines(out@) == collapse_blank_runs(vb.take(i - a)),
        decreases z - i,
    {
        assert(vb.take(i - a + 1).drop_last() =~= vb.take(i - a));
        assert(vb.take(i - a + 1).last() == v[i as int]);
        let blank = ls[i].len() == 0;
        let prev_blank = i > a && ls[i - 1].len() == 0;
        proof {
            if i > a {
                assert(vb.take(i - a + 1)[i - a - 1] == v[i - 1]);
            }
        }
        if !(blank && prev_blank) {
            let line = copy_range(&ls[i], 0, ls[i].len());
            assert(line@ =~= v[i as int]);
            let ghost before = out@;
            out.push(line);
            assert(view_lines(out@) =~= view_lines(before).push(line@));
        }
        i += 1;
    }
    assert(vb.take(z - a) =~= vb);
    out
}

fn trim_end_lines(ls: &Vec<Vec<char>>) -> (r: Vec<Vec<char>>)
    ensures
        view_lines(r@) == view_lines(ls@).map_values(|l: Seq<char>| trim_end(l)),
{
    let mut out: Vec<Vec<char>> = Vec::new();
    let mut i: usize = 0;
    while i < ls.len()
        invariant
            0 <= i <= ls@.len(),
            out@.len() == i,
            view_lines(out@) == view_lines(ls@).take(i as int).map_values(
                |l: Seq<char>| trim_end(l),
            ),
        decreases ls@.len() - i,
    {
        let t = trim_end_chars(&ls[i]);
        let ghost before = out@;
        out.push(t);
        assert forall|k: int| 0 <= k < i + 1 implies #[trigger] view_lines(out@)[k]
            == view_lines(ls@).take(i + 1).map_values(|l: Seq<char>| trim_end(l))[k] by {
            if k < i {
                assert(out@[k] == before[k]);
                assert(view_lines(before)[k] == view_lines(ls@).take(i as int).map_values(
                    |l: Seq<char>| trim_end(l),
                )[k]);
            }
        }
        assert(view_lines(out@) =~= view_lines(ls@).take(i + 1).map_values(
            |l: Seq<char>| trim_end(l),
        ));
        i += 1;
    }
    assert(view_lines(ls@).take(ls@.len() as int) =~= view_lines(ls@));
    out
}

/// Trim trailing whitespace per line, then drop/collapse blank lines.
pub fn normalize_lines(text: &[char]) -> (r: Vec<Vec<char>>)
    ensures
        view_lines(r@) == spec_normalize_lines(text@),
{
    let ls = lines(text);
    let t = trim_end_lines(&ls);
    trim_blank_edges_and_collapse(&t)
}

/// Line cap for the kind of docstring being rewritten: 2 for a test function/method, 5 for a
/// test module/class, 15 for everything else.
pub fn max_lines_for(req: &DocRequest) -> (r: usize)
    ensures
        r == spec_max_lines(req.is_test, req.kind@),
{
    proof {
        reveal_strlit("function");
        assert("function"@ =~= seq!['f', 'u', 'n', 'c', 't', 'i', 'o', 'n']);
    }
    if req.is_test {
        let k = chars_of(req.kind);
        let f = chars_of("function");
        assert(f@ == seq!['f', 'u', 'n', 'c', 't', 'i', 'o', 'n']);
        assert(k@.take(k@.len() as int) =~= k@);
        if k.len() == f.len() && starts_with(&k, &f) {
            assert(k@ =~= f@);
            2
        } else {
            5
        }
    } else {
        15
    }
}

fn index_of_ws_exec(s: &[char]) -> (r: Option<usize>)
    ensures
        match r {
            Some(i) => i == index_of_ws(s@) && i < s@.len(),
            None => index_of_ws(s@) == -1,
        },
{
    let mut i: usize = 0;
    let ghost mut rest = s@;
    while i < s.len()
        invariant
            0 <= i <= s@.len(),
            rest == s@.skip(i as int),
            index_of_ws(s@) == if index_of_ws(rest) < 0 { -1 } else { index_of_ws(rest) + i },
        decreases s@.len() - i,
    {
        assert(rest[0] == s@[i as int]);
        if is_ws(s[i]) {
            return Some(i);
        }
        assert(rest.drop_first() =~= s@.skip(i + 1));
        proof {
            rest = rest.drop_first();
        }
        i += 1;
    }
    assert(rest.len() == 0);
    None
}

fn join_newline(ls: &Vec<Vec<char>>) -> (r: Vec<char>)
    ensures
        r@ == join(view_lines(ls@), seq!['\n']),
{
    let nl = ['\n'];
    assert(nl@ =~= seq!['\n']);
    join_chars(ls, &nl)
}

/// Parse one reply to the docstring-rewrite prompt. Skips code fences, strips a leading
/// preamble line and wrapping quotes, then reads the first remaining line as the verdict marker:
/// `DELETE` (case-insensitive, trailing punctuation tolerated) deletes regardless of anything
/// else in the reply; `KEEP` keeps the rest of the reply as text (empty rest -> Delete); neither
/// marker keeps the whole (cleaned) reply as text. The kept text is then normalized and capped
/// to the line limit for `req`'s kind; an empty result after capping is also Delete. Errors only
/// on a wholly empty reply.
pub fn parse_doc_reply(raw: &str, req: &DocRequest) -> (r: Result<DocVerdict, ReplyError>)
    ensures
        match spec_parse_doc_reply(raw@, req.is_test, req.kind@) {
            Err(e) => r == Err::<DocVerdict, ReplyError>(e),
            Ok(x) => r matches Ok(v) && doc_verdict_is(v, x),
        },
{
    let raw_chars = chars_of(raw);
    if is_blank(&raw_chars) {
        return Err(ReplyError::Empty);
    }
    let all = lines(&raw_chars);
    let no_fence = non_fence_lines_exec(&all);
    let ls = drop_leading_filler_exec(&no_fence);
    if ls.len() == 0 {
        return Err(ReplyError::EmptyAfterCleanup);
    }
    let joined = strip_wrapping_quotes(&join_newline(&ls));
    let jl = lines(&joined);
    if jl.len() == 0 {
        return Err(ReplyError::EmptyAfterCleanup);
    }
    let first = trim_chars(&jl[0]);
    let (marker, rest) = match index_of_ws_exec(&first) {
        Some(i) => {
            let n = first.len();
            (copy_range(&first, 0, i), copy_range(&first, i + 1, n))
        },
        None => (copy_range(&first, 0, first.len()), Vec::new()),
    };
    proof {
        assert(first@.subrange(0, first@.len() as int) =~= first@);
    }
    let punct = ['.', ':', '!', '-'];
    assert(punct@ =~= marker_punct());
    let core = trim_end_set_chars(&marker, &punct);
    let del = ['d', 'e', 'l', 'e', 't', 'e'];
    let keep = ['k', 'e', 'e', 'p'];
    assert(del@ =~= word_delete());
    assert(keep@ =~= word_keep());
    if eq_ignore_ascii_case_chars(&core, &del) {
        return Ok(DocVerdict::Delete);
    }
    let text = if eq_ignore_ascii_case_chars(&core, &keep) {
        let mut rest_lines: Vec<Vec<char>> = Vec::new();
        rest_lines.push(trim_start_chars(&rest));
        let mut tail = copy_lines_from(&jl, 1);
        let ghost first_part = rest_lines@;
        rest_lines.append(&mut tail);
        assert(view_lines(rest_lines@) =~= seq![trim_start(rest@)] + view_lines(jl@).skip(1));
        join_newline(&rest_lines)
    } else {
        joined
    };
    let unquoted = strip_wrapping_quotes(&text);
    let normalized = normalize_lines(&unquoted);
    if normalized.len() == 0 {
        return Ok(DocVerdict::Delete);
    }
    let cap = max_lines_for(req);
    let capped = trim_blank_edges_and_collapse(&take_lines(&normalized, cap));
    if capped.len() == 0 {
        return Ok(DocVerdict::Delete);
    }
    let out = trim_chars(&join_newline(&capped));
    Ok(DocVerdict::Text(string_of(&out)))
}

/// Decimal digits of `n`, most significant first.
pub open spec fn decimal(n: nat) -> Seq<char>
    decreases n,
{
    if n < 10 {
        seq![digit_char(n)]
    } else {
        decimal(n / 10).push(digit_char(n % 10))
    }
}

/// The character of a single decimal digit.
pub open spec fn digit_char(d: nat) -> char {
    if d == 0 { '0' } else if d == 1 { '1' } else if d == 2 { '2' } else if d == 3 { '3' }
    else if d == 4 { '4' } else if d == 5 { '5' } else if d == 6 { '6' } else if d == 7 { '7' }
    else if d == 8 { '8' } else { '9' }
}

fn digit_char_exec(d: usize) -> (c: char)
    requires
        d < 10,
    ensures
        c == digit_char(d as nat),
{
    if d == 0 { '0' } else if d == 1 { '1' } else if d == 2 { '2' } else if d == 3 { '3' }
    else if d == 4 { '4' } else if d == 5 { '5' } else if d == 6 { '6' } else if d == 7 { '7' }
    else if d == 8 { '8' } else { '9' }
}

/// Decimal rendering of `n` (`usize`'s `Display`).
pub fn decimal_chars(n: usize) -> (r: Vec<char>)
    ensures
        r@ == decimal(n as nat),
{
    decimal_chars_u64(n as u64)
}

/// Decimal rendering of `n` (`u64`'s `Display`).
pub fn decimal_chars_u64(n: u64) -> (r: Vec<char>)
    ensures
        r@ == decimal(n as nat),
    decreases n,
{
    let c = digit_char_exec((n % 10) as usize);
    if n < 10 {
        let mut v: Vec<char> = Vec::new();
        v.push(c);
        assert(v@ =~= seq![digit_char(n as nat)]);
        v
    } else {
        let mut v = decimal_chars_u64(n / 10);
        v.push(c);
        v
    }
}

/// Bound what we send: traps are stated early, and long blocks are mostly story.
pub const MAX_PROSE_WORDS: usize = 150;
pub const MAX_CONTEXT_CHARS: usize = 80;

/// The user message for one comment block: its prose (first 150 words) and, when there is
/// one, the next code line (first 80 characters).
pub open spec fn spec_user_message(prose: Seq<char>, context: Seq<char>) -> Seq<char> {
    let body = "Comment:\n"@ + join(take_at_most(words(prose), MAX_PROSE_WORDS as int), seq![' ']);
    if context.len() > 0 {
        body + "\n\nNext code line: "@ + take_at_most(context, MAX_CONTEXT_CHARS as int)
    } else {
        body
    }
}

pub fn user_message(prose: &str, context: &str) -> (r: String)
    ensures
        r@ == spec_user_message(prose@, context@),
{
    let sp = [' '];
    assert(sp@ =~= seq![' ']);
    let ws = split_ws(&chars_of(prose));
    let mut m = chars_of("Comment:\n");
    push_all(&mut m, &join_chars(&take_lines(&ws, MAX_PROSE_WORDS), &sp));
    let ctx = chars_of(context);
    if ctx.len() > 0 {
        push_all(&mut m, &chars_of("\n\nNext code line: "));
        push_all(&mut m, &take_chars(&ctx, MAX_CONTEXT_CHARS));
    }
    string_of(&m)
}

/// Docstrings start with the summary, so truncating the tail costs little.
pub const MAX_DOC_WORDS: usize = 250;

/// The views of a slice of strings.
pub open spec fn string_views(v: Seq<String>) -> Seq<Seq<char>> {
    v.map_values(|s: String| s@)
}

/// The user message for one docstring: kind, name and signature when known, whether it is test
/// code, the body's size and first lines, then its text (first 250 words).
pub open spec fn spec_doc_user_message(
    kind: Seq<char>,
    name: Seq<char>,
    signature: Seq<char>,
    is_test: bool,
    in_test_file: bool,
    text: Seq<char>,
    body_preview: Seq<Seq<char>>,
    body_lines: nat,
) -> Seq<char> {
    let head = "Kind: "@ + kind + (if name.len() > 0 {
        "\nName: "@ + name
    } else {
        seq![]
    }) + (if signature.len() > 0 {
        "\nSignature: "@ + signature
    } else {
        seq![]
    });
    let test = "\nTest: "@ + if is_test {
        "yes"@
    } else if in_test_file {
        "no (in a test file)"@
    } else {
        "no"@
    };
    let body = "\nBody: "@ + decimal(body_lines) + " lines"@ + (if body_preview.len() > 0 {
        "\n"@ + join(body_preview, seq!['\n'])
    } else {
        seq![]
    });
    head + test + body + "\n\nDocstring:\n"@ + join(
        take_at_most(words(text), MAX_DOC_WORDS as int),
        seq![' '],
    )
}

fn strings_to_lines(v: &[String]) -> (r: Vec<Vec<char>>)
    ensures
        view_lines(r@) == string_views(v@),
{
    let mut out: Vec<Vec<char>> = Vec::new();
    let mut i: usize = 0;
    while i < v.len()
        invariant
            0 <= i <= v@.len(),
            out@.len() == i,
            view_lines(out@) == string_views(v@).take(i as int),
        decreases v@.len() - i,
    {
        let l = chars_of(v[i].as_str());
        let ghost before = out@;
        out.push(l);
        assert forall|k: int| 0 <= k < i + 1 implies #[trigger] view_lines(out@)[k]
            == string_views(v@).take(i + 1)[k] by {
            if k < i {
                assert(out@[k] == before[k]);
                assert(view_lines(before)[k] == string_views(v@).take(i as int)[k]);
            }
        }
        assert(view_lines(out@) =~= string_views(v@).take(i + 1));
        i += 1;
    }
    assert(string_views(v@).take(v@.len() as int) =~= string_views(v@));
    out
}

#[verifier::rlimit(50)]
pub fn doc_user_message(req: &DocRequest) -> (r: String)
    ensures
        r@ == spec_doc_user_message(
            req.kind@,
            req.name@,
            req.signature@,
            req.is_test,
            req.in_test_file,
            req.text@,
            string_views(req.body_preview@),
            req.body_lines as nat,
        ),
{
    let sp = [' '];
    assert(sp@ =~= seq![' ']);
    let nl = ['\n'];
    assert(nl@ =~= seq!['\n']);
    let mut m = chars_of("Kind: ");
    push_all(&mut m, &chars_of(req.kind));
    let name = chars_of(req.name);
    if name.len() > 0 {
        push_all(&mut m, &chars_of("\nName: "));
        push_all(&mut m, &name);
    }
    let sig = chars_of(req.signature);
    if sig.len() > 0 {
        push_all(&mut m, &chars_of("\nSignature: "));
        push_all(&mut m, &sig);
    }
    let ghost head = m@;
    push_all(&mut m, &chars_of("\nTest: "));
    if req.is_test {
        push_all(&mut m, &chars_of("yes"));
    } else if req.in_test_file {
        push_all(&mut m, &chars_of("no (in a test file)"));
    } else {
        push_all(&mut m, &chars_of("no"));
    }
    let ghost test_end = m@;
    push_all(&mut m, &chars_of("\nBody: "));
    push_all(&mut m, &decimal_chars(req.body_lines));
    push_all(&mut m, &chars_of(" lines"));
    if req.body_preview.len() > 0 {
        push_all(&mut m, &chars_of("\n"));
        push_all(&mut m, &join_chars(&strings_to_lines(req.body_preview), &nl));
    }
    push_all(&mut m, &chars_of("\n\nDocstring:\n"));
    let ws = split_ws(&chars_of(req.text));
    push_all(&mut m, &join_chars(&take_lines(&ws, MAX_DOC_WORDS), &sp));
    string_of(&m)
}

/// A two-character verdict class code: the class letter then a digit (`D3`, `K1`).
pub open spec fn is_class_code(code: Seq<char>, letter: char) -> bool {
    code.len() == 2 && code[0] == letter && '0' <= code[1] && code[1] <= '9'
}

/// What the summary reply says: `None` to delete the block, or the line to keep.
pub open spec fn spec_parse_summary_reply(raw: Seq<char>, max_words: nat) -> Result<
    Option<Seq<char>>,
    ReplyError,
> {
    let c = spec_clean_reply(raw);
    if c.len() == 0 {
        Err(ReplyError::EmptyAfterCleanup)
    } else {
        let i = index_of(c, ' ');
        let code0 = if i >= 0 { c.take(i) } else { c };
        let rest = if i >= 0 { c.skip(i + 1) } else { seq![] };
        let code = trim_end_set(code0, seq![':', '.', '-']);
        if is_class_code(code, 'D') || eq_ignore_ascii_case(code, word_delete()) {
            Ok(None)
        } else {
            let kept = if is_class_code(code, 'K') { trim(rest) } else { c };
            if kept.len() == 0 {
                Ok(None)
            } else if words(kept).len() > 2 * max_words {
                Err(ReplyError::TooLong(words(kept).len() as usize))
            } else {
                Ok(Some(kept))
            }
        }
    }
}

/// The verdict an outcome of `spec_parse_summary_reply` stands for.
pub open spec fn verdict_is(v: Verdict, x: Option<Seq<char>>) -> bool {
    match x {
        None => v is Delete,
        Some(t) => v matches Verdict::Line(s) && s@ == t,
    }
}

fn is_class_code_exec(code: &[char], letter: char) -> (r: bool)
    ensures
        r == is_class_code(code@, letter),
{
    code.len() == 2 && code[0] == letter && '0' <= code[1] && code[1] <= '9'
}

/// Reads the model's reply about a comment block. Reply shape: "D3" (delete) or "K1 <line>"
/// (keep); a bare DELETE is tolerated too. A keep class with no line after it deletes (the model
/// could not say what the trap is). Errors when nothing usable is left after cleanup or the
/// kept line runs past twice `max_words`.
pub fn parse_summary_reply(raw: &str, max_words: usize) -> (r: Result<Verdict, ReplyError>)
    ensures
        match spec_parse_summary_reply(raw@, max_words as nat) {
            Err(e) => r == Err::<Verdict, ReplyError>(e),
            Ok(x) => r matches Ok(v) && verdict_is(v, x),
        },
{
    let cleaned = clean_reply(raw);
    let c = chars_of(cleaned.as_str());
    if c.len() == 0 {
        return Err(ReplyError::EmptyAfterCleanup);
    }
    let (code0, rest) = match index_of_chars(&c, ' ') {
        Some(i) => {
            proof {
                lemma_index_of(c@, ' ');
            }
            let n = c.len();
            (copy_range(&c, 0, i), copy_range(&c, i + 1, n))
        },
        None => (copy_range(&c, 0, c.len()), Vec::new()),
    };
    assert(c@.subrange(0, c@.len() as int) =~= c@);
    let punct = [':', '.', '-'];
    assert(punct@ =~= seq![':', '.', '-']);
    let code = trim_end_set_chars(&code0, &punct);
    let del = ['d', 'e', 'l', 'e', 't', 'e'];
    assert(del@ =~= word_delete());
    if is_class_code_exec(&code, 'D') || eq_ignore_ascii_case_chars(&code, &del) {
        return Ok(Verdict::Delete);
    }
    let kept = if is_class_code_exec(&code, 'K') {
        trim_chars(&rest)
    } else {
        c
    };
    if kept.len() == 0 {
        return Ok(Verdict::Delete);
    }
    let word_count = split_ws(&kept).len();
    if word_count > max_words && word_count - max_words > max_words {
        return Err(ReplyError::TooLong(word_count));
    }
    Ok(Verdict::Line(string_of(&kept)))
}

/// System prompt for comment verdicts; `{max_words}` is replaced with the word limit.
pub const SYSTEM_PROMPT: &'static str = "You classify a source code comment and reply with exactly one line. First the class \
code (K1-K7 or D1-D8 below). For a D class that is the whole reply. For a K class, follow the code \
with a space and a replacement comment of at most {max_words} words. No quotes, no markdown, no \
preamble, no comment delimiters.\n\n\
KEEP only if the comment falls in one of these classes:\n\
K1 Library, runtime, OS or browser quirk: the call behaves differently than its name or docs \
suggest (silently drops, reuses, truncates, fires twice, hangs) and this code works around it.\n\
K2 Ordering requirement: this line must come before or after another or something breaks silently.\n\
K3 Shared or mutable state hazard: lock must be held, object shared across threads, instances or \
requests, must not be mutated.\n\
K4 Security or privacy hazard: the value holds secrets or untrusted input; never log, never trust.\n\
K5 Unit, index or encoding mismatch that the code does not show: seconds vs milliseconds, device \
vs CSS pixels, sectors vs bytes, 1-indexed vs 0-indexed. If the code line already converts \
(* 1000, + 1, errors=...) it is visible and not K5.\n\
K6 Silent failure: without this exact form something hangs, leaks or loses data with no error.\n\
K7 Looks like a bug or dead code but is required: an unused parameter a framework needs, a \
redundant-looking call that must stay. Not for compatibility notes or design choices.\n\n\
DELETE if the comment is any of these, even when phrased as a warning:\n\
D1 Describes what the code does or the steps it takes.\n\
D2 Justifies a call or operator whose name already says why: compare_digest, safe_load, freeze, \
debounce, ??, range bounds.\n\
D3 History: tickets, authors, dates, past bugs, what the code used to do.\n\
D4 Describes other modules, services or files, or what must be kept in sync elsewhere.\n\
D5 General education about a library or language feature.\n\
D6 Section banners, overviews, tables of contents, plans.\n\
D7 Commented-out code, apologies, opinions, tuning anecdotes.\n\
D8 Merely useful context that does not prevent a mistake.\n\n\
Before choosing a K class, check the next code line: if the identifier, argument name, operator \
or arithmetic on it already reveals the fact (safe_load, compare_digest, errors='replace', \
?? '', * 1000, + 1, allow_redirects=False) the reader can see it and the class is D2.\n\n\
When you keep, write the line as: the trap, then a semicolon, then what to do. Name the library \
or identifier. Drop the story, the reasoning and the consequences beyond the trap itself. \
Example reply: K1 requests drops Authorization on cross-host redirects; follow them manually. \
Most comments are a D class.";

/// System prompt for docstring verdicts.
pub const DOC_SYSTEM_PROMPT: &'static str = "You rewrite or delete one source-code docstring. Reply with exactly one of two \
shapes and nothing else: the single word DELETE, or the word KEEP followed by the replacement \
docstring text on the lines after it. Plain prose only: no quotes, no triple-quotes, no markdown, \
no preamble.\n\n\
A docstring earns its place only when it states a contract for the CALLER: which parameters or \
fields matter and why, the return contract, a gotcha, a call-order or ordering hazard, an \
invariant not visible in the signature, or when to reach for this over an alternative. It must \
stay true after the body is rewritten -- it describes the contract, not the implementation.\n\n\
DELETE when the docstring: narrates what the code does step by step; restates the name or \
signature in words; reads like a spec written before the code (re-typing arguments or a request \
schema the signature or types already show); carries a ticket, PR number, author, date, or phase \
label; argues architecture or product rationale instead of usage; counts or lists today's \
callers; sits on a trivial one-liner, pass-through, dunder, or plain data class where the name \
and signature already say it; or is a maintenance note (\"TEMPORARY\", \"delete this file\").\n\n\
KEEP (rewritten) only the buried contract or hazard, terse, no story, when one is genuinely \
there.\n\n\
Test code is different: a test function or method docstring says what it guards or tests, at \
most 2 lines. A test module or test class docstring is at most one short paragraph -- 5 lines, \
about 80 words -- and is DELETE outright if the tests are self-explanatory. Non-test docstrings: \
a one-line summary first, then at most one short paragraph or a short Args/Returns list, 15 lines \
hard maximum. Most docstrings on ordinary code are DELETE.";

// The comment prose of the few-shot demos below, each shown with its next code line and reply.
pub const DEMO_EXPIRED: &'static str =
    "Loop over each user in the list and check whether their subscription has expired. If it \
     has, add them to the expired list so we can send the reminder email later on in the batch job.";

pub const DEMO_LOCK: &'static str =
    "Important: this must be called with the lock held. The cache map is not thread safe and \
     we've seen corruption in production when two workers refresh at the same time. See the \
     incident from last March.";

pub const DEMO_TIMING: &'static str =
    "We use compare_digest here instead of == because == short-circuits on the first differing \
     byte and an attacker could measure the response time to learn the token one byte at a time. \
     This is a classic timing attack.";

pub const DEMO_LEGACY: &'static str =
    "Previously this used the legacy HttpClient from utils/http, but that was removed in the v3 \
     refactor (ticket PLAT-2211). The new fetch wrapper handles retries itself, so we just call \
     it here and let the middleware layer deal with auth headers.";

pub const DEMO_TIMEOUT: &'static str =
    "Note that the timeout here is in seconds, not milliseconds like everywhere else in this \
     file, because the upstream API multiplies it by 1000 on its side. Passing 5000 here means \
     the request will wait over an hour.";

pub const DEMO_FREEZE: &'static str =
    "We freeze the config object so that nothing downstream can accidentally mutate it. An \
     earlier version had a nasty bug where a plugin overwrote the base URL at runtime and every \
     request went to the wrong host.";

pub const DEMO_REDUCE: &'static str =
    "We use Array.prototype.reduce here to build up the lookup object in a single pass. reduce \
     takes an accumulator and the current item and returns the new accumulator, which is more \
     efficient than creating a new object each iteration with the spread operator.";

pub const DEMO_SLEEP: &'static str =
    "Ugly hack: we sleep for 50ms before closing because the underlying C library (libfoo 2.3) \
     drops the last buffered write if close() is called immediately after write(). This is fixed \
     upstream in 2.4 but we can't upgrade yet.";

pub const DEMO_DEBOUNCE: &'static str =
    "Wait 300ms after the last keystroke before firing the search so that we don't hammer the \
     API with a request per character. 300 felt about right in testing; 500 felt laggy.";

pub const DEMO_TOTAL: &'static str =
    "Initialize the running total to zero. Then for every row that matches the filter, add its \
     amount to the total. Finally return the total to the caller.";

pub const DEMO_DECODE: &'static str =
    "We decode with errors='replace' here because the partner feed occasionally contains \
     invalid UTF-8 sequences and we would rather show a replacement character than crash the \
     whole import for one bad row.";

pub const DEMO_LOCALE: &'static str =
    "The fallback locale is 'en' because that is the only bundle guaranteed to ship with every \
     build; the others are loaded lazily from the CDN and may be missing in offline mode.";

/// Few-shot demos for comment verdicts: (comment prose, next code line, expected reply).
pub fn demos() -> (r: Vec<(&'static str, &'static str, &'static str)>)
    ensures
        r@ == seq![
            (DEMO_EXPIRED, "for user in users:", "D1"),
            (DEMO_LOCK, "def _refresh_cache(self):", "K3 caller must hold self._lock; the cache map is not thread safe"),
            (DEMO_TIMING, "if not hmac.compare_digest(provided, expected):", "D2"),
            (DEMO_LEGACY, "const res = await fetchJson(url);", "D3"),
            (DEMO_TIMEOUT, "timeout: 5,", "K5 timeout is seconds, not ms; upstream multiplies by 1000"),
            (DEMO_FREEZE, "export const config = Object.freeze({", "D2"),
            (DEMO_REDUCE, "const byId = items.reduce((acc, item) => {", "D5"),
            (DEMO_SLEEP, "time.sleep(0.05)", "K1 libfoo 2.3 drops the last buffered write if close() follows write() immediately"),
            (DEMO_DEBOUNCE, "const search = debounce(runSearch, 300);", "D7"),
            (DEMO_TOTAL, "total = 0", "D1"),
            (DEMO_DECODE, "lines = raw.decode(\"utf-8\", errors=\"replace\").splitlines()", "D2"),
            (DEMO_LOCALE, "const locale = SUPPORTED.has(wanted) ? wanted : 'en';", "D8"),
        ],
{
    vec![
        (DEMO_EXPIRED, "for user in users:", "D1"),
        (DEMO_LOCK, "def _refresh_cache(self):", "K3 caller must hold self._lock; the cache map is not thread safe"),
        (DEMO_TIMING, "if not hmac.compare_digest(provided, expected):", "D2"),
        (DEMO_LEGACY, "const res = await fetchJson(url);", "D3"),
        (DEMO_TIMEOUT, "timeout: 5,", "K5 timeout is seconds, not ms; upstream multiplies by 1000"),
        (DEMO_FREEZE, "export const config = Object.freeze({", "D2"),
        (DEMO_REDUCE, "const byId = items.reduce((acc, item) => {", "D5"),
        (DEMO_SLEEP, "time.sleep(0.05)", "K1 libfoo 2.3 drops the last buffered write if close() follows write() immediately"),
        (DEMO_DEBOUNCE, "const search = debounce(runSearch, 300);", "D7"),
        (DEMO_TOTAL, "total = 0", "D1"),
        (DEMO_DECODE, "lines = raw.decode(\"utf-8\", errors=\"replace\").splitlines()", "D2"),
        (DEMO_LOCALE, "const locale = SUPPORTED.has(wanted) ? wanted : 'en';", "D8"),
    ]
}

/// One few-shot demo for docstring verdicts: what the model is shown and the reply it should
/// give.
pub struct DocDemo {
    pub kind: &'static str,
    pub name: &'static str,
    pub signature: &'static str,
    pub is_test: bool,
    pub in_test_file: bool,
    pub text: &'static str,
    pub body_preview: Vec<&'static str>,
    pub body_lines: usize,
    pub reply: &'static str,
}

/// A demo holds these fields.
pub open spec fn demo_holds(
    d: DocDemo,
    kind: &'static str,
    name: &'static str,
    signature: &'static str,
    is_test: bool,
    in_test_file: bool,
    text: &'static str,
    body_preview: Seq<&'static str>,
    body_lines: usize,
    reply: &'static str,
) -> bool {
    &&& d.kind == kind
    &&& d.name == name
    &&& d.signature == signature
    &&& d.is_test == is_test
    &&& d.in_test_file == in_test_file
    &&& d.text == text
    &&& d.body_preview@ == body_preview
    &&& d.body_lines == body_lines
    &&& d.reply == reply
}

/// Few-shot demos for docstring verdicts. Nine categories: bloated test module, bloated test
/// function, name-restating one-liner, implementation narration, history/ticket, a real
/// call-order hazard, a pass-through/dunder, a class with real invariants, a caller headcount.
#[allow(clippy::too_many_arguments)]
fn doc_demo(
    kind: &'static str,
    name: &'static str,
    signature: &'static str,
    is_test: bool,
    in_test_file: bool,
    text: &'static str,
    body_preview: Vec<&'static str>,
    body_lines: usize,
    reply: &'static str,
) -> (r: DocDemo)
    ensures
        demo_holds(r, kind, name, signature, is_test, in_test_file, text, body_preview@, body_lines, reply),
{
    DocDemo { kind, name, signature, is_test, in_test_file, text, body_preview, body_lines, reply }
}

// The docstring texts and kept replies of the few-shot demos below.
pub const DOC_DEMO_TEST_MODULE: &'static str =
    "This test module covers the widget-export pipeline end to end.\n\n\
     It was added in the Q3 hardening pass (see TICKET-881) after a production incident \
     where a malformed template crashed the export worker. Below we test happy path export, \
     template validation, and the retry logic that handles a transient upload failure. \
     Please keep new tests in this file rather than creating widget_export_test_extra.py.";

pub const DOC_REPLY_TEST_MODULE: &'static str =
    "KEEP\nCovers the widget-export pipeline: happy-path export, template\nvalidation, and retry on a transient upload failure.";

pub const DOC_DEMO_TEST_RETRY: &'static str =
    "This test checks that the retry helper stops calling the flaky upload function after \
     three attempts and raises the last error it saw. We set up a mock that fails every \
     time, call retry_upload three times, and assert that a fourth call never happens. This \
     guards against a past regression (JIRA-2290) where the loop ran forever.";

pub const DOC_REPLY_TEST_RETRY: &'static str =
    "KEEP\nRetry gives up after 3 attempts and raises the last error, rather than\nlooping forever.";

pub const DOC_DEMO_MARK_READ: &'static str =
    "Mark the notification as read.";

pub const DOC_DEMO_NORMALIZE: &'static str =
    "Loop over each tag, strip whitespace, lowercase it, and skip any tag that becomes empty \
     after stripping. Then dedupe the list while preserving order and return it.";

pub const DOC_DEMO_LEGACY: &'static str =
    "Legacy export shim for the old CSV format.\n\n\
     TEMPORARY: kept only until the billing team finishes migrating off the v1 report \
     endpoint (BILL-1042). Delete this module once billing/reports.py no longer imports \
     from here -- check callers before removing.";

pub const DOC_DEMO_HOLD: &'static str =
    "Releases the payment hold on an order before the final charge runs.\n\n\
     Call this before charge_order, never after: charge_order re-reads the order's \
     held_amount to compute the refundable difference, and once the hold is released that \
     field reads zero, so calling this after charge_order would make the refund calculation \
     silently think nothing was held. We found this the hard way in staging last month when \
     a retry path called these in the wrong order and issued a full-price charge with no \
     refund of the original hold.\n\n\
     Internally this just flips a boolean and appends a ledger row.";

pub const DOC_REPLY_HOLD: &'static str =
    "KEEP\nMust be called before charge_order, never after: charge_order reads\nheld_amount to compute the refund, and it reads zero once the hold is\nreleased.";

pub const DOC_DEMO_REPR: &'static str =
    "String representation of the object for debugging.";

pub const DOC_DEMO_SEATS: &'static str =
    "Represents an allocation of seats to a subscription tier.\n\n\
     A SeatAllocation ties a tenant to a purchased seat count. This class was introduced \
     when we added tiered pricing (see PROJ-990) to replace the old flat per-user billing \
     model described in billing_v1.py, which is now deprecated. Among live rows, at most \
     one allocation may be active per tenant at a time; a tenant with zero active \
     allocations is treated as unlicensed and every gated feature is denied. Soft-deleted \
     rows do not count toward the one-active-per-tenant limit, so reactivating one after a \
     downgrade requires deleting the newer row first.";

pub const DOC_REPLY_SEATS: &'static str =
    "KEEP\nAt most one allocation may be active per tenant; zero active means\nunlicensed and every gated feature is denied. Soft-deleted rows do not\ncount toward the limit, so reactivating one requires deleting the newer\nrow first.";

pub const DOC_DEMO_CURRENCY: &'static str =
    "Uppercases and validates a 3-letter ISO 4217 currency code.\n\n\
     This is called from roughly 40 call sites across billing, invoicing, and the public \
     API serializers (BillingForm, InvoiceLineItem, and six other DTOs at last count), so \
     changing the validation here affects all of them. Whenever a new currency needs \
     support, add it to SUPPORTED_CURRENCIES in currency_constants.py first.";

pub const DOC_REPLY_CURRENCY: &'static str =
    "KEEP\nUppercases and validates a 3-letter ISO 4217 currency code.";

pub fn doc_demos() -> (r: Vec<DocDemo>)
    ensures
        r@.len() == 9,
        demo_holds(r@[0], "module", "", "", true, true, DOC_DEMO_TEST_MODULE, seq![
            "def test_export_happy_path():",
            "def test_export_rejects_bad_template():",
            "def test_export_retries_transient_upload_failure():",
        ], 42, DOC_REPLY_TEST_MODULE),
        demo_holds(r@[1], "function", "test_retry_gives_up_after_three_attempts", "def test_retry_gives_up_after_three_attempts():", true, true, DOC_DEMO_TEST_RETRY, seq!["with mock_always_fails():", "    retry_upload()"], 8, DOC_REPLY_TEST_RETRY),
        demo_holds(r@[2], "function", "mark_read", "def mark_read(self) -> None:", false, false, DOC_DEMO_MARK_READ, seq!["self.is_read = True", "self.read_at = utcnow()"], 3, "DELETE"),
        demo_holds(r@[3], "function", "normalize_tags", "def normalize_tags(tags: list[str]) -> list[str]:", false, false, DOC_DEMO_NORMALIZE, seq!["seen = set()", "out = []"], 9, "DELETE"),
        demo_holds(r@[4], "module", "", "", false, false, DOC_DEMO_LEGACY, seq!["def legacy_csv_export(rows):"], 18, "DELETE"),
        demo_holds(r@[5], "function", "_release_hold_before_charge", "def _release_hold_before_charge(order: Order) -> None:", false, false, DOC_DEMO_HOLD, seq!["order.hold_released = True", "order.ledger.append(...)"], 10, DOC_REPLY_HOLD),
        demo_holds(r@[6], "function", "__repr__", "def __repr__(self) -> str:", false, false, DOC_DEMO_REPR, seq!["return f\"<Invoice id={self.id} total={self.total}>\""], 2, "DELETE"),
        demo_holds(r@[7], "class", "SeatAllocation", "class SeatAllocation:", false, false, DOC_DEMO_SEATS, seq!["tenant_id: int", "seat_count: int", "active: bool"], 16, DOC_REPLY_SEATS),
        demo_holds(r@[8], "function", "canonical_currency_code", "def canonical_currency_code(code: str) -> str:", false, false, DOC_DEMO_CURRENCY, seq![
            "code = code.strip().upper()",
            "if code not in SUPPORTED_CURRENCIES:",
        ], 8, DOC_REPLY_CURRENCY),
{
    let d0 = doc_demo("module", "", "", true, true, DOC_DEMO_TEST_MODULE, vec![
            "def test_export_happy_path():",
            "def test_export_rejects_bad_template():",
            "def test_export_retries_transient_upload_failure():",
        ], 42, DOC_REPLY_TEST_MODULE);
    let d1 = doc_demo("function", "test_retry_gives_up_after_three_attempts", "def test_retry_gives_up_after_three_attempts():", true, true, DOC_DEMO_TEST_RETRY, vec!["with mock_always_fails():", "    retry_upload()"], 8, DOC_REPLY_TEST_RETRY);
    let d2 = doc_demo("function", "mark_read", "def mark_read(self) -> None:", false, false, DOC_DEMO_MARK_READ, vec!["self.is_read = True", "self.read_at = utcnow()"], 3, "DELETE");
    let d3 = doc_demo("function", "normalize_tags", "def normalize_tags(tags: list[str]) -> list[str]:", false, false, DOC_DEMO_NORMALIZE, vec!["seen = set()", "out = []"], 9, "DELETE");
    let d4 = doc_demo("module", "", "", false, false, DOC_DEMO_LEGACY, vec!["def legacy_csv_export(rows):"], 18, "DELETE");
    let d5 = doc_demo("function", "_release_hold_before_charge", "def _release_hold_before_charge(order: Order) -> None:", false, false, DOC_DEMO_HOLD, vec!["order.hold_released = True", "order.ledger.append(...)"], 10, DOC_REPLY_HOLD);
    let d6 = doc_demo("function", "__repr__", "def __repr__(self) -> str:", false, false, DOC_DEMO_REPR, vec!["return f\"<Invoice id={self.id} total={self.total}>\""], 2, "DELETE");
    let d7 = doc_demo("class", "SeatAllocation", "class SeatAllocation:", false, false, DOC_DEMO_SEATS, vec!["tenant_id: int", "seat_count: int", "active: bool"], 16, DOC_REPLY_SEATS);
    let d8 = doc_demo("function", "canonical_currency_code", "def canonical_currency_code(code: str) -> str:", false, false, DOC_DEMO_CURRENCY, vec![
            "code = code.strip().upper()",
            "if code not in SUPPORTED_CURRENCIES:",
        ], 8, DOC_REPLY_CURRENCY);
    assert(d4.body_preview@ =~= seq!["def legacy_csv_export(rows):"]);
    assert(d6.body_preview@ =~= seq!["return f\"<Invoice id={self.id} total={self.total}>\""]);
    vec![d0, d1, d2, d3, d4, d5, d6, d7, d8]
}

/// Running token totals across all requests (prompt, completion, cached-prompt).
#[derive(Debug, Default)]
pub struct TokenTotals {
    pub prompt: u64,
    pub completion: u64,
    pub cached: u64,
    pub requests: u64,
}

/// Plain copy of `TokenTotals` at one moment.
#[derive(Debug, Clone, Copy, Default, PartialEq, Eq, Structural)]
pub struct TokenUsage {
    pub requests: u64,
    pub prompt: u64,
    pub completion: u64,
    pub cached: u64,
}

impl TokenTotals {
    /// No requests yet.
    pub fn new() -> (r: TokenTotals)
        ensures
            r.prompt == 0 && r.completion == 0 && r.cached == 0 && r.requests == 0,
    {
        TokenTotals { prompt: 0, completion: 0, cached: 0, requests: 0 }
    }

    /// Counts one request's reported usage (wrapping like an atomic counter).
    pub fn record(&mut self, prompt: u64, completion: u64, cached: u64)
        ensures
            final(self).requests == old(self).requests.wrapping_add(1),
            final(self).prompt == old(self).prompt.wrapping_add(prompt),
            final(self).completion == old(self).completion.wrapping_add(completion),
            final(self).cached == old(self).cached.wrapping_add(cached),
    {
        self.requests = self.requests.wrapping_add(1);
        self.prompt = self.prompt.wrapping_add(prompt);
        self.completion = self.completion.wrapping_add(completion);
        self.cached = self.cached.wrapping_add(cached);
    }

    pub fn snapshot(&self) -> (r: TokenUsage)
        ensures
            r == (TokenUsage {
                requests: self.requests,
                prompt: self.prompt,
                completion: self.completion,
                cached: self.cached,
            }),
    {
        TokenUsage {
            requests: self.requests,
            prompt: self.prompt,
            completion: self.completion,
            cached: self.cached,
        }
    }
}

/// Who speaks a chat message.
#[derive(Debug, Clone, Copy, PartialEq, Eq, Structural)]
pub enum Role {
    System,
    User,
    Assistant,
}

/// One message of a chat completion request.
#[derive(Debug, Clone)]
pub struct ChatMessage {
    pub role: Role,
    pub content: String,
}

/// An OpenAI-compatible chat completion request.
#[derive(Debug, Clone)]
pub struct ChatRequest {
    pub model: String,
    pub messages: Vec<ChatMessage>,
    pub max_tokens: usize,
    /// Sampling temperature, when the request sets one.
    pub temperature: Option<u32>,
}

/// The messages' roles and texts.
pub open spec fn message_views(ms: Seq<ChatMessage>) -> Seq<(Role, Seq<char>)> {
    ms.map_values(|m: ChatMessage| (m.role, m.content@))
}

/// `s` with every non-overlapping occurrence of `from`, left to right, replaced by `to`
/// (`str::replace` for a non-empty pattern).
pub open spec fn replace_all(s: Seq<char>, from: Seq<char>, to: Seq<char>) -> Seq<char>
    decreases s.len(),
{
    if from.len() == 0 || s.len() == 0 {
        s
    } else if has_prefix(s, from) {
        to + replace_all(s.skip(from.len() as int), from, to)
    } else {
        seq![s[0]] + replace_all(s.drop_first(), from, to)
    }
}

/// `str::replace` for a non-empty pattern.
pub fn replace_chars(s: &[char], from: &[char], to: &[char]) -> (r: Vec<char>)
    requires
        from@.len() > 0,
    ensures
        r@ == replace_all(s@, from@, to@),
{
    let mut out: Vec<char> = Vec::new();
    let mut i: usize = 0;
    assert(s@.skip(0) =~= s@);
    while i < s.len()
        invariant
            0 <= i <= s@.len(),
            from@.len() > 0,
            out@ + replace_all(s@.skip(i as int), from@, to@) == replace_all(s@, from@, to@),
        decreases s@.len() - i,
    {
        let ghost rest = s@.skip(i as int);
        if occurs_at_exec(s, from, i) {
            assert(rest.take(from@.len() as int) =~= s@.subrange(i as int, i + from@.len()));
            assert(rest.skip(from@.len() as int) =~= s@.skip(i + from@.len()));
            let ghost before = out@;
            push_all(&mut out, to);
            assert(before + replace_all(rest, from@, to@) =~= out@ + replace_all(
                s@.skip(i + from@.len()),
                from@,
                to@,
            ));
            i = i + from.len();
        } else {
            proof {
                if from@.len() <= rest.len() {
                    assert(rest.take(from@.len() as int) =~= s@.subrange(
                        i as int,
                        i + from@.len(),
                    ));
                }
            }
            assert(rest.drop_first() =~= s@.skip(i + 1));
            let ghost before = out@;
            out.push(s[i]);
            assert(before + replace_all(rest, from@, to@) =~= out@ + replace_all(
                s@.skip(i + 1),
                from@,
                to@,
            ));
            i += 1;
        }
    }
    assert(replace_all(s@.skip(i as int), from@, to@) =~= Seq::<char>::empty());
    assert(out@ + Seq::<char>::empty() =~= out@);
    out
}

/// The system prompt with its word limit filled in.
pub open spec fn summary_system_prompt(max_words: nat) -> Seq<char> {
    replace_all(
        SYSTEM_PROMPT@,
        seq!['{', 'm', 'a', 'x', '_', 'w', 'o', 'r', 'd', 's', '}'],
        decimal(max_words),
    )
}

/// The system prompt, each demo as a user turn and the expected assistant reply, then the
/// block's own user message.
pub open spec fn spec_summary_messages(
    prose: Seq<char>,
    context: Seq<char>,
    max_words: nat,
    demos: Seq<(Seq<char>, Seq<char>, Seq<char>)>,
) -> Seq<(Role, Seq<char>)> {
    seq![(Role::System, summary_system_prompt(max_words))] + Seq::new(
        2 * demos.len(),
        |k: int|
            if k % 2 == 0 {
                (Role::User, spec_user_message(demos[k / 2].0, demos[k / 2].1))
            } else {
                (Role::Assistant, demos[k / 2].2)
            },
    ) + seq![(Role::User, spec_user_message(prose, context))]
}

/// The demos' texts.
pub open spec fn demo_views(d: Seq<(&str, &str, &str)>) -> Seq<(Seq<char>, Seq<char>, Seq<char>)> {
    d.map_values(|t: (&str, &str, &str)| (t.0@, t.1@, t.2@))
}

fn message(role: Role, content: Vec<char>) -> (r: ChatMessage)
    ensures
        r.role == role,
        r.content@ == content@,
{
    ChatMessage { role, content: string_of(&content) }
}

/// The messages that ask for one comment block's verdict.
pub fn summary_messages(
    prose: &str,
    context: &str,
    max_words: usize,
    demos: &Vec<(&str, &str, &str)>,
) -> (r: Vec<ChatMessage>)
    ensures
        message_views(r@) == spec_summary_messages(
            prose@,
            context@,
            max_words as nat,
            demo_views(demos@),
        ),
{
    let key = ['{', 'm', 'a', 'x', '_', 'w', 'o', 'r', 'd', 's', '}'];
    assert(key@ =~= seq!['{', 'm', 'a', 'x', '_', 'w', 'o', 'r', 'd', 's', '}']);
    let system = replace_chars(&chars_of(SYSTEM_PROMPT), &key, &decimal_chars(max_words));
    let mut out: Vec<ChatMessage> = Vec::new();
    out.push(message(Role::System, system));
    let ghost dv = demo_views(demos@);
    let ghost turns = Seq::new(
        2 * dv.len(),
        |k: int|
            if k % 2 == 0 {
                (Role::User, spec_user_message(dv[k / 2].0, dv[k / 2].1))
            } else {
                (Role::Assistant, dv[k / 2].2)
            },
    );
    let mut i: usize = 0;
    while i < demos.len()
        invariant
            0 <= i <= demos@.len(),
            dv == demo_views(demos@),
            turns.len() == 2 * dv.len(),
            forall|k: int|
                0 <= k < turns.len() ==> #[trigger] turns[k] == if k % 2 == 0 {
                    (Role::User, spec_user_message(dv[k / 2].0, dv[k / 2].1))
                } else {
                    (Role::Assistant, dv[k / 2].2)
                },
            message_views(out@) == seq![(Role::System, summary_system_prompt(max_words as nat))]
                + turns.take(2 * i),
        decreases demos@.len() - i,
    {
        let (p, c, reply) = demos[i];
        let ghost before = message_views(out@);
        let u = user_message(p, c);
        out.push(message(Role::User, chars_of(u.as_str())));
        out.push(message(Role::Assistant, chars_of(reply)));
        assert(turns[2 * i as int] == (Role::User, spec_user_message(p@, c@)));
        assert(turns[2 * i + 1] == (Role::Assistant, reply@));
        assert(message_views(out@) =~= before.push((Role::User, spec_user_message(p@, c@))).push(
            (Role::Assistant, reply@),
        ));
        assert(turns.take(2 * i + 2) =~= turns.take(2 * i).push(turns[2 * i as int]).push(
            turns[2 * i + 1],
        ));
        i += 1;
    }
    let ghost before = message_views(out@);
    let u = user_message(prose, context);
    out.push(message(Role::User, chars_of(u.as_str())));
    assert(turns.take(2 * demos@.len() as int) =~= turns);
    assert(message_views(out@) =~= before.push((Role::User, spec_user_message(prose@, context@))));
    out
}

/// The user message a docstring demo makes.
pub open spec fn demo_doc_message(d: DocDemo) -> Seq<char> {
    spec_doc_user_message(
        d.kind@,
        d.name@,
        d.signature@,
        d.is_test,
        d.in_test_file,
        d.text@,
        d.body_preview@.map_values(|s: &str| s@),
        d.body_lines as nat,
    )
}

/// The docstring system prompt, each demo as a user turn and its expected reply, then the
/// docstring's own user message.
pub open spec fn spec_doc_messages(req: DocRequest, demos: Seq<DocDemo>) -> Seq<(Role, Seq<char>)> {
    seq![(Role::System, DOC_SYSTEM_PROMPT@)] + Seq::new(
        2 * demos.len(),
        |k: int|
            if k % 2 == 0 {
                (Role::User, demo_doc_message(demos[k / 2]))
            } else {
                (Role::Assistant, demos[k / 2].reply@)
            },
    ) + seq![
        (Role::User, spec_doc_user_message(
            req.kind@,
            req.name@,
            req.signature@,
            req.is_test,
            req.in_test_file,
            req.text@,
            string_views(req.body_preview@),
            req.body_lines as nat,
        )),
    ]
}

fn owned_preview(v: &Vec<&str>) -> (r: Vec<String>)
    ensures
        string_views(r@) == v@.map_values(|s: &str| s@),
{
    let mut out: Vec<String> = Vec::new();
    let mut i: usize = 0;
    while i < v.len()
        invariant
            0 <= i <= v@.len(),
            string_views(out@) == v@.take(i as int).map_values(|s: &str| s@),
        decreases v@.len() - i,
    {
        let ghost before = out@;
        out.push(string_of(&chars_of(v[i])));
        assert(string_views(out@) =~= string_views(before).push(v@[i as int]@));
        assert(v@.take(i + 1).map_values(|s: &str| s@) =~= v@.take(i as int).map_values(
            |s: &str| s@,
        ).push(v@[i as int]@));
        i += 1;
    }
    assert(v@.take(v@.len() as int) =~= v@);
    out
}

/// The messages that ask for one docstring's verdict.
pub fn doc_messages(req: &DocRequest, demos: &Vec<DocDemo>) -> (r: Vec<ChatMessage>)
    ensures
        message_views(r@) == spec_doc_messages(*req, demos@),
{
    let mut out: Vec<ChatMessage> = Vec::new();
    out.push(message(Role::System, chars_of(DOC_SYSTEM_PROMPT)));
    let ghost turns = Seq::new(
        2 * demos@.len(),
        |k: int|
            if k % 2 == 0 {
                (Role::User, demo_doc_message(demos@[k / 2]))
            } else {
                (Role::Assistant, demos@[k / 2].reply@)
            },
    );
    let mut i: usize = 0;
    while i < demos.len()
        invariant
            0 <= i <= demos@.len(),
            turns.len() == 2 * demos@.len(),
            forall|k: int|
                0 <= k < turns.len() ==> #[trigger] turns[k] == if k % 2 == 0 {
                    (Role::User, demo_doc_message(demos@[k / 2]))
                } else {
                    (Role::Assistant, demos@[k / 2].reply@)
                },
            message_views(out@) == seq![(Role::System, DOC_SYSTEM_PROMPT@)] + turns.take(2 * i),
        decreases demos@.len() - i,
    {
        let d = &demos[i];
        let preview = owned_preview(&d.body_preview);
        let demo_req = DocRequest {
            kind: d.kind,
            name: d.name,
            signature: d.signature,
            is_test: d.is_test,
            in_test_file: d.in_test_file,
            text: d.text,
            body_preview: preview.as_slice(),
            body_lines: d.body_lines,
        };
        let ghost before = message_views(out@);
        let u = doc_user_message(&demo_req);
        out.push(message(Role::User, chars_of(u.as_str())));
        out.push(message(Role::Assistant, chars_of(d.reply)));
        assert(turns[2 * i as int] == (Role::User, demo_doc_message(demos@[i as int])));
        assert(turns[2 * i + 1] == (Role::Assistant, demos@[i as int].reply@));
        assert(message_views(out@) =~= before.push(turns[2 * i as int]).push(turns[2 * i + 1]));
        assert(turns.take(2 * i + 2) =~= turns.take(2 * i).push(turns[2 * i as int]).push(
            turns[2 * i + 1],
        ));
        i += 1;
    }
    let ghost before = message_views(out@);
    let u = doc_user_message(req);
    out.push(message(Role::User, chars_of(u.as_str())));
    assert(turns.take(2 * demos@.len() as int) =~= turns);
    assert(message_views(out@) =~= before.push(spec_doc_messages(*req, demos@).last()));
    out
}

/// Token counts a chat response reports (`usage`; `cached` is 0 when the response gives none).
#[derive(Debug, Clone, Copy, PartialEq, Eq, Structural)]
pub struct ReportedUsage {
    pub prompt: u64,
    pub completion: u64,
    pub cached: u64,
}

/// Why a chat response gave no reply.
#[derive(Debug, Clone, Copy, PartialEq, Eq, Structural)]
pub enum ChatFailure {
    /// The HTTP status was outside 200..300.
    Status(i32),
    /// The response held no choice.
    NoChoices,
}

/// An HTTP status in 200..300.
pub open spec fn http_success(code: i32) -> bool {
    200 <= code < 300
}

/// Reads an HTTP status: 2xx goes on to the body, anything else is the failure.
pub fn check_status(code: i32) -> (r: Result<(), ChatFailure>)
    ensures
        r is Ok <==> http_success(code),
        r is Err ==> r == Err::<(), ChatFailure>(ChatFailure::Status(code)),
{
    if 200 <= code && code < 300 {
        Ok(())
    } else {
        Err(ChatFailure::Status(code))
    }
}

/// Talks to an OpenAI-compatible chat endpoint; the requests it sends and how it reads the
/// replies. The transport itself lives with the caller.
pub struct LlmClient {
    endpoint: String,
    model: String,
    api_key: Option<String>,
    pub tokens: TokenTotals,
}

impl LlmClient {
    pub closed spec fn endpoint_spec(&self) -> Seq<char> {
        self.endpoint@
    }

    pub closed spec fn model_spec(&self) -> Seq<char> {
        self.model@
    }

    pub closed spec fn token_totals(&self) -> TokenTotals {
        self.tokens
    }

    pub closed spec fn api_key_spec(&self) -> Option<Seq<char>> {
        match self.api_key {
            Some(k) => Some(k@),
            None => None,
        }
    }

    /// A client for the configured endpoint (trailing `/`s dropped), model and key.
    pub fn new(cfg: &Config) -> (r: LlmClient)
        ensures
            r.endpoint_spec() == crate::text::trim_end_set(cfg.endpoint@, seq!['/']),
            r.model_spec() == cfg.model@,
            r.api_key_spec() == match cfg.api_key {
                Some(k) => Some(k@),
                None => None::<Seq<char>>,
            },
            r.token_totals().requests == 0 && r.token_totals().prompt == 0
                && r.token_totals().completion == 0 && r.token_totals().cached == 0,
    {
        let slash = ['/'];
        assert(slash@ =~= seq!['/']);
        let endpoint = crate::text::trim_end_set_chars(&chars_of(cfg.endpoint.as_str()), &slash);
        let api_key = match &cfg.api_key {
            Some(k) => Some(string_of(&chars_of(k.as_str()))),
            None => None,
        };
        LlmClient {
            endpoint: string_of(&endpoint),
            model: string_of(&chars_of(cfg.model.as_str())),
            api_key,
            tokens: TokenTotals::new(),
        }
    }

    pub fn endpoint(&self) -> (r: &str)
        ensures
            r@ == self.endpoint_spec(),
    {
        self.endpoint.as_str()
    }

    pub fn model(&self) -> (r: &str)
        ensures
            r@ == self.model_spec(),
    {
        self.model.as_str()
    }

    pub fn api_key(&self) -> (r: Option<&str>)
        ensures
            match r {
                Some(k) => self.api_key_spec() == Some(k@),
                None => self.api_key_spec() is None,
            },
    {
        match &self.api_key {
            Some(k) => Some(k.as_str()),
            None => None,
        }
    }

    /// `{endpoint}/chat/completions`.
    pub fn chat_url(&self) -> (r: String)
        ensures
            r@ == self.endpoint_spec() + seq![
                '/',
                'c',
                'h',
                'a',
                't',
                '/',
                'c',
                'o',
                'm',
                'p',
                'l',
                'e',
                't',
                'i',
                'o',
                'n',
                's',
            ],
    {
        let mut v = chars_of(self.endpoint.as_str());
        let tail = ['/', 'c', 'h', 'a', 't', '/', 'c', 'o', 'm', 'p', 'l', 'e', 't', 'i', 'o', 'n', 's'];
        push_all(&mut v, &tail);
        string_of(&v)
    }

    /// Reads a decoded 2xx response: reported usage is counted (one more request, and its
    /// tokens); the first choice's text is the reply, and no choice at all is a failure.
    pub fn take_reply(&mut self, usage: Option<ReportedUsage>, first: Option<String>) -> (r: Result<String, ChatFailure>)
        ensures
            final(self).endpoint_spec() == old(self).endpoint_spec(),
            final(self).model_spec() == old(self).model_spec(),
            final(self).api_key_spec() == old(self).api_key_spec(),
            match usage {
                Some(u) => {
                    &&& final(self).token_totals().requests == old(self).token_totals().requests.wrapping_add(1)
                    &&& final(self).token_totals().prompt == old(self).token_totals().prompt.wrapping_add(u.prompt)
                    &&& final(self).token_totals().completion == old(self).token_totals().completion.wrapping_add(u.completion)
                    &&& final(self).token_totals().cached == old(self).token_totals().cached.wrapping_add(u.cached)
                },
                None => final(self).token_totals() == old(self).token_totals(),
            },
            match first {
                Some(c) => r matches Ok(t) && t@ == c@,
                None => r == Err::<String, ChatFailure>(ChatFailure::NoChoices),
            },
    {
        match usage {
            Some(u) => self.tokens.record(u.prompt, u.completion, u.cached),
            None => {},
        }
        match first {
            Some(c) => Ok(c),
            None => Err(ChatFailure::NoChoices),
        }
    }

    /// Preflight: one tiny completion (`"hi"`, one token) to prove the endpoint is reachable and
    /// the model loads.
    pub fn check_request(&self) -> (r: ChatRequest)
        ensures
            r.model@ == self.model_spec(),
            message_views(r.messages@) == seq![(Role::User, seq!['h', 'i'])],
            r.max_tokens == 1,
            r.temperature is None,
    {
        let mut hi: Vec<char> = Vec::new();
        hi.push('h');
        hi.push('i');
        assert(hi@ =~= seq!['h', 'i']);
        let mut messages: Vec<ChatMessage> = Vec::new();
        messages.push(message(Role::User, hi));
        assert(message_views(messages@) =~= seq![(Role::User, seq!['h', 'i'])]);
        ChatRequest {
            model: string_of(&chars_of(self.model.as_str())),
            messages,
            max_tokens: 1,
            temperature: None,
        }
    }

    /// The request that asks what to do with a comment block: the few-shot demos, then `prose`
    /// with `context` (the first non-blank code line after it), at most 48 tokens back, at
    /// temperature 0.
    pub fn summary_request(
        &self,
        prose: &str,
        context: &str,
        max_words: usize,
        demos: &Vec<(&str, &str, &str)>,
    ) -> (r: ChatRequest)
        ensures
            r.model@ == self.model_spec(),
            r.max_tokens == 48,
            r.temperature == Some(0u32),
            message_views(r.messages@) == spec_summary_messages(
                prose@,
                context@,
                max_words as nat,
                demo_views(demos@),
            ),
    {
        let messages = summary_messages(prose, context, max_words, demos);
        ChatRequest {
            model: string_of(&chars_of(self.model.as_str())),
            messages,
            max_tokens: 48,
            temperature: Some(0),
        }
    }

    /// The request that asks what to do with one docstring: the few-shot demos, then the
    /// docstring, at most 220 tokens back, at temperature 0.
    pub fn doc_request(&self, req: &DocRequest, demos: &Vec<DocDemo>) -> (r: ChatRequest)
        ensures
            r.model@ == self.model_spec(),
            r.max_tokens == 220,
            r.temperature == Some(0u32),
            message_views(r.messages@) == spec_doc_messages(*req, demos@),
    {
        let messages = doc_messages(req, demos);
        ChatRequest {
            model: string_of(&chars_of(self.model.as_str())),
            messages,
            max_tokens: 220,
            temperature: Some(0),
        }
    }
}

/// Every word is non-empty and holds no whitespace.
proof fn lemma_words_shape(s: Seq<char>)
    ensures
        forall|k: int|
            0 <= k < words(s).len() ==> #[trigger] words(s)[k].len() > 0 && forall|j: int|
                0 <= j < words(s)[k].len() ==> !spec_is_ws(#[trigger] words(s)[k][j]),
{
    lemma_words_scan_shape(s);
    let (done, cur) = words_scan(s);
    if cur.len() > 0 {
        assert forall|k: int| 0 <= k < words(s).len() implies #[trigger] words(s)[k].len() > 0
            && forall|j: int| 0 <= j < words(s)[k].len() ==> !spec_is_ws(#[trigger] words(s)[k][j]) by {
            if k < done.len() {
                assert(words(s)[k] == done[k]);
            }
        }
    }
}

proof fn lemma_words_scan_shape(s: Seq<char>)
    ensures
        forall|k: int|
            0 <= k < words_scan(s).0.len() ==> #[trigger] words_scan(s).0[k].len() > 0 && forall|
                j: int,
            |
                0 <= j < words_scan(s).0[k].len() ==> !spec_is_ws(#[trigger] words_scan(s).0[k][j]),
        forall|j: int| 0 <= j < words_scan(s).1.len() ==> !spec_is_ws(#[trigger] words_scan(s).1[j]),
    decreases s.len(),
{
    if s.len() > 0 {
        lemma_words_scan_shape(s.drop_last());
        let (done, cur) = words_scan(s.drop_last());
        if spec_is_ws(s.last()) {
            if cur.len() > 0 {
                let d2 = done.push(cur);
                assert forall|k: int| 0 <= k < d2.len() implies #[trigger] d2[k].len() > 0
                    && forall|j: int| 0 <= j < d2[k].len() ==> !spec_is_ws(#[trigger] d2[k][j]) by {
                    if k < done.len() {
                        assert(d2[k] == done[k]);
                    }
                }
            }
        } else {
            let c2 = cur.push(s.last());
            assert forall|j: int| 0 <= j < c2.len() implies !spec_is_ws(#[trigger] c2[j]) by {
                if j < cur.len() {
                    assert(c2[j] == cur[j]);
                }
            }
        }
    }
}

/// Non-empty, whitespace-free parts joined by single spaces: the only whitespace is those
/// spaces, and the text neither starts nor ends with one.
proof fn lemma_join_words(parts: Seq<Seq<char>>)
    requires
        forall|k: int|
            0 <= k < parts.len() ==> #[trigger] parts[k].len() > 0 && forall|j: int|
                0 <= j < parts[k].len() ==> !spec_is_ws(#[trigger] parts[k][j]),
    ensures
        forall|i: int|
            0 <= i < join(parts, seq![' ']).len() && spec_is_ws(#[trigger] join(parts, seq![' '])[i])
                ==> join(parts, seq![' '])[i] == ' ',
        join(parts, seq![' ']).len() > 0 ==> !spec_is_ws(join(parts, seq![' '])[0]) && !spec_is_ws(
            join(parts, seq![' ']).last(),
        ),
        parts.len() > 0 ==> join(parts, seq![' ']).len() > 0,
    decreases parts.len(),
{
    if parts.len() == 1 {
        assert(parts[0].len() > 0);
    } else if parts.len() > 1 {
        let init = parts.drop_last();
        assert forall|k: int| 0 <= k < init.len() implies #[trigger] init[k].len() > 0 && forall|
            j: int,
        | 0 <= j < init[k].len() ==> !spec_is_ws(#[trigger] init[k][j]) by {
            assert(init[k] == parts[k]);
        }
        lemma_join_words(init);
        let a = join(init, seq![' ']);
        let l = parts.last();
        assert(l == parts[parts.len() - 1]);
        let j = join(parts, seq![' ']);
        assert(j == a + seq![' '] + l);
        assert forall|i: int| 0 <= i < j.len() && spec_is_ws(#[trigger] j[i]) implies j[i] == ' ' by {
            if i < a.len() {
                assert(j[i] == a[i]);
            } else if i > a.len() {
                assert(j[i] == l[i - a.len() - 1]);
            }
        }
        assert(j[0] == a[0]);
        assert(j.last() == l.last());
    }
}

/// The cleaned reply is one line: its only whitespace is single spaces between words, and it
/// neither starts nor ends with whitespace.
pub proof fn law_cleaned_reply_is_one_line(raw: Seq<char>)
    ensures
        forall|i: int|
            0 <= i < spec_clean_reply(raw).len() && spec_is_ws(#[trigger] spec_clean_reply(raw)[i])
                ==> spec_clean_reply(raw)[i] == ' ',
        spec_clean_reply(raw).len() > 0 ==> !spec_is_ws(spec_clean_reply(raw)[0]) && !spec_is_ws(
            spec_clean_reply(raw).last(),
        ),
{
    match first_content_line(spec_lines(raw)) {
        None => {},
        Some(line) => {
            let t = strip_delimiters(unwrap_pairs(drop_preamble(line)));
            lemma_words_shape(t);
            lemma_join_words(words(t));
        },
    }
}

/// A kept summary line is non-empty and has at most twice the word limit.
pub proof fn law_summary_line_within_limit(raw: Seq<char>, max_words: nat)
    ensures
        spec_parse_summary_reply(raw, max_words) matches Ok(Some(t)) ==> t.len() > 0 && words(
            t,
        ).len() <= 2 * max_words,
{
}

proof fn lemma_collapse_len(ls: Seq<Seq<char>>)
    ensures
        collapse_blank_runs(ls).len() <= ls.len(),
    decreases ls.len(),
{
    if ls.len() > 0 {
        lemma_collapse_len(ls.drop_last());
    }
}

proof fn lemma_empty_prefix_len_bound(ls: Seq<Seq<char>>)
    ensures
        empty_prefix_len(ls) <= ls.len(),
    decreases ls.len(),
{
    if ls.len() > 0 && ls[0].len() == 0 {
        lemma_empty_prefix_len_bound(ls.drop_first());
    }
}

proof fn lemma_empty_suffix_len_bound(ls: Seq<Seq<char>>)
    ensures
        empty_suffix_len(ls) <= ls.len(),
    decreases ls.len(),
{
    if ls.len() > 0 && ls.last().len() == 0 {
        lemma_empty_suffix_len_bound(ls.drop_last());
    }
}

/// A kept docstring rewrite is the trimmed join of at most as many lines as the cap allows for
/// its kind (2 for a test function, 5 for another test docstring, 15 otherwise).
pub proof fn law_doc_reply_within_cap(raw: Seq<char>, is_test: bool, kind: Seq<char>)
    ensures
        spec_parse_doc_reply(raw, is_test, kind) matches Ok(Some(t)) ==> exists|ls: Seq<Seq<char>>|
            ls.len() <= spec_max_lines(is_test, kind) && t == trim(#[trigger] join(ls, seq!['\n'])),
{
    if let Ok(Some(t)) = spec_parse_doc_reply(raw, is_test, kind) {
        let ls = drop_leading_filler(non_fence_lines(spec_lines(raw)));
        let joined = spec_strip_wrapping_quotes(join(ls, seq!['\n']));
        let jl = spec_lines(joined);
        let (marker, rest) = split_marker(trim(jl[0]));
        let text = if eq_ignore_ascii_case(trim_end_set(marker, marker_punct()), word_keep()) {
            join(seq![trim_start(rest)] + jl.skip(1), seq!['\n'])
        } else {
            joined
        };
        let normalized = spec_normalize_lines(spec_strip_wrapping_quotes(text));
        let taken = take_at_most(normalized, spec_max_lines(is_test, kind));
        let a = taken.skip(empty_prefix_len(taken) as int);
        let b2 = a.take(a.len() - empty_suffix_len(a));
        lemma_empty_prefix_len_bound(taken);
        lemma_empty_suffix_len_bound(a);
        lemma_collapse_len(b2);
        let capped = spec_trim_blank_edges_and_collapse(taken);
        assert(capped.len() <= spec_max_lines(is_test, kind));
        assert(t == trim(join(capped, seq!['\n'])));
    }
}


/// One letter of an ASCII word, in either case, compared with its lowercase form.
proof fn lemma_ascii_letter_case(c: char, lower: char, upper: char)
    requires
        'a' <= lower <= 'z',
        upper as u32 + 32 == lower as u32,
        c == lower || c == upper,
    ensures
        crate::text::ascii_lower(c) == lower,
        crate::text::ascii_lower(lower) == lower,
{
    if c == upper {
        assert('A' <= upper && upper <= 'Z');
        assert(((upper as u32) + 32) as char == lower);
    }
}

/// A summary reply whose code word is `delete` in any letter case (`DELETE`, `Delete`, ...),
/// alone or followed by more words, asks for the block to be deleted: it never becomes a kept
/// line.
pub proof fn law_bare_delete_deletes(raw: Seq<char>, max_words: nat)
    requires
        ({
            let c = spec_clean_reply(raw);
            &&& c.len() >= 6
            &&& (c.len() == 6 || c[6] == ' ')
            &&& forall|i: int|
                0 <= i < 6 ==> c[i] == seq!['d', 'e', 'l', 'e', 't', 'e'][i] || c[i] == seq![
                    'D',
                    'E',
                    'L',
                    'E',
                    'T',
                    'E',
                ][i]
        }),
    ensures
        spec_parse_summary_reply(raw, max_words) == Ok::<Option<Seq<char>>, ReplyError>(None),
{
    let c = spec_clean_reply(raw);
    let lo = seq!['d', 'e', 'l', 'e', 't', 'e'];
    let up = seq!['D', 'E', 'L', 'E', 'T', 'E'];
    assert forall|k: int| 0 <= k < 6 implies c[k] != ' ' by {
        assert(c[k] == lo[k] || c[k] == up[k]);
    }
    let j: int = if c.len() == 6 { -1 } else { 6 };
    crate::text::lemma_index_of_char(c, ' ', j);
    let code0 = c.take(6);
    if c.len() == 6 {
        assert(c =~= code0);
    }
    assert(code0.len() == 6);
    let set = seq![':', '.', '-'];
    assert(!set.contains(code0[5])) by {
        assert(code0[5] == c[5]);
        assert(c[5] == 'e' || c[5] == 'E');
        if set.contains(code0[5]) {
            let x = choose|x: int| 0 <= x < 3 && set[x] == code0[5];
            assert(set[x] == ':' || set[x] == '.' || set[x] == '-');
        }
    }
    crate::text::lemma_run_suffix_len_char(code0, set, 6);
    assert(code0.take(6) =~= code0);
    let code = trim_end_set(code0, set);
    assert(code == code0);
    assert forall|k: int| 0 <= k < 6 implies #[trigger] crate::text::ascii_lower(code[k])
        == crate::text::ascii_lower(word_delete()[k]) by {
        assert(code[k] == c[k]);
        assert(c[k] == lo[k] || c[k] == up[k]);
        assert(word_delete()[k] == lo[k]);
        lemma_ascii_letter_case(c[k], lo[k], up[k]);
    }
    assert(eq_ignore_ascii_case(code, word_delete()));
}


proof fn lemma_lines_scan_single(s: Seq<char>)
    requires
        !s.contains('\n'),
    ensures
        crate::text::lines_scan(s) == (Seq::<Seq<char>>::empty(), s),
    decreases s.len(),
{
    if s.len() > 0 {
        let init = s.drop_last();
        assert(!init.contains('\n')) by {
            if init.contains('\n') {
                let i = choose|i: int| 0 <= i < init.len() && init[i] == '\n';
                assert(s[i] == '\n');
            }
        }
        lemma_lines_scan_single(init);
        assert(s[s.len() - 1] == s.last());
        assert(init.push(s.last()) =~= s);
    } else {
        assert(s =~= Seq::<char>::empty());
    }
}

/// A non-empty text without a line feed is one line.
proof fn lemma_lines_single(s: Seq<char>)
    requires
        s.len() > 0,
        !s.contains('\n'),
    ensures
        spec_lines(s) == seq![s],
{
    lemma_lines_scan_single(s);
    assert(Seq::<Seq<char>>::empty().push(s) =~= seq![s]);
}

proof fn lemma_index_of_ws_at(s: Seq<char>, j: int)
    requires
        0 <= j < s.len(),
        forall|k: int| 0 <= k < j ==> !spec_is_ws(#[trigger] s[k]),
        spec_is_ws(s[j]),
    ensures
        index_of_ws(s) == j,
    decreases j,
{
    if j > 0 {
        let t = s.drop_first();
        assert forall|k: int| 0 <= k < j - 1 implies !spec_is_ws(#[trigger] t[k]) by {
            assert(t[k] == s[k + 1]);
        }
        assert(t[j - 1] == s[j]);
        assert(!spec_is_ws(s[0]));
        lemma_index_of_ws_at(t, j - 1);
    }
}

proof fn lemma_unwrap_quotes_unwrapped(t: Seq<char>)
    requires
        !wrapped_in_quotes(t),
    ensures
        unwrap_quotes(t) == t,
{
    if t.len() >= 6 && has_prefix(t, triple_dq()) && has_suffix(t, triple_dq()) {
        assert(t.take(3)[0] == t[0]);
        assert(t.skip(t.len() - 3)[2] == t.last());
    }
    if t.len() >= 6 && has_prefix(t, triple_sq()) && has_suffix(t, triple_sq()) {
        assert(t.take(3)[0] == t[0]);
        assert(t.skip(t.len() - 3)[2] == t.last());
    }
}

proof fn lemma_tidy_single(t: Seq<char>)
    requires
        t.len() > 0,
    ensures
        spec_trim_blank_edges_and_collapse(seq![t]) == seq![t],
{
    let ls = seq![t];
    lemma_empty_prefix_len(ls, 0);
    assert(ls.skip(0) =~= ls);
    lemma_empty_suffix_len(ls, 1);
    assert(ls.take(1) =~= ls);
    assert(ls.drop_last() =~= Seq::<Seq<char>>::empty());
    assert(ls.last() == t);
    assert(collapse_blank_runs(Seq::<Seq<char>>::empty()) == Seq::<Seq<char>>::empty());
    assert(Seq::<Seq<char>>::empty().push(t) =~= ls);
    assert(collapse_blank_runs(ls) == ls);
    let a = ls.skip(empty_prefix_len(ls) as int);
    assert(a == ls);
    assert(a.take(a.len() - empty_suffix_len(a)) == ls);
}

/// A reply of one trimmed line, not a fence, not wrapped in quotes and not taken for chatter,
/// comes through the cleanup as that one line.
proof fn lemma_one_line_reply(raw: Seq<char>)
    requires
        raw.len() > 0,
        trim(raw) == raw,
        !raw.contains('\n'),
        !wrapped_in_quotes(raw),
        raw[0] != '`',
        !pattern_matches(DOC_PREAMBLE_PATTERN@, raw),
    ensures
        !all_ws(raw),
        drop_leading_filler(non_fence_lines(spec_lines(raw))) == seq![raw],
        spec_strip_wrapping_quotes(join(seq![raw], seq!['\n'])) == raw,
        spec_lines(raw) == seq![raw],
{
    lemma_trim_idempotent(raw);
    assert(!all_ws(raw));
    lemma_lines_single(raw);
    crate::text::lemma_ws_prefix_len_char(raw, 0);
    assert(raw.skip(0) =~= raw);
    assert(trim_start(raw) == raw);
    assert(!is_fence(raw)) by {
        if is_fence(raw) {
            assert(raw.take(3)[0] == fence()[0]);
        }
    }
    assert(seq![raw].drop_last() =~= Seq::<Seq<char>>::empty());
    assert(seq![raw].last() == raw);
    assert(non_fence_lines(Seq::<Seq<char>>::empty()) == Seq::<Seq<char>>::empty());
    assert(Seq::<Seq<char>>::empty().push(raw) =~= seq![raw]);
    assert(non_fence_lines(seq![raw]) =~= seq![raw]);
    assert(drop_leading_filler(seq![raw]) == seq![raw]);
    assert(join(seq![raw], seq!['\n']) == raw);
    lemma_unwrap_quotes_unwrapped(raw);
}

proof fn lemma_keep_line_cleans(t: Seq<char>)
    requires
        t.len() > 0,
        trim(t) == t,
        !pattern_matches(DOC_PREAMBLE_PATTERN@, seq!['K', 'E', 'E', 'P', ' '] + t),
        !t.contains('\n'),
    ensures
        ({
            let raw = seq!['K', 'E', 'E', 'P', ' '] + t;
            &&& !all_ws(raw)
            &&& drop_leading_filler(non_fence_lines(spec_lines(raw))) == seq![raw]
            &&& spec_strip_wrapping_quotes(join(seq![raw], seq!['\n'])) == raw
            &&& spec_lines(raw) == seq![raw]
            &&& trim(raw) == raw
        }),
{
    let kw = seq!['K', 'E', 'E', 'P', ' '];
    let raw = kw + t;
    lemma_trim_idempotent(t);
    assert(!spec_is_ws('K'));
    assert(raw[0] == 'K');
    assert(raw.last() == t.last());
    assert(!raw.contains('\n')) by {
        if raw.contains('\n') {
            let i = choose|i: int| 0 <= i < raw.len() && raw[i] == '\n';
            if i < 5 {
                assert(raw[i] == kw[i]);
            } else {
                assert(raw[i] == t[i - 5]);
            }
        }
    }
    crate::text::lemma_ws_prefix_len_char(raw, 0);
    assert(raw.skip(0) =~= raw);
    crate::text::lemma_ws_suffix_len_char(raw, raw.len() as int);
    assert(raw.take(raw.len() as int) =~= raw);
    assert(trim(raw) == raw);
    lemma_one_line_reply(raw);
}

proof fn lemma_keep_marker(t: Seq<char>)
    requires
        t.len() > 0,
        trim(t) == t,
    ensures
        ({
            let raw = seq!['K', 'E', 'E', 'P', ' '] + t;
            let (marker, rest) = split_marker(raw);
            let core = trim_end_set(marker, marker_punct());
            &&& rest == t
            &&& !eq_ignore_ascii_case(core, word_delete())
            &&& eq_ignore_ascii_case(core, word_keep())
        }),
{
    let kw = seq!['K', 'E', 'E', 'P', ' '];
    let raw = kw + t;
    assert(!spec_is_ws('K') && !spec_is_ws('E') && !spec_is_ws('P') && spec_is_ws(' '));
    assert forall|k: int| 0 <= k < 4 implies !spec_is_ws(#[trigger] raw[k]) by {
        assert(raw[k] == kw[k]);
    }
    assert(raw[4] == ' ');
    lemma_index_of_ws_at(raw, 4);
    let marker = raw.take(4);
    let rest = raw.skip(5);
    assert(rest =~= t);
    assert(split_marker(raw) == (marker, rest));
    let punct = marker_punct();
    assert(!punct.contains(marker[3])) by {
        assert(marker[3] == 'P');
        if punct.contains(marker[3]) {
            let x = choose|x: int| 0 <= x < 4 && punct[x] == marker[3];
            assert(punct[x] == '.' || punct[x] == ':' || punct[x] == '!' || punct[x] == '-');
        }
    }
    crate::text::lemma_run_suffix_len_char(marker, punct, 4);
    assert(marker.take(4) =~= marker);
    let core = trim_end_set(marker, punct);
    assert(core == marker);
    let lo = seq!['k', 'e', 'e', 'p'];
    let up = seq!['K', 'E', 'E', 'P'];
    assert forall|k: int| 0 <= k < 4 implies #[trigger] crate::text::ascii_lower(core[k])
        == crate::text::ascii_lower(word_keep()[k]) by {
        assert(core[k] == raw[k]);
        assert(raw[k] == kw[k]);
        assert(kw[k] == up[k]);
        assert(word_keep()[k] == lo[k]);
        lemma_ascii_letter_case(up[k], lo[k], up[k]);
    }
}

proof fn lemma_keep_text(t: Seq<char>, is_test: bool, kind: Seq<char>)
    requires
        t.len() > 0,
        trim(t) == t,
        !t.contains('\n'),
        !wrapped_in_quotes(t),
    ensures
        join(seq![trim_start(t)], seq!['\n']) == t,
        spec_normalize_lines(spec_strip_wrapping_quotes(t)) == seq![t],
        spec_trim_blank_edges_and_collapse(take_at_most(seq![t], spec_max_lines(is_test, kind)))
            == seq![t],
{
    lemma_trim_idempotent(t);
    crate::text::lemma_ws_prefix_len_char(t, 0);
    assert(t.skip(0) =~= t);
    assert(trim_start(t) == t);
    lemma_unwrap_quotes_unwrapped(t);
    assert(spec_strip_wrapping_quotes(t) == t);
    lemma_lines_single(t);
    crate::text::lemma_ws_suffix_len_char(t, t.len() as int);
    assert(t.take(t.len() as int) =~= t);
    assert(trim_end(t) == t);
    assert(seq![t].map_values(|l: Seq<char>| trim_end(l)) =~= seq![t]);
    lemma_tidy_single(t);
    assert(take_at_most(seq![t], spec_max_lines(is_test, kind)) == seq![t]);
}

/// A docstring reply that is the word `KEEP` and then, on the same line, the new text keeps
/// exactly that text, whatever the line cap: the text after the marker is never dropped. (For
/// text that is one trimmed line, not wrapped in quotes, on a line the preamble pattern does
/// not take for chatter.)
pub proof fn law_keep_on_the_marker_line(t: Seq<char>, is_test: bool, kind: Seq<char>)
    requires
        t.len() > 0,
        trim(t) == t,
        !t.contains('\n'),
        !wrapped_in_quotes(t),
        !pattern_matches(DOC_PREAMBLE_PATTERN@, seq!['K', 'E', 'E', 'P', ' '] + t),
    ensures
        spec_parse_doc_reply(seq!['K', 'E', 'E', 'P', ' '] + t, is_test, kind) == Ok::<
            Option<Seq<char>>,
            ReplyError,
        >(Some(t)),
{
    let raw = seq!['K', 'E', 'E', 'P', ' '] + t;
    lemma_keep_line_cleans(t);
    lemma_keep_marker(t);
    lemma_keep_text(t, is_test, kind);
    assert(seq![raw].skip(1) =~= Seq::<Seq<char>>::empty());
    assert(seq![trim_start(t)] + seq![raw].skip(1) =~= seq![trim_start(t)]);
    lemma_trim_idempotent(t);
    assert(join(seq![t], seq!['\n']) == t);
}


/// A docstring reply that is just the word `delete`, in any letter case, deletes the
/// docstring. (For a reply the preamble pattern does not take for chatter.)
pub proof fn law_doc_delete_reply_deletes(w: Seq<char>, is_test: bool, kind: Seq<char>)
    requires
        w.len() == 6,
        forall|i: int|
            0 <= i < 6 ==> w[i] == seq!['d', 'e', 'l', 'e', 't', 'e'][i] || w[i] == seq![
                'D',
                'E',
                'L',
                'E',
                'T',
                'E',
            ][i],
        !pattern_matches(DOC_PREAMBLE_PATTERN@, w),
    ensures
        spec_parse_doc_reply(w, is_test, kind) == Ok::<Option<Seq<char>>, ReplyError>(None),
{
    let lo = seq!['d', 'e', 'l', 'e', 't', 'e'];
    let up = seq!['D', 'E', 'L', 'E', 'T', 'E'];
    assert forall|k: int| 0 <= k < 6 implies !spec_is_ws(#[trigger] w[k]) && w[k] != '\n' && w[k]
        != '`' && !is_quote_char(w[k]) && !marker_punct().contains(w[k]) by {
        assert(w[k] == lo[k] || w[k] == up[k]);
        if marker_punct().contains(w[k]) {
            let x = choose|x: int| 0 <= x < 4 && marker_punct()[x] == w[k];
            assert(marker_punct()[x] == '.' || marker_punct()[x] == ':' || marker_punct()[x] == '!'
                || marker_punct()[x] == '-');
        }
    }
    assert(w.last() == w[5]);
    crate::text::lemma_ws_prefix_len_char(w, 0);
    assert(w.skip(0) =~= w);
    crate::text::lemma_ws_suffix_len_char(w, 6);
    assert(w.take(6) =~= w);
    assert(trim(w) == w);
    assert(!w.contains('\n')) by {
        if w.contains('\n') {
            let i = choose|i: int| 0 <= i < 6 && w[i] == '\n';
        }
    }
    lemma_one_line_reply(w);
    crate::text::lemma_index_of_ws_none(w);
    assert(split_marker(w) == (w, Seq::<char>::empty()));
    crate::text::lemma_run_suffix_len_char(w, marker_punct(), 6);
    assert(trim_end_set(w, marker_punct()) == w);
    assert forall|k: int| 0 <= k < 6 implies #[trigger] crate::text::ascii_lower(w[k])
        == crate::text::ascii_lower(word_delete()[k]) by {
        assert(w[k] == lo[k] || w[k] == up[k]);
        assert(word_delete()[k] == lo[k]);
        lemma_ascii_letter_case(w[k], lo[k], up[k]);
    }
    assert(eq_ignore_ascii_case(w, word_delete()));
}

/// A summary reply that opens with a class code decides by its letter: `D` and a digit
/// (`D3 reason`) deletes the block; `K` and a digit keeps what follows the code, trimmed, when
/// that is not empty and within twice the word limit, and deletes the block when nothing
/// follows.
pub proof fn law_summary_class_codes(raw: Seq<char>, max_words: nat, letter: char, digit: char, rest: Seq<char>)
    requires
        spec_clean_reply(raw) == seq![letter, digit, ' '] + rest,
        letter == 'D' || letter == 'K',
        '0' <= digit <= '9',
    ensures
        letter == 'D' ==> spec_parse_summary_reply(raw, max_words) == Ok::<
            Option<Seq<char>>,
            ReplyError,
        >(None),
        letter == 'K' && trim(rest).len() == 0 ==> spec_parse_summary_reply(raw, max_words) == Ok::<
            Option<Seq<char>>,
            ReplyError,
        >(None),
        letter == 'K' && trim(rest).len() > 0 && words(trim(rest)).len() <= 2 * max_words
            ==> spec_parse_summary_reply(raw, max_words) == Ok::<Option<Seq<char>>, ReplyError>(
            Some(trim(rest)),
        ),
{
    let c = spec_clean_reply(raw);
    assert(c[0] == letter && c[1] == digit && c[2] == ' ');
    crate::text::lemma_index_of_char(c, ' ', 2);
    let code0 = c.take(2);
    assert(code0 =~= seq![letter, digit]);
    assert(c.skip(3) =~= rest);
    let set = seq![':', '.', '-'];
    assert(!set.contains(digit)) by {
        if set.contains(digit) {
            let x = choose|x: int| 0 <= x < 3 && set[x] == digit;
            assert(set[x] == ':' || set[x] == '.' || set[x] == '-');
        }
    }
    crate::text::lemma_run_suffix_len_char(code0, set, 2);
    assert(code0.take(2) =~= code0);
    assert(trim_end_set(code0, set) == code0);
}

} // verus!
