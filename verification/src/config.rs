//! The settings file: the flat `key = value` subset of TOML documented in the README (one
//! statement per line, no sections, no arrays, no multi-line values). Unknown keys are ignored,
//! so a config written for a newer version still loads.
use vstd::prelude::*;
use crate::types::{Config, Mode, Target};
use crate::text::{
    push_all, chars_of, copy_range, has_prefix, index_of, index_of_chars, is_ws, spec_is_ws, spec_lines,
    string_of, trim_end, trim_end_chars, trim_start, trim_start_chars, view_lines, lines,
    same_chars, starts_with,
};

verus! {

broadcast use vstd::seq::group_seq_axioms;

/// One value parsed from a config line: a quoted string, or a bare token kept as text so the
/// field's own type decides how to read it.
#[derive(Debug, Clone)]
pub enum ConfigValue {
    Str(String),
    Num(String),
}

/// A value as characters.
pub enum ValueText {
    Str(Seq<char>),
    Num(Seq<char>),
}

pub open spec fn value_text(v: ConfigValue) -> ValueText {
    match v {
        ConfigValue::Str(s) => ValueText::Str(s@),
        ConfigValue::Num(s) => ValueText::Num(s@),
    }
}

/// What is wrong with a config line.
#[derive(Debug, Clone, PartialEq, Eq)]
pub enum ConfigFault {
    /// A `[section]` header.
    Section,
    /// No `=`, an empty or malformed key, or no value.
    ExpectedKeyValue,
    /// The key was set on an earlier line.
    DuplicateKey(String),
    /// Something other than a comment follows the value.
    TrailingContent,
    /// A backslash escape other than `\\`, `\"`, `\n`, `\t`, `\r`.
    InvalidEscape(char),
    /// A string value without its closing quote.
    UnterminatedString,
    /// The key takes a quoted string.
    ExpectsString(String),
    /// The key takes a whole number.
    ExpectsWholeNumber(String),
    /// The key takes a number.
    ExpectsNumber(String),
}

/// A fault as characters.
pub enum FaultText {
    Section,
    ExpectedKeyValue,
    DuplicateKey(Seq<char>),
    TrailingContent,
    InvalidEscape(char),
    UnterminatedString,
    ExpectsString(Seq<char>),
    ExpectsWholeNumber(Seq<char>),
    ExpectsNumber(Seq<char>),
}

pub open spec fn fault_text(f: ConfigFault) -> FaultText {
    match f {
        ConfigFault::Section => FaultText::Section,
        ConfigFault::ExpectedKeyValue => FaultText::ExpectedKeyValue,
        ConfigFault::DuplicateKey(k) => FaultText::DuplicateKey(k@),
        ConfigFault::TrailingContent => FaultText::TrailingContent,
        ConfigFault::InvalidEscape(c) => FaultText::InvalidEscape(c),
        ConfigFault::UnterminatedString => FaultText::UnterminatedString,
        ConfigFault::ExpectsString(k) => FaultText::ExpectsString(k@),
        ConfigFault::ExpectsWholeNumber(k) => FaultText::ExpectsWholeNumber(k@),
        ConfigFault::ExpectsNumber(k) => FaultText::ExpectsNumber(k@),
    }
}

/// A fault on a 1-based line.
#[derive(Debug, Clone, PartialEq, Eq)]
pub struct ConfigError {
    pub line: usize,
    pub fault: ConfigFault,
}

/// What a fault says, after its line number.
pub open spec fn fault_words(f: FaultText) -> Seq<char> {
    match f {
        FaultText::Section => "sections are not supported"@,
        FaultText::ExpectedKeyValue => "expected key = value"@,
        FaultText::DuplicateKey(k) => "duplicate key "@ + k,
        FaultText::TrailingContent => "unexpected trailing content"@,
        FaultText::InvalidEscape(c) => "invalid escape \\"@.push(c),
        FaultText::UnterminatedString => "unterminated string"@,
        FaultText::ExpectsString(k) => k + " expects a string"@,
        FaultText::ExpectsWholeNumber(k) => k + " expects a whole number"@,
        FaultText::ExpectsNumber(k) => k + " expects a number"@,
    }
}

impl ConfigError {
    /// `line {n}: {what went wrong}`, as the tool prints it.
    pub fn message(&self) -> (r: String)
        ensures
            r@ == "line "@ + crate::llm::decimal(self.line as nat) + ": "@ + fault_words(
                fault_text(self.fault),
            ),
    {
        let mut v = chars_of("line ");
        push_all(&mut v, &crate::llm::decimal_chars(self.line));
        push_all(&mut v, &chars_of(": "));
        let ghost head = v@;
        match &self.fault {
            ConfigFault::Section => push_all(&mut v, &chars_of("sections are not supported")),
            ConfigFault::ExpectedKeyValue => push_all(&mut v, &chars_of("expected key = value")),
            ConfigFault::DuplicateKey(k) => {
                push_all(&mut v, &chars_of("duplicate key "));
                push_all(&mut v, &chars_of(k.as_str()));
            },
            ConfigFault::TrailingContent => push_all(&mut v, &chars_of("unexpected trailing content")),
            ConfigFault::InvalidEscape(c) => {
                push_all(&mut v, &chars_of("invalid escape \\"));
                v.push(*c);
            },
            ConfigFault::UnterminatedString => push_all(&mut v, &chars_of("unterminated string")),
            ConfigFault::ExpectsString(k) => {
                push_all(&mut v, &chars_of(k.as_str()));
                push_all(&mut v, &chars_of(" expects a string"));
            },
            ConfigFault::ExpectsWholeNumber(k) => {
                push_all(&mut v, &chars_of(k.as_str()));
                push_all(&mut v, &chars_of(" expects a whole number"));
            },
            ConfigFault::ExpectsNumber(k) => {
                push_all(&mut v, &chars_of(k.as_str()));
                push_all(&mut v, &chars_of(" expects a number"));
            },
        }
        assert(v@ =~= head + fault_words(fault_text(self.fault)));
        string_of(&v)
    }
}

/// The character a backslash escape stands for.
pub open spec fn escaped(c: char) -> Option<char> {
    if c == '\\' {
        Some('\\')
    } else if c == '"' {
        Some('"')
    } else if c == 'n' {
        Some('\n')
    } else if c == 't' {
        Some('\t')
    } else if c == 'r' {
        Some('\r')
    } else {
        None
    }
}

/// The inside of a quoted string, from just after its opening quote: the unescaped content and
/// what follows the closing quote.
pub open spec fn scan_quoted(s: Seq<char>) -> Result<(Seq<char>, Seq<char>), FaultText>
    decreases s.len(),
{
    if s.len() == 0 {
        Err(FaultText::UnterminatedString)
    } else if s[0] == '"' {
        Ok((seq![], s.drop_first()))
    } else if s[0] == '\\' {
        if s.len() < 2 {
            Err(FaultText::UnterminatedString)
        } else {
            match escaped(s[1]) {
                Some(c) => match scan_quoted(s.skip(2)) {
                    Ok((content, rest)) => Ok((seq![c] + content, rest)),
                    Err(e) => Err(e),
                },
                None => Err(FaultText::InvalidEscape(s[1])),
            }
        }
    } else {
        match scan_quoted(s.drop_first()) {
            Ok((content, rest)) => Ok((seq![s[0]] + content, rest)),
            Err(e) => Err(e),
        }
    }
}

/// Index of the first whitespace or `#` character (the length when there is none).
pub open spec fn token_end(s: Seq<char>) -> int
    decreases s.len(),
{
    if s.len() == 0 || spec_is_ws(s[0]) || s[0] == '#' {
        0
    } else {
        1 + token_end(s.drop_first())
    }
}

/// One value from the start of `s` and whatever follows it on the line.
pub open spec fn spec_parse_value(s: Seq<char>) -> Result<(ValueText, Seq<char>), FaultText> {
    if s.len() > 0 && s[0] == '"' {
        match scan_quoted(s.drop_first()) {
            Ok((content, rest)) => Ok((ValueText::Str(content), rest)),
            Err(e) => Err(e),
        }
    } else {
        let end = token_end(s);
        if end == 0 {
            Err(FaultText::ExpectedKeyValue)
        } else {
            Ok((ValueText::Num(s.take(end)), s.skip(end)))
        }
    }
}

proof fn lemma_token_end(s: Seq<char>, j: int)
    requires
        0 <= j <= s.len(),
        forall|k: int| 0 <= k < j ==> !spec_is_ws(#[trigger] s[k]) && s[k] != '#',
        j == s.len() || spec_is_ws(s[j]) || s[j] == '#',
    ensures
        token_end(s) == j,
    decreases j,
{
    if j > 0 {
        assert forall|k: int| 0 <= k < j - 1 implies !spec_is_ws(#[trigger] s.drop_first()[k])
            && s.drop_first()[k] != '#' by {
            assert(s.drop_first()[k] == s[k + 1]);
        }
        if j < s.len() {
            assert(s.drop_first()[j - 1] == s[j]);
        }
        lemma_token_end(s.drop_first(), j - 1);
    }
}

/// Parses one value (a quoted string or a bare token) from the start of `s`, returning it
/// along with whatever text follows it on the line.
pub fn parse_config_value(s: &[char]) -> (r: Result<(ConfigValue, Vec<char>), ConfigFault>)
    ensures
        match (r, spec_parse_value(s@)) {
            (Ok((v, rest)), Ok((vt, rt))) => value_text(v) == vt && rest@ == rt,
            (Err(f), Err(ft)) => fault_text(f) == ft,
            _ => false,
        },
{
    if s.len() > 0 && s[0] == '"' {
        let mut out: Vec<char> = Vec::new();
        let mut i: usize = 1;
        assert(s@.skip(1) =~= s@.drop_first());
        while i < s.len()
            invariant
                1 <= i <= s@.len(),
                s@.len() > 0 && s@[0] == '"',
                scan_quoted(s@.drop_first()) == match scan_quoted(s@.skip(i as int)) {
                    Ok((content, rest)) => Ok((out@ + content, rest)),
                    Err(e) => Err(e),
                },
            decreases s@.len() - i,
        {
            let ghost t = s@.skip(i as int);
            assert(t[0] == s@[i as int]);
            let c = s[i];
            if c == '"' {
                assert(scan_quoted(t) == Ok::<(Seq<char>, Seq<char>), FaultText>(
                    (seq![], t.drop_first()),
                ));
                assert(out@ + Seq::<char>::empty() =~= out@);
                assert(t.drop_first() =~= s@.skip(i + 1));
                let rest = copy_range(s, i + 1, s.len());
                return Ok((ConfigValue::Str(string_of(&out)), rest));
            } else if c == '\\' {
                if i + 1 >= s.len() {
                    return Err(ConfigFault::UnterminatedString);
                }
                let e = s[i + 1];
                assert(t[1] == e);
                let mapped = if e == '\\' {
                    Some('\\')
                } else if e == '"' {
                    Some('"')
                } else if e == 'n' {
                    Some('\n')
                } else if e == 't' {
                    Some('\t')
                } else if e == 'r' {
                    Some('\r')
                } else {
                    None
                };
                match mapped {
                    Some(m) => {
                        assert(t.skip(2) =~= s@.skip(i + 2));
                        let ghost before = out@;
                        out.push(m);
                        proof {
                            match scan_quoted(s@.skip(i + 2)) {
                                Ok((content, rest)) => {
                                    assert(before + (seq![m] + content) =~= out@ + content);
                                },
                                Err(_) => {},
                            }
                        }
                        i = i + 2;
                    },
                    None => {
                        return Err(ConfigFault::InvalidEscape(e));
                    },
                }
            } else {
                assert(t.drop_first() =~= s@.skip(i + 1));
                let ghost before = out@;
                out.push(c);
                proof {
                    match scan_quoted(s@.skip(i + 1)) {
                        Ok((content, rest)) => {
                            assert(before + (seq![c] + content) =~= out@ + content);
                        },
                        Err(_) => {},
                    }
                }
                i += 1;
            }
        }
        assert(s@.skip(i as int) =~= Seq::<char>::empty());
        Err(ConfigFault::UnterminatedString)
    } else {
        let mut end: usize = 0;
        while end < s.len() && !is_ws(s[end]) && s[end] != '#'
            invariant
                0 <= end <= s@.len(),
                forall|k: int| 0 <= k < end ==> !spec_is_ws(#[trigger] s@[k]) && s@[k] != '#',
            decreases s@.len() - end,
        {
            end += 1;
        }
        proof {
            lemma_token_end(s@, end as int);
        }
        if end == 0 {
            return Err(ConfigFault::ExpectedKeyValue);
        }
        let tok = copy_range(s, 0, end);
        let rest = copy_range(s, end, s.len());
        assert(tok@ =~= s@.take(end as int));
        assert(rest@ =~= s@.skip(end as int));
        Ok((ConfigValue::Num(string_of(&tok)), rest))
    }
}

/// The value of an ASCII decimal digit.
pub open spec fn digit_of(c: char) -> nat {
    ((c as u32) - ('0' as u32)) as nat
}

/// All characters are ASCII decimal digits.
pub open spec fn all_digits(d: Seq<char>) -> bool {
    forall|i: int| 0 <= i < d.len() ==> '0' <= #[trigger] d[i] && d[i] <= '9'
}

/// The number the digits spell.
pub open spec fn digits_value(d: Seq<char>) -> nat
    decreases d.len(),
{
    if d.len() == 0 {
        0
    } else {
        digits_value(d.drop_last()) * 10 + digit_of(d.last())
    }
}

/// `usize::from_str`: an optional `+`, then at least one ASCII digit, fitting `usize`.
pub open spec fn spec_parse_usize(s: Seq<char>) -> Option<nat> {
    let d = if s.len() > 0 && s[0] == '+' {
        s.drop_first()
    } else {
        s
    };
    if d.len() > 0 && all_digits(d) && digits_value(d) <= usize::MAX {
        Some(digits_value(d))
    } else {
        None
    }
}

proof fn lemma_digits_value_grows(d: Seq<char>, k: int)
    requires
        0 <= k <= d.len(),
        all_digits(d),
    ensures
        digits_value(d.take(k)) <= digits_value(d),
    decreases d.len() - k,
{
    if k < d.len() {
        lemma_digits_value_grows(d, k + 1);
        assert(d.take(k + 1).drop_last() =~= d.take(k));
    } else {
        assert(d.take(k) =~= d);
    }
}

/// `str::parse::<usize>`.
pub fn parse_usize(s: &[char]) -> (r: Option<usize>)
    ensures
        match (r, spec_parse_usize(s@)) {
            (Some(n), Some(v)) => n == v,
            (None, None) => true,
            _ => false,
        },
{
    let start: usize = if s.len() > 0 && s[0] == '+' {
        1
    } else {
        0
    };
    let ghost d = if s@.len() > 0 && s@[0] == '+' {
        s@.drop_first()
    } else {
        s@
    };
    assert(d =~= s@.skip(start as int));
    if start >= s.len() {
        return None;
    }
    let mut acc: usize = 0;
    let mut i: usize = start;
    while i < s.len()
        invariant
            start <= i <= s@.len(),
            d == s@.skip(start as int),
            spec_parse_usize(s@) == if d.len() > 0 && all_digits(d) && digits_value(d)
                <= usize::MAX {
                Some(digits_value(d))
            } else {
                None
            },
            all_digits(d.take(i - start)),
            acc == digits_value(d.take(i - start)),
        decreases s@.len() - i,
    {
        let c = s[i];
        assert(d.take(i - start + 1).drop_last() =~= d.take(i - start));
        assert(d[i - start] == c);
        if !('0' <= c && c <= '9') {
            proof {
                assert(!('0' <= d[i - start] && d[i - start] <= '9'));
                assert(!all_digits(d));
            }
            return None;
        }
        let v = (c as u32 - '0' as u32) as usize;
        if acc > (usize::MAX - v) / 10 {
            proof {
                assert(digits_value(d.take(i - start + 1)) == acc * 10 + v);
                assert(acc * 10 + v > usize::MAX) by (nonlinear_arith)
                    requires
                        acc > (usize::MAX - v) / 10,
                        v <= 9,
                ;
                if all_digits(d) {
                    lemma_digits_value_grows(d, i - start + 1);
                }
            }
            return None;
        }
        assert(acc * 10 + v <= usize::MAX) by (nonlinear_arith)
            requires
                acc <= (usize::MAX - v) / 10,
                v <= 9,
        ;
        acc = acc * 10 + v;
        assert forall|k: int| 0 <= k < i - start + 1 implies '0' <= #[trigger] d.take(
            i - start + 1,
        )[k] && d.take(i - start + 1)[k] <= '9' by {
            if k < i - start {
                assert(d.take(i - start + 1)[k] == d.take(i - start)[k]);
            }
        }
        i += 1;
    }
    assert(d.take(i - start) =~= d);
    Some(acc)
}

/// Keys that take a quoted string.
pub open spec fn string_key(k: Seq<char>) -> bool {
    ||| k == seq!['e', 'n', 'd', 'p', 'o', 'i', 'n', 't']
    ||| k == seq!['m', 'o', 'd', 'e', 'l']
    ||| k == seq!['d', 'o', 'c', 's', 't', 'r', 'i', 'n', 'g', 's', '_', 'm', 'o', 'd', 'e', 'l']
    ||| k == seq!['a', 'p', 'i', '_', 'k', 'e', 'y']
}

/// Keys that take a whole number.
pub open spec fn count_key(k: Seq<char>) -> bool {
    ||| k == seq!['w', 'o', 'r', 'k', 'e', 'r', 's']
    ||| k == seq!['m', 'i', 'n', '_', 'l', 'i', 'n', 'e', 's']
    ||| k == seq!['m', 'a', 'x', '_', 'w', 'o', 'r', 'd', 's']
}

/// The key that takes a decimal number (a bare token; reading it as a number is the caller's).
pub open spec fn density_key(k: Seq<char>) -> bool {
    k == seq!['m', 'i', 'n', '_', 'd', 'e', 'n', 's', 'i', 't', 'y']
}

/// Whether a value suits its key; unknown keys take anything.
pub open spec fn assign_fault(k: Seq<char>, v: ValueText) -> Option<FaultText> {
    if string_key(k) {
        match v {
            ValueText::Str(_) => None,
            ValueText::Num(_) => Some(FaultText::ExpectsString(k)),
        }
    } else if count_key(k) {
        match v {
            ValueText::Num(n) => if spec_parse_usize(n) is Some {
                None
            } else {
                Some(FaultText::ExpectsWholeNumber(k))
            },
            ValueText::Str(_) => Some(FaultText::ExpectsNumber(k)),
        }
    } else if density_key(k) {
        match v {
            ValueText::Num(_) => None,
            ValueText::Str(_) => Some(FaultText::ExpectsNumber(k)),
        }
    } else {
        None
    }
}

/// A key is ASCII letters, digits, `_` and `-`.
pub open spec fn key_chars_ok(k: Seq<char>) -> bool {
    forall|i: int|
        0 <= i < k.len() ==> {
            let c = #[trigger] k[i];
            ('a' <= c && c <= 'z') || ('A' <= c && c <= 'Z') || ('0' <= c && c <= '9') || c
                == '_' || c == '-'
        }
}

/// What one line of the file says.
pub enum LineOutcome {
    /// Blank or a comment.
    Skip,
    Fault(FaultText),
    /// `key = value`.
    Stmt(Seq<char>, ValueText),
}

/// What one line says, given the keys set on earlier lines.
pub open spec fn line_outcome(raw: Seq<char>, seen: Seq<Seq<char>>) -> LineOutcome {
    let line = trim_start(raw);
    if line.len() == 0 || line[0] == '#' {
        LineOutcome::Skip
    } else if line[0] == '[' {
        LineOutcome::Fault(FaultText::Section)
    } else {
        let eq = index_of(line, '=');
        if eq < 0 {
            LineOutcome::Fault(FaultText::ExpectedKeyValue)
        } else {
            let key = trim_end(line.take(eq));
            if key.len() == 0 || !key_chars_ok(key) {
                LineOutcome::Fault(FaultText::ExpectedKeyValue)
            } else if seen.contains(key) {
                LineOutcome::Fault(FaultText::DuplicateKey(key))
            } else {
                match spec_parse_value(trim_start(line.skip(eq + 1))) {
                    Err(f) => LineOutcome::Fault(f),
                    Ok((v, rest)) => {
                        let r2 = trim_start(rest);
                        if r2.len() > 0 && r2[0] != '#' {
                            LineOutcome::Fault(FaultText::TrailingContent)
                        } else {
                            match assign_fault(key, v) {
                                Some(f) => LineOutcome::Fault(f),
                                None => LineOutcome::Stmt(key, v),
                            }
                        }
                    },
                }
            }
        }
    }
}

/// A `key = value` statement with its 1-based line number.
pub type Stmt = (Seq<char>, ValueText, nat);

/// The keys of the statements.
pub open spec fn stmt_keys(st: Seq<Stmt>) -> Seq<Seq<char>> {
    st.map_values(|p: Stmt| p.0)
}

/// The statements of the lines in order, or the first fault with its 1-based line number.
pub open spec fn config_scan(lines: Seq<Seq<char>>) -> Result<Seq<Stmt>, (nat, FaultText)>
    decreases lines.len(),
{
    if lines.len() == 0 {
        Ok(seq![])
    } else {
        match config_scan(lines.drop_last()) {
            Err(e) => Err(e),
            Ok(st) => match line_outcome(lines.last(), stmt_keys(st)) {
                LineOutcome::Skip => Ok(st),
                LineOutcome::Fault(f) => Err((lines.len(), f)),
                LineOutcome::Stmt(k, v) => Ok(st.push((k, v, lines.len()))),
            },
        }
    }
}

/// The statement that sets a key, if any.
pub open spec fn lookup(st: Seq<Stmt>, k: Seq<char>) -> Option<(ValueText, nat)>
    decreases st.len(),
{
    if st.len() == 0 {
        None
    } else if st.last().0 == k {
        Some((st.last().1, st.last().2))
    } else {
        lookup(st.drop_last(), k)
    }
}

/// The text of a string or token value.
pub open spec fn value_chars(v: ValueText) -> Seq<char> {
    match v {
        ValueText::Str(s) => s,
        ValueText::Num(s) => s,
    }
}

/// Optional settings from the config file; flags override these.
#[derive(Debug, Clone)]
pub struct FileConfig {
    pub endpoint: Option<String>,
    pub model: Option<String>,
    /// Model for the docstrings subcommand; falls back to `model`, then the built-in default.
    pub docstrings_model: Option<String>,
    pub api_key: Option<String>,
    pub workers: Option<usize>,
    pub min_lines: Option<usize>,
    pub max_words: Option<usize>,
    /// The `min_density` token as written, and its 1-based line; the caller reads it as a
    /// decimal number.
    pub min_density: Option<String>,
    pub min_density_line: usize,
}

pub open spec fn opt_text(o: Option<String>) -> Option<Seq<char>> {
    match o {
        Some(s) => Some(s@),
        None => None,
    }
}

/// A text setting read from the statements.
pub open spec fn text_setting(st: Seq<Stmt>, k: Seq<char>) -> Option<Seq<char>> {
    match lookup(st, k) {
        Some((v, _)) => Some(value_chars(v)),
        None => None,
    }
}

/// A count setting read from the statements.
pub open spec fn count_setting(st: Seq<Stmt>, k: Seq<char>) -> Option<usize> {
    match lookup(st, k) {
        Some((v, _)) => match spec_parse_usize(value_chars(v)) {
            Some(n) => Some(n as usize),
            None => None,
        },
        None => None,
    }
}

/// The settings the statements make.
pub open spec fn config_is(c: FileConfig, st: Seq<Stmt>) -> bool {
    &&& opt_text(c.endpoint) == text_setting(st, seq!['e', 'n', 'd', 'p', 'o', 'i', 'n', 't'])
    &&& opt_text(c.model) == text_setting(st, seq!['m', 'o', 'd', 'e', 'l'])
    &&& opt_text(c.docstrings_model) == text_setting(
        st,
        seq!['d', 'o', 'c', 's', 't', 'r', 'i', 'n', 'g', 's', '_', 'm', 'o', 'd', 'e', 'l'],
    )
    &&& opt_text(c.api_key) == text_setting(st, seq!['a', 'p', 'i', '_', 'k', 'e', 'y'])
    &&& c.workers == count_setting(st, seq!['w', 'o', 'r', 'k', 'e', 'r', 's'])
    &&& c.min_lines == count_setting(st, seq!['m', 'i', 'n', '_', 'l', 'i', 'n', 'e', 's'])
    &&& c.max_words == count_setting(st, seq!['m', 'a', 'x', '_', 'w', 'o', 'r', 'd', 's'])
    &&& opt_text(c.min_density) == text_setting(
        st,
        seq!['m', 'i', 'n', '_', 'd', 'e', 'n', 's', 'i', 't', 'y'],
    )
    &&& c.min_density_line == match lookup(
        st,
        seq!['m', 'i', 'n', '_', 'd', 'e', 'n', 's', 'i', 't', 'y'],
    ) {
        Some((_, line)) => line,
        None => 0,
    }
}

/// The file's text without a leading byte-order mark.
pub open spec fn without_bom(text: Seq<char>) -> Seq<char> {
    if text.len() > 0 && text[0] == '\u{feff}' {
        text.drop_first()
    } else {
        text
    }
}

/// What parsing a settings file yields.
pub open spec fn spec_parse_config(text: Seq<char>) -> Result<Seq<Stmt>, (nat, FaultText)> {
    config_scan(spec_lines(without_bom(text)))
}

/// What one line says, as values.
pub enum LineResult {
    Skip,
    Fault(ConfigFault),
    Stmt(Vec<char>, ConfigValue),
}

/// The line result matches the spec outcome.
pub open spec fn line_result_is(r: LineResult, o: LineOutcome) -> bool {
    match (r, o) {
        (LineResult::Skip, LineOutcome::Skip) => true,
        (LineResult::Fault(f), LineOutcome::Fault(ft)) => fault_text(f) == ft,
        (LineResult::Stmt(k, v), LineOutcome::Stmt(kt, vt)) => k@ == kt && value_text(v) == vt,
        _ => false,
    }
}

fn key_chars_ok_exec(k: &[char]) -> (r: bool)
    ensures
        r == key_chars_ok(k@),
{
    let mut i: usize = 0;
    while i < k.len()
        invariant
            0 <= i <= k@.len(),
            forall|j: int|
                0 <= j < i ==> {
                    let c = #[trigger] k@[j];
                    ('a' <= c && c <= 'z') || ('A' <= c && c <= 'Z') || ('0' <= c && c <= '9')
                        || c == '_' || c == '-'
                },
        decreases k@.len() - i,
    {
        let c = k[i];
        if !(('a' <= c && c <= 'z') || ('A' <= c && c <= 'Z') || ('0' <= c && c <= '9') || c
            == '_' || c == '-') {
            return false;
        }
        i += 1;
    }
    true
}

fn seen_contains(seen: &Vec<Vec<char>>, k: &[char]) -> (r: bool)
    ensures
        r == view_lines(seen@).contains(k@),
{
    let mut i: usize = 0;
    while i < seen.len()
        invariant
            0 <= i <= seen@.len(),
            forall|j: int| 0 <= j < i ==> view_lines(seen@)[j] != k@,
        decreases seen@.len() - i,
    {
        if same_chars(&seen[i], k) {
            assert(view_lines(seen@)[i as int] == k@);
            return true;
        }
        i += 1;
    }
    false
}

/// The keys by name, as character arrays.
fn key_endpoint() -> (r: Vec<char>)
    ensures
        r@ == seq!['e', 'n', 'd', 'p', 'o', 'i', 'n', 't'],
{
    let a = ['e', 'n', 'd', 'p', 'o', 'i', 'n', 't'];
    let r = copy_range(&a, 0, a.len());
    assert(r@ =~= seq!['e', 'n', 'd', 'p', 'o', 'i', 'n', 't']);
    r
}

fn key_model() -> (r: Vec<char>)
    ensures
        r@ == seq!['m', 'o', 'd', 'e', 'l'],
{
    let a = ['m', 'o', 'd', 'e', 'l'];
    let r = copy_range(&a, 0, a.len());
    assert(r@ =~= seq!['m', 'o', 'd', 'e', 'l']);
    r
}

fn key_docstrings_model() -> (r: Vec<char>)
    ensures
        r@ == seq!['d', 'o', 'c', 's', 't', 'r', 'i', 'n', 'g', 's', '_', 'm', 'o', 'd', 'e', 'l'],
{
    let a = ['d', 'o', 'c', 's', 't', 'r', 'i', 'n', 'g', 's', '_', 'm', 'o', 'd', 'e', 'l'];
    let r = copy_range(&a, 0, a.len());
    assert(r@ =~= seq!['d', 'o', 'c', 's', 't', 'r', 'i', 'n', 'g', 's', '_', 'm', 'o', 'd', 'e', 'l']);
    r
}

fn key_api_key() -> (r: Vec<char>)
    ensures
        r@ == seq!['a', 'p', 'i', '_', 'k', 'e', 'y'],
{
    let a = ['a', 'p', 'i', '_', 'k', 'e', 'y'];
    let r = copy_range(&a, 0, a.len());
    assert(r@ =~= seq!['a', 'p', 'i', '_', 'k', 'e', 'y']);
    r
}

fn key_workers() -> (r: Vec<char>)
    ensures
        r@ == seq!['w', 'o', 'r', 'k', 'e', 'r', 's'],
{
    let a = ['w', 'o', 'r', 'k', 'e', 'r', 's'];
    let r = copy_range(&a, 0, a.len());
    assert(r@ =~= seq!['w', 'o', 'r', 'k', 'e', 'r', 's']);
    r
}

fn key_min_lines() -> (r: Vec<char>)
    ensures
        r@ == seq!['m', 'i', 'n', '_', 'l', 'i', 'n', 'e', 's'],
{
    let a = ['m', 'i', 'n', '_', 'l', 'i', 'n', 'e', 's'];
    let r = copy_range(&a, 0, a.len());
    assert(r@ =~= seq!['m', 'i', 'n', '_', 'l', 'i', 'n', 'e', 's']);
    r
}

fn key_max_words() -> (r: Vec<char>)
    ensures
        r@ == seq!['m', 'a', 'x', '_', 'w', 'o', 'r', 'd', 's'],
{
    let a = ['m', 'a', 'x', '_', 'w', 'o', 'r', 'd', 's'];
    let r = copy_range(&a, 0, a.len());
    assert(r@ =~= seq!['m', 'a', 'x', '_', 'w', 'o', 'r', 'd', 's']);
    r
}

fn key_min_density() -> (r: Vec<char>)
    ensures
        r@ == seq!['m', 'i', 'n', '_', 'd', 'e', 'n', 's', 'i', 't', 'y'],
{
    let a = ['m', 'i', 'n', '_', 'd', 'e', 'n', 's', 'i', 't', 'y'];
    let r = copy_range(&a, 0, a.len());
    assert(r@ =~= seq!['m', 'i', 'n', '_', 'd', 'e', 'n', 's', 'i', 't', 'y']);
    r
}

/// Whether a value suits its key (see `assign_fault`).
fn assign_fault_exec(k: &[char], v: &ConfigValue) -> (r: Option<ConfigFault>)
    ensures
        match (r, assign_fault(k@, value_text(*v))) {
            (Some(f), Some(ft)) => fault_text(f) == ft,
            (None, None) => true,
            _ => false,
        },
{
    let is_str = same_chars(k, &key_endpoint()) || same_chars(k, &key_model()) || same_chars(
        k,
        &key_docstrings_model(),
    ) || same_chars(k, &key_api_key());
    let is_count = same_chars(k, &key_workers()) || same_chars(k, &key_min_lines())
        || same_chars(k, &key_max_words());
    let is_density = same_chars(k, &key_min_density());
    let key = string_of(k);
    if is_str {
        match v {
            ConfigValue::Str(_) => None,
            ConfigValue::Num(_) => Some(ConfigFault::ExpectsString(key)),
        }
    } else if is_count {
        match v {
            ConfigValue::Num(n) => if parse_usize(&chars_of(n.as_str())).is_some() {
                None
            } else {
                Some(ConfigFault::ExpectsWholeNumber(key))
            },
            ConfigValue::Str(_) => Some(ConfigFault::ExpectsNumber(key)),
        }
    } else if is_density {
        match v {
            ConfigValue::Num(_) => None,
            ConfigValue::Str(_) => Some(ConfigFault::ExpectsNumber(key)),
        }
    } else {
        None
    }
}

/// What one line says, given the keys set on earlier lines.
fn line_outcome_exec(raw: &[char], seen: &Vec<Vec<char>>) -> (r: LineResult)
    ensures
        line_result_is(r, line_outcome(raw@, view_lines(seen@))),
{
    let line = trim_start_chars(raw);
    if line.len() == 0 || line[0] == '#' {
        return LineResult::Skip;
    }
    if line[0] == '[' {
        return LineResult::Fault(ConfigFault::Section);
    }
    let eq = match index_of_chars(&line, '=') {
        Some(e) => e,
        None => {
            return LineResult::Fault(ConfigFault::ExpectedKeyValue);
        },
    };
    proof {
        crate::text::lemma_index_of(line@, '=');
    }
    let head = copy_range(&line, 0, eq);
    assert(head@ =~= line@.take(eq as int));
    let key = trim_end_chars(&head);
    if key.len() == 0 || !key_chars_ok_exec(&key) {
        return LineResult::Fault(ConfigFault::ExpectedKeyValue);
    }
    if seen_contains(seen, &key) {
        return LineResult::Fault(ConfigFault::DuplicateKey(string_of(&key)));
    }
    let tail = copy_range(&line, eq + 1, line.len());
    assert(tail@ =~= line@.skip(eq + 1));
    let (value, rest) = match parse_config_value(&trim_start_chars(&tail)) {
        Ok(p) => p,
        Err(f) => {
            return LineResult::Fault(f);
        },
    };
    let r2 = trim_start_chars(&rest);
    if r2.len() > 0 && r2[0] != '#' {
        return LineResult::Fault(ConfigFault::TrailingContent);
    }
    match assign_fault_exec(&key, &value) {
        Some(f) => LineResult::Fault(f),
        None => LineResult::Stmt(key, value),
    }
}

/// Sets the field `k` names (see `config_is`), leaving the others.
fn assign(cfg: &mut FileConfig, k: &[char], v: ConfigValue, line: usize)
    requires
        assign_fault(k@, value_text(v)) is None,
    ensures
        forall|st: Seq<Stmt>|
            config_is(*old(cfg), st) ==> config_is(
                *final(cfg),
                st.push((k@, value_text(v), line as nat)),
            ),
{
    let ghost vt = value_text(v);
    let text = match &v {
        ConfigValue::Str(s) => string_of(&chars_of(s.as_str())),
        ConfigValue::Num(s) => string_of(&chars_of(s.as_str())),
    };
    assert(text@ == value_chars(vt));
    let count = parse_usize(&chars_of(text.as_str()));
    if same_chars(k, &key_endpoint()) {
        cfg.endpoint = Some(text);
    } else if same_chars(k, &key_model()) {
        cfg.model = Some(text);
    } else if same_chars(k, &key_docstrings_model()) {
        cfg.docstrings_model = Some(text);
    } else if same_chars(k, &key_api_key()) {
        cfg.api_key = Some(text);
    } else if same_chars(k, &key_workers()) {
        cfg.workers = count;
    } else if same_chars(k, &key_min_lines()) {
        cfg.min_lines = count;
    } else if same_chars(k, &key_max_words()) {
        cfg.max_words = count;
    } else if same_chars(k, &key_min_density()) {
        cfg.min_density = Some(text);
        cfg.min_density_line = line;
    }
    proof {
        assert forall|st: Seq<Stmt>| config_is(*old(cfg), st) implies config_is(
            *final(cfg),
            st.push((k@, vt, line as nat)),
        ) by {
            let st2 = st.push((k@, vt, line as nat));
            assert(st2.drop_last() =~= st);
        }
    }
}

/// Once a prefix of the lines holds a fault, every longer prefix reports that fault.
proof fn lemma_scan_fault_sticks(lines: Seq<Seq<char>>, j: int, k: int)
    requires
        0 <= j <= k <= lines.len(),
        config_scan(lines.take(j)) is Err,
    ensures
        config_scan(lines.take(k)) == config_scan(lines.take(j)),
    decreases k - j,
{
    if j < k {
        lemma_scan_fault_sticks(lines, j, k - 1);
        assert(lines.take(k).drop_last() =~= lines.take(k - 1));
    }
}

/// Parses the settings file: the statements in order, or the first fault with its line.
pub fn parse_config(text: &str) -> (r: Result<FileConfig, ConfigError>)
    ensures
        match (r, spec_parse_config(text@)) {
            (Ok(c), Ok(st)) => config_is(c, st),
            (Err(e), Err((line, f))) => e.line == line && fault_text(e.fault) == f,
            _ => false,
        },
{
    let all = chars_of(text);
    let body = if all.len() > 0 && all[0] == '\u{feff}' {
        copy_range(&all, 1, all.len())
    } else {
        copy_range(&all, 0, all.len())
    };
    assert(body@ =~= without_bom(text@));
    let ls = lines(&body);
    let ghost lv = view_lines(ls@);
    let mut cfg = FileConfig {
        endpoint: None,
        model: None,
        docstrings_model: None,
        api_key: None,
        workers: None,
        min_lines: None,
        max_words: None,
        min_density: None,
        min_density_line: 0,
    };
    let mut seen: Vec<Vec<char>> = Vec::new();
    let ghost mut st: Seq<Stmt> = seq![];
    let mut i: usize = 0;
    while i < ls.len()
        invariant
            0 <= i <= ls@.len(),
            lv == view_lines(ls@),
            lv == spec_lines(without_bom(text@)),
            config_scan(lv.take(i as int)) == Ok::<Seq<Stmt>, (nat, FaultText)>(st),
            view_lines(seen@) == stmt_keys(st),
            config_is(cfg, st),
        decreases ls@.len() - i,
    {
        assert(lv.take(i + 1).drop_last() =~= lv.take(i as int));
        assert(lv.take(i + 1).last() == ls@[i as int]@);
        match line_outcome_exec(&ls[i], &seen) {
            LineResult::Skip => {},
            LineResult::Fault(f) => {
                proof {
                    lemma_scan_fault_sticks(lv, i + 1, lv.len() as int);
                    assert(lv.take(lv.len() as int) =~= lv);
                }
                return Err(ConfigError { line: i + 1, fault: f });
            },
            LineResult::Stmt(k, v) => {
                let ghost kv = k@;
                let ghost vt = value_text(v);
                assign(&mut cfg, &k, v, i + 1);
                proof {
                    st = st.push((kv, vt, (i + 1) as nat));
                }
                let ghost old_seen = view_lines(seen@);
                seen.push(k);
                assert(view_lines(seen@) =~= old_seen.push(kv));
                assert(stmt_keys(st) =~= stmt_keys(st.drop_last()).push(kv));
            },
        }
        i += 1;
    }
    assert(lv.take(ls@.len() as int) =~= lv);
    Ok(cfg)
}

/// The model endpoint used when neither a flag nor the file names one.
pub const DEFAULT_ENDPOINT: &'static str = "http://localhost:8000/v1";

/// The model for comments when neither a flag nor the file names one.
pub const DEFAULT_MODEL: &'static str = "gemma-4-e2b-it-4bit";

/// The model for docstrings when none is named: rewriting a docstring needs the larger model,
/// the small one drops the caveat a docstring exists to state.
pub const DEFAULT_DOC_MODEL: &'static str = "gemma-4-26b-a4b-it-4bit";

pub const DEFAULT_WORKERS: usize = 8;

pub const DEFAULT_MIN_LINES: usize = 4;

/// 5.0 words per line, in thousandths.
pub const DEFAULT_MIN_DENSITY_MILLI: u64 = 5000;

pub const DEFAULT_MAX_WORDS: usize = 20;

/// Settings given on the command line. A flag that was given wins over the file.
#[derive(Debug, Clone)]
pub struct Overrides {
    pub delete: bool,
    pub dry_run: bool,
    pub verbose: bool,
    pub endpoint: Option<String>,
    pub model: Option<String>,
    pub api_key: Option<String>,
    pub workers: Option<usize>,
    pub min_lines: Option<usize>,
    /// `--min-density` in thousandths of a word per line.
    pub min_density_milli: Option<u64>,
    pub max_words: Option<usize>,
}

/// Flags that cannot go together.
#[derive(Debug, Clone, Copy, PartialEq, Eq, Structural)]
pub enum FlagError {
    /// `--dry-run` without `--delete`: reduce mode has no dry run.
    DryRunWithoutDelete,
}

impl FlagError {
    /// The message the tool prints.
    pub fn message(&self) -> (r: &'static str)
        ensures
            r@ == "--dry-run only applies to --delete"@,
    {
        match self {
            FlagError::DryRunWithoutDelete => "--dry-run only applies to --delete",
        }
    }
}

/// Checks the flags before anything is read: `--dry-run` only goes with `--delete`.
pub fn check_flags(flags: &Overrides) -> (r: Result<(), FlagError>)
    ensures
        r is Err <==> (flags.dry_run && !flags.delete),
{
    if flags.dry_run && !flags.delete {
        Err(FlagError::DryRunWithoutDelete)
    } else {
        Ok(())
    }
}

/// The first of two optional values that is there.
pub open spec fn either<T>(a: Option<T>, b: Option<T>) -> Option<T> {
    match a {
        Some(x) => Some(x),
        None => b,
    }
}

/// An optional value, or a default.
pub open spec fn or_else<T>(a: Option<T>, d: T) -> T {
    match a {
        Some(x) => x,
        None => d,
    }
}

/// The model a run uses: the flag, else the file's model for the target (for docstrings,
/// `docstrings_model` before `model`), else the target's default.
pub open spec fn spec_model(target: Target, flag: Option<Seq<char>>, file: FileConfig) -> Seq<char> {
    let from_file = match target {
        Target::Comments => opt_text(file.model),
        Target::Docstrings => either(opt_text(file.docstrings_model), opt_text(file.model)),
    };
    let d = match target {
        Target::Comments => DEFAULT_MODEL@,
        Target::Docstrings => DEFAULT_DOC_MODEL@,
    };
    or_else(either(flag, from_file), d)
}

fn pick_text(a: &Option<String>, b: &Option<String>) -> (r: Option<String>)
    ensures
        opt_text(r) == either(opt_text(*a), opt_text(*b)),
{
    match a {
        Some(x) => Some(x.clone()),
        None => match b {
            Some(y) => Some(y.clone()),
            None => None,
        },
    }
}

fn text_or(a: Option<String>, d: &str) -> (r: String)
    ensures
        r@ == or_else(opt_text(a), d@),
{
    match a {
        Some(x) => x,
        None => d.to_owned(),
    }
}

fn count_or(a: Option<usize>, b: Option<usize>, d: usize) -> (r: usize)
    ensures
        r == or_else(either(a, b), d),
{
    match a {
        Some(x) => x,
        None => match b {
            Some(y) => y,
            None => d,
        },
    }
}

/// The run settings: each one from its flag when given, else from the file, else the default.
/// `file_min_density_milli` is the file's `min_density`, already read as thousandths.
pub fn resolve_config(
    target: Target,
    flags: &Overrides,
    file: &FileConfig,
    file_min_density_milli: Option<u64>,
) -> (r: Config)
    ensures
        r.target == target,
        r.mode == (if flags.delete { Mode::Delete } else { Mode::Reduce }),
        r.min_lines == or_else(either(flags.min_lines, file.min_lines), DEFAULT_MIN_LINES),
        r.min_density_milli == or_else(
            either(flags.min_density_milli, file_min_density_milli),
            DEFAULT_MIN_DENSITY_MILLI,
        ),
        r.max_summary_words == or_else(either(flags.max_words, file.max_words), DEFAULT_MAX_WORDS),
        r.endpoint@ == or_else(either(opt_text(flags.endpoint), opt_text(file.endpoint)), DEFAULT_ENDPOINT@),
        r.model@ == spec_model(target, opt_text(flags.model), *file),
        opt_text(r.api_key) == either(opt_text(flags.api_key), opt_text(file.api_key)),
        r.llm_concurrency == or_else(either(flags.workers, file.workers), DEFAULT_WORKERS),
        r.dry_run == flags.dry_run,
        r.verbose == flags.verbose,
{
    let from_file = match target {
        Target::Comments => pick_text(&file.model, &None),
        Target::Docstrings => pick_text(&file.docstrings_model, &file.model),
    };
    let model = match target {
        Target::Comments => text_or(pick_text(&flags.model, &from_file), DEFAULT_MODEL),
        Target::Docstrings => text_or(pick_text(&flags.model, &from_file), DEFAULT_DOC_MODEL),
    };
    let min_density_milli = match flags.min_density_milli {
        Some(x) => x,
        None => match file_min_density_milli {
            Some(y) => y,
            None => DEFAULT_MIN_DENSITY_MILLI,
        },
    };
    Config {
        target,
        mode: if flags.delete {
            Mode::Delete
        } else {
            Mode::Reduce
        },
        min_lines: count_or(flags.min_lines, file.min_lines, DEFAULT_MIN_LINES),
        min_density_milli,
        max_summary_words: count_or(flags.max_words, file.max_words, DEFAULT_MAX_WORDS),
        endpoint: text_or(pick_text(&flags.endpoint, &file.endpoint), DEFAULT_ENDPOINT),
        model,
        api_key: pick_text(&flags.api_key, &file.api_key),
        llm_concurrency: count_or(flags.workers, file.workers, DEFAULT_WORKERS),
        dry_run: flags.dry_run,
        verbose: flags.verbose,
    }
}

} // verus!
