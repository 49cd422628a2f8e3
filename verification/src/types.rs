//! The data the pipeline passes around: languages, comment tokens, comment blocks, modes,
//! per-block actions and the run configuration.
use vstd::prelude::*;
use crate::text::{view_lines, copy_range, same_chars, chars_of};


verus! {

#[derive(Debug, Clone, Copy, PartialEq, Eq, Structural)]
pub enum Language {
    Python,
    /// Also covers .jsx, .mjs, .cjs (tree-sitter-javascript parses JSX).
    JavaScript,
    TypeScript,
    Tsx,
    Yaml,
}

/// The final path component, with trailing separators ignored; empty when the path has none
/// or ends in `..` (the `file_name` of a path).
pub open spec fn spec_file_name(path: Seq<char>) -> Seq<char> {
    let comps = path_components(path);
    if comps.len() == 0 || comps.last() == seq!['.', '.'] {
        seq![]
    } else {
        comps.last()
    }
}

/// Normal components of a `/`-separated path: empty pieces and `.` are dropped.
pub open spec fn path_components(path: Seq<char>) -> Seq<Seq<char>> {
    normal_components(split_on(path, '/'))
}

/// The pieces that name something: not empty and not `.`.
pub open spec fn normal_components(pieces: Seq<Seq<char>>) -> Seq<Seq<char>> {
    pieces.filter(|c: Seq<char>| c.len() > 0 && c != seq!['.'])
}

proof fn lemma_normal_components_push(ps: Seq<Seq<char>>, x: Seq<char>)
    ensures
        normal_components(ps.push(x)) == if x.len() > 0 && x != seq!['.'] {
            normal_components(ps).push(x)
        } else {
            normal_components(ps)
        },
{
    reveal(Seq::filter);
    assert(ps.push(x).drop_last() =~= ps);
}

/// Left-to-right scan splitting `s` on `sep`: finished pieces and the current one.
pub open spec fn split_scan(s: Seq<char>, sep: char) -> (Seq<Seq<char>>, Seq<char>)
    decreases s.len(),
{
    if s.len() == 0 {
        (seq![], seq![])
    } else {
        let (done, cur) = split_scan(s.drop_last(), sep);
        if s.last() == sep {
            (done.push(cur), seq![])
        } else {
            (done, cur.push(s.last()))
        }
    }
}

/// `s.split(sep)`: every piece between separators, including empty ones.
pub open spec fn split_on(s: Seq<char>, sep: char) -> Seq<Seq<char>> {
    let (done, cur) = split_scan(s, sep);
    done.push(cur)
}

/// The extension of a file name: the text after its last `.`, unless the name has no `.` or
/// its only `.` is the first character (`Path::extension`).
pub open spec fn spec_extension(name: Seq<char>) -> Option<Seq<char>> {
    let pieces = split_on(name, '.');
    if pieces.len() <= 1 || (pieces.len() == 2 && pieces[0].len() == 0) {
        None
    } else {
        Some(pieces.last())
    }
}

/// Which language a file extension selects.
pub open spec fn language_of_extension(ext: Seq<char>) -> Option<Language> {
    if ext == seq!['p', 'y'] || ext == seq!['p', 'y', 'i'] {
        Some(Language::Python)
    } else if ext == seq!['j', 's'] || ext == seq!['j', 's', 'x'] || ext == seq!['m', 'j', 's']
        || ext == seq!['c', 'j', 's'] {
        Some(Language::JavaScript)
    } else if ext == seq!['t', 's'] || ext == seq!['m', 't', 's'] || ext == seq!['c', 't', 's'] {
        Some(Language::TypeScript)
    } else if ext == seq!['t', 's', 'x'] {
        Some(Language::Tsx)
    } else if ext == seq!['y', 'a', 'm', 'l'] || ext == seq!['y', 'm', 'l'] {
        Some(Language::Yaml)
    } else {
        None
    }
}

/// Language of a file path, by extension.
pub open spec fn spec_language_of_path(path: Seq<char>) -> Option<Language> {
    match spec_extension(spec_file_name(path)) {
        Some(ext) => language_of_extension(ext),
        None => None,
    }
}

/// `s.split(sep)` as character vectors.
pub fn split_chars(s: &[char], sep: char) -> (r: Vec<Vec<char>>)
    ensures
        view_lines(r@) == split_on(s@, sep),
{
    let mut done: Vec<Vec<char>> = Vec::new();
    let mut cur: Vec<char> = Vec::new();
    let mut i: usize = 0;
    while i < s.len()
        invariant
            0 <= i <= s@.len(),
            (view_lines(done@), cur@) == split_scan(s@.take(i as int), sep),
        decreases s@.len() - i,
    {
        assert(s@.take(i + 1).drop_last() == s@.take(i as int));
        let c = s[i];
        if c == sep {
            let ghost old_done = done@;
            let ghost old_cur = cur@;
            done.push(cur);
            cur = Vec::new();
            assert(view_lines(done@) =~= view_lines(old_done).push(old_cur));
        } else {
            cur.push(c);
        }
        i += 1;
    }
    assert(s@.take(s@.len() as int) == s@);
    let ghost old_done = done@;
    let ghost old_cur = cur@;
    done.push(cur);
    assert(view_lines(done@) =~= view_lines(old_done).push(old_cur));
    done
}

fn is_dot(c: &[char]) -> (r: bool)
    ensures
        r == (c@ == seq!['.']),
{
    let r = c.len() == 1 && c[0] == '.';
    proof {
        if r {
            assert(c@ =~= seq!['.']);
        }
    }
    r
}

fn is_dot_dot(c: &[char]) -> (r: bool)
    ensures
        r == (c@ == seq!['.', '.']),
{
    let r = c.len() == 2 && c[0] == '.' && c[1] == '.';
    proof {
        if r {
            assert(c@ =~= seq!['.', '.']);
        }
    }
    r
}

/// The normal components of a `/`-separated path, in order.
pub fn path_components_of(path: &[char]) -> (r: Vec<Vec<char>>)
    ensures
        view_lines(r@) == path_components(path@),
{
    let pieces = split_chars(path, '/');
    let mut out: Vec<Vec<char>> = Vec::new();
    let mut i: usize = 0;
    while i < pieces.len()
        invariant
            0 <= i <= pieces@.len(),
            view_lines(pieces@) == split_on(path@, '/'),
            view_lines(out@) == normal_components(view_lines(pieces@).take(i as int)),
        decreases pieces@.len() - i,
    {
        let ghost ps = view_lines(pieces@);
        assert(ps.take(i + 1) =~= ps.take(i as int).push(pieces@[i as int]@));
        proof {
            lemma_normal_components_push(ps.take(i as int), pieces@[i as int]@);
        }
        if pieces[i].len() > 0 && !is_dot(&pieces[i]) {
            let ghost old_out = out@;
            let c = copy_range(&pieces[i], 0, pieces[i].len());
            assert(c@ =~= pieces@[i as int]@);
            out.push(c);
            assert(view_lines(out@) =~= view_lines(old_out).push(c@));
        }
        i += 1;
    }
    assert(view_lines(pieces@).take(pieces@.len() as int) =~= view_lines(pieces@));
    out
}

/// The final normal component of a path (`Path::file_name`); empty when there is none.
pub fn file_name_of(path: &[char]) -> (r: Vec<char>)
    ensures
        r@ == spec_file_name(path@),
{
    let comps = path_components_of(path);
    let n = comps.len();
    if n == 0 {
        return Vec::new();
    }
    assert(view_lines(comps@).last() == comps@[n - 1]@);
    if is_dot_dot(&comps[n - 1]) {
        return Vec::new();
    }
    copy_range(&comps[n - 1], 0, comps[n - 1].len())
}

/// The extension of a file name (`Path::extension`).
pub fn extension_of(name: &[char]) -> (r: Option<Vec<char>>)
    ensures
        match (r, spec_extension(name@)) {
            (Some(e), Some(x)) => e@ == x,
            (None, None) => true,
            _ => false,
        },
{
    let pieces = split_chars(name, '.');
    let n = pieces.len();
    if n <= 1 || (n == 2 && pieces[0].len() == 0) {
        return None;
    }
    assert(view_lines(pieces@).last() == pieces@[n - 1]@);
    Some(copy_range(&pieces[n - 1], 0, pieces[n - 1].len()))
}

fn language_of_ext(ext: &[char]) -> (r: Option<Language>)
    ensures
        r == language_of_extension(ext@),
{
    let py = ['p', 'y'];
    let pyi = ['p', 'y', 'i'];
    let js = ['j', 's'];
    let jsx = ['j', 's', 'x'];
    let mjs = ['m', 'j', 's'];
    let cjs = ['c', 'j', 's'];
    let ts = ['t', 's'];
    let mts = ['m', 't', 's'];
    let cts = ['c', 't', 's'];
    let tsx = ['t', 's', 'x'];
    let yaml = ['y', 'a', 'm', 'l'];
    let yml = ['y', 'm', 'l'];
    assert(py@ =~= seq!['p', 'y']);
    assert(pyi@ =~= seq!['p', 'y', 'i']);
    assert(js@ =~= seq!['j', 's']);
    assert(jsx@ =~= seq!['j', 's', 'x']);
    assert(mjs@ =~= seq!['m', 'j', 's']);
    assert(cjs@ =~= seq!['c', 'j', 's']);
    assert(ts@ =~= seq!['t', 's']);
    assert(mts@ =~= seq!['m', 't', 's']);
    assert(cts@ =~= seq!['c', 't', 's']);
    assert(tsx@ =~= seq!['t', 's', 'x']);
    assert(yaml@ =~= seq!['y', 'a', 'm', 'l']);
    assert(yml@ =~= seq!['y', 'm', 'l']);
    if same_chars(ext, &py) || same_chars(ext, &pyi) {
        Some(Language::Python)
    } else if same_chars(ext, &js) || same_chars(ext, &jsx) || same_chars(ext, &mjs)
        || same_chars(ext, &cjs) {
        Some(Language::JavaScript)
    } else if same_chars(ext, &ts) || same_chars(ext, &mts) || same_chars(ext, &cts) {
        Some(Language::TypeScript)
    } else if same_chars(ext, &tsx) {
        Some(Language::Tsx)
    } else if same_chars(ext, &yaml) || same_chars(ext, &yml) {
        Some(Language::Yaml)
    } else {
        None
    }
}

/// Prefix used when emitting a single-line comment.
pub open spec fn spec_line_prefix(lang: Language) -> Seq<char> {
    match lang {
        Language::Python | Language::Yaml => seq!['#'],
        _ => seq!['/', '/'],
    }
}

impl Language {
    /// The language a file's extension selects: `.py`/`.pyi`, `.js`/`.jsx`/`.mjs`/`.cjs`,
    /// `.ts`/`.mts`/`.cts`, `.tsx`, `.yaml`/`.yml`; `None` for anything else.
    pub fn from_path(path: &str) -> (r: Option<Language>)
        ensures
            r == spec_language_of_path(path@),
    {
        let p = chars_of(path);
        let name = file_name_of(&p);
        match extension_of(&name) {
            Some(ext) => language_of_ext(&ext),
            None => None,
        }
    }

    /// Prefix used when emitting a single-line comment.
    pub fn line_prefix(self) -> (r: &'static str)
        ensures
            r@ == spec_line_prefix(self),
    {
        proof {
            reveal_strlit("#");
            reveal_strlit("//");
            assert("#"@ =~= seq!['#']);
            assert("//"@ =~= seq!['/', '/']);
        }
        match self {
            Language::Python | Language::Yaml => "#",
            _ => "//",
        }
    }
}

#[derive(Debug, Clone, Copy, PartialEq, Eq, Structural)]
pub enum CommentKind {
    /// `# ...` or `// ...`
    Line,
    /// `/* ... */` (JS/TS only)
    Block,
}

/// One comment token as found by the parser. Byte offsets are into the file source.
#[derive(Debug, Clone)]
pub struct Comment {
    pub start: usize,
    pub end: usize,
    pub kind: CommentKind,
    /// Raw text including delimiters.
    pub text: String,
    /// 0-based line numbers.
    pub start_line: usize,
    pub end_line: usize,
    /// Only whitespace precedes the comment on its first line.
    pub own_line: bool,
    /// Non-whitespace code follows the comment on its last line (e.g. `foo(/* x */ 1)` or `/* x */ let y;`).
    pub code_after: bool,
}

/// A group of comments treated as one unit: either a single Block comment, a single trailing/inline
/// comment, or a run of own-line Line comments on consecutive lines with identical indentation.
#[derive(Debug, Clone)]
pub struct CommentBlock {
    pub comments: Vec<Comment>,
    /// Byte range covering the first comment start to the last comment end.
    pub start: usize,
    pub end: usize,
    pub start_line: usize,
    pub end_line: usize,
    /// Leading whitespace of the first comment's line (used when emitting a replacement).
    pub indent: String,
    pub own_line: bool,
    pub code_after: bool,
    pub kind: CommentKind,
}

impl CommentBlock {
    /// Number of source lines the block spans.
    pub fn line_count(&self) -> (r: usize)
        requires
            self.start_line <= self.end_line,
            self.end_line - self.start_line < usize::MAX,
        ensures
            r == self.end_line - self.start_line + 1,
    {
        self.end_line - self.start_line + 1
    }
}

#[derive(Debug, Clone, Copy, PartialEq, Eq, Structural)]
pub enum Mode {
    Reduce,
    Delete,
}

/// Which kind of text a run works on.
#[derive(Debug, Clone, Copy, PartialEq, Eq, Structural)]
pub enum Target {
    Comments,
    Docstrings,
}

/// Decision for one block.
#[derive(Debug, Clone)]
pub enum Action {
    Keep,
    Delete,
    /// Replace the block with a single-line comment. `prose` is the cleaned comment text to summarize.
    Reduce { prose: String },
}

/// Run settings. `min_density_milli` is the minimum words-per-line density in thousandths
/// (5.0 words per line is 5000), so the density gate is decided on whole numbers.
#[derive(Debug, Clone)]
pub struct Config {
    pub target: Target,
    pub mode: Mode,
    /// Blocks with fewer cleaned prose lines than this are kept in reduce mode.
    pub min_lines: usize,
    /// Blocks averaging fewer words per prose line than this are kept in reduce mode (low density).
    pub min_density_milli: u64,
    /// Target maximum words for the one-line summary.
    pub max_summary_words: usize,
    /// OpenAI-compatible base URL. Required in reduce mode; unused in delete mode.
    pub endpoint: String,
    pub model: String,
    pub api_key: Option<String>,
    pub llm_concurrency: usize,
    pub dry_run: bool,
    pub verbose: bool,
}

} // verus!
