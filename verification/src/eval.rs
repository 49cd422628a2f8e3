//! Scoring a labeled dataset against the model's decisions: the dataset's language names, the
//! prose the tool would send for a raw comment, and the tallies behind decision accuracy and
//! DELETE precision/recall. Reading the dataset and calling the model live with the caller.
use vstd::prelude::*;
use vstd::string::*;
use crate::docstring::ExtractError;
use crate::parse::{comment_nodes, comments_match, extract_comments, nodes_laid_out};
use crate::prose::{analysis_is, analyze};
use crate::syntax::{parsed_tree, well_placed};
use crate::text::{chars_of, same_chars, string_of, words, spec_lines, split_ws, lines};
use crate::types::{Comment, CommentBlock, Language};

verus! {

/// The language a dataset row names.
pub open spec fn spec_language(name: Seq<char>) -> Option<Language> {
    if name == seq!['p', 'y', 't', 'h', 'o', 'n'] {
        Some(Language::Python)
    } else if name == seq!['j', 'a', 'v', 'a', 's', 'c', 'r', 'i', 'p', 't'] {
        Some(Language::JavaScript)
    } else if name == seq!['t', 'y', 'p', 'e', 's', 'c', 'r', 'i', 'p', 't'] {
        Some(Language::TypeScript)
    } else if name == seq!['t', 's', 'x'] {
        Some(Language::Tsx)
    } else if name == seq!['y', 'a', 'm', 'l'] {
        Some(Language::Yaml)
    } else {
        None
    }
}

/// The words and the lines of a reply (`split_whitespace` and `lines` counts), the sizes a tally
/// adds up for the text that was kept.
pub fn reply_size(reply: &str) -> (r: (usize, usize))
    ensures
        r.0 == words(reply@).len(),
        r.1 == spec_lines(reply@).len(),
{
    let cs = chars_of(reply);
    let ws = split_ws(&cs);
    let ls = lines(&cs);
    (ws.len(), ls.len())
}

/// `python`, `javascript`, `typescript`, `tsx` or `yaml`; `None` for an unknown language.
pub fn language(name: &str) -> (r: Option<Language>)
    ensures
        r == spec_language(name@),
{
    let n = chars_of(name);
    let py = ['p', 'y', 't', 'h', 'o', 'n'];
    let js = ['j', 'a', 'v', 'a', 's', 'c', 'r', 'i', 'p', 't'];
    let ts = ['t', 'y', 'p', 'e', 's', 'c', 'r', 'i', 'p', 't'];
    let tsx = ['t', 's', 'x'];
    let yaml = ['y', 'a', 'm', 'l'];
    assert(py@ =~= seq!['p', 'y', 't', 'h', 'o', 'n']);
    assert(js@ =~= seq!['j', 'a', 'v', 'a', 's', 'c', 'r', 'i', 'p', 't']);
    assert(ts@ =~= seq!['t', 'y', 'p', 'e', 's', 'c', 'r', 'i', 'p', 't']);
    assert(tsx@ =~= seq!['t', 's', 'x']);
    assert(yaml@ =~= seq!['y', 'a', 'm', 'l']);
    if same_chars(&n, &py) {
        Some(Language::Python)
    } else if same_chars(&n, &js) {
        Some(Language::JavaScript)
    } else if same_chars(&n, &ts) {
        Some(Language::TypeScript)
    } else if same_chars(&n, &tsx) {
        Some(Language::Tsx)
    } else if same_chars(&n, &yaml) {
        Some(Language::Yaml)
    } else {
        None
    }
}

/// Why a raw comment yields no prose.
#[derive(Debug, Clone, Copy, PartialEq, Eq, Structural)]
pub enum ProseError {
    /// The text could not be parsed.
    Parse(ExtractError),
    /// The text holds no comment.
    NoComment,
}

/// The block a whole raw comment text forms: every comment token, spanning the first to the
/// last, treated as own-line.
pub open spec fn whole_block_of(blk: CommentBlock, cs: Seq<Comment>) -> bool {
    &&& blk.comments@ == cs
    &&& blk.start == cs[0].start && blk.end == cs.last().end
    &&& blk.start_line == cs[0].start_line && blk.end_line == cs.last().end_line
    &&& blk.indent@ == Seq::<char>::empty()
    &&& blk.own_line && !blk.code_after
    &&& blk.kind == cs[0].kind
}

/// Turn a raw comment block (delimiters included) into the same prose the tool would send.
pub fn prose_of(comment: &str, lang: Language) -> (r: Result<String, ProseError>)
    ensures
        match parsed_tree(comment@, lang) {
            Some(t) if !t.has_error && well_placed(t, comment.spec_bytes()) && nodes_laid_out(
                comment_nodes(t),
                comment.spec_bytes(),
            ) => {
                if comment_nodes(t).len() == 0 {
                    r == Err::<String, ProseError>(ProseError::NoComment)
                } else {
                    r matches Ok(p) && exists|cs: Seq<Comment>, blk: CommentBlock|
                        comments_match(cs, comment_nodes(t), comment.spec_bytes())
                            && whole_block_of(blk, cs) && (exists|a: crate::prose::ProseAnalysis|
                            analysis_is(a, blk, lang) && a.text@ == p@)
                }
            },
            _ => r is Err,
        },
{
    let comments = match extract_comments(comment, lang) {
        Ok(cs) => cs,
        Err(e) => {
            return Err(ProseError::Parse(e));
        },
    };
    if comments.len() == 0 {
        return Err(ProseError::NoComment);
    }
    let ghost cs = comments@;
    let n = comments.len();
    let start = comments[0].start;
    let end = comments[n - 1].end;
    let start_line = comments[0].start_line;
    let end_line = comments[n - 1].end_line;
    let kind = comments[0].kind;
    let block = CommentBlock {
        comments,
        start,
        end,
        start_line,
        end_line,
        indent: String::new(),
        own_line: true,
        code_after: false,
        kind,
    };
    let a = analyze(&block, lang);
    let text = string_of(&chars_of(a.text.as_str()));
    assert(whole_block_of(block, cs));
    Ok(text)
}

/// Decision tallies over a labeled dataset.
#[derive(Debug, Clone, Copy, PartialEq, Eq, Structural)]
pub struct EvalTally {
    /// Rows seen.
    pub n: usize,
    /// Rows where the model's keep/delete decision matches the label.
    pub agree: usize,
    /// Rows labelled DELETE.
    pub expected_delete: usize,
    /// Rows the model deleted.
    pub got_delete: usize,
    /// Rows both labelled and decided DELETE.
    pub both_delete: usize,
    /// Words over the model's kept replacements.
    pub kept_words: usize,
    /// Lines over the model's kept replacements.
    pub kept_lines: usize,
}

impl EvalTally {
    pub fn new() -> (r: EvalTally)
        ensures
            r == (EvalTally {
                n: 0,
                agree: 0,
                expected_delete: 0,
                got_delete: 0,
                both_delete: 0,
                kept_words: 0,
                kept_lines: 0,
            }),
    {
        EvalTally {
            n: 0,
            agree: 0,
            expected_delete: 0,
            got_delete: 0,
            both_delete: 0,
            kept_words: 0,
            kept_lines: 0,
        }
    }

    /// Every count is at most the number of rows.
    pub open spec fn wf(&self) -> bool {
        &&& self.agree <= self.n
        &&& self.expected_delete <= self.n
        &&& self.got_delete <= self.n
        &&& self.both_delete <= self.expected_delete
        &&& self.both_delete <= self.got_delete
    }

    /// Counts one row: whether its label says DELETE, whether the model deleted it, and the
    /// words and lines of the model's replacement when it kept the text.
    pub fn record(&mut self, expected_delete: bool, got_delete: bool, words: usize, lines: usize)
        requires
            old(self).wf(),
            old(self).n < usize::MAX,
            !got_delete ==> old(self).kept_words + words <= usize::MAX,
            !got_delete ==> old(self).kept_lines + lines <= usize::MAX,
        ensures
            final(self).wf(),
            final(self).n == old(self).n + 1,
            final(self).agree == old(self).agree + if expected_delete == got_delete {
                1int
            } else {
                0int
            },
            final(self).expected_delete == old(self).expected_delete + if expected_delete {
                1int
            } else {
                0int
            },
            final(self).got_delete == old(self).got_delete + if got_delete {
                1int
            } else {
                0int
            },
            final(self).both_delete == old(self).both_delete + if expected_delete && got_delete {
                1int
            } else {
                0int
            },
            final(self).kept_words == old(self).kept_words + if got_delete {
                0int
            } else {
                words as int
            },
            final(self).kept_lines == old(self).kept_lines + if got_delete {
                0int
            } else {
                lines as int
            },
    {
        self.n = self.n + 1;
        if expected_delete == got_delete {
            self.agree = self.agree + 1;
        }
        if expected_delete {
            self.expected_delete = self.expected_delete + 1;
        }
        if got_delete {
            self.got_delete = self.got_delete + 1;
        }
        if expected_delete && got_delete {
            self.both_delete = self.both_delete + 1;
        }
        if !got_delete {
            self.kept_words = self.kept_words + words;
            self.kept_lines = self.kept_lines + lines;
        }
    }

    /// Rows the model kept.
    pub fn kept(&self) -> (r: usize)
        requires
            self.wf(),
        ensures
            r == self.n - self.got_delete,
    {
        self.n - self.got_delete
    }
}

} // verus!
