//! Verified core of a tool that strips low-value comments and docstrings from source files:
//! comment and docstring extraction from a parsed tree, grouping, the structural rules, the
//! keep/delete/reduce policy, the byte-range edits that apply the decisions, and what is said to
//! and read back from the language model.
pub mod text;
pub mod utf8;
pub mod types;
pub mod rewrite;
pub mod ext;
pub mod llm;
pub mod structural;
pub mod syntax;
pub mod prose;
pub mod parse;
pub mod policy;
pub mod progress;
pub mod docstring;
pub mod eval;
pub mod config;
pub mod pipeline;
pub mod files;

use vstd::prelude::*;
use crate::llm::TokenUsage;
use crate::pipeline::FileTally;

verus! {

/// Counts for the final summary of a run.
#[derive(Debug, Clone)]
pub struct Stats {
    pub files_scanned: usize,
    pub files_changed: usize,
    /// Files that could not be read or parsed, or whose processing failed.
    pub files_skipped: usize,
    pub comments_kept: usize,
    pub comments_deleted: usize,
    /// Source lines covered by the deleted blocks.
    pub lines_deleted: usize,
    pub comments_reduced: usize,
    /// Source lines saved by the reduced blocks.
    pub lines_reduced: usize,
    /// Blocks left unchanged because the model call failed.
    pub llm_errors: usize,
    /// Token totals, when the model was used.
    pub tokens: Option<TokenUsage>,
}

impl Stats {
    /// All counts zero, no tokens.
    pub fn new() -> (r: Stats)
        ensures
            r.files_scanned == 0 && r.files_changed == 0 && r.files_skipped == 0,
            r.comments_kept == 0 && r.comments_deleted == 0 && r.lines_deleted == 0,
            r.comments_reduced == 0 && r.lines_reduced == 0 && r.llm_errors == 0,
            r.tokens is None,
    {
        Stats {
            files_scanned: 0,
            files_changed: 0,
            files_skipped: 0,
            comments_kept: 0,
            comments_deleted: 0,
            lines_deleted: 0,
            comments_reduced: 0,
            lines_reduced: 0,
            llm_errors: 0,
            tokens: None,
        }
    }

    /// Adds what one file's outcomes came to (each count saturating).
    pub fn add_tally(&mut self, t: &FileTally)
        ensures
            final(self).comments_kept == old(self).comments_kept.saturating_add(t.kept),
            final(self).comments_deleted == old(self).comments_deleted.saturating_add(t.deleted),
            final(self).lines_deleted == old(self).lines_deleted.saturating_add(t.lines_deleted),
            final(self).comments_reduced == old(self).comments_reduced.saturating_add(t.reduced),
            final(self).lines_reduced == old(self).lines_reduced.saturating_add(t.lines_saved),
            final(self).files_scanned == old(self).files_scanned,
            final(self).files_changed == old(self).files_changed,
            final(self).files_skipped == old(self).files_skipped,
            final(self).llm_errors == old(self).llm_errors,
            final(self).tokens == old(self).tokens,
    {
        self.comments_kept = self.comments_kept.saturating_add(t.kept);
        self.comments_deleted = self.comments_deleted.saturating_add(t.deleted);
        self.lines_deleted = self.lines_deleted.saturating_add(t.lines_deleted);
        self.comments_reduced = self.comments_reduced.saturating_add(t.reduced);
        self.lines_reduced = self.lines_reduced.saturating_add(t.lines_saved);
    }

    /// What one file came to, given the text its edits produced (`None` when they could not be
    /// applied): a file whose edits could not be applied counts as skipped; otherwise its
    /// outcomes are added, and it counts as changed when the new text differs from the old
    /// (each count saturating).
    pub fn record_file(&mut self, t: &FileTally, src: &str, new: &Option<String>)
        ensures
            new is None ==> {
                &&& final(self).files_skipped == old(self).files_skipped.saturating_add(1)
                &&& final(self).files_changed == old(self).files_changed
                &&& final(self).comments_kept == old(self).comments_kept
                &&& final(self).comments_deleted == old(self).comments_deleted
                &&& final(self).lines_deleted == old(self).lines_deleted
                &&& final(self).comments_reduced == old(self).comments_reduced
                &&& final(self).lines_reduced == old(self).lines_reduced
            },
            new matches Some(n) ==> {
                &&& final(self).files_skipped == old(self).files_skipped
                &&& final(self).files_changed == if n@ != src@ {
                    old(self).files_changed.saturating_add(1)
                } else {
                    old(self).files_changed
                }
                &&& final(self).comments_kept == old(self).comments_kept.saturating_add(t.kept)
                &&& final(self).comments_deleted == old(self).comments_deleted.saturating_add(
                    t.deleted,
                )
                &&& final(self).lines_deleted == old(self).lines_deleted.saturating_add(
                    t.lines_deleted,
                )
                &&& final(self).comments_reduced == old(self).comments_reduced.saturating_add(
                    t.reduced,
                )
                &&& final(self).lines_reduced == old(self).lines_reduced.saturating_add(
                    t.lines_saved,
                )
            },
            final(self).files_scanned == old(self).files_scanned,
            final(self).llm_errors == old(self).llm_errors,
            final(self).tokens == old(self).tokens,
    {
        match new {
            None => {
                self.files_skipped = self.files_skipped.saturating_add(1);
            },
            Some(n) => {
                self.add_tally(t);
                let same = crate::text::same_chars(
                    &crate::text::chars_of(n.as_str()),
                    &crate::text::chars_of(src),
                );
                if !same {
                    self.files_changed = self.files_changed.saturating_add(1);
                }
            },
        }
    }

    /// A changed file that could not be written counts as skipped instead of changed.
    pub fn write_failed(&mut self)
        ensures
            final(self).files_changed == if old(self).files_changed > 0 {
                old(self).files_changed - 1
            } else {
                0
            },
            final(self).files_skipped == old(self).files_skipped.saturating_add(1),
            final(self).files_scanned == old(self).files_scanned,
            final(self).comments_kept == old(self).comments_kept,
            final(self).comments_deleted == old(self).comments_deleted,
            final(self).lines_deleted == old(self).lines_deleted,
            final(self).comments_reduced == old(self).comments_reduced,
            final(self).lines_reduced == old(self).lines_reduced,
            final(self).llm_errors == old(self).llm_errors,
            final(self).tokens == old(self).tokens,
    {
        if self.files_changed > 0 {
            self.files_changed = self.files_changed - 1;
        }
        self.files_skipped = self.files_skipped.saturating_add(1);
    }

    /// Skips and model failures make the run's exit status 1.
    pub fn has_errors(&self) -> (r: bool)
        ensures
            r == (self.files_skipped > 0 || self.llm_errors > 0),
    {
        self.files_skipped > 0 || self.llm_errors > 0
    }
}

} // verus!
