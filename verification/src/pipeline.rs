//! One file's decisions: which comment blocks or docstrings to keep, delete, or hand to the
//! model, and the edit each outcome makes. Reading and writing files and talking to the model
//! live with the caller.
use vstd::prelude::*;
use vstd::string::*;
use vstd::utf8::*;
use crate::docstring::{
    Docstring, DocKind, ExtractError, delete_edit as doc_delete_edit, doc_delete_ok, doc_indent_len,
    edit_matches, is_structural as doc_is_structural, replace_edit, replace_refused,
    spec_doc_delete_edit, spec_doc_is_structural, spec_replacement, doc_wf,
    law_doc_delete_removes_only_docstring_and_whitespace, quote_ok, literal_closes_at_end,
    tidy_text, spec_cleandoc,
};
use crate::llm::{
    DocVerdict, Verdict, is_class_code, law_cleaned_reply_is_one_line, spec_clean_reply,
    spec_parse_summary_reply,
};
use crate::parse::{
    block_holds, comment_nodes, children_comment_nodes, comments_match, comments_placed, nodes_laid_out,
    lemma_comment_nodes_placed,
    extract_comments, group_blocks, spec_runs,
};
use crate::policy::{decide, spec_decision};
use crate::prose::{analysis_is, analyze};
use crate::rewrite::{
    Edit, delete_edit, delete_edit_ok, edit_is, indent_len, last_pos, own_line_end,
    own_line_start, reduce_edit, spec_delete_edit, spec_reduce_text, unterminated_eof, block_wf,
    line_start_of, lemma_line_start_of, lemma_line_boundary, spec_eol, line_end_incl_of,
    law_delete_edit_removes_only_comment_and_whitespace, law_reduce_edit_replaces_only_the_block_lines,
};
use crate::structural::{is_structural, spec_is_structural};
use crate::syntax::{SyntaxNode, boundary, lemma_placed, parsed_tree, well_placed};
use crate::text::{
    all_ws, chars_of, index_of, is_blank, lemma_all_ws_concat, lemma_index_of, lemma_ws_prefix_len_bound, lines,
    spec_is_ws, spec_lines, string_of, trim, trim_chars, trim_end_set, trim_start, view_lines,
    ws_prefix_len,
};
use crate::utf8::{
    chars_between, lemma_boundary_after_ascii, lemma_boundary_at_ascii, lemma_chars_between_bytes,
    lemma_chars_between_split, lemma_decode_ascii, lemma_encoded_newline,
};
use crate::types::{Action, CommentBlock, Config, Language, Mode, spec_line_prefix};

verus! {

broadcast use vstd::seq::group_seq_axioms;

/// The first non-blank line after line `row`, trimmed; empty when there is none.
pub open spec fn context_after(lines: Seq<Seq<char>>, row: int) -> Seq<char>
    decreases lines.len() - row,
{
    if row + 1 >= lines.len() {
        seq![]
    } else if trim(lines[row + 1]).len() > 0 {
        trim(lines[row + 1])
    } else {
        context_after(lines, row + 1)
    }
}

fn context_after_exec(ls: &Vec<Vec<char>>, row: usize) -> (r: Vec<char>)
    ensures
        r@ == context_after(view_lines(ls@), row as int),
{
    let ghost lv = view_lines(ls@);
    let mut k: usize = row;
    while k < ls.len() && ls.len() - k > 1
        invariant
            row <= k,
            lv == view_lines(ls@),
            context_after(lv, row as int) == context_after(lv, k as int),
        decreases ls@.len() - k,
    {
        let t = trim_chars(&ls[k + 1]);
        assert(lv[k + 1] == ls@[k + 1]@);
        if t.len() > 0 {
            return t;
        }
        k += 1;
    }
    Vec::new()
}

/// One block with what to do about it.
pub struct BlockPlan {
    pub block: CommentBlock,
    pub action: Action,
    /// The first non-blank code line after the block, trimmed: context for the model.
    pub context: String,
}

/// A plan is the policy's decision for its block and the block's context.
pub open spec fn plan_is(p: BlockPlan, src: Seq<char>, b: Seq<u8>, lang: Language, cfg: Config) -> bool {
    &&& exists|a: crate::prose::ProseAnalysis|
        #[trigger] analysis_is(a, p.block, lang) && match spec_decision(
            p.block,
            a,
            spec_is_structural(p.block, lang),
            cfg,
        ) {
            None => p.action is Keep,
            Some(false) => p.action is Delete,
            Some(true) => p.action matches Action::Reduce { prose } && prose@ == a.text@,
        }
    &&& p.context@ == context_after(spec_lines(src), p.block.end_line as int)
}

/// The plan for one block: analyse its prose, check the structural rules, and decide.
pub fn plan_block(src: &str, lines: &Vec<Vec<char>>, lang: Language, block: CommentBlock, cfg: &Config) -> (r: BlockPlan)
    requires
        view_lines(lines@) == spec_lines(src@),
    ensures
        r.block == block,
        plan_is(r, src@, src.spec_bytes(), lang, *cfg),
{
    let a = analyze(&block, lang);
    let structural = is_structural(&block, lang, src);
    let action = decide(&block, &a, structural, cfg);
    let context = string_of(&context_after_exec(lines, block.end_line));
    BlockPlan { block, action, context }
}


/// What a comment token holds of its node: a non-empty range within the source between
/// boundaries, and its placement on its lines.
pub open spec fn token_placed(c: crate::types::Comment, b: Seq<u8>) -> bool {
    &&& c.start < c.end <= b.len()
    &&& boundary(b, c.start as int)
    &&& boundary(b, c.end as int)
    &&& c.own_line == all_ws(chars_between(b, line_start_of(b, c.start as int), c.start as int))
    &&& c.code_after == !all_ws(
        chars_between(b, c.end as int, crate::docstring::line_end_of(b, c.end as int)),
    )
}

/// Every run holds placed tokens and starts before it ends.
proof fn lemma_runs_placed(cs: Seq<crate::types::Comment>, b: Seq<u8>)
    requires
        forall|k: int| 0 <= k < cs.len() ==> token_placed(#[trigger] cs[k], b),
    ensures
        forall|i: int|
            0 <= i < spec_runs(cs, b).len() ==> {
                let r = #[trigger] spec_runs(cs, b)[i];
                &&& r.len() > 0
                &&& r[0].start < r.last().end
                &&& forall|j: int| 0 <= j < r.len() ==> token_placed(#[trigger] r[j], b)
            },
    decreases cs.len(),
{
    if cs.len() > 0 {
        let init = cs.drop_last();
        assert forall|k: int| 0 <= k < init.len() implies token_placed(#[trigger] init[k], b) by {
            assert(init[k] == cs[k]);
        }
        lemma_runs_placed(init, b);
        let g = spec_runs(init, b);
        let c = cs.last();
        assert(token_placed(c, b));
        let runs = spec_runs(cs, b);
        if g.len() > 0 && crate::parse::continues(g.last(), c, b) {
            let last = g.last().push(c);
            assert(runs == g.drop_last().push(last));
            assert forall|i: int| 0 <= i < runs.len() implies {
                let r = #[trigger] runs[i];
                &&& r.len() > 0
                &&& r[0].start < r.last().end
                &&& forall|j: int| 0 <= j < r.len() ==> token_placed(#[trigger] r[j], b)
            } by {
                if i < g.len() - 1 {
                    assert(runs[i] == g[i]);
                } else {
                    assert(runs[i] == last);
                    let r0 = g.last();
                    assert(g[g.len() - 1] == r0);
                    assert(r0[0].start < r0.last().end);
                    assert(last[0] == r0[0]);
                    assert(last.last() == c);
                    assert forall|j: int| 0 <= j < last.len() implies token_placed(#[trigger] last[j], b) by {
                        if j < r0.len() {
                            assert(last[j] == r0[j]);
                        }
                    }
                }
            }
        } else {
            assert(runs == g.push(seq![c]));
            assert forall|i: int| 0 <= i < runs.len() implies {
                let r = #[trigger] runs[i];
                &&& r.len() > 0
                &&& r[0].start < r.last().end
                &&& forall|j: int| 0 <= j < r.len() ==> token_placed(#[trigger] r[j], b)
            } by {
                if i < g.len() {
                    assert(runs[i] == g[i]);
                } else {
                    assert(runs[i] == seq![c]);
                }
            }
        }
    }
}

/// Whether the rest of a line is blank does not depend on counting its terminator.
proof fn lemma_rest_of_line_ws(b: Seq<u8>, e: int)
    requires
        valid_utf8(b),
        0 <= e <= b.len(),
        is_char_boundary(b, e),
    ensures
        all_ws(chars_between(b, e, line_end_incl_of(b, e))) == all_ws(
            chars_between(b, e, crate::docstring::line_end_of(b, e)),
        ),
{
    let le = crate::docstring::line_end_of(b, e);
    crate::docstring::lemma_line_end_of(b, e);
    if le < b.len() {
        lemma_boundary_at_ascii(b, le);
        lemma_boundary_after_ascii(b, le + 1);
        lemma_chars_between_split(b, e, le, le + 1);
        lemma_decode_ascii(b.subrange(le, le + 1));
        let x = chars_between(b, e, le);
        let y = chars_between(b, le, le + 1);
        assert(y.len() == 1);
        assert(y[0] as u32 == 10);
        assert(spec_is_ws(y[0]));
        if all_ws(x) {
            lemma_all_ws_concat(x, y);
        }
        if all_ws(x + y) {
            assert forall|i: int| 0 <= i < x.len() implies #[trigger] spec_is_ws(x[i]) by {
                assert((x + y)[i] == x[i]);
            }
        }
    }
}

/// A block holding a run of placed tokens is well formed.
proof fn lemma_block_wf(blk: CommentBlock, run: Seq<crate::types::Comment>, b: Seq<u8>)
    requires
        valid_utf8(b),
        block_holds(blk, run, b),
        run[0].start < run.last().end,
        forall|j: int| 0 <= j < run.len() ==> token_placed(#[trigger] run[j], b),
    ensures
        block_wf(b, blk),
{
    let f = run[0];
    let l = run[run.len() - 1];
    assert(token_placed(f, b));
    assert(token_placed(l, b));
    crate::docstring::lemma_boundary(b, f.start as int);
    crate::docstring::lemma_boundary(b, l.end as int);
    reveal(crate::parse::indent_of);
    lemma_rest_of_line_ws(b, l.end as int);
}

/// Plans every comment block of a file: the comments are extracted and grouped, and each block
/// is analysed and decided. `Err` when the file cannot be parsed.
pub fn plan_comments(src: &str, lang: Language, cfg: &Config) -> (r: Result<Vec<BlockPlan>, ExtractError>)
    ensures
        ({
            let b = src.spec_bytes();
            match parsed_tree(src@, lang) {
                Some(t) if !t.has_error && well_placed(t, b) && nodes_laid_out(comment_nodes(t), b) => r matches Ok(ps) && exists|
                    cs: Seq<crate::types::Comment>,
                |
                    #![trigger comments_match(cs, comment_nodes(t), b)]
                    comments_match(cs, comment_nodes(t), b) && ps@.len() == spec_runs(cs, b).len()
                        && forall|i: int|
                        0 <= i < ps@.len() ==> block_holds(#[trigger] ps@[i].block, spec_runs(cs, b)[i], b)
                            && plan_is(ps@[i], src@, b, lang, *cfg),
                _ => r is Err,
            }
        }),
        r matches Ok(ps) ==> forall|i: int|
            0 <= i < ps@.len() ==> block_wf(src.spec_bytes(), #[trigger] ps@[i].block) && (
            ps@[i].action is Reduce ==> ps@[i].block.own_line && !ps@[i].block.code_after),
{
    let ghost b = src.spec_bytes();
    let comments = match extract_comments(src, lang) {
        Ok(cs) => cs,
        Err(e) => {
            return Err(e);
        },
    };
    let ghost cs = comments@;
    proof {
        let t = parsed_tree(src@, lang).unwrap();
        lemma_comment_nodes_placed(t, b);
        assert forall|i: int| 0 <= i < cs.len() implies (#[trigger] cs[i]).start <= b.len()
            && boundary(b, cs[i].start as int) by {
            let n = comment_nodes(t)[i];
            assert(crate::parse::comment_matches(cs[i], n, b));
            lemma_placed(n, b);
        }
    }
    let blocks = group_blocks(src, comments);
    let ls = lines(&chars_of(src));
    let ghost bv = blocks@;
    let mut rest = blocks;
    let mut rev: Vec<BlockPlan> = Vec::new();
    // Plans are made back to front (blocks are moved out of the vector from its end), then put
    // in order.
    while rest.len() > 0
        invariant
            view_lines(ls@) == spec_lines(src@),
            rest@.len() + rev@.len() == bv.len(),
            rest@ == bv.take(rest@.len() as int),
            forall|k: int|
                0 <= k < rev@.len() ==> (#[trigger] rev@[k]).block == bv[bv.len() - 1 - k]
                    && plan_is(rev@[k], src@, b, lang, *cfg),
        decreases rest@.len(),
    {
        let blk = rest.pop().unwrap();
        let p = plan_block(src, &ls, lang, blk, cfg);
        rev.push(p);
        assert(rest@ =~= bv.take(rest@.len() as int));
    }
    let mut out: Vec<BlockPlan> = Vec::new();
    while rev.len() > 0
        invariant
            rev@.len() + out@.len() == bv.len(),
            forall|k: int|
                0 <= k < rev@.len() ==> (#[trigger] rev@[k]).block == bv[bv.len() - 1 - k]
                    && plan_is(rev@[k], src@, b, lang, *cfg),
            forall|k: int|
                0 <= k < out@.len() ==> (#[trigger] out@[k]).block == bv[k] && plan_is(
                    out@[k],
                    src@,
                    b,
                    lang,
                    *cfg,
                ),
        decreases rev@.len(),
    {
        let p = rev.pop().unwrap();
        out.push(p);
    }
    proof {
        let t = parsed_tree(src@, lang).unwrap();
        assert(comments_match(cs, comment_nodes(t), b));
        encode_utf8_valid_utf8(src@);
        lemma_comment_nodes_placed(t, b);
        assert forall|k: int| 0 <= k < cs.len() implies token_placed(#[trigger] cs[k], b) by {
            let n = comment_nodes(t)[k];
            assert(crate::parse::comment_matches(cs[k], n, b));
            assert(nodes_laid_out(comment_nodes(t), b));
            assert(n.start < n.end);
        }
        lemma_runs_placed(cs, b);
        assert forall|i: int| 0 <= i < out@.len() implies block_wf(b, #[trigger] out@[i].block) && (
        out@[i].action is Reduce ==> out@[i].block.own_line && !out@[i].block.code_after) by {
            let run = spec_runs(cs, b)[i];
            assert(block_holds(out@[i].block, run, b));
            lemma_block_wf(out@[i].block, run, b);
            assert(plan_is(out@[i], src@, b, lang, *cfg));
        }
    }
    Ok(out)
}

/// What the model made of a block handed to it.
pub enum Outcome {
    /// Leave the block as it is (kept by policy, or the call failed).
    Keep,
    /// Delete the block.
    Delete,
    /// Replace the block with this one-line comment.
    Summary(String),
}

/// The outcome a plan and a model verdict make: kept blocks stay kept, deleted ones go, a
/// reduced block follows the verdict.
pub fn outcome_of(action: &Action, verdict: Option<&Verdict>) -> (r: Outcome)
    ensures
        match action {
            Action::Keep => r is Keep,
            Action::Delete => r is Delete,
            Action::Reduce { .. } => match verdict {
                None => r is Keep,
                Some(Verdict::Delete) => r is Delete,
                Some(Verdict::Line(s)) => r matches Outcome::Summary(t) && t@ == s@,
            },
        },
{
    match action {
        Action::Keep => Outcome::Keep,
        Action::Delete => Outcome::Delete,
        Action::Reduce { .. } => match verdict {
            None => Outcome::Keep,
            Some(Verdict::Delete) => Outcome::Delete,
            Some(Verdict::Line(s)) => Outcome::Summary(string_of(&chars_of(s.as_str()))),
        },
    }
}

/// The line starts where an own-line block's indentation begins can be cut: what the edits ask
/// of a block, checked on the bytes.
pub open spec fn edit_ready(b: Seq<u8>, blk: CommentBlock) -> bool {
    &&& blk.start <= b.len()
    &&& indent_len(blk) <= blk.start
    &&& blk.end <= b.len() + 1
    &&& last_pos(blk) <= b.len()
    &&& (own_line_start(blk) == 0 || boundary(b, own_line_start(blk)))
}

/// An edit's range and replacement.
pub open spec fn edit_view(e: Edit) -> (int, int, Seq<char>) {
    (e.start as int, e.end as int, e.replacement@)
}

pub open spec fn opt_edit_view(r: Option<Edit>) -> Option<(int, int, Seq<char>)> {
    match r {
        Some(e) => Some(edit_view(e)),
        None => None,
    }
}

pub open spec fn edit_views(es: Seq<Edit>) -> Seq<(int, int, Seq<char>)> {
    es.map_values(|e: Edit| edit_view(e))
}

/// The edit an outcome makes of a block, as range and replacement.
pub open spec fn spec_block_edit(b: Seq<u8>, blk: CommentBlock, lang: Language, out: Outcome) -> Option<
    (int, int, Seq<char>),
> {
    match out {
        Outcome::Keep => None,
        Outcome::Delete => if edit_ready(b, blk) {
            Some(spec_delete_edit(b, blk))
        } else {
            None
        },
        Outcome::Summary(s) => if edit_ready(b, blk) {
            Some((own_line_start(blk), own_line_end(b, blk), spec_reduce_text(b, blk, lang, s@)))
        } else {
            None
        },
    }
}

/// The edit an outcome makes of a block: a deletion, or the one-line replacement. `None` for a
/// kept block, and for a block whose offsets do not fit the source.
pub fn block_edit(src: &str, block: &CommentBlock, lang: Language, outcome: &Outcome) -> (r: Option<Edit>)
    ensures
        ({
            let b = src.spec_bytes();
            match outcome {
                Outcome::Keep => r is None,
                Outcome::Delete => if edit_ready(b, *block) {
                    r matches Some(e) && edit_is(e, spec_delete_edit(b, *block))
                } else {
                    r is None
                },
                Outcome::Summary(s) => if edit_ready(b, *block) {
                    r matches Some(e) && e.start == own_line_start(*block) && e.end == own_line_end(
                        b,
                        *block,
                    ) && e.replacement@ == spec_reduce_text(b, *block, lang, s@)
                } else {
                    r is None
                },
            }
        }),
        opt_edit_view(r) == spec_block_edit(src.spec_bytes(), *block, lang, *outcome),
{
    let ghost b = src.spec_bytes();
    let bytes = src.as_bytes();
    let n = bytes.len();
    let ind = block.indent.as_str().as_bytes().len();
    if !(block.start <= n && ind <= block.start) {
        return None;
    }
    if !(block.end <= n || (block.end > 0 && block.end - 1 == n)) {
        return None;
    }
    let ls = block.start - ind;
    let last = if block.end > 0 {
        block.end - 1
    } else {
        0
    };
    let lp = if last > block.start {
        last
    } else {
        block.start
    };
    if !(lp <= n) {
        return None;
    }
    if !(ls == 0 || ls == n || (ls < n && !(0x80u8 <= bytes[ls] && bytes[ls] <= 0xbfu8))) {
        return None;
    }
    assert(edit_ready(b, *block));
    proof {
        encode_utf8_valid_utf8(src@);
        let s0 = own_line_start(*block);
        if 0 < s0 < b.len() {
            is_char_boundary_iff_not_is_continuation_byte(b, s0);
        }
        if s0 == b.len() {
            is_char_boundary_start_end_of_seq(b);
        }
        assert(delete_edit_ok(b, *block));
    }
    match outcome {
        Outcome::Keep => None,
        Outcome::Delete => Some(delete_edit(src, block)),
        Outcome::Summary(s) => Some(reduce_edit(src, block, lang, s.as_str())),
    }
}

/// What one file's outcomes come to.
#[derive(Debug, Clone, Copy, PartialEq, Eq, Structural)]
pub struct FileTally {
    /// Blocks (or docstrings) left as they were.
    pub kept: usize,
    pub deleted: usize,
    /// Source lines the deleted ones spanned.
    pub lines_deleted: usize,
    pub reduced: usize,
    /// Source lines the reduced ones no longer take.
    pub lines_saved: usize,
}

/// Lines from `start_line` to `end_line`, both included (none when they are the wrong way round).
pub open spec fn span_lines(start_line: int, end_line: int) -> int {
    if start_line <= end_line {
        end_line - start_line + 1
    } else {
        0
    }
}

/// A count as a `usize` holds it: saturated at `usize::MAX`.
pub open spec fn capped(v: int) -> int {
    if v <= usize::MAX {
        v
    } else {
        usize::MAX as int
    }
}

/// Counts (kept, deleted, lines deleted, reduced, lines saved).
pub type Counts = (int, int, int, int, int);

pub open spec fn tally_is(t: FileTally, c: Counts) -> bool {
    &&& t.kept == c.0
    &&& t.deleted == c.1
    &&& t.lines_deleted == capped(c.2)
    &&& t.reduced == c.3
    &&& t.lines_saved == capped(c.4)
}

pub open spec fn plan_blocks(ps: Seq<BlockPlan>) -> Seq<CommentBlock> {
    ps.map_values(|p: BlockPlan| p.block)
}

/// The edits of the first `n` blocks, in block order: one per block whose outcome changes it.
pub open spec fn spec_comment_edits(
    b: Seq<u8>,
    blocks: Seq<CommentBlock>,
    outs: Seq<Outcome>,
    lang: Language,
    n: int,
) -> Seq<(int, int, Seq<char>)>
    decreases n,
{
    if n <= 0 {
        seq![]
    } else {
        let rest = spec_comment_edits(b, blocks, outs, lang, n - 1);
        match spec_block_edit(b, blocks[n - 1], lang, outs[n - 1]) {
            Some(e) => rest.push(e),
            None => rest,
        }
    }
}

/// What the first `n` blocks come to: a block without an edit is kept; a deleted block counts
/// the lines it spanned, a reduced one the lines beyond the one it keeps.
pub open spec fn spec_comment_tally(
    b: Seq<u8>,
    blocks: Seq<CommentBlock>,
    outs: Seq<Outcome>,
    lang: Language,
    n: int,
) -> Counts
    decreases n,
{
    if n <= 0 {
        (0, 0, 0, 0, 0)
    } else {
        let t = spec_comment_tally(b, blocks, outs, lang, n - 1);
        let blk = blocks[n - 1];
        let lines = span_lines(blk.start_line as int, blk.end_line as int);
        match spec_block_edit(b, blk, lang, outs[n - 1]) {
            None => (t.0 + 1, t.1, t.2, t.3, t.4),
            Some(_) => match outs[n - 1] {
                Outcome::Summary(_) => (t.0, t.1, t.2, t.3 + 1, t.4 + if lines > 0 {
                    lines - 1
                } else {
                    0
                }),
                _ => (t.0, t.1 + 1, t.2 + lines, t.3, t.4),
            },
        }
    }
}

/// Lines a block spans, saturated.
fn span_lines_exec(start_line: usize, end_line: usize) -> (r: usize)
    ensures
        r == capped(span_lines(start_line as int, end_line as int)),
{
    if start_line <= end_line {
        (end_line - start_line).saturating_add(1)
    } else {
        0
    }
}

/// The edits a file's block outcomes make, in block order, and what they come to. `outcomes[i]`
/// is the outcome of `plans[i]`.
pub fn comment_edits(src: &str, lang: Language, plans: &Vec<BlockPlan>, outcomes: &Vec<Outcome>) -> (r: (
    Vec<Edit>,
    FileTally,
))
    requires
        plans@.len() == outcomes@.len(),
    ensures
        edit_views(r.0@) == spec_comment_edits(
            src.spec_bytes(),
            plan_blocks(plans@),
            outcomes@,
            lang,
            plans@.len() as int,
        ),
        tally_is(
            r.1,
            spec_comment_tally(src.spec_bytes(), plan_blocks(plans@), outcomes@, lang, plans@.len() as int),
        ),
{
    let ghost b = src.spec_bytes();
    let ghost blocks = plan_blocks(plans@);
    let mut edits: Vec<Edit> = Vec::new();
    let mut t = FileTally { kept: 0, deleted: 0, lines_deleted: 0, reduced: 0, lines_saved: 0 };
    let mut i: usize = 0;
    while i < plans.len()
        invariant
            0 <= i <= plans@.len(),
            plans@.len() == outcomes@.len(),
            b == src.spec_bytes(),
            blocks == plan_blocks(plans@),
            edit_views(edits@) == spec_comment_edits(b, blocks, outcomes@, lang, i as int),
            tally_is(t, spec_comment_tally(b, blocks, outcomes@, lang, i as int)),
            t.kept + t.deleted + t.reduced == i,
        decreases plans@.len() - i,
    {
        let blk = &plans[i].block;
        assert(blocks[i as int] == *blk);
        let lines = span_lines_exec(blk.start_line, blk.end_line);
        match block_edit(src, blk, lang, &outcomes[i]) {
            None => {
                t.kept = t.kept + 1;
            },
            Some(e) => {
                let ghost before = edits@;
                edits.push(e);
                assert(edit_views(edits@) =~= edit_views(before).push(edit_view(e)));
                match &outcomes[i] {
                    Outcome::Summary(_) => {
                        t.reduced = t.reduced + 1;
                        let saved = if blk.start_line <= blk.end_line {
                            blk.end_line - blk.start_line
                        } else {
                            0
                        };
                        t.lines_saved = t.lines_saved.saturating_add(saved);
                    },
                    _ => {
                        t.deleted = t.deleted + 1;
                        t.lines_deleted = t.lines_deleted.saturating_add(lines);
                    },
                }
            },
        }
        i += 1;
    }
    (edits, t)
}

/// What to do with one docstring.
#[derive(Debug, Clone, Copy, PartialEq, Eq, Structural)]
pub enum DocPlan {
    Keep,
    Delete,
    /// Ask the model.
    Ask,
}

/// Number of non-blank lines of a text.
pub open spec fn non_blank_lines(ls: Seq<Seq<char>>) -> nat
    decreases ls.len(),
{
    if ls.len() == 0 {
        0
    } else {
        non_blank_lines(ls.drop_last()) + if all_ws(ls.last()) {
            0nat
        } else {
            1nat
        }
    }
}

/// Structural docstrings are kept in both modes; delete mode deletes the rest; reduce mode keeps
/// docstrings with fewer non-blank text lines than `min_lines` and asks the model about the rest.
pub open spec fn spec_doc_plan(doc: Docstring, src: Seq<char>, cfg: Config) -> DocPlan {
    if spec_doc_is_structural(doc, src) {
        DocPlan::Keep
    } else if cfg.mode == Mode::Delete {
        DocPlan::Delete
    } else if non_blank_lines(crate::types::split_on(doc.text@, '\n')) < cfg.min_lines {
        DocPlan::Keep
    } else {
        DocPlan::Ask
    }
}

pub fn plan_docstring(doc: &Docstring, src: &str, cfg: &Config) -> (r: DocPlan)
    ensures
        r == spec_doc_plan(*doc, src@, *cfg),
{
    if doc_is_structural(doc, src) {
        return DocPlan::Keep;
    }
    if cfg.mode == Mode::Delete {
        return DocPlan::Delete;
    }
    let ls = crate::types::split_chars(&chars_of(doc.text.as_str()), '\n');
    let ghost lv = view_lines(ls@);
    let mut n: usize = 0;
    let mut i: usize = 0;
    while i < ls.len()
        invariant
            0 <= i <= ls@.len(),
            lv == view_lines(ls@),
            n == non_blank_lines(lv.take(i as int)),
            n <= i,
        decreases ls@.len() - i,
    {
        assert(lv.take(i + 1).drop_last() =~= lv.take(i as int));
        assert(lv.take(i + 1).last() == ls@[i as int]@);
        if !is_blank(&ls[i]) {
            n += 1;
        }
        i += 1;
    }
    assert(lv.take(ls@.len() as int) =~= lv);
    if n < cfg.min_lines {
        DocPlan::Keep
    } else {
        DocPlan::Ask
    }
}

/// The kind name the model reads: `module`, `class` or `function`.
pub open spec fn kind_name(k: DocKind) -> Seq<char> {
    match k {
        DocKind::Module => seq!['m', 'o', 'd', 'u', 'l', 'e'],
        DocKind::Class => seq!['c', 'l', 'a', 's', 's'],
        DocKind::Function => seq!['f', 'u', 'n', 'c', 't', 'i', 'o', 'n'],
    }
}

pub fn doc_kind_name(k: DocKind) -> (r: &'static str)
    ensures
        r@ == kind_name(k),
{
    proof {
        reveal_strlit("module");
        reveal_strlit("class");
        reveal_strlit("function");
        assert("module"@ =~= seq!['m', 'o', 'd', 'u', 'l', 'e']);
        assert("class"@ =~= seq!['c', 'l', 'a', 's', 's']);
        assert("function"@ =~= seq!['f', 'u', 'n', 'c', 't', 'i', 'o', 'n']);
    }
    match k {
        DocKind::Module => "module",
        DocKind::Class => "class",
        DocKind::Function => "function",
    }
}

/// The edit a verdict makes of a docstring, as range and replacement.
pub open spec fn spec_verdict_edit(b: Seq<u8>, doc: Docstring, v: DocVerdict) -> Option<(int, int, Seq<char>)> {
    match v {
        DocVerdict::Delete => if doc_delete_ok(b, doc) {
            spec_doc_delete_edit(b, doc)
        } else {
            None
        },
        DocVerdict::Text(t) => if replace_refused(t@, doc.quote@) {
            None
        } else {
            Some((doc.start as int, doc.end as int, spec_replacement(doc, t@)))
        },
    }
}

/// The edit a docstring's outcome makes: delete (when safe) or replace its text; `None` when the
/// docstring stays, the deletion is too risky, or the new text cannot be spliced in.
pub fn docstring_edit(src: &str, doc: &Docstring, verdict: &DocVerdict) -> (r: Option<Edit>)
    ensures
        match verdict {
            DocVerdict::Delete => if doc_delete_ok(src.spec_bytes(), *doc) {
                edit_matches(r, spec_doc_delete_edit(src.spec_bytes(), *doc))
            } else {
                r is None
            },
            DocVerdict::Text(t) => if replace_refused(t@, doc.quote@) {
                r is None
            } else {
                r matches Some(e) && e.start == doc.start && e.end == doc.end && e.replacement@
                    == spec_replacement(*doc, t@)
            },
        },
        opt_edit_view(r) == spec_verdict_edit(src.spec_bytes(), *doc, *verdict),
        *verdict is Text && quote_ok(doc.quote@) && !doc.indent@.contains(doc.quote@[0]) ==> (
        r matches Some(e) ==> literal_closes_at_end(
            e.replacement@,
            doc.prefix@.len() + doc.quote@.len(),
            doc.quote@,
        )),
        *verdict matches DocVerdict::Text(t) ==> (tidy_text(t@) && (forall|i: int|
            0 <= i < doc.indent@.len() ==> doc.indent@[i] == ' ' || doc.indent@[i] == '\t') ==> (
        r matches Some(e) ==> spec_cleandoc(
            e.replacement@.subrange(
                (doc.prefix@.len() + doc.quote@.len()) as int,
                e.replacement@.len() - doc.quote@.len(),
            ),
        ) == t@)),
{
    match verdict {
        DocVerdict::Delete => {
            let n = src.as_bytes().len();
            let ind = doc.indent.as_str().as_bytes().len();
            let ok = doc.only_statement || !doc.own_line || doc.code_after || (ind <= doc.start
                && doc.start <= n && (doc.end <= n || (doc.end > 0 && doc.end - 1 == n)));
            if ok {
                doc_delete_edit(src, doc)
            } else {
                None
            }
        },
        DocVerdict::Text(t) => replace_edit(src, doc, t.as_str()),
    }
}

/// What a docstring comes to: nothing (kept by plan, or the model call failed), or a verdict.
pub fn doc_outcome_of(plan: DocPlan, verdict: Option<&DocVerdict>) -> (r: Option<DocVerdict>)
    ensures
        match plan {
            DocPlan::Keep => r is None,
            DocPlan::Delete => r == Some(DocVerdict::Delete),
            DocPlan::Ask => match verdict {
                None => r is None,
                Some(DocVerdict::Delete) => r == Some(DocVerdict::Delete),
                Some(DocVerdict::Text(t)) => r matches Some(DocVerdict::Text(u)) && u@ == t@,
            },
        },
{
    match plan {
        DocPlan::Keep => None,
        DocPlan::Delete => Some(DocVerdict::Delete),
        DocPlan::Ask => match verdict {
            None => None,
            Some(DocVerdict::Delete) => Some(DocVerdict::Delete),
            Some(DocVerdict::Text(t)) => Some(DocVerdict::Text(string_of(&chars_of(t.as_str())))),
        },
    }
}

/// The edit a docstring's outcome makes, when it has one.
pub open spec fn spec_doc_edit(b: Seq<u8>, doc: Docstring, out: Option<DocVerdict>) -> Option<(int, int, Seq<char>)> {
    match out {
        None => None,
        Some(v) => spec_verdict_edit(b, doc, v),
    }
}

/// Number of `'\n'` in a text.
pub open spec fn newlines(s: Seq<char>) -> nat
    decreases s.len(),
{
    if s.len() == 0 {
        0
    } else {
        newlines(s.drop_last()) + if s.last() == '\n' {
            1nat
        } else {
            0nat
        }
    }
}

fn count_newlines(s: &str) -> (r: usize)
    ensures
        r == newlines(s@),
{
    let cs = chars_of(s);
    let mut n: usize = 0;
    let mut i: usize = 0;
    while i < cs.len()
        invariant
            0 <= i <= cs@.len(),
            cs@ == s@,
            n == newlines(cs@.take(i as int)),
            n <= i,
        decreases cs@.len() - i,
    {
        assert(cs@.take(i + 1).drop_last() =~= cs@.take(i as int));
        if cs[i] == '\n' {
            n += 1;
        }
        i += 1;
    }
    assert(cs@.take(cs@.len() as int) =~= cs@);
    n
}

/// The edits of the first `n` docstrings, in order.
pub open spec fn spec_doc_edits(b: Seq<u8>, docs: Seq<Docstring>, outs: Seq<Option<DocVerdict>>, n: int) -> Seq<
    (int, int, Seq<char>),
>
    decreases n,
{
    if n <= 0 {
        seq![]
    } else {
        let rest = spec_doc_edits(b, docs, outs, n - 1);
        match spec_doc_edit(b, docs[n - 1], outs[n - 1]) {
            Some(e) => rest.push(e),
            None => rest,
        }
    }
}

/// The first `n` docstrings that had a verdict the edits could not carry out (a risky
/// deletion, or text unsafe to splice in): they stay as they are.
pub open spec fn spec_doc_left(b: Seq<u8>, docs: Seq<Docstring>, outs: Seq<Option<DocVerdict>>, n: int) -> Seq<int>
    decreases n,
{
    if n <= 0 {
        seq![]
    } else {
        let rest = spec_doc_left(b, docs, outs, n - 1);
        if outs[n - 1] is Some && spec_doc_edit(b, docs[n - 1], outs[n - 1]) is None {
            rest.push(n - 1)
        } else {
            rest
        }
    }
}

/// What the first `n` docstrings come to: without an edit a docstring is kept; a deleted one
/// counts the lines it spanned; a rewritten one the lines its new text no longer takes.
pub open spec fn spec_doc_tally(b: Seq<u8>, docs: Seq<Docstring>, outs: Seq<Option<DocVerdict>>, n: int) -> Counts
    decreases n,
{
    if n <= 0 {
        (0, 0, 0, 0, 0)
    } else {
        let t = spec_doc_tally(b, docs, outs, n - 1);
        let d = docs[n - 1];
        match spec_doc_edit(b, d, outs[n - 1]) {
            None => (t.0 + 1, t.1, t.2, t.3, t.4),
            Some(e) => match outs[n - 1] {
                Some(DocVerdict::Text(_)) => {
                    let span = d.end_line - d.start_line;
                    let nl = newlines(e.2) as int;
                    (t.0, t.1, t.2, t.3 + 1, t.4 + if d.start_line <= d.end_line && span > nl {
                        span - nl
                    } else {
                        0
                    })
                },
                _ => (t.0, t.1 + 1, t.2 + span_lines(d.start_line as int, d.end_line as int), t.3, t.4),
            },
        }
    }
}

/// The edits a file's docstring outcomes make, in order, what they come to, and the indices of
/// the docstrings whose verdict could not be carried out. `outcomes[i]` belongs to `docs[i]`.
pub fn doc_edits(src: &str, docs: &Vec<Docstring>, outcomes: &Vec<Option<DocVerdict>>) -> (r: (
    Vec<Edit>,
    FileTally,
    Vec<usize>,
))
    requires
        docs@.len() == outcomes@.len(),
    ensures
        edit_views(r.0@) == spec_doc_edits(src.spec_bytes(), docs@, outcomes@, docs@.len() as int),
        tally_is(r.1, spec_doc_tally(src.spec_bytes(), docs@, outcomes@, docs@.len() as int)),
        r.2@.map_values(|k: usize| k as int) == spec_doc_left(
            src.spec_bytes(),
            docs@,
            outcomes@,
            docs@.len() as int,
        ),
{
    let ghost b = src.spec_bytes();
    let mut edits: Vec<Edit> = Vec::new();
    let mut left: Vec<usize> = Vec::new();
    let mut t = FileTally { kept: 0, deleted: 0, lines_deleted: 0, reduced: 0, lines_saved: 0 };
    let mut i: usize = 0;
    while i < docs.len()
        invariant
            0 <= i <= docs@.len(),
            docs@.len() == outcomes@.len(),
            b == src.spec_bytes(),
            edit_views(edits@) == spec_doc_edits(b, docs@, outcomes@, i as int),
            left@.map_values(|k: usize| k as int) == spec_doc_left(b, docs@, outcomes@, i as int),
            tally_is(t, spec_doc_tally(b, docs@, outcomes@, i as int)),
            t.kept + t.deleted + t.reduced == i,
        decreases docs@.len() - i,
    {
        let d = &docs[i];
        let r = match &outcomes[i] {
            None => None,
            Some(v) => docstring_edit(src, d, v),
        };
        assert(opt_edit_view(r) == spec_doc_edit(b, docs@[i as int], outcomes@[i as int]));
        match r {
            None => {
                if outcomes[i].is_some() {
                    let ghost before = left@;
                    left.push(i);
                    assert(left@.map_values(|k: usize| k as int) =~= before.map_values(
                        |k: usize| k as int,
                    ).push(i as int));
                }
                t.kept = t.kept + 1;
            },
            Some(e) => {
                let rewritten = match &outcomes[i] {
                    Some(DocVerdict::Text(_)) => true,
                    _ => false,
                };
                if rewritten {
                    let nl = count_newlines(e.replacement.as_str());
                    let saved = if d.start_line <= d.end_line && d.end_line - d.start_line > nl {
                        d.end_line - d.start_line - nl
                    } else {
                        0
                    };
                    t.reduced = t.reduced + 1;
                    t.lines_saved = t.lines_saved.saturating_add(saved);
                } else {
                    let lines = span_lines_exec(d.start_line, d.end_line);
                    t.deleted = t.deleted + 1;
                    t.lines_deleted = t.lines_deleted.saturating_add(lines);
                }
                let ghost before = edits@;
                edits.push(e);
                assert(edit_views(edits@) =~= edit_views(before).push(edit_view(e)));
            },
        }
        i += 1;
    }
    (edits, t, left)
}

/// A block the model reduces becomes a single line: the text that replaces a well-formed block
/// holds no line break but the terminator at its end, whatever the model replied.
pub proof fn law_reduced_block_is_one_line(
    b: Seq<u8>,
    blk: CommentBlock,
    lang: Language,
    raw: Seq<char>,
    max_words: nat,
)
    requires
        valid_utf8(b),
        block_wf(b, blk),
    ensures
        spec_parse_summary_reply(raw, max_words) matches Ok(Some(t)) ==> {
            let text = spec_reduce_text(b, blk, lang, t);
            forall|i: int| 0 <= i < text.len() && #[trigger] text[i] == '\n' ==> i == text.len() - 1
        },
{
    if let Ok(Some(t)) = spec_parse_summary_reply(raw, max_words) {
        let st = blk.start as int;
        let ls = line_start_of(b, st);
        lemma_line_start_of(b, st);
        lemma_line_boundary(b, ls);
        lemma_chars_between_bytes(b, ls, st);
        let ind = blk.indent@;
        assert forall|k: int| 0 <= k < ind.len() implies ind[k] != '\n' by {
            if ind[k] == '\n' {
                lemma_encoded_newline(ind, k);
                let j = choose|j: int| 0 <= j < encode_utf8(ind).len() && encode_utf8(ind)[j] == 10;
                assert(b.subrange(ls, st)[j] == b[ls + j]);
            }
        }
        // The kept line is taken from the cleaned reply, whose only whitespace is ' '.
        law_cleaned_reply_is_one_line(raw);
        let c = spec_clean_reply(raw);
        assert forall|k: int| 0 <= k < t.len() implies t[k] != '\n' by {
            let i = index_of(c, ' ');
            let code0 = if i >= 0 { c.take(i) } else { c };
            let rest = if i >= 0 { c.skip(i + 1) } else { seq![] };
            let code = trim_end_set(code0, seq![':', '.', '-']);
            assert(spec_is_ws('\n'));
            if is_class_code(code, 'K') {
                assert(t == trim(rest));
                let a = ws_prefix_len(rest) as int;
                lemma_ws_prefix_len_bound(rest);
                lemma_index_of(c, ' ');
                assert(t[k] == trim_start(rest)[k]);
                assert(trim_start(rest)[k] == rest[a + k]);
                assert(rest[a + k] == c[i + 1 + a + k]);
            } else {
                assert(t == c);
            }
        }
        let text = spec_reduce_text(b, blk, lang, t);
        let e = own_line_end(b, blk);
        let eol = if e > 0 && b[e - 1] == 10 { spec_eol(b) } else { seq![] };
        let pre = ind + spec_line_prefix(lang) + seq![' '] + t;
        assert(text == pre + eol);
        assert forall|i: int| 0 <= i < pre.len() implies pre[i] != '\n' by {
            if i < ind.len() {
            } else if i < ind.len() + spec_line_prefix(lang).len() {
            } else if i == ind.len() + spec_line_prefix(lang).len() {
            } else {
                assert(pre[i] == t[i - ind.len() - spec_line_prefix(lang).len() - 1]);
            }
        }
    }
}

/// An edit made of one block: its range holds the block and, around it, only whitespace; it puts
/// back whitespace, or for a reduced block the one comment line.
pub open spec fn edit_of_block(
    b: Seq<u8>,
    blk: CommentBlock,
    out: Outcome,
    lang: Language,
    x: (int, int, Seq<char>),
) -> bool {
    &&& 0 <= x.0 <= blk.start
    &&& blk.end <= x.1 <= b.len()
    &&& all_ws(chars_between(b, x.0, blk.start as int))
    &&& all_ws(chars_between(b, blk.end as int, x.1))
    &&& match out {
        Outcome::Summary(s) => x.2 == spec_reduce_text(b, blk, lang, s@),
        _ => all_ws(x.2),
    }
}

/// A file's edits touch nothing but comments and whitespace: every edit `comment_edits` makes
/// of well-formed blocks is made of one of them, covering it and whitespace around it only.
/// Reduced blocks are own-line blocks with nothing after them, as the policy reduces no other.
pub proof fn law_comment_edits_touch_only_comments(
    b: Seq<u8>,
    blocks: Seq<CommentBlock>,
    outs: Seq<Outcome>,
    lang: Language,
    n: int,
)
    requires
        valid_utf8(b),
        0 <= n <= blocks.len(),
        n <= outs.len(),
        forall|i: int| 0 <= i < n ==> block_wf(b, #[trigger] blocks[i]),
        forall|i: int|
            0 <= i < n && #[trigger] outs[i] is Summary ==> blocks[i].own_line
                && !blocks[i].code_after,
    ensures
        forall|j: int|
            0 <= j < spec_comment_edits(b, blocks, outs, lang, n).len() ==> exists|i: int|
                0 <= i < n && edit_of_block(
                    b,
                    blocks[i],
                    outs[i],
                    lang,
                    #[trigger] spec_comment_edits(b, blocks, outs, lang, n)[j],
                ),
    decreases n,
{
    if n > 0 {
        law_comment_edits_touch_only_comments(b, blocks, outs, lang, n - 1);
        let prev = spec_comment_edits(b, blocks, outs, lang, n - 1);
        let cur = spec_comment_edits(b, blocks, outs, lang, n);
        let blk = blocks[n - 1];
        let out = outs[n - 1];
        match spec_block_edit(b, blk, lang, out) {
            Some(e) => {
                assert(cur == prev.push(e));
                match out {
                    Outcome::Summary(s) => {
                        assert(outs[n - 1] is Summary);
                        law_reduce_edit_replaces_only_the_block_lines(b, blk);
                    },
                    _ => {
                        law_delete_edit_removes_only_comment_and_whitespace(b, blk);
                    },
                }
                assert(edit_of_block(b, blk, out, lang, e));
                assert forall|j: int| 0 <= j < cur.len() implies exists|i: int|
                    0 <= i < n && edit_of_block(b, blocks[i], outs[i], lang, #[trigger] cur[j]) by {
                    if j < prev.len() {
                        assert(cur[j] == prev[j]);
                        let i = choose|i: int|
                            0 <= i < n - 1 && edit_of_block(b, blocks[i], outs[i], lang, #[trigger] prev[j]);
                        assert(edit_of_block(b, blocks[i], outs[i], lang, cur[j]));
                    } else {
                        assert(cur[j] == e);
                        assert(edit_of_block(b, blocks[n - 1], outs[n - 1], lang, cur[j]));
                    }
                }
            },
            None => {
                assert(cur == prev);
                assert forall|j: int| 0 <= j < cur.len() implies exists|i: int|
                    0 <= i < n && edit_of_block(b, blocks[i], outs[i], lang, #[trigger] cur[j]) by {
                    let i = choose|i: int|
                        0 <= i < n - 1 && edit_of_block(b, blocks[i], outs[i], lang, #[trigger] prev[j]);
                    assert(edit_of_block(b, blocks[i], outs[i], lang, cur[j]));
                }
            },
        }
    }
}

/// An edit made of one docstring: a rewrite replaces exactly its string literal; a deletion
/// turns a sole statement into `pass`, or takes its range and only whitespace around it.
pub open spec fn edit_of_doc(b: Seq<u8>, d: Docstring, out: Option<DocVerdict>, x: (int, int, Seq<char>)) -> bool {
    match out {
        Some(DocVerdict::Text(t)) => x.0 == d.start && x.1 == d.end && x.2 == spec_replacement(
            d,
            t@,
        ),
        _ => if d.only_statement {
            x.0 == d.start && x.1 == d.end && x.2 == seq!['p', 'a', 's', 's']
        } else {
            &&& 0 <= x.0 <= d.start
            &&& d.end <= x.1 <= b.len()
            &&& all_ws(chars_between(b, x.0, d.start as int))
            &&& all_ws(chars_between(b, d.end as int, x.1))
            &&& x.2.len() == 0
        },
    }
}

/// A file's docstring edits touch nothing but docstrings and whitespace: every edit `doc_edits`
/// makes of well-formed docstrings (as extraction gives them) is made of one of them.
pub proof fn law_doc_edits_touch_only_docstrings(
    b: Seq<u8>,
    docs: Seq<Docstring>,
    outs: Seq<Option<DocVerdict>>,
    n: int,
)
    requires
        valid_utf8(b),
        0 <= n <= docs.len(),
        n <= outs.len(),
        forall|i: int| 0 <= i < n ==> doc_wf(b, #[trigger] docs[i]),
    ensures
        forall|j: int|
            0 <= j < spec_doc_edits(b, docs, outs, n).len() ==> exists|i: int|
                0 <= i < n && edit_of_doc(
                    b,
                    docs[i],
                    outs[i],
                    #[trigger] spec_doc_edits(b, docs, outs, n)[j],
                ),
    decreases n,
{
    if n > 0 {
        law_doc_edits_touch_only_docstrings(b, docs, outs, n - 1);
        let prev = spec_doc_edits(b, docs, outs, n - 1);
        let cur = spec_doc_edits(b, docs, outs, n);
        let d = docs[n - 1];
        let out = outs[n - 1];
        match spec_doc_edit(b, d, out) {
            Some(e) => {
                assert(cur == prev.push(e));
                law_doc_delete_removes_only_docstring_and_whitespace(b, d);
                assert(edit_of_doc(b, d, out, e));
                assert forall|j: int| 0 <= j < cur.len() implies exists|i: int|
                    0 <= i < n && edit_of_doc(b, docs[i], outs[i], #[trigger] cur[j]) by {
                    if j < prev.len() {
                        assert(cur[j] == prev[j]);
                        let i = choose|i: int|
                            0 <= i < n - 1 && edit_of_doc(b, docs[i], outs[i], #[trigger] prev[j]);
                        assert(edit_of_doc(b, docs[i], outs[i], cur[j]));
                    } else {
                        assert(cur[j] == e);
                        assert(edit_of_doc(b, docs[n - 1], outs[n - 1], cur[j]));
                    }
                }
            },
            None => {
                assert(cur == prev);
                assert forall|j: int| 0 <= j < cur.len() implies exists|i: int|
                    0 <= i < n && edit_of_doc(b, docs[i], outs[i], #[trigger] cur[j]) by {
                    let i = choose|i: int|
                        0 <= i < n - 1 && edit_of_doc(b, docs[i], outs[i], #[trigger] prev[j]);
                    assert(edit_of_doc(b, docs[i], outs[i], cur[j]));
                }
            },
        }
    }
}

} // verus!
