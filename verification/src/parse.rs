//! Comment extraction from the parsed syntax tree, and grouping of comments into blocks.
//! Comments are `comment` nodes in every grammar; strings, template literals, regex literals,
//! JSX text and Python docstrings are never comments, so the grammar does the hard work.
use vstd::prelude::*;
use vstd::string::*;
use vstd::utf8::*;
use crate::docstring::{ExtractError, fits_in_memory, line_end_of, node_text};
use crate::rewrite::{line_start, line_start_of, lemma_line_start_of};
use crate::syntax::{
    SyntaxNode, boundary, check_placement, is_kind, kind_is, lemma_placed, parse_tree,
    parsed_tree, well_placed,
};
use crate::text::{all_ws, chars_of, has_prefix, is_blank, same_chars, starts_with, string_of};
use crate::types::{Comment, CommentBlock, CommentKind, Language};
use crate::utf8::{chars_between, lemma_boundary_after_ascii, lemma_boundary_at_ascii, substr};

verus! {

broadcast use vstd::seq::group_seq_axioms;

/// The grammar kind of a comment node.
pub const KIND_COMMENT: &'static str = "comment";

/// The `comment` nodes of a subtree, in source order.
pub open spec fn comment_nodes(n: SyntaxNode) -> Seq<SyntaxNode>
    decreases n, n.children@.len() + 1,
{
    let own = if kind_is(n, KIND_COMMENT@) {
        seq![n]
    } else {
        seq![]
    };
    own + children_comment_nodes(n, n.children@.len() as int)
}

/// The `comment` nodes of the first `i` children's subtrees, in order.
pub open spec fn children_comment_nodes(n: SyntaxNode, i: int) -> Seq<SyntaxNode>
    decreases n, i,
{
    if i <= 0 || i > n.children@.len() {
        seq![]
    } else {
        children_comment_nodes(n, i - 1) + comment_nodes(n.children@[i - 1])
    }
}

/// A comment token is what the parser reported for a `comment` node: its range, rows and text,
/// `Block` exactly when the text opens with `/*`, whether only whitespace precedes it on its
/// first line, and whether anything but whitespace follows it on its last line.
pub open spec fn comment_matches(c: Comment, n: SyntaxNode, b: Seq<u8>) -> bool {
    let ls = line_start_of(b, n.start as int);
    &&& c.start == n.start && c.end == n.end
    &&& c.start_line == n.start_row && c.end_line == n.end_row
    &&& c.text@ == node_text(n, b)
    &&& c.kind == if has_prefix(node_text(n, b), seq!['/', '*']) {
        CommentKind::Block
    } else {
        CommentKind::Line
    }
    &&& c.own_line == all_ws(chars_between(b, ls, n.start as int))
    &&& c.code_after == !all_ws(chars_between(b, n.end as int, line_end_of(b, n.end as int)))
}

/// Every comment node covers at least one byte and ends before the next one starts (the nodes
/// come in strictly increasing order of position, none overlapping another), and its rows are
/// the line numbers of its start and end in the source.
pub open spec fn nodes_laid_out(ns: Seq<SyntaxNode>, b: Seq<u8>) -> bool {
    &&& forall|k: int| 0 <= k < ns.len() ==> (#[trigger] ns[k]).start < ns[k].end
    &&& nodes_in_order(ns)
    &&& rows_match(ns, b)
}

/// Number of line feeds among the first `i` bytes: the (0-based) line number of byte `i`.
pub open spec fn newline_count(b: Seq<u8>, i: int) -> nat
    decreases i,
{
    if i <= 0 {
        0
    } else {
        newline_count(b, i - 1) + if b[i - 1] == 10 {
            1nat
        } else {
            0nat
        }
    }
}

/// Every node's rows are the line numbers of its start and its end.
#[verifier::opaque]
pub open spec fn rows_match(ns: Seq<SyntaxNode>, b: Seq<u8>) -> bool {
    forall|k: int|
        0 <= k < ns.len() ==> (#[trigger] ns[k]).start_row == newline_count(b, ns[k].start as int)
            && ns[k].end_row == newline_count(b, ns[k].end as int)
}

/// Every comment's lines are the line numbers of its start and its end.
#[verifier::opaque]
pub open spec fn comment_lines_match(cs: Seq<Comment>, b: Seq<u8>) -> bool {
    forall|k: int|
        0 <= k < cs.len() ==> (#[trigger] cs[k]).start_line == newline_count(b, cs[k].start as int)
            && cs[k].end_line == newline_count(b, cs[k].end as int)
}

/// The line feeds among the first `to` bytes, counted on from those among the first `from`.
fn count_newlines(bytes: &[u8], from: usize, to: usize, cnt: usize) -> (r: usize)
    requires
        from <= to <= bytes@.len(),
        cnt == newline_count(bytes@, from as int),
        cnt <= from,
    ensures
        r == newline_count(bytes@, to as int),
        r <= to,
{
    let mut p = from;
    let mut c = cnt;
    while p < to
        invariant
            from <= p <= to,
            to <= bytes@.len(),
            c == newline_count(bytes@, p as int),
            c <= p,
        decreases to - p,
    {
        if bytes[p] == 10u8 {
            c += 1;
        }
        p += 1;
    }
    c
}

/// Every node ends before any later one starts.
#[verifier::opaque]
pub open spec fn nodes_in_order(ns: Seq<SyntaxNode>) -> bool {
    forall|j: int, k: int| #![trigger ns[j], ns[k]] 0 <= j < k < ns.len() ==> ns[j].end <= ns[k].start
}

/// Every comment ends before any later one starts.
#[verifier::opaque]
pub open spec fn comments_in_order(cs: Seq<Comment>) -> bool {
    forall|j: int, k: int| #![trigger cs[j], cs[k]] 0 <= j < k < cs.len() ==> cs[j].end <= cs[k].start
}

/// The comments are exactly the nodes' tokens, in order.
pub open spec fn comments_match(cs: Seq<Comment>, ns: Seq<SyntaxNode>, b: Seq<u8>) -> bool {
    &&& cs.len() == ns.len()
    &&& forall|i: int| 0 <= i < ns.len() ==> comment_matches(#[trigger] cs[i], ns[i], b)
}

/// The token of one `comment` node.
fn make_comment(n: &SyntaxNode, src: &str) -> (r: Comment)
    requires
        well_placed(*n, src.spec_bytes()),
    ensures
        comment_matches(r, *n, src.spec_bytes()),
{
    let ghost b = src.spec_bytes();
    proof {
        lemma_placed(*n, b);
        encode_utf8_valid_utf8(src@);
    }
    let text = crate::docstring::text_of_node(src, n);
    let open = ['/', '*'];
    assert(open@ =~= seq!['/', '*']);
    let kind = if starts_with(&text, &open) {
        CommentKind::Block
    } else {
        CommentKind::Line
    };
    let ls = line_start(src, n.start);
    proof {
        lemma_line_start_of(b, n.start as int);
        if ls > 0 && ls < b.len() {
            lemma_boundary_after_ascii(b, ls as int);
            is_char_boundary_iff_not_is_continuation_byte(b, ls as int);
        }
    }
    let before = crate::docstring::text_in(src, ls, n.start);
    let le = crate::docstring::line_end_pos(src, n.end);
    proof {
        if le < b.len() {
            lemma_boundary_at_ascii(b, le as int);
            is_char_boundary_iff_not_is_continuation_byte(b, le as int);
        }
    }
    let after = crate::docstring::text_in(src, n.end, le);
    Comment {
        start: n.start,
        end: n.end,
        kind,
        text: string_of(&text),
        start_line: n.start_row,
        end_line: n.end_row,
        own_line: is_blank(&before),
        code_after: !is_blank(&after),
    }
}

/// Appends the comment tokens of a subtree, in order.
fn collect_comments(n: &SyntaxNode, src: &str, out: &mut Vec<Comment>)
    requires
        well_placed(*n, src.spec_bytes()),
    ensures
        final(out)@.len() == old(out)@.len() + comment_nodes(*n).len(),
        final(out)@.take(old(out)@.len() as int) == old(out)@,
        comments_match(
            final(out)@.skip(old(out)@.len() as int),
            comment_nodes(*n),
            src.spec_bytes(),
        ),
    decreases n,
{
    let ghost b = src.spec_bytes();
    let ghost start_len = out@.len();
    let ghost start_out = out@;
    proof {
        lemma_placed(*n, b);
    }
    if is_kind(n, KIND_COMMENT) {
        out.push(make_comment(n, src));
    }
    let ghost own: Seq<SyntaxNode> = if kind_is(*n, KIND_COMMENT@) {
        seq![*n]
    } else {
        seq![]
    };
    assert(comment_nodes(*n) =~= own + children_comment_nodes(*n, n.children@.len() as int));
    assert(out@.take(start_len as int) =~= start_out);
    let mut i: usize = 0;
    while i < n.children.len()
        invariant
            0 <= i <= n.children@.len(),
            b == src.spec_bytes(),
            well_placed(*n, b),
            out@.len() == start_len + own.len() + children_comment_nodes(*n, i as int).len(),
            out@.take(start_len as int) == start_out,
            comments_match(
                out@.skip(start_len as int),
                own + children_comment_nodes(*n, i as int),
                b,
            ),
        decreases n.children@.len() - i,
    {
        proof {
            lemma_placed(*n, b);
        }
        assert(decreases_to!(n => n.children));
        assert(decreases_to!(n.children => n.children@));
        assert(decreases_to!(n.children@ => n.children@[i as int]));
        let ghost before = out@;
        let ghost prev = own + children_comment_nodes(*n, i as int);
        let ghost sub = comment_nodes(n.children@[i as int]);
        collect_comments(&n.children[i], src, out);
        proof {
            assert(children_comment_nodes(*n, i + 1) == children_comment_nodes(*n, i as int)
                + sub);
            let next = own + children_comment_nodes(*n, i + 1);
            assert(next =~= prev + sub);
            assert(out@.take(start_len as int) =~= start_out) by {
                assert forall|k: int| 0 <= k < start_len implies out@[k] == start_out[k] by {
                    assert(out@.take(before.len() as int)[k] == before[k]);
                    assert(before.take(start_len as int)[k] == before[k]);
                }
            }
            let tail = out@.skip(start_len as int);
            assert forall|k: int| 0 <= k < next.len() implies comment_matches(
                #[trigger] tail[k],
                next[k],
                b,
            ) by {
                if k < prev.len() {
                    assert(next[k] == prev[k]);
                    assert(tail[k] == before.skip(start_len as int)[k]) by {
                        assert(out@.take(before.len() as int)[start_len + k] == before[start_len
                            + k]);
                    }
                } else {
                    assert(next[k] == sub[k - prev.len()]);
                    assert(tail[k] == out@.skip(before.len() as int)[k - prev.len()]);
                }
            }
        }
        i += 1;
    }
}

/// All comment tokens in `src`, in source order, none overlapping another. `Err` when the parser
/// gives no tree or a tree with syntax errors, or when its offsets do not fit the source or
/// place the comments out of order.
pub fn extract_comments(src: &str, lang: Language) -> (r: Result<Vec<Comment>, ExtractError>)
    ensures
        ({
            let b = src.spec_bytes();
            match parsed_tree(src@, lang) {
                None => r == Err::<Vec<Comment>, ExtractError>(ExtractError::NoTree),
                Some(t) => if t.has_error {
                    r == Err::<Vec<Comment>, ExtractError>(ExtractError::SyntaxErrors)
                } else if !well_placed(t, b) || !nodes_laid_out(comment_nodes(t), b) {
                    r == Err::<Vec<Comment>, ExtractError>(ExtractError::BadOffsets)
                } else {
                    r matches Ok(v) && comments_match(v@, comment_nodes(t), b) && comments_in_order(
                        v@,
                    ) && comment_lines_match(v@, b)
                },
            }
        }),
{
    match parse_tree(src, lang) {
        Some(t) => comments_of_tree(&t, src),
        None => Err(ExtractError::NoTree),
    }
}

/// The comment tokens of a parsed tree of `src`, in source order. `Err` when the tree has
/// syntax errors, or its offsets do not fit the source or place the comments out of order.
pub fn comments_of_tree(tree: &SyntaxNode, src: &str) -> (r: Result<Vec<Comment>, ExtractError>)
    ensures
        ({
            let b = src.spec_bytes();
            if tree.has_error {
                r == Err::<Vec<Comment>, ExtractError>(ExtractError::SyntaxErrors)
            } else if !well_placed(*tree, b) || !nodes_laid_out(comment_nodes(*tree), b) {
                r == Err::<Vec<Comment>, ExtractError>(ExtractError::BadOffsets)
            } else {
                r matches Ok(v) && comments_match(v@, comment_nodes(*tree), b) && comments_in_order(
                    v@,
                ) && comment_lines_match(v@, b)
            }
        }),
{
    if tree.has_error {
        return Err(ExtractError::SyntaxErrors);
    }
    if !check_placement(tree, src.as_bytes()) {
        return Err(ExtractError::BadOffsets);
    }
    let mut out: Vec<Comment> = Vec::new();
    collect_comments(tree, src, &mut out);
    assert(out@.skip(0) =~= out@);
    let ghost ns = comment_nodes(*tree);
    let ghost b = src.spec_bytes();
    let bytes = src.as_bytes();
    proof {
        lemma_comment_nodes_placed(*tree, b);
    }
    // The line numbers are counted in one pass, the comments being in order.
    let mut pos: usize = 0;
    let mut cnt: usize = 0;
    let mut i: usize = 0;
    while i < out.len()
        invariant
            0 <= i <= out@.len(),
            !tree.has_error,
            b == src.spec_bytes(),
            bytes@ == b,
            well_placed(*tree, b),
            ns == comment_nodes(*tree),
            forall|k: int| 0 <= k < ns.len() ==> well_placed(#[trigger] ns[k], b),
            comments_match(out@, ns, b),
            forall|k: int| 0 <= k < i ==> (#[trigger] ns[k]).start < ns[k].end,
            forall|j: int, k: int| #![trigger ns[j], ns[k]] 0 <= j < k < i ==> ns[j].end <= ns[k].start,
            forall|k: int|
                0 <= k < i ==> (#[trigger] ns[k]).start_row == newline_count(b, ns[k].start as int)
                    && ns[k].end_row == newline_count(b, ns[k].end as int),
            pos <= b.len(),
            cnt == newline_count(b, pos as int),
            cnt <= pos,
            i == 0 ==> pos == 0,
            i > 0 ==> pos == ns[i - 1].end,
        decreases out@.len() - i,
    {
        assert(comment_matches(out@[i as int], ns[i as int], b));
        proof {
            lemma_placed(ns[i as int], b);
        }
        if out[i].start >= out[i].end {
            assert(!(ns[i as int].start < ns[i as int].end));
            assert(!nodes_laid_out(ns, b));
            return Err(ExtractError::BadOffsets);
        }
        if i > 0 && out[i - 1].end > out[i].start {
            assert(comment_matches(out@[i - 1], ns[i - 1], b));
            assert(!(ns[i - 1].end <= ns[i as int].start));
            assert(!nodes_laid_out(ns, b)) by {
                reveal(nodes_in_order);
            }
            return Err(ExtractError::BadOffsets);
        }
        proof {
            if i > 0 {
                assert(comment_matches(out@[i - 1], ns[i - 1], b));
            }
        }
        let c_start = count_newlines(bytes, pos, out[i].start, cnt);
        let c_end = count_newlines(bytes, out[i].start, out[i].end, c_start);
        if out[i].start_line != c_start || out[i].end_line != c_end {
            assert(!nodes_laid_out(ns, b)) by {
                reveal(rows_match);
                assert(!(ns[i as int].start_row == newline_count(b, ns[i as int].start as int)
                    && ns[i as int].end_row == newline_count(b, ns[i as int].end as int)));
            }
            return Err(ExtractError::BadOffsets);
        }
        pos = out[i].end;
        cnt = c_end;
        proof {
            if i > 0 {
                assert(comment_matches(out@[i - 1], ns[i - 1], src.spec_bytes()));
                assert(ns[i - 1].start < ns[i - 1].end);
            }
            assert forall|j: int, k: int| #![trigger ns[j], ns[k]] 0 <= j < k < i + 1 implies ns[j].end
                <= ns[k].start by {
                if k == i && j < i - 1 {
                    assert(ns[j].end <= ns[i - 1].start);
                }
            }
        }
        i += 1;
    }
    proof {
        reveal(nodes_in_order);
        reveal(comments_in_order);
        reveal(comment_lines_match);
        reveal(rows_match);
        assert(rows_match(ns, b));
        assert forall|k: int| 0 <= k < out@.len() implies (#[trigger] out@[k]).start_line
            == newline_count(b, out@[k].start as int) && out@[k].end_line == newline_count(
            b,
            out@[k].end as int,
        ) by {
            assert(comment_matches(out@[k], ns[k], b));
        }
        assert forall|j: int, k: int| #![trigger out@[j], out@[k]] 0 <= j < k < out@.len() implies out@[j].end
            <= out@[k].start by {
            assert(comment_matches(out@[j], ns[j], src.spec_bytes()));
            assert(comment_matches(out@[k], ns[k], src.spec_bytes()));
            assert(ns[j].end <= ns[k].start);
        }
    }
    Ok(out)
}

/// Leading whitespace of a comment's first line: the text from its line start to the comment.
#[verifier::opaque]
pub open spec fn indent_of(c: Comment, b: Seq<u8>) -> Seq<char> {
    chars_between(b, line_start_of(b, c.start as int), c.start as int)
}

/// An own-line line comment, the only kind that merges with its neighbours.
pub open spec fn mergeable(c: Comment) -> bool {
    c.kind == CommentKind::Line && c.own_line
}

/// `c` continues the run: both are own-line line comments, `c` is on the next line and after the
/// run's last comment, with the same indentation.
pub open spec fn continues(run: Seq<Comment>, c: Comment, b: Seq<u8>) -> bool {
    &&& mergeable(run[0])
    &&& mergeable(c)
    &&& c.start_line == run.last().end_line + 1
    &&& run.last().end <= c.start
    &&& indent_of(c, b) == indent_of(run[0], b)
}

/// The runs of comments that form blocks, in order.
pub open spec fn spec_runs(cs: Seq<Comment>, b: Seq<u8>) -> Seq<Seq<Comment>>
    decreases cs.len(),
{
    if cs.len() == 0 {
        seq![]
    } else {
        let g = spec_runs(cs.drop_last(), b);
        let c = cs.last();
        if g.len() > 0 && continues(g.last(), c, b) {
            g.drop_last().push(g.last().push(c))
        } else {
            g.push(seq![c])
        }
    }
}

/// A block holds a run: its comments, the range and rows from the first to the last, the first
/// comment's indentation, placement and kind, and whether code follows the last one.
pub open spec fn block_holds(blk: CommentBlock, run: Seq<Comment>, b: Seq<u8>) -> bool {
    &&& run.len() > 0
    &&& blk.comments@ == run
    &&& blk.start == run[0].start && blk.end == run.last().end
    &&& blk.start_line == run[0].start_line && blk.end_line == run.last().end_line
    &&& blk.indent@ == indent_of(run[0], b)
    &&& blk.own_line == run[0].own_line
    &&& blk.code_after == run.last().code_after
    &&& blk.kind == run[0].kind
}

/// Each comment starts on a character boundary within the source.
pub open spec fn comments_placed(cs: Seq<Comment>, b: Seq<u8>) -> bool {
    forall|i: int|
        0 <= i < cs.len() ==> (#[trigger] cs[i]).start <= b.len() && boundary(b, cs[i].start as int)
}

fn indent_chars(src: &str, c: &Comment) -> (r: Vec<char>)
    requires
        c.start <= src.spec_bytes().len(),
        boundary(src.spec_bytes(), c.start as int),
    ensures
        r@ == indent_of(*c, src.spec_bytes()),
{
    let ghost b = src.spec_bytes();
    let ls = line_start(src, c.start);
    proof {
        encode_utf8_valid_utf8(src@);
        lemma_line_start_of(b, c.start as int);
        if ls > 0 && ls < b.len() {
            lemma_boundary_after_ascii(b, ls as int);
            is_char_boundary_iff_not_is_continuation_byte(b, ls as int);
        }
    }
    proof {
        reveal(indent_of);
    }
    crate::docstring::text_in(src, ls, c.start)
}

/// A block of one run.
fn block_of(run: Vec<Comment>, indent: Vec<char>) -> (r: CommentBlock)
    requires
        run@.len() > 0,
    ensures
        r.comments@ == run@,
        r.start == run@[0].start && r.end == run@.last().end,
        r.start_line == run@[0].start_line && r.end_line == run@.last().end_line,
        r.indent@ == indent@,
        r.own_line == run@[0].own_line,
        r.code_after == run@.last().code_after,
        r.kind == run@[0].kind,
{
    let n = run.len();
    let start = run[0].start;
    let end = run[n - 1].end;
    let start_line = run[0].start_line;
    let end_line = run[n - 1].end_line;
    let own_line = run[0].own_line;
    let code_after = run[n - 1].code_after;
    let kind = run[0].kind;
    CommentBlock {
        comments: run,
        start,
        end,
        start_line,
        end_line,
        indent: string_of(&indent),
        own_line,
        code_after,
        kind,
    }
}

/// Groups comments into blocks (see `CommentBlock` doc). Consecutive own-line Line comments on
/// adjacent lines with identical indentation merge; everything else is its own block.
pub fn group_blocks(src: &str, comments: Vec<Comment>) -> (r: Vec<CommentBlock>)
    requires
        comments_placed(comments@, src.spec_bytes()),
    ensures
        r@.len() == spec_runs(comments@, src.spec_bytes()).len(),
        forall|i: int|
            0 <= i < r@.len() ==> block_holds(
                #[trigger] r@[i],
                spec_runs(comments@, src.spec_bytes())[i],
                src.spec_bytes(),
            ),
{
    let ghost b = src.spec_bytes();
    let ghost cs = comments@;
    let mut blocks: Vec<CommentBlock> = Vec::new();
    let mut run: Vec<Comment> = Vec::new();
    let mut run_indent: Vec<char> = Vec::new();
    let mut i: usize = 0;
    let n = comments.len();
    // Reverse the comments so that popping yields them in source order.
    let mut src_order = comments;
    let mut rest: Vec<Comment> = Vec::new();
    while src_order.len() > 0
        invariant
            cs.len() == n,
            src_order@.len() + rest@.len() == n,
            src_order@ == cs.take(src_order@.len() as int),
            forall|k: int| 0 <= k < rest@.len() ==> #[trigger] rest@[k] == cs[n - 1 - k],
        decreases src_order@.len(),
    {
        let c = src_order.pop().unwrap();
        rest.push(c);
        assert(src_order@ =~= cs.take(src_order@.len() as int));
    }
    assert(cs.len() == n);
    while i < n
        invariant
            0 <= i <= n,
            cs.len() == n,
            comments_placed(cs, b),
            b == src.spec_bytes(),
            rest@.len() == n - i,
            forall|k: int| 0 <= k < n - i ==> #[trigger] rest@[k] == cs[n - 1 - k],
            i == 0 ==> run@.len() == 0 && blocks@.len() == 0,
            i > 0 ==> run@.len() > 0 && spec_runs(cs.take(i as int), b) == blocks_runs(blocks@).push(
                run@,
            ) && run_indent@ == indent_of(run@[0], b),
            forall|k: int|
                0 <= k < blocks@.len() ==> block_holds(#[trigger] blocks@[k], blocks@[k].comments@, b),
        decreases n - i,
    {
        let c = rest.pop().unwrap();
        assert(c == cs[i as int]);
        assert(cs.take(i + 1).drop_last() =~= cs.take(i as int));
        let ind = indent_chars(src, &c);
        let joins = run.len() > 0 && run[0].kind == CommentKind::Line && run[0].own_line
            && c.kind == CommentKind::Line && c.own_line && run[run.len() - 1].end_line
            < usize::MAX && c.start_line == run[run.len() - 1].end_line + 1 && run[run.len()
            - 1].end <= c.start && same_chars(
            &ind,
            &run_indent,
        );
        if joins {
            let ghost old_run = run@;
            run.push(c);
            proof {
                assert(cs.take(i + 1).last() == cs[i as int]);
                assert(spec_runs(cs.take(i + 1), b) =~= blocks_runs(blocks@).push(
                    old_run.push(cs[i as int]),
                ));
            }
        } else {
            let ghost old_run = run@;
            let ghost old_blocks = blocks@;
            if run.len() > 0 {
                let mut full: Vec<Comment> = Vec::new();
                std::mem::swap(&mut full, &mut run);
                let blk = block_of(full, run_indent);
                blocks.push(blk);
                assert(blocks_runs(blocks@) =~= blocks_runs(old_blocks).push(old_run));
            }
            run = Vec::new();
            run.push(c);
            run_indent = ind;
            proof {
                assert(run@ =~= seq![cs[i as int]]);
                assert(cs.take(i + 1).last() == cs[i as int]);
                if i > 0 {
                    assert(!continues(old_run, cs[i as int], b));
                    assert(spec_runs(cs.take(i as int), b) == blocks_runs(blocks@));
                } else {
                    assert(blocks_runs(blocks@) =~= Seq::<Seq<Comment>>::empty());
                    assert(spec_runs(cs.take(0), b) =~= Seq::<Seq<Comment>>::empty());
                }
                assert(spec_runs(cs.take(i + 1), b) =~= blocks_runs(blocks@).push(run@));
            }
        }
        i += 1;
    }
    let ghost old_blocks = blocks@;
    let ghost old_run = run@;
    if run.len() > 0 {
        let blk = block_of(run, run_indent);
        blocks.push(blk);
        assert(blocks_runs(blocks@) =~= blocks_runs(old_blocks).push(old_run));
    }
    assert(cs.take(n as int) =~= cs);
    proof {
        assert forall|k: int| 0 <= k < blocks@.len() implies block_holds(
            #[trigger] blocks@[k],
            spec_runs(cs, b)[k],
            b,
        ) by {
            assert(blocks_runs(blocks@)[k] == blocks@[k].comments@);
        }
    }
    blocks
}

/// The runs the blocks hold.
pub open spec fn blocks_runs(bs: Seq<CommentBlock>) -> Seq<Seq<Comment>> {
    bs.map_values(|blk: CommentBlock| blk.comments@)
}

/// The comments of the runs, one run after another.
pub open spec fn flatten_runs(rs: Seq<Seq<Comment>>) -> Seq<Comment>
    decreases rs.len(),
{
    if rs.len() == 0 {
        seq![]
    } else {
        flatten_runs(rs.drop_last()) + rs.last()
    }
}

/// Grouping keeps every comment, in order and once: the blocks' comments, one block after
/// another, are exactly the comments given, and no block is empty.
pub proof fn law_grouping_keeps_every_comment(cs: Seq<Comment>, b: Seq<u8>)
    ensures
        flatten_runs(spec_runs(cs, b)) == cs,
        forall|i: int| 0 <= i < spec_runs(cs, b).len() ==> #[trigger] spec_runs(cs, b)[i].len() > 0,
    decreases cs.len(),
{
    if cs.len() > 0 {
        let init = cs.drop_last();
        let c = cs.last();
        law_grouping_keeps_every_comment(init, b);
        let g = spec_runs(init, b);
        if g.len() > 0 && continues(g.last(), c, b) {
            let g2 = g.drop_last().push(g.last().push(c));
            assert(g2.drop_last() =~= g.drop_last());
            assert(flatten_runs(g) == flatten_runs(g.drop_last()) + g.last());
            assert(flatten_runs(g2) =~= flatten_runs(g).push(c));
            assert forall|i: int| 0 <= i < g2.len() implies #[trigger] g2[i].len() > 0 by {
                if i < g.len() - 1 {
                    assert(g2[i] == g[i]);
                }
            }
        } else {
            let g2 = g.push(seq![c]);
            assert(g2.drop_last() =~= g);
            assert(flatten_runs(g2) =~= flatten_runs(g).push(c));
            assert forall|i: int| 0 <= i < g2.len() implies #[trigger] g2[i].len() > 0 by {
                if i < g.len() {
                    assert(g2[i] == g[i]);
                }
            }
        }
        assert(init.push(c) =~= cs);
    }
}

/// Comment `j` of a run is on the line after comment `j - 1`.
pub open spec fn follows(run: Seq<Comment>, j: int) -> bool {
    run[j].start_line == run[j - 1].end_line + 1
}

/// A run holds own-line line comments on consecutive lines with its first comment's
/// indentation, or a single comment.
pub open spec fn run_shape(run: Seq<Comment>, b: Seq<u8>) -> bool {
    &&& run.len() > 0
    &&& run.len() > 1 ==> {
        &&& forall|j: int|
            0 <= j < run.len() ==> #[trigger] mergeable(run[j]) && indent_of(run[j], b)
                == indent_of(run[0], b)
        &&& forall|j: int| 0 < j < run.len() ==> #[trigger] follows(run, j)
    }
}

proof fn lemma_run_shape_push(run: Seq<Comment>, c: Comment, b: Seq<u8>)
    requires
        run_shape(run, b),
        continues(run, c, b),
    ensures
        run_shape(run.push(c), b),
{
    let nr = run.push(c);
    assert forall|j: int| 0 <= j < nr.len() implies #[trigger] mergeable(nr[j]) && indent_of(
        nr[j],
        b,
    ) == indent_of(nr[0], b) by {
        if j < run.len() {
            assert(nr[j] == run[j]);
            if run.len() > 1 {
                assert(mergeable(run[j]));
            }
        }
    }
    assert forall|j: int| 0 < j < nr.len() implies #[trigger] follows(nr, j) by {
        if j < run.len() {
            assert(nr[j] == run[j]);
            assert(nr[j - 1] == run[j - 1]);
            assert(follows(run, j));
        } else {
            assert(nr[j - 1] == run.last());
        }
    }
}

/// Only own-line line comments on adjacent lines with identical indentation share a block;
/// everything else is a block of its own.
pub proof fn law_blocks_merge_only_adjacent_line_comments(cs: Seq<Comment>, b: Seq<u8>)
    ensures
        forall|i: int| 0 <= i < spec_runs(cs, b).len() ==> run_shape(#[trigger] spec_runs(cs, b)[i], b),
    decreases cs.len(),
{
    if cs.len() > 0 {
        let init = cs.drop_last();
        let c = cs.last();
        law_blocks_merge_only_adjacent_line_comments(init, b);
        let g = spec_runs(init, b);
        if g.len() > 0 && continues(g.last(), c, b) {
            let g2 = g.drop_last().push(g.last().push(c));
            assert(run_shape(g[g.len() - 1], b));
            lemma_run_shape_push(g.last(), c, b);
            assert forall|i: int| 0 <= i < g2.len() implies run_shape(#[trigger] g2[i], b) by {
                if i < g.len() - 1 {
                    assert(g2[i] == g[i]);
                }
            }
        } else {
            let g2 = g.push(seq![c]);
            assert forall|i: int| 0 <= i < g2.len() implies run_shape(#[trigger] g2[i], b) by {
                if i < g.len() {
                    assert(g2[i] == g[i]);
                }
            }
        }
    }
}


pub(crate) proof fn lemma_comment_nodes_placed(n: SyntaxNode, b: Seq<u8>)
    requires
        well_placed(n, b),
    ensures
        forall|k: int|
            0 <= k < comment_nodes(n).len() ==> well_placed(#[trigger] comment_nodes(n)[k], b),
    decreases n, n.children@.len() + 1,
{
    lemma_children_comment_nodes_placed(n, n.children@.len() as int, b);
    let own = if kind_is(n, KIND_COMMENT@) {
        seq![n]
    } else {
        seq![]
    };
    let rest = children_comment_nodes(n, n.children@.len() as int);
    assert(comment_nodes(n) == own + rest);
    assert forall|k: int| 0 <= k < comment_nodes(n).len() implies well_placed(
        #[trigger] comment_nodes(n)[k],
        b,
    ) by {
        if k >= own.len() {
            assert(comment_nodes(n)[k] == rest[k - own.len()]);
        }
    }
}

pub(crate) proof fn lemma_children_comment_nodes_placed(n: SyntaxNode, i: int, b: Seq<u8>)
    requires
        well_placed(n, b),
        0 <= i <= n.children@.len(),
    ensures
        forall|k: int|
            0 <= k < children_comment_nodes(n, i).len() ==> well_placed(
                #[trigger] children_comment_nodes(n, i)[k],
                b,
            ),
    decreases n, i,
{
    if i > 0 {
        lemma_children_comment_nodes_placed(n, i - 1, b);
        lemma_placed(n, b);
        assert(decreases_to!(n => n.children));
        assert(decreases_to!(n.children => n.children@));
        assert(decreases_to!(n.children@ => n.children@[i - 1]));
        lemma_comment_nodes_placed(n.children@[i - 1], b);
        let a = children_comment_nodes(n, i - 1);
        let c = comment_nodes(n.children@[i - 1]);
        assert(children_comment_nodes(n, i) == a + c);
        assert forall|k: int| 0 <= k < (a + c).len() implies well_placed(#[trigger] (a + c)[k], b) by {
            if k >= a.len() {
                assert((a + c)[k] == c[k - a.len()]);
            }
        }
    }
}

} // verus!
