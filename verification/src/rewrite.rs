//! Turn actions into byte-range edits and apply them. This is the only code that touches file
//! contents, so correctness here is what keeps the target codebase intact.
use vstd::prelude::*;
use vstd::utf8::*;
use vstd::string::*;
use crate::utf8::{
    string_from_utf8, substr, chars_between, lemma_boundary_after_ascii, lemma_boundary_at_ascii,
    lemma_decode_ascii, lemma_chars_between_split, lemma_chars_between_bytes,
};
use crate::text::{all_ws, is_blank, chars_of, push_all, string_of, spec_is_ws, lemma_all_ws_concat};
use crate::types::{CommentBlock, Language, spec_line_prefix};

verus! {

broadcast use vstd::seq::group_seq_axioms;

/// Replace the bytes `start..end` of a source with `replacement`.
#[derive(Debug, Clone)]
pub struct Edit {
    pub start: usize,
    pub end: usize,
    pub replacement: String,
}

/// The UTF-8 bytes an edit puts in place of its range.
pub open spec fn edit_bytes(e: Edit) -> Seq<u8> {
    encode_utf8(e.replacement@)
}

/// Start of the line containing `pos`: just after the nearest `'\n'` before `pos`, or 0.
pub open spec fn line_start_of(b: Seq<u8>, pos: int) -> int
    decreases pos,
{
    if pos <= 0 {
        0
    } else if b[pos - 1] == 10 {
        pos
    } else {
        line_start_of(b, pos - 1)
    }
}

/// Just past the `'\n'` that ends the line containing `pos`, or the length when that line has
/// no terminator.
pub open spec fn line_end_incl_of(b: Seq<u8>, pos: int) -> int
    decreases b.len() - pos,
{
    if pos >= b.len() {
        b.len() as int
    } else if b[pos] == 10 {
        pos + 1
    } else {
        line_end_incl_of(b, pos + 1)
    }
}

pub proof fn lemma_line_start_of(b: Seq<u8>, pos: int)
    requires
        0 <= pos <= b.len(),
    ensures
        0 <= line_start_of(b, pos) <= pos,
        line_start_of(b, pos) == 0 || b[line_start_of(b, pos) - 1] == 10,
        forall|k: int| line_start_of(b, pos) <= k < pos ==> b[k] != 10,
    decreases pos,
{
    if pos > 0 && b[pos - 1] != 10 {
        lemma_line_start_of(b, pos - 1);
    }
}

pub proof fn lemma_line_end_incl_of(b: Seq<u8>, pos: int)
    requires
        0 <= pos <= b.len(),
    ensures
        pos <= line_end_incl_of(b, pos) <= b.len(),
        pos < b.len() ==> pos < line_end_incl_of(b, pos),
        line_end_incl_of(b, pos) == b.len() || b[line_end_incl_of(b, pos) - 1] == 10,
        pos < line_end_incl_of(b, pos) ==> forall|k: int|
            pos <= k < line_end_incl_of(b, pos) - 1 ==> b[k] != 10,
        line_end_incl_of(b, pos) == b.len() ==> forall|k: int| pos <= k < b.len() - 1 ==> b[k]
            != 10,
    decreases b.len() - pos,
{
    if pos < b.len() && b[pos] != 10 {
        lemma_line_end_incl_of(b, pos + 1);
    }
}

/// Byte offset of the start of the line containing `pos`. `pos` need not be a char boundary.
pub fn line_start(src: &str, pos: usize) -> (r: usize)
    requires
        pos <= src.spec_bytes().len(),
    ensures
        r == line_start_of(src.spec_bytes(), pos as int),
{
    let bytes = src.as_bytes();
    let mut i = pos;
    while i > 0 && bytes[i - 1] != 10u8
        invariant
            i <= pos <= bytes@.len(),
            bytes@ == src.spec_bytes(),
            line_start_of(bytes@, pos as int) == line_start_of(bytes@, i as int),
        decreases i,
    {
        i -= 1;
    }
    i
}

/// Byte offset just past the terminator of the line containing `pos` (i.e. the start of the next
/// line), or the end of the string if `pos`'s line has no terminator (EOF).
/// `pos` need not be a char boundary.
pub fn line_end_incl_terminator(src: &str, pos: usize) -> (r: usize)
    requires
        pos <= src.spec_bytes().len(),
    ensures
        r == line_end_incl_of(src.spec_bytes(), pos as int),
{
    let bytes = src.as_bytes();
    let mut i = pos;
    while i < bytes.len()
        invariant
            pos <= i <= bytes@.len(),
            bytes@ == src.spec_bytes(),
            line_end_incl_of(bytes@, pos as int) == line_end_incl_of(bytes@, i as int),
        decreases bytes@.len() - i,
    {
        if bytes[i] == 10u8 {
            return i + 1;
        }
        i += 1;
    }
    i
}

/// The bytes contain a `"\r\n"` pair.
pub open spec fn has_crlf(b: Seq<u8>) -> bool {
    exists|i: int| 0 <= i && i + 1 < b.len() && #[trigger] b[i] == 13 && b[i + 1] == 10
}

/// The line terminator a source uses: `"\r\n"` if it has one anywhere, else `"\n"`.
pub open spec fn spec_eol(b: Seq<u8>) -> Seq<char> {
    if has_crlf(b) {
        seq!['\r', '\n']
    } else {
        seq!['\n']
    }
}

/// Line terminator used by `src`: "\r\n" if present anywhere, else "\n".
pub fn eol_of(src: &str) -> (r: &'static str)
    ensures
        r@ == spec_eol(src.spec_bytes()),
{
    proof {
        reveal_strlit("\r\n");
        reveal_strlit("\n");
        assert("\r\n"@ =~= seq!['\r', '\n']);
        assert("\n"@ =~= seq!['\n']);
    }
    let bytes = src.as_bytes();
    let mut i: usize = 0;
    while i < bytes.len()
        invariant
            i <= bytes@.len(),
            bytes@ == src.spec_bytes(),
            forall|j: int| 0 <= j < i && j + 1 < bytes@.len() ==> !(#[trigger] bytes@[j] == 13
                && bytes@[j + 1] == 10),
        decreases bytes@.len() - i,
    {
        if i + 1 < bytes.len() && bytes[i] == 13u8 && bytes[i + 1] == 10u8 {
            assert(bytes@[i as int] == 13 && bytes@[i + 1] == 10);
            assert(has_crlf(src.spec_bytes()));
            proof {
                reveal_strlit("\r\n");
                assert("\r\n"@ =~= seq!['\r', '\n']);
            }
            return "\r\n";
        }
        i += 1;
    }
    "\n"
}

/// Copy of a byte slice.
fn copy_bytes(b: &[u8]) -> (r: Vec<u8>)
    ensures
        r@ == b@,
{
    let mut r: Vec<u8> = Vec::new();
    let mut i: usize = 0;
    while i < b.len()
        invariant
            0 <= i <= b@.len(),
            r@ == b@.take(i as int),
        decreases b@.len() - i,
    {
        r.push(b[i]);
        i += 1;
    }
    r
}

/// `v[..s] + repl + v[e..]`.
fn splice(v: &Vec<u8>, s: usize, e: usize, repl: &[u8]) -> (r: Vec<u8>)
    requires
        s <= e <= v@.len(),
    ensures
        r@ == v@.take(s as int) + repl@ + v@.skip(e as int),
{
    let mut r: Vec<u8> = Vec::new();
    let mut i: usize = 0;
    while i < s
        invariant
            0 <= i <= s <= e <= v@.len(),
            r@ == v@.take(i as int),
        decreases s - i,
    {
        r.push(v[i]);
        i += 1;
    }
    let mut j: usize = 0;
    while j < repl.len()
        invariant
            0 <= j <= repl@.len(),
            r@ == v@.take(s as int) + repl@.take(j as int),
        decreases repl@.len() - j,
    {
        r.push(repl[j]);
        j += 1;
    }
    assert(repl@.take(repl@.len() as int) == repl@);
    let mut k: usize = e;
    while k < v.len()
        invariant
            e <= k <= v@.len(),
            r@ == v@.take(s as int) + repl@ + v@.subrange(e as int, k as int),
        decreases v@.len() - k,
    {
        r.push(v[k]);
        k += 1;
    }
    r
}

/// Edits that `apply` accepts: each range lies in the source between character boundaries, no
/// two ranges overlap, and of two edits that start at the same byte the one listed later is an
/// insertion (an empty range), which goes in before the earlier one.
pub open spec fn edits_ok(b: Seq<u8>, es: Seq<Edit>) -> bool {
    &&& forall|i: int|
        0 <= i < es.len() ==> {
            &&& #[trigger] es[i].start <= es[i].end <= b.len()
            &&& is_char_boundary(b, es[i].start as int)
            &&& is_char_boundary(b, es[i].end as int)
        }
    &&& forall|i: int, j: int|
        0 <= i < es.len() && 0 <= j < es.len() && i != j ==> {
            &&& (#[trigger] es[i].end <= #[trigger] es[j].start || es[j].end <= es[i].start)
            &&& (i < j && es[i].start == es[j].start ==> es[j].end == es[j].start)
        }
}

/// No two edits start at the same byte.
pub open spec fn starts_distinct(es: Seq<Edit>) -> bool {
    forall|i: int, j: int|
        0 <= i < es.len() && 0 <= j < es.len() && i != j ==> #[trigger] es[i].start
            != #[trigger] es[j].start
}

/// `k` is the edit with the greatest start, the first listed of those that share it.
pub open spec fn is_last_edit(es: Seq<Edit>, k: int) -> bool {
    &&& 0 <= k < es.len()
    &&& forall|j: int|
        0 <= j < es.len() ==> #[trigger] es[j].start <= es[k].start && (j < k ==> es[j].start
            < es[k].start)
}

/// Result of applying edits to source bytes: the edit that starts last (the first listed, among
/// several that start there) replaces its range, and the rest are applied to the text before it.
pub open spec fn spec_apply(b: Seq<u8>, es: Seq<Edit>) -> Seq<u8>
    decreases es.len(),
{
    if es.len() == 0 {
        b
    } else {
        let k = choose|k: int| is_last_edit(es, k);
        if 0 <= k < es.len() {
            spec_apply(b.take(es[k].start as int), es.remove(k)) + edit_bytes(es[k]) + b.skip(
                es[k].end as int,
            )
        } else {
            b
        }
    }
}

proof fn lemma_last_edit_unique(es: Seq<Edit>, p: int)
    requires
        is_last_edit(es, p),
    ensures
        (choose|k: int| is_last_edit(es, k)) == p,
{
    let q = choose|k: int| is_last_edit(es, k);
    assert(is_last_edit(es, q));
    assert(es[q].start <= es[p].start);
    assert(es[p].start <= es[q].start);
}

proof fn lemma_boundary_in_prefix(b: Seq<u8>, e: int, c: int)
    requires
        valid_utf8(b),
        0 <= e <= c <= b.len(),
        is_char_boundary(b, e),
        is_char_boundary(b, c),
    ensures
        valid_utf8(b.take(c)),
        is_char_boundary(b.take(c), e),
{
    valid_utf8_split(b, c);
    assert(b.take(c) == b.subrange(0, c));
    if e == c {
        is_char_boundary_start_end_of_seq(b.take(c));
    } else {
        is_char_boundary_iff_not_is_continuation_byte(b, e);
        is_char_boundary_iff_not_is_continuation_byte(b.take(c), e);
    }
}

/// One step of `apply`: replacing the range of the edit that starts last.
proof fn lemma_apply_step(b: Seq<u8>, es: Seq<Edit>, p: int, cut: int, tail: Seq<u8>)
    requires
        valid_utf8(b),
        0 <= cut <= b.len(),
        is_char_boundary(b, cut),
        valid_utf8(tail),
        edits_ok(b, es),
        forall|x: int| 0 <= x < es.len() ==> #[trigger] es[x].end <= cut,
        is_last_edit(es, p),
    ensures
        spec_apply(b.take(cut), es) + tail == spec_apply(b.take(es[p].start as int), es.remove(p))
            + (edit_bytes(es[p]) + b.subrange(es[p].end as int, cut) + tail),
        valid_utf8(edit_bytes(es[p]) + b.subrange(es[p].end as int, cut) + tail),
        edits_ok(b, es.remove(p)),
        forall|x: int| 0 <= x < es.remove(p).len() ==> #[trigger] es.remove(p)[x].end <= es[p].start,
        is_char_boundary(b, es[p].start as int),
        es[p].start <= es[p].end <= cut,
{
    let ek = es[p];
    let s = ek.start as int;
    let e = ek.end as int;
    let rest = es.remove(p);
    let bc = b.take(cut);
    lemma_last_edit_unique(es, p);
    assert(bc.take(s) =~= b.take(s));
    assert(bc.skip(e) =~= b.subrange(e, cut));
    assert(spec_apply(bc, es) == spec_apply(bc.take(s), rest) + edit_bytes(ek) + bc.skip(e));
    assert forall|x: int| 0 <= x < rest.len() implies #[trigger] rest[x].end <= s by {
        let y = if x < p { x } else { x + 1 };
        assert(rest[x] == es[y]);
        assert(es[y].start <= es[p].start);
        assert(es[y].end <= es[p].start || es[p].end <= es[y].start);
    }
    assert forall|x: int| 0 <= x < rest.len() implies {
        &&& #[trigger] rest[x].start <= rest[x].end <= b.len()
        &&& is_char_boundary(b, rest[x].start as int)
        &&& is_char_boundary(b, rest[x].end as int)
    } by {
        let y = if x < p { x } else { x + 1 };
        assert(rest[x] == es[y]);
    }
    assert forall|x: int, y: int|
        0 <= x < rest.len() && 0 <= y < rest.len() && x != y implies {
        &&& (#[trigger] rest[x].end <= #[trigger] rest[y].start || rest[y].end <= rest[x].start)
        &&& (x < y && rest[x].start == rest[y].start ==> rest[y].end == rest[y].start)
    } by {
        let x2 = if x < p { x } else { x + 1 };
        let y2 = if y < p { y } else { y + 1 };
        assert(rest[x] == es[x2]);
        assert(rest[y] == es[y2]);
        assert(es[x2].end <= es[y2].start || es[y2].end <= es[x2].start);
    }
    assert(edits_ok(b, rest));
    lemma_boundary_in_prefix(b, e, cut);
    valid_utf8_split(b.take(cut), e);
    assert(b.take(cut).subrange(e, cut) =~= b.subrange(e, cut));
    encode_utf8_valid_utf8(ek.replacement@);
    valid_utf8_concat(edit_bytes(ek), b.subrange(e, cut));
    valid_utf8_concat(edit_bytes(ek) + b.subrange(e, cut), tail);
    assert(spec_apply(bc, es) + tail =~= spec_apply(b.take(s), rest) + (edit_bytes(ek)
        + b.subrange(e, cut) + tail));
}

proof fn lemma_last_edit_exists(es: Seq<Edit>)
    requires
        es.len() > 0,
    ensures
        exists|k: int| is_last_edit(es, k),
    decreases es.len(),
{
    if es.len() == 1 {
        assert(is_last_edit(es, 0));
    } else {
        let init = es.drop_last();
        lemma_last_edit_exists(init);
        let k = choose|k: int| is_last_edit(init, k);
        if es.last().start > es[k].start {
            assert forall|j: int| 0 <= j < es.len() implies #[trigger] es[j].start <= es[es.len()
                - 1].start && (j < es.len() - 1 ==> es[j].start < es[es.len() - 1].start) by {
                if j < es.len() - 1 {
                    assert(es[j] == init[j]);
                }
            }
            assert(is_last_edit(es, es.len() - 1));
        } else {
            assert forall|j: int| 0 <= j < es.len() implies #[trigger] es[j].start <= es[k].start
                && (j < k ==> es[j].start < es[k].start) by {
                if j < es.len() - 1 {
                    assert(es[j] == init[j]);
                }
            }
            assert(is_last_edit(es, k));
        }
    }
}

proof fn lemma_starts_distinct_remove(es: Seq<Edit>, k: int)
    requires
        starts_distinct(es),
        0 <= k < es.len(),
    ensures
        starts_distinct(es.remove(k)),
{
    let r = es.remove(k);
    assert forall|i: int, j: int|
        0 <= i < r.len() && 0 <= j < r.len() && i != j implies #[trigger] r[i].start
        != #[trigger] r[j].start by {
        let i2 = if i < k { i } else { i + 1 };
        let j2 = if j < k { j } else { j + 1 };
        assert(r[i] == es[i2]);
        assert(r[j] == es[j2]);
    }
}

/// Applying edits does not depend on the order they are listed in: two lists holding the same
/// edits (as a multiset, each with its own start) give the same result. (Where two edits start
/// at one byte, the order they are listed in decides which goes in first.)
pub proof fn law_apply_ignores_edit_order(b: Seq<u8>, es: Seq<Edit>, fs: Seq<Edit>)
    requires
        starts_distinct(es),
        starts_distinct(fs),
        es.to_multiset() == fs.to_multiset(),
    ensures
        spec_apply(b, es) == spec_apply(b, fs),
    decreases es.len(),
{
    broadcast use vstd::seq_lib::group_to_multiset_ensures;

    es.to_multiset_ensures();
    fs.to_multiset_ensures();
    assert(es.to_multiset().len() == fs.to_multiset().len());
    assert(es.len() == fs.len());
    if es.len() > 0 {
        lemma_last_edit_exists(es);
        let k = choose|k: int| is_last_edit(es, k);
        assert(es.contains(es[k]));
        assert(fs.to_multiset().count(es[k]) > 0);
        assert(fs.contains(es[k]));
        let k2 = choose|j: int| 0 <= j < fs.len() && fs[j] == es[k];
        assert forall|j: int| 0 <= j < fs.len() implies #[trigger] fs[j].start <= fs[k2].start && (j
            < k2 ==> fs[j].start < fs[k2].start) by {
            assert(fs.contains(fs[j]));
            assert(es.to_multiset().count(fs[j]) > 0);
            assert(es.contains(fs[j]));
            let i = choose|i: int| 0 <= i < es.len() && es[i] == fs[j];
            assert(es[i].start <= es[k].start);
            if j != k2 {
                assert(fs[j].start != fs[k2].start);
            }
        }
        assert(is_last_edit(fs, k2));
        lemma_last_edit_unique(es, k);
        lemma_last_edit_unique(fs, k2);
        lemma_starts_distinct_remove(es, k);
        lemma_starts_distinct_remove(fs, k2);
        assert(es.remove(k).to_multiset() == fs.remove(k2).to_multiset());
        law_apply_ignores_edit_order(b.take(es[k].start as int), es.remove(k), fs.remove(k2));
    }
}

/// Applying no edits gives the source back.
pub proof fn law_apply_no_edits(b: Seq<u8>)
    ensures
        spec_apply(b, seq![]) == b,
{
}

/// One edit replaces exactly its range: what precedes and what follows it are kept byte for
/// byte.
pub proof fn law_apply_one_edit(b: Seq<u8>, e: Edit)
    requires
        e.start <= e.end <= b.len(),
    ensures
        spec_apply(b, seq![e]) == b.take(e.start as int) + edit_bytes(e) + b.skip(e.end as int),
{
    let es = seq![e];
    assert(is_last_edit(es, 0));
    lemma_last_edit_unique(es, 0);
    assert(es.remove(0) =~= Seq::<Edit>::empty());
    assert(spec_apply(b.take(e.start as int), Seq::<Edit>::empty()) == b.take(e.start as int));
}

/// Whether `apply` accepts the edits: each range lies in the source between character
/// boundaries, no two overlap, and of two that start at one byte the later listed is empty.
pub fn edits_fit(src: &str, edits: &Vec<Edit>) -> (r: bool)
    ensures
        r == edits_ok(src.spec_bytes(), edits@),
{
    let ghost b = src.spec_bytes();
    let n = src.as_bytes().len();
    let ghost es = edits@;
    let mut i: usize = 0;
    while i < edits.len()
        invariant
            0 <= i <= es.len(),
            es == edits@,
            n == b.len(),
            b == src.spec_bytes(),
            forall|k: int|
                0 <= k < i ==> {
                    &&& #[trigger] es[k].start <= es[k].end <= b.len()
                    &&& is_char_boundary(b, es[k].start as int)
                    &&& is_char_boundary(b, es[k].end as int)
                },
            forall|k: int, j: int|
                0 <= k < i && 0 <= j < es.len() && k != j ==> {
                    &&& (#[trigger] es[k].end <= #[trigger] es[j].start || es[j].end <= es[k].start)
                    &&& (k < j && es[k].start == es[j].start ==> es[j].end == es[j].start)
                    &&& (j < k && es[k].start == es[j].start ==> es[k].end == es[k].start)
                },
        decreases es.len() - i,
    {
        let s = edits[i].start;
        let e = edits[i].end;
        if !(s <= e && e <= n) {
            return false;
        }
        if !src.is_char_boundary(s) || !src.is_char_boundary(e) {
            return false;
        }
        let mut j: usize = 0;
        while j < edits.len()
            invariant
                0 <= i < es.len(),
                0 <= j <= es.len(),
                es == edits@,
                s == es[i as int].start,
                e == es[i as int].end,
                forall|q: int|
                    0 <= q < j && q != i ==> {
                        &&& (es[i as int].end <= #[trigger] es[q].start || es[q].end <= es[i as int].start)
                        &&& (i < q && es[i as int].start == es[q].start ==> es[q].end == es[q].start)
                        &&& (q < i && es[i as int].start == es[q].start ==> es[i as int].end
                            == es[i as int].start)
                    },
            decreases es.len() - j,
        {
            if j != i {
                let fs = edits[j].start;
                let fe = edits[j].end;
                if !(e <= fs || fe <= s) || (s == fs && i < j && fe != fs) || (s == fs && j < i
                    && e != s) {
                    return false;
                }
            }
            j += 1;
        }
        i += 1;
    }
    true
}

/// Applies the edits when `apply` accepts them; `None` (the file is left alone) otherwise.
pub fn apply_checked(src: &str, edits: Vec<Edit>) -> (r: Option<String>)
    ensures
        match r {
            Some(t) => edits_ok(src.spec_bytes(), edits@) && encode_utf8(t@) == spec_apply(
                src.spec_bytes(),
                edits@,
            ),
            None => !edits_ok(src.spec_bytes(), edits@),
        },
{
    if edits_fit(src, &edits) {
        Some(apply(src, edits))
    } else {
        None
    }
}

/// Apply non-overlapping edits (any order) and return the new source.
pub fn apply(src: &str, edits: Vec<Edit>) -> (r: String)
    requires
        edits_ok(src.spec_bytes(), edits@),
    ensures
        encode_utf8(r@) == spec_apply(src.spec_bytes(), edits@),
{
    let bytes = src.as_bytes();
    let ghost b = bytes@;
    proof {
        encode_utf8_valid_utf8(src@);
        is_char_boundary_start_end_of_seq(b);
    }
    let mut out = copy_bytes(bytes);
    let mut rem: Vec<usize> = Vec::new();
    let mut i: usize = 0;
    while i < edits.len()
        invariant
            0 <= i <= edits@.len(),
            rem@ == Seq::new(i as nat, |q: int| q as usize),
        decreases edits@.len() - i,
    {
        rem.push(i);
        i += 1;
    }
    let ghost mut rem_es: Seq<Edit> = edits@;
    let ghost mut cut: int = b.len() as int;
    let ghost mut tail: Seq<u8> = seq![];
    assert(rem_es =~= rem@.map_values(|q: usize| edits@[q as int]));
    assert(b.take(cut) =~= b);
    assert forall|x: int| 0 <= x < rem_es.len() implies #[trigger] rem_es[x].end <= cut by {
        assert(rem_es[x].start <= rem_es[x].end <= b.len());
    }
    while rem.len() > 0
        invariant
            b == src.spec_bytes(),
            b == bytes@,
            valid_utf8(b),
            0 <= cut <= b.len(),
            is_char_boundary(b, cut),
            valid_utf8(tail),
            rem_es == rem@.map_values(|q: usize| edits@[q as int]),
            forall|x: int| 0 <= x < rem@.len() ==> #[trigger] rem@[x] < edits@.len(),
            edits_ok(b, rem_es),
            forall|x: int| 0 <= x < rem_es.len() ==> #[trigger] rem_es[x].end <= cut,
            out@ == b.take(cut) + tail,
            spec_apply(b, edits@) == spec_apply(b.take(cut), rem_es) + tail,
        decreases rem@.len(),
    {
        // Pick the remaining edit with the greatest start.
        let mut p: usize = 0;
        let mut q: usize = 1;
        while q < rem.len()
            invariant
                0 <= p < rem@.len(),
                1 <= q <= rem@.len(),
                p < q,
                rem_es == rem@.map_values(|q: usize| edits@[q as int]),
                forall|x: int| 0 <= x < rem@.len() ==> #[trigger] rem@[x] < edits@.len(),
                forall|x: int|
                    0 <= x < q ==> #[trigger] rem_es[x].start <= rem_es[p as int].start && (x < p
                        ==> rem_es[x].start < rem_es[p as int].start),
            decreases rem@.len() - q,
        {
            if edits[rem[q]].start > edits[rem[p]].start {
                p = q;
            }
            q += 1;
        }
        let k = rem[p];
        let s = edits[k].start;
        let e = edits[k].end;
        let ghost ek = rem_es[p as int];
        assert(ek == edits@[k as int]);
        proof {
            lemma_apply_step(b, rem_es, p as int, cut, tail);
        }
        let repl = edits[k].replacement.as_str().as_bytes();
        let new_out = splice(&out, s, e, repl);
        proof {
            let new_tail = edit_bytes(ek) + b.subrange(e as int, cut) + tail;
            assert(new_out@ =~= b.take(s as int) + new_tail);
            tail = new_tail;
            cut = s as int;
            rem_es = rem_es.remove(p as int);
        }
        out = new_out;
        rem.remove(p);
        assert(rem_es =~= rem@.map_values(|q: usize| edits@[q as int]));
    }
    proof {
        assert(rem_es.len() == 0);
        valid_utf8_split(b, cut);
        assert(b.take(cut) == b.subrange(0, cut));
        valid_utf8_concat(b.take(cut), tail);
    }
    match string_from_utf8(out) {
        Some(s) => s,
        None => {
            assert(false);
            String::new()
        },
    }
}

/// `u8::is_ascii_whitespace`: space, tab, line feed, form feed, carriage return.
pub open spec fn is_ascii_ws_byte(x: u8) -> bool {
    x == 9 || x == 10 || x == 12 || x == 13 || x == 32
}

/// Byte length of a block's indentation string.
pub open spec fn indent_len(blk: CommentBlock) -> int {
    encode_utf8(blk.indent@).len() as int
}

/// The block's last byte position (`end - 1`, but never before `start`).
pub open spec fn last_pos(blk: CommentBlock) -> int {
    let e1: int = if blk.end > 0 { blk.end - 1 } else { 0 };
    if e1 > blk.start { e1 } else { blk.start as int }
}

/// Start of an own-line block's first line (the block start minus its indentation).
pub open spec fn own_line_start(blk: CommentBlock) -> int {
    blk.start - indent_len(blk)
}

/// Just past the terminator of an own-line block's last line.
pub open spec fn own_line_end(b: Seq<u8>, blk: CommentBlock) -> int {
    line_end_incl_of(b, last_pos(blk))
}

/// `e` is the end of the source and the source does not end in `'\n'`.
pub open spec fn unterminated_eof(b: Seq<u8>, e: int) -> bool {
    e == b.len() && !(b.len() > 0 && b[b.len() - 1] == 10)
}

/// Position before the line terminator (`"\n"` or `"\r\n"`) that ends just before `s`, or `s`.
pub open spec fn before_terminator(b: Seq<u8>, s: int) -> int {
    if s > 0 && b[s - 1] == 10 {
        if s - 1 > 0 && b[s - 2] == 13 {
            s - 2
        } else {
            s - 1
        }
    } else {
        s
    }
}

/// The line before position `s` (a line start) is blank, or `s` is the start of the file.
pub open spec fn blank_before(b: Seq<u8>, s: int) -> bool {
    s == 0 || all_ws(chars_between(b, line_start_of(b, s - 1), s))
}

/// The line starting at `e` exists and is blank.
pub open spec fn blank_line_at(b: Seq<u8>, e: int) -> bool {
    let e2 = line_end_incl_of(b, e);
    e2 > e && all_ws(chars_between(b, e, e2))
}

/// Walks back from `pos` over spaces and tabs.
pub open spec fn back_over_blanks(b: Seq<u8>, pos: int) -> int
    decreases pos,
{
    if pos > 0 && (b[pos - 1] == 32 || b[pos - 1] == 9) {
        back_over_blanks(b, pos - 1)
    } else {
        pos
    }
}

/// End of the span removed for an inline block comment with code after it: one following
/// space goes too when the comment starts its line or is preceded by a space.
pub open spec fn inline_removed_end(b: Seq<u8>, blk: CommentBlock) -> int {
    let s = blk.start as int;
    let e = blk.end as int;
    let ls = line_start_of(b, s);
    if e < b.len() && b[e] == 32 && (s == ls || (s > ls && b[s - 1] == 32)) {
        e + 1
    } else {
        e
    }
}

/// Range and replacement that delete a block (see `delete_edit`).
pub open spec fn spec_delete_edit(b: Seq<u8>, blk: CommentBlock) -> (int, int, Seq<char>) {
    if blk.own_line && !blk.code_after {
        let s0 = own_line_start(blk);
        let e0 = own_line_end(b, blk);
        if unterminated_eof(b, e0) {
            (before_terminator(b, s0), b.len() as int, seq![])
        } else if blank_before(b, s0) && blank_line_at(b, e0) {
            (s0, line_end_incl_of(b, e0), seq![])
        } else {
            (s0, e0, seq![])
        }
    } else if blk.code_after {
        let s = blk.start as int;
        let re = inline_removed_end(b, blk);
        let glue = s > 0 && !is_ascii_ws_byte(b[s - 1]) && re < b.len() && !is_ascii_ws_byte(
            b[re],
        );
        (s, re, if glue { seq![' '] } else { seq![] })
    } else {
        (back_over_blanks(b, blk.start as int), blk.end as int, seq![])
    }
}

/// What `delete_edit` needs of a block so that no slice or index is out of range: its start
/// lies in the source, and an own-line block's indentation fits before it, its end is at most
/// one past the source, and its line start is a character boundary wherever the line before it
/// is inspected.
pub open spec fn delete_edit_ok(b: Seq<u8>, blk: CommentBlock) -> bool {
    &&& blk.start <= b.len()
    &&& blk.own_line && !blk.code_after ==> {
        &&& indent_len(blk) <= blk.start
        &&& blk.end <= b.len() + 1
        &&& (unterminated_eof(b, own_line_end(b, blk)) || own_line_start(blk) == 0
            || is_char_boundary(b, own_line_start(blk)))
    }
}

/// The edit's fields are the given range and replacement.
pub open spec fn edit_is(r: Edit, x: (int, int, Seq<char>)) -> bool {
    r.start == x.0 && r.end == x.1 && r.replacement@ == x.2
}

/// Whether the bytes between two line-boundary positions are all whitespace characters.
pub(crate) fn blank_between(src: &str, a: usize, c: usize) -> (r: bool)
    requires
        a <= c <= src.spec_bytes().len(),
        a == 0 || src.spec_bytes()[a - 1] == 10,
        c == src.spec_bytes().len() || src.spec_bytes()[c - 1] == 10 || is_char_boundary(
            src.spec_bytes(),
            c as int,
        ),
    ensures
        r == all_ws(chars_between(src.spec_bytes(), a as int, c as int)),
{
    proof {
        let b = src.spec_bytes();
        encode_utf8_valid_utf8(src@);
        is_char_boundary_start_end_of_seq(b);
        if a > 0 {
            lemma_boundary_after_ascii(b, a as int);
        }
        if c > 0 && c < b.len() && b[c - 1] == 10 {
            lemma_boundary_after_ascii(b, c as int);
        }
    }
    let seg = substr(src, a, c);
    let cs = chars_of(seg);
    is_blank(&cs)
}

/// Edit that removes the block.
/// - own-line block with no code after: remove the whole lines including their line terminators.
/// - trailing comment (code before it): remove from the end of the code (trim trailing spaces) to
///   the end of the comment, keeping the line terminator.
/// - inline block comment with code after: remove just the span plus one adjacent space if both
///   neighbours are spaces.
pub fn delete_edit(src: &str, block: &CommentBlock) -> (r: Edit)
    requires
        delete_edit_ok(src.spec_bytes(), *block),
    ensures
        edit_is(r, spec_delete_edit(src.spec_bytes(), *block)),
{
    let bytes = src.as_bytes();
    let ghost b = bytes@;
    proof {
        encode_utf8_valid_utf8(src@);
        reveal_strlit(" ");
        assert(" "@ =~= seq![' ']);
    }
    if block.own_line && !block.code_after {
        let indent_len = block.indent.as_str().len();
        let mut start = block.start - indent_len;
        let last = if block.end > 0 { block.end - 1 } else { 0 };
        let last_pos = if last > block.start { last } else { block.start };
        let mut end = line_end_incl_terminator(src, last_pos);
        proof {
            lemma_line_end_incl_of(b, last_pos as int);
        }
        let hit_eof = end == bytes.len() && !(bytes.len() > 0 && bytes[bytes.len() - 1] == 10u8);
        if hit_eof {
            // No terminator on the last line; remove through EOF, and also strip the
            // terminator preceding our block so we don't leave a dangling blank line.
            if start > 0 {
                // start currently sits right after the previous line's terminator (or at 0).
                // Walk back over that terminator.
                if bytes[start - 1] == 10u8 {
                    let mut new_start = start - 1;
                    if new_start > 0 && bytes[new_start - 1] == 13u8 {
                        new_start -= 1;
                    }
                    start = new_start;
                }
            }
            end = bytes.len();
        } else {
            // Nice-to-have: collapse a blank line left after the block if both the line
            // before the block and the line after are blank.
            let before_blank = start == 0 || {
                let prev_line_start = line_start(src, start - 1);
                proof {
                    lemma_line_start_of(b, start - 1);
                }
                blank_between(src, prev_line_start, start)
            };
            if before_blank {
                let after_line_end = line_end_incl_terminator(src, end);
                proof {
                    lemma_line_end_incl_of(b, end as int);
                }
                if after_line_end > end && blank_between(src, end, after_line_end) {
                    end = after_line_end;
                }
            }
        }
        Edit { start, end, replacement: String::new() }
    } else if block.code_after {
        // Inline block comment with code after (e.g. `foo(/* x */ 1)`), or own-line block
        // comment with code after on the same line (e.g. `/* x */ let y;`). code_after can
        // only be true for Block comments, since a Line comment consumes to end of line.
        let start = block.start;
        let end = block.end;
        let byte_after_is_space = end < bytes.len() && bytes[end] == 32u8;
        let line_st = line_start(src, start);
        proof {
            lemma_line_start_of(b, start as int);
        }
        let byte_before_is_space = start > line_st && bytes[start - 1] == 32u8;
        let mut removed_end = end;
        if byte_after_is_space && (start == line_st || byte_before_is_space) {
            removed_end += 1;
        }
        // If neither side of the comment is whitespace, deleting it verbatim would glue the
        // surrounding tokens together (e.g. `return/* c */undefined` -> `returnundefined`).
        // Insert a single space to keep them separate.
        let left_glue = start > 0 && !is_ascii_ws(bytes[start - 1]);
        let right_glue = removed_end < bytes.len() && !is_ascii_ws(bytes[removed_end]);
        let replacement = if left_glue && right_glue { String::from_str(" ") } else { String::new() };
        Edit { start, end: removed_end, replacement }
    } else {
        // Trailing comment (code before, nothing after): walk back over spaces/tabs from
        // block.start to the end of the code, keep the line terminator.
        let mut start = block.start;
        while start > 0 && (bytes[start - 1] == 32u8 || bytes[start - 1] == 9u8)
            invariant
                start <= block.start <= bytes@.len(),
                back_over_blanks(bytes@, block.start as int) == back_over_blanks(bytes@, start as int),
            decreases start,
        {
            start -= 1;
        }
        Edit { start, end: block.end, replacement: String::new() }
    }
}

/// The text that replaces a reduced block: `{indent}{prefix} {summary}`, then the file's line
/// terminator when the block's last line had one.
pub open spec fn spec_reduce_text(
    b: Seq<u8>,
    blk: CommentBlock,
    lang: Language,
    summary: Seq<char>,
) -> Seq<char> {
    let e = own_line_end(b, blk);
    let eol = if e > 0 && b[e - 1] == 10 { spec_eol(b) } else { seq![] };
    blk.indent@ + spec_line_prefix(lang) + seq![' '] + summary + eol
}

/// Edit that replaces an own-line block with `{indent}{prefix} {summary}` plus the file's line
/// terminator (CRLF preserved).
pub fn reduce_edit(src: &str, block: &CommentBlock, lang: Language, summary: &str) -> (r: Edit)
    requires
        indent_len(*block) <= block.start,
        last_pos(*block) <= src.spec_bytes().len(),
    ensures
        r.start == own_line_start(*block),
        r.end == own_line_end(src.spec_bytes(), *block),
        r.replacement@ == spec_reduce_text(src.spec_bytes(), *block, lang, summary@),
{
    let bytes = src.as_bytes();
    let start = block.start - block.indent.as_str().len();
    let last = if block.end > 0 { block.end - 1 } else { 0 };
    let last_pos = if last > block.start { last } else { block.start };
    let end = line_end_incl_terminator(src, last_pos);
    proof {
        lemma_line_end_incl_of(bytes@, last_pos as int);
    }
    let had_terminator = end > 0 && bytes[end - 1] == 10u8;
    let eol = if had_terminator { eol_of(src) } else { "" };
    proof {
        reveal_strlit("");
        assert(""@ =~= Seq::<char>::empty());
    }
    let mut text: Vec<char> = Vec::new();
    push_all(&mut text, &chars_of(block.indent.as_str()));
    push_all(&mut text, &chars_of(lang.line_prefix()));
    text.push(' ');
    push_all(&mut text, &chars_of(summary));
    push_all(&mut text, &chars_of(eol));
    Edit { start, end, replacement: string_of(&text) }
}

/// `u8::is_ascii_whitespace`.
fn is_ascii_ws(x: u8) -> (r: bool)
    ensures
        r == is_ascii_ws_byte(x),
{
    x == 9u8 || x == 10u8 || x == 12u8 || x == 13u8 || x == 32u8
}

/// A comment block as parsing and grouping produce it: a non-empty range between character
/// boundaries, its indentation is the text from its line start to its start, `own_line` says
/// that indentation is all whitespace, and `code_after` says the rest of its last line is not.
pub open spec fn block_wf(b: Seq<u8>, blk: CommentBlock) -> bool {
    &&& blk.start < blk.end <= b.len()
    &&& is_char_boundary(b, blk.start as int)
    &&& is_char_boundary(b, blk.end as int)
    &&& blk.indent@ == chars_between(b, line_start_of(b, blk.start as int), blk.start as int)
    &&& blk.own_line == all_ws(blk.indent@)
    &&& blk.code_after == !all_ws(
        chars_between(b, blk.end as int, line_end_incl_of(b, blk.end as int)),
    )
}

/// Bytes `x..z` are all ASCII whitespace of the kinds deletion removes (tab, newline, carriage
/// return, space).
spec fn ascii_blank_bytes(b: Seq<u8>, x: int, z: int) -> bool {
    forall|k: int| x <= k < z ==> #[trigger] b[k] == 9 || b[k] == 10 || b[k] == 13 || b[k] == 32
}

proof fn lemma_ascii_blank_is_ws(b: Seq<u8>, x: int, z: int)
    requires
        0 <= x <= z <= b.len(),
        ascii_blank_bytes(b, x, z),
    ensures
        all_ws(chars_between(b, x, z)),
{
    let sub = b.subrange(x, z);
    assert forall|i: int| 0 <= i < sub.len() implies #[trigger] sub[i] < 0x80 by {
        assert(sub[i] == b[x + i]);
    }
    lemma_decode_ascii(sub);
    let d = chars_between(b, x, z);
    assert forall|i: int| 0 <= i < d.len() implies #[trigger] spec_is_ws(d[i]) by {
        assert(sub[i] == b[x + i]);
        assert(d[i] as u32 == sub[i] as u32);
    }
}

/// A line start (0 or just after `'\n'`) is a character boundary.
pub proof fn lemma_line_boundary(b: Seq<u8>, p: int)
    requires
        valid_utf8(b),
        0 <= p <= b.len(),
        p == 0 || p == b.len() || b[p - 1] == 10,
    ensures
        is_char_boundary(b, p),
{
    is_char_boundary_start_end_of_seq(b);
    if 0 < p < b.len() {
        lemma_boundary_after_ascii(b, p);
    }
}

proof fn lemma_back_over_blanks(b: Seq<u8>, pos: int)
    requires
        0 <= pos <= b.len(),
    ensures
        0 <= back_over_blanks(b, pos) <= pos,
        forall|k: int| back_over_blanks(b, pos) <= k < pos ==> #[trigger] b[k] == 32 || b[k] == 9,
    decreases pos,
{
    if pos > 0 && (b[pos - 1] == 32 || b[pos - 1] == 9) {
        lemma_back_over_blanks(b, pos - 1);
    }
}

/// Deleting a well-formed block never touches code: the removed range covers the block, every
/// other character it removes is whitespace, and what it puts back is whitespace. Such a block
/// also always meets what `delete_edit` asks of its input.
pub proof fn law_delete_edit_removes_only_comment_and_whitespace(b: Seq<u8>, blk: CommentBlock)
    requires
        valid_utf8(b),
        block_wf(b, blk),
    ensures
        delete_edit_ok(b, blk),
        ({
            let (s, e, r) = spec_delete_edit(b, blk);
            &&& 0 <= s <= blk.start
            &&& blk.end <= e <= b.len()
            &&& is_char_boundary(b, s)
            &&& is_char_boundary(b, e)
            &&& all_ws(chars_between(b, s, blk.start as int))
            &&& all_ws(chars_between(b, blk.end as int, e))
            &&& all_ws(r)
        }),
{
    let st = blk.start as int;
    let en = blk.end as int;
    let ls = line_start_of(b, st);
    lemma_line_start_of(b, st);
    lemma_line_boundary(b, ls);
    lemma_chars_between_bytes(b, ls, st);
    assert(indent_len(blk) == st - ls);
    let le = line_end_incl_of(b, en);
    lemma_line_end_incl_of(b, en);
    lemma_line_boundary(b, le);
    assert(chars_between(b, en, en) =~= Seq::<char>::empty());
    assert(chars_between(b, st, st) =~= Seq::<char>::empty());
    let (s, e, r) = spec_delete_edit(b, blk);
    if blk.own_line && !blk.code_after {
        assert(last_pos(blk) == en - 1);
        let e0 = own_line_end(b, blk);
        assert(e0 == if b[en - 1] == 10 { en } else { le });
        lemma_line_end_incl_of(b, en - 1);
        assert(all_ws(chars_between(b, en, e0)));
        lemma_line_boundary(b, e0);
        if unterminated_eof(b, e0) {
            assert(e0 == b.len());
            // the removed head is the previous line's terminator and the indentation
            if s < ls {
                assert(b[ls - 1] == 10);
                assert(ascii_blank_bytes(b, s, ls));
                lemma_boundary_at_ascii(b, s);
                lemma_ascii_blank_is_ws(b, s, ls);
                lemma_chars_between_split(b, s, ls, st);
                lemma_all_ws_concat(chars_between(b, s, ls), chars_between(b, ls, st));
            }
        } else if blank_before(b, ls) && blank_line_at(b, e0) {
            let e2 = line_end_incl_of(b, e0);
            lemma_line_end_incl_of(b, e0);
            lemma_line_boundary(b, e2);
            lemma_chars_between_split(b, en, e0, e2);
            lemma_all_ws_concat(chars_between(b, en, e0), chars_between(b, e0, e2));
        }
    } else if blk.code_after {
        let re = inline_removed_end(b, blk);
        if re > en {
            assert(ascii_blank_bytes(b, en, re));
            lemma_ascii_blank_is_ws(b, en, re);
            lemma_boundary_after_ascii(b, re);
        }
    } else {
        lemma_back_over_blanks(b, st);
        assert(ascii_blank_bytes(b, s, st));
        lemma_ascii_blank_is_ws(b, s, st);
        if s < st {
            lemma_boundary_at_ascii(b, s);
        }
    }
}

/// Reducing an own-line block replaces only its own lines: the range runs from the start of the
/// block's first line to the end of its last, and every other character in it is whitespace.
pub proof fn law_reduce_edit_replaces_only_the_block_lines(b: Seq<u8>, blk: CommentBlock)
    requires
        valid_utf8(b),
        block_wf(b, blk),
        blk.own_line,
        !blk.code_after,
    ensures
        indent_len(blk) <= blk.start,
        ({
            let s = own_line_start(blk);
            let e = own_line_end(b, blk);
            &&& 0 <= s <= blk.start
            &&& blk.end <= e <= b.len()
            &&& is_char_boundary(b, s)
            &&& is_char_boundary(b, e)
            &&& all_ws(chars_between(b, s, blk.start as int))
            &&& all_ws(chars_between(b, blk.end as int, e))
        }),
{
    let st = blk.start as int;
    let en = blk.end as int;
    let ls = line_start_of(b, st);
    lemma_line_start_of(b, st);
    lemma_line_boundary(b, ls);
    lemma_chars_between_bytes(b, ls, st);
    assert(indent_len(blk) == st - ls);
    let le = line_end_incl_of(b, en);
    lemma_line_end_incl_of(b, en);
    lemma_line_boundary(b, le);
    assert(chars_between(b, en, en) =~= Seq::<char>::empty());
    assert(last_pos(blk) == en - 1);
    let e0 = own_line_end(b, blk);
    assert(e0 == if b[en - 1] == 10 { en } else { le });
    lemma_line_end_incl_of(b, en - 1);
    lemma_line_boundary(b, e0);
}

/// Ranges that lie within the first `n` bytes, no two overlapping or starting at one byte.
pub open spec fn ranges_apart(n: int, es: Seq<Edit>) -> bool {
    &&& forall|i: int| 0 <= i < es.len() ==> #[trigger] es[i].start <= es[i].end <= n
    &&& forall|i: int, j: int|
        0 <= i < es.len() && 0 <= j < es.len() && i != j ==> {
            &&& #[trigger] es[i].start != #[trigger] es[j].start
            &&& (es[i].end <= es[j].start || es[j].end <= es[i].start)
        }
}

/// Some edit's range holds byte position `p`.
pub open spec fn covered(es: Seq<Edit>, p: int) -> bool {
    exists|i: int| 0 <= i < es.len() && #[trigger] es[i].start <= p && p < es[i].end
}

/// Some edit starts at byte position `p`.
pub open spec fn starts_at(es: Seq<Edit>, p: int) -> bool {
    exists|i: int| 0 <= i < es.len() && #[trigger] es[i].start == p
}

/// What the edit starting at `p` puts in, if one does.
pub open spec fn inserted_at(es: Seq<Edit>, p: int) -> Seq<u8> {
    if starts_at(es, p) {
        edit_bytes(es[choose|i: int| 0 <= i < es.len() && #[trigger] es[i].start == p])
    } else {
        seq![]
    }
}

/// The first `n` bytes of the source rebuilt position by position: at each byte, first what
/// an edit starting there puts in, then the byte itself unless an edit's range holds it.
pub open spec fn rebuilt(b: Seq<u8>, es: Seq<Edit>, n: int) -> Seq<u8>
    decreases n,
{
    if n <= 0 {
        seq![]
    } else {
        rebuilt(b, es, n - 1) + inserted_at(es, n - 1) + if covered(es, n - 1) {
            seq![]
        } else {
            seq![b[n - 1]]
        }
    }
}

/// Positions before `m` are judged alike by two edit lists, and two sources agree there.
proof fn lemma_rebuilt_agree(b: Seq<u8>, c: Seq<u8>, es: Seq<Edit>, fs: Seq<Edit>, m: int, n: int)
    requires
        0 <= n <= m,
        m <= b.len(),
        m <= c.len(),
        forall|p: int|
            0 <= p < m ==> b[p] == c[p] && covered(es, p) == covered(fs, p) && inserted_at(es, p)
                == inserted_at(fs, p),
    ensures
        rebuilt(b, es, n) == rebuilt(c, fs, n),
    decreases n,
{
    if n > 0 {
        lemma_rebuilt_agree(b, c, es, fs, m, n - 1);
    }
}

/// Positions in `lo..n` that are covered and where no edit starts add nothing.
proof fn lemma_rebuilt_skip(b: Seq<u8>, es: Seq<Edit>, lo: int, n: int)
    requires
        0 <= lo <= n,
        forall|p: int| lo <= p < n ==> covered(es, p) && !starts_at(es, p),
    ensures
        rebuilt(b, es, n) == rebuilt(b, es, lo),
    decreases n,
{
    if n > lo {
        lemma_rebuilt_skip(b, es, lo, n - 1);
        assert(rebuilt(b, es, n) =~= rebuilt(b, es, n - 1));
    }
}

/// Positions in `lo..n` that no range holds and where no edit starts come through as they are.
proof fn lemma_rebuilt_keep(b: Seq<u8>, es: Seq<Edit>, lo: int, n: int)
    requires
        0 <= lo <= n <= b.len(),
        forall|p: int| lo <= p < n ==> !covered(es, p) && !starts_at(es, p),
    ensures
        rebuilt(b, es, n) == rebuilt(b, es, lo) + b.subrange(lo, n),
    decreases n,
{
    if n > lo {
        lemma_rebuilt_keep(b, es, lo, n - 1);
        assert(b.subrange(lo, n) =~= b.subrange(lo, n - 1).push(b[n - 1]));
        assert(rebuilt(b, es, n) =~= rebuilt(b, es, n - 1) + seq![b[n - 1]]);
    } else {
        assert(b.subrange(lo, n) =~= Seq::<u8>::empty());
    }
}

/// The edit that starts at a position is the one the position names.
proof fn lemma_inserted_at(es: Seq<Edit>, k: int)
    requires
        starts_distinct(es),
        0 <= k < es.len(),
    ensures
        starts_at(es, es[k].start as int),
        inserted_at(es, es[k].start as int) == edit_bytes(es[k]),
{
    let p = es[k].start as int;
    assert(es[k].start == p);
    let i = choose|i: int| 0 <= i < es.len() && #[trigger] es[i].start == p;
    if i != k {
        assert(es[i].start != es[k].start);
    }
}

/// Taking the last edit out: the rest lie before its start, none starts there, and before it
/// the rest judge every position as the whole list does.
proof fn lemma_rebuilt_rest(b: Seq<u8>, es: Seq<Edit>, k: int)
    requires
        ranges_apart(b.len() as int, es),
        is_last_edit(es, k),
    ensures
        ({
            let sk = es[k].start as int;
            let rest = es.remove(k);
            &&& forall|j: int| 0 <= j < es.len() && j != k ==> #[trigger] es[j].end <= sk
                && es[j].start < sk
            &&& ranges_apart(sk, rest)
            &&& !starts_at(rest, sk)
            &&& forall|p: int|
                0 <= p < sk ==> covered(rest, p) == covered(es, p) && inserted_at(rest, p)
                    == inserted_at(es, p)
        }),
{
    let sk = es[k].start as int;
    let rest = es.remove(k);
    assert forall|j: int| 0 <= j < es.len() && j != k implies #[trigger] es[j].end <= sk
        && es[j].start < sk by {
        assert(es[j].start != es[k].start);
    }
    assert forall|i: int| 0 <= i < rest.len() implies #[trigger] rest[i] == es[if i < k {
        i
    } else {
        i + 1
    }] by {}
    assert(ranges_apart(sk, rest)) by {
        assert forall|i: int| 0 <= i < rest.len() implies #[trigger] rest[i].start
            <= rest[i].end <= sk by {
            let i2 = if i < k { i } else { i + 1 };
            assert(rest[i] == es[i2]);
        }
        assert forall|i: int, j: int|
            0 <= i < rest.len() && 0 <= j < rest.len() && i != j implies {
            &&& #[trigger] rest[i].start != #[trigger] rest[j].start
            &&& (rest[i].end <= rest[j].start || rest[j].end <= rest[i].start)
        } by {
            let i2 = if i < k { i } else { i + 1 };
            let j2 = if j < k { j } else { j + 1 };
            assert(rest[i] == es[i2]);
            assert(rest[j] == es[j2]);
        }
    }
    assert(!starts_at(rest, sk)) by {
        if starts_at(rest, sk) {
            let i = choose|i: int| 0 <= i < rest.len() && #[trigger] rest[i].start == sk;
            let i2 = if i < k { i } else { i + 1 };
            assert(rest[i] == es[i2]);
        }
    }
    assert(starts_distinct(es));
    lemma_starts_distinct_remove(es, k);
    assert forall|p: int| 0 <= p < sk implies covered(rest, p) == covered(es, p) && inserted_at(
        rest,
        p,
    ) == inserted_at(es, p) by {
        if covered(es, p) {
            let i = choose|i: int| 0 <= i < es.len() && #[trigger] es[i].start <= p && p < es[i].end;
            assert(i != k);
            let i3 = if i < k { i } else { i - 1 };
            assert(rest[i3] == es[i]);
        }
        if covered(rest, p) {
            let i = choose|i: int| 0 <= i < rest.len() && #[trigger] rest[i].start <= p && p < rest[i].end;
            let i2 = if i < k { i } else { i + 1 };
            assert(rest[i] == es[i2]);
        }
        if starts_at(es, p) {
            let i = choose|i: int| 0 <= i < es.len() && #[trigger] es[i].start == p;
            assert(i != k);
            let i3 = if i < k { i } else { i - 1 };
            assert(rest[i3] == es[i]);
            lemma_inserted_at(es, i);
            lemma_inserted_at(rest, i3);
        }
        if starts_at(rest, p) {
            let i = choose|i: int| 0 <= i < rest.len() && #[trigger] rest[i].start == p;
            let i2 = if i < k { i } else { i + 1 };
            assert(rest[i] == es[i2]);
            assert(starts_at(es, p));
        }
    }
}

/// From the last edit's start on, the rebuilt source is its replacement and then the bytes
/// after its range.
proof fn lemma_rebuilt_tail(b: Seq<u8>, es: Seq<Edit>, k: int)
    requires
        ranges_apart(b.len() as int, es),
        is_last_edit(es, k),
        forall|j: int| 0 <= j < es.len() && j != k ==> #[trigger] es[j].end <= es[k].start
            && es[j].start < es[k].start,
    ensures
        rebuilt(b, es, b.len() as int) + inserted_at(es, b.len() as int) == rebuilt(
            b,
            es,
            es[k].start as int,
        ) + edit_bytes(es[k]) + b.skip(es[k].end as int),
{
    let sk = es[k].start as int;
    let ek = es[k].end as int;
    let n = b.len() as int;
    assert(starts_distinct(es));
    lemma_inserted_at(es, k);
    assert forall|p: int| sk < p <= n implies !starts_at(es, p) by {
        if starts_at(es, p) {
            let i = choose|i: int| 0 <= i < es.len() && #[trigger] es[i].start == p;
            if i != k {
                assert(es[i].start < sk);
            }
        }
    }
    assert forall|p: int| ek <= p < n implies !covered(es, p) by {
        if covered(es, p) {
            let i = choose|i: int| 0 <= i < es.len() && #[trigger] es[i].start <= p && p < es[i].end;
            if i != k {
                assert(es[i].end <= sk);
            }
        }
    }
    assert forall|p: int| sk <= p < ek implies covered(es, p) by {
        assert(es[k].start <= p && p < es[k].end);
    }
    assert(b.skip(ek) =~= b.subrange(ek, n));
    if sk == n {
        assert(b.skip(ek) =~= Seq::<u8>::empty());
    } else {
        let first = rebuilt(b, es, sk + 1);
        if sk < ek {
            assert(first =~= rebuilt(b, es, sk) + edit_bytes(es[k]));
            lemma_rebuilt_skip(b, es, sk + 1, ek);
            lemma_rebuilt_keep(b, es, ek, n);
        } else {
            assert(first =~= rebuilt(b, es, sk) + edit_bytes(es[k]) + b.subrange(ek, sk + 1));
            lemma_rebuilt_keep(b, es, sk + 1, n);
            assert(b.subrange(ek, sk + 1) + b.subrange(sk + 1, n) =~= b.subrange(ek, n));
        }
        assert(inserted_at(es, n) =~= Seq::<u8>::empty());
    }
}

proof fn lemma_apply_rebuilt(b: Seq<u8>, es: Seq<Edit>)
    requires
        ranges_apart(b.len() as int, es),
    ensures
        spec_apply(b, es) == rebuilt(b, es, b.len() as int) + inserted_at(es, b.len() as int),
    decreases es.len(),
{
    if es.len() == 0 {
        lemma_rebuilt_keep(b, es, 0, b.len() as int);
        assert(b.subrange(0, b.len() as int) =~= b);
        assert(!starts_at(es, b.len() as int));
        assert(inserted_at(es, b.len() as int) =~= Seq::<u8>::empty());
    } else {
        lemma_last_edit_exists(es);
        let k = choose|k: int| is_last_edit(es, k);
        let sk = es[k].start as int;
        let rest = es.remove(k);
        let pre = b.take(sk);
        lemma_rebuilt_rest(b, es, k);
        lemma_apply_rebuilt(pre, rest);
        assert(inserted_at(rest, sk) =~= Seq::<u8>::empty());
        lemma_rebuilt_agree(pre, b, rest, es, sk, sk);
        lemma_rebuilt_tail(b, es, k);
    }
}

/// Applying edits keeps every byte their ranges do not hold, in order: the result is the
/// source rebuilt byte by byte, each edit's replacement put in where its range starts and the
/// bytes its range holds left out.
pub proof fn law_apply_keeps_every_other_byte(b: Seq<u8>, es: Seq<Edit>)
    requires
        edits_ok(b, es),
        starts_distinct(es),
    ensures
        spec_apply(b, es) == rebuilt(b, es, b.len() as int) + inserted_at(es, b.len() as int),
{
    assert forall|i: int, j: int|
        0 <= i < es.len() && 0 <= j < es.len() && i != j implies {
        &&& #[trigger] es[i].start != #[trigger] es[j].start
        &&& (es[i].end <= es[j].start || es[j].end <= es[i].start)
    } by {
        assert(es[i].end <= es[j].start || es[j].end <= es[i].start);
    }
    lemma_apply_rebuilt(b, es);
}

} // verus!
