//! Which tracked files the tool works on, decided from what `git ls-files -z` and
//! `git check-ignore -z` print. Running git lives with the caller.
use vstd::prelude::*;
use crate::llm::string_views;
use crate::text::{chars_of, push_all, same_chars, string_of, view_lines};
use crate::types::{Language, spec_language_of_path, split_chars, split_on};

verus! {

broadcast use vstd::seq::group_seq_axioms;

/// The non-empty pieces of a list, in order.
pub open spec fn non_empty(ls: Seq<Seq<char>>) -> Seq<Seq<char>>
    decreases ls.len(),
{
    if ls.len() == 0 {
        seq![]
    } else if ls.last().len() == 0 {
        non_empty(ls.drop_last())
    } else {
        non_empty(ls.drop_last()).push(ls.last())
    }
}

/// The entries of a NUL-separated listing.
pub open spec fn nul_entries(s: Seq<char>) -> Seq<Seq<char>> {
    non_empty(split_on(s, '\0'))
}

/// The entries of a NUL-separated listing, empty ones dropped.
pub fn split_nul(s: &str) -> (r: Vec<String>)
    ensures
        string_views(r@) == nul_entries(s@),
{
    let parts = split_chars(&chars_of(s), '\0');
    let ghost pv = view_lines(parts@);
    let mut out: Vec<String> = Vec::new();
    let mut i: usize = 0;
    while i < parts.len()
        invariant
            0 <= i <= parts@.len(),
            pv == view_lines(parts@),
            pv == split_on(s@, '\0'),
            string_views(out@) == non_empty(pv.take(i as int)),
        decreases parts@.len() - i,
    {
        assert(pv.take(i + 1).drop_last() =~= pv.take(i as int));
        assert(pv.take(i + 1).last() == parts@[i as int]@);
        if parts[i].len() > 0 {
            let ghost before = out@;
            out.push(string_of(&parts[i]));
            assert(string_views(out@) =~= string_views(before).push(parts@[i as int]@));
        }
        i += 1;
    }
    assert(pv.take(parts@.len() as int) =~= pv);
    out
}

/// What `git check-ignore` reports: exit status 0 (some matched) or 1 (none did) give the
/// matched paths; any other status, or none, is a failure.
pub open spec fn spec_ignored(code: Option<i32>, stdout: Seq<char>) -> Option<Seq<Seq<char>>> {
    match code {
        Some(c) if c == 0 || c == 1 => Some(nul_entries(stdout)),
        _ => None,
    }
}

/// The paths `git check-ignore --stdin -z` matched, read from its exit status and output.
/// `None` when git failed.
pub fn ignored_entries(code: Option<i32>, stdout: &str) -> (r: Option<Vec<String>>)
    ensures
        match spec_ignored(code, stdout@) {
            Some(ps) => r matches Some(v) && string_views(v@) == ps,
            None => r is None,
        },
{
    match code {
        Some(c) => {
            if c == 0 || c == 1 {
                Some(split_nul(stdout))
            } else {
                None
            }
        },
        None => None,
    }
}

/// The contents of a one-off excludes file: each pattern on a line of its own.
pub open spec fn pattern_lines(ps: Seq<Seq<char>>) -> Seq<char>
    decreases ps.len(),
{
    if ps.len() == 0 {
        seq![]
    } else {
        pattern_lines(ps.drop_last()) + ps.last() + seq!['\n']
    }
}

/// The excludes-file text for the extra ignore patterns.
pub fn ignore_file_text(patterns: &Vec<String>) -> (r: String)
    ensures
        r@ == pattern_lines(string_views(patterns@)),
{
    let ghost pv = string_views(patterns@);
    let mut out: Vec<char> = Vec::new();
    let mut i: usize = 0;
    while i < patterns.len()
        invariant
            0 <= i <= patterns@.len(),
            pv == string_views(patterns@),
            out@ == pattern_lines(pv.take(i as int)),
        decreases patterns@.len() - i,
    {
        assert(pv.take(i + 1).drop_last() =~= pv.take(i as int));
        assert(pv.take(i + 1).last() == patterns@[i as int]@);
        push_all(&mut out, &chars_of(patterns[i].as_str()));
        out.push('\n');
        i += 1;
    }
    assert(pv.take(patterns@.len() as int) =~= pv);
    string_of(&out)
}

/// The tracked paths that are not ignored and whose extension names a supported language, in
/// listing order, with their language.
pub open spec fn spec_select(rels: Seq<Seq<char>>, ignored: Seq<Seq<char>>) -> Seq<(Seq<char>, Language)>
    decreases rels.len(),
{
    if rels.len() == 0 {
        seq![]
    } else {
        let rest = spec_select(rels.drop_last(), ignored);
        let p = rels.last();
        if ignored.contains(p) {
            rest
        } else {
            match spec_language_of_path(p) {
                Some(l) => rest.push((p, l)),
                None => rest,
            }
        }
    }
}

/// The views of selected paths.
pub open spec fn source_views(v: Seq<(String, Language)>) -> Seq<(Seq<char>, Language)> {
    v.map_values(|e: (String, Language)| (e.0@, e.1))
}

fn listed(ignored: &Vec<String>, p: &[char]) -> (r: bool)
    ensures
        r == string_views(ignored@).contains(p@),
{
    let ghost iv = string_views(ignored@);
    let mut i: usize = 0;
    while i < ignored.len()
        invariant
            0 <= i <= ignored@.len(),
            iv == string_views(ignored@),
            forall|k: int| 0 <= k < i ==> iv[k] != p@,
        decreases ignored@.len() - i,
    {
        if same_chars(&chars_of(ignored[i].as_str()), p) {
            assert(iv[i as int] == p@);
            return true;
        }
        i += 1;
    }
    false
}

/// The files to work on, from the `git ls-files -z` listing (paths relative to the directory it
/// ran in) and the paths `git check-ignore` matched.
pub fn select_sources(listing: &str, ignored: &Vec<String>) -> (r: Vec<(String, Language)>)
    ensures
        source_views(r@) == spec_select(nul_entries(listing@), string_views(ignored@)),
{
    let rels = split_nul(listing);
    let ghost rv = string_views(rels@);
    let ghost iv = string_views(ignored@);
    let mut out: Vec<(String, Language)> = Vec::new();
    let mut i: usize = 0;
    while i < rels.len()
        invariant
            0 <= i <= rels@.len(),
            rv == string_views(rels@),
            rv == nul_entries(listing@),
            iv == string_views(ignored@),
            source_views(out@) == spec_select(rv.take(i as int), iv),
        decreases rels@.len() - i,
    {
        assert(rv.take(i + 1).drop_last() =~= rv.take(i as int));
        assert(rv.take(i + 1).last() == rels@[i as int]@);
        let p = chars_of(rels[i].as_str());
        if !listed(ignored, &p) {
            match Language::from_path(rels[i].as_str()) {
                Some(l) => {
                    let ghost before = out@;
                    out.push((string_of(&p), l));
                    assert(source_views(out@) =~= source_views(before).push((p@, l)));
                },
                None => {},
            }
        }
        i += 1;
    }
    assert(rv.take(rels@.len() as int) =~= rv);
    out
}

} // verus!
