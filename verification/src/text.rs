//! Character-level helpers over `Seq<char>`: Unicode whitespace, trimming, prefix/suffix and
//! substring tests, line splitting, word splitting and joining, with executable versions proved
//! against their specifications.
use vstd::prelude::*;

verus! {

/// The Unicode `White_Space` property, which `char::is_whitespace` and `str::trim` use.
pub open spec fn spec_is_ws(c: char) -> bool {
    let u = c as u32;
    ||| (9 <= u && u <= 13)
    ||| u == 32
    ||| u == 0x85
    ||| u == 0xa0
    ||| u == 0x1680
    ||| (0x2000 <= u && u <= 0x200a)
    ||| u == 0x2028
    ||| u == 0x2029
    ||| u == 0x202f
    ||| u == 0x205f
    ||| u == 0x3000
}

pub fn is_ws(c: char) -> (r: bool)
    ensures
        r == spec_is_ws(c),
{
    let u = c as u32;
    (9 <= u && u <= 13) || u == 32 || u == 0x85 || u == 0xa0 || u == 0x1680 || (0x2000 <= u && u
        <= 0x200a) || u == 0x2028 || u == 0x2029 || u == 0x202f || u == 0x205f || u == 0x3000
}

/// Whitespace runs concatenate to whitespace.
pub proof fn lemma_all_ws_concat(x: Seq<char>, y: Seq<char>)
    requires
        all_ws(x),
        all_ws(y),
    ensures
        all_ws(x + y),
{
    assert forall|i: int| 0 <= i < (x + y).len() implies #[trigger] spec_is_ws((x + y)[i]) by {
        if i < x.len() {
            assert((x + y)[i] == x[i]);
        } else {
            assert((x + y)[i] == y[i - x.len()]);
        }
    }
}

/// Every character of `s` is whitespace (vacuously true of the empty sequence).
pub open spec fn all_ws(s: Seq<char>) -> bool {
    forall|i: int| 0 <= i < s.len() ==> #[trigger] spec_is_ws(s[i])
}

/// Number of leading whitespace characters.
pub open spec fn ws_prefix_len(s: Seq<char>) -> nat
    decreases s.len(),
{
    if s.len() > 0 && spec_is_ws(s[0]) {
        1 + ws_prefix_len(s.drop_first())
    } else {
        0
    }
}

/// Number of trailing whitespace characters.
pub open spec fn ws_suffix_len(s: Seq<char>) -> nat
    decreases s.len(),
{
    if s.len() > 0 && spec_is_ws(s.last()) {
        1 + ws_suffix_len(s.drop_last())
    } else {
        0
    }
}

/// `str::trim_start`.
pub open spec fn trim_start(s: Seq<char>) -> Seq<char> {
    s.skip(ws_prefix_len(s) as int)
}

/// `str::trim_end`.
pub open spec fn trim_end(s: Seq<char>) -> Seq<char> {
    s.take(s.len() - ws_suffix_len(s))
}

/// `str::trim`.
pub open spec fn trim(s: Seq<char>) -> Seq<char> {
    trim_end(trim_start(s))
}

pub proof fn lemma_ws_prefix_len_bound(s: Seq<char>)
    ensures
        ws_prefix_len(s) <= s.len(),
        forall|k: int| 0 <= k < ws_prefix_len(s) ==> #[trigger] spec_is_ws(s[k]),
        ws_prefix_len(s) < s.len() ==> !spec_is_ws(s[ws_prefix_len(s) as int]),
    decreases s.len(),
{
    if s.len() > 0 && spec_is_ws(s[0]) {
        lemma_ws_prefix_len_bound(s.drop_first());
        assert forall|k: int| 0 <= k < ws_prefix_len(s) implies #[trigger] spec_is_ws(s[k]) by {
            if k > 0 {
                assert(s[k] == s.drop_first()[k - 1]);
            }
        }
    }
}

/// `ws_prefix_len` is the first non-whitespace index.
pub proof fn lemma_ws_prefix_len_char(s: Seq<char>, j: int)
    requires
        0 <= j <= s.len(),
        forall|k: int| 0 <= k < j ==> #[trigger] spec_is_ws(s[k]),
        j == s.len() || !spec_is_ws(s[j]),
    ensures
        ws_prefix_len(s) == j,
    decreases j,
{
    if j > 0 {
        assert(spec_is_ws(s[0]));
        let t = s.drop_first();
        assert forall|k: int| 0 <= k < j - 1 implies #[trigger] spec_is_ws(t[k]) by {
            assert(t[k] == s[k + 1]);
        }
        if j < s.len() {
            assert(t[j - 1] == s[j]);
        }
        lemma_ws_prefix_len_char(t, j - 1);
    }
}

pub proof fn lemma_ws_suffix_len_bound(s: Seq<char>)
    ensures
        ws_suffix_len(s) <= s.len(),
        forall|k: int| s.len() - ws_suffix_len(s) <= k < s.len() ==> #[trigger] spec_is_ws(s[k]),
        ws_suffix_len(s) < s.len() ==> !spec_is_ws(s[s.len() - ws_suffix_len(s) - 1]),
    decreases s.len(),
{
    if s.len() > 0 && spec_is_ws(s.last()) {
        lemma_ws_suffix_len_bound(s.drop_last());
        assert forall|k: int|
            s.len() - ws_suffix_len(s) <= k < s.len() implies #[trigger] spec_is_ws(s[k]) by {
            if k < s.len() - 1 {
                assert(s[k] == s.drop_last()[k]);
            }
        }
        if ws_suffix_len(s) < s.len() {
            assert(s[s.len() - ws_suffix_len(s) - 1] == s.drop_last()[s.len()
                - ws_suffix_len(s) - 1]);
        }
    }
}

/// `ws_suffix_len` is the length of the trailing whitespace run.
pub proof fn lemma_ws_suffix_len_char(s: Seq<char>, j: int)
    requires
        0 <= j <= s.len(),
        forall|k: int| j <= k < s.len() ==> #[trigger] spec_is_ws(s[k]),
        j == 0 || !spec_is_ws(s[j - 1]),
    ensures
        ws_suffix_len(s) == s.len() - j,
    decreases s.len() - j,
{
    if j < s.len() {
        assert(spec_is_ws(s.last()));
        let t = s.drop_last();
        assert forall|k: int| j <= k < t.len() implies #[trigger] spec_is_ws(t[k]) by {
            assert(t[k] == s[k]);
        }
        if j > 0 {
            assert(t[j - 1] == s[j - 1]);
        }
        lemma_ws_suffix_len_char(t, j);
    }
}

/// A trimmed sequence is empty exactly when the whole sequence is whitespace.
pub proof fn lemma_trim_empty(s: Seq<char>)
    ensures
        (trim(s).len() == 0) == all_ws(s),
        trim_start(s).len() == 0 <==> all_ws(s),
{
    lemma_ws_prefix_len_bound(s);
    let t = trim_start(s);
    lemma_ws_suffix_len_bound(t);
    if all_ws(s) {
        lemma_ws_prefix_len_char(s, s.len() as int);
    }
    if t.len() > 0 {
        assert(t[0] == s[ws_prefix_len(s) as int]);
        assert(!spec_is_ws(t[0]));
        lemma_ws_suffix_len_bound(t);
        if ws_suffix_len(t) == t.len() {
            assert(spec_is_ws(t[0]));
        }
    }
}

/// Copy of `s[lo..hi]`.
pub fn copy_range(s: &[char], lo: usize, hi: usize) -> (r: Vec<char>)
    requires
        lo <= hi <= s@.len(),
    ensures
        r@ == s@.subrange(lo as int, hi as int),
{
    let mut r: Vec<char> = Vec::new();
    let mut i: usize = lo;
    while i < hi
        invariant
            lo <= i <= hi <= s@.len(),
            r@ == s@.subrange(lo as int, i as int),
        decreases hi - i,
    {
        r.push(s[i]);
        i += 1;
    }
    r
}

/// Appends every character of `s` to `out`.
pub fn push_all(out: &mut Vec<char>, s: &[char])
    ensures
        final(out)@ == old(out)@ + s@,
{
    let mut i: usize = 0;
    while i < s.len()
        invariant
            0 <= i <= s@.len(),
            out@ == old(out)@ + s@.take(i as int),
        decreases s@.len() - i,
    {
        out.push(s[i]);
        i += 1;
        assert(s@.take(i as int) == s@.take(i - 1).push(s@[i - 1]));
    }
    assert(s@.take(s@.len() as int) == s@);
}

/// Index of the first non-whitespace character (or the length).
pub fn first_non_ws(s: &[char]) -> (r: usize)
    ensures
        r == ws_prefix_len(s@),
{
    let mut i: usize = 0;
    while i < s.len() && is_ws(s[i])
        invariant
            0 <= i <= s@.len(),
            forall|k: int| 0 <= k < i ==> #[trigger] spec_is_ws(s@[k]),
        decreases s@.len() - i,
    {
        i += 1;
    }
    proof {
        lemma_ws_prefix_len_char(s@, i as int);
    }
    i
}

/// End of `s` once trailing whitespace is dropped.
pub fn end_non_ws(s: &[char]) -> (r: usize)
    ensures
        r == s@.len() - ws_suffix_len(s@),
{
    let mut j: usize = s.len();
    while j > 0 && is_ws(s[j - 1])
        invariant
            0 <= j <= s@.len(),
            forall|k: int| j <= k < s@.len() ==> #[trigger] spec_is_ws(s@[k]),
        decreases j,
    {
        j -= 1;
    }
    proof {
        lemma_ws_suffix_len_char(s@, j as int);
    }
    j
}

pub fn trim_start_chars(s: &[char]) -> (r: Vec<char>)
    ensures
        r@ == trim_start(s@),
{
    let lo: usize = first_non_ws(s);
    proof {
        lemma_ws_prefix_len_bound(s@);
    }
    copy_range(s, lo, s.len())
}

pub fn trim_end_chars(s: &[char]) -> (r: Vec<char>)
    ensures
        r@ == trim_end(s@),
{
    proof {
        lemma_ws_suffix_len_bound(s@);
    }
    let hi: usize = end_non_ws(s);
    copy_range(s, 0, hi)
}

pub fn trim_chars(s: &[char]) -> (r: Vec<char>)
    ensures
        r@ == trim(s@),
{
    let t = trim_start_chars(s);
    trim_end_chars(&t)
}

/// Whether every character of `s` is whitespace (`s.trim().is_empty()`).
pub fn is_blank(s: &[char]) -> (r: bool)
    ensures
        r == all_ws(s@),
        r == (trim(s@).len() == 0),
{
    proof {
        lemma_trim_empty(s@);
        lemma_ws_prefix_len_bound(s@);
    }
    let i: usize = first_non_ws(s);
    if i == s.len() {
        proof {
            lemma_ws_prefix_len_char(s@, i as int);
        }
        true
    } else {
        false
    }
}

/// The characters of `s`, in order.
pub fn chars_of(s: &str) -> (v: Vec<char>)
    ensures
        v@ == s@,
{
    let mut v: Vec<char> = Vec::new();
    for c in it: s.chars()
        invariant
            v@ == it.seq().take(it.index() as int),
            it.seq() == s@,
    {
        v.push(c);
    }
    v
}

/// Builds a `String` from a slice of characters through std's `FromIterator<&char> for String`.
/// Trusted: the resulting string holds exactly those characters, in order.
#[verifier::external_body]
pub(crate) fn string_of(v: &[char]) -> (s: String)
    ensures
        s@ == v@,
{
    v.iter().collect()
}

/// `p` is a prefix of `s`.
pub open spec fn has_prefix(s: Seq<char>, p: Seq<char>) -> bool {
    p.len() <= s.len() && s.take(p.len() as int) == p
}

/// `p` is a suffix of `s`.
pub open spec fn has_suffix(s: Seq<char>, p: Seq<char>) -> bool {
    p.len() <= s.len() && s.skip(s.len() - p.len()) == p
}

/// `p` occurs in `s` starting at index `i`.
pub open spec fn occurs_at(s: Seq<char>, p: Seq<char>, i: int) -> bool {
    0 <= i && i + p.len() <= s.len() && s.subrange(i, i + p.len()) == p
}

/// `p` occurs somewhere in `s` (`str::contains`).
pub open spec fn has_infix(s: Seq<char>, p: Seq<char>) -> bool {
    exists|i: int| occurs_at(s, p, i)
}

pub fn occurs_at_exec(s: &[char], p: &[char], i: usize) -> (r: bool)
    ensures
        r == occurs_at(s@, p@, i as int),
{
    if i > s.len() || p.len() > s.len() - i {
        return false;
    }
    let mut k: usize = 0;
    while k < p.len()
        invariant
            i + p@.len() <= s@.len(),
            s@.len() <= usize::MAX,
            0 <= k <= p@.len(),
            forall|j: int| 0 <= j < k ==> s@[i + j] == p@[j],
        decreases p@.len() - k,
    {
        if s[i + k] != p[k] {
            proof {
                assert(s@.subrange(i as int, i + p@.len())[k as int] != p@[k as int]);
            }
            return false;
        }
        k += 1;
    }
    assert(s@.subrange(i as int, i + p@.len()) =~= p@);
    true
}

pub fn starts_with(s: &[char], p: &[char]) -> (r: bool)
    ensures
        r == has_prefix(s@, p@),
{
    let r = occurs_at_exec(s, p, 0);
    proof {
        if p@.len() <= s@.len() {
            assert(s@.subrange(0, p@.len() as int) == s@.take(p@.len() as int));
        }
    }
    r
}

/// Character-for-character equality.
pub fn same_chars(a: &[char], b: &[char]) -> (r: bool)
    ensures
        r == (a@ == b@),
{
    if a.len() != b.len() {
        return false;
    }
    let r = starts_with(a, b);
    assert(a@.take(b@.len() as int) =~= a@);
    r
}

pub fn ends_with(s: &[char], p: &[char]) -> (r: bool)
    ensures
        r == has_suffix(s@, p@),
{
    if p.len() > s.len() {
        return false;
    }
    let r = occurs_at_exec(s, p, s.len() - p.len());
    proof {
        assert(s@.subrange(s@.len() - p@.len(), s@.len() as int) == s@.skip(s@.len() - p@.len()));
    }
    r
}

pub fn contains(s: &[char], p: &[char]) -> (r: bool)
    ensures
        r == has_infix(s@, p@),
{
    if p.len() > s.len() {
        return false;
    }
    let mut i: usize = 0;
    while i <= s.len() - p.len()
        invariant
            p@.len() <= s@.len(),
            0 <= i <= s@.len() - p@.len() + 1,
            forall|j: int| 0 <= j < i ==> !occurs_at(s@, p@, j),
        decreases s@.len() - p@.len() + 1 - i,
    {
        if occurs_at_exec(s, p, i) {
            return true;
        }
        if i == s.len() - p.len() {
            return false;
        }
        i += 1;
    }
    false
}

/// Whether the character `c` occurs in `s`.
pub fn has_char(s: &[char], c: char) -> (r: bool)
    ensures
        r == s@.contains(c),
{
    let mut i: usize = 0;
    while i < s.len()
        invariant
            0 <= i <= s@.len(),
            forall|j: int| 0 <= j < i ==> s@[j] != c,
        decreases s@.len() - i,
    {
        if s[i] == c {
            return true;
        }
        i += 1;
    }
    false
}

/// Left-to-right scan that `str::lines` performs: lines finished so far, and the current one.
pub open spec fn lines_scan(s: Seq<char>) -> (Seq<Seq<char>>, Seq<char>)
    decreases s.len(),
{
    if s.len() == 0 {
        (seq![], seq![])
    } else {
        let (done, cur) = lines_scan(s.drop_last());
        if s.last() == '\n' {
            (done.push(strip_cr(cur)), seq![])
        } else {
            (done, cur.push(s.last()))
        }
    }
}

/// Drops one trailing `'\r'`.
pub open spec fn strip_cr(l: Seq<char>) -> Seq<char> {
    if l.len() > 0 && l.last() == '\r' {
        l.drop_last()
    } else {
        l
    }
}

/// `str::lines`: split at `'\n'`, drop a `'\r'` before each `'\n'`, no final empty line.
pub open spec fn spec_lines(s: Seq<char>) -> Seq<Seq<char>> {
    let (done, cur) = lines_scan(s);
    if cur.len() > 0 {
        done.push(cur)
    } else {
        done
    }
}

pub open spec fn view_lines(v: Seq<Vec<char>>) -> Seq<Seq<char>> {
    v.map_values(|l: Vec<char>| l@)
}

pub fn lines(s: &[char]) -> (r: Vec<Vec<char>>)
    ensures
        view_lines(r@) == spec_lines(s@),
{
    let mut done: Vec<Vec<char>> = Vec::new();
    let mut cur: Vec<char> = Vec::new();
    let mut i: usize = 0;
    while i < s.len()
        invariant
            0 <= i <= s@.len(),
            (view_lines(done@), cur@) == lines_scan(s@.take(i as int)),
        decreases s@.len() - i,
    {
        assert(s@.take(i + 1).drop_last() == s@.take(i as int));
        let c = s[i];
        if c == '\n' {
            let mut l = cur;
            if l.len() > 0 && l[l.len() - 1] == '\r' {
                l.pop();
            }
            let ghost before = done@;
            done.push(l);
            cur = Vec::new();
            assert(view_lines(done@) =~= view_lines(before).push(l@));
        } else {
            cur.push(c);
        }
        i += 1;
    }
    assert(s@.take(s@.len() as int) == s@);
    if cur.len() > 0 {
        done.push(cur);
    }
    proof {
        let (d, c) = lines_scan(s@);
        if c.len() > 0 {
            assert(view_lines(done@) =~= d.push(c));
        }
    }
    done
}

/// Left-to-right scan that `str::split_whitespace` performs: words finished so far, and the
/// current one.
pub open spec fn words_scan(s: Seq<char>) -> (Seq<Seq<char>>, Seq<char>)
    decreases s.len(),
{
    if s.len() == 0 {
        (seq![], seq![])
    } else {
        let (done, cur) = words_scan(s.drop_last());
        if spec_is_ws(s.last()) {
            if cur.len() > 0 {
                (done.push(cur), seq![])
            } else {
                (done, seq![])
            }
        } else {
            (done, cur.push(s.last()))
        }
    }
}

/// `str::split_whitespace`: the maximal runs of non-whitespace characters.
pub open spec fn words(s: Seq<char>) -> Seq<Seq<char>> {
    let (done, cur) = words_scan(s);
    if cur.len() > 0 {
        done.push(cur)
    } else {
        done
    }
}

pub fn split_ws(s: &[char]) -> (r: Vec<Vec<char>>)
    ensures
        view_lines(r@) == words(s@),
{
    let mut done: Vec<Vec<char>> = Vec::new();
    let mut cur: Vec<char> = Vec::new();
    let mut i: usize = 0;
    while i < s.len()
        invariant
            0 <= i <= s@.len(),
            (view_lines(done@), cur@) == words_scan(s@.take(i as int)),
        decreases s@.len() - i,
    {
        assert(s@.take(i + 1).drop_last() == s@.take(i as int));
        let c = s[i];
        if is_ws(c) {
            if cur.len() > 0 {
                let ghost before = done@;
                done.push(cur);
                assert(view_lines(done@) =~= view_lines(before).push(cur@));
            }
            cur = Vec::new();
        } else {
            cur.push(c);
        }
        i += 1;
    }
    assert(s@.take(s@.len() as int) == s@);
    if cur.len() > 0 {
        let ghost before = done@;
        done.push(cur);
        assert(view_lines(done@) =~= view_lines(before).push(cur@));
    }
    done
}

/// Pieces joined with `sep` between consecutive ones (`[..].join(sep)`).
pub open spec fn join(parts: Seq<Seq<char>>, sep: Seq<char>) -> Seq<char>
    decreases parts.len(),
{
    if parts.len() == 0 {
        seq![]
    } else if parts.len() == 1 {
        parts[0]
    } else {
        join(parts.drop_last(), sep) + sep + parts.last()
    }
}

pub fn join_chars(parts: &Vec<Vec<char>>, sep: &[char]) -> (r: Vec<char>)
    ensures
        r@ == join(view_lines(parts@), sep@),
{
    let mut out: Vec<char> = Vec::new();
    let mut i: usize = 0;
    while i < parts.len()
        invariant
            0 <= i <= parts@.len(),
            out@ == join(view_lines(parts@.take(i as int)), sep@),
        decreases parts@.len() - i,
    {
        let ghost prev = parts@.take(i as int);
        assert(parts@.take(i + 1).drop_last() == prev);
        assert(view_lines(parts@.take(i + 1)).drop_last() =~= view_lines(prev));
        if i > 0 {
            push_all(&mut out, sep);
        }
        push_all(&mut out, &parts[i]);
        i += 1;
        assert(view_lines(parts@.take(i as int)).last() == parts@[i - 1]@);
        if i == 1 {
            assert(view_lines(parts@.take(1)) =~= seq![parts@[0]@]);
        }
    }
    assert(parts@.take(parts@.len() as int) == parts@);
    out
}

/// Number of leading characters of `s` drawn from `set`.
pub open spec fn run_prefix_len(s: Seq<char>, set: Seq<char>) -> nat
    decreases s.len(),
{
    if s.len() > 0 && set.contains(s[0]) {
        1 + run_prefix_len(s.drop_first(), set)
    } else {
        0
    }
}

/// `str::trim_start_matches` with a set of characters.
pub open spec fn trim_start_set(s: Seq<char>, set: Seq<char>) -> Seq<char> {
    s.skip(run_prefix_len(s, set) as int)
}

pub proof fn lemma_run_prefix_len_char(s: Seq<char>, set: Seq<char>, j: int)
    requires
        0 <= j <= s.len(),
        forall|k: int| 0 <= k < j ==> set.contains(#[trigger] s[k]),
        j == s.len() || !set.contains(s[j]),
    ensures
        run_prefix_len(s, set) == j,
    decreases j,
{
    if j > 0 {
        assert(set.contains(s[0]));
        let t = s.drop_first();
        assert forall|k: int| 0 <= k < j - 1 implies set.contains(#[trigger] t[k]) by {
            assert(t[k] == s[k + 1]);
        }
        if j < s.len() {
            assert(t[j - 1] == s[j]);
        }
        lemma_run_prefix_len_char(t, set, j - 1);
    }
}

pub fn trim_start_set_chars(s: &[char], set: &[char]) -> (r: Vec<char>)
    ensures
        r@ == trim_start_set(s@, set@),
{
    let mut i: usize = 0;
    while i < s.len() && has_char(set, s[i])
        invariant
            0 <= i <= s@.len(),
            forall|k: int| 0 <= k < i ==> set@.contains(#[trigger] s@[k]),
        decreases s@.len() - i,
    {
        i += 1;
    }
    proof {
        lemma_run_prefix_len_char(s@, set@, i as int);
    }
    copy_range(s, i, s.len())
}

/// `str::trim_end_matches` with a non-empty string pattern: repeatedly drop `p` from the end.
pub open spec fn trim_end_str(s: Seq<char>, p: Seq<char>) -> Seq<char>
    decreases s.len(),
{
    if p.len() > 0 && has_suffix(s, p) {
        trim_end_str(s.take(s.len() - p.len()), p)
    } else {
        s
    }
}

pub fn trim_end_str_chars(s: &[char], p: &[char]) -> (r: Vec<char>)
    ensures
        r@ == trim_end_str(s@, p@),
{
    let mut cur = copy_range(s, 0, s.len());
    assert(cur@ =~= s@);
    if p.len() == 0 {
        return cur;
    }
    while ends_with(&cur, p)
        invariant
            p@.len() > 0,
            trim_end_str(s@, p@) == trim_end_str(cur@, p@),
        decreases cur@.len(),
    {
        let n = cur.len() - p.len();
        cur = copy_range(&cur, 0, n);
    }
    cur
}

/// `str::eq_ignore_ascii_case`: equal after mapping ASCII capitals to lower case.
pub open spec fn ascii_lower(c: char) -> char {
    if 'A' <= c && c <= 'Z' {
        ((c as u32) + 32) as char
    } else {
        c
    }
}

pub open spec fn eq_ignore_ascii_case(a: Seq<char>, b: Seq<char>) -> bool {
    a.len() == b.len() && forall|i: int| 0 <= i < a.len() ==> #[trigger] ascii_lower(a[i])
        == ascii_lower(b[i])
}

fn ascii_lower_exec(c: char) -> (r: u32)
    ensures
        r == ascii_lower(c) as u32,
{
    if 'A' <= c && c <= 'Z' {
        (c as u32) + 32
    } else {
        c as u32
    }
}

pub fn eq_ignore_ascii_case_chars(a: &[char], b: &[char]) -> (r: bool)
    ensures
        r == eq_ignore_ascii_case(a@, b@),
{
    if a.len() != b.len() {
        return false;
    }
    let mut i: usize = 0;
    while i < a.len()
        invariant
            a@.len() == b@.len(),
            0 <= i <= a@.len(),
            forall|k: int| 0 <= k < i ==> #[trigger] ascii_lower(a@[k]) == ascii_lower(b@[k]),
        decreases a@.len() - i,
    {
        let x = ascii_lower_exec(a[i]);
        let y = ascii_lower_exec(b[i]);
        if x != y {
            proof {
                assert(ascii_lower(a@[i as int]) as u32 != ascii_lower(b@[i as int]) as u32);
            }
            return false;
        }
        proof {
            vstd::utf8::char_u32_cast(ascii_lower(a@[i as int]), x);
            vstd::utf8::char_u32_cast(ascii_lower(b@[i as int]), y);
        }
        i += 1;
    }
    true
}

/// Index of the first `c` in `s`, or -1.
pub open spec fn index_of(s: Seq<char>, c: char) -> int
    decreases s.len(),
{
    if s.len() == 0 {
        -1
    } else if s[0] == c {
        0
    } else {
        let i = index_of(s.drop_first(), c);
        if i < 0 {
            -1
        } else {
            i + 1
        }
    }
}

pub proof fn lemma_index_of(s: Seq<char>, c: char)
    ensures
        -1 <= index_of(s, c) < s.len(),
        index_of(s, c) >= 0 ==> s[index_of(s, c)] == c,
        forall|k: int| 0 <= k < s.len() && (index_of(s, c) < 0 || k < index_of(s, c)) ==> s[k]
            != c,
    decreases s.len(),
{
    if s.len() > 0 && s[0] != c {
        lemma_index_of(s.drop_first(), c);
        assert forall|k: int|
            0 <= k < s.len() && (index_of(s, c) < 0 || k < index_of(s, c)) implies s[k] != c by {
            if k > 0 {
                assert(s[k] == s.drop_first()[k - 1]);
            }
        }
    }
}

/// A text without whitespace has none to find.
pub proof fn lemma_index_of_ws_none(s: Seq<char>)
    requires
        forall|k: int| 0 <= k < s.len() ==> !spec_is_ws(#[trigger] s[k]),
    ensures
        crate::llm::index_of_ws(s) == -1,
    decreases s.len(),
{
    if s.len() > 0 {
        let t = s.drop_first();
        assert forall|k: int| 0 <= k < t.len() implies !spec_is_ws(#[trigger] t[k]) by {
            assert(t[k] == s[k + 1]);
        }
        lemma_index_of_ws_none(t);
    }
}

pub proof fn lemma_index_of_char(s: Seq<char>, c: char, j: int)
    requires
        -1 <= j < s.len(),
        j >= 0 ==> s[j] == c,
        forall|k: int| 0 <= k < s.len() && (j < 0 || k < j) ==> s[k] != c,
    ensures
        index_of(s, c) == j,
{
    lemma_index_of(s, c);
    if index_of(s, c) >= 0 && j >= 0 {
        if index_of(s, c) < j {
            assert(s[index_of(s, c)] != c);
        } else if j < index_of(s, c) {
            assert(s[j] != c);
        }
    } else if index_of(s, c) >= 0 {
        assert(s[index_of(s, c)] != c);
    } else if j >= 0 {
        assert(s[j] != c);
    }
}

pub fn index_of_chars(s: &[char], c: char) -> (r: Option<usize>)
    ensures
        match r {
            Some(i) => i == index_of(s@, c),
            None => index_of(s@, c) == -1,
        },
{
    let mut i: usize = 0;
    while i < s.len()
        invariant
            0 <= i <= s@.len(),
            forall|k: int| 0 <= k < i ==> s@[k] != c,
        decreases s@.len() - i,
    {
        if s[i] == c {
            proof {
                lemma_index_of_char(s@, c, i as int);
            }
            return Some(i);
        }
        i += 1;
    }
    proof {
        lemma_index_of_char(s@, c, -1);
    }
    None
}

/// A sequence that neither starts nor ends with whitespace is its own trim.
pub proof fn lemma_trim_of_trimmed(u: Seq<char>)
    requires
        u.len() > 0 ==> !spec_is_ws(u[0]) && !spec_is_ws(u.last()),
    ensures
        trim(u) == u,
{
    lemma_ws_prefix_len_char(u, 0);
    assert(u.skip(0) =~= u);
    lemma_ws_suffix_len_char(u, u.len() as int);
    assert(u.take(u.len() as int) =~= u);
}

/// `trim` neither starts nor ends with whitespace, so trimming twice is trimming once.
pub proof fn lemma_trim_idempotent(s: Seq<char>)
    ensures
        trim(s).len() > 0 ==> !spec_is_ws(trim(s)[0]) && !spec_is_ws(trim(s).last()),
        trim(trim(s)) == trim(s),
{
    lemma_ws_prefix_len_bound(s);
    let a = trim_start(s);
    lemma_ws_suffix_len_bound(a);
    let t = trim(s);
    if t.len() > 0 {
        assert(t[0] == a[0]);
        assert(a[0] == s[ws_prefix_len(s) as int]);
        assert(t.last() == a[a.len() - ws_suffix_len(a) - 1]);
    }
    lemma_trim_of_trimmed(t);
}

pub proof fn lemma_trim_len(s: Seq<char>)
    ensures
        trim(s).len() <= s.len(),
        trim_start(s).len() <= s.len(),
        trim_end(s).len() <= s.len(),
{
    lemma_ws_prefix_len_bound(s);
    lemma_ws_suffix_len_bound(s);
    lemma_ws_suffix_len_bound(trim_start(s));
}

/// Number of trailing characters of `s` drawn from `set`.
pub open spec fn run_suffix_len(s: Seq<char>, set: Seq<char>) -> nat
    decreases s.len(),
{
    if s.len() > 0 && set.contains(s.last()) {
        1 + run_suffix_len(s.drop_last(), set)
    } else {
        0
    }
}

/// `str::trim_end_matches` with a set of characters.
pub open spec fn trim_end_set(s: Seq<char>, set: Seq<char>) -> Seq<char> {
    s.take(s.len() - run_suffix_len(s, set))
}

pub proof fn lemma_run_suffix_len_char(s: Seq<char>, set: Seq<char>, j: int)
    requires
        0 <= j <= s.len(),
        forall|k: int| j <= k < s.len() ==> set.contains(#[trigger] s[k]),
        j == 0 || !set.contains(s[j - 1]),
    ensures
        run_suffix_len(s, set) == s.len() - j,
    decreases s.len() - j,
{
    if j < s.len() {
        assert(set.contains(s.last()));
        let t = s.drop_last();
        assert forall|k: int| j <= k < t.len() implies set.contains(#[trigger] t[k]) by {
            assert(t[k] == s[k]);
        }
        if j > 0 {
            assert(t[j - 1] == s[j - 1]);
        }
        lemma_run_suffix_len_char(t, set, j);
    }
}

pub fn trim_end_set_chars(s: &[char], set: &[char]) -> (r: Vec<char>)
    ensures
        r@ == trim_end_set(s@, set@),
        r@.len() <= s@.len(),
{
    let mut j: usize = s.len();
    while j > 0 && has_char(set, s[j - 1])
        invariant
            0 <= j <= s@.len(),
            forall|k: int| j <= k < s@.len() ==> set@.contains(#[trigger] s@[k]),
        decreases j,
    {
        j -= 1;
    }
    proof {
        lemma_run_suffix_len_char(s@, set@, j as int);
    }
    copy_range(s, 0, j)
}

/// The first `n` items (all of them when there are fewer).
pub open spec fn take_at_most<A>(s: Seq<A>, n: int) -> Seq<A> {
    if s.len() <= n {
        s
    } else {
        s.take(n)
    }
}

pub fn take_chars(s: &[char], n: usize) -> (r: Vec<char>)
    ensures
        r@ == take_at_most(s@, n as int),
{
    let m = if s.len() <= n { s.len() } else { n };
    let r = copy_range(s, 0, m);
    assert(s@.subrange(0, s@.len() as int) =~= s@);
    r
}

pub fn take_lines(s: &Vec<Vec<char>>, n: usize) -> (r: Vec<Vec<char>>)
    ensures
        view_lines(r@) == take_at_most(view_lines(s@), n as int),
{
    let m = if s.len() <= n { s.len() } else { n };
    let mut r: Vec<Vec<char>> = Vec::new();
    let mut i: usize = 0;
    while i < m
        invariant
            m <= s@.len(),
            m == if s@.len() <= n { s@.len() } else { n as nat },
            0 <= i <= m,
            r@.len() == i,
            view_lines(r@) == view_lines(s@).take(i as int),
        decreases m - i,
    {
        let line = copy_range(&s[i], 0, s[i].len());
        assert(line@ =~= s@[i as int]@);
        let ghost before = r@;
        r.push(line);
        assert forall|k: int| 0 <= k < i + 1 implies #[trigger] view_lines(r@)[k] == view_lines(
            s@,
        ).take(i + 1)[k] by {
            if k < i {
                assert(r@[k] == before[k]);
                assert(view_lines(before)[k] == view_lines(s@).take(i as int)[k]);
            }
        }
        assert(view_lines(r@) =~= view_lines(s@).take(i + 1));
        i += 1;
    }
    assert(view_lines(s@).take(s@.len() as int) =~= view_lines(s@));
    r
}

} // verus!


