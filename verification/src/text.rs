//! Character-level text handling: whitespace trimming, splitting a line at
//! the first occurrence of a separator, and tokenising vertex lists.

use vstd::prelude::*;
use vstd::std_specs::iter::IteratorSpec;

verus! {

broadcast use vstd::seq_lib::group_seq_properties;

// ---------------------------------------------------------------------------
// Whitespace and trimming
// ---------------------------------------------------------------------------

/// The Unicode `White_Space` property: the characters that
/// `char::is_whitespace` accepts and that `str::trim` removes.
pub open spec fn is_white_space(c: char) -> bool {
    let u = c as u32;
    ||| 0x9 <= u <= 0xd
    ||| u == 0x20
    ||| u == 0x85
    ||| u == 0xa0
    ||| u == 0x1680
    ||| 0x2000 <= u <= 0x200a
    ||| u == 0x2028
    ||| u == 0x2029
    ||| u == 0x202f
    ||| u == 0x205f
    ||| u == 0x3000
}

/// `s` without its leading whitespace.
pub open spec fn trim_start(s: Seq<char>) -> Seq<char>
    decreases s.len(),
{
    if s.len() > 0 && is_white_space(s[0]) {
        trim_start(s.drop_first())
    } else {
        s
    }
}

/// `s` without its trailing whitespace.
pub open spec fn trim_end(s: Seq<char>) -> Seq<char>
    decreases s.len(),
{
    if s.len() > 0 && is_white_space(s.last()) {
        trim_end(s.drop_last())
    } else {
        s
    }
}

/// `s` without its leading and trailing whitespace (`str::trim`).
pub open spec fn trimmed(s: Seq<char>) -> Seq<char> {
    trim_end(trim_start(s))
}

/// Tells whether `c` is a whitespace character.
pub fn is_white_space_char(c: char) -> (b: bool)
    ensures
        b == is_white_space(c),
{
    let u = c as u32;
    (0x9 <= u && u <= 0xd) || u == 0x20 || u == 0x85 || u == 0xa0 || u == 0x1680 || (0x2000 <= u
        && u <= 0x200a) || u == 0x2028 || u == 0x2029 || u == 0x202f || u == 0x205f || u == 0x3000
}

/// Copies the characters of `s` into a vector.
pub fn chars_of(s: &str) -> (r: Vec<char>)
    ensures
        r@ == s@,
{
    let mut r: Vec<char> = Vec::new();
    broadcast use vstd::string::group_string_axioms;

    for c in iter: s.chars()
        invariant
            iter.seq() == s@,
            r@ == s@.take(iter.index()),
    {
        r.push(c);
    }
    r
}

proof fn lemma_trim_start_at(s: Seq<char>, i: int)
    requires
        0 <= i <= s.len(),
        forall|k: int| 0 <= k < i ==> is_white_space(#[trigger] s[k]),
        i == s.len() || !is_white_space(s[i]),
    ensures
        trim_start(s) == s.subrange(i, s.len() as int),
    decreases i,
{
    if i > 0 {
        let t = s.drop_first();
        assert forall|k: int| 0 <= k < i - 1 implies is_white_space(#[trigger] t[k]) by {
            assert(t[k] == s[k + 1]);
        }
        lemma_trim_start_at(t, i - 1);
        assert(t.subrange(i - 1, t.len() as int) =~= s.subrange(i, s.len() as int));
    } else {
        assert(s.subrange(0, s.len() as int) =~= s);
    }
}

proof fn lemma_trim_end_at(s: Seq<char>, j: int)
    requires
        0 <= j <= s.len(),
        forall|k: int| j <= k < s.len() ==> is_white_space(#[trigger] s[k]),
        j == 0 || !is_white_space(s[j - 1]),
    ensures
        trim_end(s) == s.subrange(0, j),
    decreases s.len() - j,
{
    if j < s.len() {
        let t = s.drop_last();
        assert forall|k: int| j <= k < t.len() implies is_white_space(#[trigger] t[k]) by {
            assert(t[k] == s[k]);
        }
        lemma_trim_end_at(t, j);
        assert(t.subrange(0, j) =~= s.subrange(0, j));
    } else {
        assert(s.subrange(0, j) =~= s);
    }
}

/// The bounds of the trimmed part of `v`.
fn trim_bounds(v: &Vec<char>) -> (r: (usize, usize))
    ensures
        r.0 <= r.1 <= v.len(),
        v@.subrange(r.0 as int, r.1 as int) == trimmed(v@),
{
    let n = v.len();
    let mut i: usize = 0;
    while i < n && is_white_space_char(v[i])
        invariant
            i <= n == v.len(),
            forall|k: int| 0 <= k < i ==> is_white_space(#[trigger] v@[k]),
        decreases n - i,
    {
        i = i + 1;
    }
    let mut j: usize = n;
    while j > i && is_white_space_char(v[j - 1])
        invariant
            i <= j <= n == v.len(),
            forall|k: int| j <= k < n ==> is_white_space(#[trigger] v@[k]),
        decreases j,
    {
        j = j - 1;
    }
    proof {
        lemma_trim_start_at(v@, i as int);
        let t = v@.subrange(i as int, n as int);
        assert forall|k: int| j - i <= k < t.len() implies is_white_space(#[trigger] t[k]) by {
            assert(t[k] == v@[k + i]);
        }
        if j > i {
            assert(t[j - i - 1] == v@[j - 1]);
        }
        lemma_trim_end_at(t, j - i);
        assert(t.subrange(0, j - i) =~= v@.subrange(i as int, j as int));
    }
    (i, j)
}

/// `str::trim`: `s` without its leading and trailing whitespace.
pub fn trim<'a>(s: &'a str) -> (r: &'a str)
    ensures
        r@ == trimmed(s@),
{
    let v = chars_of(s);
    let (i, j) = trim_bounds(&v);
    s.substring_char(i, j)
}

/// Copies `v[from..to]` into a new vector.
fn copy_range(v: &Vec<char>, from: usize, to: usize) -> (r: Vec<char>)
    requires
        from <= to <= v.len(),
    ensures
        r@ == v@.subrange(from as int, to as int),
{
    let mut r: Vec<char> = Vec::new();
    let mut k = from;
    while k < to
        invariant
            from <= k <= to <= v.len(),
            r@ == v@.subrange(from as int, k as int),
        decreases to - k,
    {
        r.push(v[k]);
        k = k + 1;
    }
    r
}

/// `v` without its leading and trailing whitespace.
pub fn trim_chars(v: &Vec<char>) -> (r: Vec<char>)
    ensures
        r@ == trimmed(v@),
{
    let (i, j) = trim_bounds(v);
    copy_range(v, i, j)
}

// ---------------------------------------------------------------------------
// Splitting at the first occurrence of a separator
// ---------------------------------------------------------------------------

/// `pat` occurs in `s` starting at position `i`.
pub open spec fn occurs_at(s: Seq<char>, pat: Seq<char>, i: int) -> bool {
    0 <= i && i + pat.len() <= s.len() && s.subrange(i, i + pat.len()) == pat
}

/// `i` is the position of the first occurrence of `pat` in `s`.
pub open spec fn is_first_occurrence(s: Seq<char>, pat: Seq<char>, i: int) -> bool {
    occurs_at(s, pat, i) && forall|k: int| 0 <= k < i ==> !occurs_at(s, pat, k)
}

/// `str::split_once`: the text before and the text after the first
/// occurrence of `pat` in `s`, or `None` where `pat` does not occur.
pub open spec fn split_once_at(s: Seq<char>, pat: Seq<char>) -> Option<(Seq<char>, Seq<char>)> {
    if exists|i: int| occurs_at(s, pat, i) {
        let i = choose|i: int| is_first_occurrence(s, pat, i);
        Some((s.subrange(0, i), s.subrange(i + pat.len(), s.len() as int)))
    } else {
        None
    }
}

/// Tells whether `p` occurs in `v` at position `i`.
fn occurs_at_index(v: &Vec<char>, p: &Vec<char>, i: usize) -> (b: bool)
    requires
        i + p.len() <= v.len(),
    ensures
        b == occurs_at(v@, p@, i as int),
{
    let m = p.len();
    let mut k: usize = 0;
    while k < m
        invariant
            k <= m == p.len(),
            i + m <= v.len(),
            forall|q: int| 0 <= q < k ==> v@[i + q] == p@[q],
        decreases m - k,
    {
        if v[i + k] != p[k] {
            assert(v@.subrange(i as int, i + m)[k as int] != p@[k as int]);
            return false;
        }
        k = k + 1;
    }
    assert(v@.subrange(i as int, i + m) =~= p@);
    true
}

/// `str::split_once`: splits `s` at the first occurrence of `pat`.
pub fn split_once<'a>(s: &'a str, pat: &str) -> (r: Option<(&'a str, &'a str)>)
    ensures
        match split_once_at(s@, pat@) {
            Some((a, b)) => r matches Some((x, y)) && x@ == a && y@ == b,
            None => r is None,
        },
{
    let v = chars_of(s);
    let p = chars_of(pat);
    let n = v.len();
    let m = p.len();
    if m > n {
        assert forall|k: int| !occurs_at(s@, pat@, k) by {}
        return None;
    }
    let last = n - m;
    let mut i: usize = 0;
    loop
        invariant
            n == v.len(),
            m == p.len(),
            v@ == s@,
            p@ == pat@,
            last == n - m,
            i <= last,
            forall|k: int| 0 <= k < i ==> !occurs_at(s@, pat@, k),
        ensures
            forall|k: int| 0 <= k <= last ==> !occurs_at(s@, pat@, k),
        decreases last - i,
    {
        if occurs_at_index(&v, &p, i) {
            proof {
                assert(is_first_occurrence(s@, pat@, i as int));
                let c = choose|c: int| is_first_occurrence(s@, pat@, c);
                assert(c == i);
            }
            return Some((s.substring_char(0, i), s.substring_char(i + m, n)));
        }
        if i == last {
            break;
        }
        i = i + 1;
    }
    assert forall|k: int| !occurs_at(s@, pat@, k) by {
        if 0 <= k <= last {
        }
    }
    None
}

// ---------------------------------------------------------------------------
// Vertex lists
// ---------------------------------------------------------------------------

/// Characters that a vertex list drops before it is split.
pub open spec fn is_paren(c: char) -> bool {
    c == '(' || c == ')'
}

/// The characters that a vertex list keeps: all but parentheses.
pub open spec fn not_paren() -> spec_fn(char) -> bool {
    |c: char| !is_paren(c)
}

/// `s` with every parenthesis removed.
pub open spec fn without_parens(s: Seq<char>) -> Seq<char> {
    s.filter(not_paren())
}

/// `str::split` on one character: the pieces of `s` between the occurrences
/// of `d` (always at least one piece).
pub open spec fn split_on(s: Seq<char>, d: char) -> Seq<Seq<char>>
    decreases s.len(),
{
    if s.len() == 0 {
        seq![Seq::empty()]
    } else {
        let p = split_on(s.drop_last(), d);
        if s.last() == d {
            p.push(Seq::empty())
        } else {
            p.update(p.len() - 1, p.last().push(s.last()))
        }
    }
}

/// The tokens of a vertex list: parentheses removed, split on commas, each
/// piece trimmed.
pub open spec fn vertex_token_seq(s: Seq<char>) -> Seq<Seq<char>> {
    split_on(without_parens(s), ',').map_values(|t: Seq<char>| trimmed(t))
}

/// `split_on` always yields at least one piece.
pub proof fn lemma_split_on_nonempty(s: Seq<char>, d: char)
    ensures
        split_on(s, d).len() >= 1,
    decreases s.len(),
{
    if s.len() > 0 {
        lemma_split_on_nonempty(s.drop_last(), d);
    }
}

/// The tokens of the vertex list `s` (the text between commas, with the
/// parentheses removed and each token trimmed), in order.
pub fn vertex_tokens(s: &str) -> (r: Vec<Vec<char>>)
    ensures
        r@.len() == vertex_token_seq(s@).len(),
        forall|k: int| 0 <= k < r@.len() ==> (#[trigger] r@[k])@ == vertex_token_seq(s@)[k],
{
    let v = chars_of(s);
    let n = v.len();
    let mut toks: Vec<Vec<char>> = Vec::new();
    let mut cur: Vec<char> = Vec::new();
    let mut i: usize = 0;
    proof {
        reveal_with_fuel(Seq::filter, 1);
        assert(v@.take(0) =~= Seq::<char>::empty());
    }
    while i < n
        invariant
            i <= n == v.len(),
            v@ == s@,
            split_on(without_parens(v@.take(i as int)), ',').len() == toks@.len() + 1,
            forall|k: int|
                0 <= k < toks@.len() ==> (#[trigger] toks@[k])@ == trimmed(
                    split_on(without_parens(v@.take(i as int)), ',')[k],
                ),
            cur@ == split_on(without_parens(v@.take(i as int)), ',').last(),
        decreases n - i,
    {
        let c = v[i];
        let ghost prev = without_parens(v@.take(i as int));
        let ghost pieces = split_on(prev, ',');
        proof {
            assert(v@.take(i + 1) =~= v@.take(i as int).push(c));
            Seq::lemma_filter_push(v@.take(i as int), c, not_paren());
            lemma_split_on_nonempty(prev, ',');
        }
        if c == ',' {
            proof {
                let next = prev.push(c);
                assert(next.drop_last() =~= prev);
                assert(split_on(next, ',') == pieces.push(Seq::empty()));
            }
            let t = trim_chars(&cur);
            toks.push(t);
            cur = Vec::new();
        } else if c != '(' && c != ')' {
            proof {
                let next = prev.push(c);
                assert(next.drop_last() =~= prev);
                assert(split_on(next, ',') == pieces.update(
                    pieces.len() - 1,
                    pieces.last().push(c),
                ));
            }
            cur.push(c);
        }
        i = i + 1;
    }
    let t = trim_chars(&cur);
    toks.push(t);
    proof {
        assert(v@.take(n as int) =~= v@);
    }
    toks
}

/// Groups consecutive elements of `v` by two: `(v[0], v[1]), (v[2], v[3]), ...`;
/// a last unpaired element is dropped.
pub fn pair_up<T: Copy>(v: &Vec<T>) -> (r: Vec<(T, T)>)
    ensures
        r@.len() == v@.len() / 2,
        forall|k: int| 0 <= k < r@.len() ==> #[trigger] r@[k] == (v@[2 * k], v@[2 * k + 1]),
{
    let n = v.len();
    let mut r: Vec<(T, T)> = Vec::new();
    let mut i: usize = 0;
    while i + 1 < n
        invariant
            n == v.len(),
            i == 2 * r@.len(),
            i <= n,
            forall|k: int| 0 <= k < r@.len() ==> #[trigger] r@[k] == (v@[2 * k], v@[2 * k + 1]),
        decreases n - i,
    {
        r.push((v[i], v[i + 1]));
        i = i + 2;
    }
    r
}

// ---------------------------------------------------------------------------
// Laws
// ---------------------------------------------------------------------------

proof fn lemma_trim_start_index(s: Seq<char>) -> (i: int)
    ensures
        0 <= i <= s.len(),
        forall|k: int| 0 <= k < i ==> is_white_space(#[trigger] s[k]),
        i == s.len() || !is_white_space(s[i]),
        trim_start(s) == s.subrange(i, s.len() as int),
    decreases s.len(),
{
    if s.len() > 0 && is_white_space(s[0]) {
        let t = s.drop_first();
        let i0 = lemma_trim_start_index(t);
        assert forall|k: int| 0 <= k < i0 + 1 implies is_white_space(#[trigger] s[k]) by {
            if k > 0 {
                assert(s[k] == t[k - 1]);
            }
        }
        assert(t.subrange(i0, t.len() as int) =~= s.subrange(i0 + 1, s.len() as int));
        i0 + 1
    } else {
        assert(s.subrange(0, s.len() as int) =~= s);
        0
    }
}

proof fn lemma_trim_end_index(s: Seq<char>) -> (j: int)
    ensures
        0 <= j <= s.len(),
        forall|k: int| j <= k < s.len() ==> is_white_space(#[trigger] s[k]),
        j == 0 || !is_white_space(s[j - 1]),
        trim_end(s) == s.subrange(0, j),
    decreases s.len(),
{
    if s.len() > 0 && is_white_space(s.last()) {
        let t = s.drop_last();
        let j0 = lemma_trim_end_index(t);
        assert forall|k: int| j0 <= k < s.len() implies is_white_space(#[trigger] s[k]) by {
            if k < t.len() {
                assert(s[k] == t[k]);
            }
        }
        assert(t.subrange(0, j0) =~= s.subrange(0, j0));
        j0
    } else {
        assert(s.subrange(0, s.len() as int) =~= s);
        s.len() as int
    }
}

/// Trimming removes whitespace at both ends and nothing else: `s` is some
/// whitespace, then `trimmed(s)`, then some whitespace, and `trimmed(s)`
/// neither starts nor ends with whitespace.
pub proof fn law_trim_removes_outer_whitespace(s: Seq<char>)
    ensures
        exists|i: int, j: int|
            0 <= i <= j <= s.len() && trimmed(s) == s.subrange(i, j) && (forall|k: int|
                0 <= k < i ==> is_white_space(#[trigger] s[k])) && (forall|k: int|
                j <= k < s.len() ==> is_white_space(#[trigger] s[k])),
        trimmed(s).len() > 0 ==> !is_white_space(trimmed(s)[0]) && !is_white_space(
            trimmed(s).last(),
        ),
{
    let i = lemma_trim_start_index(s);
    let t = s.subrange(i, s.len() as int);
    let j = lemma_trim_end_index(t);
    assert(t.subrange(0, j) =~= s.subrange(i, i + j));
    assert forall|k: int| i + j <= k < s.len() implies is_white_space(#[trigger] s[k]) by {
        assert(s[k] == t[k - i]);
    }
    if j > 0 {
        assert(trimmed(s)[0] == t[0]);
    }
    assert(trimmed(s) == s.subrange(i, i + j));
}

/// Trimming twice is trimming once.
pub proof fn law_trim_idempotent(s: Seq<char>)
    ensures
        trimmed(trimmed(s)) == trimmed(s),
{
    let t = trimmed(s);
    law_trim_removes_outer_whitespace(s);
    if t.len() > 0 {
        lemma_trim_start_at(t, 0);
        assert(t.subrange(0, t.len() as int) =~= t);
        lemma_trim_end_at(t, t.len() as int);
    }
}

/// Where `pat` occurs in `s`, it has a first occurrence.
pub proof fn lemma_first_occurrence_exists(s: Seq<char>, pat: Seq<char>, i: int)
    requires
        occurs_at(s, pat, i),
    ensures
        exists|f: int| is_first_occurrence(s, pat, f),
    decreases i,
{
    if exists|k: int| 0 <= k < i && occurs_at(s, pat, k) {
        let k = choose|k: int| 0 <= k < i && occurs_at(s, pat, k);
        lemma_first_occurrence_exists(s, pat, k);
    } else {
        assert(is_first_occurrence(s, pat, i));
    }
}

/// Splitting at a separator loses nothing: the two parts joined by the
/// separator give back the text, and the separator does not occur earlier;
/// there is no split exactly where the separator does not occur.
pub proof fn law_split_once_rejoins(s: Seq<char>, pat: Seq<char>)
    ensures
        split_once_at(s, pat) matches Some((a, b)) ==> a + pat + b == s && forall|k: int|
            0 <= k < a.len() ==> !occurs_at(s, pat, k),
        split_once_at(s, pat) is None <==> forall|k: int| !occurs_at(s, pat, k),
{
    if exists|i: int| occurs_at(s, pat, i) {
        let i0 = choose|i: int| occurs_at(s, pat, i);
        lemma_first_occurrence_exists(s, pat, i0);
        let i = choose|i: int| is_first_occurrence(s, pat, i);
        let a = s.subrange(0, i);
        let b = s.subrange(i + pat.len(), s.len() as int);
        assert(a + pat + b =~= s);
    }
}

/// The number of occurrences of `d` in `s`.
pub open spec fn count_char(s: Seq<char>, d: char) -> nat {
    s.filter(|c: char| c == d).len()
}

/// Splitting on a character yields one piece more than the character occurs.
pub proof fn law_split_on_pieces(s: Seq<char>, d: char)
    ensures
        split_on(s, d).len() == count_char(s, d) + 1,
    decreases s.len(),
{
    reveal_with_fuel(Seq::filter, 1);
    if s.len() > 0 {
        law_split_on_pieces(s.drop_last(), d);
        lemma_split_on_nonempty(s.drop_last(), d);
    }
}

/// A vertex list has one token more than it has commas.
pub proof fn law_vertex_token_count(s: Seq<char>)
    ensures
        vertex_token_seq(s).len() == count_char(without_parens(s), ',') + 1,
{
    law_split_on_pieces(without_parens(s), ',');
}

/// Every character of `w` is whitespace.
pub open spec fn all_white_space(w: Seq<char>) -> bool {
    forall|i: int| 0 <= i < w.len() ==> is_white_space(#[trigger] w[i])
}

proof fn lemma_trim_start_prefix(w: Seq<char>, p: Seq<char>)
    requires
        all_white_space(w),
    ensures
        trim_start(w + p) == trim_start(p),
    decreases w.len(),
{
    if w.len() > 0 {
        let w1 = w.drop_first();
        assert((w + p)[0] == w[0]);
        assert((w + p).drop_first() =~= w1 + p);
        assert forall|i: int| 0 <= i < w1.len() implies is_white_space(#[trigger] w1[i]) by {
            assert(w1[i] == w[i + 1]);
        }
        lemma_trim_start_prefix(w1, p);
    } else {
        assert(w + p =~= p);
    }
}

proof fn lemma_trim_end_suffix(p: Seq<char>, w: Seq<char>)
    requires
        all_white_space(w),
    ensures
        trim_end(p + w) == trim_end(p),
    decreases w.len(),
{
    if w.len() > 0 {
        let w1 = w.drop_last();
        assert((p + w).last() == w.last());
        assert((p + w).drop_last() =~= p + w1);
        assert forall|i: int| 0 <= i < w1.len() implies is_white_space(#[trigger] w1[i]) by {
            assert(w1[i] == w[i]);
        }
        lemma_trim_end_suffix(p, w1);
    } else {
        assert(p + w =~= p);
    }
}

proof fn lemma_trim_start_append(p: Seq<char>, w: Seq<char>)
    ensures
        all_white_space(p) ==> trim_start(p + w) == trim_start(w),
        !all_white_space(p) ==> trim_start(p + w) == trim_start(p) + w,
    decreases p.len(),
{
    if p.len() == 0 {
        assert(p + w =~= w);
    } else if is_white_space(p[0]) {
        let p1 = p.drop_first();
        assert((p + w)[0] == p[0]);
        assert((p + w).drop_first() =~= p1 + w);
        lemma_trim_start_append(p1, w);
        if all_white_space(p) {
            assert forall|i: int| 0 <= i < p1.len() implies is_white_space(#[trigger] p1[i]) by {
                assert(p1[i] == p[i + 1]);
            }
        } else {
            let k = choose|k: int| 0 <= k < p.len() && !is_white_space(#[trigger] p[k]);
            assert(p1[k - 1] == p[k]);
        }
    } else {
        assert((p + w)[0] == p[0]);
    }
}

/// Whitespace added before and after a text does not change it once trimmed.
pub proof fn lemma_trimmed_pad(w1: Seq<char>, p: Seq<char>, w2: Seq<char>)
    requires
        all_white_space(w1),
        all_white_space(w2),
    ensures
        trimmed(w1 + p + w2) == trimmed(p),
{
    assert(w1 + p + w2 =~= w1 + (p + w2));
    lemma_trim_start_prefix(w1, p + w2);
    lemma_trim_start_append(p, w2);
    if all_white_space(p) {
        lemma_trim_start_prefix(w2, Seq::empty());
        assert(w2 + Seq::<char>::empty() =~= w2);
        lemma_trim_start_prefix(p, Seq::empty());
        assert(p + Seq::<char>::empty() =~= p);
    } else {
        lemma_trim_end_suffix(trim_start(p), w2);
    }
}

proof fn lemma_split_on_free(w: Seq<char>, d: char)
    requires
        forall|i: int| 0 <= i < w.len() ==> w[i] != d,
    ensures
        split_on(w, d) == seq![w],
    decreases w.len(),
{
    if w.len() > 0 {
        let w1 = w.drop_last();
        lemma_split_on_free(w1, d);
        assert(w1.push(w.last()) =~= w);
        assert(seq![w1].update(0, w1.push(w.last())) =~= seq![w]);
    } else {
        assert(w =~= Seq::<char>::empty());
    }
}

/// The pieces of `x`, `d`, `y` are the pieces of `x` followed by those of `y`.
proof fn lemma_split_on_concat(x: Seq<char>, y: Seq<char>, d: char)
    ensures
        split_on(x.push(d) + y, d) == split_on(x, d) + split_on(y, d),
    decreases y.len(),
{
    let z = x.push(d) + y;
    if y.len() == 0 {
        assert(z =~= x.push(d));
        assert(x.push(d).drop_last() =~= x);
        assert(split_on(x, d).push(Seq::empty()) =~= split_on(x, d) + seq![Seq::<char>::empty()]);
    } else {
        let y1 = y.drop_last();
        let c = y.last();
        assert(z.drop_last() =~= x.push(d) + y1);
        assert(z.last() == c);
        lemma_split_on_concat(x, y1, d);
        lemma_split_on_nonempty(y1, d);
        let pp = split_on(x, d);
        let qq = split_on(y1, d);
        if c == d {
            assert((pp + qq).push(Seq::empty()) =~= pp + qq.push(Seq::empty()));
        } else {
            let n = (pp + qq).len();
            assert((pp + qq).last() == qq.last());
            assert((pp + qq).update(n - 1, (pp + qq).last().push(c)) =~= pp + qq.update(
                qq.len() - 1,
                qq.last().push(c),
            ));
        }
    }
}

/// A prefix free of `d` joins the first piece.
proof fn lemma_split_on_prefix(w: Seq<char>, y: Seq<char>, d: char)
    requires
        forall|i: int| 0 <= i < w.len() ==> w[i] != d,
    ensures
        split_on(w + y, d) == split_on(y, d).update(0, w + split_on(y, d)[0]),
    decreases y.len(),
{
    lemma_split_on_nonempty(y, d);
    if y.len() == 0 {
        assert(w + y =~= w);
        lemma_split_on_free(w, d);
        assert(w + Seq::<char>::empty() =~= w);
        assert(seq![Seq::<char>::empty()].update(0, w) =~= seq![w]);
    } else {
        let y1 = y.drop_last();
        let c = y.last();
        let z = w + y;
        assert(z.drop_last() =~= w + y1);
        assert(z.last() == c);
        lemma_split_on_prefix(w, y1, d);
        lemma_split_on_nonempty(y1, d);
        let s1 = split_on(y1, d);
        let t1 = s1.update(0, w + s1[0]);
        if c == d {
            assert(t1.push(Seq::empty()) =~= s1.push(Seq::empty()).update(0, w + s1[0]));
        } else {
            let n = s1.len();
            let sy = s1.update(n - 1, s1.last().push(c));
            if n == 1 {
                assert((w + s1[0]).push(c) =~= w + s1[0].push(c));
                assert(t1.update(n - 1, t1.last().push(c)) =~= sy.update(0, w + sy[0]));
            } else {
                assert(t1.update(n - 1, t1.last().push(c)) =~= sy.update(0, w + sy[0]));
            }
        }
    }
}

/// A suffix free of `d` joins the last piece.
proof fn lemma_split_on_suffix(x: Seq<char>, w: Seq<char>, d: char)
    requires
        forall|i: int| 0 <= i < w.len() ==> w[i] != d,
    ensures
        split_on(x + w, d) == split_on(x, d).update(
            split_on(x, d).len() - 1,
            split_on(x, d).last() + w,
        ),
    decreases w.len(),
{
    lemma_split_on_nonempty(x, d);
    let ss = split_on(x, d);
    if w.len() == 0 {
        assert(x + w =~= x);
        assert(ss.last() + w =~= ss.last());
        assert(ss.update(ss.len() - 1, ss.last()) =~= ss);
    } else {
        let w1 = w.drop_last();
        let c = w.last();
        assert((x + w).drop_last() =~= x + w1);
        assert((x + w).last() == c);
        lemma_split_on_suffix(x, w1, d);
        let t1 = ss.update(ss.len() - 1, ss.last() + w1);
        assert((ss.last() + w1).push(c) =~= ss.last() + w);
        assert(t1.update(t1.len() - 1, t1.last().push(c)) =~= ss.update(
            ss.len() - 1,
            ss.last() + w,
        ));
    }
}

proof fn lemma_without_parens_free(w: Seq<char>)
    requires
        forall|i: int| 0 <= i < w.len() ==> !is_paren(#[trigger] w[i]),
    ensures
        without_parens(w) == w,
    decreases w.len(),
{
    reveal_with_fuel(Seq::filter, 1);
    if w.len() > 0 {
        let w1 = w.drop_last();
        assert forall|i: int| 0 <= i < w1.len() implies !is_paren(#[trigger] w1[i]) by {
            assert(w1[i] == w[i]);
        }
        lemma_without_parens_free(w1);
        assert(w1.push(w.last()) =~= w);
    }
}

proof fn lemma_white_space_free(w: Seq<char>)
    requires
        all_white_space(w),
    ensures
        forall|i: int| 0 <= i < w.len() ==> !is_paren(#[trigger] w[i]),
        forall|i: int| 0 <= i < w.len() ==> #[trigger] w[i] != ',',
        without_parens(w) == w,
{
    assert forall|i: int| 0 <= i < w.len() implies !is_paren(#[trigger] w[i]) && w[i] != ',' by {
        assert(is_white_space(w[i]));
    }
    lemma_without_parens_free(w);
}

/// Parentheses do not matter: two vertex lists that differ only by
/// parentheses, inserted or removed anywhere, have the same tokens.
pub proof fn law_vertex_tokens_ignore_parens(s1: Seq<char>, s2: Seq<char>)
    requires
        without_parens(s1) == without_parens(s2),
    ensures
        vertex_token_seq(s1) == vertex_token_seq(s2),
{
}

/// Removing the parentheses of a vertex list leaves its tokens unchanged.
pub proof fn law_vertex_tokens_without_parens(s: Seq<char>)
    ensures
        vertex_token_seq(without_parens(s)) == vertex_token_seq(s),
{
    lemma_without_parens_idempotent(s);
}

proof fn lemma_without_parens_idempotent(s: Seq<char>)
    ensures
        without_parens(without_parens(s)) == without_parens(s),
    decreases s.len(),
{
    reveal_with_fuel(Seq::filter, 1);
    if s.len() > 0 {
        let s1 = s.drop_last();
        lemma_without_parens_idempotent(s1);
        Seq::lemma_filter_push(without_parens(s1), s.last(), not_paren());
    }
}

/// Whitespace before or after a whole vertex list leaves its tokens
/// unchanged.
pub proof fn law_vertex_tokens_outer_space(w1: Seq<char>, s: Seq<char>, w2: Seq<char>)
    requires
        all_white_space(w1),
        all_white_space(w2),
    ensures
        vertex_token_seq(w1 + s + w2) == vertex_token_seq(s),
{
    broadcast use Seq::filter_distributes_over_add;

    lemma_white_space_free(w1);
    lemma_white_space_free(w2);
    let t = without_parens(s);
    assert(without_parens(w1 + s + w2) == w1 + t + w2);
    let pp = split_on(t, ',');
    lemma_split_on_nonempty(t, ',');
    lemma_split_on_prefix(w1, t, ',');
    let p1 = pp.update(0, w1 + pp[0]);
    lemma_split_on_suffix(w1 + t, w2, ',');
    let p2 = p1.update(p1.len() - 1, p1.last() + w2);
    assert(split_on(w1 + t + w2, ',') == p2);
    let e = Seq::<char>::empty();
    assert(all_white_space(e));
    assert forall|k: int| 0 <= k < pp.len() implies trimmed(#[trigger] p2[k]) == trimmed(pp[k]) by {
        let last = pp.len() - 1;
        if k == 0 && k == last {
            assert(p2[k] == w1 + pp[k] + w2);
            lemma_trimmed_pad(w1, pp[k], w2);
        } else if k == 0 {
            assert(p2[k] =~= w1 + pp[k] + e);
            lemma_trimmed_pad(w1, pp[k], e);
        } else if k == last {
            assert(p2[k] =~= e + pp[k] + w2);
            lemma_trimmed_pad(e, pp[k], w2);
        }
    }
    assert(vertex_token_seq(w1 + s + w2) =~= vertex_token_seq(s));
}

/// Whitespace on either side of a comma leaves the tokens unchanged.
pub proof fn law_vertex_tokens_space_at_comma(
    a: Seq<char>,
    w1: Seq<char>,
    w2: Seq<char>,
    b: Seq<char>,
)
    requires
        all_white_space(w1),
        all_white_space(w2),
    ensures
        vertex_token_seq(a + w1 + seq![','] + w2 + b) == vertex_token_seq(a + seq![','] + b),
{
    broadcast use Seq::filter_distributes_over_add;

    lemma_white_space_free(w1);
    lemma_white_space_free(w2);
    let comma = seq![','];
    assert(without_parens(comma) == comma) by {
        lemma_without_parens_free(comma);
    }
    let ta = without_parens(a);
    let tb = without_parens(b);
    let x = ta + w1;
    let y = w2 + tb;
    assert(without_parens(a + w1 + comma + w2 + b) == x.push(',') + y) by {
        assert(x.push(',') + y =~= ta + w1 + comma + w2 + tb);
    }
    assert(without_parens(a + comma + b) == ta.push(',') + tb) by {
        assert(ta.push(',') + tb =~= ta + comma + tb);
    }
    lemma_split_on_concat(x, y, ',');
    lemma_split_on_concat(ta, tb, ',');
    let pa = split_on(ta, ',');
    let pb = split_on(tb, ',');
    lemma_split_on_nonempty(ta, ',');
    lemma_split_on_nonempty(tb, ',');
    lemma_split_on_suffix(ta, w1, ',');
    lemma_split_on_prefix(w2, tb, ',');
    let qa = pa.update(pa.len() - 1, pa.last() + w1);
    let qb = pb.update(0, w2 + pb[0]);
    let e = Seq::<char>::empty();
    assert(all_white_space(e));
    let lhs = qa + qb;
    let rhs = pa + pb;
    assert forall|k: int| 0 <= k < rhs.len() implies trimmed(#[trigger] lhs[k]) == trimmed(
        rhs[k],
    ) by {
        if k == pa.len() - 1 {
            assert(lhs[k] =~= e + rhs[k] + w1);
            lemma_trimmed_pad(e, rhs[k], w1);
        } else if k == pa.len() {
            assert(lhs[k] =~= w2 + rhs[k] + e);
            lemma_trimmed_pad(w2, rhs[k], e);
        }
    }
    assert(vertex_token_seq(a + w1 + comma + w2 + b) =~= vertex_token_seq(a + comma + b));
}

/// The pieces `ps` joined by `d`: `ps[0] d ps[1] d ... ps[n-1]`.
pub open spec fn join_with(ps: Seq<Seq<char>>, d: char) -> Seq<char>
    decreases ps.len(),
{
    if ps.len() == 0 {
        Seq::empty()
    } else if ps.len() == 1 {
        ps[0]
    } else {
        join_with(ps.drop_last(), d).push(d) + ps.last()
    }
}

proof fn lemma_join_push_char(ps: Seq<Seq<char>>, d: char, c: char)
    requires
        ps.len() >= 1,
    ensures
        join_with(ps.update(ps.len() - 1, ps.last().push(c)), d) == join_with(ps, d).push(c),
{
    let qs = ps.update(ps.len() - 1, ps.last().push(c));
    if ps.len() == 1 {
        assert(qs[0] == ps[0].push(c));
    } else {
        assert(qs.drop_last() =~= ps.drop_last());
        assert(join_with(ps, d).push(c) =~= join_with(ps.drop_last(), d).push(d) + ps.last().push(
            c,
        ));
    }
}

/// Splitting on `d` loses nothing: the pieces joined by `d` give back the
/// text, and no piece holds `d`.
pub proof fn law_split_on_join(t: Seq<char>, d: char)
    ensures
        join_with(split_on(t, d), d) == t,
        forall|k: int, i: int|
            0 <= k < split_on(t, d).len() && 0 <= i < split_on(t, d)[k].len() ==> #[trigger] split_on(
                t,
                d,
            )[k][i] != d,
    decreases t.len(),
{
    if t.len() == 0 {
        assert(join_with(seq![Seq::<char>::empty()], d) == Seq::<char>::empty());
    } else {
        let t1 = t.drop_last();
        let c = t.last();
        law_split_on_join(t1, d);
        lemma_split_on_nonempty(t1, d);
        let ps = split_on(t1, d);
        if c == d {
            let qs = ps.push(Seq::<char>::empty());
            assert(qs.drop_last() =~= ps);
            assert(join_with(qs, d) =~= t);
            assert forall|k: int, i: int|
                0 <= k < qs.len() && 0 <= i < qs[k].len() implies #[trigger] qs[k][i] != d by {
                assert(k < ps.len());
                assert(qs[k] == ps[k]);
            }
        } else {
            lemma_join_push_char(ps, d, c);
            assert(t1.push(c) =~= t);
            let qs = ps.update(ps.len() - 1, ps.last().push(c));
            assert forall|k: int, i: int|
                0 <= k < qs.len() && 0 <= i < qs[k].len() implies #[trigger] qs[k][i] != d by {
                if k == ps.len() - 1 {
                    if i < ps.last().len() {
                        assert(qs[k][i] == ps[k][i]);
                    }
                } else {
                    assert(qs[k] == ps[k]);
                }
            }
        }
    }
}

/// The pieces of a vertex list between its commas, once the parentheses are
/// removed.
pub open spec fn vertex_pieces(s: Seq<char>) -> Seq<Seq<char>> {
    split_on(without_parens(s), ',')
}

/// `tok` is `piece` with only whitespace taken off its two ends, and neither
/// starts nor ends with whitespace.
pub open spec fn is_trimmed_slice(tok: Seq<char>, piece: Seq<char>) -> bool {
    &&& exists|i: int, j: int|
        0 <= i <= j <= piece.len() && tok == piece.subrange(i, j) && (forall|q: int|
            0 <= q < i ==> is_white_space(#[trigger] piece[q])) && (forall|q: int|
            j <= q < piece.len() ==> is_white_space(#[trigger] piece[q]))
    &&& tok.len() > 0 ==> !is_white_space(tok[0]) && !is_white_space(tok.last())
}

/// Each token of a vertex list is one piece of the list between commas (after
/// the parentheses are removed), with only its outer whitespace taken off:
/// the pieces joined by commas give back the list without parentheses, no
/// piece holds a comma, and each token is a slice of its piece that leaves
/// only whitespace out and neither starts nor ends with whitespace.
pub proof fn law_vertex_tokens_are_trimmed_pieces(s: Seq<char>)
    ensures
        join_with(vertex_pieces(s), ',') == without_parens(s),
        vertex_token_seq(s).len() == vertex_pieces(s).len(),
        forall|k: int, i: int|
            0 <= k < vertex_pieces(s).len() && 0 <= i < vertex_pieces(s)[k].len()
                ==> #[trigger] vertex_pieces(s)[k][i] != ',',
        forall|k: int|
            0 <= k < vertex_token_seq(s).len() ==> is_trimmed_slice(
                #[trigger] vertex_token_seq(s)[k],
                vertex_pieces(s)[k],
            ),
{
    let t = without_parens(s);
    let ps = split_on(t, ',');
    law_split_on_join(t, ',');
    let toks = vertex_token_seq(s);
    assert forall|k: int| 0 <= k < toks.len() implies is_trimmed_slice(
        #[trigger] toks[k],
        ps[k],
    ) by {
        assert(toks[k] == trimmed(ps[k]));
        law_trim_removes_outer_whitespace(ps[k]);
    }
}

} // verus!
