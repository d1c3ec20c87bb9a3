//! Searching and trimming character sequences, as `str::find` and
//! `str::trim` do on text.
use vstd::prelude::*;
use crate::text::{char_is_whitespace, is_whitespace};

verus! {

/// `pat` occurs in `hay` starting at position `k`.
pub open spec fn occurs_at(hay: Seq<char>, pat: Seq<char>, k: int) -> bool {
    0 <= k && k + pat.len() <= hay.len() && hay.subrange(k, k + pat.len()) == pat
}

/// First position at or after `k` where `pat` occurs.
pub open spec fn find_from(hay: Seq<char>, pat: Seq<char>, k: int) -> Option<int>
    decreases hay.len() + 1 - k,
{
    if k < 0 || k + pat.len() > hay.len() {
        None
    } else if occurs_at(hay, pat, k) {
        Some(k)
    } else {
        find_from(hay, pat, k + 1)
    }
}

/// First position where `pat` occurs in `hay` (an empty `pat` occurs at 0).
pub open spec fn find(hay: Seq<char>, pat: Seq<char>) -> Option<int> {
    find_from(hay, pat, 0)
}

/// `hay` begins with `pat`.
pub open spec fn starts_with(hay: Seq<char>, pat: Seq<char>) -> bool {
    occurs_at(hay, pat, 0)
}

/// First position at or after `k` that is not white space.
pub open spec fn space_end(s: Seq<char>, k: int) -> int
    decreases s.len() - k,
{
    if 0 <= k < s.len() && is_whitespace(s[k]) {
        space_end(s, k + 1)
    } else {
        k
    }
}

/// Last position at or before `k` not preceded by white space.
pub open spec fn space_start(s: Seq<char>, k: int) -> int
    decreases k,
{
    if 0 < k <= s.len() && is_whitespace(s[k - 1]) {
        space_start(s, k - 1)
    } else {
        k
    }
}

proof fn lemma_find_from(hay: Seq<char>, pat: Seq<char>, k: int)
    ensures
        find_from(hay, pat, k) matches Some(j) ==> k <= j && occurs_at(hay, pat, j),
    decreases hay.len() + 1 - k,
{
    if !(k < 0 || k + pat.len() > hay.len()) && !occurs_at(hay, pat, k) {
        lemma_find_from(hay, pat, k + 1);
    }
}

/// Where `find` reports `pat`, it occurs.
pub(crate) proof fn lemma_find_occurs(hay: Seq<char>, pat: Seq<char>)
    ensures
        find(hay, pat) matches Some(j) ==> occurs_at(hay, pat, j),
{
    lemma_find_from(hay, pat, 0);
}

/// First position at or after `k` holding `c`.
pub open spec fn index_of_from(s: Seq<char>, c: char, k: int) -> Option<int>
    decreases s.len() - k,
{
    if k < 0 || k >= s.len() {
        None
    } else if s[k] == c {
        Some(k)
    } else {
        index_of_from(s, c, k + 1)
    }
}

/// First position of `c` in `s`.
pub open spec fn index_of(s: Seq<char>, c: char) -> Option<int> {
    index_of_from(s, c, 0)
}

/// Last position at or before `k` holding `c`.
pub open spec fn last_index_of_to(s: Seq<char>, c: char, k: int) -> Option<int>
    decreases k + 1,
{
    if k < 0 || k >= s.len() {
        None
    } else if s[k] == c {
        Some(k)
    } else {
        last_index_of_to(s, c, k - 1)
    }
}

/// Last position of `c` in `s`.
pub open spec fn last_index_of(s: Seq<char>, c: char) -> Option<int> {
    last_index_of_to(s, c, s.len() - 1)
}

pub proof fn lemma_index_of_from(s: Seq<char>, c: char, k: int)
    requires
        0 <= k,
    ensures
        index_of_from(s, c, k) matches Some(j) ==> k <= j < s.len() && s[j] == c,
    decreases s.len() - k,
{
    if k < s.len() && s[k] != c {
        lemma_index_of_from(s, c, k + 1);
    }
}

pub(crate) proof fn lemma_last_index_of_to(s: Seq<char>, c: char, k: int)
    ensures
        last_index_of_to(s, c, k) matches Some(j) ==> 0 <= j <= k && j < s.len() && s[j] == c,
    decreases k + 1,
{
    if 0 <= k < s.len() && s[k] != c {
        lemma_last_index_of_to(s, c, k - 1);
    }
}

/// Searching a suffix of `s` is searching `s` from the suffix's start.
pub(crate) proof fn lemma_index_of_shift(s: Seq<char>, c: char, i: int, k: int)
    requires
        0 <= i <= k,
        i <= s.len(),
    ensures
        index_of_from(s, c, k) == match index_of_from(s.skip(i), c, k - i) {
            Some(j) => Some(j + i),
            None => None,
        },
    decreases s.len() - k,
{
    if k < s.len() && s[k] != c {
        lemma_index_of_shift(s, c, i, k + 1);
    }
}

/// `s` without leading white space.
pub open spec fn trim_start(s: Seq<char>) -> Seq<char> {
    s.skip(space_end(s, 0))
}

/// `s` without leading and trailing white space.
pub open spec fn trim(s: Seq<char>) -> Seq<char> {
    let t = trim_start(s);
    t.take(space_start(t, t.len() as int))
}

pub(crate) proof fn lemma_space_end(s: Seq<char>, k: int)
    requires
        0 <= k <= s.len(),
    ensures
        k <= space_end(s, k) <= s.len(),
    decreases s.len() - k,
{
    if k < s.len() && is_whitespace(s[k]) {
        lemma_space_end(s, k + 1);
    }
}

proof fn lemma_space_start(s: Seq<char>, k: int)
    requires
        0 <= k <= s.len(),
    ensures
        0 <= space_start(s, k) <= k,
    decreases k,
{
    if 0 < k && is_whitespace(s[k - 1]) {
        lemma_space_start(s, k - 1);
    }
}

/// Whether `hay[a..a + (pt - pf)]` equals `pat[pf..pt]`.
pub(crate) fn range_eq(hay: &Vec<char>, a: usize, to: usize, pat: &Vec<char>, pf: usize, pt: usize) -> (b: bool)
    requires
        a <= to <= hay.len(),
        pf <= pt <= pat.len(),
        pt - pf <= to - a,
    ensures
        b == (hay@.subrange(a as int, a + (pt - pf)) == pat@.subrange(pf as int, pt as int)),
{
    let n = pt - pf;
    let mut k: usize = 0;
    while k < n
        invariant
            a <= to <= hay.len(),
            pf <= pt <= pat.len(),
            n == pt - pf,
            n <= to - a,
            k <= n,
            forall|m: int| 0 <= m < k ==> hay@.subrange(a as int, a + n)[m] == #[trigger] pat@.subrange(pf as int, pt as int)[m],
        decreases n - k,
    {
        if hay[a + k] != pat[pf + k] {
            assert(hay@.subrange(a as int, a + n)[k as int] != pat@.subrange(pf as int, pt as int)[k as int]);
            return false;
        }
        k = k + 1;
    }
    assert(hay@.subrange(a as int, a + n) =~= pat@.subrange(pf as int, pt as int));
    true
}

/// `find` on `hay[from..to]` and `pat[pf..pt]`, as a position relative to `from`.
pub(crate) fn find_in(hay: &Vec<char>, from: usize, to: usize, pat: &Vec<char>, pf: usize, pt: usize) -> (r: Option<usize>)
    requires
        from <= to <= hay.len(),
        pf <= pt <= pat.len(),
    ensures
        r matches Some(k) ==> find(hay@.subrange(from as int, to as int), pat@.subrange(pf as int, pt as int)) == Some(k as int),
        r is None ==> find(hay@.subrange(from as int, to as int), pat@.subrange(pf as int, pt as int)) is None,
{
    let ghost h = hay@.subrange(from as int, to as int);
    let ghost p = pat@.subrange(pf as int, pt as int);
    let n = pt - pf;
    if n > to - from {
        return None;
    }
    let limit = (to - from) - n;
    let mut k: usize = 0;
    loop
        invariant
            from <= to <= hay.len(),
            pf <= pt <= pat.len(),
            n == pt - pf,
            limit == (to - from) - n,
            h == hay@.subrange(from as int, to as int),
            p == pat@.subrange(pf as int, pt as int),
            k <= limit,
            find_from(h, p, k as int) == find(h, p),
        decreases limit - k,
    {
        assert(h.subrange(k as int, k + n) =~= hay@.subrange(from + k, from + k + n));
        if range_eq(hay, from + k, to, pat, pf, pt) {
            return Some(k);
        }
        if k == limit {
            assert(find_from(h, p, k + 1) is None);
            return None;
        }
        k = k + 1;
    }
}

/// `index_of` on `cs[from..to]`, as a position relative to `from`.
pub(crate) fn index_of_in(cs: &Vec<char>, from: usize, to: usize, c: char) -> (r: Option<usize>)
    requires
        from <= to <= cs.len(),
    ensures
        r matches Some(k) ==> index_of(cs@.subrange(from as int, to as int), c) == Some(k as int),
        r is None ==> index_of(cs@.subrange(from as int, to as int), c) is None,
{
    let ghost s = cs@.subrange(from as int, to as int);
    let mut k = from;
    while k < to
        invariant
            from <= k <= to <= cs.len(),
            s == cs@.subrange(from as int, to as int),
            index_of_from(s, c, k - from) == index_of(s, c),
        decreases to - k,
    {
        if cs[k] == c {
            return Some(k - from);
        }
        k = k + 1;
    }
    None
}

/// `last_index_of` on `cs[from..to]`, as a position relative to `from`.
pub(crate) fn last_index_of_in(cs: &Vec<char>, from: usize, to: usize, c: char) -> (r: Option<usize>)
    requires
        from <= to <= cs.len(),
    ensures
        r matches Some(k) ==> last_index_of(cs@.subrange(from as int, to as int), c) == Some(k as int),
        r is None ==> last_index_of(cs@.subrange(from as int, to as int), c) is None,
{
    let ghost s = cs@.subrange(from as int, to as int);
    let mut k = to;
    while k > from
        invariant
            from <= k <= to <= cs.len(),
            s == cs@.subrange(from as int, to as int),
            last_index_of_to(s, c, k - from - 1) == last_index_of(s, c),
        decreases k,
    {
        if cs[k - 1] == c {
            return Some(k - 1 - from);
        }
        k = k - 1;
    }
    None
}

/// Whether `hay[from..to]` begins with `lit`.
pub(crate) fn starts_with_in(hay: &Vec<char>, from: usize, to: usize, lit: &Vec<char>) -> (b: bool)
    requires
        from <= to <= hay.len(),
    ensures
        b == starts_with(hay@.subrange(from as int, to as int), lit@),
{
    if lit.len() > to - from {
        return false;
    }
    let r = range_eq(hay, from, to, lit, 0, lit.len());
    assert(lit@.subrange(0, lit.len() as int) =~= lit@);
    assert(hay@.subrange(from as int, to as int).subrange(0, lit.len() as int) =~= hay@.subrange(
        from as int,
        from + lit.len(),
    ));
    r
}

/// `t` neither begins nor ends with white space.
pub open spec fn is_trimmed(t: Seq<char>) -> bool {
    t.len() == 0 || (!is_whitespace(t[0]) && !is_whitespace(t.last()))
}

/// A text that neither begins nor ends with white space is its own trim.
pub proof fn lemma_trimmed_is_own_trim(t: Seq<char>)
    requires
        is_trimmed(t),
    ensures
        trim(t) == t,
{
    assert(space_end(t, 0) == 0);
    assert(trim_start(t) =~= t);
    assert(space_start(t, t.len() as int) == t.len());
    assert(trim(t) =~= t);
}

proof fn lemma_space_end_stops(s: Seq<char>, k: int)
    requires
        0 <= k,
        space_end(s, k) < s.len(),
    ensures
        !is_whitespace(s[space_end(s, k)]),
    decreases s.len() - k,
{
    if k < s.len() && is_whitespace(s[k]) {
        lemma_space_end_stops(s, k + 1);
    }
}

proof fn lemma_space_start_stops(s: Seq<char>, k: int)
    requires
        k <= s.len(),
        space_start(s, k) > 0,
    ensures
        !is_whitespace(s[space_start(s, k) - 1]),
    decreases k,
{
    if 0 < k <= s.len() && is_whitespace(s[k - 1]) {
        lemma_space_start_stops(s, k - 1);
    }
}

pub(crate) proof fn lemma_trim(s: Seq<char>)
    ensures
        is_trimmed(trim(s)),
        0 <= space_end(s, 0),
        space_end(s, 0) + trim(s).len() <= s.len(),
        trim(s) == s.subrange(space_end(s, 0), space_end(s, 0) + trim(s).len()),
{
    lemma_space_end(s, 0);
    let t = trim_start(s);
    lemma_space_start(t, t.len() as int);
    assert(trim(s) =~= s.subrange(space_end(s, 0), space_end(s, 0) + trim(s).len()));
    if trim(s).len() > 0 {
        lemma_space_end_stops(s, 0);
        lemma_space_start_stops(t, t.len() as int);
        assert(trim(s)[0] == s[space_end(s, 0)]);
        assert(trim(s).last() == t[space_start(t, t.len() as int) - 1]);
    }
}

/// The bounds of `trim(cs[from..to])`: leading and then trailing white space removed.
pub(crate) fn trim_range(cs: &Vec<char>, from: usize, to: usize) -> (r: (usize, usize))
    requires
        from <= to <= cs.len(),
    ensures
        from <= r.0 <= r.1 <= to,
        r.0 == from + space_end(cs@.subrange(from as int, to as int), 0),
        cs@.subrange(r.0 as int, r.1 as int) == trim(cs@.subrange(from as int, to as int)),
{
    let ghost s = cs@.subrange(from as int, to as int);
    let mut a = from;
    while a < to && char_is_whitespace(cs[a])
        invariant
            from <= a <= to <= cs.len(),
            s == cs@.subrange(from as int, to as int),
            space_end(s, (a - from) as int) == space_end(s, 0),
        decreases to - a,
    {
        a = a + 1;
    }
    let ghost t = trim_start(s);
    assert(t =~= cs@.subrange(a as int, to as int));
    let mut b = to;
    while b > a && char_is_whitespace(cs[b - 1])
        invariant
            from <= a <= b <= to <= cs.len(),
            t == cs@.subrange(a as int, to as int),
            space_start(t, (b - a) as int) == space_start(t, t.len() as int),
        decreases b - a,
    {
        b = b - 1;
    }
    assert(cs@.subrange(a as int, b as int) =~= t.take((b - a) as int));
    (a, b)
}

} // verus!
