//! Searching for a byte pattern inside a byte sequence: the workhorse of
//! multipart framing and of content-type classification.
use vstd::prelude::*;

verus! {

/// The pattern `pat` occurs in `s` starting at position `i`.
pub open spec fn match_at(s: Seq<u8>, pat: Seq<u8>, i: int) -> bool {
    0 <= i && i + pat.len() <= s.len() && s.subrange(i, i + pat.len() as int) == pat
}

/// Position of the first occurrence of `pat` in `s` at or after `i`.
pub open spec fn first_match_from(s: Seq<u8>, pat: Seq<u8>, i: int) -> Option<int>
    recommends
        0 <= i,
    decreases s.len() - i when 0 <= i
{
    if i + pat.len() > s.len() {
        None
    } else if pat.len() == 0 {
        Some(i)
    } else if match_at(s, pat, i) {
        Some(i)
    } else {
        first_match_from(s, pat, i + 1)
    }
}

/// `pat` occurs somewhere in `s`.
pub open spec fn contains_seq(s: Seq<u8>, pat: Seq<u8>) -> bool {
    first_match_from(s, pat, 0) is Some
}

/// `s` begins with `pat`.
pub open spec fn starts_with(s: Seq<u8>, pat: Seq<u8>) -> bool {
    pat.len() <= s.len() && s.subrange(0, pat.len() as int) == pat
}

/// A found occurrence lies within bounds, is a real occurrence, and is the
/// first one at or after the starting position; absence means no occurrence.
pub proof fn lemma_first_match_from(s: Seq<u8>, pat: Seq<u8>, i: int)
    requires
        0 <= i,
    ensures
        match first_match_from(s, pat, i) {
            Some(j) => i <= j && j + pat.len() <= s.len() && match_at(s, pat, j)
                && forall|k: int| i <= k < j ==> !match_at(s, pat, k),
            None => forall|k: int| i <= k ==> !match_at(s, pat, k),
        },
    decreases s.len() - i,
{
    if i + pat.len() > s.len() {
        assert forall|k: int| i <= k implies !match_at(s, pat, k) by {}
    } else if pat.len() == 0 {
        assert(s.subrange(i, i) =~= pat);
    } else if match_at(s, pat, i) {
    } else {
        lemma_first_match_from(s, pat, i + 1);
    }
}

/// A real occurrence preceded by no earlier one is what the search returns.
pub proof fn lemma_first_match_exact(s: Seq<u8>, pat: Seq<u8>, i: int, j: int)
    requires
        0 <= i <= j,
        match_at(s, pat, j),
        forall|k: int| i <= k < j ==> !match_at(s, pat, k),
    ensures
        first_match_from(s, pat, i) == Some(j),
    decreases j - i,
{
    if pat.len() == 0 {
        assert(s.subrange(i, i) =~= pat);
        if i < j {
            assert(match_at(s, pat, i));
            assert(false);
        }
    } else if i == j {
    } else {
        lemma_first_match_exact(s, pat, i + 1, j);
    }
}

/// In `a + pat + c` the first occurrence of `pat` is at `a.len()`, provided
/// no occurrence of `pat` starts inside `a` (including ones that would run
/// over the junction into the appended copy of `pat`).
pub proof fn lemma_first_match_junction(a: Seq<u8>, pat: Seq<u8>, c: Seq<u8>)
    requires
        forall|k: int| 0 <= k < a.len() ==> !match_at(a + pat, pat, k),
    ensures
        first_match_from(a + pat + c, pat, 0) == Some(a.len() as int),
{
    let s = a + pat + c;
    assert(s.subrange(a.len() as int, a.len() + pat.len() as int) =~= pat);
    assert(match_at(s, pat, a.len() as int));
    assert forall|k: int| 0 <= k < a.len() implies !match_at(s, pat, k) by {
        if match_at(s, pat, k) {
            assert(s.subrange(k, k + pat.len()) =~= (a + pat).subrange(k, k + pat.len()));
            assert(match_at(a + pat, pat, k));
        }
    }
    lemma_first_match_exact(s, pat, 0, a.len() as int);
}

/// Searching the suffix of `s` that starts at `p` is searching `s` from
/// `p`, with positions shifted by `p`.
pub proof fn lemma_first_match_skip(s: Seq<u8>, pat: Seq<u8>, p: int, i: int)
    requires
        0 <= p <= i,
        p <= s.len(),
    ensures
        first_match_from(s, pat, i) == match first_match_from(s.skip(p), pat, i - p) {
            Some(j) => Some(j + p),
            None => None::<int>,
        },
    decreases s.len() - i,
{
    let t = s.skip(p);
    assert(t.len() == s.len() - p);
    if i + pat.len() > s.len() {
    } else if pat.len() == 0 {
    } else {
        assert(match_at(s, pat, i) == match_at(t, pat, i - p)) by {
            if match_at(s, pat, i) {
                assert(t.subrange(i - p, i - p + pat.len() as int) =~= s.subrange(
                    i,
                    i + pat.len() as int,
                ));
            }
            if match_at(t, pat, i - p) {
                assert(s.subrange(i, i + pat.len() as int) =~= t.subrange(
                    i - p,
                    i - p + pat.len() as int,
                ));
            }
        }
        if match_at(s, pat, i) {
        } else {
            lemma_first_match_skip(s, pat, p, i + 1);
        }
    }
}

/// No occurrence of `pat` starts inside `a`, even running over into one
/// appended copy of `pat`. This is the side condition under which the
/// encoding of `a` delimited by `pat` can be parsed back.
pub open spec fn delimiter_free(a: Seq<u8>, pat: Seq<u8>) -> bool {
    forall|k: int| 0 <= k < a.len() ==> !match_at(a + pat, pat, k)
}

/// The bytes of `s` from `i` to `i + pat.len()` equal `pat`.
pub fn slice_match_at(s: &[u8], pat: &[u8], i: usize) -> (r: bool)
    requires
        i + pat@.len() <= s@.len(),
    ensures
        r == match_at(s@, pat@, i as int),
{
    let s_len = s.len();
    let mut k: usize = 0;
    while k < pat.len()
        invariant
            k <= pat@.len(),
            i + pat@.len() <= s@.len(),
            s_len == s@.len(),
            forall|m: int| 0 <= m < k ==> s@[i + m] == pat@[m],
        decreases pat@.len() - k,
    {
        if s[i + k] != pat[k] {
            assert(!match_at(s@, pat@, i as int)) by {
                if match_at(s@, pat@, i as int) {
                    assert(s@.subrange(i as int, i + pat@.len())[k as int] == pat@[k as int]);
                }
            }
            return false;
        }
        k = k + 1;
    }
    assert(s@.subrange(i as int, i + pat@.len()) =~= pat@);
    true
}

/// Position of the first occurrence of `pat` in `s` at or after `from`.
pub fn find_from(s: &[u8], pat: &[u8], from: usize) -> (r: Option<usize>)
    ensures
        match r {
            Some(j) => Some(j as int) == first_match_from(s@, pat@, from as int),
            None => first_match_from(s@, pat@, from as int) is None,
        },
{
    proof {
        lemma_first_match_from(s@, pat@, from as int);
    }
    if pat.len() > s.len() {
        return None;
    }
    if pat.len() == 0 {
        if from <= s.len() {
            proof {
                assert(s@.subrange(from as int, from as int) =~= pat@);
            }
            return Some(from);
        }
        return None;
    }
    let bound: usize = s.len() - pat.len();
    if from > bound {
        return None;
    }
    let mut i: usize = from;
    while i <= bound
        invariant
            pat@.len() <= s@.len(),
            bound == s@.len() - pat@.len(),
            from <= i <= bound + 1,
            forall|k: int| from <= k < i ==> !match_at(s@, pat@, k),
        decreases s@.len() - i,
    {
        if slice_match_at(s, pat, i) {
            proof {
                lemma_first_match_exact(s@, pat@, from as int, i as int);
            }
            return Some(i);
        }
        i = i + 1;
    }
    assert forall|k: int| from <= k implies !match_at(s@, pat@, k) by {}
    None
}

/// `pat` occurs somewhere in `s`.
pub fn contains_bytes(s: &[u8], pat: &[u8]) -> (r: bool)
    ensures
        r == contains_seq(s@, pat@),
{
    find_from(s, pat, 0).is_some()
}

/// `s` begins with `pat`.
pub fn starts_with_bytes(s: &[u8], pat: &[u8]) -> (r: bool)
    ensures
        r == starts_with(s@, pat@),
{
    if pat.len() > s.len() {
        return false;
    }
    let r = slice_match_at(s, pat, 0);
    proof {
        if match_at(s@, pat@, 0) {
            assert(s@.subrange(0, pat@.len() as int) == pat@);
        }
    }
    r
}

/// The suffix of `s` starting at `p` begins with `pat`.
pub fn has_prefix_at(s: &[u8], pat: &[u8], p: usize) -> (r: bool)
    requires
        p <= s@.len(),
    ensures
        r == starts_with(s@.skip(p as int), pat@),
{
    if pat.len() > s.len() - p {
        return false;
    }
    let m = slice_match_at(s, pat, p);
    proof {
        let t = s@.skip(p as int);
        if match_at(s@, pat@, p as int) {
            assert(t.subrange(0, pat@.len() as int) =~= s@.subrange(p as int, p + pat@.len()));
        }
        if starts_with(t, pat@) {
            assert(s@.subrange(p as int, p + pat@.len()) =~= t.subrange(0, pat@.len() as int));
        }
    }
    m
}

/// Position in `s` of the first occurrence of `pat` at or after `p`,
/// stated over the suffix of `s` that starts at `p`.
pub fn find_at(s: &[u8], pat: &[u8], p: usize) -> (r: Option<usize>)
    requires
        p <= s@.len(),
    ensures
        match r {
            Some(j) => p <= j && j + pat@.len() <= s@.len() && first_match_from(
                s@.skip(p as int),
                pat@,
                0,
            ) == Some(j - p),
            None => first_match_from(s@.skip(p as int), pat@, 0) is None,
        },
{
    proof {
        lemma_first_match_skip(s@, pat@, p as int, p as int);
        lemma_first_match_from(s@, pat@, p as int);
    }
    find_from(s, pat, p)
}

/// Copy of the bytes of `s` from `from` to `to`.
pub fn sub_vec(s: &[u8], from: usize, to: usize) -> (r: Vec<u8>)
    requires
        from <= to <= s@.len(),
    ensures
        r@ == s@.subrange(from as int, to as int),
{
    let mut r: Vec<u8> = Vec::new();
    let mut i: usize = from;
    while i < to
        invariant
            from <= i <= to,
            r@ == s@.subrange(from as int, i as int),
        decreases to - i,
    {
        r.push(s[i]);
        assert(r@ =~= s@.subrange(from as int, i + 1));
        i = i + 1;
    }
    r
}

/// Appends all of `s` to `v`.
pub fn push_all(v: &mut Vec<u8>, s: &[u8])
    ensures
        final(v)@ == old(v)@ + s@,
{
    let mut i: usize = 0;
    while i < s.len()
        invariant
            i <= s@.len(),
            v@ == old(v)@ + s@.subrange(0, i as int),
        decreases s@.len() - i,
    {
        v.push(s[i]);
        assert(v@ =~= old(v)@ + s@.subrange(0, i + 1));
        i = i + 1;
    }
    assert(v@ =~= old(v)@ + s@);
}

} // verus!
