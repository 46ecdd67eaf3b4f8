//! Substring search over character sequences: the spec-level notion of a
//! pattern occurring at a position, a first-occurrence function, and verified
//! executable search routines used by the stream segmenter.
use vstd::prelude::*;

verus! {

/// Pattern `p` occurs in `s` starting at position `i`.
pub open spec fn match_at(s: Seq<char>, p: Seq<char>, i: int) -> bool {
    &&& 0 <= i
    &&& i + p.len() <= s.len()
    &&& s.subrange(i, i + p.len() as int) == p
}

/// Position of the first occurrence of `p` in `s` at or after `from`,
/// if there is one.
pub open spec fn find_from(s: Seq<char>, p: Seq<char>, from: int) -> Option<int>
    decreases s.len() - from,
{
    if from < 0 || from + p.len() > s.len() {
        None
    } else if match_at(s, p, from) {
        Some(from)
    } else if p.len() == 0 {
        // unreachable: an in-bounds empty pattern always matches
        None
    } else {
        find_from(s, p, from + 1)
    }
}

/// A successful search returns the first occurrence at or after `from`.
pub proof fn lemma_find_from_some(s: Seq<char>, p: Seq<char>, from: int, j: int)
    requires
        0 <= from,
        find_from(s, p, from) == Some(j),
    ensures
        from <= j,
        match_at(s, p, j),
        forall|k: int| from <= k < j ==> !match_at(s, p, k),
    decreases s.len() - from,
{
    if from + p.len() > s.len() {
    } else if match_at(s, p, from) {
    } else if p.len() == 0 {
    } else {
        lemma_find_from_some(s, p, from + 1, j);
    }
}

/// Conversely, the earliest occurrence at or after `from` is what the search
/// returns.
pub proof fn lemma_find_from_is_first(s: Seq<char>, p: Seq<char>, from: int, j: int)
    requires
        0 <= from <= j,
        match_at(s, p, j),
        forall|k: int| from <= k < j ==> !match_at(s, p, k),
    ensures
        find_from(s, p, from) == Some(j),
    decreases j - from,
{
    if from == j {
    } else {
        assert(p.len() > 0) by {
            if p.len() == 0 {
                assert(s.subrange(from, from) =~= p);
            }
        }
        lemma_find_from_is_first(s, p, from + 1, j);
    }
}

/// A pattern that contains `'<'` only as its first character cannot occur
/// straddling a position that itself carries a `'<'`.
pub proof fn lemma_no_straddle(w: Seq<char>, p: Seq<char>, q: int, b: int)
    requires
        p.len() > 0,
        p[0] == '<',
        forall|i: int| 1 <= i < p.len() ==> p[i] != '<',
        q < b < q + p.len(),
        0 <= b < w.len(),
        w[b] == '<',
    ensures
        !match_at(w, p, q),
{
    if match_at(w, p, q) {
        assert(w.subrange(q, q + p.len() as int)[b - q] == p[b - q]);
        assert(w[b] == p[b - q]);
    }
}

/// Whether `pat` occurs in `hay` starting at character index `i`.
pub fn is_match_at(hay: &str, pat: &str, i: usize) -> (b: bool)
    requires
        i + pat@.len() <= hay@.len(),
    ensures
        b == match_at(hay@, pat@, i as int),
{
    let hlen: usize = hay.unicode_len();
    let plen: usize = pat.unicode_len();
    let mut k: usize = 0;
    while k < plen
        invariant
            0 <= k <= plen,
            plen == pat@.len(),
            hlen == hay@.len(),
            i + plen <= hlen,
            forall|m: int| 0 <= m < k ==> hay@[i + m] == pat@[m],
        decreases plen - k,
    {
        if hay.get_char(i + k) != pat.get_char(k) {
            assert(!match_at(hay@, pat@, i as int)) by {
                if match_at(hay@, pat@, i as int) {
                    assert(hay@.subrange(i as int, i + plen)[k as int] == pat@[k as int]);
                }
            }
            return false;
        }
        k = k + 1;
    }
    assert(hay@.subrange(i as int, i + plen) =~= pat@);
    true
}

/// First occurrence of `pat` in `hay` at or after character index `from`.
pub fn find_str(hay: &str, pat: &str, from: usize) -> (r: Option<usize>)
    ensures
        match r {
            Some(j) => find_from(hay@, pat@, from as int) == Some(j as int),
            None => find_from(hay@, pat@, from as int) is None,
        },
{
    let hlen: usize = hay.unicode_len();
    let plen: usize = pat.unicode_len();
    if from > hlen || plen > hlen || from > hlen - plen {
        return None;
    }
    if plen == 0 {
        assert(hay@.subrange(from as int, from as int) =~= pat@);
        return Some(from);
    }
    let mut i: usize = from;
    while i <= hlen - plen
        invariant
            from <= i,
            1 <= plen <= hlen,
            hlen == hay@.len(),
            plen == pat@.len(),
            find_from(hay@, pat@, from as int) == find_from(hay@, pat@, i as int),
        decreases hlen - i,
    {
        if is_match_at(hay, pat, i) {
            return Some(i);
        }
        assert(find_from(hay@, pat@, i as int) == find_from(hay@, pat@, i + 1));
        i = i + 1;
    }
    None
}

/// Whether `s` begins with `p`.
pub fn starts_with_lit(s: &str, p: &str) -> (r: bool)
    ensures
        r == (s@.len() >= p@.len() && s@.subrange(0, p@.len() as int) == p@),
{
    let sl: usize = s.unicode_len();
    let pl: usize = p.unicode_len();
    if sl < pl {
        false
    } else {
        is_match_at(s, p, 0)
    }
}

/// Verified character-wise equality of two string slices.
pub fn str_eq(a: &str, b: &str) -> (r: bool)
    ensures
        r == (a@ == b@),
{
    let alen: usize = a.unicode_len();
    let blen: usize = b.unicode_len();
    if alen != blen {
        return false;
    }
    let mut k: usize = 0;
    while k < alen
        invariant
            0 <= k <= alen,
            alen == a@.len(),
            alen == b@.len(),
            forall|m: int| 0 <= m < k ==> a@[m] == b@[m],
        decreases alen - k,
    {
        if a.get_char(k) != b.get_char(k) {
            assert(a@ != b@);
            return false;
        }
        k = k + 1;
    }
    assert(a@ =~= b@);
    true
}

} // verus!
