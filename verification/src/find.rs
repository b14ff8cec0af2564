//! Locating a fixed byte pattern inside a sequence.
//!
//! The delimiter scanning done by the stream demultiplexer, as well as token
//! parsing, is specified in terms of the *leftmost* (and for parsing also the
//! *rightmost*) occurrence of a pattern inside a sequence.  This module defines
//! those notions, proves their characterisations, and provides executable
//! searches over byte slices.

use vstd::prelude::*;

verus! {

/// `pat` occurs as a contiguous run inside `s` starting at index `i`.
pub open spec fn occurs_at<A>(s: Seq<A>, pat: Seq<A>, i: int) -> bool {
    0 <= i && i + pat.len() <= s.len() && s.subrange(i, i + pat.len()) == pat
}

/// Index of the leftmost occurrence of `pat` inside `s`, if there is one.
pub open spec fn spec_find<A>(s: Seq<A>, pat: Seq<A>) -> Option<int>
    decreases s.len(),
{
    if pat.len() > s.len() {
        None
    } else if s.subrange(0, pat.len() as int) == pat {
        Some(0int)
    } else if s.len() == pat.len() {
        None
    } else {
        match spec_find(s.skip(1), pat) {
            Some(i) => Some(i + 1),
            None => None,
        }
    }
}

/// Index of the rightmost occurrence of `pat` inside `s`, if there is one.
pub open spec fn spec_rfind<A>(s: Seq<A>, pat: Seq<A>) -> Option<int>
    decreases s.len(),
{
    if pat.len() > s.len() {
        None
    } else if s.subrange(s.len() - pat.len(), s.len() as int) == pat {
        Some(s.len() - pat.len())
    } else if s.len() == pat.len() {
        None
    } else {
        spec_rfind(s.take(s.len() - 1), pat)
    }
}

/// `spec_find` returns the leftmost occurrence, or `None` when there is none.
pub proof fn lemma_find_characterizes<A>(s: Seq<A>, pat: Seq<A>)
    ensures
        match spec_find(s, pat) {
            Some(i) => occurs_at(s, pat, i) && (forall|j: int|
                0 <= j < i ==> !occurs_at(s, pat, j)),
            None => forall|j: int| !(#[trigger] occurs_at(s, pat, j)),
        },
    decreases s.len(),
{
    if pat.len() > s.len() {
    } else if s.subrange(0, pat.len() as int) == pat {
        assert(occurs_at(s, pat, 0));
    } else if s.len() == pat.len() {
        assert forall|j: int| !(#[trigger] occurs_at(s, pat, j)) by {
            if occurs_at(s, pat, j) {
                assert(j == 0);
            }
        }
    } else {
        lemma_find_characterizes(s.skip(1), pat);
        assert forall|j: int| 1 <= j implies (occurs_at(s, pat, j) == occurs_at(
            s.skip(1),
            pat,
            j - 1,
        )) by {
            if occurs_at(s, pat, j) {
                assert(s.skip(1).subrange(j - 1, j - 1 + pat.len()) =~= s.subrange(
                    j,
                    j + pat.len(),
                ));
            }
            if occurs_at(s.skip(1), pat, j - 1) {
                assert(s.subrange(j, j + pat.len()) =~= s.skip(1).subrange(
                    j - 1,
                    j - 1 + pat.len(),
                ));
            }
        }
        match spec_find(s.skip(1), pat) {
            Some(i) => {
                assert(occurs_at(s, pat, i + 1));
                assert forall|j: int| 0 <= j < i + 1 implies !occurs_at(s, pat, j) by {
                    if occurs_at(s, pat, j) {
                        assert(j != 0);
                        assert(occurs_at(s.skip(1), pat, j - 1));
                    }
                }
            },
            None => {
                assert forall|j: int| !(#[trigger] occurs_at(s, pat, j)) by {
                    if occurs_at(s, pat, j) {
                        assert(j != 0);
                        assert(occurs_at(s.skip(1), pat, j - 1));
                    }
                }
            },
        }
    }
}

/// The leftmost occurrence determines the value of `spec_find`.
pub proof fn lemma_find_is_first<A>(s: Seq<A>, pat: Seq<A>, i: int)
    requires
        occurs_at(s, pat, i),
        forall|j: int| 0 <= j < i ==> !occurs_at(s, pat, j),
    ensures
        spec_find(s, pat) == Some(i),
{
    lemma_find_characterizes(s, pat);
    match spec_find(s, pat) {
        Some(k) => {
            if k < i {
                assert(occurs_at(s, pat, k));
            }
            if i < k {
                assert(!occurs_at(s, pat, i));
            }
        },
        None => {
            assert(!occurs_at(s, pat, i));
        },
    }
}

/// `spec_rfind` returns the rightmost occurrence, or `None` when there is none.
pub proof fn lemma_rfind_characterizes<A>(s: Seq<A>, pat: Seq<A>)
    ensures
        match spec_rfind(s, pat) {
            Some(i) => occurs_at(s, pat, i) && (forall|j: int|
                i < j ==> !occurs_at(s, pat, j)),
            None => forall|j: int| !(#[trigger] occurs_at(s, pat, j)),
        },
    decreases s.len(),
{
    if pat.len() > s.len() {
    } else if s.subrange(s.len() - pat.len(), s.len() as int) == pat {
        assert(occurs_at(s, pat, s.len() - pat.len()));
        assert forall|j: int| s.len() - pat.len() < j implies !occurs_at(s, pat, j) by {}
    } else if s.len() == pat.len() {
        assert forall|j: int| !(#[trigger] occurs_at(s, pat, j)) by {
            if occurs_at(s, pat, j) {
                assert(j == 0);
                assert(s.subrange(s.len() - pat.len(), s.len() as int) == pat);
            }
        }
    } else {
        let head = s.take(s.len() - 1);
        lemma_rfind_characterizes(head, pat);
        match spec_rfind(head, pat) {
            Some(i) => {
                assert(s.subrange(i, i + pat.len()) =~= head.subrange(i, i + pat.len()));
                assert(occurs_at(s, pat, i));
                assert forall|j: int| i < j implies !occurs_at(s, pat, j) by {
                    if occurs_at(s, pat, j) {
                        if j + pat.len() < s.len() {
                            assert(head.subrange(j, j + pat.len()) =~= s.subrange(
                                j,
                                j + pat.len(),
                            ));
                            assert(occurs_at(head, pat, j));
                        } else {
                            assert(j == s.len() - pat.len());
                            assert(s.subrange(s.len() - pat.len(), s.len() as int) == pat);
                        }
                    }
                }
            },
            None => {
                assert forall|j: int| !(#[trigger] occurs_at(s, pat, j)) by {
                    if occurs_at(s, pat, j) {
                        if j + pat.len() < s.len() {
                            assert(head.subrange(j, j + pat.len()) =~= s.subrange(
                                j,
                                j + pat.len(),
                            ));
                            assert(occurs_at(head, pat, j));
                        } else {
                            assert(j == s.len() - pat.len());
                            assert(s.subrange(s.len() - pat.len(), s.len() as int) == pat);
                        }
                    }
                }
            },
        }
    }
}

/// The rightmost occurrence determines the value of `spec_rfind`.
pub proof fn lemma_rfind_is_last<A>(s: Seq<A>, pat: Seq<A>, i: int)
    requires
        occurs_at(s, pat, i),
        forall|j: int| i < j ==> !occurs_at(s, pat, j),
    ensures
        spec_rfind(s, pat) == Some(i),
{
    lemma_rfind_characterizes(s, pat);
    match spec_rfind(s, pat) {
        Some(k) => {
            if k < i {
                assert(!occurs_at(s, pat, i));
            }
            if i < k {
                assert(occurs_at(s, pat, k));
            }
        },
        None => {
            assert(!occurs_at(s, pat, i));
        },
    }
}

/// Occurrences within the first `w` elements are exactly the occurrences of
/// the corresponding prefix.
pub proof fn lemma_occurs_take<A>(s: Seq<A>, pat: Seq<A>, w: int, j: int)
    requires
        0 <= w <= s.len(),
    ensures
        occurs_at(s.take(w), pat, j) == (occurs_at(s, pat, j) && j + pat.len() <= w),
{
    if occurs_at(s, pat, j) && j + pat.len() <= w {
        assert(s.take(w).subrange(j, j + pat.len()) =~= s.subrange(j, j + pat.len()));
    }
    if occurs_at(s.take(w), pat, j) {
        assert(s.subrange(j, j + pat.len()) =~= s.take(w).subrange(j, j + pat.len()));
    }
}

/// Occurrences in `s.skip(c)` are occurrences in `s` shifted by `c`.
pub proof fn lemma_occurs_skip<A>(s: Seq<A>, pat: Seq<A>, c: int, j: int)
    requires
        0 <= c <= s.len(),
        0 <= j,
    ensures
        occurs_at(s.skip(c), pat, j) == occurs_at(s, pat, c + j),
{
    if occurs_at(s, pat, c + j) {
        assert(s.skip(c).subrange(j, j + pat.len()) =~= s.subrange(c + j, c + j + pat.len()));
    }
    if occurs_at(s.skip(c), pat, j) {
        assert(s.subrange(c + j, c + j + pat.len()) =~= s.skip(c).subrange(j, j + pat.len()));
    }
}

/// Dropping a prefix known to be free of occurrences shifts `spec_find`.
pub proof fn lemma_find_skip<A>(s: Seq<A>, pat: Seq<A>, c: int)
    requires
        0 <= c <= s.len(),
        forall|j: int| 0 <= j < c ==> !occurs_at(s, pat, j),
    ensures
        spec_find(s.skip(c), pat) == match spec_find(s, pat) {
            Some(i) => Some(i - c),
            None => None::<int>,
        },
{
    lemma_find_characterizes(s, pat);
    match spec_find(s, pat) {
        Some(i) => {
            assert(i >= c);
            lemma_occurs_skip(s, pat, c, i - c);
            assert forall|j: int| 0 <= j < i - c implies !occurs_at(s.skip(c), pat, j) by {
                lemma_occurs_skip(s, pat, c, j);
            }
            lemma_find_is_first(s.skip(c), pat, i - c);
        },
        None => {
            lemma_find_characterizes(s.skip(c), pat);
            match spec_find(s.skip(c), pat) {
                Some(k) => {
                    lemma_occurs_skip(s, pat, c, k);
                    assert(false);
                },
                None => {},
            }
        },
    }
}

/// Searching a prefix window: a hit in the window is the leftmost hit overall,
/// and a miss rules out every occurrence that would fit inside the window.
pub proof fn lemma_find_window<A>(s: Seq<A>, pat: Seq<A>, w: int)
    requires
        0 <= w <= s.len(),
    ensures
        match spec_find(s.take(w), pat) {
            Some(k) => spec_find(s, pat) == Some(k),
            None => forall|j: int| 0 <= j && j + pat.len() <= w ==> !occurs_at(s, pat, j),
        },
{
    lemma_find_characterizes(s.take(w), pat);
    match spec_find(s.take(w), pat) {
        Some(k) => {
            lemma_occurs_take(s, pat, w, k);
            assert forall|j: int| 0 <= j < k implies !occurs_at(s, pat, j) by {
                lemma_occurs_take(s, pat, w, j);
            }
            lemma_find_is_first(s, pat, k);
        },
        None => {
            assert forall|j: int| 0 <= j && j + pat.len() <= w implies !occurs_at(
                s,
                pat,
                j,
            ) by {
                lemma_occurs_take(s, pat, w, j);
            }
        },
    }
}

/// Leftmost occurrence of `pat` in `hay[from..to]`, reported as an absolute
/// index into `hay`.
pub fn find_in(hay: &[u8], from: usize, to: usize, pat: &[u8]) -> (r: Option<usize>)
    requires
        from <= to <= hay@.len(),
    ensures
        match r {
            Some(k) => from <= k && k + pat@.len() <= to && spec_find(
                hay@.subrange(from as int, to as int),
                pat@,
            ) == Some(k - from),
            None => spec_find(hay@.subrange(from as int, to as int), pat@) is None,
        },
{
    let ghost region = hay@.subrange(from as int, to as int);
    let plen = pat.len();
    if to - from < plen {
        return None;
    }
    let mut i = from;
    while i <= to - plen
        invariant
            from <= i <= to - plen + 1,
            plen == pat@.len(),
            plen <= to - from,
            from <= to <= hay@.len(),
            region == hay@.subrange(from as int, to as int),
            forall|j: int| 0 <= j < i - from ==> !occurs_at(region, pat@, j),
        decreases to - i,
    {
        let mut m: usize = 0;
        let mut ok = true;
        while m < plen
            invariant
                0 <= m <= plen,
                plen == pat@.len(),
                from <= i <= to - plen,
                from <= to <= hay@.len(),
                region == hay@.subrange(from as int, to as int),
                ok == (forall|q: int| 0 <= q < m ==> region[i - from + q] == pat@[q]),
            decreases plen - m,
        {
            if hay[i + m] != pat[m] {
                ok = false;
            }
            m += 1;
        }
        if ok {
            proof {
                assert(region.subrange(i - from, i - from + pat@.len()) =~= pat@);
                assert(occurs_at(region, pat@, i - from));
                lemma_find_is_first(region, pat@, i - from);
            }
            return Some(i);
        }
        proof {
            if occurs_at(region, pat@, i - from) {
                assert(forall|q: int|
                    0 <= q < pat@.len() ==> #[trigger] region.subrange(
                        i - from,
                        i - from + pat@.len(),
                    )[q] == region[i - from + q]);
                assert(false);
            }
        }
        i += 1;
    }
    proof {
        lemma_find_characterizes(region, pat@);
        match spec_find(region, pat@) {
            Some(k) => {
                assert(occurs_at(region, pat@, k));
                assert(k < i - from);
                assert(false);
            },
            None => {},
        }
    }
    None
}

/// Rightmost occurrence of `pat` in `hay[from..to]`, reported as an absolute
/// index into `hay`.
pub fn rfind_in(hay: &[u8], from: usize, to: usize, pat: &[u8]) -> (r: Option<usize>)
    requires
        from <= to <= hay@.len(),
    ensures
        match r {
            Some(k) => from <= k && k + pat@.len() <= to && spec_rfind(
                hay@.subrange(from as int, to as int),
                pat@,
            ) == Some(k - from),
            None => spec_rfind(hay@.subrange(from as int, to as int), pat@) is None,
        },
{
    let ghost region = hay@.subrange(from as int, to as int);
    let plen = pat.len();
    if to - from < plen {
        return None;
    }
    let mut i = to - plen;
    loop
        invariant
            from <= i <= to - plen,
            plen == pat@.len(),
            plen <= to - from,
            from <= to <= hay@.len(),
            region == hay@.subrange(from as int, to as int),
            forall|j: int| i - from < j ==> !occurs_at(region, pat@, j),
        decreases i,
    {
        let mut m: usize = 0;
        let mut ok = true;
        while m < plen
            invariant
                0 <= m <= plen,
                plen == pat@.len(),
                from <= i <= to - plen,
                from <= to <= hay@.len(),
                region == hay@.subrange(from as int, to as int),
                ok == (forall|q: int| 0 <= q < m ==> region[i - from + q] == pat@[q]),
            decreases plen - m,
        {
            if hay[i + m] != pat[m] {
                ok = false;
            }
            m += 1;
        }
        if ok {
            proof {
                assert(region.subrange(i - from, i - from + pat@.len()) =~= pat@);
                assert(occurs_at(region, pat@, i - from));
                lemma_rfind_is_last(region, pat@, i - from);
            }
            return Some(i);
        }
        proof {
            if occurs_at(region, pat@, i - from) {
                assert(forall|q: int|
                    0 <= q < pat@.len() ==> #[trigger] region.subrange(
                        i - from,
                        i - from + pat@.len(),
                    )[q] == region[i - from + q]);
                assert(false);
            }
        }
        if i == from {
            proof {
                lemma_rfind_characterizes(region, pat@);
                match spec_rfind(region, pat@) {
                    Some(k) => {
                        assert(occurs_at(region, pat@, k));
                        assert(false);
                    },
                    None => {},
                }
            }
            return None;
        }
        i -= 1;
    }
}

/// No occurrence of `pat` starts before index `c`.
pub open spec fn clean<A>(s: Seq<A>, pat: Seq<A>, c: int) -> bool {
    forall|j: int| 0 <= j < c ==> !occurs_at(s, pat, j)
}

} // verus!
