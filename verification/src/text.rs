//! Character-level helpers over string slices.

use vstd::prelude::*;
use vstd::string::StrSliceExecFns;

use crate::find::{lemma_find_characterizes, lemma_find_is_first, occurs_at, spec_find};

verus! {

/// Character-for-character equality of two string slices.
pub fn str_eq(a: &str, b: &str) -> (r: bool)
    ensures
        r == (a@ == b@),
{
    let alen = a.unicode_len();
    let blen = b.unicode_len();
    if alen != blen {
        return false;
    }
    let mut i: usize = 0;
    let mut ok = true;
    while i < alen
        invariant
            0 <= i <= alen,
            alen == a@.len(),
            alen == b@.len(),
            ok == (forall|q: int| 0 <= q < i ==> a@[q] == b@[q]),
        decreases alen - i,
    {
        if a.get_char(i) != b.get_char(i) {
            ok = false;
        }
        i += 1;
    }
    proof {
        if ok {
            assert(a@ =~= b@);
        }
    }
    ok
}

/// Leftmost occurrence of `pat` in `hay` at or after `from`, reported as an
/// absolute character index.
pub fn find_chars(hay: &str, from: usize, pat: &str) -> (r: Option<usize>)
    requires
        from <= hay@.len(),
    ensures
        match r {
            Some(k) => from <= k && k + pat@.len() <= hay@.len() && spec_find(
                hay@.skip(from as int),
                pat@,
            ) == Some(k - from),
            None => spec_find(hay@.skip(from as int), pat@) is None,
        },
{
    let ghost region = hay@.skip(from as int);
    let hlen = hay.unicode_len();
    let plen = pat.unicode_len();
    if hlen - from < plen {
        return None;
    }
    let mut i = from;
    while i <= hlen - plen
        invariant
            from <= i <= hlen - plen + 1,
            plen == pat@.len(),
            plen <= hlen - from,
            from <= hlen,
            hlen == hay@.len(),
            region == hay@.skip(from as int),
            forall|j: int| 0 <= j < i - from ==> !occurs_at(region, pat@, j),
        decreases hlen - i,
    {
        let mut m: usize = 0;
        let mut ok = true;
        while m < plen
            invariant
                0 <= m <= plen,
                plen == pat@.len(),
                from <= i <= hlen - plen,
                hlen == hay@.len(),
                region == hay@.skip(from as int),
                ok == (forall|q: int| 0 <= q < m ==> region[i - from + q] == pat@[q]),
            decreases plen - m,
        {
            if hay.get_char(i + m) != pat.get_char(m) {
                ok = false;
            }
            m += 1;
        }
        if ok {
            proof {
                assert(region.subrange(i - from, i - from + pat@.len()) =~= pat@);
                assert(occurs_at(region, pat@, i - from));
                lemma_find_is_first(region, pat@, i - from);
            }
            return Some(i);
        }
        proof {
            if occurs_at(region, pat@, i - from) {
                assert(forall|q: int|
                    0 <= q < pat@.len() ==> #[trigger] region.subrange(
                        i - from,
                        i - from + pat@.len(),
                    )[q] == region[i - from + q]);
                assert(false);
            }
        }
        i += 1;
    }
    proof {
        lemma_find_characterizes(region, pat@);
        match spec_find(region, pat@) {
            Some(k) => {
                assert(occurs_at(region, pat@, k));
                assert(false);
            },
            None => {},
        }
    }
    None
}

/// Whether `hay` holds `pat` somewhere.  Used only to order redaction
/// candidates; callers rely on no more than the answer being a boolean.
pub fn str_contains(hay: &str, pat: &str) -> (r: bool)
    ensures
        r == (spec_find(hay@, pat@) is Some),
{
    proof {
        assert(hay@.skip(0) =~= hay@);
    }
    match find_chars(hay, 0, pat) {
        Some(_) => true,
        None => false,
    }
}

/// Strict lexicographic order on the character codes.
pub fn str_lt(a: &str, b: &str) -> (r: bool)
    ensures
        r == lex_lt(a@, b@),
{
    let alen = a.unicode_len();
    let blen = b.unicode_len();
    let shorter = if alen < blen {
        alen
    } else {
        blen
    };
    let mut i: usize = 0;
    while i < shorter
        invariant
            0 <= i <= shorter,
            alen == a@.len(),
            blen == b@.len(),
            shorter == if alen < blen {
                alen as int
            } else {
                blen as int
            },
            forall|q: int| 0 <= q < i ==> a@[q] == b@[q],
        decreases shorter - i,
    {
        let ca = a.get_char(i) as u32;
        let cb = b.get_char(i) as u32;
        if ca < cb {
            proof {
                lemma_lex_skip(a@, b@, i as int);
            }
            return true;
        }
        if ca > cb {
            proof {
                lemma_lex_skip(a@, b@, i as int);
            }
            return false;
        }
        proof {
            assert(a@[i as int] == b@[i as int]);
        }
        i += 1;
    }
    proof {
        lemma_lex_skip(a@, b@, shorter as int);
        if alen < blen {
            assert(a@.skip(shorter as int).len() == 0);
            assert(b@.skip(shorter as int).len() > 0);
        } else if alen == blen {
            assert(b@.skip(shorter as int).len() == 0);
        } else {
            assert(b@.skip(shorter as int).len() == 0);
        }
    }
    alen < blen
}

/// Strict lexicographic order on character codes.
pub open spec fn lex_lt(a: Seq<char>, b: Seq<char>) -> bool
    decreases a.len(),
{
    if b.len() == 0 {
        false
    } else if a.len() == 0 {
        true
    } else if a[0] != b[0] {
        (a[0] as u32) < (b[0] as u32)
    } else {
        lex_lt(a.skip(1), b.skip(1))
    }
}

/// Sequences agreeing on their first `i` characters compare as their tails
/// do.
proof fn lemma_lex_skip(a: Seq<char>, b: Seq<char>, i: int)
    requires
        0 <= i <= a.len(),
        i <= b.len(),
        forall|q: int| 0 <= q < i ==> a[q] == b[q],
    ensures
        lex_lt(a, b) == lex_lt(a.skip(i), b.skip(i)),
    decreases i,
{
    if i > 0 {
        assert(a[0] == b[0]);
        assert forall|q: int| 0 <= q < i - 1 implies a.skip(1)[q] == b.skip(1)[q] by {
            assert(a.skip(1)[q] == a[q + 1]);
            assert(b.skip(1)[q] == b[q + 1]);
        }
        lemma_lex_skip(a.skip(1), b.skip(1), i - 1);
        assert(a.skip(1).skip(i - 1) =~= a.skip(i));
        assert(b.skip(1).skip(i - 1) =~= b.skip(i));
    } else {
        assert(a.skip(0) =~= a);
        assert(b.skip(0) =~= b);
    }
}

/// Two sequences compare one way, the other way, or are equal.
pub proof fn lemma_lex_total(a: Seq<char>, b: Seq<char>)
    ensures
        lex_lt(a, b) || lex_lt(b, a) || a == b,
    decreases a.len(),
{
    if b.len() == 0 {
        if a.len() == 0 {
            assert(a =~= b);
        }
    } else if a.len() == 0 {
    } else if a[0] != b[0] {
        vstd::utf8::char_u32_cast(a[0], a[0] as u32);
        vstd::utf8::char_u32_cast(b[0], b[0] as u32);
        assert((a[0] as u32) != (b[0] as u32));
    } else {
        lemma_lex_total(a.skip(1), b.skip(1));
        if a.skip(1) == b.skip(1) {
            assert(a.skip(1).len() == a.len() - 1);
            assert(b.skip(1).len() == b.len() - 1);
            assert(a.len() == b.len());
            assert forall|q: int| 0 <= q < a.len() implies a[q] == b[q] by {
                if q > 0 {
                    assert(a.skip(1)[q - 1] == b.skip(1)[q - 1]);
                    assert(a.skip(1)[q - 1] == a[q]);
                    assert(b.skip(1)[q - 1] == b[q]);
                }
            }
            assert(a =~= b);
        }
    }
}

/// The order is strict: nothing orders before itself.
pub proof fn lemma_lex_irrefl(a: Seq<char>)
    ensures
        !lex_lt(a, a),
    decreases a.len(),
{
    if a.len() > 0 {
        lemma_lex_irrefl(a.skip(1));
    }
}

/// The order is transitive.
pub proof fn lemma_lex_trans(a: Seq<char>, b: Seq<char>, c: Seq<char>)
    requires
        lex_lt(a, b),
        lex_lt(b, c),
    ensures
        lex_lt(a, c),
    decreases a.len(),
{
    if a.len() == 0 {
    } else {
        assert(b.len() > 0 && c.len() > 0);
        if a[0] == b[0] && b[0] == c[0] {
            lemma_lex_trans(a.skip(1), b.skip(1), c.skip(1));
        }
    }
}

} // verus!
