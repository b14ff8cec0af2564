//! The delimiter token that brackets an embedded stream.
//!
//! A token is rendered as `START id MID [kind MID] name END`, where START is
//! `\n[[juxr::stream::`, MID is `::` and END is `]]\n`.  Parsing splits the
//! middle region at the *first* separator (id from the rest) and at the
//! *last* separator (kind from name); with a single separator the kind is
//! absent.  Separator bytes inside the components are not escaped: that is a
//! known limitation of the format.

use vstd::prelude::*;

use crate::find::{
    lemma_find_is_first, lemma_rfind_is_last, occurs_at, spec_find, spec_rfind, find_in, rfind_in,
};

verus! {

/// Marker prefix of an embedded stream token: `\n[[juxr::stream::`.
pub open spec fn start_mark() -> Seq<u8> {
    seq![
        10u8, 91u8, 91u8, 106u8, 117u8, 120u8, 114u8, 58u8, 58u8, 115u8, 116u8, 114u8, 101u8,
        97u8, 109u8, 58u8, 58u8,
    ]
}

/// Separator between the fields of a token: `::`.
pub open spec fn mid_mark() -> Seq<u8> {
    seq![58u8, 58u8]
}

/// Marker suffix of an embedded stream token: `]]\n`.
pub open spec fn end_mark() -> Seq<u8> {
    seq![93u8, 93u8, 10u8]
}

/// The marker prefix as a byte vector.
pub fn start_bytes() -> (r: Vec<u8>)
    ensures
        r@ == start_mark(),
{
    let mut v: Vec<u8> = Vec::new();
    v.push(10u8);
    v.push(91u8);
    v.push(91u8);
    v.push(106u8);
    v.push(117u8);
    v.push(120u8);
    v.push(114u8);
    v.push(58u8);
    v.push(58u8);
    v.push(115u8);
    v.push(116u8);
    v.push(114u8);
    v.push(101u8);
    v.push(97u8);
    v.push(109u8);
    v.push(58u8);
    v.push(58u8);
    proof {
        assert(v@ =~= start_mark());
    }
    v
}

/// The field separator as a byte vector.
pub fn mid_bytes() -> (r: Vec<u8>)
    ensures
        r@ == mid_mark(),
{
    let mut v: Vec<u8> = Vec::new();
    v.push(58u8);
    v.push(58u8);
    proof {
        assert(v@ =~= mid_mark());
    }
    v
}

/// The marker suffix as a byte vector.
pub fn end_bytes() -> (r: Vec<u8>)
    ensures
        r@ == end_mark(),
{
    let mut v: Vec<u8> = Vec::new();
    v.push(93u8);
    v.push(93u8);
    v.push(10u8);
    proof {
        assert(v@ =~= end_mark());
    }
    v
}

/// An error that can occur while parsing a [`Needle`].
#[derive(Clone, Copy, Debug, Eq, Hash, PartialEq, Structural)]
pub enum Error {
    /// The bytes do not form a well-formed token.
    InvalidNeedle,
}

/// A delimiter token: an opaque id, an optional kind, and a name.
#[derive(Debug, Clone)]
pub struct Needle {
    id: Vec<u8>,
    metadata: Option<Vec<u8>>,
    filename: Vec<u8>,
}

/// What a token renders to, given its three components.
pub open spec fn render_parts(id: Seq<u8>, kind: Option<Seq<u8>>, name: Seq<u8>) -> Seq<u8> {
    start_mark() + id + mid_mark() + (match kind {
        Some(k) => k + mid_mark(),
        None => Seq::<u8>::empty(),
    }) + name + end_mark()
}

/// The components a byte sequence parses to, if it is a well-formed token.
///
/// The middle region between the markers is split at its first separator;
/// when a distinct last separator exists it splits kind from name.  A last
/// separator that overlaps the first one leaves no room for a kind, so such
/// input does not parse.
pub open spec fn parse_parts(s: Seq<u8>) -> Option<(Seq<u8>, Option<Seq<u8>>, Seq<u8>)> {
    if s.len() >= start_mark().len() + end_mark().len() && s.take(start_mark().len() as int)
        == start_mark() && s.skip(s.len() - end_mark().len()) == end_mark() {
        let m = s.subrange(start_mark().len() as int, s.len() - end_mark().len());
        match spec_find(m, mid_mark()) {
            Some(i) => if 0 <= i && i + 2 <= m.len() {
                match spec_rfind(m, mid_mark()) {
                    Some(j) => if j == i {
                        Some((m.take(i), None, m.skip(i + 2)))
                    } else if i + 2 <= j && j + 2 <= m.len() {
                        Some((m.take(i), Some(m.subrange(i + 2, j)), m.skip(j + 2)))
                    } else {
                        None
                    },
                    None => None,
                }
            } else {
                None
            },
            None => None,
        }
    } else {
        None
    }
}

/// Extents of a complete token whose marker prefix sits at the head of `s`:
/// the index of the first separator and of the closing marker, or `None`
/// when no complete token is present.
pub open spec fn token_parts(s: Seq<u8>) -> Option<(int, int)> {
    if s.len() < start_mark().len() {
        None
    } else {
        match spec_find(s.skip(start_mark().len() as int), mid_mark()) {
            Some(m0) => if 0 <= m0 && start_mark().len() + m0 + 2 <= s.len() {
                let m = start_mark().len() + m0;
                match spec_find(s.skip(m + 2), end_mark()) {
                    Some(e0) => if 0 <= e0 && m + 2 + e0 + 3 <= s.len() {
                        Some((m as int, m + 2 + e0))
                    } else {
                        None
                    },
                    None => None,
                }
            } else {
                None
            },
            None => None,
        }
    }
}

/// Span `[start, end)` of the first complete token inside `s`, if any.
pub open spec fn token_span(s: Seq<u8>) -> Option<(int, int)> {
    match spec_find(s, start_mark()) {
        Some(k) => if 0 <= k <= s.len() {
            match token_parts(s.skip(k)) {
                Some((m, e)) => Some((k, k + e + 3)),
                None => None,
            }
        } else {
            None
        },
        None => None,
    }
}

/// True when `s@` begins with `pat@`.
fn has_prefix(s: &[u8], pat: &Vec<u8>) -> (r: bool)
    ensures
        r == (s@.len() >= pat@.len() && s@.take(pat@.len() as int) == pat@),
{
    if s.len() < pat.len() {
        return false;
    }
    let mut m: usize = 0;
    let mut ok = true;
    while m < pat.len()
        invariant
            0 <= m <= pat@.len() <= s@.len(),
            ok == (forall|q: int| 0 <= q < m ==> s@[q] == pat@[q]),
        decreases pat@.len() - m,
    {
        if s[m] != pat[m] {
            ok = false;
        }
        m += 1;
    }
    proof {
        if ok {
            assert(s@.take(pat@.len() as int) =~= pat@);
        } else {
            if s@.take(pat@.len() as int) == pat@ {
                assert(forall|q: int|
                    0 <= q < pat@.len() ==> #[trigger] s@.take(pat@.len() as int)[q] == s@[q]);
                assert(false);
            }
        }
    }
    ok
}

/// True when `s@` ends with `pat@`.
fn has_suffix(s: &[u8], pat: &Vec<u8>) -> (r: bool)
    ensures
        r == (s@.len() >= pat@.len() && s@.skip(s@.len() - pat@.len()) == pat@),
{
    if s.len() < pat.len() {
        return false;
    }
    let off = s.len() - pat.len();
    proof {
        assert(s@.len() <= usize::MAX);
    }
    let mut m: usize = 0;
    let mut ok = true;
    while m < pat.len()
        invariant
            0 <= m <= pat@.len() <= s@.len(),
            s@.len() <= usize::MAX,
            off == s@.len() - pat@.len(),
            ok == (forall|q: int| 0 <= q < m ==> s@[off + q] == pat@[q]),
        decreases pat@.len() - m,
    {
        if s[off + m] != pat[m] {
            ok = false;
        }
        m += 1;
    }
    proof {
        if ok {
            assert(s@.skip(s@.len() - pat@.len()) =~= pat@);
        } else {
            if s@.skip(s@.len() - pat@.len()) == pat@ {
                assert(forall|q: int|
                    0 <= q < pat@.len() ==> #[trigger] s@.skip(s@.len() - pat@.len())[q] == s@[
                        s@.len() - pat@.len() + q
                    ]);
                assert(false);
            }
        }
    }
    ok
}

/// A byte that a freshly generated stream id may contain: a lowercase hex
/// digit or a hyphen.
pub open spec fn id_byte(b: u8) -> bool {
    b == 45 || (48 <= b <= 57) || (97 <= b <= 102)
}

/// Relies on `uuid::Uuid::new_v4` and its `Display` rendering: a fresh v4
/// UUID formats as 36 bytes of lowercase hexadecimal digits and hyphens.
#[verifier::external_body]
fn fresh_id() -> (r: Vec<u8>)
    ensures
        r@.len() == 36,
        forall|i: int| 0 <= i < r@.len() ==> id_byte(#[trigger] r@[i]),
{
    uuid::Uuid::new_v4().to_string().into_bytes()
}

impl Needle {
    /// The kind component as a sequence, when present.
    pub closed spec fn meta_view(self) -> Option<Seq<u8>> {
        match self.metadata {
            Some(k) => Some(k@),
            None => None,
        }
    }

    /// The bytes this token renders to.
    pub open spec fn render_spec(self) -> Seq<u8> {
        render_parts(self.id_view(), self.meta_view(), self.filename_view())
    }

    /// The id component as a sequence.
    pub closed spec fn id_view(self) -> Seq<u8> {
        self.id@
    }

    /// The name component as a sequence.
    pub closed spec fn filename_view(self) -> Seq<u8> {
        self.filename@
    }

    /// Generates a needle for the specified filename, with a fresh random id.
    pub fn new(filename: &[u8]) -> (r: Needle)
        ensures
            r.id_view().len() == 36,
            forall|i: int| 0 <= i < r.id_view().len() ==> id_byte(#[trigger] r.id_view()[i]),
            r.meta_view() is None,
            r.filename_view() == filename@,
    {
        Needle { id: fresh_id(), metadata: None, filename: vstd::slice::slice_to_vec(filename) }
    }

    /// Generates a needle for the specified filename with additional metadata.
    pub fn new_with_kind(filename: &[u8], kind: &[u8]) -> (r: Needle)
        ensures
            r.id_view().len() == 36,
            forall|i: int| 0 <= i < r.id_view().len() ==> id_byte(#[trigger] r.id_view()[i]),
            r.meta_view() == Some(kind@),
            r.filename_view() == filename@,
    {
        Needle {
            id: fresh_id(),
            metadata: Some(vstd::slice::slice_to_vec(kind)),
            filename: vstd::slice::slice_to_vec(filename),
        }
    }

    /// Parses a rendered token back into its components.
    pub fn from_bytes(s: &[u8]) -> (r: Result<Needle, Error>)
        ensures
            match r {
                Ok(n) => parse_parts(s@) == Some((n.id_view(), n.meta_view(), n.filename_view())),
                Err(e) => parse_parts(s@) is None && e == Error::InvalidNeedle,
            },
    {
        let start = start_bytes();
        let mid = mid_bytes();
        let end = end_bytes();
        if !has_prefix(s, &start) || !has_suffix(s, &end) {
            return Err(Error::InvalidNeedle);
        }
        let lo = start.len();
        let hi = s.len() - end.len();
        if hi < lo {
            // shorter than the two markers together: the length guard of
            // `parse_parts` already fails
            return Err(Error::InvalidNeedle);
        }
        let ghost mreg = s@.subrange(lo as int, hi as int);
        match find_in(s, lo, hi, mid.as_slice()) {
            None => Err(Error::InvalidNeedle),
            Some(i_abs) => {
                match rfind_in(s, lo, hi, mid.as_slice()) {
                    None => {
                        proof {
                            crate::find::lemma_find_characterizes(mreg, mid_mark());
                            crate::find::lemma_rfind_characterizes(mreg, mid_mark());
                            assert(false);
                        }
                        Err(Error::InvalidNeedle)
                    },
                    Some(j_abs) => {
                        if j_abs == i_abs {
                            let id = slice_to_vec_u8(s, lo, i_abs);
                            let name = slice_to_vec_u8(s, i_abs + 2, hi);
                            proof {
                                assert(id@ =~= mreg.take(i_abs - lo));
                                assert(name@ =~= mreg.skip(i_abs - lo + 2));
                            }
                            Ok(Needle { id, metadata: None, filename: name })
                        } else if j_abs < i_abs + 2 {
                            // the two separators overlap: no room for a kind
                            Err(Error::InvalidNeedle)
                        } else {
                            let id = slice_to_vec_u8(s, lo, i_abs);
                            let kind = slice_to_vec_u8(s, i_abs + 2, j_abs);
                            let name = slice_to_vec_u8(s, j_abs + 2, hi);
                            proof {
                                assert(id@ =~= mreg.take(i_abs - lo));
                                assert(kind@ =~= mreg.subrange(i_abs - lo + 2, j_abs - lo));
                                assert(name@ =~= mreg.skip(j_abs - lo + 2));
                            }
                            Ok(Needle { id, metadata: Some(kind), filename: name })
                        }
                    },
                }
            },
        }
    }

    /// The name component.
    pub fn filename(&self) -> (r: &Vec<u8>)
        ensures
            r@ == self.filename_view(),
    {
        &self.filename
    }

    /// The kind component, when present.
    pub fn kind(&self) -> (r: Option<&Vec<u8>>)
        ensures
            match r {
                Some(k) => self.meta_view() == Some(k@),
                None => self.meta_view() is None,
            },
    {
        match &self.metadata {
            None => None,
            Some(k) => Some(k),
        }
    }

    /// Offset of the first marker prefix inside `buf`, if any.
    pub fn find_start(buf: &[u8]) -> (r: Option<usize>)
        ensures
            match r {
                Some(k) => spec_find(buf@, start_mark()) == Some(k as int),
                None => spec_find(buf@, start_mark()) is None,
            },
    {
        let start = start_bytes();
        proof {
            assert(buf@.subrange(0, buf@.len() as int) =~= buf@);
        }
        find_in(buf, 0, buf.len(), start.as_slice())
    }

    /// Span `[start, end)` of the first complete token inside `buf`, if one
    /// is fully present; a partial token is never reported.
    pub fn find(buf: &[u8]) -> (r: Option<(usize, usize)>)
        ensures
            match r {
                Some(p) => token_span(buf@) == Some((p.0 as int, p.1 as int)),
                None => token_span(buf@) is None,
            },
    {
        let k = match Self::find_start(buf) {
            None => {
                return None;
            },
            Some(k) => k,
        };
        let blen = buf.len();
        proof {
            crate::find::lemma_find_characterizes(buf@, start_mark());
            assert(k + 17 <= blen);
        }
        let mid = mid_bytes();
        let end = end_bytes();
        let m_abs = match find_in(buf, k + 17, blen, mid.as_slice()) {
            None => {
                proof {
                    assert(buf@.subrange(k + 17, buf@.len() as int) =~= buf@.skip(
                        k as int,
                    ).skip(17));
                }
                return None;
            },
            Some(m_abs) => m_abs,
        };
        proof {
            assert(buf@.subrange(k + 17, buf@.len() as int) =~= buf@.skip(k as int).skip(17));
        }
        let e_abs = match find_in(buf, m_abs + 2, blen, end.as_slice()) {
            None => {
                proof {
                    assert(buf@.subrange(m_abs + 2, buf@.len() as int) =~= buf@.skip(
                        k as int,
                    ).skip(m_abs - k + 2));
                }
                return None;
            },
            Some(e_abs) => e_abs,
        };
        proof {
            assert(buf@.subrange(m_abs + 2, buf@.len() as int) =~= buf@.skip(k as int).skip(
                m_abs - k + 2,
            ));
        }
        Some((k, e_abs + 3))
    }

    /// Renders the token to bytes.
    pub fn as_bytes(&self) -> (r: Vec<u8>)
        ensures
            r@ == self.render_spec(),
    {
        let mut v = start_bytes();
        let mid = mid_bytes();
        let end = end_bytes();
        v.extend_from_slice(self.id.as_slice());
        v.extend_from_slice(mid.as_slice());
        match &self.metadata {
            Some(k) => {
                v.extend_from_slice(k.as_slice());
                v.extend_from_slice(mid.as_slice());
            },
            None => {},
        }
        v.extend_from_slice(self.filename.as_slice());
        v.extend_from_slice(end.as_slice());
        proof {
            assert(v@ =~= self.render_spec());
        }
        v
    }
}

/// Copy of `s[from..to]` as a fresh vector.
fn slice_to_vec_u8(s: &[u8], from: usize, to: usize) -> (r: Vec<u8>)
    requires
        from <= to <= s@.len(),
    ensures
        r@ == s@.subrange(from as int, to as int),
{
    let sub = vstd::slice::slice_subrange(s, from, to);
    vstd::slice::slice_to_vec(sub)
}

impl PartialEq for Needle {
    /// Tokens are equal when all three components agree.
    fn eq(&self, other: &Needle) -> (r: bool) {
        let ids = vec_u8_eq(&self.id, &other.id);
        let names = vec_u8_eq(&self.filename, &other.filename);
        let kinds = match (&self.metadata, &other.metadata) {
            (None, None) => true,
            (Some(a), Some(b)) => vec_u8_eq(a, b),
            _ => false,
        };
        ids && names && kinds
    }
}

impl vstd::std_specs::cmp::PartialEqSpecImpl for Needle {
    open spec fn obeys_eq_spec() -> bool {
        true
    }

    open spec fn eq_spec(&self, other: &Needle) -> bool {
        self.id_view() == other.id_view() && self.meta_view() == other.meta_view()
            && self.filename_view() == other.filename_view()
    }
}

/// Byte-vector equality.
pub fn vec_u8_eq(a: &Vec<u8>, b: &Vec<u8>) -> (r: bool)
    ensures
        r == (a@ == b@),
{
    if a.len() != b.len() {
        return false;
    }
    let mut m: usize = 0;
    let mut ok = true;
    while m < a.len()
        invariant
            0 <= m <= a@.len(),
            a@.len() == b@.len(),
            ok == (forall|q: int| 0 <= q < m ==> a@[q] == b@[q]),
        decreases a@.len() - m,
    {
        if a[m] != b[m] {
            ok = false;
        }
        m += 1;
    }
    proof {
        if ok {
            assert(a@ =~= b@);
        }
    }
    ok
}

/// No separator byte occurs anywhere in the component.
pub open spec fn separator_free(x: Seq<u8>) -> bool {
    forall|i: int| 0 <= i < x.len() ==> x[i] != 58u8
}

/// Rendering components free of the separator byte and parsing the result
/// yields exactly the original id, kind and name.
///
/// A component containing the separator byte can shift the first or last
/// separator of the rendered token, so such inputs are left out.
pub proof fn lemma_render_parse(id: Seq<u8>, kind: Option<Seq<u8>>, name: Seq<u8>)
    requires
        separator_free(id),
        (kind matches Some(k) ==> separator_free(k)),
        separator_free(name),
    ensures
        parse_parts(render_parts(id, kind, name)) == Some((id, kind, name)),
{
    let r = render_parts(id, kind, name);
    let mid = mid_mark();
    match kind {
        None => {
            let m = id + mid + name;
            assert(r =~= start_mark() + m + end_mark());
            assert(r.len() == 20 + m.len());
            assert(r.take(17) =~= start_mark());
            assert(r.skip(r.len() - 3) =~= end_mark());
            assert(r.subrange(17, r.len() - 3) =~= m);
            assert(m.subrange(id.len() as int, id.len() + 2int) =~= mid);
            assert(occurs_at(m, mid, id.len() as int));
            assert forall|j: int| 0 <= j < id.len() implies !occurs_at(m, mid, j) by {
                if occurs_at(m, mid, j) {
                    assert(m.subrange(j, j + 2)[0] == m[j]);
                    assert(m[j] == 58u8);
                    assert(m[j] == id[j]);
                }
            }
            assert forall|j: int| id.len() < j implies !occurs_at(m, mid, j) by {
                if occurs_at(m, mid, j) {
                    if j == id.len() + 1 {
                        assert(m.subrange(j, j + 2)[1] == m[j + 1]);
                        assert(m[j + 1] == 58u8);
                        assert(m[j + 1] == name[0]);
                    } else {
                        assert(m.subrange(j, j + 2)[0] == m[j]);
                        assert(m[j] == 58u8);
                        assert(m[j] == name[j - id.len() - 2]);
                    }
                }
            }
            lemma_find_is_first(m, mid, id.len() as int);
            lemma_rfind_is_last(m, mid, id.len() as int);
            assert(m.take(id.len() as int) =~= id);
            assert(m.skip(id.len() + 2int) =~= name);
        },
        Some(k) => {
            let m = id + mid + k + mid + name;
            let last = id.len() + 2int + k.len();
            assert(r =~= start_mark() + m + end_mark());
            assert(r.len() == 20 + m.len());
            assert(r.take(17) =~= start_mark());
            assert(r.skip(r.len() - 3) =~= end_mark());
            assert(r.subrange(17, r.len() - 3) =~= m);
            assert(m.subrange(id.len() as int, id.len() + 2int) =~= mid);
            assert(occurs_at(m, mid, id.len() as int));
            assert(m.subrange(last as int, last + 2) =~= mid);
            assert(occurs_at(m, mid, last as int));
            assert forall|j: int| 0 <= j < id.len() implies !occurs_at(m, mid, j) by {
                if occurs_at(m, mid, j) {
                    assert(m.subrange(j, j + 2)[0] == m[j]);
                    assert(m[j] == 58u8);
                    assert(m[j] == id[j]);
                }
            }
            assert forall|j: int| last < j implies !occurs_at(m, mid, j) by {
                if occurs_at(m, mid, j) {
                    if j == last + 1 {
                        assert(m.subrange(j, j + 2)[1] == m[j + 1]);
                        assert(m[j + 1] == 58u8);
                        assert(m[j + 1] == name[0]);
                    } else {
                        assert(m.subrange(j, j + 2)[0] == m[j]);
                        assert(m[j] == 58u8);
                        assert(m[j] == name[j - last - 2]);
                    }
                }
            }
            lemma_find_is_first(m, mid, id.len() as int);
            lemma_rfind_is_last(m, mid, last as int);
            assert(m.take(id.len() as int) =~= id);
            assert(m.subrange(id.len() + 2int, last as int) =~= k);
            assert(m.skip(last + 2int) =~= name);
        },
    }
}

/// Round trip for a token value: what a [`Needle`] renders to parses back to
/// the very same components, provided none of them contains the separator
/// byte.
pub proof fn lemma_needle_round_trip(n: Needle)
    requires
        separator_free(n.id_view()),
        (n.meta_view() matches Some(k) ==> separator_free(k)),
        separator_free(n.filename_view()),
    ensures
        parse_parts(n.render_spec()) == Some((n.id_view(), n.meta_view(), n.filename_view())),
{
    lemma_render_parse(n.id_view(), n.meta_view(), n.filename_view());
}

/// A freshly generated id never contains the separator byte.
pub proof fn lemma_id_bytes_separator_free(x: Seq<u8>)
    requires
        forall|i: int| 0 <= i < x.len() ==> id_byte(#[trigger] x[i]),
    ensures
        separator_free(x),
{
}

} // verus!
