//! The embedded-stream protocol: one buffer, one stream view, one
//! demultiplexer.
//!
//! A fixed-capacity buffer slides over the source with three cursors:
//! `position` (delivered), `checked` (proven free of a straddling delimiter)
//! and `available` (filled).  Scanning never hands out a byte before it is
//! certain the byte is not part of a delimiter that straddles a refill
//! boundary, and the buffer bounds memory regardless of stream length.

use vstd::prelude::*;

use crate::channel::{ByteSource, ByteSink};
use crate::find::{
    clean, lemma_find_characterizes, lemma_find_is_first, lemma_find_skip, lemma_find_window,
    lemma_occurs_skip, lemma_occurs_take, occurs_at, spec_find, find_in, rfind_in,
};
use crate::needle::{
    end_bytes, end_mark, mid_bytes, mid_mark, separator_free, start_bytes, start_mark,
    token_parts,
};
use crate::find::{lemma_rfind_characterizes, lemma_rfind_is_last, spec_rfind};

verus! {

/// The longest token the scanner will recognise; longer ones degrade to
/// ordinary pass-through bytes.
pub const NEEDLE_MAX_LEN: usize = 8192;

/// Content of a stream: everything before the first occurrence of its
/// closing token, or everything when the token never comes.
pub open spec fn content_of(s: Seq<u8>, n: Seq<u8>) -> Seq<u8> {
    match spec_find(s, n) {
        Some(i) => if 0 <= i <= s.len() {
            s.take(i)
        } else {
            s
        },
        None => s,
    }
}

/// What follows a stream: everything after the first occurrence of its
/// closing token, or nothing when the token never comes.
pub open spec fn tail_of(s: Seq<u8>, n: Seq<u8>) -> Seq<u8> {
    match spec_find(s, n) {
        Some(i) => if 0 <= i && i + n.len() <= s.len() {
            s.skip(i + n.len())
        } else {
            Seq::empty()
        },
        None => Seq::empty(),
    }
}

/// Dropping a prefix free of occurrences shifts the content and keeps the
/// tail.
pub proof fn lemma_content_split(s: Seq<u8>, n: Seq<u8>, c: int)
    requires
        0 <= c <= s.len(),
        clean(s, n, c),
    ensures
        content_of(s, n).len() >= c,
        content_of(s, n).take(c) == s.take(c),
        content_of(s.skip(c), n) == content_of(s, n).skip(c),
        tail_of(s.skip(c), n) == tail_of(s, n),
{
    lemma_find_characterizes(s, n);
    lemma_find_skip(s, n, c);
    match spec_find(s, n) {
        Some(i) => {
            assert(i >= c);
            assert(content_of(s, n).take(c) =~= s.take(c));
            assert(content_of(s.skip(c), n) =~= content_of(s, n).skip(c));
            assert(tail_of(s.skip(c), n) =~= tail_of(s, n));
        },
        None => {
            assert(content_of(s, n).take(c) =~= s.take(c));
            assert(content_of(s.skip(c), n) =~= content_of(s, n).skip(c));
        },
    }
}

/// The sliding window over the source, with its three cursors.
struct EmbeddedReader<R> {
    src: R,
    buf: Vec<u8>,
    position: usize,
    checked: usize,
    available: usize,
}

impl<R: ByteSource> EmbeddedReader<R> {
    spec fn wf(self) -> bool {
        self.position <= self.checked && self.checked <= self.available && self.available
            <= self.buf@.len() && 1 <= self.buf@.len() && self.src.source_inv()
    }

    /// The undelivered part of the buffer.
    spec fn window(self) -> Seq<u8> {
        self.buf@.subrange(self.position as int, self.available as int)
    }

    /// Everything the scan has not delivered yet: the undelivered window
    /// followed by what the source still holds.
    spec fn pending(self) -> Seq<u8> {
        self.window() + self.src.remaining()
    }

    fn with_capacity(capacity: usize, src: R) -> (r: EmbeddedReader<R>)
        requires
            capacity >= 1,
            src.source_inv(),
        ensures
            r.wf(),
            r.position == 0,
            r.checked == 0,
            r.buf@.len() == capacity,
            r.pending() == src.remaining(),
    {
        let mut buf: Vec<u8> = Vec::new();
        buf.resize(capacity, 0u8);
        let r = EmbeddedReader { src, buf, position: 0, checked: 0, available: 0 };
        proof {
            assert(r.window() =~= Seq::<u8>::empty());
            assert(r.pending() =~= src.remaining());
        }
        r
    }

    /// Compacts the buffer and refills it from the source until it is full
    /// or the source is exhausted.  The pending bytes are untouched; only
    /// their placement changes.
    fn fill(&mut self) -> (r: Result<(), ()>)
        requires
            old(self).wf(),
            old(self).position == old(self).checked,
        ensures
            final(self).buf@.len() == old(self).buf@.len(),
            final(self).wf(),
            final(self).position == 0,
            final(self).checked == 0,
            final(self).pending() == old(self).pending(),
            match r {
                Ok(()) => (final(self).available as int == if old(self).pending().len() <= old(
                    self,
                ).buf@.len() {
                    old(self).pending().len() as int
                } else {
                    old(self).buf@.len() as int
                }) && (final(self).available < final(self).buf@.len()
                    ==> final(self).src.remaining().len() == 0)
                    && final(self).window() == final(self).pending().take(
                    final(self).available as int,
                ),
                Err(_) => true,
            },
    {
        let ghost p0 = self.pending();
        // compact: slide the unchecked tail to the front of the buffer
        let cap = self.buf.len();
        if self.checked >= self.available {
            self.position = 0;
            self.checked = 0;
            self.available = 0;
        } else {
            let count = self.available - self.checked;
            let base = self.checked;
            let mut i: usize = 0;
            while i < count
                invariant
                    0 <= i <= count,
                    count == self.available - base,
                    self.position == old(self).position,
                    self.checked == old(self).checked,
                    self.available == old(self).available,
                    base == old(self).checked,
                    base + count <= self.buf@.len() <= usize::MAX,
                    self.buf@.len() == old(self).buf@.len(),
                    self.src == old(self).src,
                    forall|j: int| 0 <= j < i ==> self.buf@[j] == old(self).buf@[base + j],
                    forall|j: int|
                        i <= j < self.buf@.len() ==> self.buf@[j] == old(self).buf@[j],
                decreases count - i,
            {
                let b = self.buf[base + i];
                proof {
                    assert(self.buf@[base + i] == old(self).buf@[base + i]);
                }
                self.buf[i] = b;
                i += 1;
            }
            self.position = 0;
            self.checked = 0;
            self.available = count;
            proof {
                assert(self.window() =~= old(self).window());
            }
        }
        proof {
            assert(self.window() =~= old(self).window());
            assert(self.pending() == p0);
        }
        // refill until full or the source is done
        loop
            invariant
                self.wf(),
                self.position == 0,
                self.checked == 0,
                self.buf@.len() == old(self).buf@.len(),
                self.pending() == p0,
                p0 == old(self).pending(),
            decreases self.buf@.len() - self.available,
        {
            if self.available >= self.buf.len() {
                proof {
                    assert(self.window().len() == self.available as int);
                    assert(self.window() =~= self.pending().take(self.available as int));
                }
                return Ok(());
            }
            let space = self.buf.len() - self.available;
            let ghost before = *self;
            let chunk = match self.src.read_bytes(space) {
                Ok(c) => c,
                Err(()) => {
                    return Err(());
                },
            };
            if chunk.len() == 0 {
                proof {
                    assert(self.src.remaining().len() == 0);
                    assert(self.window().len() == self.available as int);
                    assert(self.window() =~= self.pending().take(self.available as int));
                    assert(self.pending().len() == self.available);
                }
                return Ok(());
            }
            let ghost mid = *self;
            let base = self.available;
            let mut i: usize = 0;
            while i < chunk.len()
                invariant
                    0 <= i <= chunk@.len(),
                    base + chunk@.len() <= self.buf@.len() <= usize::MAX,
                    self.position == 0,
                    self.checked == 0,
                    self.available == base,
                    self.buf@.len() == mid.buf@.len(),
                    self.src == mid.src,
                    forall|j: int| 0 <= j < base ==> self.buf@[j] == mid.buf@[j],
                    forall|j: int| 0 <= j < i ==> self.buf@[base + j] == chunk@[j],
                decreases chunk@.len() - i,
            {
                let b = chunk[i];
                self.buf[base + i] = b;
                i += 1;
            }
            self.available = self.available + chunk.len();
            proof {
                assert(self.window() =~= before.window() + chunk@);
                assert(before.src.remaining() =~= chunk@ + self.src.remaining());
                assert(self.pending() =~= before.pending());
            }
        }
    }
}

/// A single embedded stream: a view over the shared buffer bounded by the
/// rendered form of its closing token.  It moves from open to ended exactly
/// once; reads after that return nothing.
pub struct EmbeddedStream<R> {
    inner: EmbeddedReader<R>,
    needle: Vec<u8>,
    metadata: Vec<u8>,
    end_of_stream: bool,
}

/// The name carried by a stream's metadata region: what follows the last
/// separator, or the whole region when there is none.
pub open spec fn spec_stream_name(meta: Seq<u8>) -> Seq<u8> {
    match spec_rfind(meta, mid_mark()) {
        Some(p) => if 0 <= p && p + 2 <= meta.len() {
            meta.skip(p + 2)
        } else {
            meta
        },
        None => meta,
    }
}

/// The kind carried by a stream's metadata region: what precedes the last
/// separator, when there is one.
pub open spec fn spec_stream_kind(meta: Seq<u8>) -> Option<Seq<u8>> {
    match spec_rfind(meta, mid_mark()) {
        Some(p) => if 0 <= p && p + 2 <= meta.len() {
            Some(meta.take(p))
        } else {
            None
        },
        None => None,
    }
}

/// A metadata region assembled from separator-free components splits back
/// into exactly that kind and name.
pub proof fn lemma_stream_split(kind: Option<Seq<u8>>, name: Seq<u8>)
    requires
        (kind matches Some(k) ==> separator_free(k)),
        separator_free(name),
    ensures
        ({
            let meta = match kind {
                Some(k) => k + mid_mark() + name,
                None => name,
            };
            spec_stream_name(meta) == name && spec_stream_kind(meta) == kind
        }),
{
    let mid = mid_mark();
    match kind {
        None => {
            lemma_rfind_characterizes(name, mid);
            match spec_rfind(name, mid) {
                Some(j) => {
                    assert(name.subrange(j, j + 2)[0] == name[j]);
                    assert(name[j] == 58u8);
                    assert(false);
                },
                None => {},
            }
        },
        Some(k) => {
            let meta = k + mid + name;
            assert(meta.subrange(k.len() as int, k.len() + 2int) =~= mid);
            assert(occurs_at(meta, mid, k.len() as int));
            assert forall|j: int| k.len() < j implies !occurs_at(meta, mid, j) by {
                if occurs_at(meta, mid, j) {
                    if j == k.len() + 1 {
                        assert(meta.subrange(j, j + 2)[1] == meta[j + 1]);
                        assert(meta[j + 1] == 58u8);
                        assert(meta[j + 1] == name[0]);
                    } else {
                        assert(meta.subrange(j, j + 2)[0] == meta[j]);
                        assert(meta[j] == 58u8);
                        assert(meta[j] == name[j - k.len() - 2]);
                    }
                }
            }
            lemma_rfind_is_last(meta, mid, k.len() as int);
            assert(meta.take(k.len() as int) =~= k);
            assert(meta.skip(k.len() + 2int) =~= name);
        },
    }
}

impl<R: ByteSource> EmbeddedStream<R> {
    /// Cursors ordered, the closing token fits the buffer, and no byte
    /// awaiting delivery can begin an occurrence of the closing token.
    pub closed spec fn wf(self) -> bool {
        self.inner.wf() && 1 <= self.needle@.len() <= self.inner.buf@.len() && (!self.end_of_stream
            ==> clean(
            self.inner.pending(),
            self.needle@,
            self.inner.checked - self.inner.position,
        )) && (self.end_of_stream ==> self.inner.position == self.inner.checked)
    }

    /// The rendered closing token this stream is bounded by.
    pub closed spec fn closing(self) -> Seq<u8> {
        self.needle@
    }

    /// The metadata region of the opening token: `[kind MID] name`.
    pub closed spec fn meta(self) -> Seq<u8> {
        self.metadata@
    }

    /// The bytes this stream will still deliver.
    pub closed spec fn content(self) -> Seq<u8> {
        if self.end_of_stream {
            Seq::empty()
        } else {
            content_of(self.inner.pending(), self.needle@)
        }
    }

    /// What the surrounding scan will see once this stream is over.
    pub closed spec fn after(self) -> Seq<u8> {
        if self.end_of_stream {
            self.inner.pending()
        } else {
            tail_of(self.inner.pending(), self.needle@)
        }
    }

    /// Whether the closing token, or the end of the source, has been seen.
    pub closed spec fn ended(self) -> bool {
        self.end_of_stream
    }

    /// Capacity of the buffer this stream scans through.
    pub closed spec fn buffer_len(self) -> int {
        self.inner.buf@.len() as int
    }

    /// A stream over `src`, delimited by the token rendered from `id` and
    /// `metadata` and scanned through a buffer of `capacity` bytes.
    pub fn new(metadata: &[u8], id: &[u8], src: R, capacity: usize) -> (r: EmbeddedStream<R>)
        requires
            src.source_inv(),
            id@.len() + metadata@.len() + 22 <= capacity,
        ensures
            r.wf(),
            !r.ended(),
            r.closing() == start_mark() + id@ + mid_mark() + metadata@ + end_mark(),
            r.meta() == metadata@,
            r.content() == content_of(src.remaining(), r.closing()),
            r.after() == tail_of(src.remaining(), r.closing()),
    {
        let mut needle = start_bytes();
        let mid = mid_bytes();
        let end = end_bytes();
        needle.extend_from_slice(id);
        needle.extend_from_slice(mid.as_slice());
        needle.extend_from_slice(metadata);
        needle.extend_from_slice(end.as_slice());
        let inner = EmbeddedReader::with_capacity(capacity, src);
        let meta_copy = vstd::slice::slice_to_vec(metadata);
        let r = EmbeddedStream { inner, needle, metadata: meta_copy, end_of_stream: false };
        proof {
            assert(r.needle@ =~= start_mark() + id@ + mid_mark() + metadata@ + end_mark());
        }
        r
    }

    /// The name of this stream.
    pub fn name(&self) -> (r: Vec<u8>)
        ensures
            r@ == spec_stream_name(self.meta()),
    {
        let mid = mid_bytes();
        proof {
            assert(self.metadata@.subrange(0, self.metadata@.len() as int) =~= self.metadata@);
        }
        match rfind_in(self.metadata.as_slice(), 0, self.metadata.len(), mid.as_slice()) {
            Some(p) => {
                let sub = vstd::slice::slice_subrange(
                    self.metadata.as_slice(),
                    p + 2,
                    self.metadata.len(),
                );
                let r = vstd::slice::slice_to_vec(sub);
                proof {
                    assert(r@ =~= spec_stream_name(self.meta()));
                }
                r
            },
            None => vstd::slice::slice_to_vec(self.metadata.as_slice()),
        }
    }

    /// The kind of this stream, when its metadata region carries one.
    pub fn kind(&self) -> (r: Option<Vec<u8>>)
        ensures
            match r {
                Some(k) => spec_stream_kind(self.meta()) == Some(k@),
                None => spec_stream_kind(self.meta()) is None,
            },
    {
        let mid = mid_bytes();
        proof {
            assert(self.metadata@.subrange(0, self.metadata@.len() as int) =~= self.metadata@);
        }
        match rfind_in(self.metadata.as_slice(), 0, self.metadata.len(), mid.as_slice()) {
            Some(p) => {
                let sub = vstd::slice::slice_subrange(self.metadata.as_slice(), 0, p);
                let r = vstd::slice::slice_to_vec(sub);
                proof {
                    assert(r@ =~= self.meta().take(p as int));
                }
                Some(r)
            },
            None => None,
        }
    }
}

/// What a stream's reads serve is exactly its content, and it is usable as
/// a source exactly when it is well-formed: the trait views of
/// [`EmbeddedStream`] coincide with its own.
pub proof fn lemma_stream_views<R: ByteSource>(s: &EmbeddedStream<R>)
    ensures
        s.remaining() == s.content(),
        s.source_inv() == s.wf(),
{
}

impl<R: ByteSource> ByteSource for EmbeddedStream<R> {
    closed spec fn source_inv(&self) -> bool {
        self.wf()
    }

    closed spec fn remaining(&self) -> Seq<u8> {
        self.content()
    }

    /// One scan step: refill if nothing is pending delivery, look for the
    /// closing token, and serve bytes proven to lie before it.
    #[verifier::rlimit(80)]
    fn read_bytes(&mut self, max: usize) -> (r: Result<Vec<u8>, ()>)
        ensures
            final(self).closing() == old(self).closing(),
            final(self).meta() == old(self).meta(),
            final(self).buffer_len() == old(self).buffer_len(),
            old(self).ended() ==> r is Ok && *final(self) == *old(self),
            match r {
                Ok(v) => final(self).after() == old(self).after() && ((v@.len() == 0 && max > 0)
                    ==> final(self).ended()),
                Err(_) => final(self).content() == old(self).content() && final(self).after()
                    == old(self).after(),
            },
    {
        if self.end_of_stream {
            proof {
                assert(Seq::<u8>::empty() =~= old(self).content().take(0));
                assert(self.content() =~= old(self).content().skip(0));
            }
            return Ok(Vec::new());
        }
        if self.inner.position >= self.inner.checked {
            match self.inner.fill() {
                Ok(()) => {},
                Err(()) => {
                    return Err(());
                },
            }
            if self.inner.available == 0 {
                self.end_of_stream = true;
                proof {
                    assert(self.inner.pending().len() == 0);
                    assert(self.inner.pending() =~= Seq::<u8>::empty());
                    assert(Seq::<u8>::empty() =~= old(self).content().take(0));
                    assert(self.content() =~= old(self).content().skip(0));
                }
                return Ok(Vec::new());
            }
            let navail = self.inner.available;
            let ghost pend = self.inner.pending();
            proof {
                assert(self.inner.window() =~= self.inner.buf@.subrange(0, navail as int));
                lemma_find_window(pend, self.needle@, navail as int);
            }
            let found = find_in(self.inner.buf.as_slice(), 0, navail, self.needle.as_slice());
            match found {
                Some(k) => {
                    if k == 0 {
                        // the closing token heads the window: the stream is over
                        let nlen = self.needle.len();
                        proof {
                            lemma_find_characterizes(pend, self.needle@);
                            assert(occurs_at(pend, self.needle@, 0));
                        }
                        self.inner.position = nlen;
                        self.inner.checked = nlen;
                        self.end_of_stream = true;
                        proof {
                            assert(self.inner.window() =~= pend.skip(nlen as int).take(
                                navail - nlen,
                            ));
                            assert(self.inner.pending() =~= pend.skip(nlen as int));
                            assert(old(self).content() =~= Seq::<u8>::empty());
                            assert(Seq::<u8>::empty() =~= old(self).content().take(0));
                            assert(self.content() =~= old(self).content().skip(0));
                        }
                        return Ok(Vec::new());
                    }
                    self.inner.checked = k;
                    proof {
                        lemma_find_characterizes(pend, self.needle@);
                    }
                },
                None => {
                    if navail < self.needle.len() {
                        self.inner.checked = navail;
                        proof {
                            assert(self.inner.src.remaining().len() == 0);
                            assert(pend.len() == navail);
                            assert forall|j: int|
                                0 <= j < navail implies !occurs_at(pend, self.needle@, j) by {}
                        }
                    } else {
                        let c = navail - self.needle.len() + 1;
                        self.inner.checked = c;
                        proof {
                            assert forall|j: int| 0 <= j < c implies !occurs_at(
                                pend,
                                self.needle@,
                                j,
                            ) by {}
                        }
                    }
                },
            }
        }
        // serve bytes from the safe region
        let avail_n = self.inner.checked - self.inner.position;
        let n = if max < avail_n {
            max
        } else {
            avail_n
        };
        let ghost pcur = self.inner.pending();
        let ghost c = self.inner.checked - self.inner.position;
        let ghost pre_serve = *self;
        let base = self.inner.position;
        let mut v: Vec<u8> = Vec::new();
        let mut i: usize = 0;
        while i < n
            invariant
                0 <= i <= n,
                *self == pre_serve,
                base == self.inner.position,
                base + n <= self.inner.checked,
                self.inner.checked <= self.inner.available,
                self.inner.available <= self.inner.buf@.len(),
                v@ =~= self.inner.buf@.subrange(base as int, base + i),
            decreases n - i,
        {
            let b = self.inner.buf[base + i];
            v.push(b);
            i += 1;
        }
        self.inner.position = self.inner.position + n;
        proof {
            assert(v@ =~= pcur.take(n as int));
            lemma_content_split(pcur, self.needle@, n as int);
            assert(self.inner.pending() =~= pcur.skip(n as int));
            assert(v@ == content_of(pcur, self.needle@).take(n as int));
            assert forall|j: int| 0 <= j < c - n implies !occurs_at(
                self.inner.pending(),
                self.needle@,
                j,
            ) by {
                lemma_occurs_skip(pcur, self.needle@, n as int, j);
            }
        }
        Ok(v)
    }
}

/// The window a full buffer gives onto the head of `s`.
pub open spec fn demux_window(s: Seq<u8>) -> Seq<u8> {
    if s.len() <= NEEDLE_MAX_LEN as int {
        s
    } else {
        s.take(NEEDLE_MAX_LEN as int)
    }
}

/// The side-channel output that scanning `s` to exhaustion produces: every
/// byte outside a complete token span and its stream content, in order.
///
/// Detection works through a full buffer-sized window, so a token longer
/// than the buffer degrades to ordinary pass-through bytes.
pub open spec fn demux_side(s: Seq<u8>) -> Seq<u8>
    decreases s.len(),
{
    if s.len() == 0 {
        Seq::empty()
    } else {
        let w = demux_window(s);
        match spec_find(w, start_mark()) {
            None => if s.len() < NEEDLE_MAX_LEN as int {
                s
            } else {
                s.take(1) + demux_side(s.skip(1))
            },
            Some(k) => if k > 0 {
                if k <= s.len() {
                    s.take(k) + demux_side(s.skip(k))
                } else {
                    s
                }
            } else {
                match token_parts(w) {
                    Some((m, e)) => if 0 <= e && e + 3 <= s.len() {
                        let close = s.take(e + 3);
                        let rest = s.skip(e + 3);
                        match spec_find(rest, close) {
                            Some(i) => if 0 <= i && i + close.len() <= rest.len() {
                                demux_side(rest.skip(i + close.len()))
                            } else {
                                Seq::empty()
                            },
                            None => Seq::empty(),
                        }
                    } else {
                        Seq::empty()
                    },
                    None => if s.len() < 17 {
                        s
                    } else {
                        s.take(17) + demux_side(s.skip(17))
                    },
                }
            },
        }
    }
}

/// The streams that scanning `s` to exhaustion hands to the handler: for
/// each complete token, its metadata region and the content the stream
/// offers (everything up to the first occurrence of the closing token, or
/// to the end of the input when it never comes), in input order.
pub open spec fn demux_spans(s: Seq<u8>) -> Seq<(Seq<u8>, Seq<u8>)>
    decreases s.len(),
{
    if s.len() == 0 {
        Seq::empty()
    } else {
        let w = demux_window(s);
        match spec_find(w, start_mark()) {
            None => if s.len() < NEEDLE_MAX_LEN as int {
                Seq::empty()
            } else {
                demux_spans(s.skip(1))
            },
            Some(k) => if k > 0 {
                if k <= s.len() {
                    demux_spans(s.skip(k))
                } else {
                    Seq::empty()
                }
            } else {
                match token_parts(w) {
                    Some((m, e)) => if 0 <= e && e + 3 <= s.len() {
                        let close = s.take(e + 3);
                        let rest = s.skip(e + 3);
                        let entry = (s.subrange(m + 2, e), content_of(rest, close));
                        match spec_find(rest, close) {
                            Some(i) => if 0 <= i && i + close.len() <= rest.len() {
                                seq![entry] + demux_spans(rest.skip(i + close.len()))
                            } else {
                                seq![entry]
                            },
                            None => seq![entry],
                        }
                    } else {
                        Seq::empty()
                    },
                    None => if s.len() < 17 {
                        Seq::empty()
                    } else {
                        demux_spans(s.skip(17))
                    },
                }
            },
        }
    }
}

/// The first `c` bytes of `p` may be flushed to the side output in any
/// number of slices without changing what the rest of the scan produces
/// or which streams it hands out.
spec fn flush_safe(p: Seq<u8>, c: int) -> bool {
    0 <= c <= p.len() && forall|n: int|
        0 <= n <= c ==> demux_side(#[trigger] p.skip(n)) == p.subrange(n, c) + demux_side(
            p.skip(c),
        ) && demux_spans(p.skip(n)) == demux_spans(p.skip(c))
}

/// A prefix free of marker occurrences is pass-through: flushing it commutes
/// with scanning the rest and hands out no stream.
#[verifier::rlimit(100)]
proof fn lemma_demux_flush(p: Seq<u8>, c: int)
    requires
        0 <= c <= p.len(),
        clean(p, start_mark(), c),
    ensures
        demux_side(p) == p.take(c) + demux_side(p.skip(c)),
        demux_spans(p) == demux_spans(p.skip(c)),
    decreases p.len(),
{
    if c == 0 {
        assert(p.skip(0) =~= p);
        assert(p.take(0) + demux_side(p) =~= demux_side(p));
    } else {
        let cap = NEEDLE_MAX_LEN as int;
        let w = demux_window(p);
        let wl = w.len() as int;
        lemma_find_characterizes(w, start_mark());
        match spec_find(w, start_mark()) {
            None => {
                if p.len() < cap {
                    let q = p.skip(c);
                    assert forall|j: int| !(#[trigger] occurs_at(q, start_mark(), j)) by {
                        if 0 <= j {
                            lemma_occurs_skip(p, start_mark(), c, j);
                        }
                    }
                    lemma_find_characterizes(q, start_mark());
                    if q.len() > 0 {
                        assert(demux_window(q) =~= q);
                        match spec_find(q, start_mark()) {
                            Some(i) => {
                                assert(false);
                            },
                            None => {},
                        }
                        assert(demux_side(q) == q);
                        assert(demux_spans(q) == Seq::<(Seq<u8>, Seq<u8>)>::empty());
                    }
                    assert(p.take(c) + p.skip(c) =~= p);
                    assert(demux_spans(p) == Seq::<(Seq<u8>, Seq<u8>)>::empty());
                } else {
                    assert forall|j: int| 0 <= j < c - 1 implies !occurs_at(
                        p.skip(1),
                        start_mark(),
                        j,
                    ) by {
                        lemma_occurs_skip(p, start_mark(), 1, j);
                    }
                    lemma_demux_flush(p.skip(1), c - 1);
                    assert(p.skip(1).skip(c - 1) =~= p.skip(c));
                    assert(p.take(1) + (p.skip(1).take(c - 1) + demux_side(p.skip(c))) =~= p.take(
                        c,
                    ) + demux_side(p.skip(c)));
                    assert(demux_spans(p) == demux_spans(p.skip(1)));
                }
            },
            Some(k) => {
                lemma_occurs_take(p, start_mark(), wl, k);
                if k == 0 {
                    assert(!occurs_at(p, start_mark(), 0));
                    assert(false);
                } else {
                    assert(k <= p.len());
                    assert forall|j: int| 0 <= j < k - c implies !occurs_at(
                        p.skip(c),
                        start_mark(),
                        j,
                    ) by {
                        lemma_occurs_skip(p, start_mark(), c, j);
                        if occurs_at(p, start_mark(), c + j) {
                            lemma_occurs_take(p, start_mark(), wl, c + j);
                        }
                    }
                    lemma_demux_flush(p.skip(c), k - c);
                    assert(p.skip(c).skip(k - c) =~= p.skip(k));
                    assert(p.take(k) + demux_side(p.skip(k)) =~= p.take(c) + (p.skip(c).take(
                        k - c,
                    ) + demux_side(p.skip(k))));
                    assert(demux_spans(p) == demux_spans(p.skip(k)));
                }
            },
        }
    }
}

/// The pass-through region a scan step declares safe really is safe to
/// flush, slice by slice.
proof fn lemma_flush_safe_of_clean(p: Seq<u8>, c: int)
    requires
        0 <= c <= p.len(),
        clean(p, start_mark(), c),
    ensures
        flush_safe(p, c),
{
    assert forall|n: int| 0 <= n <= c implies demux_side(#[trigger] p.skip(n)) == p.subrange(
        n,
        c,
    ) + demux_side(p.skip(c)) && demux_spans(p.skip(n)) == demux_spans(p.skip(c)) by {
        assert forall|j: int| 0 <= j < c - n implies !occurs_at(p.skip(n), start_mark(), j) by {
            lemma_occurs_skip(p, start_mark(), n, j);
        }
        lemma_demux_flush(p.skip(n), c - n);
        assert(p.skip(n).take(c - n) =~= p.subrange(n, c));
        assert(p.skip(n).skip(c - n) =~= p.skip(c));
    }
}

/// When a marker prefix heads the window but no complete token follows it,
/// only the marker run itself is flushed, and that is safe: nothing inside
/// the marker can begin another occurrence.
proof fn lemma_flush_safe_degrade(p: Seq<u8>)
    requires
        17 <= p.len(),
        spec_find(demux_window(p), start_mark()) == Some(0int),
        token_parts(demux_window(p)) is None,
    ensures
        flush_safe(p, 17),
{
    let w = demux_window(p);
    lemma_find_characterizes(w, start_mark());
    assert(occurs_at(w, start_mark(), 0));
    lemma_occurs_take(p, start_mark(), w.len() as int, 0);
    assert(p.subrange(0, 17) == start_mark());
    assert forall|n: int| 0 <= n <= 17 implies demux_side(#[trigger] p.skip(n)) == p.subrange(
        n,
        17,
    ) + demux_side(p.skip(17)) && demux_spans(p.skip(n)) == demux_spans(p.skip(17)) by {
        if n == 0 {
            assert(p.skip(0) =~= p);
            assert(p.subrange(0, 17) =~= p.take(17));
            assert(demux_side(p) == p.take(17) + demux_side(p.skip(17)));
            assert(demux_spans(p) == demux_spans(p.skip(17)));
        } else {
            assert forall|j: int| 0 <= j < 17 - n implies !occurs_at(p.skip(n), start_mark(), j) by {
                lemma_occurs_skip(p, start_mark(), n, j);
                if occurs_at(p, start_mark(), n + j) {
                    assert(p.subrange(n + j, n + j + 17)[0] == p[n + j]);
                    assert(p[n + j] == start_mark()[0]);
                    assert(p.subrange(0, 17)[n + j] == p[n + j]);
                    assert(p[n + j] == start_mark()[n + j]);
                }
            }
            lemma_demux_flush(p.skip(n), 17 - n);
            assert(p.skip(n).take(17 - n) =~= p.subrange(n, 17));
            assert(p.skip(n).skip(17 - n) =~= p.skip(17));
        }
    }
}

/// Pass-through identity: input in which the marker prefix never occurs is
/// reproduced on the side output byte for byte.
pub proof fn lemma_passthrough_identity(s: Seq<u8>)
    requires
        forall|j: int| !(#[trigger] occurs_at(s, start_mark(), j)),
    ensures
        demux_side(s) == s,
        demux_spans(s) == Seq::<(Seq<u8>, Seq<u8>)>::empty(),
    decreases s.len(),
{
    if s.len() == 0 {
    } else {
        let w = demux_window(s);
        lemma_find_characterizes(w, start_mark());
        match spec_find(w, start_mark()) {
            Some(k) => {
                lemma_occurs_take(s, start_mark(), w.len() as int, k);
                assert(false);
            },
            None => {
                if s.len() < NEEDLE_MAX_LEN as int {
                } else {
                    assert forall|j: int| !(#[trigger] occurs_at(s.skip(1), start_mark(), j)) by {
                        if 0 <= j {
                            lemma_occurs_skip(s, start_mark(), 1, j);
                        }
                    }
                    lemma_passthrough_identity(s.skip(1));
                    assert(s.take(1) + s.skip(1) =~= s);
                }
            },
        }
    }
}

/// An opening token immediately followed by its matching closing token
/// bounds an empty content region.
pub proof fn lemma_empty_content(n: Seq<u8>, rest: Seq<u8>)
    requires
        n.len() >= 1,
    ensures
        content_of(n + rest, n) == Seq::<u8>::empty(),
{
    assert((n + rest).subrange(0, n.len() as int) =~= n);
    assert(occurs_at(n + rest, n, 0));
    lemma_find_is_first(n + rest, n, 0);
    assert(content_of(n + rest, n) =~= Seq::<u8>::empty());
}

/// A caller-supplied consumer of embedded streams.
///
/// The demultiplexer calls `on_stream` exactly once per detected stream.  A
/// handler may read any prefix of the stream, including nothing; whatever it
/// leaves unread is drained and discarded when it returns.  A handler must
/// not disturb what lies beyond the stream's closing token.
pub trait StreamHandler<R: ByteSource> {
    /// A ghost record of the streams this handler was given: for each, the
    /// metadata region of its opening token and the content the stream
    /// offered, in order of invocation.  Implementations written outside
    /// the verifier leave it at its default.
    open spec fn handled(&self) -> Seq<(Seq<u8>, Seq<u8>)> {
        Seq::empty()
    }

    /// Consumes one embedded stream.
    fn on_stream(&mut self, stream: &mut EmbeddedStream<R>)
        requires
            old(stream).wf(),
            !old(stream).ended(),
        ensures
            final(stream).wf(),
            final(stream).closing() == old(stream).closing(),
            final(stream).buffer_len() == old(stream).buffer_len(),
            final(stream).after() == old(stream).after(),
            final(self).handled() == old(self).handled().push(
                (old(stream).meta(), old(stream).content()),
            ),
    ;
}

/// Reads a stream to its end, discarding whatever content is left.
fn drain_stream<R: ByteSource>(stream: &mut EmbeddedStream<R>) -> (r: Result<(), ()>)
    requires
        old(stream).wf(),
    ensures
        match r {
            Ok(()) => final(stream).wf() && final(stream).ended() && final(stream).after() == old(
                stream,
            ).after() && final(stream).buffer_len() == old(stream).buffer_len(),
            Err(_) => true,
        },
{
    loop
        invariant
            stream.wf(),
            stream.after() == old(stream).after(),
            stream.buffer_len() == old(stream).buffer_len(),
        decreases stream.content().len(),
    {
        let chunk = match stream.read_bytes(NEEDLE_MAX_LEN) {
            Ok(c) => c,
            Err(()) => {
                return Err(());
            },
        };
        if chunk.len() == 0 {
            return Ok(());
        }
    }
}

/// Mid-scan, the side output is a prefix of what the whole scan yields.
proof fn lemma_sunk_mid_prefix(sunk0: Seq<u8>, s0: Seq<u8>, sunk: Seq<u8>, pending: Seq<u8>)
    requires
        sunk0 + demux_side(s0) == sunk + demux_side(pending),
    ensures
        sunk.is_prefix_of(sunk0 + demux_side(s0)),
{
    assert((sunk + demux_side(pending)).subrange(0, sunk.len() as int) =~= sunk);
}

/// A sequence is a prefix of itself extended.
proof fn lemma_concat_prefix<A>(a: Seq<A>, b: Seq<A>)
    ensures
        a.is_prefix_of(a + b),
{
    assert((a + b).subrange(0, a.len() as int) =~= a);
}

/// A prefix of a prefix is a prefix.
proof fn lemma_prefix_trans<A>(a: Seq<A>, b: Seq<A>, c: Seq<A>)
    requires
        a.is_prefix_of(b),
        b.is_prefix_of(c),
    ensures
        a.is_prefix_of(c),
{
    assert(c.subrange(0, a.len() as int) =~= b.subrange(0, a.len() as int));
}

/// Nothing has been cleared for delivery yet: trivially safe to flush.
proof fn lemma_flush_safe_zero(p: Seq<u8>)
    ensures
        flush_safe(p, 0),
{
    assert forall|n: int| 0 <= n <= 0 implies demux_side(#[trigger] p.skip(n)) == p.subrange(
        n,
        0,
    ) + demux_side(p.skip(0)) && demux_spans(p.skip(n)) == demux_spans(p.skip(0)) by {
        assert(p.skip(n) =~= p.skip(0));
        assert(p.subrange(n, 0) + demux_side(p.skip(0)) =~= demux_side(p.skip(0)));
    }
}

/// The demultiplexer: repeatedly scans for an opening token, hands each
/// embedded stream to the handler, and forwards every byte outside a stream
/// span to the side output, in order and without added framing.
pub struct EmbeddedStreams<R, W> {
    inner: EmbeddedReader<R>,
    side: W,
}

impl<R: ByteSource, W: ByteSink> EmbeddedStreams<R, W> {
    /// Ready to scan from a clean cursor state.
    pub closed spec fn wf(self) -> bool {
        self.inner.wf() && self.inner.position == self.inner.checked && self.inner.buf@.len()
            == NEEDLE_MAX_LEN as int
    }

    /// The bytes the source still holds.
    pub closed spec fn source_view(self) -> Seq<u8> {
        self.inner.pending()
    }

    /// The bytes already on the side output.
    pub closed spec fn side_view(self) -> Seq<u8> {
        self.side.sunk()
    }

    /// Creates a new `EmbeddedStreams` from a `reader`; any non-stream bytes
    /// will be sent to the supplied `side_writer`.
    pub fn new(reader: R, side_writer: W) -> (r: EmbeddedStreams<R, W>)
        requires
            reader.source_inv(),
        ensures
            r.wf(),
            r.source_view() == reader.remaining(),
            r.side_view() == side_writer.sunk(),
    {
        EmbeddedStreams {
            inner: EmbeddedReader::with_capacity(NEEDLE_MAX_LEN, reader),
            side: side_writer,
        }
    }

    /// Applies the handler to every embedded stream and flushes all other
    /// bytes to the side output, until the source is exhausted or a channel
    /// fails; the side writer is surrendered either way.
    ///
    /// On success the side output has grown by exactly `demux_side` of the
    /// logical input, and the handler's record by exactly `demux_spans` of
    /// it: one invocation per complete token, in input order, each handed
    /// that token's metadata and content.  Both are functions of the input
    /// bytes alone, independent of how the source chunks its reads.  Even
    /// on failure the side output only ever grows, by a prefix of what the
    /// whole scan would yield.
    #[verifier::rlimit(100)]
    pub fn for_each<H: StreamHandler<R>>(self, handler: &mut H) -> (r: (W, Result<(), ()>))
        requires
            self.wf(),
        ensures
            r.1 is Ok ==> r.0.sunk() == self.side_view() + demux_side(self.source_view()),
            r.1 is Ok ==> final(handler).handled() == old(handler).handled() + demux_spans(
                self.source_view(),
            ),
            old(handler).handled().is_prefix_of(final(handler).handled()),
            self.side_view().is_prefix_of(r.0.sunk()),
            r.0.sunk().is_prefix_of(self.side_view() + demux_side(self.source_view())),
    {
        let ghost s0 = self.source_view();
        let ghost sunk0 = self.side_view();
        let EmbeddedStreams { mut inner, mut side } = self;
        proof {
            lemma_flush_safe_zero(inner.pending());
        }
        loop
            invariant
                inner.wf(),
                inner.buf@.len() == NEEDLE_MAX_LEN as int,
                flush_safe(inner.pending(), inner.checked - inner.position),
                sunk0 + demux_side(s0) == side.sunk() + demux_side(inner.pending()),
                handler.handled() + demux_spans(inner.pending()) == old(handler).handled()
                    + demux_spans(s0),
                old(handler).handled().is_prefix_of(handler.handled()),
                sunk0.is_prefix_of(side.sunk()),
                s0 == self.source_view(),
                sunk0 == self.side_view(),
            decreases inner.pending().len(),
        {
            if inner.position >= inner.checked {
                match inner.fill() {
                    Ok(()) => {},
                    Err(()) => {
                        proof {
                            lemma_sunk_mid_prefix(sunk0, s0, side.sunk(), inner.pending());
                        }
                        return (side, Err(()));
                    },
                }
                if inner.available == 0 {
                    proof {
                        assert(inner.pending().len() == 0);
                        assert(inner.pending() =~= Seq::<u8>::empty());
                        assert(side.sunk() + demux_side(inner.pending()) =~= side.sunk());
                        assert(handler.handled() + demux_spans(inner.pending()) =~= handler.handled());
                        lemma_sunk_mid_prefix(sunk0, s0, side.sunk(), inner.pending());
                    }
                    return (side, Ok(()));
                }
                let navail = inner.available;
                let ghost pend = inner.pending();
                proof {
                    assert(inner.window() =~= inner.buf@.subrange(0, navail as int));
                    assert(demux_window(pend) =~= pend.take(navail as int));
                    lemma_find_window(pend, start_mark(), navail as int);
                }
                let startb = start_bytes();
                let found = find_in(inner.buf.as_slice(), 0, navail, startb.as_slice());
                match found {
                    Some(k) => {
                        if k == 0 {
                            let midb = mid_bytes();
                            let endb = end_bytes();
                            proof {
                                assert(inner.buf@.subrange(17, navail as int) =~= demux_window(
                                    pend,
                                ).skip(17));
                            }
                            let mut token_me: Option<(usize, usize)> = None;
                            match find_in(inner.buf.as_slice(), 17, navail, midb.as_slice()) {
                                Some(m_abs) => {
                                    proof {
                                        assert(inner.buf@.subrange(m_abs + 2, navail as int)
                                            =~= demux_window(pend).skip(m_abs + 2));
                                    }
                                    match find_in(
                                        inner.buf.as_slice(),
                                        m_abs + 2,
                                        navail,
                                        endb.as_slice(),
                                    ) {
                                        Some(e_abs) => {
                                            token_me = Some((m_abs, e_abs));
                                        },
                                        None => {},
                                    }
                                },
                                None => {},
                            }
                            match token_me {
                                Some((m_abs, e_abs)) => {
                                    proof {
                                        assert(token_parts(demux_window(pend)) == Some((
                                            m_abs as int,
                                            e_abs as int,
                                        )));
                                    }
                                    let ghost handled_before = handler.handled();
                                    inner = match run_stream(inner, m_abs, e_abs, handler) {
                                        Ok(done) => done,
                                        Err(()) => {
                                            proof {
                                                lemma_sunk_mid_prefix(
                                                    sunk0,
                                                    s0,
                                                    side.sunk(),
                                                    pend,
                                                );
                                                lemma_prefix_trans(
                                                    old(handler).handled(),
                                                    handled_before,
                                                    handler.handled(),
                                                );
                                            }
                                            return (side, Err(()));
                                        },
                                    };
                                    proof {
                                        lemma_flush_safe_zero(inner.pending());
                                        assert(handler.handled() + demux_spans(inner.pending())
                                            =~= old(handler).handled() + demux_spans(s0));
                                        assert(handler.handled() =~= handled_before + seq![
                                            handler.handled()[handler.handled().len() - 1],
                                        ]);
                                        lemma_concat_prefix(
                                            handled_before,
                                            seq![handler.handled()[handler.handled().len() - 1]],
                                        );
                                        lemma_prefix_trans(
                                            old(handler).handled(),
                                            handled_before,
                                            handler.handled(),
                                        );
                                    }
                                },
                                None => {
                                    inner.checked = 17;
                                    proof {
                                        assert(token_parts(demux_window(pend)) is None);
                                        lemma_flush_safe_degrade(pend);
                                    }
                                },
                            }
                        } else {
                            inner.checked = k;
                            proof {
                                lemma_find_characterizes(pend, start_mark());
                                lemma_flush_safe_of_clean(pend, k as int);
                            }
                        }
                    },
                    None => {
                        if navail < NEEDLE_MAX_LEN {
                            inner.checked = navail;
                            proof {
                                assert(inner.src.remaining().len() == 0);
                                assert(pend.len() == navail);
                                assert forall|j: int| 0 <= j < navail implies !occurs_at(
                                    pend,
                                    start_mark(),
                                    j,
                                ) by {}
                                lemma_flush_safe_of_clean(pend, navail as int);
                            }
                        } else {
                            let c = navail - NEEDLE_MAX_LEN + 1;
                            inner.checked = c;
                            proof {
                                assert forall|j: int| 0 <= j < c implies !occurs_at(
                                    pend,
                                    start_mark(),
                                    j,
                                ) by {}
                                lemma_flush_safe_of_clean(pend, c as int);
                            }
                        }
                    },
                }
            }
            if inner.checked > inner.position {
                let ghost sunk_before = side.sunk();
                match flush_side(&mut inner, &mut side) {
                    Ok(()) => {
                        proof {
                            lemma_prefix_trans(sunk0, sunk_before, side.sunk());
                        }
                    },
                    Err(()) => {
                        proof {
                            lemma_sunk_mid_prefix(sunk0, s0, side.sunk(), inner.pending());
                        }
                        return (side, Err(()));
                    },
                }
            }
        }
    }
}

/// Handles one complete opening token at the head of the window: carves out
/// id and metadata, hands the stream to the handler, drains the rest, and
/// returns the reader positioned exactly after the closing token.
#[verifier::rlimit(100)]
fn run_stream<R: ByteSource, H: StreamHandler<R>>(
    inner: EmbeddedReader<R>,
    m_abs: usize,
    e_abs: usize,
    handler: &mut H,
) -> (r: Result<EmbeddedReader<R>, ()>)
    requires
        inner.wf(),
        inner.position == 0,
        inner.checked == 0,
        inner.window() == demux_window(inner.pending()),
        spec_find(inner.window(), start_mark()) == Some(0int),
        token_parts(inner.window()) == Some((m_abs as int, e_abs as int)),
    ensures
        match r {
            Ok(done) => done.wf() && done.position == done.checked && done.buf@.len()
                == inner.buf@.len() && demux_side(done.pending()) == demux_side(inner.pending())
                && done.pending().len() < inner.pending().len() && final(handler).handled()
                == old(handler).handled().push(
                (
                    inner.pending().subrange(m_abs + 2, e_abs as int),
                    content_of(
                        inner.pending().skip(e_abs + 3),
                        inner.pending().take(e_abs + 3),
                    ),
                ),
            ) && demux_spans(inner.pending()) == seq![
                (
                    inner.pending().subrange(m_abs + 2, e_abs as int),
                    content_of(
                        inner.pending().skip(e_abs + 3),
                        inner.pending().take(e_abs + 3),
                    ),
                ),
            ] + demux_spans(done.pending()),
            Err(_) => old(handler).handled().is_prefix_of(final(handler).handled()),
        },
{
    let ghost pend = inner.pending();
    let ghost w = inner.window();
    let mut inner = inner;
    let navail = inner.available;
    proof {
        lemma_find_characterizes(w, start_mark());
        lemma_find_characterizes(w.skip(17), mid_mark());
        lemma_find_characterizes(w.skip(m_abs + 2), end_mark());
        assert(w =~= inner.buf@.subrange(0, navail as int));
        assert(occurs_at(w, start_mark(), 0));
        assert(occurs_at(w.skip(17), mid_mark(), m_abs - 17));
        assert(occurs_at(w.skip(m_abs + 2), end_mark(), e_abs - m_abs - 2));
    }
    let midb = mid_bytes();
    let endb = end_bytes();
    let id_s = vstd::slice::slice_subrange(inner.buf.as_slice(), 17, m_abs);
    let id = vstd::slice::slice_to_vec(id_s);
    let meta_s = vstd::slice::slice_subrange(inner.buf.as_slice(), m_abs + 2, e_abs);
    let meta = vstd::slice::slice_to_vec(meta_s);
    let mut close = start_bytes();
    close.extend_from_slice(id.as_slice());
    close.extend_from_slice(midb.as_slice());
    close.extend_from_slice(meta.as_slice());
    close.extend_from_slice(endb.as_slice());
    inner.position = e_abs + 3;
    inner.checked = e_abs + 3;
    let ghost rest = pend.skip(e_abs + 3);
    proof {
        assert(close@ =~= pend.take(e_abs + 3));
        assert(inner.pending() =~= rest);
        assert(meta@ =~= pend.subrange(m_abs + 2, e_abs as int));
    }
    let mut stream = EmbeddedStream { inner, needle: close, metadata: meta, end_of_stream: false };
    proof {
        assert(stream.wf());
        lemma_find_characterizes(rest, stream.needle@);
    }
    let ghost after0 = stream.after();
    handler.on_stream(&mut stream);
    match drain_stream(&mut stream) {
        Ok(()) => {},
        Err(()) => {
            proof {
                assert(handler.handled() =~= old(handler).handled().push(
                    (meta@, content_of(rest, close@)),
                ));
                lemma_concat_prefix(
                    old(handler).handled(),
                    seq![(meta@, content_of(rest, close@))],
                );
                assert(old(handler).handled() + seq![(meta@, content_of(rest, close@))]
                    =~= old(handler).handled().push((meta@, content_of(rest, close@))));
            }
            return Err(());
        },
    }
    proof {
        assert(stream.inner.pending() == after0);
    }
    let done = stream.inner;
    proof {
        assert(demux_side(done.pending()) == demux_side(pend));
        let ghost entry = (
            pend.subrange(m_abs + 2, e_abs as int),
            content_of(rest, pend.take(e_abs + 3)),
        );
        match spec_find(rest, pend.take(e_abs + 3)) {
            Some(i) => {
                assert(demux_spans(pend) == seq![entry] + demux_spans(done.pending()));
            },
            None => {
                assert(done.pending() =~= Seq::<u8>::empty());
                assert(demux_spans(done.pending()) == Seq::<(Seq<u8>, Seq<u8>)>::empty());
                assert(seq![entry] + demux_spans(done.pending()) =~= seq![entry]);
                assert(demux_spans(pend) == seq![entry] + demux_spans(done.pending()));
            },
        }
    }
    Ok(done)
}

/// Forwards the bytes cleared for delivery to the side output, advancing by
/// however much the sink accepted.
#[verifier::rlimit(100)]
fn flush_side<R: ByteSource, W: ByteSink>(inner: &mut EmbeddedReader<R>, side: &mut W) -> (r:
    Result<(), ()>)
    requires
        old(inner).wf(),
        old(inner).checked > old(inner).position,
        flush_safe(old(inner).pending(), old(inner).checked - old(inner).position),
    ensures
        match r {
            Ok(()) => final(inner).wf() && final(inner).buf@.len() == old(inner).buf@.len()
                && final(inner).pending().len() < old(inner).pending().len() && flush_safe(
                final(inner).pending(),
                final(inner).checked - final(inner).position,
            ) && final(side).sunk() + demux_side(final(inner).pending()) == old(side).sunk()
                + demux_side(old(inner).pending()) && old(side).sunk().is_prefix_of(
                final(side).sunk(),
            ) && demux_spans(final(inner).pending()) == demux_spans(old(inner).pending()),
            Err(_) => final(side).sunk() == old(side).sunk() && *final(inner) == *old(inner),
        },
{
    let ghost p = inner.pending();
    let ghost c = inner.checked - inner.position;
    let data_s = vstd::slice::slice_subrange(inner.buf.as_slice(), inner.position, inner.checked);
    let data = vstd::slice::slice_to_vec(data_s);
    proof {
        assert(data@ =~= p.take(c));
    }
    match side.write_bytes(data.as_slice()) {
        Ok(n) => {
            inner.position = inner.position + n;
            proof {
                assert(data@.take(n as int) =~= p.take(n as int));
                assert(p.skip(0) =~= p);
                assert(demux_side(p.skip(0)) == p.subrange(0, c) + demux_side(p.skip(c)));
                assert(demux_side(p.skip(n as int)) == p.subrange(n as int, c) + demux_side(
                    p.skip(c),
                ));
                assert(p.take(n as int) + p.subrange(n as int, c) =~= p.subrange(0, c));
                assert(p.take(n as int) + (p.subrange(n as int, c) + demux_side(p.skip(c)))
                    =~= p.subrange(0, c) + demux_side(p.skip(c)));
                assert(demux_side(p) == p.take(n as int) + demux_side(p.skip(n as int)));
                assert(inner.pending() =~= p.skip(n as int));
                assert forall|n2: int| 0 <= n2 <= c - n implies demux_side(
                    #[trigger] p.skip(n as int).skip(n2),
                ) == p.skip(n as int).subrange(n2, c - n) + demux_side(
                    p.skip(n as int).skip(c - n),
                ) && demux_spans(p.skip(n as int).skip(n2)) == demux_spans(
                    p.skip(n as int).skip(c - n),
                ) by {
                    assert(p.skip(n as int).skip(n2) =~= p.skip(n + n2));
                    assert(demux_side(p.skip(n + n2)) == p.subrange(n + n2, c) + demux_side(
                        p.skip(c),
                    ));
                    assert(demux_spans(p.skip(n + n2)) == demux_spans(p.skip(c)));
                    assert(p.skip(n as int).subrange(n2, c - n) =~= p.subrange(n + n2, c));
                    assert(p.skip(n as int).skip(c - n) =~= p.skip(c));
                }
                assert(flush_safe(inner.pending(), inner.checked - inner.position));
            }
            Ok(())
        },
        Err(()) => Err(()),
    }
}

} // verus!
