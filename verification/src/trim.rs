//! A streaming filter that keeps only printable, non-whitespace ASCII.
//!
//! Whitespace, control bytes and anything outside the seven-bit range are
//! dropped before content decoding; what remains is exactly the ordered
//! subsequence of the kept bytes.

use vstd::prelude::*;

use crate::channel::ByteSource;

verus! {

/// A byte the filter keeps: printable, non-whitespace ASCII.
pub open spec fn kept(b: u8) -> bool {
    32 < b < 127
}

/// The filtered form of a byte string: its ordered subsequence of kept
/// bytes.
pub open spec fn spec_trim(s: Seq<u8>) -> Seq<u8> {
    s.filter(|b: u8| kept(b))
}

/// Splitting the input anywhere splits the filtered output the same way.
pub proof fn lemma_trim_distributes(a: Seq<u8>, b: Seq<u8>)
    ensures
        spec_trim(a + b) == spec_trim(a) + spec_trim(b),
{
    Seq::<u8>::filter_distributes_over_add(a, b, |b: u8| kept(b));
}

/// Keeps exactly the printable, non-whitespace ASCII bytes of `data`, in
/// order.
pub fn trim_bytes(data: &[u8]) -> (r: Vec<u8>)
    ensures
        r@ == spec_trim(data@),
{
    let mut out: Vec<u8> = Vec::new();
    let mut i: usize = 0;
    proof {
        assert(data@.take(0) =~= Seq::<u8>::empty());
        lemma_trim_empty();
    }
    while i < data.len()
        invariant
            0 <= i <= data@.len(),
            out@ == spec_trim(data@.take(i as int)),
        decreases data@.len() - i,
    {
        let b = data[i];
        proof {
            assert(data@.take(i + 1) =~= data@.take(i as int) + seq![data@[i as int]]);
            lemma_trim_distributes(data@.take(i as int), seq![data@[i as int]]);
            lemma_trim_singleton(data@[i as int]);
        }
        if b > 32 && b < 127 {
            out.push(b);
        }
        i += 1;
    }
    proof {
        assert(data@.take(data@.len() as int) =~= data@);
    }
    out
}

/// The filtered form of a single byte.
proof fn lemma_trim_singleton(b: u8)
    ensures
        spec_trim(seq![b]) == if kept(b) {
            seq![b]
        } else {
            Seq::<u8>::empty()
        },
{
    reveal_with_fuel(Seq::filter, 2);
    assert(seq![b].drop_last() =~= Seq::<u8>::empty());
    assert(seq![b].last() == b);
}

/// Filtering nothing yields nothing.
proof fn lemma_trim_empty()
    ensures
        spec_trim(Seq::<u8>::empty()) == Seq::<u8>::empty(),
{
    reveal_with_fuel(Seq::filter, 1);
}

/// A filtering reader: wraps a byte source and hands out only its kept
/// bytes, pulling from the source until it can return something or the
/// source is exhausted.
pub struct TrimFilterReader<R> {
    inner: R,
}

impl<R: ByteSource> TrimFilterReader<R> {
    /// Wraps `inner`.
    pub fn new(inner: R) -> (r: TrimFilterReader<R>)
        ensures
            r.source_inv() == inner.source_inv(),
            r.remaining() == spec_trim(inner.remaining()),
    {
        TrimFilterReader { inner }
    }

    /// Surrenders the wrapped source.
    pub fn into_inner(self) -> (r: R)
        ensures
            self.source_inv() == r.source_inv(),
            self.remaining() == spec_trim(r.remaining()),
    {
        self.inner
    }
}

impl<R: ByteSource> ByteSource for TrimFilterReader<R> {
    closed spec fn source_inv(&self) -> bool {
        self.inner.source_inv()
    }

    closed spec fn remaining(&self) -> Seq<u8> {
        spec_trim(self.inner.remaining())
    }

    fn read_bytes(&mut self, max: usize) -> (r: Result<Vec<u8>, ()>) {
        loop
            invariant
                self.source_inv(),
                self.remaining() == old(self).remaining(),
            decreases self.inner.remaining().len(),
        {
            let ghost pre = self.inner.remaining();
            let chunk = match self.inner.read_bytes(max) {
                Ok(c) => c,
                Err(()) => {
                    return Err(());
                },
            };
            let kept_bytes = trim_bytes(chunk.as_slice());
            proof {
                assert(pre =~= chunk@ + self.inner.remaining());
                lemma_trim_distributes(chunk@, self.inner.remaining());
            }
            if kept_bytes.len() > 0 || chunk.len() == 0 || max == 0 {
                proof {
                    assert(kept_bytes@ =~= old(self).remaining().take(kept_bytes@.len() as int));
                    assert(self.remaining() =~= old(self).remaining().skip(
                        kept_bytes@.len() as int,
                    ));
                    if kept_bytes@.len() == 0 && max > 0 {
                        assert(chunk@.len() == 0);
                        assert(pre.len() == 0);
                        assert(pre =~= Seq::<u8>::empty());
                        lemma_trim_empty();
                    }
                }
                return Ok(kept_bytes);
            }
        }
    }
}

} // verus!
