use std::collections::VecDeque;

use vstd::prelude::*;
use vstd::seq_lib::lemma_flatten_concat;

verus! {

/// One owned byte chunk with a read cursor. The view is the unread
/// suffix of the data.
pub struct Chunk {
    data: Vec<u8>,
    pos: usize,
}

impl Chunk {
    pub closed spec fn wf(&self) -> bool {
        self.pos <= self.data@.len()
    }
}

impl View for Chunk {
    type V = Seq<u8>;

    closed spec fn view(&self) -> Seq<u8> {
        self.data@.skip(self.pos as int)
    }
}

/// The unread views of a row of chunks.
pub open spec fn chunk_views(cs: Seq<Chunk>) -> Seq<Seq<u8>> {
    cs.map_values(|c: Chunk| c@)
}

/// An ordered collection of owned byte chunks presented as one logical
/// readable buffer. Sequential reads drain chunks front to back;
/// `gather` exposes the unread chunks as slices for vectored output
/// without copying. The view is the concatenation of all unread bytes.
pub struct BufVec {
    remaining: usize,
    bufs: VecDeque<Chunk>,
}

impl View for BufVec {
    type V = Seq<u8>;

    closed spec fn view(&self) -> Seq<u8> {
        chunk_views(self.bufs@).flatten()
    }
}

/// Splitting a row of byte sequences anywhere splits its
/// concatenation.
pub proof fn lemma_flatten_split(s: Seq<Seq<u8>>, k: int)
    requires
        0 <= k <= s.len(),
    ensures
        s.flatten() == s.take(k).flatten() + s.skip(k).flatten(),
{
    assert(s.take(k) + s.skip(k) =~= s);
    lemma_flatten_concat(s.take(k), s.skip(k));
}

proof fn lemma_flatten_take_succ(s: Seq<Seq<u8>>, k: int)
    requires
        0 <= k < s.len(),
    ensures
        s.take(k + 1).flatten() == s.take(k).flatten() + s[k],
{
    assert(s.take(k + 1) =~= s.take(k).push(s[k]));
    Seq::lemma_flatten_push(s.take(k), s[k]);
}

/// A nonempty row of chunks flattens to its first view followed by the
/// rest.
proof fn lemma_flatten_unfold(s: Seq<Seq<u8>>)
    requires
        s.len() > 0,
    ensures
        s.flatten() == s.first() + s.drop_first().flatten(),
{
}

/// A well-formed buffer's bytes are the concatenation of its chunk
/// views, and no stored chunk is empty.
pub proof fn lemma_buf_chunks(b: &BufVec)
    requires
        b.wf(),
    ensures
        b.chunks().flatten() == b@,
        forall|i: int| 0 <= i < b.chunks().len() ==> (#[trigger] b.chunks()[i]).len() > 0,
{
}

impl BufVec {
    /// The unread views of the chunks, in order.
    pub closed spec fn chunks(&self) -> Seq<Seq<u8>> {
        chunk_views(self.bufs@)
    }

    /// Internal consistency: the cached byte count matches the chunks,
    /// every chunk cursor is in range, and no drained chunk is kept.
    pub closed spec fn wf(&self) -> bool {
        &&& forall|i: int|
            0 <= i < self.bufs@.len() ==> (#[trigger] self.bufs@[i]).wf() && self.bufs@[i]@.len()
                > 0
        &&& self.remaining == self@.len()
    }

    /// Creates an empty buffer.
    pub fn new() -> (r: BufVec)
        ensures
            r.wf(),
            r@ == Seq::<u8>::empty(),
            r.chunks() == Seq::<Seq<u8>>::empty(),
    {
        let r = BufVec { remaining: 0, bufs: VecDeque::new() };
        proof {
            assert(r.chunks() =~= Seq::<Seq<u8>>::empty());
        }
        r
    }

    /// Appends an owned chunk of bytes. An empty chunk is discarded,
    /// never stored.
    pub fn push(&mut self, data: Vec<u8>)
        requires
            old(self).wf(),
            old(self)@.len() + data@.len() <= usize::MAX,
        ensures
            final(self).wf(),
            final(self)@ == old(self)@ + data@,
            final(self).chunks() == if data@.len() > 0 {
                old(self).chunks().push(data@)
            } else {
                old(self).chunks()
            },
    {
        if data.len() > 0 {
            let len = data.len();
            let chunk = Chunk { data, pos: 0 };
            self.remaining = self.remaining + len;
            self.bufs.push_back(chunk);
            proof {
                assert(chunk@ =~= chunk.data@);
                assert(self.chunks() =~= old(self).chunks().push(chunk.data@));
                Seq::lemma_flatten_push(old(self).chunks(), chunk.data@);
            }
        } else {
            proof {
                assert(old(self)@ + data@ =~= old(self)@);
            }
        }
    }

    /// O(1) count of unread bytes across all chunks.
    pub fn remaining(&self) -> (r: usize)
        requires
            self.wf(),
        ensures
            r == self@.len(),
    {
        self.remaining
    }

    /// The longest contiguous unread prefix: the unread part of the
    /// front chunk, or empty if no chunks remain. Does not consume.
    pub fn chunk(&self) -> (r: &[u8])
        requires
            self.wf(),
        ensures
            r@ == self@.take(r@.len() as int),
            r@.len() <= self@.len(),
            self.chunks().len() > 0 ==> r@ == self.chunks()[0],
            self@.len() > 0 ==> r@.len() > 0,
            self@.len() == 0 ==> r@.len() == 0,
    {
        if self.bufs.len() == 0 {
            let r: &[u8] = &[];
            proof {
                assert(self.chunks() =~= Seq::<Seq<u8>>::empty());
                assert(self@.take(0) =~= r@);
            }
            r
        } else {
            let front = &self.bufs[0];
            let r = vstd::slice::slice_subrange(front.data.as_slice(), front.pos, front.data.len());
            proof {
                lemma_flatten_unfold(self.chunks());
                assert(r@ =~= self.chunks().first());
                assert(r@ =~= self@.take(r@.len() as int));
            }
            r
        }
    }

    /// Consumes exactly `cnt` bytes from the front of the logical
    /// stream, across as many chunks as necessary; a chunk fully
    /// consumed is evicted.
    pub fn advance(&mut self, cnt: usize)
        requires
            old(self).wf(),
            cnt <= old(self)@.len(),
        ensures
            final(self).wf(),
            final(self)@ == old(self)@.skip(cnt as int),
    {
        self.remaining = self.remaining - cnt;
        let ghost target = old(self)@.skip(cnt as int);
        let ghost orig = old(self)@;
        let mut left = cnt;
        while left > 0
            invariant
                left <= chunk_views(self.bufs@).flatten().len(),
                chunk_views(self.bufs@).flatten().skip(left as int) == target,
                forall|i: int|
                    0 <= i < self.bufs@.len() ==> (#[trigger] self.bufs@[i]).wf()
                        && self.bufs@[i]@.len() > 0,
                self.remaining == target.len(),
            decreases left,
        {
            let ghost pre = chunk_views(self.bufs@);
            proof {
                if self.bufs@.len() == 0 {
                    assert(pre =~= Seq::<Seq<u8>>::empty());
                }
                lemma_flatten_unfold(pre);
            }
            let mut front = match self.bufs.pop_front() {
                Some(c) => c,
                None => {
                    proof {
                        assert(false);
                    }
                    unreached()
                },
            };
            let rem = front.data.len() - front.pos;
            proof {
                assert(pre.first() == front@);
                assert(pre.drop_first() =~= chunk_views(self.bufs@));
            }
            if left < rem {
                let ghost fv = front@;
                front.pos = front.pos + left;
                proof {
                    assert(front@ =~= fv.skip(left as int));
                }
                self.bufs.push_front(front);
                proof {
                    let now = chunk_views(self.bufs@);
                    assert(now =~= pre.drop_first().insert(0, fv.skip(left as int)));
                    lemma_flatten_unfold(now);
                    assert(now.first() == fv.skip(left as int));
                    assert(now.drop_first() =~= pre.drop_first());
                    assert(now.flatten() =~= pre.flatten().skip(left as int));
                }
                left = 0;
            } else {
                proof {
                    let now = chunk_views(self.bufs@);
                    assert(now.flatten() =~= pre.flatten().skip(rem as int));
                    assert(now.flatten().skip((left - rem) as int) =~= pre.flatten().skip(
                        left as int,
                    ));
                }
                left = left - rem;
            }
        }
        proof {
            assert(self@ =~= self@.skip(0));
        }
    }

    /// Fills up to `max` vectored-output descriptors with the unread
    /// chunks, in order, stopping when either limit is reached.
    /// Read-only; does not advance.
    pub fn gather<'a>(&'a self, max: usize) -> (descs: Vec<&'a [u8]>)
        requires
            self.wf(),
        ensures
            descs@.len() == vstd::math::min(max as int, self.chunks().len() as int),
            forall|i: int| 0 <= i < descs@.len() ==> (#[trigger] descs@[i])@ == self.chunks()[i],
    {
        let mut descs: Vec<&'a [u8]> = Vec::new();
        let count = if max < self.bufs.len() {
            max
        } else {
            self.bufs.len()
        };
        let mut i: usize = 0;
        while i < count
            invariant
                count == vstd::math::min(max as int, self.chunks().len() as int),
                i <= count,
                self.wf(),
                descs@.len() == i,
                forall|j: int| 0 <= j < i ==> (#[trigger] descs@[j])@ == self.chunks()[j],
            decreases count - i,
        {
            let front = &self.bufs[i];
            let s = vstd::slice::slice_subrange(front.data.as_slice(), front.pos, front.data.len());
            proof {
                assert(s@ =~= self.chunks()[i as int]);
            }
            descs.push(s);
            i = i + 1;
        }
        descs
    }

    /// Moves every chunk of `other` to the back of `self`, keeping
    /// order and copying no bytes.
    pub fn append(&mut self, other: BufVec)
        requires
            old(self).wf(),
            other.wf(),
            old(self)@.len() + other@.len() <= usize::MAX,
        ensures
            final(self).wf(),
            final(self)@ == old(self)@ + other@,
    {
        let mut other = other;
        let ghost target = old(self)@ + other@;
        while other.bufs.len() > 0
            invariant
                self.wf(),
                other.wf(),
                self@ + other@ == target,
                self@.len() + other@.len() <= usize::MAX,
            decreases other.bufs@.len(),
        {
            let ghost so = self.chunks();
            let ghost oo = other.chunks();
            proof {
                lemma_flatten_unfold(oo);
            }
            let c = match other.bufs.pop_front() {
                Some(c) => c,
                None => {
                    proof {
                        assert(false);
                    }
                    unreached()
                },
            };
            proof {
                assert(oo.first() == c@);
                assert(oo.drop_first() =~= other.chunks());
            }
            let add = c.data.len() - c.pos;
            other.remaining = other.remaining - add;
            self.remaining = self.remaining + add;
            self.bufs.push_back(c);
            proof {
                assert(self.chunks() =~= so.push(c@));
                Seq::lemma_flatten_push(so, c@);
                assert(self@ + other@ =~= target);
            }
        }
        proof {
            assert(other@ =~= Seq::<u8>::empty());
            assert(self@ =~= target);
        }
    }

    /// Sequential full consumption: reads the front contiguous prefix
    /// and advances past it until the buffer is empty, returning every
    /// unread byte in order. Together with the contract of `push`, this
    /// is the round trip: chunks pushed in order come back out as their
    /// exact concatenation.
    pub fn drain_to_vec(&mut self) -> (r: Vec<u8>)
        requires
            old(self).wf(),
        ensures
            final(self).wf(),
            final(self)@.len() == 0,
            r@ == old(self)@,
    {
        let ghost orig = old(self)@;
        let mut r: Vec<u8> = Vec::new();
        while self.remaining() > 0
            invariant
                self.wf(),
                r@ + self@ == orig,
            decreases self@.len(),
        {
            let n;
            {
                let c = self.chunk();
                let mut part = vstd::slice::slice_to_vec(c);
                n = part.len();
                r.append(&mut part);
            }
            proof {
                assert(self@.take(n as int) + self@.skip(n as int) =~= self@);
            }
            self.advance(n);
            proof {
                assert(r@ + self@ =~= orig);
            }
        }
        proof {
            assert(r@ =~= orig);
        }
        r
    }

    /// Vectored full consumption: repeatedly gathers up to `batch`
    /// descriptors, copies out what they expose, and advances by the
    /// gathered total. Produces the same bytes, in the same order, as
    /// sequential consumption.
    pub fn drain_gathered(&mut self, batch: usize) -> (r: Vec<u8>)
        requires
            old(self).wf(),
            batch >= 1,
        ensures
            final(self).wf(),
            final(self)@.len() == 0,
            r@ == old(self)@,
    {
        let ghost orig = old(self)@;
        let mut r: Vec<u8> = Vec::new();
        while self.remaining() > 0
            invariant
                self.wf(),
                batch >= 1,
                r@ + self@ == orig,
            decreases self@.len(),
        {
            let total;
            {
                let descs = self.gather(batch);
                let ghost k = descs@.len() as int;
                let mut t: usize = 0;
                let mut i: usize = 0;
                proof {
                    lemma_flatten_split(self.chunks(), k);
                    assert(self.chunks().take(0).flatten() =~= Seq::<u8>::empty());
                }
                while i < descs.len()
                    invariant
                        self.wf(),
                        descs@.len() <= self.chunks().len(),
                        forall|j: int|
                            0 <= j < descs@.len() ==> (#[trigger] descs@[j])@ == self.chunks()[j],
                        i <= descs@.len(),
                        t == self.chunks().take(i as int).flatten().len(),
                        t <= self@.len(),
                        r@ == orig.take(orig.len() - self@.len()) + self.chunks().take(
                            i as int,
                        ).flatten(),
                        r@ + self@.skip(t as int) == orig,
                    decreases descs@.len() - i,
                {
                    let mut part = vstd::slice::slice_to_vec(descs[i]);
                    proof {
                        lemma_flatten_take_succ(self.chunks(), i as int);
                        lemma_flatten_split(self.chunks(), i as int + 1);
                        assert(self.chunks().take(i as int).flatten() + self.chunks()[i as int]
                            =~= self@.take(
                            (t + part@.len()) as int,
                        ));
                        assert(self@.take((t + part@.len()) as int) + self@.skip(
                            (t + part@.len()) as int,
                        ) =~= self@);
                    }
                    t = t + part.len();
                    r.append(&mut part);
                    proof {
                        assert(r@ + self@.skip(t as int) =~= orig);
                    }
                    i = i + 1;
                }
                total = t;
                proof {
                    if self.chunks().len() == 0 {
                        assert(self.chunks() =~= Seq::<Seq<u8>>::empty());
                        assert(self@.len() == 0);
                    } else {
                        lemma_flatten_unfold(self.chunks().take(k));
                        assert(self.chunks().take(k).first() == self.chunks()[0]);
                    }
                }
            }
            self.advance(total);
            proof {
                assert(r@ + self@ =~= orig);
            }
        }
        proof {
            assert(r@ =~= orig);
        }
        r
    }
}

} // verus!
