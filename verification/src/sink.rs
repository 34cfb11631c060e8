use vstd::prelude::*;

use crate::error::IoFault;

verus! {

/// The bytes carried by a row of slices, in order.
pub open spec fn flat_of(bufs: Seq<&[u8]>) -> Seq<u8> {
    bufs.map_values(|s: &[u8]| s@).flatten()
}

/// A byte sink capable of vectored writes. `out` is the sequence of
/// bytes the sink has accepted so far: an implementation whose writes
/// are to be reasoned about overrides it; one that only carries bytes
/// away may leave the default. A single write either accepts a
/// positive number of leading bytes — a partial write is expected —
/// or fails and leaves the sink unchanged.
pub trait Sink: Sized {
    open spec fn out(&self) -> Seq<u8> {
        Seq::empty()
    }

    fn write_vectored(&mut self, bufs: &Vec<&[u8]>) -> (r: Result<usize, IoFault>)
        ensures
            match r {
                Ok(n) => {
                    &&& n <= flat_of(bufs@).len()
                    &&& flat_of(bufs@).len() > 0 ==> n >= 1
                    &&& final(self).out() == old(self).out() + flat_of(bufs@).take(n as int)
                },
                Err(_) => final(self).out() == old(self).out(),
            },
    ;
}

/// An in-memory sink: a growable byte vector, optionally bounded. A
/// bounded sink accepts bytes up to its limit and then fails, which
/// exercises partial writes and write failures.
pub struct VecSink {
    data: Vec<u8>,
    limit: usize,
}

impl VecSink {
    /// An unbounded in-memory sink.
    pub fn new() -> (r: VecSink)
        ensures
            r.out() == Seq::<u8>::empty(),
    {
        VecSink { data: Vec::new(), limit: usize::MAX }
    }

    /// A sink that accepts at most `limit` bytes in total and then
    /// fails.
    pub fn with_limit(limit: usize) -> (r: VecSink)
        ensures
            r.out() == Seq::<u8>::empty(),
    {
        VecSink { data: Vec::new(), limit }
    }

    /// The bytes accepted so far.
    pub fn data(&self) -> (r: &Vec<u8>)
        ensures
            r@ == self.out(),
    {
        &self.data
    }
}

impl Sink for VecSink {
    closed spec fn out(&self) -> Seq<u8> {
        self.data@
    }

    fn write_vectored(&mut self, bufs: &Vec<&[u8]>) -> (r: Result<usize, IoFault>) {
        let mut flat: Vec<u8> = Vec::new();
        let mut i: usize = 0;
        proof {
            assert(bufs@.take(0).map_values(|s: &[u8]| s@) =~= Seq::<Seq<u8>>::empty());
        }
        while i < bufs.len()
            invariant
                i <= bufs@.len(),
                flat@ == flat_of(bufs@.take(i as int)),
            decreases bufs@.len() - i,
        {
            let mut part = vstd::slice::slice_to_vec(bufs[i]);
            proof {
                let views = bufs@.take(i as int).map_values(|s: &[u8]| s@);
                assert(bufs@.take(i as int + 1).map_values(|s: &[u8]| s@) =~= views.push(
                    bufs@[i as int]@,
                ));
                Seq::lemma_flatten_push(views, bufs@[i as int]@);
            }
            flat.append(&mut part);
            i = i + 1;
        }
        proof {
            assert(bufs@.take(bufs@.len() as int) =~= bufs@);
        }
        let avail = if self.data.len() >= self.limit {
            0
        } else {
            self.limit - self.data.len()
        };
        let n = if flat.len() < avail {
            flat.len()
        } else {
            avail
        };
        if n == 0 && flat.len() > 0 {
            return Err(IoFault { code: 0 });
        }
        let ghost before = self.data@;
        proof {
            assert(before + flat@.take(0) =~= before);
        }
        let mut j: usize = 0;
        while j < n
            invariant
                j <= n,
                n <= flat@.len(),
                self.data@ == before + flat@.take(j as int),
            decreases n - j,
        {
            let b = flat[j];
            self.data.push(b);
            proof {
                assert(before + flat@.take(j as int + 1) =~= (before + flat@.take(j as int)).push(
                    b,
                ));
            }
            j = j + 1;
        }
        proof {
            assert(self.data@ =~= before + flat@.take(n as int));
        }
        Ok(n)
    }
}

} // verus!
