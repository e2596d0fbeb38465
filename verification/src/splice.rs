//! Zero-copy transfers between the ring buffer and external byte streams.
//!
//! [`SpliceRead`] lets the write handle pull bytes straight from a byte
//! source into the ring region, and [`SpliceWrite`] lets the read handle
//! push buffered bytes straight into a byte sink — no staging buffer in
//! between. The source and sink are the two small traits a caller
//! implements for whatever stream it has; [`VecSource`] and [`VecSink`]
//! are the in-memory pair that ships with the library.
use vstd::prelude::*;

use crate::ring::Inner;
use crate::{Error, Sender, Receiver};

verus! {

/// A stream of bytes that can be pulled, in order, into a caller-chosen
/// slot of a byte region.
///
/// `remaining` is the abstract stream: the bytes still to come. A pull may
/// come up short of what was asked, but it always makes progress while
/// bytes remain, delivers them in order, and reports zero exactly when the
/// stream is exhausted or no room was offered.
pub trait ByteSource {
    /// The bytes this source will still yield, in order.
    spec fn remaining(&self) -> Seq<u8>;

    /// Pull at most `len` bytes into `dest[start..start + len]`; the rest
    /// of `dest` is untouched. On failure the source and `dest` are as
    /// they were.
    fn read_into(&mut self, dest: &mut Vec<u8>, start: usize, len: usize) -> (r: Result<
        usize,
        Error,
    >)
        requires
            start + len <= old(dest)@.len(),
        ensures
            final(dest)@.len() == old(dest)@.len(),
            match r {
                Ok(n) => {
                    &&& n <= len
                    &&& n as nat <= old(self).remaining().len()
                    &&& (n == 0 <==> (len == 0 || old(self).remaining().len() == 0))
                    &&& final(self).remaining() == old(self).remaining().skip(n as int)
                    &&& (forall|i: int|
                        0 <= i < n ==> final(dest)@[start + i] == old(self).remaining()[i])
                    &&& (forall|i: int| #![trigger final(dest)@[i]]
                        0 <= i < old(dest)@.len() && !(start <= i < start + n) ==> final(dest)@[i]
                            == old(dest)@[i])
                },
                Err(_) => {
                    &&& final(self).remaining() == old(self).remaining()
                    &&& final(dest)@ == old(dest)@
                },
            },
    ;
}

/// A stream of bytes that can be pushed to, in order, out of a
/// caller-chosen slot of a byte region.
///
/// `received` is the abstract stream: everything accepted so far. A push
/// may accept fewer bytes than offered, but it always accepts at least one
/// while any are offered, and appends them in order.
pub trait ByteSink {
    /// The bytes this sink has accepted so far, in order.
    spec fn received(&self) -> Seq<u8>;

    /// Push at most `len` bytes out of `src[start..start + len]`. On
    /// failure the sink is as it was.
    fn write_from(&mut self, src: &Vec<u8>, start: usize, len: usize) -> (r: Result<usize, Error>)
        requires
            start + len <= src@.len(),
        ensures
            match r {
                Ok(n) => {
                    &&& n <= len
                    &&& (n == 0 <==> len == 0)
                    &&& final(self).received() == old(self).received() + src@.subrange(
                        start as int,
                        start + n,
                    )
                },
                Err(_) => final(self).received() == old(self).received(),
            },
    ;
}

/// Pulling bytes directly from a [`ByteSource`] into the ring buffer.
pub trait SpliceRead {
    /// Pull at most `bytes` bytes from `r` straight into the buffer's
    /// free region and publish them.
    ///
    /// At most `min(bytes, free space)` bytes move; the source may come up
    /// short, but delivers at least one byte unless it is exhausted. With
    /// no room at all (or `bytes == 0`) the call fails the way a write
    /// does: [`Error::BrokenPipe`] once the read end is closed, else
    /// [`Error::WouldBlock`]. A source failure propagates unchanged; the
    /// buffer then keeps exactly the bytes it had.
    fn splice_from<T: ByteSource>(&mut self, inner: &mut Inner, r: &mut T, bytes: usize) -> (res:
        Result<usize, Error>)
        requires
            old(inner).wf(),
        ensures
            final(inner).wf(),
            final(inner).capacity() == old(inner).capacity(),
            final(inner).read_closed() == old(inner).read_closed(),
            final(inner).write_closed() == old(inner).write_closed(),
            match res {
                Ok(n) => {
                    &&& old(inner).contents().len() + n <= old(inner).capacity()
                    &&& n <= bytes
                    &&& n as nat <= old(r).remaining().len()
                    &&& (n == 0 <==> old(r).remaining().len() == 0)
                    &&& bytes > 0
                    &&& old(inner).contents().len() < old(inner).capacity()
                    &&& final(inner).contents() == old(inner).contents() + old(
                        r,
                    ).remaining().take(n as int)
                    &&& final(r).remaining() == old(r).remaining().skip(n as int)
                },
                Err(e) => {
                    &&& final(inner).contents() == old(inner).contents()
                    &&& exists|k: int|
                        0 <= k <= old(r).remaining().len() && final(r).remaining() == old(
                            r,
                        ).remaining().skip(k)
                    &&& ((bytes == 0 || old(inner).contents().len() == old(inner).capacity())
                        ==> (final(r).remaining() == old(r).remaining() && e == if old(
                        inner,
                    ).read_closed() {
                        Error::BrokenPipe
                    } else {
                        Error::WouldBlock
                    }))
                },
            },
    ;

    /// Pull from `r` until it is exhausted.
    ///
    /// On success the buffer gained exactly the source's bytes, in order.
    /// Driven with exclusive access, this completes only while the source
    /// fits into the free space; a concurrent reader draining the buffer
    /// lifts that bound. On failure some prefix of the source has been
    /// published and the error is the one the failing step reported.
    #[verifier::loop_isolation(false)]
    fn splice_all_from<T: ByteSource>(&mut self, inner: &mut Inner, r: &mut T) -> (res: Result<
        (),
        Error,
    >)
        requires
            old(inner).wf(),
        ensures
            final(inner).wf(),
            final(inner).capacity() == old(inner).capacity(),
            final(inner).read_closed() == old(inner).read_closed(),
            final(inner).write_closed() == old(inner).write_closed(),
            match res {
                Ok(()) => {
                    &&& final(r).remaining().len() == 0
                    &&& final(inner).contents() == old(inner).contents() + old(r).remaining()
                },
                Err(e) => exists|k1: int, k2: int|
                    0 <= k1 <= k2 <= old(r).remaining().len() && final(inner).contents() == old(
                        inner,
                    ).contents() + old(r).remaining().take(k1) && final(r).remaining() == old(
                        r,
                    ).remaining().skip(k2),
            },
    {
        let ghost mut copied: int = 0;
        proof {
            assert(inner.contents() =~= old(inner).contents() + old(r).remaining().take(0));
            assert(r.remaining() =~= old(r).remaining().skip(0));
        }
        loop
            invariant
                inner.wf(),
                inner.capacity() == old(inner).capacity(),
                inner.read_closed() == old(inner).read_closed(),
                inner.write_closed() == old(inner).write_closed(),
                0 <= copied <= old(r).remaining().len(),
                inner.contents() == old(inner).contents() + old(r).remaining().take(copied),
                r.remaining() == old(r).remaining().skip(copied),
            decreases r.remaining().len(),
        {
            let ghost pre_rem = r.remaining();
            let res = self.splice_from(inner, r, usize::MAX);
            match res {
                Ok(n) => {
                    if n == 0 {
                        proof {
                            assert(old(r).remaining().take(copied) =~= old(r).remaining());
                        }
                        return Ok(());
                    }
                    proof {
                        assert(inner.contents() =~= old(inner).contents() + old(
                            r,
                        ).remaining().take(copied + n));
                        assert(r.remaining() =~= old(r).remaining().skip(copied + n));
                        copied = copied + n;
                    }
                },
                Err(e) => {
                    proof {
                        let k = choose|k: int|
                            0 <= k <= pre_rem.len() && r.remaining() == pre_rem.skip(k);
                        assert(r.remaining() =~= old(r).remaining().skip(copied + k));
                    }
                    return Err(e);
                },
            }
        }
    }
}

/// Pushing buffered bytes directly into a [`ByteSink`].
pub trait SpliceWrite {
    /// Push at most `bytes` of the oldest buffered bytes straight into
    /// `w` and consume them.
    ///
    /// At most `min(bytes, buffered)` bytes move; the sink may take fewer,
    /// but takes at least one when any are offered. With nothing to offer
    /// (or `bytes == 0`) the call reports what a read does: `Ok(0)` for
    /// end-of-stream once the write end is closed, else
    /// [`Error::WouldBlock`]. A sink failure propagates unchanged; the
    /// buffer then keeps exactly the bytes it had, though the sink may
    /// already have accepted a prefix of them.
    fn splice_to<T: ByteSink>(&mut self, inner: &mut Inner, w: &mut T, bytes: usize) -> (res:
        Result<usize, Error>)
        requires
            old(inner).wf(),
        ensures
            final(inner).wf(),
            final(inner).capacity() == old(inner).capacity(),
            final(inner).read_closed() == old(inner).read_closed(),
            final(inner).write_closed() == old(inner).write_closed(),
            match res {
                Ok(n) => {
                    &&& n as nat <= old(inner).contents().len()
                    &&& n <= bytes
                    &&& (n == 0 ==> old(inner).write_closed() && (bytes == 0 || old(
                        inner,
                    ).contents().len() == 0))
                    &&& final(w).received() == old(w).received() + old(inner).contents().take(
                        n as int,
                    )
                    &&& final(inner).contents() == old(inner).contents().skip(n as int)
                },
                Err(e) => {
                    &&& final(inner).contents() == old(inner).contents()
                    &&& exists|k: int|
                        0 <= k <= old(inner).contents().len() && final(w).received() == old(
                            w,
                        ).received() + old(inner).contents().take(k)
                    &&& ((bytes == 0 || old(inner).contents().len() == 0) ==> (e
                        == Error::WouldBlock && !old(inner).write_closed() && final(w).received()
                        == old(w).received()))
                },
            },
    ;

    /// Push into `w` until the buffer is drained and the write end is
    /// closed.
    ///
    /// On success the sink accepted exactly the buffered bytes, in order.
    /// Until the write end closes, the drained buffer reports
    /// [`Error::WouldBlock`] instead (with exclusive access nothing could
    /// refill it); a sink failure propagates as it came.
    #[verifier::loop_isolation(false)]
    fn splice_all_to<T: ByteSink>(&mut self, inner: &mut Inner, w: &mut T) -> (res: Result<
        (),
        Error,
    >)
        requires
            old(inner).wf(),
        ensures
            final(inner).wf(),
            final(inner).capacity() == old(inner).capacity(),
            final(inner).read_closed() == old(inner).read_closed(),
            final(inner).write_closed() == old(inner).write_closed(),
            match res {
                Ok(()) => {
                    &&& final(inner).contents().len() == 0
                    &&& old(inner).write_closed()
                    &&& final(w).received() == old(w).received() + old(inner).contents()
                },
                Err(e) => exists|k1: int, k2: int|
                    0 <= k1 <= k2 <= old(inner).contents().len() && final(w).received() == old(
                        w,
                    ).received() + old(inner).contents().take(k2) && final(inner).contents()
                        == old(inner).contents().skip(k1),
            },
    {
        let ghost mut copied: int = 0;
        proof {
            assert(inner.contents() =~= old(inner).contents().skip(0));
            assert(w.received() =~= old(w).received() + old(inner).contents().take(0));
        }
        loop
            invariant
                inner.wf(),
                inner.capacity() == old(inner).capacity(),
                inner.read_closed() == old(inner).read_closed(),
                inner.write_closed() == old(inner).write_closed(),
                0 <= copied <= old(inner).contents().len(),
                inner.contents() == old(inner).contents().skip(copied),
                w.received() == old(w).received() + old(inner).contents().take(copied),
            decreases inner.contents().len(),
        {
            let ghost pre_contents = inner.contents();
            let ghost pre_rec = w.received();
            let res = self.splice_to(inner, w, usize::MAX);
            match res {
                Ok(n) => {
                    if n == 0 {
                        proof {
                            assert(old(inner).contents().take(copied) =~= old(inner).contents());
                        }
                        return Ok(());
                    }
                    proof {
                        assert(inner.contents() =~= old(inner).contents().skip(copied + n));
                        assert(w.received() =~= old(w).received() + old(inner).contents().take(
                            copied + n,
                        ));
                        copied = copied + n;
                    }
                },
                Err(e) => {
                    proof {
                        let k = choose|k: int|
                            0 <= k <= pre_contents.len() && w.received() == pre_rec
                                + pre_contents.take(k);
                        assert(w.received() =~= old(w).received() + old(inner).contents().take(
                            copied + k,
                        ));
                    }
                    return Err(e);
                },
            }
        }
    }
}

impl SpliceRead for Sender {
    fn splice_from<T: ByteSource>(&mut self, inner: &mut Inner, r: &mut T, bytes: usize) -> (res:
        Result<usize, Error>) {
        inner.splice_in(r, bytes)
    }
}

impl SpliceWrite for Receiver {
    fn splice_to<T: ByteSink>(&mut self, inner: &mut Inner, w: &mut T, bytes: usize) -> (res:
        Result<usize, Error>) {
        inner.splice_out(w, bytes)
    }
}

/// An in-memory byte source: a vector handed out from the front.
pub struct VecSource {
    data: Vec<u8>,
    pos: usize,
}

impl VecSource {
    /// A source that will yield exactly `data`.
    pub fn new(data: Vec<u8>) -> (s: VecSource)
        ensures
            s.remaining() == data@,
    {
        let s = VecSource { data, pos: 0 };
        proof {
            assert(s.remaining() =~= s.data@);
        }
        s
    }
}

impl ByteSource for VecSource {
    closed spec fn remaining(&self) -> Seq<u8> {
        if self.pos <= self.data@.len() {
            self.data@.skip(self.pos as int)
        } else {
            Seq::empty()
        }
    }

    fn read_into(&mut self, dest: &mut Vec<u8>, start: usize, len: usize) -> (r: Result<
        usize,
        Error,
    >) {
        let have = if self.pos <= self.data.len() {
            self.data.len() - self.pos
        } else {
            0
        };
        let n = if len <= have {
            len
        } else {
            have
        };
        let ghost dest0 = dest@;
        let dest_len = dest.len();
        let mut i: usize = 0;
        while i < n
            invariant
                i <= n,
                n <= len,
                self == old(self),
                n > 0 ==> self.pos + n <= self.data@.len(),
                self.data@.len() <= usize::MAX,
                start + len <= dest0.len(),
                dest0.len() == dest_len,
                dest@.len() == dest0.len(),
                forall|k: int|
                    0 <= k < i ==> dest@[start + k] == #[trigger] self.data@[self.pos + k],
                forall|k: int| #![trigger dest@[k]]
                    0 <= k < dest0.len() && !(start <= k < start + i) ==> dest@[k] == dest0[k],
            decreases n - i,
        {
            let b = self.data[self.pos + i];
            dest[start + i] = b;
            i = i + 1;
        }
        let ghost rem0 = self.remaining();
        self.pos = self.pos + n;
        proof {
            assert(self.remaining() =~= rem0.skip(n as int));
            assert forall|k: int| 0 <= k < n implies dest@[start + k] == rem0[k] by {
                assert(dest@[start + k] == self.data@[old(self).pos + k]);
            }
        }
        Ok(n)
    }
}

/// An in-memory byte sink: a vector everything is appended to.
pub struct VecSink {
    data: Vec<u8>,
}

impl VecSink {
    /// A sink that has accepted nothing yet.
    pub fn new() -> (s: VecSink)
        ensures
            s.received() == Seq::<u8>::empty(),
    {
        VecSink { data: Vec::new() }
    }

    /// Hand the accepted bytes out.
    pub fn into_vec(self) -> (v: Vec<u8>)
        ensures
            v@ == self.received(),
    {
        self.data
    }
}

impl ByteSink for VecSink {
    closed spec fn received(&self) -> Seq<u8> {
        self.data@
    }

    fn write_from(&mut self, src: &Vec<u8>, start: usize, len: usize) -> (r: Result<usize, Error>)
    {
        let src_len = src.len();
        let mut i: usize = 0;
        while i < len
            invariant
                i <= len,
                start + len <= src@.len(),
                src@.len() == src_len,
                self.data@ == old(self).data@ + src@.subrange(start as int, start + i),
            decreases len - i,
        {
            let b = src[start + i];
            self.data.push(b);
            proof {
                assert(self.data@ =~= old(self).data@ + src@.subrange(start as int, start + i
                    + 1));
            }
            i = i + 1;
        }
        Ok(len)
    }
}

} // verus!
