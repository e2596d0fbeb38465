//! A first-in-first-out byte ring buffer with verified transfer semantics.
//!
//! A fixed region of bytes, whose capacity is a power of two, is addressed
//! through two monotonically increasing cursors that wrap around the integer
//! range: the write cursor marks where the next byte goes in, the read
//! cursor where the next byte comes out. The difference of the cursors is
//! the number of buffered bytes, and a cursor's offset into the region is
//! the cursor modulo the capacity.
//!
//! [`fifo`] builds the shared state together with a [`Sender`] and a
//! [`Receiver`] handle, one per direction. Every transfer states exactly how
//! many bytes move and that they move in order; the half-close flags decide
//! what a transfer that finds no room, or no data, reports.
pub mod ring;
pub mod shutdown;
pub mod splice;

use vstd::prelude::*;

use vstd::arithmetic::power2::{
    lemma2_to64, lemma_pow2_adds, lemma_pow2_strictly_increases, pow2,
};

pub use crate::ring::Inner;
use crate::shutdown::{SHUT_READ, SHUT_WRITE};

verus! {

/// What a transfer does when it cannot make progress right away.
///
/// A non-blocking handle reports [`Error::WouldBlock`]; a sleeping handle
/// asks its driver to wait the given number of milliseconds between polls.
/// Handles start out as `Sleep(10)`.
#[derive(Clone, Copy, PartialEq, Eq, Structural, Debug)]
pub enum WouldBlock {
    Nonblock,
    Sleep(u64),
}

/// Why a transfer did not move any bytes.
#[derive(Clone, Copy, PartialEq, Eq, Structural, Debug)]
pub enum Error {
    /// The write side found the read end closed: no space will ever free up.
    BrokenPipe,
    /// No progress was possible now; retry once the peer has moved.
    WouldBlock,
    /// An external byte source or sink failed.
    Other,
}

/// How many bytes a write moves: the request capped by the free space.
pub open spec fn write_count(contents: Seq<u8>, cap: nat, bytes: Seq<u8>) -> nat
    recommends
        contents.len() <= cap,
{
    if bytes.len() <= cap - contents.len() {
        bytes.len()
    } else {
        (cap - contents.len()) as nat
    }
}

/// The buffered bytes after a write: what was there, then the moved prefix.
pub open spec fn write_result(contents: Seq<u8>, cap: nat, bytes: Seq<u8>) -> Seq<u8>
    recommends
        contents.len() <= cap,
{
    contents + bytes.take(write_count(contents, cap, bytes) as int)
}

/// How many bytes a read moves: the room offered capped by what is buffered.
pub open spec fn read_count(contents: Seq<u8>, want: nat) -> nat {
    if want <= contents.len() {
        want
    } else {
        contents.len()
    }
}

/// The bytes a read hands out: the oldest buffered ones, in order.
pub open spec fn read_data(contents: Seq<u8>, want: nat) -> Seq<u8> {
    contents.take(read_count(contents, want) as int)
}

/// The buffered bytes a read leaves behind.
pub open spec fn read_rest(contents: Seq<u8>, want: nat) -> Seq<u8> {
    contents.skip(read_count(contents, want) as int)
}

/// Doubling `c` until it reaches `size`.
pub open spec fn grow_capacity(c: nat, size: nat) -> nat
    decreases (if c < size {
        size - c
    } else {
        0
    }),
    when 0 < c
{
    if c < size {
        grow_capacity(2 * c, size)
    } else {
        c
    }
}

/// The capacity [`fifo`] gives a request for `size` bytes: the smallest
/// power of two that is at least 128 and at least `size`.
pub open spec fn effective_capacity(size: nat) -> nat {
    grow_capacity(128, size)
}

/// The write half of the pair: moves bytes into the shared ring buffer.
///
/// Movable to another thread, but meant to be driven by exactly one caller;
/// the read side holds the matching [`Receiver`].
pub struct Sender {
    would_block: WouldBlock,
}

/// The read half of the pair: moves bytes out of the shared ring buffer.
pub struct Receiver {
    would_block: WouldBlock,
}

impl Sender {
    /// The handle's blocking policy.
    pub closed spec fn policy(&self) -> WouldBlock {
        self.would_block
    }

    /// Choose what a write that finds no room reports to its driver.
    pub fn set_would_block(&mut self, would_block: WouldBlock)
        ensures
            final(self).policy() == would_block,
    {
        self.would_block = would_block;
    }

    /// What a driver does with [`Error::WouldBlock`] under this handle's
    /// policy: sleep that many milliseconds and retry, or, with `None`,
    /// hand the error to the caller.
    pub fn retry_after(&self) -> (r: Option<u64>)
        ensures
            r == match self.policy() {
                WouldBlock::Sleep(ms) => Some(ms),
                WouldBlock::Nonblock => None::<u64>,
            },
    {
        match self.would_block {
            WouldBlock::Sleep(ms) => Some(ms),
            WouldBlock::Nonblock => None,
        }
    }

    /// Move as much of `bytes` into the buffer as fits, in order, and
    /// report how much that was.
    ///
    /// Moves `min(bytes.len(), free space)` bytes. When that is zero —
    /// the buffer is full, or `bytes` is empty — no call can help until
    /// the peer moves: with the read end closed the pipe is dead
    /// ([`Error::BrokenPipe`]); otherwise the caller is told to retry
    /// ([`Error::WouldBlock`]). A single caller holds `inner` exclusively,
    /// so nothing could free space while this call waited: the would-block
    /// case is surfaced under either policy, and a concurrent driver owns
    /// the retry (sleeping for the configured interval between polls).
    pub fn write(&mut self, inner: &mut Inner, bytes: &[u8]) -> (r: Result<usize, Error>)
        requires
            old(inner).wf(),
        ensures
            *final(self) == *old(self),
            final(inner).wf(),
            final(inner).capacity() == old(inner).capacity(),
            final(inner).read_closed() == old(inner).read_closed(),
            final(inner).write_closed() == old(inner).write_closed(),
            match r {
                Ok(n) => {
                    &&& n as nat == write_count(
                        old(inner).contents(),
                        old(inner).capacity(),
                        bytes@,
                    )
                    &&& n > 0
                    &&& final(inner).contents() == write_result(
                        old(inner).contents(),
                        old(inner).capacity(),
                        bytes@,
                    )
                },
                Err(e) => {
                    &&& write_count(old(inner).contents(), old(inner).capacity(), bytes@) == 0
                    &&& final(inner).contents() == old(inner).contents()
                    &&& e == if old(inner).read_closed() {
                        Error::BrokenPipe
                    } else {
                        Error::WouldBlock
                    }
                },
            },
    {
        inner.transfer_in(bytes)
    }

    /// Nothing is held back, so there is nothing to flush.
    pub fn flush(&mut self, inner: &mut Inner) -> (r: Result<(), Error>)
        ensures
            *final(self) == *old(self),
            *final(inner) == *old(inner),
            r == Ok::<(), Error>(()),
    {
        Ok(())
    }

    /// Give the write end up. The read side can still drain what is
    /// buffered, and then sees end-of-stream. Stands for dropping the
    /// handle.
    pub fn close(self, inner: &mut Inner)
        ensures
            final(inner).wf() == old(inner).wf(),
            final(inner).capacity() == old(inner).capacity(),
            final(inner).contents() == old(inner).contents(),
            final(inner).read_closed() == old(inner).read_closed(),
            final(inner).write_closed(),
    {
        inner.mark_closed(SHUT_WRITE);
    }
}

impl Receiver {
    /// The handle's blocking policy.
    pub closed spec fn policy(&self) -> WouldBlock {
        self.would_block
    }

    /// Choose what a read that finds no data reports to its driver.
    pub fn set_would_block(&mut self, would_block: WouldBlock)
        ensures
            final(self).policy() == would_block,
    {
        self.would_block = would_block;
    }

    /// What a driver does with [`Error::WouldBlock`] under this handle's
    /// policy: sleep that many milliseconds and retry, or, with `None`,
    /// hand the error to the caller.
    pub fn retry_after(&self) -> (r: Option<u64>)
        ensures
            r == match self.policy() {
                WouldBlock::Sleep(ms) => Some(ms),
                WouldBlock::Nonblock => None::<u64>,
            },
    {
        match self.would_block {
            WouldBlock::Sleep(ms) => Some(ms),
            WouldBlock::Nonblock => None,
        }
    }

    /// Fill the front of `buf` with the oldest buffered bytes, in order,
    /// and report how many came; the rest of `buf` is untouched.
    ///
    /// Moves `min(buf.len(), buffered bytes)` bytes. When that is zero —
    /// the buffer is drained, or `buf` has no room — a closed write end
    /// means end-of-stream, reported as `Ok(0)`; otherwise the caller is
    /// told to retry ([`Error::WouldBlock`]). A single caller holds
    /// `inner` exclusively, so nothing could buffer bytes while this call
    /// waited: the would-block case is surfaced under either policy, and a
    /// concurrent driver owns the retry.
    pub fn read(&mut self, inner: &mut Inner, buf: &mut Vec<u8>) -> (r: Result<usize, Error>)
        requires
            old(inner).wf(),
        ensures
            *final(self) == *old(self),
            final(inner).wf(),
            final(inner).capacity() == old(inner).capacity(),
            final(inner).read_closed() == old(inner).read_closed(),
            final(inner).write_closed() == old(inner).write_closed(),
            final(buf)@.len() == old(buf)@.len(),
            match r {
                Ok(n) => {
                    &&& n as nat == read_count(old(inner).contents(), old(buf)@.len())
                    &&& (n == 0 ==> old(inner).write_closed())
                    &&& final(buf)@ == read_data(old(inner).contents(), old(buf)@.len()) + old(
                        buf,
                    )@.skip(n as int)
                    &&& final(inner).contents() == read_rest(
                        old(inner).contents(),
                        old(buf)@.len(),
                    )
                },
                Err(e) => {
                    &&& e == Error::WouldBlock
                    &&& read_count(old(inner).contents(), old(buf)@.len()) == 0
                    &&& !old(inner).write_closed()
                    &&& final(buf)@ == old(buf)@
                    &&& final(inner).contents() == old(inner).contents()
                },
            },
    {
        inner.transfer_out(buf)
    }

    /// Give the read end up. The write side then learns, on its next call
    /// that finds no room, that the pipe is dead. Stands for dropping the
    /// handle.
    pub fn close(self, inner: &mut Inner)
        ensures
            final(inner).wf() == old(inner).wf(),
            final(inner).capacity() == old(inner).capacity(),
            final(inner).contents() == old(inner).contents(),
            final(inner).write_closed() == old(inner).write_closed(),
            final(inner).read_closed(),
    {
        inner.mark_closed(SHUT_READ);
    }
}

/// Build a ring buffer of capacity `effective_capacity(size)` — the
/// smallest power of two at least 128 and at least `size` — together with
/// the write and read handle, both starting in sleeping mode.
///
/// The shared state comes back alongside the handles; every transfer call
/// takes it explicitly, which keeps one side at a time working on it.
pub fn fifo(size: usize) -> (r: (Sender, Receiver, Inner))
    requires
        size <= usize::MAX / 2 + 1,
    ensures
        r.2.wf(),
        r.2.capacity() == effective_capacity(size as nat),
        r.2.contents() == Seq::<u8>::empty(),
        !r.2.read_closed(),
        !r.2.write_closed(),
        r.0.policy() == WouldBlock::Sleep(10),
        r.1.policy() == WouldBlock::Sleep(10),
{
    let mut cap: usize = 128;
    let ghost mut exp: nat = 7;
    proof {
        lemma2_to64();
    }
    while cap < size
        invariant
            128 <= cap,
            cap as nat == pow2(exp),
            grow_capacity(cap as nat, size as nat) == effective_capacity(size as nat),
            size <= usize::MAX / 2 + 1,
        decreases (if cap < size {
            size - cap
        } else {
            0
        }),
    {
        proof {
            lemma2_to64();
            lemma_pow2_adds(1, exp);
            exp = exp + 1;
        }
        cap = cap * 2;
    }
    let inner = Inner::new(cap, Ghost(exp));
    let sender = Sender { would_block: WouldBlock::Sleep(10) };
    let receiver = Receiver { would_block: WouldBlock::Sleep(10) };
    (sender, receiver, inner)
}

/// The capacity law: what [`fifo`] allocates is a power of two, at least
/// 128, at least the request, and no larger than any power of two that
/// also satisfies both bounds.
pub proof fn lemma_capacity_smallest_power_of_two(size: nat)
    ensures
        exists|e: nat| effective_capacity(size) == pow2(e),
        128 <= effective_capacity(size),
        size <= effective_capacity(size),
        forall|g: nat| 128 <= #[trigger] pow2(g) && size <= pow2(g) ==> effective_capacity(size)
            <= pow2(g),
{
    lemma2_to64();
    lemma_grow_capacity_props(128, size, 7);
    assert forall|g: nat| 128 <= #[trigger] pow2(g) && size <= pow2(g) implies effective_capacity(
        size,
    ) <= pow2(g) by {
        if g < 7 {
            lemma_pow2_strictly_increases(g, 7);
        }
    }
}

/// Doubling from a power of two lands on the smallest power of two at
/// least `size` (and at least the start).
proof fn lemma_grow_capacity_props(c: nat, size: nat, e: nat)
    requires
        c == pow2(e),
        0 < c,
    ensures
        c <= grow_capacity(c, size),
        size <= grow_capacity(c, size),
        exists|f: nat| grow_capacity(c, size) == pow2(f),
        forall|g: nat| e <= g && size <= #[trigger] pow2(g) ==> grow_capacity(c, size) <= pow2(g),
    decreases (if c < size {
        size - c
    } else {
        0
    }),
{
    if c < size {
        lemma2_to64();
        lemma_pow2_adds(1, e);
        lemma_grow_capacity_props(2 * c, size, e + 1);
        assert forall|g: nat| e <= g && size <= #[trigger] pow2(g) implies grow_capacity(c, size)
            <= pow2(g) by {
            if g == e {
                assert(pow2(g) == c);
            } else {
                assert(e + 1 <= g);
            }
        }
    } else {
        assert forall|g: nat| e <= g && size <= #[trigger] pow2(g) implies grow_capacity(c, size)
            <= pow2(g) by {
            if e < g {
                lemma_pow2_strictly_increases(e, g);
            }
        }
    }
}

/// The round-trip law: writing `s` into an empty buffer that can hold it
/// stores all of `s`, and reading `len(s)` bytes back returns exactly `s`
/// and leaves the buffer empty.
pub proof fn lemma_round_trip(s: Seq<u8>, cap: nat)
    requires
        s.len() <= cap,
    ensures
        write_count(Seq::<u8>::empty(), cap, s) == s.len(),
        write_result(Seq::<u8>::empty(), cap, s) == s,
        read_count(s, s.len()) == s.len(),
        read_data(s, s.len()) == s,
        read_rest(s, s.len()) == Seq::<u8>::empty(),
{
    assert(write_result(Seq::<u8>::empty(), cap, s) =~= s);
    assert(read_data(s, s.len()) =~= s);
    assert(read_rest(s, s.len()) =~= Seq::<u8>::empty());
}

/// The order law: writing `a` then `b` into an empty buffer with room for
/// both, then reading `len(a) + len(b)` bytes, yields `a ++ b`.
pub proof fn lemma_fifo_order(a: Seq<u8>, b: Seq<u8>, cap: nat)
    requires
        a.len() + b.len() <= cap,
    ensures
        write_count(Seq::<u8>::empty(), cap, a) == a.len(),
        write_count(write_result(Seq::<u8>::empty(), cap, a), cap, b) == b.len(),
        read_data(write_result(write_result(Seq::<u8>::empty(), cap, a), cap, b), a.len()
            + b.len()) == a + b,
{
    assert(write_result(Seq::<u8>::empty(), cap, a) =~= a);
    assert(write_result(a, cap, b) =~= a + b);
    assert(read_data(a + b, a.len() + b.len()) =~= a + b);
}

/// The capacity-enforcement law: a write moves at most the free space,
/// and a request larger than the free space moves exactly the free space.
pub proof fn lemma_write_capped(contents: Seq<u8>, cap: nat, bytes: Seq<u8>)
    requires
        contents.len() <= cap,
    ensures
        write_count(contents, cap, bytes) <= cap - contents.len(),
        bytes.len() > cap - contents.len() ==> write_count(contents, cap, bytes) == cap
            - contents.len(),
{
}

} // verus!
