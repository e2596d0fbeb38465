//! The ring buffer core: a fixed byte region addressed through two wrapping
//! cursors, and the verified byte movement in and out of it.
//!
//! Both cursors increase monotonically over the whole `usize` range and wrap
//! around its end; they are never reset. The number of buffered bytes is the
//! wrapping difference of the cursors, and a cursor's physical offset into
//! the region is the cursor modulo the capacity. Because the capacity is a
//! power of two, it divides the cursor range, so the offset survives a
//! cursor wrapping around: that divisibility is part of the well-formedness
//! invariant and carries every proof in this module.
use vstd::prelude::*;

use vstd::arithmetic::div_mod::{
    lemma_add_mod_noop, lemma_fundamental_div_mod, lemma_fundamental_div_mod_converse_mod,
    lemma_mod_division_less_than_divisor, lemma_mod_multiples_vanish, lemma_small_mod,
};
use vstd::arithmetic::power2::{lemma_pow2_adds, lemma_pow2_strictly_increases, pow2};
use vstd::layout::unsigned_int_max_values;
use vstd::wrapping::usize_specs;

use crate::shutdown::{Shutdown, SHUT_READ, SHUT_WRITE};
use crate::splice::{ByteSink, ByteSource};
use crate::{read_count, read_data, read_rest, write_count, write_result, Error};

verus! {

/// One more than the largest cursor value: the modulus of cursor arithmetic.
pub open spec fn wrap_span() -> int {
    usize::MAX as int + 1
}

/// The value a cursor takes after moving `n` bytes forward, wrapping around
/// the end of the `usize` range.
pub open spec fn cursor_add(c: usize, n: usize) -> usize {
    if c + n <= usize::MAX {
        (c + n) as usize
    } else {
        (c + n - wrap_span()) as usize
    }
}

/// How many bytes lie between the read cursor `pout` and the write cursor
/// `pin`: their difference in wrapping arithmetic.
pub open spec fn cursor_diff(pin: usize, pout: usize) -> nat {
    if pin >= pout {
        (pin - pout) as nat
    } else {
        (pin - pout + wrap_span()) as nat
    }
}

/// The physical offset of the byte `t` places after cursor `cursor`, in a
/// region of `cap` bytes.
pub open spec fn ring_pos(cursor: usize, t: int, cap: int) -> int {
    (cursor + t) % cap
}

/// The buffered bytes, in the order they went in: the byte `i` places after
/// the read cursor lies at offset `(pout + i) % len`.
pub open spec fn ring_contents(buf: Seq<u8>, pin: usize, pout: usize) -> Seq<u8> {
    Seq::new(cursor_diff(pin, pout), |i: int| buf[(pout + i) % (buf.len() as int)])
}

/// The exec `wrapping_add` lands on `cursor_add`.
pub proof fn lemma_wrapping_add(x: usize, y: usize)
    ensures
        usize_specs::wrapping_add(x, y) == cursor_add(x, y),
{
}

/// The exec `wrapping_sub` of the cursors lands on `cursor_diff`.
pub proof fn lemma_wrapping_sub(pin: usize, pout: usize)
    ensures
        usize_specs::wrapping_sub(pin, pout) as nat == cursor_diff(pin, pout),
{
}

/// Moving the write cursor forward grows the cursor difference, as long as
/// the difference stays representable.
pub proof fn lemma_diff_grow(pin: usize, pout: usize, n: usize)
    requires
        cursor_diff(pin, pout) + n <= usize::MAX,
    ensures
        cursor_diff(cursor_add(pin, n), pout) == cursor_diff(pin, pout) + n,
{
}

/// Moving the read cursor forward by at most the cursor difference shrinks
/// the difference by the same amount.
pub proof fn lemma_diff_shrink(pin: usize, pout: usize, n: usize)
    requires
        n <= cursor_diff(pin, pout),
    ensures
        cursor_diff(pin, cursor_add(pout, n)) == cursor_diff(pin, pout) - n,
{
}

/// A remainder exhibited together with its quotient is the remainder.
proof fn lemma_mod_witness(x: int, m: int, q: int, r: int)
    requires
        0 < m,
        0 <= r < m,
        x == q * m + r,
    ensures
        x % m == r,
{
    lemma_fundamental_div_mod_converse_mod(x, m, q, r);
}

/// When `m` divides the cursor range, a wrapping move keeps the physical
/// offset of the cursor: offsets only ever depend on the cursor modulo `m`.
pub proof fn lemma_add_keeps_offset(c: usize, n: usize, m: int)
    requires
        0 < m,
        wrap_span() % m == 0,
    ensures
        (cursor_add(c, n) as int) % m == (c + n) % m,
{
    if c + n > usize::MAX {
        let s = wrap_span();
        let v = c + n - s;
        lemma_fundamental_div_mod(s, m);
        lemma_fundamental_div_mod(v, m);
        lemma_mod_division_less_than_divisor(v, m);
        assert(c + n == (v / m + s / m) * m + v % m) by (nonlinear_arith)
            requires
                s == m * (s / m),
                v == m * (v / m) + v % m,
                c + n == v + s,
        ;
        lemma_mod_witness(c + n, m, v / m + s / m, v % m);
    }
}

/// The write cursor sits `cursor_diff` places after the read cursor, modulo
/// any `m` that divides the cursor range.
pub proof fn lemma_cursor_align(pin: usize, pout: usize, m: int)
    requires
        0 < m,
        wrap_span() % m == 0,
    ensures
        (pin as int) % m == (pout + cursor_diff(pin, pout)) % m,
{
    if pin < pout {
        let s = wrap_span();
        lemma_fundamental_div_mod(s, m);
        lemma_fundamental_div_mod(pin as int, m);
        lemma_mod_division_less_than_divisor(pin as int, m);
        assert(pin + s == (pin as int / m + s / m) * m + pin as int % m) by (nonlinear_arith)
            requires
                s == m * (s / m),
                pin as int == m * (pin as int / m) + pin as int % m,
        ;
        lemma_mod_witness(
            pout + cursor_diff(pin, pout),
            m,
            pin as int / m + s / m,
            pin as int % m,
        );
    }
}

/// Within the first segment, offsets advance without wrapping.
pub proof fn lemma_mod_offset(a: int, t: int, m: int)
    requires
        0 <= a,
        0 <= t,
        0 < m,
        a % m + t < m,
    ensures
        (a + t) % m == a % m + t,
{
    lemma_fundamental_div_mod(a, m);
    lemma_mod_division_less_than_divisor(a, m);
    assert(a + t == (a / m) * m + (a % m + t)) by (nonlinear_arith)
        requires
            a == m * (a / m) + a % m,
    ;
    lemma_mod_witness(a + t, m, a / m, a % m + t);
}

/// Past the end of the region, offsets wrap to the region's start.
pub proof fn lemma_mod_offset_wrap(a: int, t: int, m: int)
    requires
        0 <= a,
        0 < m,
        m <= a % m + t,
        a % m + t < 2 * m,
    ensures
        (a + t) % m == a % m + t - m,
{
    lemma_fundamental_div_mod(a, m);
    lemma_mod_division_less_than_divisor(a, m);
    assert(a + t == (a / m + 1) * m + (a % m + t - m)) by (nonlinear_arith)
        requires
            a == m * (a / m) + a % m,
    ;
    lemma_mod_witness(a + t, m, a / m + 1, a % m + t - m);
}

/// Two places less than a full turn apart land on distinct offsets.
pub proof fn lemma_mod_distinct(a: int, b: int, m: int)
    requires
        0 < m,
        0 < b - a,
        b - a < m,
    ensures
        a % m != b % m,
{
    if a % m == b % m {
        lemma_fundamental_div_mod(a, m);
        lemma_fundamental_div_mod(b, m);
        assert(b - a == m * (b / m - a / m)) by (nonlinear_arith)
            requires
                a == m * (a / m) + a % m,
                b == m * (b / m) + b % m,
                a % m == b % m,
        ;
        assert(false) by (nonlinear_arith)
            requires
                0 < b - a < m,
                b - a == m * (b / m - a / m),
        ;
    }
}

/// Congruent bases stay congruent after moving the same distance.
pub proof fn lemma_mod_add_congruent(x: int, y: int, t: int, m: int)
    requires
        0 < m,
        x % m == y % m,
    ensures
        (x + t) % m == (y + t) % m,
{
    lemma_add_mod_noop(x, t, m);
    lemma_add_mod_noop(y, t, m);
}

/// Writing the two mechanical wrap segments — to the end of the region,
/// then from its start — is writing at the offsets `0..a + b` past the
/// write cursor.
pub proof fn lemma_two_segments(
    buf0: Seq<u8>,
    buf1: Seq<u8>,
    pin: usize,
    data: Seq<u8>,
    a: usize,
    b: usize,
)
    requires
        buf1.len() == buf0.len(),
        0 < buf0.len() <= usize::MAX,
        a + b <= data.len(),
        a + b <= buf0.len(),
        pin as int % (buf0.len() as int) + a <= buf0.len(),
        b > 0 ==> pin as int % (buf0.len() as int) + a == buf0.len(),
        forall|k: int|
            0 <= k < a ==> buf1[pin as int % (buf0.len() as int) + k] == #[trigger] data[k],
        forall|k: int| 0 <= k < b ==> buf1[k] == #[trigger] data[a + k],
        forall|q: int| #![trigger buf1[q]]
            0 <= q < buf0.len() && !(pin as int % (buf0.len() as int) <= q < pin as int % (
            buf0.len() as int) + a) && !(0 <= q < b) ==> buf1[q] == buf0[q],
    ensures
        forall|t: int|
            0 <= t < a + b ==> buf1[#[trigger] ring_pos(pin, t, buf0.len() as int)] == data[t],
        forall|q: int| #![trigger buf1[q]]
            0 <= q < buf0.len() && !(exists|t: int|
                0 <= t < a + b && q == #[trigger] ring_pos(pin, t, buf0.len() as int)) ==> buf1[q]
                == buf0[q],
{
    let cap = buf0.len() as int;
    let start = pin as int % cap;
    lemma_mod_division_less_than_divisor(pin as int, cap);
    assert forall|t: int| 0 <= t < a + b implies buf1[#[trigger] ring_pos(pin, t, cap)]
        == data[t] by {
        if t < a {
            lemma_mod_offset(pin as int, t, cap);
            assert(ring_pos(pin, t, cap) == start + t);
        } else {
            lemma_mod_offset_wrap(pin as int, t, cap);
            assert(ring_pos(pin, t, cap) == t - a);
            assert(buf1[t - a] == data[a + (t - a)]);
        }
    };
    assert forall|q: int|
        0 <= q < buf0.len() && !(exists|t: int|
            0 <= t < a + b && q == #[trigger] ring_pos(pin, t, cap)) implies buf1[q]
        == buf0[q] by {
        if start <= q < start + a {
            lemma_mod_offset(pin as int, q - start, cap);
            assert(q == ring_pos(pin, q - start, cap));
            assert(false);
        } else if 0 <= q < b {
            lemma_mod_offset_wrap(pin as int, a + q, cap);
            assert(q == ring_pos(pin, a + q, cap));
            assert(false);
        }
    };
}

/// New bytes written at the offsets past the write cursor leave the
/// buffered bytes alone, and appear, in order, once the write cursor is
/// moved past them.
pub proof fn lemma_ring_publish(
    buf0: Seq<u8>,
    buf1: Seq<u8>,
    pin: usize,
    pout: usize,
    data: Seq<u8>,
    count: usize,
)
    requires
        buf1.len() == buf0.len(),
        0 < buf0.len() <= usize::MAX,
        wrap_span() % (buf0.len() as int) == 0,
        count <= data.len(),
        cursor_diff(pin, pout) + count <= buf0.len(),
        forall|t: int|
            0 <= t < count ==> buf1[#[trigger] ring_pos(pin, t, buf0.len() as int)] == data[t],
        forall|q: int| #![trigger buf1[q]]
            0 <= q < buf0.len() && !(exists|t: int|
                0 <= t < count && q == #[trigger] ring_pos(pin, t, buf0.len() as int)) ==> buf1[q]
                == buf0[q],
    ensures
        ring_contents(buf1, pin, pout) == ring_contents(buf0, pin, pout),
        ring_contents(buf1, cursor_add(pin, count), pout) == ring_contents(buf0, pin, pout)
            + data.take(count as int),
{
    let cap = buf0.len() as int;
    let u0 = cursor_diff(pin, pout) as int;
    lemma_diff_grow(pin, pout, count);
    assert forall|k: int| 0 <= k < u0 implies buf1[#[trigger] ((pout + k) % cap)] == buf0[(pout
        + k) % cap] by {
        lemma_mod_division_less_than_divisor(pout + k, cap);
        assert forall|t: int| 0 <= t < count implies (pout + k) % cap != #[trigger] ring_pos(
            pin,
            t,
            cap,
        ) by {
            lemma_cursor_align(pin, pout, cap);
            lemma_mod_add_congruent(pin as int, pout + u0, t, cap);
            lemma_mod_distinct(pout + k, pout + u0 + t, cap);
        };
    };
    assert forall|k: int| u0 <= k < u0 + count implies buf1[#[trigger] ((pout + k) % cap)]
        == data[k - u0] by {
        lemma_cursor_align(pin, pout, cap);
        lemma_mod_add_congruent(pout + u0, pin as int, k - u0, cap);
        assert(buf1[ring_pos(pin, k - u0, cap)] == data[k - u0]);
    };
    assert(ring_contents(buf1, pin, pout) =~= ring_contents(buf0, pin, pout));
    assert(ring_contents(buf1, cursor_add(pin, count), pout) =~= ring_contents(buf0, pin, pout)
        + data.take(count as int));
}

/// Moving the read cursor forward drops the oldest bytes and nothing else.
pub proof fn lemma_ring_drain(buf: Seq<u8>, pin: usize, pout: usize, count: usize)
    requires
        0 < buf.len() <= usize::MAX,
        wrap_span() % (buf.len() as int) == 0,
        count <= cursor_diff(pin, pout),
    ensures
        ring_contents(buf, pin, cursor_add(pout, count)) == ring_contents(buf, pin, pout).skip(
            count as int,
        ),
{
    let cap = buf.len() as int;
    lemma_diff_shrink(pin, pout, count);
    assert forall|k: int| 0 <= k < cursor_diff(pin, pout) - count implies buf[#[trigger] ((
    cursor_add(pout, count) + k) % cap)] == buf[(pout + count + k) % cap] by {
        lemma_add_keeps_offset(pout, count, cap);
        lemma_mod_add_congruent(cursor_add(pout, count) as int, pout + count, k, cap);
    };
    assert(ring_contents(buf, pin, cursor_add(pout, count)) =~= ring_contents(
        buf,
        pin,
        pout,
    ).skip(count as int));
}

/// The state shared by the two handles: the byte region, the two cursors,
/// and the half-close flags.
///
/// One write handle and one read handle operate on an instance; each call
/// hands it in explicitly, so exactly one side works on it at a time. The
/// write side only ever moves `pin`, the read side only ever moves `pout`.
pub struct Inner {
    pub(crate) buffer: Vec<u8>,
    pub(crate) pin: usize,
    pub(crate) pout: usize,
    pub(crate) shutdown: Shutdown,
}

impl Inner {
    /// The fixed capacity of the byte region.
    pub closed spec fn capacity(&self) -> nat {
        self.buffer@.len()
    }

    /// How many bytes are buffered and not yet consumed.
    pub closed spec fn used(&self) -> nat {
        cursor_diff(self.pin, self.pout)
    }

    /// The buffered bytes, oldest first.
    pub closed spec fn contents(&self) -> Seq<u8> {
        ring_contents(self.buffer@, self.pin, self.pout)
    }

    /// Whether the read handle is gone.
    pub closed spec fn read_closed(&self) -> bool {
        self.shutdown.spec_read_closed()
    }

    /// Whether the write handle is gone.
    pub closed spec fn write_closed(&self) -> bool {
        self.shutdown.spec_write_closed()
    }

    /// Well-formed state: the capacity is at least 128 and divides the
    /// cursor range (it is a power of two), and the cursors are at most a
    /// capacity apart.
    pub closed spec fn wf(&self) -> bool {
        &&& 128 <= self.capacity()
        &&& wrap_span() % (self.capacity() as int) == 0
        &&& self.used() <= self.capacity()
    }

    /// Allocate a zeroed region of `size` bytes with both cursors at zero
    /// and both ends open. `size` must be a power of two so that the
    /// offset arithmetic survives cursor wraparound.
    pub(crate) fn new(size: usize, Ghost(exp): Ghost<nat>) -> (inner: Inner)
        requires
            size as nat == pow2(exp),
            128 <= size,
        ensures
            inner.wf(),
            inner.capacity() == size as nat,
            inner.contents() == Seq::<u8>::empty(),
            !inner.read_closed(),
            !inner.write_closed(),
    {
        proof {
            unsigned_int_max_values();
            if exp > usize::BITS as nat {
                lemma_pow2_strictly_increases(usize::BITS as nat, exp);
            }
            assert(exp < usize::BITS as nat);
            lemma_pow2_adds(exp, (usize::BITS as nat - exp) as nat);
            lemma_mod_multiples_vanish(pow2((usize::BITS as nat - exp) as nat) as int, 0, size as int);
            lemma_small_mod(0, size as nat);
            assert(wrap_span() % (size as int) == 0);
        }
        let mut buffer: Vec<u8> = Vec::new();
        let mut i: usize = 0;
        while i < size
            invariant
                buffer@.len() == i,
                i <= size,
            decreases size - i,
        {
            buffer.push(0u8);
            i = i + 1;
        }
        let inner = Inner { buffer, pin: 0, pout: 0, shutdown: Shutdown::new() };
        proof {
            assert(inner.contents() =~= Seq::<u8>::empty());
        }
        inner
    }

    /// How many bytes are buffered: the wrapping difference of the cursors.
    pub fn unread(&self) -> (n: usize)
        ensures
            n as nat == self.used(),
            n as nat == self.contents().len(),
    {
        proof {
            lemma_wrapping_sub(self.pin, self.pout);
        }
        self.pin.wrapping_sub(self.pout)
    }

    /// The fixed capacity of the byte region.
    pub fn size(&self) -> (n: usize)
        ensures
            n as nat == self.capacity(),
    {
        self.buffer.len()
    }

    /// Record that one of the two handles is gone. The buffered bytes are
    /// untouched; only the matching flag is set, for good.
    pub(crate) fn mark_closed(&mut self, read_or_write: usize)
        requires
            read_or_write == SHUT_READ || read_or_write == SHUT_WRITE,
        ensures
            final(self).wf() == old(self).wf(),
            final(self).capacity() == old(self).capacity(),
            final(self).contents() == old(self).contents(),
            final(self).read_closed() == (old(self).read_closed() || read_or_write == SHUT_READ),
            final(self).write_closed() == (old(self).write_closed() || read_or_write
                == SHUT_WRITE),
    {
        self.shutdown.shutdown(read_or_write);
    }

    /// Copy `count` bytes out of `bytes` into the free region past the
    /// write cursor, then publish them by moving the cursor. The copy
    /// splits into the two mechanical wrap segments: up to the end of the
    /// region, then from its start.
    #[verifier::loop_isolation(false)]
    pub(crate) fn copy_in(&mut self, bytes: &[u8], count: usize)
        requires
            old(self).wf(),
            count <= bytes@.len(),
            old(self).used() + count <= old(self).capacity(),
        ensures
            final(self).wf(),
            final(self).capacity() == old(self).capacity(),
            final(self).read_closed() == old(self).read_closed(),
            final(self).write_closed() == old(self).write_closed(),
            final(self).used() == old(self).used() + count,
            final(self).contents() == old(self).contents() + bytes@.take(count as int),
    {
        let cap = self.buffer.len();
        let start = self.pin % cap;
        let n1 = if cap - start < count {
            cap - start
        } else {
            count
        };
        let ghost buf0 = self.buffer@;
        let mut i: usize = 0;
        while i < n1
            invariant
                i <= n1,
                self.pin == old(self).pin,
                self.pout == old(self).pout,
                self.shutdown == old(self).shutdown,
                self.buffer@.len() == cap,
                forall|k: int| 0 <= k < i ==> self.buffer@[start + k] == #[trigger] bytes@[k],
                forall|q: int| #![trigger self.buffer@[q]]
                    0 <= q < cap && !(start <= q < start + i) ==> self.buffer@[q] == buf0[q],
            decreases n1 - i,
        {
            let b = bytes[i];
            self.buffer[start + i] = b;
            i = i + 1;
        }
        let n2 = count - n1;
        let mut j: usize = 0;
        while j < n2
            invariant
                j <= n2,
                self.pin == old(self).pin,
                self.pout == old(self).pout,
                self.shutdown == old(self).shutdown,
                self.buffer@.len() == cap,
                forall|k: int| 0 <= k < n1 ==> self.buffer@[start + k] == #[trigger] bytes@[k],
                forall|k: int| 0 <= k < j ==> self.buffer@[k] == #[trigger] bytes@[n1 + k],
                forall|q: int| #![trigger self.buffer@[q]]
                    0 <= q < cap && !(start <= q < start + n1) && !(0 <= q < j) ==> self.buffer@[q]
                        == buf0[q],
            decreases n2 - j,
        {
            let b = bytes[n1 + j];
            self.buffer[j] = b;
            j = j + 1;
        }
        proof {
            lemma_two_segments(buf0, self.buffer@, self.pin, bytes@, n1, n2);
            lemma_ring_publish(buf0, self.buffer@, self.pin, self.pout, bytes@, count);
            lemma_diff_grow(self.pin, self.pout, count);
            lemma_wrapping_add(self.pin, count);
        }
        self.pin = self.pin.wrapping_add(count);
    }

    /// Copy the `count` oldest buffered bytes into the front of `buf`,
    /// then consume them by moving the read cursor. The same two wrap
    /// segments as on the way in.
    #[verifier::loop_isolation(false)]
    pub(crate) fn copy_out(&mut self, buf: &mut Vec<u8>, count: usize)
        requires
            old(self).wf(),
            count <= old(self).used(),
            count <= old(buf)@.len(),
        ensures
            final(self).wf(),
            final(self).capacity() == old(self).capacity(),
            final(self).read_closed() == old(self).read_closed(),
            final(self).write_closed() == old(self).write_closed(),
            final(self).used() == old(self).used() - count,
            final(self).contents() == old(self).contents().skip(count as int),
            final(buf)@.len() == old(buf)@.len(),
            final(buf)@ == old(self).contents().take(count as int) + old(buf)@.skip(count as int),
    {
        let cap = self.buffer.len();
        let start = self.pout % cap;
        let n1 = if cap - start < count {
            cap - start
        } else {
            count
        };
        let ghost out0 = buf@;
        let ghost c0 = self.contents();
        let mut i: usize = 0;
        while i < n1
            invariant
                i <= n1,
                *self == *old(self),
                buf@.len() == out0.len(),
                forall|k: int| #![trigger buf@[k]] 0 <= k < i ==> buf@[k] == c0[k],
                forall|k: int| #![trigger buf@[k]] i <= k < out0.len() ==> buf@[k] == out0[k],
            decreases n1 - i,
        {
            let b = self.buffer[start + i];
            buf[i] = b;
            proof {
                lemma_mod_offset(self.pout as int, i as int, cap as int);
            }
            i = i + 1;
        }
        let n2 = count - n1;
        let mut j: usize = 0;
        while j < n2
            invariant
                j <= n2,
                *self == *old(self),
                buf@.len() == out0.len(),
                forall|k: int| #![trigger buf@[k]] 0 <= k < n1 + j ==> buf@[k] == c0[k],
                forall|k: int| #![trigger buf@[k]] n1 + j <= k < out0.len() ==> buf@[k] == out0[k],
            decreases n2 - j,
        {
            let b = self.buffer[j];
            buf[n1 + j] = b;
            proof {
                lemma_mod_offset_wrap(self.pout as int, n1 + j as int, cap as int);
            }
            j = j + 1;
        }
        proof {
            lemma_ring_drain(self.buffer@, self.pin, self.pout, count);
            lemma_diff_shrink(self.pin, self.pout, count);
            lemma_wrapping_add(self.pout, count);
            assert(buf@ =~= c0.take(count as int) + out0.skip(count as int));
        }
        self.pout = self.pout.wrapping_add(count);
    }

    /// One write-side transfer step: move as much of `bytes` as fits, or
    /// report why nothing moved. With no room (or an empty request) the
    /// peer's flag decides between a dead pipe and a transient refusal.
    pub(crate) fn transfer_in(&mut self, bytes: &[u8]) -> (r: Result<usize, Error>)
        requires
            old(self).wf(),
        ensures
            final(self).wf(),
            final(self).capacity() == old(self).capacity(),
            final(self).read_closed() == old(self).read_closed(),
            final(self).write_closed() == old(self).write_closed(),
            match r {
                Ok(n) => {
                    &&& n as nat == write_count(
                        old(self).contents(),
                        old(self).capacity(),
                        bytes@,
                    )
                    &&& n > 0
                    &&& final(self).contents() == write_result(
                        old(self).contents(),
                        old(self).capacity(),
                        bytes@,
                    )
                },
                Err(e) => {
                    &&& write_count(old(self).contents(), old(self).capacity(), bytes@) == 0
                    &&& final(self).contents() == old(self).contents()
                    &&& e == if old(self).read_closed() {
                        Error::BrokenPipe
                    } else {
                        Error::WouldBlock
                    }
                },
            },
    {
        let cap = self.buffer.len();
        let used = self.unread();
        let free = cap - used;
        let want = bytes.len();
        let avail = if want < free {
            want
        } else {
            free
        };
        if avail == 0 {
            if self.shutdown.shuted(SHUT_READ) {
                return Err(Error::BrokenPipe);
            }
            return Err(Error::WouldBlock);
        }
        self.copy_in(bytes, avail);
        proof {
            assert(final(self).contents() =~= write_result(
                old(self).contents(),
                old(self).capacity(),
                bytes@,
            ));
        }
        Ok(avail)
    }

    /// One read-side transfer step: fill the front of `buf` with as many
    /// buffered bytes as it has room for, or report why none came. A
    /// drained buffer is end-of-stream (zero bytes, no error) once the
    /// write end is gone, and a transient refusal before that.
    pub(crate) fn transfer_out(&mut self, buf: &mut Vec<u8>) -> (r: Result<usize, Error>)
        requires
            old(self).wf(),
        ensures
            final(self).wf(),
            final(self).capacity() == old(self).capacity(),
            final(self).read_closed() == old(self).read_closed(),
            final(self).write_closed() == old(self).write_closed(),
            final(buf)@.len() == old(buf)@.len(),
            match r {
                Ok(n) => {
                    &&& n as nat == read_count(old(self).contents(), old(buf)@.len())
                    &&& (n == 0 ==> old(self).write_closed())
                    &&& final(buf)@ == read_data(old(self).contents(), old(buf)@.len()) + old(
                        buf,
                    )@.skip(n as int)
                    &&& final(self).contents() == read_rest(old(self).contents(), old(buf)@.len())
                },
                Err(e) => {
                    &&& e == Error::WouldBlock
                    &&& read_count(old(self).contents(), old(buf)@.len()) == 0
                    &&& !old(self).write_closed()
                    &&& final(buf)@ == old(buf)@
                    &&& final(self).contents() == old(self).contents()
                },
            },
    {
        let used = self.unread();
        let want = buf.len();
        let avail = if want < used {
            want
        } else {
            used
        };
        if avail == 0 {
            if self.shutdown.shuted(SHUT_WRITE) {
                return Ok(0);
            }
            return Err(Error::WouldBlock);
        }
        self.copy_out(buf, avail);
        Ok(avail)
    }

    /// One write-side splice step: pull up to `bytes` bytes from the
    /// source straight into the free region and publish what came. The
    /// source fills the two wrap segments itself; if it comes up short on
    /// the first, the second is not attempted in this call.
    pub(crate) fn splice_in<T: ByteSource>(&mut self, r: &mut T, bytes: usize) -> (res: Result<
        usize,
        Error,
    >)
        requires
            old(self).wf(),
        ensures
            final(self).wf(),
            final(self).capacity() == old(self).capacity(),
            final(self).read_closed() == old(self).read_closed(),
            final(self).write_closed() == old(self).write_closed(),
            match res {
                Ok(n) => {
                    &&& old(self).contents().len() + n <= old(self).capacity()
                    &&& n <= bytes
                    &&& n as nat <= old(r).remaining().len()
                    &&& (n == 0 <==> old(r).remaining().len() == 0)
                    &&& bytes > 0
                    &&& old(self).contents().len() < old(self).capacity()
                    &&& final(self).contents() == old(self).contents() + old(r).remaining().take(
                        n as int,
                    )
                    &&& final(r).remaining() == old(r).remaining().skip(n as int)
                },
                Err(e) => {
                    &&& final(self).contents() == old(self).contents()
                    &&& exists|k: int|
                        0 <= k <= old(r).remaining().len() && final(r).remaining() == old(
                            r,
                        ).remaining().skip(k)
                    &&& ((bytes == 0 || old(self).contents().len() == old(self).capacity()) ==> (
                    final(r).remaining() == old(r).remaining() && e == if old(
                        self,
                    ).read_closed() {
                        Error::BrokenPipe
                    } else {
                        Error::WouldBlock
                    }))
                },
            },
    {
        let cap = self.buffer.len();
        let used = self.unread();
        let free = cap - used;
        let avail = if bytes < free {
            bytes
        } else {
            free
        };
        if avail == 0 {
            proof {
                assert(old(r).remaining().skip(0) =~= old(r).remaining());
            }
            if self.shutdown.shuted(SHUT_READ) {
                return Err(Error::BrokenPipe);
            }
            return Err(Error::WouldBlock);
        }
        let start = self.pin % cap;
        let n1 = if cap - start < avail {
            cap - start
        } else {
            avail
        };
        let ghost buf0 = self.buffer@;
        let ghost rem0 = r.remaining();
        let first = r.read_into(&mut self.buffer, start, n1);
        let got1 = match first {
            Ok(g) => g,
            Err(e) => {
                proof {
                    assert(rem0.skip(0) =~= rem0);
                }
                return Err(e);
            },
        };
        let mut total = got1;
        let ghost mut got2: int = 0;
        if got1 == n1 && n1 < avail {
            let n2 = avail - n1;
            let second = r.read_into(&mut self.buffer, 0, n2);
            match second {
                Ok(g) => {
                    total = got1 + g;
                    proof {
                        got2 = g as int;
                    }
                },
                Err(e) => {
                    proof {
                        lemma_two_segments(buf0, self.buffer@, self.pin, rem0, got1, 0);
                        lemma_ring_publish(buf0, self.buffer@, self.pin, self.pout, rem0, got1);
                    }
                    return Err(e);
                },
            }
        }
        proof {
            assert(rem0.skip(got1 as int).take(got2) =~= rem0.subrange(
                got1 as int,
                got1 + got2,
            ));
            assert forall|k: int| 0 <= k < got2 implies self.buffer@[k] == rem0[got1 + k] by {
                assert(self.buffer@[k] == rem0.skip(got1 as int)[k]);
            }
            lemma_two_segments(buf0, self.buffer@, self.pin, rem0, got1, (total - got1) as usize);
            lemma_ring_publish(buf0, self.buffer@, self.pin, self.pout, rem0, total);
            lemma_diff_grow(self.pin, self.pout, total);
            lemma_wrapping_add(self.pin, total);
            assert(rem0.skip(got1 as int).skip(got2) =~= rem0.skip(total as int));
        }
        self.pin = self.pin.wrapping_add(total);
        Ok(total)
    }

    /// One read-side splice step: push up to `bytes` of the oldest
    /// buffered bytes straight into the sink and consume what it took.
    /// The sink takes the two wrap segments itself; if it comes up short
    /// on the first, the second is not attempted in this call.
    pub(crate) fn splice_out<T: ByteSink>(&mut self, w: &mut T, bytes: usize) -> (res: Result<
        usize,
        Error,
    >)
        requires
            old(self).wf(),
        ensures
            final(self).wf(),
            final(self).capacity() == old(self).capacity(),
            final(self).read_closed() == old(self).read_closed(),
            final(self).write_closed() == old(self).write_closed(),
            match res {
                Ok(n) => {
                    &&& n as nat <= old(self).contents().len()
                    &&& n <= bytes
                    &&& (n == 0 ==> old(self).write_closed() && (bytes == 0 || old(
                        self,
                    ).contents().len() == 0))
                    &&& final(w).received() == old(w).received() + old(self).contents().take(
                        n as int,
                    )
                    &&& final(self).contents() == old(self).contents().skip(n as int)
                },
                Err(e) => {
                    &&& final(self).contents() == old(self).contents()
                    &&& exists|k: int|
                        0 <= k <= old(self).contents().len() && final(w).received() == old(
                            w,
                        ).received() + old(self).contents().take(k)
                    &&& ((bytes == 0 || old(self).contents().len() == 0) ==> (e
                        == Error::WouldBlock && !old(self).write_closed() && final(w).received()
                        == old(w).received()))
                },
            },
    {
        let used = self.unread();
        let avail = if bytes < used {
            bytes
        } else {
            used
        };
        if avail == 0 {
            proof {
                assert(old(w).received() + old(self).contents().take(0) =~= old(w).received());
            }
            if self.shutdown.shuted(SHUT_WRITE) {
                return Ok(0);
            }
            return Err(Error::WouldBlock);
        }
        let cap = self.buffer.len();
        let start = self.pout % cap;
        let n1 = if cap - start < avail {
            cap - start
        } else {
            avail
        };
        let ghost c0 = self.contents();
        let ghost rec0 = w.received();
        proof {
            assert forall|i: int| 0 <= i < n1 implies self.buffer@[start + i] == c0[i] by {
                lemma_mod_offset(self.pout as int, i, cap as int);
            }
        }
        let first = w.write_from(&self.buffer, start, n1);
        let got1 = match first {
            Ok(g) => g,
            Err(e) => {
                proof {
                    assert(rec0 + c0.take(0) =~= rec0);
                }
                return Err(e);
            },
        };
        proof {
            assert(self.buffer@.subrange(start as int, start + got1) =~= c0.take(got1 as int));
        }
        let mut total = got1;
        if got1 == n1 && n1 < avail {
            let n2 = avail - n1;
            proof {
                assert forall|i: int| 0 <= i < n2 implies self.buffer@[i] == c0[n1 + i] by {
                    lemma_mod_offset_wrap(self.pout as int, n1 + i, cap as int);
                }
            }
            let second = w.write_from(&self.buffer, 0, n2);
            match second {
                Ok(g) => {
                    proof {
                        assert(self.buffer@.subrange(0, g as int) =~= c0.subrange(
                            n1 as int,
                            n1 + g,
                        ));
                        assert(rec0 + c0.take(n1 as int) + c0.subrange(n1 as int, n1 + g) =~= rec0
                            + c0.take(n1 + g));
                    }
                    total = got1 + g;
                },
                Err(e) => {
                    return Err(e);
                },
            }
        }
        proof {
            lemma_ring_drain(self.buffer@, self.pin, self.pout, total);
            lemma_diff_shrink(self.pin, self.pout, total);
            lemma_wrapping_add(self.pout, total);
        }
        self.pout = self.pout.wrapping_add(total);
        Ok(total)
    }
}

} // verus!
