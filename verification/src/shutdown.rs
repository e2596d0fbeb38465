//! The half-close signal shared by the two ends of the ring buffer.
//!
//! One flag per direction, each a one-way switch: once an end is marked
//! closed it stays closed. The write side polls the read flag to learn that
//! nobody will ever drain the buffer again; the read side polls the write
//! flag to tell a drained buffer apart from end-of-stream.
use vstd::prelude::*;

verus! {

/// Selects the read end in calls on [`Shutdown`].
pub const SHUT_READ: usize = 0;

/// Selects the write end in calls on [`Shutdown`].
pub const SHUT_WRITE: usize = 1;

/// Two independent one-way close flags, one per transfer direction.
///
/// Created together with the ring buffer and updated when a handle is
/// released; consumers only ever read it through the transfer operations.
pub struct Shutdown {
    read_closed: bool,
    write_closed: bool,
}

impl Shutdown {
    /// Whether the read end has been marked closed.
    pub closed spec fn spec_read_closed(&self) -> bool {
        self.read_closed
    }

    /// Whether the write end has been marked closed.
    pub closed spec fn spec_write_closed(&self) -> bool {
        self.write_closed
    }

    /// Both ends start open.
    pub fn new() -> (s: Self)
        ensures
            !s.spec_read_closed(),
            !s.spec_write_closed(),
    {
        Shutdown { read_closed: false, write_closed: false }
    }

    /// Mark one end closed. Idempotent; the other end is untouched, and a
    /// closed end never reopens.
    pub fn shutdown(&mut self, read_or_write: usize)
        requires
            read_or_write == SHUT_READ || read_or_write == SHUT_WRITE,
        ensures
            final(self).spec_read_closed() == (old(self).spec_read_closed() || read_or_write
                == SHUT_READ),
            final(self).spec_write_closed() == (old(self).spec_write_closed() || read_or_write
                == SHUT_WRITE),
    {
        if read_or_write == SHUT_READ {
            self.read_closed = true;
        } else {
            self.write_closed = true;
        }
    }

    /// Read one end's flag.
    pub fn shuted(&self, read_or_write: usize) -> (r: bool)
        requires
            read_or_write == SHUT_READ || read_or_write == SHUT_WRITE,
        ensures
            r == if read_or_write == SHUT_READ {
                self.spec_read_closed()
            } else {
                self.spec_write_closed()
            },
    {
        if read_or_write == SHUT_READ {
            self.read_closed
        } else {
            self.write_closed
        }
    }
}

} // verus!
