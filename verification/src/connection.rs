//! The receiving side of one connection: bytes come in as the transport
//! delivers them, frames come out once they are whole.
//!
//! A `Connection` does no I/O. Its driver reads from the socket, hands over
//! what arrived with [`Connection::receive`] or reports the end of the
//! stream with [`Connection::end_of_stream`], and asks for the next frame
//! with [`Connection::read_frame`].

use crate::codec::{decode, parse_at, Decoded, ProtocolError};
use crate::frame::{append, Frame};
use crate::roundtrip::theorem_read_frames_are_sendable;
use vstd::prelude::*;
use vstd::slice::{slice_subrange, slice_to_vec};

verus! {

/// Why no further frame can be read.
#[derive(Clone, Copy, Debug, PartialEq, Eq, Structural)]
pub enum ReadError {
    /// The bytes received cannot start a frame.
    Protocol(ProtocolError),
    /// The stream ended in the middle of a frame.
    ConnectionReset,
}

/// What a read found.
#[derive(Debug, PartialEq)]
pub enum Received {
    /// The next frame.
    Frame(Frame),
    /// The next frame has not arrived in full: read from the transport and
    /// ask again.
    NeedMore,
    /// The stream has ended, and it ended between two frames.
    Closed,
}

/// The bytes received and not yet read as frames.
pub struct Connection {
    buffer: Vec<u8>,
    start: usize,
    ended: bool,
}

/// What a read gives where the bytes not yet read decode as `d`, the stream
/// has or has not `ended`, and `pending` bytes are waiting.
pub open spec fn read_outcome(
    r: Result<Received, ReadError>,
    d: Decoded,
    ended: bool,
    pending: nat,
) -> bool {
    match d {
        Decoded::Complete(v, _) => {
            &&& r is Ok
            &&& r->Ok_0 is Frame
            &&& r->Ok_0->Frame_0@ == v
        },
        Decoded::Invalid(e) => r == Err::<Received, ReadError>(ReadError::Protocol(e)),
        Decoded::Incomplete => if !ended {
            r == Ok::<Received, ReadError>(Received::NeedMore)
        } else if pending == 0 {
            r == Ok::<Received, ReadError>(Received::Closed)
        } else {
            r == Err::<Received, ReadError>(ReadError::ConnectionReset)
        },
    }
}

/// The bytes that stay behind a read of `pending`: a whole frame is taken
/// off the front, anything else is left as it is.
pub open spec fn left_over(pending: Seq<u8>) -> Seq<u8> {
    match decode(pending) {
        Decoded::Complete(_, k) => pending.skip(k),
        _ => pending,
    }
}

impl Connection {
    #[verifier::type_invariant]
    spec fn well_formed(self) -> bool {
        self.start <= self.buffer.len()
    }

    /// The bytes received and not yet read as frames, oldest first.
    pub closed spec fn pending(self) -> Seq<u8> {
        self.buffer@.skip(self.start as int)
    }

    /// The end of the stream has been reported.
    pub closed spec fn ended(self) -> bool {
        self.ended
    }

    /// A connection on which nothing has arrived yet.
    pub fn new() -> (c: Connection)
        ensures
            c.pending() == Seq::<u8>::empty(),
            !c.ended(),
    {
        Connection { buffer: Vec::new(), start: 0, ended: false }
    }

    /// Takes in bytes that the transport delivered.
    pub fn receive(&mut self, chunk: &[u8])
        ensures
            final(self).pending() == old(self).pending() + chunk@,
            final(self).ended() == old(self).ended(),
    {
        proof {
            use_type_invariant(&*self);
        }
        let ghost before = self.pending();
        let start = self.start;
        let mut buffer: Vec<u8> = Vec::new();
        self.start = 0;
        core::mem::swap(&mut self.buffer, &mut buffer);
        if start > 0 {
            buffer = slice_to_vec(slice_subrange(buffer.as_slice(), start, buffer.len()));
        }
        assert(buffer@ == before);
        append(&mut buffer, chunk);
        self.buffer = buffer;
        assert(self.buffer@.skip(0) == self.buffer@);
    }

    /// Records that the peer has closed the stream: no more bytes will come.
    pub fn end_of_stream(&mut self)
        ensures
            final(self).pending() == old(self).pending(),
            final(self).ended(),
    {
        proof {
            use_type_invariant(&*self);
        }
        self.ended = true;
    }

    /// The number of bytes received and not yet read as frames.
    pub fn pending_len(&self) -> (n: usize)
        ensures
            n == self.pending().len(),
    {
        proof {
            use_type_invariant(self);
        }
        self.buffer.len() - self.start
    }

    /// Reads the next frame from what has been received.
    ///
    /// A whole frame at the front of the pending bytes is taken off and
    /// returned, whether or not more has arrived behind it. Where the frame
    /// at the front is not whole, the outcome is `NeedMore` while the stream
    /// is open; once it has ended, `Closed` where nothing is pending and
    /// `ConnectionReset` where a part of a frame is. Bytes that cannot start
    /// a frame give the protocol error and stay where they are. A frame that
    /// is returned can be sent on as it is.
    pub fn read_frame(&mut self) -> (r: Result<Received, ReadError>)
        ensures
            read_outcome(
                r,
                decode(old(self).pending()),
                old(self).ended(),
                old(self).pending().len(),
            ),
            final(self).pending() == left_over(old(self).pending()),
            final(self).ended() == old(self).ended(),
            r matches Ok(Received::Frame(frame)) ==> frame@.sendable(),
    {
        proof {
            use_type_invariant(&*self);
            theorem_read_frames_are_sendable(self.pending());
        }
        match parse_at(self.buffer.as_slice(), self.start) {
            Ok(Some((frame, end))) => {
                assert(self.buffer@.skip(end as int) == self.pending().skip(end - self.start));
                self.start = end;
                Ok(Received::Frame(frame))
            },
            Ok(None) => {
                if !self.ended {
                    Ok(Received::NeedMore)
                } else if self.start == self.buffer.len() {
                    Ok(Received::Closed)
                } else {
                    Err(ReadError::ConnectionReset)
                }
            },
            Err(e) => Err(ReadError::Protocol(e)),
        }
    }
}

} // verus!
