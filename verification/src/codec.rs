//! Reading frames from bytes.
//!
//! [`decode`] says, for any sequence of bytes, whether it starts with a whole
//! frame, is too short to tell, or cannot start a frame at all.
//! [`parse_frame`] computes exactly that.

use crate::decimal::{parse_i64, parse_signed, parse_u64, parse_unsigned, MINUS, ZERO};
use crate::frame::{
    null_marker, Frame, FrameView, TAG_ARRAY, TAG_BULK, TAG_ERROR, TAG_INTEGER, TAG_SIMPLE,
};
use crate::line::{find_line, first_line, has_line, line_len, CR, LF};
use crate::payload::contents;
use crate::text::text_of;
use bytes::Bytes;
use vstd::prelude::*;
use vstd::slice::slice_subrange;
use vstd::utf8::{decode_utf8, valid_utf8};

verus! {

/// Why bytes cannot start a frame.
#[derive(Clone, Copy, Debug, PartialEq, Eq, Structural)]
pub enum ProtocolError {
    /// The first byte is not the tag of any frame type.
    UnknownTag(u8),
    /// The text of a simple or error frame is not UTF-8.
    InvalidText,
    /// An integer, a length or a count is not a decimal number, or does not
    /// fit in 64 bits.
    InvalidNumber,
    /// A bulk payload is not followed by the terminator.
    MissingTerminator,
}

/// What a sequence of bytes starts with.
pub enum Decoded {
    /// Not enough bytes yet to tell.
    Incomplete,
    /// No frame starts like this.
    Invalid(ProtocolError),
    /// A frame, and the number of bytes that it takes.
    Complete(FrameView, int),
}

/// What a sequence of bytes holds where a run of frames is expected.
pub enum DecodedItems {
    Incomplete,
    Invalid(ProtocolError),
    /// The frames, and the number of bytes that they take together.
    Complete(Seq<FrameView>, int),
}

impl DecodedItems {
    /// The same outcome behind `done` frames that took `used` bytes.
    pub open spec fn after(self, done: Seq<FrameView>, used: int) -> DecodedItems {
        match self {
            DecodedItems::Complete(items, n) => DecodedItems::Complete(done + items, used + n),
            other => other,
        }
    }

    /// The outcome for the array that holds the frames, behind a header of
    /// `used` bytes.
    pub open spec fn as_array(self, used: int) -> Decoded {
        match self {
            DecodedItems::Complete(items, n) => Decoded::Complete(
                FrameView::Array(items),
                used + n,
            ),
            DecodedItems::Incomplete => Decoded::Incomplete,
            DecodedItems::Invalid(e) => Decoded::Invalid(e),
        }
    }
}

/// `b` is the tag of a frame type.
pub open spec fn is_tag(b: u8) -> bool {
    b == TAG_SIMPLE || b == TAG_ERROR || b == TAG_INTEGER || b == TAG_BULK || b == TAG_ARRAY
}

/// The value of a length or count field that fits in 64 bits.
pub open spec fn parse_length(line: Seq<u8>) -> Option<nat> {
    match parse_unsigned(line) {
        Some(n) => if n <= u64::MAX {
            Some(n)
        } else {
            None
        },
        None => None,
    }
}

/// What `s` starts with.
///
/// A frame is its tag, a header line, and for bulk and array frames what the
/// header announces: a payload of the given length and a terminator, or the
/// given number of frames.
pub open spec fn decode(s: Seq<u8>) -> Decoded
    decreases s.len(), 0nat,
{
    if s.len() == 0 {
        Decoded::Incomplete
    } else if !is_tag(s[0]) {
        Decoded::Invalid(ProtocolError::UnknownTag(s[0]))
    } else if !has_line(s.skip(1)) {
        Decoded::Incomplete
    } else {
        let line = first_line(s.skip(1));
        let used = line_len(s.skip(1)) + 3;
        if s[0] == TAG_SIMPLE {
            if valid_utf8(line) {
                Decoded::Complete(FrameView::Simple(decode_utf8(line)), used)
            } else {
                Decoded::Invalid(ProtocolError::InvalidText)
            }
        } else if s[0] == TAG_ERROR {
            if valid_utf8(line) {
                Decoded::Complete(FrameView::Error(decode_utf8(line)), used)
            } else {
                Decoded::Invalid(ProtocolError::InvalidText)
            }
        } else if s[0] == TAG_INTEGER {
            match parse_signed(line) {
                Some(i) => if i64::MIN <= i <= i64::MAX {
                    Decoded::Complete(FrameView::Integer(i as i64), used)
                } else {
                    Decoded::Invalid(ProtocolError::InvalidNumber)
                },
                None => Decoded::Invalid(ProtocolError::InvalidNumber),
            }
        } else if s[0] == TAG_BULK {
            if line == null_marker() {
                Decoded::Complete(FrameView::Null, used)
            } else {
                match parse_length(line) {
                    Some(len) => {
                        let rest = s.skip(used);
                        let n = len as int;
                        if rest.len() < n + 2 {
                            Decoded::Incomplete
                        } else if rest[n] == CR && rest[n + 1] == LF {
                            Decoded::Complete(FrameView::Bulk(rest.take(n)), used + n + 2)
                        } else {
                            Decoded::Invalid(ProtocolError::MissingTerminator)
                        }
                    },
                    None => Decoded::Invalid(ProtocolError::InvalidNumber),
                }
            }
        } else {
            match parse_length(line) {
                Some(n) => decode_items(s.skip(used), n).as_array(used),
                None => Decoded::Invalid(ProtocolError::InvalidNumber),
            }
        }
    }
}

/// What `s` starts with where `n` frames are expected, one after the other.
///
/// A frame that has been read takes at least one byte and no more than
/// there are (`lemma_decode_bounds`), so the test on `k` never fails; it is
/// what shows that the definition comes to an end.
pub open spec fn decode_items(s: Seq<u8>, n: nat) -> DecodedItems
    decreases s.len(), n + 1,
{
    if n == 0 {
        DecodedItems::Complete(Seq::empty(), 0)
    } else {
        match decode(s) {
            Decoded::Complete(f, k) => if 0 < k <= s.len() {
                decode_items(s.skip(k), (n - 1) as nat).after(seq![f], k)
            } else {
                DecodedItems::Incomplete
            },
            Decoded::Incomplete => DecodedItems::Incomplete,
            Decoded::Invalid(e) => DecodedItems::Invalid(e),
        }
    }
}

/// `r` is what reading at index `start` of a buffer of `len` bytes gives
/// where the bytes from `start` on decode as `d`: the frame and the index
/// behind it, `None` where more bytes are needed, or the error.
pub open spec fn agrees(
    r: Result<Option<(Frame, usize)>, ProtocolError>,
    d: Decoded,
    start: int,
    len: int,
) -> bool {
    match d {
        Decoded::Complete(v, k) => {
            &&& r is Ok
            &&& r->Ok_0 is Some
            &&& r->Ok_0->Some_0.0@ == v
            &&& r->Ok_0->Some_0.1 == start + k
            &&& start < start + k <= len
        },
        Decoded::Incomplete => r is Ok && r->Ok_0 is None,
        Decoded::Invalid(e) => r is Err && r->Err_0 == e,
    }
}

/// Reads the frame that starts at index `start` of `buf`.
pub fn parse_at(buf: &[u8], start: usize) -> (r: Result<Option<(Frame, usize)>, ProtocolError>)
    requires
        start <= buf.len(),
    ensures
        agrees(r, decode(buf@.skip(start as int)), start as int, buf@.len() as int),
    decreases buf.len() - start,
{
    let ghost s = buf@.skip(start as int);
    if start >= buf.len() {
        return Ok(None);
    }
    let tag = buf[start];
    assert(s[0] == tag);
    if !(tag == TAG_SIMPLE || tag == TAG_ERROR || tag == TAG_INTEGER || tag == TAG_BULK || tag
        == TAG_ARRAY) {
        return Err(ProtocolError::UnknownTag(tag));
    }
    assert(s.skip(1) == buf@.skip(start + 1));
    let end = match find_line(buf, start + 1) {
        Some(end) => end,
        None => {
            return Ok(None);
        },
    };
    let line = slice_subrange(buf, start + 1, end);
    let next = end + 2;
    assert(line@ == first_line(s.skip(1)));
    assert(s.skip(next - start) == buf@.skip(next as int));
    if tag == TAG_SIMPLE {
        match text_of(line) {
            Some(text) => Ok(Some((Frame::Simple(text), next))),
            None => Err(ProtocolError::InvalidText),
        }
    } else if tag == TAG_ERROR {
        match text_of(line) {
            Some(text) => Ok(Some((Frame::Error(text), next))),
            None => Err(ProtocolError::InvalidText),
        }
    } else if tag == TAG_INTEGER {
        match parse_i64(line) {
            Some(i) => Ok(Some((Frame::Integer(i), next))),
            None => Err(ProtocolError::InvalidNumber),
        }
    } else if tag == TAG_BULK {
        if line.len() == 2 && line[0] == MINUS && line[1] == ZERO + 1 {
            assert(line@ == null_marker());
            return Ok(Some((Frame::Null, next)));
        }
        assert(line@ != null_marker()) by {
            if line@ == null_marker() {
                assert(line@.len() == 2 && line@[0] == MINUS && line@[1] == ZERO + 1);
            }
        }
        let len = match parse_u64(line) {
            Some(len) => len,
            None => {
                return Err(ProtocolError::InvalidNumber);
            },
        };
        let remaining = buf.len() - next;
        if remaining < 2 || len > (remaining - 2) as u64 {
            return Ok(None);
        }
        let n = len as usize;
        if buf[next + n] == CR && buf[next + n + 1] == LF {
            let data = Bytes::copy_from_slice(slice_subrange(buf, next, next + n));
            assert(contents(data) == buf@.skip(next as int).take(n as int));
            Ok(Some((Frame::Bulk(data), next + n + 2)))
        } else {
            Err(ProtocolError::MissingTerminator)
        }
    } else {
        let count = match parse_u64(line) {
            Some(count) => count,
            None => {
                return Err(ProtocolError::InvalidNumber);
            },
        };
        let mut items: Vec<Frame> = Vec::new();
        let mut pos = next;
        let mut i: u64 = 0;
        let ghost mut views: Seq<FrameView> = Seq::empty();
        while i < count
            invariant
                i <= count,
                start < next <= pos <= buf.len(),
                items.len() == i,
                views.len() == i,
                forall|j: int| 0 <= j < i ==> (#[trigger] items[j])@ == views[j],
                decode(buf@.skip(start as int)) == decode_items(
                    buf@.skip(next as int),
                    count as nat,
                ).as_array(next - start),
                decode_items(buf@.skip(next as int), count as nat) == decode_items(
                    buf@.skip(pos as int),
                    (count - i) as nat,
                ).after(views, pos - next),
            decreases count - i,
        {
            let ghost cur = buf@.skip(pos as int);
            match parse_at(buf, pos) {
                Ok(Some((item, after))) => {
                    proof {
                        let v = item@;
                        let k = after - pos;
                        assert(cur.skip(k) == buf@.skip(after as int));
                        let rest = decode_items(buf@.skip(after as int), (count - i - 1) as nat);
                        assert(decode_items(cur, (count - i) as nat) == rest.after(seq![v], k));
                        assert(views + seq![v] == views.push(v));
                        if let DecodedItems::Complete(more, m) = rest {
                            assert(views + (seq![v] + more) == views.push(v) + more);
                        }
                        views = views.push(v);
                    }
                    items.push(item);
                    pos = after;
                },
                Ok(None) => {
                    return Ok(None);
                },
                Err(e) => {
                    return Err(e);
                },
            }
            i += 1;
        }
        proof {
            assert(views + Seq::<FrameView>::empty() == views);
            assert(Frame::Array(items)@->Array_0 == views);
        }
        Ok(Some((Frame::Array(items), pos)))
    }
}

/// Reads the frame that `buf` starts with.
///
/// Returns the frame and the number of bytes that it takes, `None` where
/// `buf` ends before the frame does, and the error where no frame starts
/// like `buf`.
pub fn parse_frame(buf: &[u8]) -> (r: Result<Option<(Frame, usize)>, ProtocolError>)
    ensures
        agrees(r, decode(buf@), 0, buf@.len() as int),
{
    assert(buf@.skip(0) == buf@);
    parse_at(buf, 0)
}

} // verus!
