//! Frames: the units of the wire protocol, and their byte-exact encoding.

use crate::codec::{decode, Decoded};
use crate::decimal::{decimal, push_i64, push_u64, signed_decimal, MINUS, ZERO};
use crate::line::{contains_crlf, crlf, no_crlf, CR, LF};
use crate::payload::contents;
use crate::roundtrip::theorem_write_then_read;
use bytes::Bytes;
use vstd::prelude::*;
use vstd::utf8::encode_utf8;

verus! {

/// The tag of a simple frame: `+`.
pub const TAG_SIMPLE: u8 = 43;

/// The tag of an error frame: `-`.
pub const TAG_ERROR: u8 = 45;

/// The tag of an integer frame: `:`.
pub const TAG_INTEGER: u8 = 58;

/// The tag of a bulk frame, and of `Null`: `$`.
pub const TAG_BULK: u8 = 36;

/// The tag of an array frame: `*`.
pub const TAG_ARRAY: u8 = 42;

/// One protocol unit.
#[derive(Debug, PartialEq)]
pub enum Frame {
    /// A short status text.
    Simple(String),
    /// An error message.
    Error(String),
    /// A signed number.
    Integer(i64),
    /// A binary-safe payload.
    Bulk(Bytes),
    /// The absence of a value.
    Null,
    /// A sequence of frames: a command and its arguments.
    Array(Vec<Frame>),
}

/// What a frame is, as a mathematical value.
pub enum FrameView {
    Simple(Seq<char>),
    Error(Seq<char>),
    Integer(i64),
    Bulk(Seq<u8>),
    Null,
    Array(Seq<FrameView>),
}

/// The mathematical value of a frame: texts as characters, payloads as
/// bytes, arrays item by item.
pub open spec fn view_of(f: Frame) -> FrameView
    decreases f,
{
    match f {
        Frame::Simple(s) => FrameView::Simple(s@),
        Frame::Error(s) => FrameView::Error(s@),
        Frame::Integer(i) => FrameView::Integer(i),
        Frame::Bulk(b) => FrameView::Bulk(contents(b)),
        Frame::Null => FrameView::Null,
        Frame::Array(items) => FrameView::Array(
            Seq::new(
                items.len() as nat,
                |i: int|
                    if 0 <= i < items.len() {
                        view_of(items[i])
                    } else {
                        FrameView::Null
                    },
            ),
        ),
    }
}

impl View for Frame {
    type V = FrameView;

    open spec fn view(&self) -> FrameView {
        view_of(*self)
    }
}

/// The text of the length field that marks `Null`: `-1`.
pub open spec fn null_marker() -> Seq<u8> {
    seq![45u8, 49u8]
}

impl FrameView {
    /// The bytes of the frame on the wire.
    pub open spec fn wire(self) -> Seq<u8>
        decreases self, 0nat,
    {
        match self {
            FrameView::Simple(s) => seq![TAG_SIMPLE] + encode_utf8(s) + crlf(),
            FrameView::Error(s) => seq![TAG_ERROR] + encode_utf8(s) + crlf(),
            FrameView::Integer(i) => seq![TAG_INTEGER] + signed_decimal(i as int) + crlf(),
            FrameView::Bulk(b) => seq![TAG_BULK] + decimal(b.len()) + crlf() + b + crlf(),
            FrameView::Null => seq![TAG_BULK] + null_marker() + crlf(),
            FrameView::Array(items) => seq![TAG_ARRAY] + decimal(items.len()) + crlf()
                + wire_all(items, 0),
        }
    }

    /// The frame can be sent and read back: its texts hold no terminator,
    /// and its lengths fit the length field.
    pub open spec fn sendable(self) -> bool
        decreases self,
    {
        match self {
            FrameView::Simple(s) => no_crlf(encode_utf8(s)),
            FrameView::Error(s) => no_crlf(encode_utf8(s)),
            FrameView::Integer(_) => true,
            FrameView::Bulk(b) => b.len() <= u64::MAX,
            FrameView::Null => true,
            FrameView::Array(items) => items.len() <= u64::MAX && forall|i: int|
                0 <= i < items.len() ==> (#[trigger] items[i]).sendable(),
        }
    }
}

/// The encodings of `items[from..]`, one after the other.
pub open spec fn wire_all(items: Seq<FrameView>, from: int) -> Seq<u8>
    decreases items, items.len() - from,
{
    if 0 <= from < items.len() {
        items[from].wire() + wire_all(items, from + 1)
    } else {
        Seq::empty()
    }
}

impl Clone for Frame {
    fn clone(&self) -> (copy: Frame)
        ensures
            copy@ == self@,
    {
        self.duplicate()
    }
}

/// What `wire_all` yields for a sequence grown by one frame at its end.
pub proof fn lemma_wire_all_push(items: Seq<FrameView>, last: FrameView, from: int)
    requires
        0 <= from <= items.len(),
    ensures
        wire_all(items.push(last), from) == wire_all(items, from) + last.wire(),
    decreases items.len() - from,
{
    let grown = items.push(last);
    if from < items.len() {
        lemma_wire_all_push(items, last, from + 1);
        assert(grown[from] == items[from]);
    } else {
        assert(wire_all(grown, from + 1) == Seq::<u8>::empty());
        assert(wire_all(items, from) == Seq::<u8>::empty());
    }
}

/// Appends `bytes` to `out`.
pub fn append(out: &mut Vec<u8>, bytes: &[u8])
    ensures
        final(out)@ == old(out)@ + bytes@,
{
    let mut i: usize = 0;
    while i < bytes.len()
        invariant
            i <= bytes.len(),
            out@ == old(out)@ + bytes@.take(i as int),
        decreases bytes.len() - i,
    {
        out.push(bytes[i]);
        i += 1;
        assert(bytes@.take(i as int) == bytes@.take(i - 1).push(bytes@[i - 1]));
    }
    assert(bytes@.take(bytes.len() as int) == bytes@);
}

impl Frame {
    /// Appends the encoding of the frame to `out`.
    pub fn write_to(&self, out: &mut Vec<u8>)
        ensures
            final(out)@ == old(out)@ + self@.wire(),
        decreases self,
    {
        match self {
            Frame::Simple(s) => {
                out.push(TAG_SIMPLE);
                append(out, s.as_str().as_bytes());
                out.push(CR);
                out.push(LF);
                assert(out@ == old(out)@ + self@.wire());
            },
            Frame::Error(s) => {
                out.push(TAG_ERROR);
                append(out, s.as_str().as_bytes());
                out.push(CR);
                out.push(LF);
                assert(out@ == old(out)@ + self@.wire());
            },
            Frame::Integer(i) => {
                out.push(TAG_INTEGER);
                push_i64(out, *i);
                out.push(CR);
                out.push(LF);
                assert(out@ == old(out)@ + self@.wire());
            },
            Frame::Bulk(b) => {
                out.push(TAG_BULK);
                push_u64(out, b.len() as u64);
                out.push(CR);
                out.push(LF);
                append(out, b.as_ref());
                out.push(CR);
                out.push(LF);
                assert(out@ == old(out)@ + self@.wire());
            },
            Frame::Null => {
                out.push(TAG_BULK);
                out.push(MINUS);
                out.push(ZERO + 1);
                out.push(CR);
                out.push(LF);
                assert(out@ == old(out)@ + self@.wire());
            },
            Frame::Array(items) => {
                out.push(TAG_ARRAY);
                push_u64(out, items.len() as u64);
                out.push(CR);
                out.push(LF);
                let ghost head = out@;
                let ghost views = self@->Array_0;
                assert(self@ == FrameView::Array(views));
                assert(head == old(out)@ + (seq![TAG_ARRAY] + decimal(items.len() as nat) + crlf()));
                let mut i: usize = 0;
                while i < items.len()
                    invariant
                        i <= items.len(),
                        *self == Frame::Array(*items),
                        views.len() == items.len(),
                        forall|j: int| 0 <= j < items.len() ==> views[j] == (#[trigger] items[j])@,
                        out@ == head + wire_all(views.take(i as int), 0),
                    decreases items.len() - i,
                {
                    let item = &items[i];
                    assert(decreases_to!(*self => self->Array_0));
                    item.write_to(out);
                    proof {
                        lemma_wire_all_push(views.take(i as int), views[i as int], 0);
                        assert(views.take(i as int).push(views[i as int]) == views.take(i + 1));
                    }
                    i += 1;
                }
                assert(views.take(items.len() as int) == views);
                assert(out@ == old(out)@ + self@.wire());
            },
        }
    }

    /// Tells whether the frame can be sent and read back.
    pub fn is_sendable(&self) -> (r: bool)
        ensures
            r == self@.sendable(),
        decreases self,
    {
        match self {
            Frame::Simple(s) => !contains_crlf(s.as_str().as_bytes()),
            Frame::Error(s) => !contains_crlf(s.as_str().as_bytes()),
            Frame::Integer(_) => true,
            Frame::Bulk(b) => {
                // A payload in memory is never longer than a length field
                // can say.
                let len = b.len();
                assert(len <= u64::MAX);
                true
            },
            Frame::Null => true,
            Frame::Array(items) => {
                let ghost views = self@->Array_0;
                let mut i: usize = 0;
                while i < items.len()
                    invariant
                        i <= items.len(),
                        *self == Frame::Array(*items),
                        views.len() == items.len(),
                        forall|j: int| 0 <= j < items.len() ==> views[j] == (#[trigger] items[j])@,
                        self@ == FrameView::Array(views),
                        forall|j: int| 0 <= j < i ==> (#[trigger] views[j]).sendable(),
                    decreases items.len() - i,
                {
                    assert(decreases_to!(*self => self->Array_0));
                    if !items[i].is_sendable() {
                        assert(!views[i as int].sendable());
                        return false;
                    }
                    i += 1;
                }
                true
            },
        }
    }

    /// A copy of the frame. Payloads are shared between the two, not
    /// copied.
    pub fn duplicate(&self) -> (copy: Frame)
        ensures
            copy@ == self@,
        decreases self,
    {
        match self {
            Frame::Simple(s) => Frame::Simple(s.clone()),
            Frame::Error(s) => Frame::Error(s.clone()),
            Frame::Integer(i) => Frame::Integer(*i),
            Frame::Bulk(b) => Frame::Bulk(b.clone()),
            Frame::Null => Frame::Null,
            Frame::Array(items) => {
                let ghost views = self@->Array_0;
                let mut copies: Vec<Frame> = Vec::new();
                let mut i: usize = 0;
                while i < items.len()
                    invariant
                        i <= items.len(),
                        *self == Frame::Array(*items),
                        views.len() == items.len(),
                        forall|j: int| 0 <= j < items.len() ==> views[j] == (#[trigger] items[j])@,
                        copies.len() == i,
                        forall|j: int| 0 <= j < i ==> (#[trigger] copies[j])@ == views[j],
                    decreases items.len() - i,
                {
                    assert(decreases_to!(*self => self->Array_0));
                    copies.push(items[i].duplicate());
                    i += 1;
                }
                assert(Frame::Array(copies)@->Array_0 == views);
                Frame::Array(copies)
            },
        }
    }

    /// The encoding of the frame. Where the frame is sendable, these bytes
    /// read back as the frame, with nothing left over.
    pub fn encode(&self) -> (bytes: Vec<u8>)
        ensures
            bytes@ == self@.wire(),
            self@.sendable() ==> decode(bytes@) == Decoded::Complete(self@, bytes@.len() as int),
    {
        let mut bytes: Vec<u8> = Vec::new();
        self.write_to(&mut bytes);
        proof {
            if self@.sendable() {
                theorem_write_then_read(self@);
            }
        }
        bytes
    }
}

} // verus!
