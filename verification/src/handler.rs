//! Serving one connection: executing requests against the store, and the
//! states that a connection goes through while it is served.
//!
//! The driver owns the socket. It does what [`State::action`] asks for, tells
//! the state what came of it with [`State::on_event`], and, when asked to
//! dispatch, calls [`State::dispatch`] while it holds the store. No step here
//! waits for anything, so the store is never held across a suspension.

use crate::command::{parse_command, Command, CommandView, ParseError, ParseErrorView};
use crate::connection::ReadError;
use crate::frame::{Frame, FrameView};
use crate::line::{lemma_no_cr_no_crlf, no_crlf, CR};
use crate::store::KeyValue;
use vstd::prelude::*;
use vstd::string::StringExecFns;
use vstd::utf8::{encode_utf8, is_ascii_chars, is_ascii_chars_encode_utf8};

verus! {

/// The text that acknowledges a `SET`.
pub open spec fn ok_text() -> Seq<char> {
    "OK"@
}

/// The message sent in place of one that could not be sent as it is.
pub open spec fn plain_error_text() -> Seq<char> {
    "ERR invalid request"@
}

/// The frame that answers a request that is no command: an error frame with
/// the message of the error, or, where that message could not be sent as one
/// line, with a plain one.
pub open spec fn error_reply(e: ParseErrorView) -> FrameView {
    if no_crlf(encode_utf8(e.message())) {
        FrameView::Error(e.message())
    } else {
        FrameView::Error(plain_error_text())
    }
}

/// What a command does to the store, and the frame that answers it.
pub open spec fn applied(store: Map<Seq<char>, Seq<u8>>, command: CommandView) -> (
    Map<Seq<char>, Seq<u8>>,
    FrameView,
) {
    match command {
        CommandView::Get { key } => (
            store,
            if store.contains_key(key) {
                FrameView::Bulk(store[key])
            } else {
                FrameView::Null
            },
        ),
        CommandView::SetValue { key, value } => (
            store.insert(key, value),
            FrameView::Simple(ok_text()),
        ),
    }
}

/// What a request does to the store, and the frame that answers it. A
/// request that is no command leaves the store as it is.
pub open spec fn executed(store: Map<Seq<char>, Seq<u8>>, request: FrameView) -> (
    Map<Seq<char>, Seq<u8>>,
    FrameView,
) {
    match parse_command(request) {
        Ok(command) => applied(store, command),
        Err(e) => (store, error_reply(e)),
    }
}

/// Plain ASCII text without a CR is one line.
pub proof fn lemma_ascii_text_is_one_line(text: Seq<char>)
    requires
        is_ascii_chars(text),
        forall|i: int| 0 <= i < text.len() ==> #[trigger] text[i] != '\r',
    ensures
        no_crlf(encode_utf8(text)),
{
    is_ascii_chars_encode_utf8(text);
    let bytes = encode_utf8(text);
    assert forall|i: int| 0 <= i < bytes.len() implies #[trigger] bytes[i] != CR by {
        assert(text[i] as u8 == bytes[i]);
        assert(text[i] != '\r');
    }
    lemma_no_cr_no_crlf(bytes);
}

/// The acknowledgement and the plain error message can be sent.
pub proof fn lemma_fixed_replies_are_sendable()
    ensures
        FrameView::Simple(ok_text()).sendable(),
        FrameView::Error(plain_error_text()).sendable(),
{
    reveal_strlit("OK");
    reveal_strlit("ERR invalid request");
    lemma_ascii_text_is_one_line(ok_text());
    lemma_ascii_text_is_one_line(plain_error_text());
}

/// Applies a command to the store and returns the reply.
pub fn apply<S: KeyValue>(store: &mut S, command: Command) -> (reply: Frame)
    requires
        old(store).usable(),
    ensures
        final(store).usable(),
        final(store).entries() == applied(old(store).entries(), command@).0,
        reply@ == applied(old(store).entries(), command@).1,
        reply@.sendable(),
{
    match command {
        Command::Get { key } => match store.get(key.as_str()) {
            Some(value) => {
                // A payload in memory is never longer than a length field
                // can say.
                let len = value.len();
                assert(len <= u64::MAX);
                Frame::Bulk(value)
            },
            None => Frame::Null,
        },
        Command::SetValue { key, value } => {
            store.set(key, value);
            proof {
                lemma_fixed_replies_are_sendable();
            }
            Frame::Simple(String::from_str("OK"))
        },
    }
}

/// The frame that tells the peer why its request was not served.
pub fn refuse(error: &ParseError) -> (reply: Frame)
    ensures
        reply@ == error_reply(error@),
        reply@.sendable(),
{
    let reply = Frame::Error(error.message());
    if reply.is_sendable() {
        reply
    } else {
        proof {
            lemma_fixed_replies_are_sendable();
        }
        Frame::Error(String::from_str("ERR invalid request"))
    }
}

/// Executes one request against the store and returns the reply.
///
/// A `GET` is answered with the stored value as a bulk frame, or with `Null`
/// where the key holds none; a `SET` stores the value and is answered with
/// `OK`. A frame that is no command is answered with an error frame and does
/// not touch the store.
pub fn execute<S: KeyValue>(store: &mut S, request: Frame) -> (reply: Frame)
    requires
        old(store).usable(),
    ensures
        final(store).usable(),
        final(store).entries() == executed(old(store).entries(), request@).0,
        reply@ == executed(old(store).entries(), request@).1,
        reply@.sendable(),
{
    match Command::from_frame(request) {
        Ok(command) => apply(store, command),
        Err(error) => refuse(&error),
    }
}

/// What went wrong on a connection.
#[derive(Clone, Copy, Debug, PartialEq, Eq, Structural)]
pub enum Failure {
    /// No further frame could be read from what the peer sent.
    Read(ReadError),
    /// The transport failed while reading or writing.
    Io,
}

/// How serving a connection ended.
#[derive(Clone, Copy, Debug, PartialEq, Eq, Structural)]
pub enum Ending {
    /// The peer closed the stream between two frames.
    PeerClosed,
    /// Reading or writing failed.
    Failed(Failure),
    /// The driver reported something that the state was not waiting for.
    OutOfTurn,
}

/// What the driver reports.
#[derive(Debug, PartialEq)]
pub enum Event {
    /// A frame was read.
    FrameRead(Frame),
    /// The stream ended between two frames.
    StreamClosed,
    /// The response was written and flushed.
    Written,
    /// Reading or writing failed.
    Failed(Failure),
}

/// Where the serving of a connection stands.
#[derive(Debug, PartialEq)]
pub enum State {
    /// Waiting for the next request.
    AwaitingFrame,
    /// A request has been read and waits to be executed.
    Dispatching(Frame),
    /// A reply waits to be written.
    Responding(Frame),
    /// The connection is no longer served.
    Closed(Ending),
}

/// What the driver is to do next.
#[derive(Debug, PartialEq)]
pub enum Action {
    /// Read the next frame, and report it, the end of the stream or the
    /// failure.
    ReadFrame,
    /// Take hold of the store and call `dispatch`.
    Dispatch,
    /// Write these bytes and flush, and report `Written` or the failure.
    WriteFrame(Vec<u8>),
    /// Drop the connection.
    Close(Ending),
}

/// What an event is, as a mathematical value.
pub enum EventView {
    FrameRead(FrameView),
    StreamClosed,
    Written,
    Failed(Failure),
}

/// What a state is, as a mathematical value.
pub enum StateView {
    AwaitingFrame,
    Dispatching(FrameView),
    Responding(FrameView),
    Closed(Ending),
}

/// What an action is, as a mathematical value.
pub enum ActionView {
    ReadFrame,
    Dispatch,
    WriteFrame(Seq<u8>),
    Close(Ending),
}

impl View for Event {
    type V = EventView;

    open spec fn view(&self) -> EventView {
        match self {
            Event::FrameRead(f) => EventView::FrameRead(f@),
            Event::StreamClosed => EventView::StreamClosed,
            Event::Written => EventView::Written,
            Event::Failed(x) => EventView::Failed(*x),
        }
    }
}

impl View for State {
    type V = StateView;

    open spec fn view(&self) -> StateView {
        match self {
            State::AwaitingFrame => StateView::AwaitingFrame,
            State::Dispatching(f) => StateView::Dispatching(f@),
            State::Responding(f) => StateView::Responding(f@),
            State::Closed(e) => StateView::Closed(*e),
        }
    }
}

impl View for Action {
    type V = ActionView;

    open spec fn view(&self) -> ActionView {
        match self {
            Action::ReadFrame => ActionView::ReadFrame,
            Action::Dispatch => ActionView::Dispatch,
            Action::WriteFrame(bytes) => ActionView::WriteFrame(bytes@),
            Action::Close(e) => ActionView::Close(*e),
        }
    }
}

impl StateView {
    /// The state after an event.
    ///
    /// While a frame is awaited, a frame read leads to dispatching, the end
    /// of the stream to a clean close, a failure to a close with that
    /// failure. While a reply is being written, its completion leads back to
    /// awaiting the next frame, a failure to a close. A closed connection
    /// stays closed. Anything else is out of turn and closes the connection.
    pub open spec fn after(self, event: EventView) -> StateView {
        match (self, event) {
            (StateView::Closed(e), _) => StateView::Closed(e),
            (StateView::AwaitingFrame, EventView::FrameRead(f)) => StateView::Dispatching(f),
            (StateView::AwaitingFrame, EventView::StreamClosed) => StateView::Closed(
                Ending::PeerClosed,
            ),
            (StateView::AwaitingFrame, EventView::Failed(x)) => StateView::Closed(
                Ending::Failed(x),
            ),
            (StateView::Responding(_), EventView::Written) => StateView::AwaitingFrame,
            (StateView::Responding(_), EventView::Failed(x)) => StateView::Closed(
                Ending::Failed(x),
            ),
            _ => StateView::Closed(Ending::OutOfTurn),
        }
    }

    /// The state and the store after a dispatch: the request is executed and
    /// its reply waits to be written. In any other state nothing changes.
    pub open spec fn dispatched(self, store: Map<Seq<char>, Seq<u8>>) -> (
        StateView,
        Map<Seq<char>, Seq<u8>>,
    ) {
        match self {
            StateView::Dispatching(f) => (
                StateView::Responding(executed(store, f).1),
                executed(store, f).0,
            ),
            other => (other, store),
        }
    }

    /// What the driver is to do in this state.
    pub open spec fn action(self) -> ActionView {
        match self {
            StateView::AwaitingFrame => ActionView::ReadFrame,
            StateView::Dispatching(_) => ActionView::Dispatch,
            StateView::Responding(f) => ActionView::WriteFrame(f.wire()),
            StateView::Closed(e) => ActionView::Close(e),
        }
    }

    /// Every reply that waits to be written can be sent.
    pub open spec fn well_formed(self) -> bool {
        match self {
            StateView::Responding(f) => f.sendable(),
            _ => true,
        }
    }
}

impl State {
    /// The state of a connection that has just been accepted.
    pub fn start() -> (state: State)
        ensures
            state@ == StateView::AwaitingFrame,
    {
        State::AwaitingFrame
    }

    /// The state after an event.
    pub fn on_event(self, event: Event) -> (next: State)
        ensures
            next@ == self@.after(event@),
            self@.well_formed() ==> next@.well_formed(),
    {
        match self {
            State::Closed(e) => State::Closed(e),
            State::AwaitingFrame => match event {
                Event::FrameRead(f) => State::Dispatching(f),
                Event::StreamClosed => State::Closed(Ending::PeerClosed),
                Event::Failed(x) => State::Closed(Ending::Failed(x)),
                Event::Written => State::Closed(Ending::OutOfTurn),
            },
            State::Responding(_) => match event {
                Event::Written => State::AwaitingFrame,
                Event::Failed(x) => State::Closed(Ending::Failed(x)),
                _ => State::Closed(Ending::OutOfTurn),
            },
            State::Dispatching(_) => State::Closed(Ending::OutOfTurn),
        }
    }

    /// Executes the request that waits to be dispatched.
    pub fn dispatch<S: KeyValue>(self, store: &mut S) -> (next: State)
        requires
            old(store).usable(),
        ensures
            final(store).usable(),
            next@ == self@.dispatched(old(store).entries()).0,
            final(store).entries() == self@.dispatched(old(store).entries()).1,
            self@.well_formed() ==> next@.well_formed(),
    {
        match self {
            State::Dispatching(request) => State::Responding(execute(store, request)),
            other => other,
        }
    }

    /// What the driver is to do next.
    pub fn action(&self) -> (action: Action)
        ensures
            action@ == self@.action(),
    {
        match self {
            State::AwaitingFrame => Action::ReadFrame,
            State::Dispatching(_) => Action::Dispatch,
            State::Responding(reply) => Action::WriteFrame(reply.encode()),
            State::Closed(e) => Action::Close(*e),
        }
    }

    /// Tells whether the connection is no longer served.
    pub fn is_closed(&self) -> (r: bool)
        ensures
            r == (self@ is Closed),
    {
        match self {
            State::Closed(_) => true,
            _ => false,
        }
    }
}

} // verus!
