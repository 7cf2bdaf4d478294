//! Commands: what a request frame asks for.
//!
//! A request is an array. Its first item names the command, in any mix of
//! upper and lower case; the items behind it are the arguments. `GET` takes
//! a key, `SET` a key and a value.

use crate::frame::{Frame, FrameView};
use crate::payload::contents;
use crate::text::text_of;
use bytes::Bytes;
use vstd::prelude::*;
use vstd::string::StringExecFns;
use vstd::utf8::{decode_utf8, encode_utf8, valid_utf8};

verus! {

/// A request that the store can serve.
#[derive(Debug, PartialEq)]
pub enum Command {
    /// Read the value stored under `key`.
    Get { key: String },
    /// Store `value` under `key`.
    SetValue { key: String, value: Bytes },
}

/// What a command is, as a mathematical value.
pub enum CommandView {
    Get { key: Seq<char> },
    SetValue { key: Seq<char>, value: Seq<u8> },
}

impl View for Command {
    type V = CommandView;

    open spec fn view(&self) -> CommandView {
        match self {
            Command::Get { key } => CommandView::Get { key: key@ },
            Command::SetValue { key, value } => CommandView::SetValue { key: key@, value: contents(*value) },
        }
    }
}

/// Why a frame is not a command that the store can serve.
#[derive(Debug, PartialEq)]
pub enum ParseError {
    /// The frame is not an array.
    NotArray,
    /// The array ends where the command name or an argument is due.
    EndOfStream,
    /// The name or an argument is neither a simple nor a bulk frame.
    WrongType,
    /// A bulk frame stands where text is due, and it is not UTF-8.
    InvalidText,
    /// The array goes on behind the last argument.
    TrailingFrames,
    /// The name is that of no known command.
    Unknown(String),
}

/// What a parse error is, as a mathematical value.
pub enum ParseErrorView {
    NotArray,
    EndOfStream,
    WrongType,
    InvalidText,
    TrailingFrames,
    Unknown(Seq<char>),
}

impl View for ParseError {
    type V = ParseErrorView;

    open spec fn view(&self) -> ParseErrorView {
        match self {
            ParseError::NotArray => ParseErrorView::NotArray,
            ParseError::EndOfStream => ParseErrorView::EndOfStream,
            ParseError::WrongType => ParseErrorView::WrongType,
            ParseError::InvalidText => ParseErrorView::InvalidText,
            ParseError::TrailingFrames => ParseErrorView::TrailingFrames,
            ParseError::Unknown(name) => ParseErrorView::Unknown(name@),
        }
    }
}

impl ParseErrorView {
    /// The message that tells the peer what was wrong.
    pub open spec fn message(self) -> Seq<char> {
        match self {
            ParseErrorView::NotArray => "ERR protocol error; expected array"@,
            ParseErrorView::EndOfStream => "ERR protocol error; unexpected end of stream"@,
            ParseErrorView::WrongType => "ERR protocol error; expected simple frame or bulk frame"@,
            ParseErrorView::InvalidText => "ERR protocol error; invalid string"@,
            ParseErrorView::TrailingFrames => "ERR protocol error; expected end of frame, but there was more"@,
            ParseErrorView::Unknown(name) => "ERR unknown command '"@ + name + "'"@,
        }
    }
}

impl ParseError {
    /// The message that tells the peer what was wrong.
    pub fn message(&self) -> (text: String)
        ensures
            text@ == self@.message(),
    {
        match self {
            ParseError::NotArray => String::from_str("ERR protocol error; expected array"),
            ParseError::EndOfStream => String::from_str(
                "ERR protocol error; unexpected end of stream",
            ),
            ParseError::WrongType => String::from_str(
                "ERR protocol error; expected simple frame or bulk frame",
            ),
            ParseError::InvalidText => String::from_str("ERR protocol error; invalid string"),
            ParseError::TrailingFrames => String::from_str(
                "ERR protocol error; expected end of frame, but there was more",
            ),
            ParseError::Unknown(name) => {
                let mut text = String::from_str("ERR unknown command '");
                text.append(name.as_str());
                text.append("'");
                text
            },
        }
    }
}

impl CommandView {
    /// The frame that asks for the command.
    pub open spec fn request(self) -> FrameView {
        match self {
            CommandView::Get { key } => FrameView::Array(
                seq![FrameView::Bulk(get_word()), FrameView::Bulk(encode_utf8(key))],
            ),
            CommandView::SetValue { key, value } => FrameView::Array(
                seq![
                    FrameView::Bulk(set_word()),
                    FrameView::Bulk(encode_utf8(key)),
                    FrameView::Bulk(value),
                ],
            ),
        }
    }
}

/// The view of what parsing returns.
pub open spec fn parsed_view(r: Result<Command, ParseError>) -> Result<
    CommandView,
    ParseErrorView,
> {
    match r {
        Ok(c) => Ok(c@),
        Err(e) => Err(e@),
    }
}

/// The lower-case form of an ASCII letter; any other byte is left as it is.
pub open spec fn ascii_lower(b: u8) -> u8 {
    if 65 <= b <= 90 {
        (b + 32) as u8
    } else {
        b
    }
}

/// `text` spells the lower-case `word`, in any mix of upper and lower case.
pub open spec fn spells(text: Seq<u8>, word: Seq<u8>) -> bool {
    text.len() == word.len() && forall|i: int|
        0 <= i < text.len() ==> ascii_lower(#[trigger] text[i]) == word[i]
}

/// The bytes of `get`.
pub open spec fn get_word() -> Seq<u8> {
    seq![103u8, 101u8, 116u8]
}

/// The bytes of `set`.
pub open spec fn set_word() -> Seq<u8> {
    seq![115u8, 101u8, 116u8]
}

/// The text that item `i` of a request gives.
pub open spec fn text_at(items: Seq<FrameView>, i: int) -> Result<Seq<char>, ParseErrorView> {
    if i >= items.len() {
        Err(ParseErrorView::EndOfStream)
    } else {
        match items[i] {
            FrameView::Simple(s) => Ok(s),
            FrameView::Bulk(b) => if valid_utf8(b) {
                Ok(decode_utf8(b))
            } else {
                Err(ParseErrorView::InvalidText)
            },
            _ => Err(ParseErrorView::WrongType),
        }
    }
}

/// The bytes that item `i` of a request gives.
pub open spec fn bytes_at(items: Seq<FrameView>, i: int) -> Result<Seq<u8>, ParseErrorView> {
    if i >= items.len() {
        Err(ParseErrorView::EndOfStream)
    } else {
        match items[i] {
            FrameView::Simple(s) => Ok(encode_utf8(s)),
            FrameView::Bulk(b) => Ok(b),
            _ => Err(ParseErrorView::WrongType),
        }
    }
}

/// The command that the arguments of a `GET` give.
pub open spec fn parse_get(items: Seq<FrameView>) -> Result<CommandView, ParseErrorView> {
    match text_at(items, 1) {
        Ok(key) => if items.len() > 2 {
            Err(ParseErrorView::TrailingFrames)
        } else {
            Ok(CommandView::Get { key })
        },
        Err(e) => Err(e),
    }
}

/// The command that the arguments of a `SET` give.
pub open spec fn parse_set(items: Seq<FrameView>) -> Result<CommandView, ParseErrorView> {
    match text_at(items, 1) {
        Ok(key) => match bytes_at(items, 2) {
            Ok(value) => if items.len() > 3 {
                Err(ParseErrorView::TrailingFrames)
            } else {
                Ok(CommandView::SetValue { key, value })
            },
            Err(e) => Err(e),
        },
        Err(e) => Err(e),
    }
}

/// The command that a frame asks for, or why it asks for none.
///
/// The items are read from the left, and the first thing wrong decides the
/// error.
pub open spec fn parse_command(f: FrameView) -> Result<CommandView, ParseErrorView> {
    match f {
        FrameView::Array(items) => match text_at(items, 0) {
            Ok(name) => if spells(encode_utf8(name), get_word()) {
                parse_get(items)
            } else if spells(encode_utf8(name), set_word()) {
                parse_set(items)
            } else {
                Err(ParseErrorView::Unknown(name))
            },
            Err(e) => Err(e),
        },
        _ => Err(ParseErrorView::NotArray),
    }
}

/// The two command names are text, and each spells itself and not the
/// other.
pub proof fn lemma_command_words()
    ensures
        valid_utf8(get_word()),
        valid_utf8(set_word()),
        encode_utf8(decode_utf8(get_word())) == get_word(),
        encode_utf8(decode_utf8(set_word())) == set_word(),
        spells(get_word(), get_word()),
        spells(set_word(), set_word()),
        !spells(set_word(), get_word()),
{
    let get = seq!['g', 'e', 't'];
    let set = seq!['s', 'e', 't'];
    vstd::utf8::is_ascii_chars_encode_utf8(get);
    vstd::utf8::is_ascii_chars_encode_utf8(set);
    assert(encode_utf8(get) =~= get_word());
    assert(encode_utf8(set) =~= set_word());
    vstd::utf8::encode_utf8_valid_utf8(get);
    vstd::utf8::encode_utf8_valid_utf8(set);
    vstd::utf8::decode_utf8_encode_utf8(get_word());
    vstd::utf8::decode_utf8_encode_utf8(set_word());
    assert(ascii_lower(set_word()[0]) != get_word()[0]);
}

/// The frame that asks for a command parses back to that command.
pub proof fn theorem_request_parses_back(command: CommandView)
    ensures
        parse_command(command.request()) == Ok::<CommandView, ParseErrorView>(command),
{
    lemma_command_words();
    match command {
        CommandView::Get { key } => {
            vstd::utf8::encode_utf8_valid_utf8(key);
            vstd::utf8::encode_utf8_decode_utf8(key);
        },
        CommandView::SetValue { key, value } => {
            vstd::utf8::encode_utf8_valid_utf8(key);
            vstd::utf8::encode_utf8_decode_utf8(key);
        },
    }
}

/// Tells whether `text` spells `word`, case of ASCII letters aside.
pub fn spells_word(text: &[u8], word: &[u8]) -> (r: bool)
    ensures
        r == spells(text@, word@),
{
    if text.len() != word.len() {
        return false;
    }
    let mut i: usize = 0;
    while i < text.len()
        invariant
            i <= text.len(),
            text.len() == word.len(),
            forall|j: int| 0 <= j < i ==> ascii_lower(#[trigger] text@[j]) == word@[j],
        decreases text.len() - i,
    {
        let b = text[i];
        let lower = if 65 <= b && b <= 90 {
            b + 32
        } else {
            b
        };
        if lower != word[i] {
            assert(ascii_lower(text@[i as int]) != word@[i as int]);
            return false;
        }
        i += 1;
    }
    true
}

/// The name of the command that reads: `get`.
fn get_name() -> (word: Vec<u8>)
    ensures
        word@ == get_word(),
{
    let word = vec![103u8, 101u8, 116u8];
    assert(word@ == get_word());
    word
}

/// The name of the command that writes: `set`.
fn set_name() -> (word: Vec<u8>)
    ensures
        word@ == set_word(),
{
    let word = vec![115u8, 101u8, 116u8];
    assert(word@ == set_word());
    word
}

/// Reads item `i` of a request as text.
fn text_item(items: &Vec<Frame>, i: usize) -> (r: Result<String, ParseError>)
    ensures
        match r {
            Ok(s) => text_at(Frame::Array(*items)@->Array_0, i as int) == Ok::<
                Seq<char>,
                ParseErrorView,
            >(s@),
            Err(e) => text_at(Frame::Array(*items)@->Array_0, i as int) == Err::<
                Seq<char>,
                ParseErrorView,
            >(e@),
        },
{
    if i >= items.len() {
        return Err(ParseError::EndOfStream);
    }
    assert(Frame::Array(*items)@->Array_0[i as int] == items[i as int]@);
    match &items[i] {
        Frame::Simple(s) => Ok(s.clone()),
        Frame::Bulk(b) => match text_of(b.as_ref()) {
            Some(s) => Ok(s),
            None => Err(ParseError::InvalidText),
        },
        _ => Err(ParseError::WrongType),
    }
}

/// Reads item `i` of a request as bytes.
fn bytes_item(items: &Vec<Frame>, i: usize) -> (r: Result<Bytes, ParseError>)
    ensures
        match r {
            Ok(b) => bytes_at(Frame::Array(*items)@->Array_0, i as int) == Ok::<
                Seq<u8>,
                ParseErrorView,
            >(contents(b)),
            Err(e) => bytes_at(Frame::Array(*items)@->Array_0, i as int) == Err::<
                Seq<u8>,
                ParseErrorView,
            >(e@),
        },
{
    if i >= items.len() {
        return Err(ParseError::EndOfStream);
    }
    assert(Frame::Array(*items)@->Array_0[i as int] == items[i as int]@);
    match &items[i] {
        Frame::Simple(s) => Ok(Bytes::copy_from_slice(s.as_str().as_bytes())),
        Frame::Bulk(b) => Ok(b.clone()),
        _ => Err(ParseError::WrongType),
    }
}

impl Command {
    /// The command that `frame` asks for.
    ///
    /// Fails where the frame is not an array, where its first item does not
    /// name a known command, and where the items behind the name are not
    /// the arguments that the command takes.
    pub fn from_frame(frame: Frame) -> (r: Result<Command, ParseError>)
        ensures
            parsed_view(r) == parse_command(frame@),
    {
        let items = match frame {
            Frame::Array(items) => items,
            _ => {
                return Err(ParseError::NotArray);
            },
        };
        let name = match text_item(&items, 0) {
            Ok(name) => name,
            Err(e) => {
                return Err(e);
            },
        };
        let get = get_name();
        let set = set_name();
        if spells_word(name.as_str().as_bytes(), get.as_slice()) {
            let key = match text_item(&items, 1) {
                Ok(key) => key,
                Err(e) => {
                    return Err(e);
                },
            };
            if items.len() > 2 {
                return Err(ParseError::TrailingFrames);
            }
            Ok(Command::Get { key })
        } else if spells_word(name.as_str().as_bytes(), set.as_slice()) {
            let key = match text_item(&items, 1) {
                Ok(key) => key,
                Err(e) => {
                    return Err(e);
                },
            };
            let value = match bytes_item(&items, 2) {
                Ok(value) => value,
                Err(e) => {
                    return Err(e);
                },
            };
            if items.len() > 3 {
                return Err(ParseError::TrailingFrames);
            }
            Ok(Command::SetValue { key, value })
        } else {
            Err(ParseError::Unknown(name))
        }
    }

    /// The frame that asks for the command: an array of bulk frames, the
    /// name first.
    pub fn into_frame(self) -> (frame: Frame)
        ensures
            frame@ == self@.request(),
    {
        let mut items: Vec<Frame> = Vec::new();
        match self {
            Command::Get { key } => {
                let name = get_name();
                items.push(Frame::Bulk(Bytes::copy_from_slice(name.as_slice())));
                items.push(Frame::Bulk(Bytes::copy_from_slice(key.as_str().as_bytes())));
                proof {
                    let got = Frame::Array(items)@->Array_0;
                    let want = self@.request()->Array_0;
                    assert(got.len() == want.len());
                    assert(got[0] == items[0]@ && got[1] == items[1]@);
                    assert(got =~= want);
                }
            },
            Command::SetValue { key, value } => {
                let name = set_name();
                items.push(Frame::Bulk(Bytes::copy_from_slice(name.as_slice())));
                items.push(Frame::Bulk(Bytes::copy_from_slice(key.as_str().as_bytes())));
                items.push(Frame::Bulk(value));
                proof {
                    let got = Frame::Array(items)@->Array_0;
                    let want = self@.request()->Array_0;
                    assert(got.len() == want.len());
                    assert(got[0] == items[0]@ && got[1] == items[1]@ && got[2] == items[2]@);
                    assert(got =~= want);
                }
            },
        }
        Frame::Array(items)
    }

    /// The key that the command is about.
    pub fn key(&self) -> (key: &str)
        ensures
            key@ == match self@ {
                CommandView::Get { key } => key,
                CommandView::SetValue { key, .. } => key,
            },
    {
        match self {
            Command::Get { key } => key.as_str(),
            Command::SetValue { key, .. } => key.as_str(),
        }
    }
}

} // verus!
