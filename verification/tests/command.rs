use bytes::Bytes;
use my_redis::command::{spells_word, Command, ParseError};
use my_redis::frame::Frame;

fn bulk(bytes: &'static [u8]) -> Frame {
    Frame::Bulk(Bytes::from_static(bytes))
}

fn simple(text: &str) -> Frame {
    Frame::Simple(text.to_string())
}

fn get(key: &str) -> Command {
    Command::Get { key: key.to_string() }
}

fn set(key: &str, value: &'static [u8]) -> Command {
    Command::SetValue { key: key.to_string(), value: Bytes::from_static(value) }
}

#[test]
fn get_takes_a_key() {
    let frame = Frame::Array(vec![bulk(b"GET"), bulk(b"hello")]);
    assert_eq!(Command::from_frame(frame), Ok(get("hello")));
}

#[test]
fn set_takes_a_key_and_a_value() {
    let frame = Frame::Array(vec![bulk(b"SET"), bulk(b"hello"), bulk(b"wor\x00ld")]);
    assert_eq!(Command::from_frame(frame), Ok(set("hello", b"wor\x00ld")));
}

#[test]
fn names_are_matched_without_regard_to_case() {
    for name in [&b"get"[..], b"GET", b"Get", b"gEt", b"geT"] {
        let frame = Frame::Array(vec![Frame::Bulk(Bytes::copy_from_slice(name)), bulk(b"k")]);
        assert_eq!(Command::from_frame(frame), Ok(get("k")));
    }
    for name in ["set", "SET", "Set", "sEt", "seT"] {
        let frame = Frame::Array(vec![simple(name), bulk(b"k"), bulk(b"v")]);
        assert_eq!(Command::from_frame(frame), Ok(set("k", b"v")));
    }
}

#[test]
fn simple_frames_are_taken_as_arguments() {
    let frame = Frame::Array(vec![simple("get"), simple("kéy")]);
    assert_eq!(Command::from_frame(frame), Ok(get("kéy")));
    let frame = Frame::Array(vec![simple("set"), simple("k"), simple("vé")]);
    assert_eq!(
        Command::from_frame(frame),
        Ok(Command::SetValue { key: "k".to_string(), value: Bytes::from("vé".as_bytes()) })
    );
}

#[test]
fn a_frame_that_is_not_an_array_is_refused() {
    assert_eq!(Command::from_frame(simple("GET")), Err(ParseError::NotArray));
    assert_eq!(Command::from_frame(bulk(b"GET")), Err(ParseError::NotArray));
    assert_eq!(Command::from_frame(Frame::Integer(1)), Err(ParseError::NotArray));
    assert_eq!(Command::from_frame(Frame::Null), Err(ParseError::NotArray));
    assert_eq!(Command::from_frame(Frame::Error("x".to_string())), Err(ParseError::NotArray));
}

#[test]
fn an_array_that_ends_too_early_is_refused() {
    assert_eq!(Command::from_frame(Frame::Array(vec![])), Err(ParseError::EndOfStream));
    assert_eq!(Command::from_frame(Frame::Array(vec![bulk(b"GET")])), Err(ParseError::EndOfStream));
    assert_eq!(Command::from_frame(Frame::Array(vec![bulk(b"SET")])), Err(ParseError::EndOfStream));
    assert_eq!(
        Command::from_frame(Frame::Array(vec![bulk(b"SET"), bulk(b"k")])),
        Err(ParseError::EndOfStream)
    );
}

#[test]
fn an_array_that_goes_on_too_long_is_refused() {
    assert_eq!(
        Command::from_frame(Frame::Array(vec![bulk(b"GET"), bulk(b"k"), bulk(b"x")])),
        Err(ParseError::TrailingFrames)
    );
    assert_eq!(
        Command::from_frame(Frame::Array(vec![
            bulk(b"SET"),
            bulk(b"k"),
            bulk(b"v"),
            bulk(b"EX"),
            Frame::Integer(10),
        ])),
        Err(ParseError::TrailingFrames)
    );
}

#[test]
fn an_item_of_the_wrong_type_is_refused() {
    assert_eq!(
        Command::from_frame(Frame::Array(vec![Frame::Integer(1), bulk(b"k")])),
        Err(ParseError::WrongType)
    );
    assert_eq!(
        Command::from_frame(Frame::Array(vec![Frame::Null])),
        Err(ParseError::WrongType)
    );
    assert_eq!(
        Command::from_frame(Frame::Array(vec![bulk(b"GET"), Frame::Array(vec![])])),
        Err(ParseError::WrongType)
    );
    assert_eq!(
        Command::from_frame(Frame::Array(vec![bulk(b"SET"), bulk(b"k"), Frame::Integer(5)])),
        Err(ParseError::WrongType)
    );
    assert_eq!(
        Command::from_frame(Frame::Array(vec![bulk(b"SET"), Frame::Null, Frame::Integer(5)])),
        Err(ParseError::WrongType)
    );
}

#[test]
fn a_name_or_key_that_is_not_text_is_refused() {
    assert_eq!(
        Command::from_frame(Frame::Array(vec![bulk(b"\xff\xfe"), bulk(b"k")])),
        Err(ParseError::InvalidText)
    );
    assert_eq!(
        Command::from_frame(Frame::Array(vec![bulk(b"GET"), bulk(b"k\xff")])),
        Err(ParseError::InvalidText)
    );
    assert_eq!(
        Command::from_frame(Frame::Array(vec![bulk(b"SET"), bulk(b"\xc3"), bulk(b"v")])),
        Err(ParseError::InvalidText)
    );
}

#[test]
fn the_first_thing_wrong_decides() {
    assert_eq!(
        Command::from_frame(Frame::Array(vec![bulk(b"GET"), Frame::Integer(1), bulk(b"x")])),
        Err(ParseError::WrongType)
    );
    assert_eq!(
        Command::from_frame(Frame::Array(vec![bulk(b"SET"), bulk(b"\xff"), Frame::Null, bulk(b"x")])),
        Err(ParseError::InvalidText)
    );
}

#[test]
fn an_unknown_name_is_told_apart() {
    assert_eq!(
        Command::from_frame(Frame::Array(vec![bulk(b"DEL"), bulk(b"x")])),
        Err(ParseError::Unknown("DEL".to_string()))
    );
    assert_eq!(
        Command::from_frame(Frame::Array(vec![simple("ping")])),
        Err(ParseError::Unknown("ping".to_string()))
    );
    assert_eq!(
        Command::from_frame(Frame::Array(vec![bulk(b""), bulk(b"x")])),
        Err(ParseError::Unknown("".to_string()))
    );
    assert_eq!(
        Command::from_frame(Frame::Array(vec![bulk(b"GETS"), bulk(b"x")])),
        Err(ParseError::Unknown("GETS".to_string()))
    );
    assert_eq!(
        Command::from_frame(Frame::Array(vec![bulk(b"ge"), bulk(b"x")])),
        Err(ParseError::Unknown("ge".to_string()))
    );
    assert_eq!(
        Command::from_frame(Frame::Array(vec![simple("ſet"), bulk(b"k"), bulk(b"v")])),
        Err(ParseError::Unknown("ſet".to_string()))
    );
}

#[test]
fn a_request_parses_back_to_its_command() {
    assert_eq!(
        get("hello").into_frame(),
        Frame::Array(vec![bulk(b"get"), bulk(b"hello")])
    );
    assert_eq!(
        set("hello", b"world").into_frame(),
        Frame::Array(vec![bulk(b"set"), bulk(b"hello"), bulk(b"world")])
    );
    assert_eq!(Command::from_frame(get("kéy").into_frame()), Ok(get("kéy")));
    assert_eq!(
        Command::from_frame(set("k", b"\x00\r\n\xff").into_frame()),
        Ok(set("k", b"\x00\r\n\xff"))
    );
}

#[test]
fn a_command_knows_its_key() {
    assert_eq!(get("a").key(), "a");
    assert_eq!(set("b", b"v").key(), "b");
}

#[test]
fn every_error_has_its_message() {
    assert_eq!(ParseError::NotArray.message(), "ERR protocol error; expected array");
    assert_eq!(
        ParseError::EndOfStream.message(),
        "ERR protocol error; unexpected end of stream"
    );
    assert_eq!(
        ParseError::WrongType.message(),
        "ERR protocol error; expected simple frame or bulk frame"
    );
    assert_eq!(ParseError::InvalidText.message(), "ERR protocol error; invalid string");
    assert_eq!(
        ParseError::TrailingFrames.message(),
        "ERR protocol error; expected end of frame, but there was more"
    );
    assert_eq!(
        ParseError::Unknown("DEL".to_string()).message(),
        "ERR unknown command 'DEL'"
    );
}

#[test]
fn words_are_spelled_in_any_case() {
    assert!(spells_word(b"get", b"get"));
    assert!(spells_word(b"GeT", b"get"));
    assert!(spells_word(b"", b""));
    assert!(!spells_word(b"get", b"set"));
    assert!(!spells_word(b"ge", b"get"));
    assert!(!spells_word(b"gett", b"get"));
    assert!(!spells_word(b"g\x45\x54", b"gEt"));
    assert!(!spells_word(b"[et", b"{et"));
    assert!(!spells_word(b"@et", b"`et"));
}
