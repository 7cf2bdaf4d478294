use bytes::Bytes;
use my_redis::command::Command;
use my_redis::frame::Frame;
use std::io::Cursor;

/// Reads `bytes` with the parser of `mini_redis`, which wants a whole frame.
fn read_with_mini_redis(bytes: &[u8]) -> (mini_redis::Frame, usize) {
    let mut cursor = Cursor::new(bytes);
    mini_redis::Frame::check(&mut cursor).expect("a whole frame");
    let used = cursor.position() as usize;
    cursor.set_position(0);
    let frame = mini_redis::Frame::parse(&mut cursor).expect("a frame");
    (frame, used)
}

/// The same frame in the type of this library, where there is one.
fn converted(frame: &mini_redis::Frame) -> Frame {
    match frame {
        mini_redis::Frame::Simple(text) => Frame::Simple(text.clone()),
        mini_redis::Frame::Error(text) => Frame::Error(text.clone()),
        mini_redis::Frame::Integer(n) => Frame::Integer(i64::try_from(*n).expect("in range")),
        mini_redis::Frame::Bulk(payload) => Frame::Bulk(payload.clone()),
        mini_redis::Frame::Null => Frame::Null,
        mini_redis::Frame::Array(items) => Frame::Array(items.iter().map(converted).collect()),
    }
}

#[test]
fn what_is_written_here_is_read_there() {
    let frames = vec![
        Frame::Simple("OK".to_string()),
        Frame::Error("ERR unknown command 'DEL'".to_string()),
        Frame::Integer(0),
        Frame::Integer(4711),
        Frame::Bulk(Bytes::from_static(b"wor\r\nld")),
        Frame::Bulk(Bytes::new()),
        Frame::Null,
        Frame::Array(vec![
            Frame::Bulk(Bytes::from_static(b"set")),
            Frame::Bulk(Bytes::from_static(b"hello")),
            Frame::Bulk(Bytes::from_static(b"world")),
        ]),
        Frame::Array(vec![Frame::Array(vec![Frame::Null]), Frame::Integer(1)]),
    ];
    for frame in frames {
        let wire = frame.encode();
        let (theirs, used) = read_with_mini_redis(&wire);
        assert_eq!(used, wire.len());
        assert_eq!(converted(&theirs), frame);
    }
}

#[test]
fn requests_written_here_are_commands_there() {
    let get = Command::Get { key: "hello".to_string() }.into_frame().encode();
    let (frame, _) = read_with_mini_redis(&get);
    match mini_redis::Command::from_frame(frame).expect("a command") {
        mini_redis::Command::Get(get) => assert_eq!(get.key(), "hello"),
        other => panic!("not a get: {:?}", other),
    }
    let set = Command::SetValue { key: "hello".to_string(), value: Bytes::from_static(b"world") }
        .into_frame()
        .encode();
    let (frame, _) = read_with_mini_redis(&set);
    match mini_redis::Command::from_frame(frame).expect("a command") {
        mini_redis::Command::Set(set) => {
            assert_eq!(set.key(), "hello");
            assert_eq!(set.value(), &Bytes::from_static(b"world"));
            assert_eq!(set.expire(), None);
        }
        other => panic!("not a set: {:?}", other),
    }
}

#[test]
fn negative_integers_are_read_here_only() {
    let wire = Frame::Integer(-5).encode();
    assert_eq!(wire, b":-5\r\n".to_vec());
    let mut cursor = Cursor::new(&wire[..]);
    assert!(mini_redis::Frame::check(&mut cursor).is_err());
    assert_eq!(my_redis::codec::parse_frame(&wire), Ok(Some((Frame::Integer(-5), 5))));
}
