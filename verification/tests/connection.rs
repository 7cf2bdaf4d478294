use bytes::Bytes;
use my_redis::codec::ProtocolError;
use my_redis::connection::{Connection, ReadError, Received};
use my_redis::frame::Frame;

fn bulk(bytes: &'static [u8]) -> Frame {
    Frame::Bulk(Bytes::from_static(bytes))
}

#[test]
fn nothing_received_needs_more() {
    let mut connection = Connection::new();
    assert_eq!(connection.pending_len(), 0);
    assert_eq!(connection.read_frame(), Ok(Received::NeedMore));
}

#[test]
fn a_clean_end_is_not_an_error() {
    let mut connection = Connection::new();
    connection.end_of_stream();
    assert_eq!(connection.read_frame(), Ok(Received::Closed));
    assert_eq!(connection.read_frame(), Ok(Received::Closed));
}

#[test]
fn a_clean_end_behind_a_frame() {
    let mut connection = Connection::new();
    connection.receive(b"+OK\r\n");
    connection.end_of_stream();
    assert_eq!(connection.read_frame(), Ok(Received::Frame(Frame::Simple("OK".to_string()))));
    assert_eq!(connection.read_frame(), Ok(Received::Closed));
}

#[test]
fn an_end_inside_a_frame_is_a_reset() {
    let mut connection = Connection::new();
    connection.receive(b"$5\r\nwor");
    assert_eq!(connection.read_frame(), Ok(Received::NeedMore));
    connection.end_of_stream();
    assert_eq!(connection.read_frame(), Err(ReadError::ConnectionReset));
    assert_eq!(connection.pending_len(), 7);
}

#[test]
fn malformed_bytes_are_a_protocol_error() {
    let mut connection = Connection::new();
    connection.receive(b"+OK\r\nhello\r\n");
    assert_eq!(connection.read_frame(), Ok(Received::Frame(Frame::Simple("OK".to_string()))));
    assert_eq!(
        connection.read_frame(),
        Err(ReadError::Protocol(ProtocolError::UnknownTag(b'h')))
    );
    assert_eq!(
        connection.read_frame(),
        Err(ReadError::Protocol(ProtocolError::UnknownTag(b'h')))
    );
    assert_eq!(connection.pending_len(), 7);
}

#[test]
fn a_bulk_frame_one_byte_at_a_time() {
    let frame = bulk(b"hello\r\nworld");
    let wire = frame.encode();
    let mut connection = Connection::new();
    for (i, byte) in wire.iter().enumerate() {
        connection.receive(&[*byte]);
        if i + 1 < wire.len() {
            assert_eq!(connection.read_frame(), Ok(Received::NeedMore));
            assert_eq!(connection.pending_len(), i + 1);
        }
    }
    assert_eq!(connection.read_frame(), Ok(Received::Frame(frame)));
    assert_eq!(connection.pending_len(), 0);
    assert_eq!(connection.read_frame(), Ok(Received::NeedMore));
}

#[test]
fn a_frame_in_chunks_of_every_size() {
    let frame = Frame::Array(vec![bulk(b"SET"), bulk(b"hello"), bulk(b"w\r\norld"), Frame::Null]);
    let wire = frame.encode();
    for size in 1..=wire.len() {
        let mut connection = Connection::new();
        let mut fed = 0;
        for chunk in wire.chunks(size) {
            connection.receive(chunk);
            fed += chunk.len();
            if fed < wire.len() {
                assert_eq!(connection.read_frame(), Ok(Received::NeedMore));
            }
        }
        assert_eq!(connection.read_frame(), Ok(Received::Frame(frame.clone())));
        assert_eq!(connection.pending_len(), 0);
    }
}

#[test]
fn frames_that_arrive_together_are_read_one_by_one() {
    let mut connection = Connection::new();
    connection.receive(b"+one\r\n:2\r\n$5\r\nthree\r\n$-1\r\n*1\r\n+fi");
    assert_eq!(connection.read_frame(), Ok(Received::Frame(Frame::Simple("one".to_string()))));
    assert_eq!(connection.read_frame(), Ok(Received::Frame(Frame::Integer(2))));
    assert_eq!(connection.read_frame(), Ok(Received::Frame(bulk(b"three"))));
    assert_eq!(connection.read_frame(), Ok(Received::Frame(Frame::Null)));
    assert_eq!(connection.read_frame(), Ok(Received::NeedMore));
    assert_eq!(connection.pending_len(), 7);
    connection.receive(b"ve\r\n+six\r\n");
    assert_eq!(
        connection.read_frame(),
        Ok(Received::Frame(Frame::Array(vec![Frame::Simple("five".to_string())])))
    );
    assert_eq!(connection.read_frame(), Ok(Received::Frame(Frame::Simple("six".to_string()))));
    assert_eq!(connection.read_frame(), Ok(Received::NeedMore));
    assert_eq!(connection.pending_len(), 0);
}

#[test]
fn receive_adds_to_what_is_pending() {
    let mut connection = Connection::new();
    connection.receive(b"");
    assert_eq!(connection.pending_len(), 0);
    connection.receive(b"+a");
    connection.receive(b"");
    connection.receive(b"b\r");
    assert_eq!(connection.pending_len(), 4);
    connection.receive(b"\n+");
    assert_eq!(connection.read_frame(), Ok(Received::Frame(Frame::Simple("ab".to_string()))));
    assert_eq!(connection.pending_len(), 1);
}
