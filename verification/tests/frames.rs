use kvstore::command::{Command, CommandType};
use kvstore::frame::FrameBuffer;
use kvstore::protocol::Response;
use kvstore::value::Value;
use kvstore::Error;

fn set_command_bytes() -> Vec<u8> {
    Command::set("maciek", Value::String("kowalski".into())).to_bytes()
}

#[test]
fn command_get_round_trips() {
    let bytes = Command::get("maciek").to_bytes();
    let mut buf = FrameBuffer::new();
    buf.feed(bytes.as_slice());
    let got = buf.try_read_command().unwrap().unwrap();
    assert_eq!(got, Command::get("maciek"));
    assert!(buf.is_empty());
}

#[test]
fn command_delete_round_trips() {
    let bytes = Command::delete("k").to_bytes();
    let mut buf = FrameBuffer::new();
    buf.feed(bytes.as_slice());
    let got = buf.try_read_command().unwrap().unwrap();
    assert_eq!(got, Command::delete("k"));
    assert!(buf.is_empty());
}

#[test]
fn command_set_round_trips() {
    let bytes = set_command_bytes();
    let mut buf = FrameBuffer::new();
    buf.feed(bytes.as_slice());
    let got = buf.try_read_command().unwrap().unwrap();
    assert_eq!(got.key, "maciek");
    match got.op {
        CommandType::SetValue { value } => {
            assert_eq!(value, Value::String("kowalski".into()));
        }
        other => panic!("expected a set operation, got {:?}", other),
    }
    assert!(buf.is_empty());
}

#[test]
fn incremental_delivery_yields_one_frame_at_the_final_byte() {
    let bytes = set_command_bytes();
    let mut buf = FrameBuffer::new();
    for (i, b) in bytes.iter().enumerate() {
        let one = [*b];
        buf.feed(&one);
        if i + 1 < bytes.len() {
            match buf.try_read_command() {
                Ok(None) => {}
                other => panic!("byte {}: expected no frame, got {:?}", i, other),
            }
        }
    }
    let got = buf.try_read_command().unwrap().unwrap();
    assert_eq!(got.key, "maciek");
    assert!(buf.is_empty());
    assert!(matches!(buf.try_read_command(), Ok(None)));
}

#[test]
fn malformed_leading_tag_is_unknown_command() {
    let mut buf = FrameBuffer::new();
    buf.feed(&[b'x', 1, 2, 3, 13, 10]);
    match buf.try_read_command() {
        Err(Error::UnknownCommand) => {}
        other => panic!("expected unknown command, got {:?}", other),
    }
}

#[test]
fn invalid_key_utf8_is_bad_request() {
    let mut buf = FrameBuffer::new();
    buf.feed(&[b'g', 1, 0, 0, 0, 0xFF, 13, 10]);
    match buf.try_read_command() {
        Err(Error::BadRequest { msg }) => assert_eq!(msg, "Invalid key utf-8 encoding"),
        other => panic!("expected bad request, got {:?}", other),
    }
}

#[test]
fn missing_terminator_after_structure_is_bad_request() {
    let mut buf = FrameBuffer::new();
    buf.feed(&[b'g', 1, 0, 0, 0, b'a', b'X', b'Y']);
    match buf.try_read_command() {
        Err(Error::BadRequest { msg }) => assert_eq!(msg, "Invalid frame terminator"),
        other => panic!("expected bad request, got {:?}", other),
    }
}

#[test]
fn closed_between_frames_is_clean_and_mid_frame_is_truncated() {
    let buf = FrameBuffer::new();
    assert!(buf.on_peer_closed().is_ok());

    let bytes = set_command_bytes();
    let mut buf = FrameBuffer::new();
    buf.feed(&bytes[..bytes.len() / 2]);
    match buf.on_peer_closed() {
        Err(Error::BadRequest { msg }) => assert_eq!(msg, "Request was interrupted"),
        other => panic!("expected a truncated-frame error, got {:?}", other),
    }
}

#[test]
fn response_null_round_trips() {
    let bytes = Response::Null.to_bytes();
    assert_eq!(bytes, vec![45u8, 13, 10]);
    let mut buf = FrameBuffer::new();
    buf.feed(bytes.as_slice());
    assert_eq!(buf.try_read_response().unwrap().unwrap(), Response::Null);
    assert!(buf.is_empty());
}

#[test]
fn response_error_round_trips() {
    let bytes = Response::error("try again").to_bytes();
    let mut buf = FrameBuffer::new();
    buf.feed(bytes.as_slice());
    assert_eq!(
        buf.try_read_response().unwrap().unwrap(),
        Response::Error("try again".into())
    );
}

#[test]
fn response_payload_round_trips() {
    let value = Value::Array(vec![Value::Number(1), Value::String("maciek".into())]);
    let expected = value.duplicate();
    let bytes = Response::Payload(value).to_bytes();
    let mut buf = FrameBuffer::new();
    buf.feed(bytes.as_slice());
    assert_eq!(
        buf.try_read_response().unwrap().unwrap(),
        Response::Payload(expected)
    );
}

#[test]
fn two_frames_in_one_buffer_come_out_in_order() {
    let mut buf = FrameBuffer::new();
    let mut bytes = Command::get("a").to_bytes();
    bytes.extend_from_slice(Command::delete("b").to_bytes().as_slice());
    buf.feed(bytes.as_slice());
    assert_eq!(buf.try_read_command().unwrap().unwrap(), Command::get("a"));
    assert_eq!(buf.try_read_command().unwrap().unwrap(), Command::delete("b"));
    assert!(buf.is_empty());
}
