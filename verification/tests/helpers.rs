use kvstore::bytes::{get_bool, get_i64, get_u16, get_u32, get_u64, get_u8, Cursor};
use kvstore::client::{flatten_response_to_option, response_to_value};
use kvstore::command::get_line;
use kvstore::config::Config;
use kvstore::error::DatabaseError;
use kvstore::protocol::Response;
use kvstore::tcp::Request;
use kvstore::value::Value;
use kvstore::Error;

#[test]
fn response_to_value_maps_each_case() {
    assert_eq!(
        response_to_value(Ok(Response::Payload(Value::Number(4)))).unwrap(),
        Some(Value::Number(4))
    );
    assert_eq!(response_to_value(Ok(Response::Null)).unwrap(), None);
    match response_to_value(Ok(Response::Error("boom".into()))) {
        Err(Error::DatabaseError { msg }) => assert_eq!(msg, "boom"),
        other => panic!("expected a database error, got {:?}", other),
    }
    assert!(matches!(
        response_to_value(Err(Error::ConnectionClosed)),
        Err(Error::ConnectionClosed)
    ));
}

#[test]
fn flatten_turns_missing_response_into_connection_closed() {
    assert!(matches!(
        flatten_response_to_option(Ok(None)),
        Err(Error::ConnectionClosed)
    ));
    assert_eq!(
        flatten_response_to_option(Ok(Some(Response::Null))).unwrap(),
        None
    );
}

#[test]
fn get_line_finds_first_terminator_or_reports_incomplete() {
    let data = vec![b'a', b'b', 13, 10, b'c'];
    let mut cur = Cursor::new(data.as_slice());
    let line = get_line(&mut cur).unwrap();
    assert_eq!(line, [b'a', b'b'].as_slice());
    assert_eq!(cur.position(), 4);

    let data = vec![b'a', b'b', 13];
    let mut cur = Cursor::new(data.as_slice());
    assert!(matches!(get_line(&mut cur), Err(Error::Incomplete)));
    assert_eq!(cur.position(), 0);
}

#[test]
fn error_messages_name_each_condition() {
    assert_eq!(Error::InvalidBytes.message(), "invalid bytes");
    assert_eq!(Error::Incomplete.message(), "request is incomplete");
    assert_eq!(Error::UnknownCommand.message(), "unknown command type");
    assert_eq!(Error::ConnectionClosed.message(), "connection was closed");
    assert_eq!(
        Error::BadRequest { msg: "why".into() }.message(),
        "why"
    );
}

#[test]
fn config_accepts_registered_ports_only() {
    assert!(Config::new("h".into(), 1023).is_err());
    assert!(matches!(
        Config::new("h".into(), 49152),
        Err(DatabaseError::InvalidPortValue(49152))
    ));
    let c = Config::new("127.0.0.1".into(), 8989).unwrap();
    assert_eq!(c.PORT, 8989);
    assert_eq!(c.HOST, "127.0.0.1");
    assert!(Config::new("h".into(), 1024).is_ok());
    assert!(Config::new("h".into(), 49151).is_ok());
}

#[test]
fn request_from_cursor_reads_header_and_string_content() {
    let mut data = vec![b'g', 0, 1, 1, 2, 0, 0, 0];
    data.extend_from_slice(b"hi");
    let mut cur = Cursor::new(data.as_slice());
    let req = Request::from_cursor(&mut cur).unwrap();
    assert_eq!(cur.position(), data.len());
    println!("{:?}", req);
}

#[test]
fn request_from_cursor_rejects_unknown_message_type() {
    let data = vec![b'z', 0, 1, 0];
    let mut cur = Cursor::new(data.as_slice());
    assert!(matches!(
        Request::from_cursor(&mut cur),
        Err(DatabaseError::InvalidRequest)
    ));
    assert_eq!(cur.position(), 0);
}

#[test]
fn cursor_primitives_read_little_endian_and_stop_at_the_end() {
    let data = vec![
        7u8, 1, 0x34, 0x12, 0x78, 0x56, 0x34, 0x12, 0xFF, 0xFF, 0xFF, 0xFF, 0xFF, 0xFF, 0xFF,
        0xFF,
    ];
    let mut cur = Cursor::new(data.as_slice());
    assert_eq!(get_u8(&mut cur).unwrap(), 7);
    assert_eq!(get_bool(&mut cur).unwrap(), true);
    assert_eq!(get_u16(&mut cur).unwrap(), 0x1234);
    assert_eq!(get_u32(&mut cur).unwrap(), 0x12345678);
    assert_eq!(get_u64(&mut cur).unwrap(), u64::MAX);
    assert_eq!(cur.position(), data.len());
    assert!(matches!(get_u8(&mut cur), Err(Error::InvalidBytes)));

    let eight = vec![0xFFu8, 0xFF, 0xFF, 0xFF, 0xFF, 0xFF, 0xFF, 0xFF];
    let mut cur = Cursor::new(eight.as_slice());
    assert_eq!(get_i64(&mut cur).unwrap(), -1i64);

    let short = vec![1u8, 2, 3];
    let mut cur = Cursor::new(short.as_slice());
    assert!(matches!(get_u32(&mut cur), Err(Error::InvalidBytes)));
    assert_eq!(cur.position(), 0);

    let zero = vec![0u8];
    let mut cur = Cursor::new(zero.as_slice());
    assert_eq!(get_bool(&mut cur).unwrap(), false);
}
