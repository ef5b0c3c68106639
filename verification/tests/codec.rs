use kvstore::value::Value;
use kvstore::bytes::Cursor;

#[test]
fn test_value() {
    let val_1 = Value::Number(1);
    let val_2 = Value::String("maciek".into());
    let val_3 = Value::Number(3);
    let value = Value::Array(vec![val_1, val_2, val_3]);

    let bytes = value.to_bytes();

    println!("{:?}", bytes);
}

#[test]
fn number_encoding_is_tag_plus_le_bytes() {
    let bytes = Value::Number(1).to_bytes();
    assert_eq!(bytes, vec![35u8, 1, 0, 0, 0, 0, 0, 0, 0]);
}

#[test]
fn string_encoding_is_tag_len_utf8() {
    let bytes = Value::String("maciek".into()).to_bytes();
    assert_eq!(
        bytes,
        vec![36u8, 6, 0, 0, 0, b'm', b'a', b'c', b'i', b'e', b'k']
    );
}

#[test]
fn boolean_encoding_round_trips() {
    for v in [Value::Boolean(true), Value::Boolean(false)] {
        let expected = v.duplicate();
        let bytes = v.to_bytes();
        let mut cur = Cursor::new(bytes.as_slice());
        let back = Value::parse(&mut cur).unwrap();
        assert_eq!(back, expected);
        assert_eq!(cur.position(), bytes.len());
    }
}

#[test]
fn number_round_trips_including_negative() {
    for n in [0i64, 1, -1, i64::MIN, i64::MAX, 123_456_789] {
        let bytes = Value::Number(n).to_bytes();
        let mut cur = Cursor::new(bytes.as_slice());
        assert_eq!(Value::parse(&mut cur).unwrap(), Value::Number(n));
    }
}

#[test]
fn string_round_trips_including_empty_and_multibyte() {
    for s in ["", "maciek", "h\u{e9}llo \u{1F600}"] {
        let bytes = Value::String(s.into()).to_bytes();
        let mut cur = Cursor::new(bytes.as_slice());
        assert_eq!(Value::parse(&mut cur).unwrap(), Value::String(s.into()));
    }
}

#[test]
fn bytes_round_trips_including_empty() {
    for b in [vec![], vec![0u8, 255, 13, 10, 7]] {
        let bytes = Value::Bytes(b.clone()).to_bytes();
        let mut cur = Cursor::new(bytes.as_slice());
        assert_eq!(Value::parse(&mut cur).unwrap(), Value::Bytes(b));
    }
}

#[test]
fn nested_array_round_trips() {
    let inner = Value::Array(vec![Value::Boolean(true), Value::String("".into())]);
    let value = Value::Array(vec![
        Value::Number(1),
        Value::String("maciek".into()),
        inner,
        Value::Array(vec![]),
        Value::Bytes(vec![1, 2, 3]),
    ]);
    let expected = value.duplicate();
    let bytes = value.to_bytes();
    let mut cur = Cursor::new(bytes.as_slice());
    assert_eq!(Value::parse(&mut cur).unwrap(), expected);
    assert_eq!(cur.position(), bytes.len());
}

#[test]
fn parse_rejects_unknown_value_tag() {
    let bytes = vec![b'x', 1, 2, 3];
    let mut cur = Cursor::new(bytes.as_slice());
    match Value::parse(&mut cur) {
        Err(kvstore::Error::BadRequest { msg }) => {
            assert_eq!(msg, "Invalid data type");
        }
        other => panic!("expected a bad request, got {:?}", other),
    }
}

#[test]
fn parse_rejects_invalid_utf8_string() {
    let bytes = vec![36u8, 2, 0, 0, 0, 0xFF, 0xFE];
    let mut cur = Cursor::new(bytes.as_slice());
    match Value::parse(&mut cur) {
        Err(kvstore::Error::BadRequest { msg }) => {
            assert_eq!(msg, "Invalid key utf-8 encoding");
        }
        other => panic!("expected a bad request, got {:?}", other),
    }
}

#[test]
fn parse_reports_short_input_as_invalid_bytes() {
    let full = Value::Number(7).to_bytes();
    for k in 0..full.len() {
        let prefix = &full[..k];
        let mut cur = Cursor::new(prefix);
        match Value::parse(&mut cur) {
            Err(kvstore::Error::InvalidBytes) => {}
            other => panic!("prefix of {} bytes: expected invalid bytes, got {:?}", k, other),
        }
    }
}
