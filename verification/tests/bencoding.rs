use bittorrent::encoder::Encoder;
use bittorrent::parser::{ParseError, Parser};
use bittorrent::value::{Value, ValueType};

fn encode(value: Value) -> Vec<u8> {
    let mut buffer = Vec::new();
    value.encode(&mut buffer);
    buffer
}

#[test]
fn integer() {
    let buffer = encode(Value::Integer(42));

    assert_eq!(buffer, "i42e".as_bytes());
}

#[test]
fn encoder_string() {
    let buffer = encode(Value::string("foo"));

    assert_eq!(buffer, "3:foo".as_bytes());
}

#[test]
fn list() {
    let buffer = encode(
        Value::list()
            .with_value(Value::string("foo"))
            .with_value(Value::string("bar")),
    );

    assert_eq!(buffer, "l3:foo3:bare".as_bytes());
}

#[test]
fn dictionary() {
    let buffer = encode(
        Value::dictionary()
            .with_entry("foo", Value::Integer(1))
            .with_entry("bar", Value::Integer(2)),
    );

    // Dictionary keys are sorted
    assert_eq!(buffer, "d3:bari2e3:fooi1ee".as_bytes());
}

#[test]
fn encode_negative_integer_and_zero() {
    assert_eq!(encode(Value::Integer(-17)), "i-17e".as_bytes());
    assert_eq!(encode(Value::Integer(0)), "i0e".as_bytes());
    assert_eq!(encode(Value::Integer(i64::MIN)), "i-9223372036854775808e".as_bytes());
}

#[test]
fn encode_replaces_existing_key() {
    let buffer = encode(
        Value::dictionary()
            .with_entry("a", Value::Integer(1))
            .with_entry("a", Value::Integer(2)),
    );
    assert_eq!(buffer, "d1:ai2ee".as_bytes());
}

#[test]
fn with_value_on_non_list_is_identity() {
    assert_eq!(Value::Integer(3).with_value(Value::Integer(4)), Value::Integer(3));
    assert_eq!(Value::list().with_entry("k", Value::Integer(4)), Value::list());
}

#[test]
fn value_types() {
    assert_eq!(ValueType::of(&Value::Integer(1)), ValueType::Integer);
    assert_eq!(ValueType::of(&Value::string("x")), ValueType::String);
    assert_eq!(ValueType::of(&Value::list()), ValueType::List);
    assert_eq!(ValueType::of(&Value::dictionary()), ValueType::Dictionary);
}

#[test]
fn parser_parse_error() {
    let mut parser = Parser::new();

    assert!(parser.write(b"foo").is_err());
}

#[test]
fn parser_string() {
    let mut parser = Parser::new();
    let bytes_written = parser.write(b"3:foo").expect("unable to write");

    assert_eq!(bytes_written, 5);
    assert_eq!(parser.result().unwrap(), Value::string("foo"));
}

#[test]
fn parser_positive_integer() {
    let mut parser = Parser::new();
    let bytes_written = parser.write(b"i3e").expect("unable to write");

    assert_eq!(bytes_written, 3);
    assert_eq!(parser.result().unwrap(), Value::Integer(3));
}

#[test]
fn parser_multi_digit_integer() {
    let mut parser = Parser::new();
    let bytes_written = parser.write(b"i42e").expect("unable to write");

    assert_eq!(bytes_written, 4);
    assert_eq!(parser.result().unwrap(), Value::Integer(42));
}

#[test]
fn parser_negative_integer() {
    let mut parser = Parser::new();
    let bytes_written = parser.write(b"i-1e").expect("unable to write");

    assert_eq!(bytes_written, 4);
    assert_eq!(parser.result().unwrap(), Value::Integer(-1));
}

#[test]
fn parser_fail_for_minus_zero() {
    let mut parser = Parser::new();

    assert!(parser.write(b"i-0e").is_err());
}

#[test]
fn parser_fail_for_leading_zero() {
    let mut parser = Parser::new();

    assert!(parser.write(b"i03e").is_err());
}

#[test]
fn parser_empty_list() {
    let mut parser = Parser::new();
    let bytes_written = parser.write(b"le").expect("unable to write");

    assert_eq!(bytes_written, 2);
    assert_eq!(parser.result().unwrap(), Value::List(vec![]));
}

#[test]
fn parser_non_empty_list() {
    let mut parser = Parser::new();
    let bytes_written = parser.write(b"li1ei2ei3ee").expect("unable to write");

    assert_eq!(bytes_written, 11);
    assert_eq!(
        parser.result().unwrap(),
        Value::List(vec![
            Value::Integer(1),
            Value::Integer(2),
            Value::Integer(3)
        ])
    );
}

#[test]
fn parser_nested_list() {
    let mut parser = Parser::new();
    let bytes_written = parser.write(b"li1eli2ei3eee").expect("unable to write");

    assert_eq!(bytes_written, 13);
    assert_eq!(
        parser.result().unwrap(),
        Value::List(vec![
            Value::Integer(1),
            Value::List(vec![Value::Integer(2), Value::Integer(3)])
        ])
    );
}

#[test]
fn parser_heterogeneous_list() {
    let mut parser = Parser::new();
    let bytes_written = parser.write(b"l3:fooi42ee").expect("unable to write");

    assert_eq!(bytes_written, 11);
    assert_eq!(
        parser.result().unwrap(),
        Value::List(vec![Value::string("foo"), Value::Integer(42),])
    );
}

#[test]
fn parser_empty_dictionary() {
    let mut parser = Parser::new();
    let bytes_written = parser.write(b"de").expect("unable to write");

    assert_eq!(bytes_written, 2);
    assert_eq!(parser.result().unwrap(), Value::Dictionary(Vec::new()));
}

#[test]
fn parser_non_empty_dictionary() {
    let mut parser = Parser::new();
    let bytes_written = parser
        .write(b"d3:cow3:moo4:spam4:eggse")
        .expect("unable to write");

    assert_eq!(bytes_written, 24);
    assert_eq!(
        parser.result().unwrap(),
        Value::Dictionary(vec![
            ("cow".to_string(), Value::string("moo")),
            ("spam".to_string(), Value::string("eggs"))
        ])
    );
}

#[test]
fn parser_fail_for_non_string_keys() {
    let mut parser = Parser::new();

    assert!(parser.write(b"di1ei2ee").is_err());
}

#[test]
fn parser_deeply_nested_structure() {
    let mut parser = Parser::new();
    let bytes_written = parser
        .write(b"d3:food3:barl3:bazee3:quxi42ee")
        .expect("unable to write");

    assert_eq!(bytes_written, 30);
    assert_eq!(
        parser.result().unwrap(),
        Value::Dictionary(vec![
            (
                "foo".to_string(),
                Value::Dictionary(vec![(
                    "bar".to_string(),
                    Value::List(vec![Value::string("baz")])
                )])
            ),
            ("qux".to_string(), Value::Integer(42))
        ])
    );
}

#[test]
fn incremental_parsing() {
    let mut parser = Parser::new();
    parser.write(b"l3:fo").expect("unable to write");
    parser.write(b"o3:ba").expect("unable to write");
    parser.write(b"re").expect("unable to write");

    assert_eq!(
        parser.result().unwrap(),
        Value::List(vec![Value::string("foo"), Value::string("bar")])
    );
}

#[test]
fn parser_ignore_trailing_whitespace() {
    let mut parser = Parser::new();
    let bytes_written = parser.write(b"i42e ").expect("unable to write");

    assert_eq!(bytes_written, 5);
    assert_eq!(parser.result().unwrap(), Value::Integer(42));
}

#[test]
fn parser_errors_by_kind() {
    assert_eq!(Parser::new().write(b"i03e"), Err(ParseError::LeadingZero));
    assert_eq!(Parser::new().write(b"e"), Err(ParseError::NothingToClose));
    assert_eq!(Parser::new().write(b"di1ei2ee"), Err(ParseError::NonStringKey));
    assert_eq!(Parser::new().write(&[b'd', b'1', b':', 0xff, b'i', b'1', b'e', b'e']), Err(ParseError::InvalidKey));
    assert_eq!(Parser::new().write(b"x"), Err(ParseError::UnexpectedByte(b'x')));
    let mut parser = Parser::new();
    parser.write(b"l").unwrap();
    assert_eq!(parser.result(), Err(ParseError::Incomplete));
}

#[test]
fn decoder_values() {
    assert_eq!(Value::decode(b"i42e"), Ok(Value::Integer(42)));
    assert_eq!(Value::decode(b"i42e\n"), Ok(Value::Integer(42)));
    assert_eq!(Value::decode(b"l3:fooi42ee"), Ok(Value::List(vec![Value::string("foo"), Value::Integer(42)])));
    assert_eq!(Value::decode(b"i-0e"), Err(ParseError::LeadingZero));
    assert_eq!(Value::decode(b"d3:foo"), Err(ParseError::Incomplete));
    assert_eq!(Value::decode(b""), Err(ParseError::Incomplete));
}

#[test]
fn decode_reads_back_encode() {
    let value = Value::dictionary()
        .with_entry("name", Value::string("file"))
        .with_entry("length", Value::Integer(1234))
        .with_entry("pieces", Value::list().with_value(Value::Integer(-5)));
    let bytes = encode(value);
    let decoded = Value::decode(&bytes).unwrap();
    assert_eq!(encode(decoded), bytes);
}

#[test]
fn zero_and_empty_string_are_not_read_back() {
    assert_eq!(Value::decode(&encode(Value::Integer(0))), Err(ParseError::LeadingZero));
    assert_eq!(Value::decode(&encode(Value::String(Vec::new()))), Err(ParseError::UnexpectedByte(b'0')));
}

#[test]
fn writing_in_two_parts_reads_as_one() {
    let bytes = encode(Value::dictionary().with_entry("a", Value::list().with_value(Value::Integer(-12))));
    for cut in 0..bytes.len() {
        let mut parser = Parser::new();
        assert_eq!(parser.write(&bytes[..cut]), Ok(cut));
        assert_eq!(parser.write(&bytes[cut..]), Ok(bytes.len() - cut));
        assert_eq!(
            parser.result(),
            Ok(Value::dictionary().with_entry("a", Value::list().with_value(Value::Integer(-12))))
        );
    }
}

#[test]
fn overlong_numbers_wrap_around() {
    assert_eq!(Value::decode(b"i99999999999999999999e"), Ok(Value::Integer(7766279631452241919)));
    assert_eq!(Value::decode(b"i-9223372036854775808e"), Ok(Value::Integer(i64::MIN)));
    assert_eq!(Value::decode(b"i9223372036854775808e"), Ok(Value::Integer(i64::MIN)));
    assert_eq!(Value::decode(b"18446744073709551617:x"), Ok(Value::string("x")));
}

#[test]
fn least_integer_is_read_back() {
    let bytes = encode(Value::Integer(i64::MIN));
    assert_eq!(Value::decode(&bytes), Ok(Value::Integer(i64::MIN)));
}
