use bencode::de::{from_bytes, Deserializer, Value};
use bencode::error::Error;
use bencode::first_word;

// --- cursor and token parsers ---

#[test]
fn test_parse_num() {
    let mut de = Deserializer::from_bytes(b"i123e");
    let expected = 123i64;
    assert_eq!(expected, de.parse_num().unwrap());
    assert_eq!(Err(Error::Eof), de.next_byte());
}

#[test]
fn test_parse_num_negative() {
    let mut de = Deserializer::from_bytes(b"i-123e");
    let expected = -123i64;
    assert_eq!(expected, de.parse_num().unwrap());
    assert_eq!(Err(Error::Eof), de.next_byte());
}

#[test]
fn test_parse_num_no_i() {
    let mut de = Deserializer::from_bytes(b"123e");
    assert_eq!(Err(Error::ExpectedI), de.parse_num());
}

#[test]
fn test_parse_num_no_e() {
    let mut de = Deserializer::from_bytes(b"i123F");
    assert_eq!(Err(Error::ExpectedE), de.parse_num());
}

#[test]
fn test_parse_byte_array() {
    let mut de = Deserializer::from_bytes(b"5:Hello");
    let expected = b"Hello";
    assert_eq!(expected, de.parse_byte_array().unwrap());
    assert_eq!(Err(Error::Eof), de.next_byte());
}

#[test]
fn test_parse_signed() {
    let mut de = Deserializer::from_bytes(b"-321");
    let expected = -321i64;
    assert_eq!(expected, de.parse_signed().unwrap())
}

#[test]
fn test_parse_unsigned() {
    let mut de = Deserializer::from_bytes(b"321");
    let expected = 321u64;
    assert_eq!(expected, de.parse_unsigned().unwrap())
}

#[test]
fn test_peek_byte() {
    let de = Deserializer::from_bytes(b"Hello");
    let expected = b'H';

    assert_eq!(expected, de.peek_byte().unwrap())
}

#[test]
fn test_peek_byte_empty() {
    let de = Deserializer::from_bytes(&[]);
    let expected = Err(Error::Eof);

    assert_eq!(expected, de.peek_byte())
}

#[test]
fn test_next_byte() {
    let mut de = Deserializer::from_bytes(b"Hello");

    assert_eq!(b'H', de.next_byte().unwrap());
    assert_eq!(b"ello", de.remaining());
    assert_eq!(b'e', de.next_byte().unwrap());
    assert_eq!(b'l', de.next_byte().unwrap());
    assert_eq!(b'l', de.next_byte().unwrap());
    assert_eq!(b'o', de.next_byte().unwrap());
    assert_eq!(Err(Error::Eof), de.next_byte());
}

// --- whole-buffer decodes ---

#[test]
fn test_num() {
    assert_eq!(Value::Int(123), from_bytes(b"i123e").unwrap());
    assert_eq!(Value::Int(-123), from_bytes(b"i-123e").unwrap());
    assert_eq!(Value::Int(-23), from_bytes(b"i-23e").unwrap());
}

#[test]
fn test_byte_string() {
    assert_eq!(Value::Bytes(&b"hello"[..]), from_bytes(b"5:hello").unwrap());
    assert_eq!(Value::Bytes(&b""[..]), from_bytes(b"0:").unwrap());
    assert_eq!(Value::Bytes(&b"@@!"[..]), from_bytes(b"3:@@!").unwrap());
}

#[test]
fn test_homo_list() {
    let expected = Value::List(vec![
        Value::Bytes(&b"hello"[..]),
        Value::Bytes(&b"world"[..]),
    ]);
    let v = from_bytes(b"l5:hello5:worlde").unwrap();
    assert_eq!(expected, v);
}

#[test]
fn test_hetero_list_to_tuple() {
    let expected = Value::List(vec![
        Value::Int(10),
        Value::Bytes(&b"Hello"[..]),
        Value::Int(69),
    ]);
    let b = b"li10e5:Helloi69ee";
    let v = from_bytes(b).unwrap();
    assert_eq!(expected, v);
}

#[test]
fn test_dict_to_struct() {
    let expected = Value::Dict(vec![
        (&b"a"[..], Value::Int(69)),
        (&b"b"[..], Value::Bytes(&b"Hello"[..])),
    ]);
    let b = b"d1:ai69e1:b5:Helloe";
    let v = from_bytes(b).unwrap();
    assert_eq!(expected, v);
}

#[test]
fn test_map_str_to_int() {
    let expected = Value::Dict(vec![
        (&b"a"[..], Value::Int(69)),
        (&b"b"[..], Value::Int(20)),
    ]);
    let b = b"d1:ai69e1:bi20ee";
    assert_eq!(expected, from_bytes(b).unwrap());
}

#[test]
fn test_map_str_to_bytes() {
    let expected = Value::Dict(vec![
        (&b"first key"[..], Value::Bytes(&b"hello"[..])),
        (&b"2nd key"[..], Value::Bytes(&b"world"[..])),
    ]);
    let b = b"d9:first key5:hello7:2nd key5:worlde";
    assert_eq!(expected, from_bytes(b).unwrap());
}

#[test]
fn test_nested_structs() {
    let expected = Value::Dict(vec![
        (&b"a"[..], Value::Int(1)),
        (&b"announce"[..], Value::Bytes(&b"hello"[..])),
        (
            &b"info"[..],
            Value::Dict(vec![
                (&b"length"[..], Value::Int(5)),
                (&b"name"[..], Value::Bytes(&b"john"[..])),
            ]),
        ),
    ]);
    let b = b"d1:ai1e8:announce5:hello4:infod6:lengthi5e4:name4:johnee";
    assert_eq!(expected, from_bytes(b).unwrap());
}

#[test]
fn test_nested_lists() {
    let expected = Value::List(vec![Value::List(vec![Value::Int(1)]), Value::Int(2)]);
    assert_eq!(expected, from_bytes(b"lli1eei2ee").unwrap());
}

#[test]
fn test_empty_containers() {
    assert_eq!(Value::List(vec![]), from_bytes(b"le").unwrap());
    assert_eq!(Value::Dict(vec![]), from_bytes(b"de").unwrap());
}

// --- errors ---

#[test]
fn test_empty_input_eof() {
    assert_eq!(Err(Error::Eof), from_bytes(b""));
    assert_eq!(Err(Error::Eof), from_bytes(b"i123"));
    assert_eq!(Err(Error::Eof), from_bytes(b"l5:hello"));
}

#[test]
fn test_trailing_characters() {
    assert_eq!(Err(Error::TrailingCharacters), from_bytes(b"i1ei2e"));
    assert_eq!(Err(Error::TrailingCharacters), from_bytes(b"0:x"));
}

#[test]
fn test_syntax_error() {
    assert_eq!(Err(Error::Syntax), from_bytes(b"x"));
    assert_eq!(Err(Error::Syntax), from_bytes(b"li1e!e"));
}

#[test]
fn test_expected_integer() {
    let mut de = Deserializer::from_bytes(b"x");
    assert_eq!(Err(Error::ExpectedInteger), de.parse_unsigned());
    assert_eq!(Err(Error::ExpectedInteger), from_bytes(b"i-xe"));
    // with the closing byte missing too, the end of input is what is seen
    assert_eq!(Err(Error::Eof), from_bytes(b"i-e"));
}

#[test]
fn test_expected_colon() {
    let mut de = Deserializer::from_bytes(b"5hello");
    assert_eq!(Err(Error::ExpectedColon), de.parse_byte_array());
    // a digit dispatches to the byte-string path, where `e` is no colon
    assert_eq!(Err(Error::ExpectedColon), from_bytes(b"123e"));
}

#[test]
fn test_expected_list_and_dict() {
    let mut de = Deserializer::from_bytes(b"i1e");
    assert_eq!(Err(Error::ExpectedList), de.decode_list());
    let mut de = Deserializer::from_bytes(b"i1e");
    assert_eq!(Err(Error::ExpectedDict), de.decode_dict());
}

#[test]
fn test_length_out_of_bounds() {
    assert_eq!(Err(Error::LengthOutOfBounds), from_bytes(b"5:hi"));
    assert_eq!(Err(Error::LengthOutOfBounds), from_bytes(b"10:"));
}

#[test]
fn test_integer_overflow() {
    // one past each end of the i64 range, and far past u64
    assert_eq!(
        Value::Int(i64::MAX),
        from_bytes(b"i9223372036854775807e").unwrap()
    );
    assert_eq!(
        Value::Int(i64::MIN),
        from_bytes(b"i-9223372036854775808e").unwrap()
    );
    assert_eq!(
        Err(Error::IntegerOverflow),
        from_bytes(b"i9223372036854775808e")
    );
    assert_eq!(
        Err(Error::IntegerOverflow),
        from_bytes(b"i-9223372036854775809e")
    );
    assert_eq!(
        Err(Error::IntegerOverflow),
        from_bytes(b"i99999999999999999999999e")
    );
}

#[test]
fn test_describe() {
    assert_eq!("unexpected end of input", Error::Eof.describe());
    assert_eq!("unexpected trailing characters", Error::TrailingCharacters.describe());
    assert_eq!("hi", Error::Message("hi".to_string()).describe());
}

#[test]
fn test_dict_key_must_be_byte_string() {
    // a dictionary key goes down the byte-string path, so an integer
    // token in key position fails where its length prefix should start
    assert_eq!(Err(Error::ExpectedInteger), from_bytes(b"di1ei2ee"));
}

#[test]
fn test_decode_value_leaves_suffix() {
    let mut de = Deserializer::from_bytes(b"i1ei2e");
    assert_eq!(Value::Int(1), de.decode_value().unwrap());
    assert_eq!(b"i2e", de.remaining());
    assert_eq!(Value::Int(2), de.decode_value().unwrap());
    assert_eq!(b"", de.remaining());
}

// --- idempotence: same buffer, same outcome; buffer untouched ---

#[test]
fn test_decode_twice_identical() {
    let buf = b"d1:ai69e1:b5:Helloe".to_vec();
    let copy = buf.clone();
    let first = from_bytes(&buf);
    let second = from_bytes(&buf);
    assert_eq!(first, second);
    assert_eq!(copy, buf);
}

// --- the stray helper ---

#[test]
fn test_first_word() {
    assert_eq!("hello", first_word(&"hello world".to_string()));
    assert_eq!("hello", first_word(&"hello".to_string()));
    assert_eq!("", first_word(&" leading".to_string()));
    assert_eq!("", first_word(&"".to_string()));
}
