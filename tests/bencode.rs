use torrent::bencode::{decode, BencodeError, BencodeParser, BencodeValue};

fn bytes(v: &BencodeValue) -> Vec<u8> {
    match v {
        BencodeValue::ByteString(b) => b.clone(),
        _ => panic!("not a byte string"),
    }
}

#[test]
fn decode_encode_round_trip_dictionary() {
    let input = b"d3:cow3:moo4:spam4:eggse";
    let value = decode(input).unwrap();
    match &value {
        BencodeValue::Dictionary(pairs) => {
            assert_eq!(pairs.len(), 2);
            assert_eq!(pairs[0].0, b"cow".to_vec());
            assert_eq!(bytes(&pairs[0].1), b"moo".to_vec());
            assert_eq!(pairs[1].0, b"spam".to_vec());
            assert_eq!(bytes(&pairs[1].1), b"eggs".to_vec());
        }
        _ => panic!("expected a dictionary"),
    }
    assert_eq!(value.to_bytes(), input.to_vec());
}

#[test]
fn integer_zero_accepted() {
    match decode(b"i0e").unwrap() {
        BencodeValue::Integer(n) => assert_eq!(n, 0),
        _ => panic!("expected an integer"),
    }
}

#[test]
fn integer_negative_zero_rejected() {
    assert!(matches!(decode(b"i-0e"), Err(BencodeError::IllegalInteger { .. })));
}

#[test]
fn integer_leading_zero_rejected() {
    assert_eq!(decode(b"i01e").unwrap_err(), BencodeError::IntegerWithLeadingZeros { pos: 1 });
}

#[test]
fn integer_sign_only_rejected() {
    assert_eq!(decode(b"i-e").unwrap_err(), BencodeError::EmptyInteger { pos: 2 });
}

#[test]
fn integer_empty_rejected() {
    assert_eq!(decode(b"ie").unwrap_err(), BencodeError::EmptyInteger { pos: 1 });
}

#[test]
fn integer_extremes() {
    match decode(b"i-9223372036854775808e").unwrap() {
        BencodeValue::Integer(n) => assert_eq!(n, i64::MIN),
        _ => panic!("expected an integer"),
    }
    match decode(b"i9223372036854775807e").unwrap() {
        BencodeValue::Integer(n) => assert_eq!(n, i64::MAX),
        _ => panic!("expected an integer"),
    }
    assert_eq!(decode(b"i9223372036854775808e").unwrap_err(), BencodeError::IllegalInteger { pos: 1 });
    assert_eq!(decode(b"i-42e").unwrap().to_bytes(), b"i-42e".to_vec());
}

#[test]
fn dictionary_keys_out_of_order_rejected() {
    assert_eq!(decode(b"d1:bi1e1:ai2ee").unwrap_err(), BencodeError::DictionaryKeysOutOfOrder);
}

#[test]
fn dictionary_duplicate_key_rejected() {
    assert_eq!(
        decode(b"d1:ai1e1:ai2ee").unwrap_err(),
        BencodeError::DuplicateDictionaryKey { name: b"a".to_vec() }
    );
}

#[test]
fn empty_string_decodes() {
    assert_eq!(bytes(&decode(b"0:").unwrap()), Vec::<u8>::new());
}

#[test]
fn string_length_leading_zero_rejected() {
    assert_eq!(decode(b"05:hello").unwrap_err(), BencodeError::IntegerWithLeadingZeros { pos: 0 });
}

#[test]
fn unconsumed_contents_reported() {
    assert_eq!(decode(b"i1ei2e").unwrap_err(), BencodeError::UnconsumedContents { num_remaining: 3 });
}

#[test]
fn insufficient_contents_reported() {
    assert_eq!(decode(b"5:abc").unwrap_err(), BencodeError::InsufficientContents);
    assert_eq!(decode(b"l").unwrap_err(), BencodeError::InsufficientContents);
    assert_eq!(decode(b"").unwrap_err(), BencodeError::InsufficientContents);
}

#[test]
fn unknown_type_reported() {
    assert_eq!(decode(b"x").unwrap_err(), BencodeError::UnknownType { pos: 0, value: b'x' });
}

#[test]
fn unterminated_integer_reported() {
    assert_eq!(decode(b"i12x").unwrap_err(), BencodeError::UnterminatedValue { pos: 3 });
}

#[test]
fn missing_separator_reported() {
    assert_eq!(decode(b"3abc").unwrap_err(), BencodeError::StringMissingSeparator { pos: 1 });
}

#[test]
fn nested_list_round_trip() {
    let input = b"l4:spaml1:ai-3eed0:leee";
    let value = decode(input).unwrap();
    assert_eq!(value.to_bytes(), input.to_vec());
}

#[test]
fn parser_deserializes_contents() {
    let parser = BencodeParser::new(b"li1ei2ee");
    match parser.deserialize().unwrap() {
        BencodeValue::List(items) => assert_eq!(items.len(), 2),
        _ => panic!("expected a list"),
    }
}

#[test]
fn string_length_errors() {
    assert_eq!(decode(b"01:a").unwrap_err(), BencodeError::IntegerWithLeadingZeros { pos: 0 });
    assert_eq!(decode(b"9000000000000000000:").unwrap_err(), BencodeError::InsufficientContents);
    assert_eq!(decode(b"99999999999999999999:").unwrap_err(), BencodeError::IllegalInteger { pos: 0 });
}
