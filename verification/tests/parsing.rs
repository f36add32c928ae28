use bee_code::Bencode;
use bee_code::BencodeError;
use bee_code::Parser;

#[test]
fn test_parse_string() {
    let mut p = Parser::new(b"6:string");
    assert_eq!(p.parse_string(), Ok(b"string".to_vec()));
}

#[test]
fn test_parse_string_empty() {
    let mut p = Parser::new(b"0:");
    assert_eq!(p.parse_string(), Ok(b"".to_vec()));
}

#[test]
fn test_parse_string_with_neg_len() {
    let mut p = Parser::new(b"-2:text");
    assert_eq!(
        p.parse_string(),
        Err(BencodeError::NegativeLen(
            "Negative string len at index 0".to_owned(),
        ))
    );
}

#[test]
fn test_parse_int() {
    let mut p = Parser::new(b"i13e");
    assert_eq!(p.parse_int(), Ok(Bencode::Integer(13)));
}

#[test]
fn test_parse_int_neg() {
    let mut p = Parser::new(b"i-13e");
    assert_eq!(p.parse_int(), Ok(Bencode::Integer(-13)));
}

#[test]
fn test_parse_int_neg_zero() {
    let mut p = Parser::new(b"i-0e");
    assert_eq!(
        p.parse_int(),
        Err(BencodeError::Unexpected(
            "Negative 0 while parsing integer at index 0".to_owned()
        ))
    );
}

#[test]
fn test_parse_int_lead_zero() {
    let mut p = Parser::new(b"i0934e");
    assert_eq!(
        p.parse_int(),
        Err(BencodeError::Unexpected(
            "Leading 0 while parsing integer at index 0".to_owned()
        ))
    );
}

#[test]
fn test_parse_list() {
    let mut p = Parser::new(b"l4:spam3:doge");
    assert_eq!(
        p.parse_list(),
        Ok(Bencode::List(vec![
            Bencode::Bytes(b"spam".to_vec()),
            Bencode::Bytes(b"dog".to_vec()),
        ]))
    );
}

#[test]
fn test_parse_list_empty() {
    let mut p = Parser::new(b"le");
    assert_eq!(p.parse_list(), Ok(Bencode::List(vec![])));
}

#[test]
fn test_parse_dict() {
    let mut p = Parser::new(b"d4:spam3:dog3:cati36ee");
    let mut entries: Vec<(Vec<u8>, Bencode)> = Vec::new();
    bee_code::dict_insert(&mut entries, b"spam".to_vec(), Bencode::Bytes(b"dog".to_vec()));
    bee_code::dict_insert(&mut entries, b"cat".to_vec(), Bencode::Integer(36));
    assert_eq!(p.parse_dict(), Ok(Bencode::Dict(entries)));
}

#[test]
fn test_parse_dict_empty() {
    let mut p = Parser::new(b"de");
    assert_eq!(p.parse_dict(), Ok(Bencode::Dict(Vec::new())));
}

#[test]
fn test_parse_int_zero() {
    assert_eq!(Bencode::parse(b"i0e".to_vec()), Ok(Bencode::Integer(0)));
}

#[test]
fn test_parse_boundary_int() {
    assert_eq!(Bencode::parse(b"i36e".to_vec()), Ok(Bencode::Integer(36)));
}

#[test]
fn test_parse_int_extremes() {
    assert_eq!(
        Bencode::parse(b"i9223372036854775807e".to_vec()),
        Ok(Bencode::Integer(i64::MAX))
    );
    assert_eq!(
        Bencode::parse(b"i-9223372036854775808e".to_vec()),
        Ok(Bencode::Integer(i64::MIN))
    );
}

#[test]
fn test_parse_int_overflow() {
    assert_eq!(
        Bencode::parse(b"i9223372036854775808e".to_vec()),
        Err(BencodeError::Unexpected(
            "Invalid integer at index 0".to_owned()
        ))
    );
    assert_eq!(
        Bencode::parse(b"i-9223372036854775809e".to_vec()),
        Err(BencodeError::Unexpected(
            "Invalid integer at index 0".to_owned()
        ))
    );
}

#[test]
fn test_parse_int_not_numeric() {
    assert_eq!(
        Bencode::parse(b"ixye".to_vec()),
        Err(BencodeError::Unexpected(
            "Invalid integer at index 0".to_owned()
        ))
    );
    assert_eq!(
        Bencode::parse(b"ie".to_vec()),
        Err(BencodeError::Unexpected(
            "Invalid integer at index 0".to_owned()
        ))
    );
}

#[test]
fn test_parse_int_not_utf8() {
    assert_eq!(
        Bencode::parse(vec![105, 255, 254, 101]),
        Err(BencodeError::Utf8Error(
            "Non UTF8 encoded integer value at index 0".to_owned()
        ))
    );
}

#[test]
fn test_parse_len_not_utf8() {
    let mut p = Parser::new(&[255, 53, 58, 97]);
    assert_eq!(
        p.parse_len(),
        Err(BencodeError::Utf8Error(
            "Non UTF8 encoded string length at index 2".to_owned()
        ))
    );
}

#[test]
fn test_parse_unexpected_type() {
    assert_eq!(
        Bencode::parse(b"x1".to_vec()),
        Err(BencodeError::Unexpected(
            "Unexpected value type at index 0".to_owned()
        ))
    );
}

#[test]
fn test_parse_empty_input() {
    assert_eq!(
        Bencode::parse(Vec::new()),
        Err(BencodeError::Unexpected(
            "Unexpected value type at index 0".to_owned()
        ))
    );
}

#[test]
fn test_parse_trailing_bytes_ignored() {
    assert_eq!(
        Bencode::parse(b"i3eXYZ".to_vec()),
        Ok(Bencode::Integer(3))
    );
}

#[test]
fn test_parse_truncated_string() {
    assert_eq!(
        Bencode::parse(b"5:ab".to_vec()),
        Err(BencodeError::Unexpected(
            "Unexpected end of input at index 4".to_owned()
        ))
    );
}

#[test]
fn test_parse_missing_terminator() {
    assert_eq!(
        Bencode::parse(b"i12".to_vec()),
        Err(BencodeError::Unexpected(
            "Unexpected end of input at index 3. Expected 101".to_owned()
        ))
    );
    assert_eq!(
        Bencode::parse(b"l4:spam".to_vec()),
        Err(BencodeError::Unexpected(
            "Unexpected end of input at index 7".to_owned()
        ))
    );
}

#[test]
fn test_parse_dict_wrong_opener() {
    let mut p = Parser::new(b"le");
    assert_eq!(
        p.parse_dict(),
        Err(BencodeError::Unexpected(
            "Unexpected character at index 0. Expected 100 found 108".to_owned()
        ))
    );
}

#[test]
fn test_error_position_two_digits() {
    assert_eq!(
        Bencode::parse(b"l10:aaaaaaaaaai-0ee".to_vec()),
        Err(BencodeError::Unexpected(
            "Negative 0 while parsing integer at index 14".to_owned()
        ))
    );
}

#[test]
fn test_error_leaves_cursor_at_detection_point() {
    // A negative length is detected before anything is consumed.
    let mut p = Parser::new(b"-2:text");
    assert!(p.parse_len().is_err());
    assert_eq!(p.pos, 0);

    // An unknown tag byte is detected before anything is consumed.
    let mut q = Parser::new(b"x1");
    assert!(q.parse_element().is_err());
    assert_eq!(q.pos, 0);

    // A bad integer token is detected after the token was consumed.
    let mut r = Parser::new(b"ixye");
    assert!(r.parse_int().is_err());
    assert_eq!(r.pos, 3);
}
