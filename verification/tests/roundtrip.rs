use bee_code::dict_insert;
use bee_code::Bencode;

#[test]
fn test_serialize_int() {
    let int = Bencode::Integer(13);
    assert_eq!(int.serialize(), vec![105, 49, 51, 101]);
    assert_eq!(Bencode::Integer(-13).serialize(), b"i-13e".to_vec());
    assert_eq!(Bencode::Integer(0).serialize(), b"i0e".to_vec());
    assert_eq!(
        Bencode::Integer(i64::MIN).serialize(),
        b"i-9223372036854775808e".to_vec()
    );
}

#[test]
fn test_serialize_bytes() {
    assert_eq!(
        Bencode::Bytes(b"hello".to_vec()).serialize(),
        b"5:hello".to_vec()
    );
    assert_eq!(Bencode::Bytes(Vec::new()).serialize(), b"0:".to_vec());
}

#[test]
fn test_serialize_list() {
    let v = Bencode::List(vec![
        Bencode::Bytes(b"spam".to_vec()),
        Bencode::Integer(7),
    ]);
    assert_eq!(v.serialize(), b"l4:spami7ee".to_vec());
    assert_eq!(Bencode::List(Vec::new()).serialize(), b"le".to_vec());
}

#[test]
fn test_serialize_dict() {
    let mut entries: Vec<(Vec<u8>, Bencode)> = Vec::new();
    dict_insert(&mut entries, b"spam".to_vec(), Bencode::Bytes(b"dog".to_vec()));
    dict_insert(&mut entries, b"cat".to_vec(), Bencode::Integer(36));
    let v = Bencode::Dict(entries);
    assert_eq!(v.serialize(), b"d3:cati36e4:spam3:doge".to_vec());
    assert_eq!(Bencode::Dict(Vec::new()).serialize(), b"de".to_vec());
}

#[test]
fn test_dict_reencodes_sorted() {
    let decoded = Bencode::parse(b"d4:spam3:dog3:cati36ee".to_vec()).unwrap();
    assert_eq!(decoded.serialize(), b"d3:cati36e4:spam3:doge".to_vec());
}

#[test]
fn test_dict_duplicate_key_keeps_later() {
    let decoded = Bencode::parse(b"d3:cat3:dog3:cat3:foxe".to_vec()).unwrap();
    let mut entries: Vec<(Vec<u8>, Bencode)> = Vec::new();
    dict_insert(&mut entries, b"cat".to_vec(), Bencode::Bytes(b"fox".to_vec()));
    assert_eq!(decoded, Bencode::Dict(entries));
    assert_eq!(decoded.serialize(), b"d3:cat3:foxe".to_vec());
}

#[test]
fn test_dict_insert_replaces_and_sorts() {
    let mut entries: Vec<(Vec<u8>, Bencode)> = Vec::new();
    dict_insert(&mut entries, b"b".to_vec(), Bencode::Integer(2));
    dict_insert(&mut entries, b"a".to_vec(), Bencode::Integer(1));
    dict_insert(&mut entries, b"c".to_vec(), Bencode::Integer(3));
    dict_insert(&mut entries, b"b".to_vec(), Bencode::Integer(9));
    assert_eq!(
        entries,
        vec![
            (b"a".to_vec(), Bencode::Integer(1)),
            (b"b".to_vec(), Bencode::Integer(9)),
            (b"c".to_vec(), Bencode::Integer(3)),
        ]
    );
}

#[test]
fn test_round_trip_bytes_back() {
    let original = b"d3:cati36e4:spam3:doge".to_vec();
    let decoded = Bencode::parse(original.clone()).unwrap();
    assert_eq!(decoded.serialize(), original);
}

#[test]
fn test_round_trip_value() {
    let mut inner: Vec<(Vec<u8>, Bencode)> = Vec::new();
    dict_insert(&mut inner, b"len".to_vec(), Bencode::Integer(-42));
    dict_insert(
        &mut inner,
        b"name".to_vec(),
        Bencode::Bytes(b"verified".to_vec()),
    );
    let v = Bencode::List(vec![
        Bencode::Dict(inner),
        Bencode::Bytes(Vec::new()),
        Bencode::Integer(0),
        Bencode::List(vec![Bencode::Integer(i64::MAX)]),
    ]);
    let bytes = v.serialize();
    assert_eq!(Bencode::parse(bytes), Ok(v));
}

#[test]
fn test_key_order_helpers() {
    assert!(bee_code::key_lt(&b"cat".to_vec(), &b"spam".to_vec()));
    assert!(bee_code::key_lt(&b"ca".to_vec(), &b"cat".to_vec()));
    assert!(!bee_code::key_lt(&b"cat".to_vec(), &b"cat".to_vec()));
    assert!(bee_code::key_eq(&b"cat".to_vec(), &b"cat".to_vec()));
    assert!(!bee_code::key_eq(&b"cat".to_vec(), &b"ca".to_vec()));
}
