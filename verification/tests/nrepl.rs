//! Tests of request encoding, response classification, and the
//! read-loop state machine.

use nrepl_client::bencode::Object;
use nrepl_client::nrepl::{is_final_resp, Error, Op, Resp};
use nrepl_client::transport::OpReader;

fn status_key() -> Vec<u8> {
    b"status".to_vec()
}

#[test]
fn final_resp_test() {
    let mut final_pairs = vec![(status_key(), Object::BBytes(vec![]))];
    let final_resp = Resp::from_dict_pairs(&mut final_pairs).unwrap();

    let mut not_final_pairs = vec![(b"foo".to_vec(), Object::BBytes(vec![]))];
    let not_final_resp = Resp::from_dict_pairs(&mut not_final_pairs).unwrap();

    assert!(is_final_resp(&final_resp));
    assert!(!is_final_resp(&not_final_resp));
}

#[test]
fn encode_sorts_keys_ascending() {
    let op = Op::new(
        "info".to_string(),
        vec![
            ("b".to_string(), "2".to_string()),
            ("a".to_string(), "1".to_string()),
        ],
    );
    assert_eq!(op.encode(), b"d1:a1:11:b1:22:op4:infoe".to_vec());
}

#[test]
fn encode_is_deterministic() {
    let args1 = vec![
        ("b".to_string(), "2".to_string()),
        ("a".to_string(), "1".to_string()),
    ];
    let args2 = vec![
        ("a".to_string(), "1".to_string()),
        ("b".to_string(), "2".to_string()),
    ];
    let once = Op::new("info".to_string(), args1.clone()).encode();
    let again = Op::new("info".to_string(), args1).encode();
    let permuted = Op::new("info".to_string(), args2).encode();
    assert_eq!(once, again);
    assert_eq!(once, permuted);
}

#[test]
fn encode_no_args() {
    let op = Op::new("clone".to_string(), vec![]);
    assert_eq!(op.encode(), b"d2:op5:clonee".to_vec());
}

#[test]
fn round_trip_reconstructs_key_set() {
    let op = Op::new(
        "info".to_string(),
        vec![
            ("ns".to_string(), "user".to_string()),
            ("sym".to_string(), "map".to_string()),
        ],
    );
    let bytes = op.encode();
    let (obj, end) = nrepl_client::bencode::parse_value(&bytes, 0).unwrap();
    assert_eq!(end, bytes.len());
    match obj {
        Object::BDict(pairs) => {
            let mut keys: Vec<Vec<u8>> = pairs.iter().map(|p| p.0.clone()).collect();
            keys.sort();
            assert_eq!(keys, vec![b"ns".to_vec(), b"op".to_vec(), b"sym".to_vec()]);
        }
        other => panic!("expected a dict, got {:?}", other),
    }
}

#[test]
fn termination_detection_two_messages() {
    // [{"x": 1}, {"status": "done"}]
    let wire = b"d1:xi1eed6:status4:donee".to_vec();
    let mut reader = OpReader::new();
    assert_eq!(reader.feed(&wire), Ok(true));
    let resps = reader.finish().unwrap();
    assert_eq!(resps.len(), 2);
    assert!(!is_final_resp(&resps[0]));
    assert!(is_final_resp(&resps[1]));
    assert_eq!(resps[0].get(&"x".to_string()), Some(&Object::BInt(1)));
    assert_eq!(
        resps[1].get(&"status".to_string()),
        Some(&Object::BBytes(b"done".to_vec()))
    );
}

#[test]
fn non_terminal_then_silence_is_connection_lost() {
    // a single {"foo": ""} and then end of stream
    let wire = b"d3:foo0:e".to_vec();
    let mut reader = OpReader::new();
    assert_eq!(reader.feed(&wire), Ok(false));
    assert!(matches!(reader.finish(), Err(Error::ConnectionLost)));
}

#[test]
fn silence_alone_is_connection_lost() {
    let reader = OpReader::new();
    assert!(matches!(reader.finish(), Err(Error::ConnectionLost)));
}

#[test]
fn duplicate_key_is_rejected() {
    let mut pairs = vec![
        (status_key(), Object::BBytes(b"done".to_vec())),
        (status_key(), Object::BBytes(b"again".to_vec())),
    ];
    match Resp::from_dict_pairs(&mut pairs) {
        Err(Error::DuplicatedKeyError(k)) => assert_eq!(k, "status"),
        other => panic!("expected DuplicatedKeyError, got {:?}", other),
    }
}

#[test]
fn duplicate_key_on_the_wire_is_rejected() {
    let wire = b"d6:status4:done6:status5:againe".to_vec();
    let mut reader = OpReader::new();
    match reader.feed(&wire) {
        Err(Error::DuplicatedKeyError(k)) => assert_eq!(k, "status"),
        other => panic!("expected DuplicatedKeyError, got {:?}", other),
    }
}

#[test]
fn invalid_utf8_key_is_rejected() {
    let mut wire = b"d2:".to_vec();
    wire.extend_from_slice(&[0xff, 0xfe]);
    wire.extend_from_slice(b"0:e");
    let mut reader = OpReader::new();
    match reader.feed(&wire) {
        Err(Error::BadBencodeString(k)) => assert_eq!(k, vec![0xff, 0xfe]),
        other => panic!("expected BadBencodeString, got {:?}", other),
    }
}

#[test]
fn non_ascii_key_is_decoded() {
    // "é" in UTF-8 is [0xc3, 0xa9]
    let mut pairs = vec![(vec![0xc3, 0xa9], Object::BInt(7))];
    let resp = Resp::from_dict_pairs(&mut pairs).unwrap();
    assert_eq!(resp.get(&"\u{e9}".to_string()), Some(&Object::BInt(7)));
}

#[test]
fn non_dict_message_is_rejected() {
    let wire = b"i5e".to_vec();
    let mut reader = OpReader::new();
    assert!(matches!(
        reader.feed(&wire),
        Err(Error::UnexpectedBencodeObject(Object::BInt(5)))
    ));
}

#[test]
fn malformed_bytes_are_rejected() {
    let wire = b"x".to_vec();
    let mut reader = OpReader::new();
    assert_eq!(reader.feed(&wire), Err(Error::BencodeDecodeError));
}

#[test]
fn messages_split_across_chunks() {
    let wire = b"d6:status4:donee".to_vec();
    let mut reader = OpReader::new();
    assert_eq!(reader.feed(&wire[..5].to_vec()), Ok(false));
    assert_eq!(reader.feed(&wire[5..].to_vec()), Ok(true));
    let resps = reader.finish().unwrap();
    assert_eq!(resps.len(), 1);
    assert!(is_final_resp(&resps[0]));
}

#[test]
fn encodes_multi_digit_lengths() {
    let op = Op::new(
        "eval".to_string(),
        vec![("code".to_string(), "(+ 1 2 3 4 5)".to_string())],
    );
    assert_eq!(op.encode(), b"d4:code13:(+ 1 2 3 4 5)2:op4:evale".to_vec());
}

#[test]
fn parses_multi_digit_lengths() {
    let wire = b"13:(+ 1 2 3 4 5)".to_vec();
    let (obj, end) = nrepl_client::bencode::parse_value(&wire, 0).unwrap();
    assert_eq!(end, wire.len());
    assert_eq!(obj, Object::BBytes(b"(+ 1 2 3 4 5)".to_vec()));
}

#[test]
fn parses_strings_ints_lists_dicts() {
    let wire = b"l4:spami-42eli0eed1:ai1eee".to_vec();
    let (obj, end) = nrepl_client::bencode::parse_value(&wire, 0).unwrap();
    assert_eq!(end, wire.len());
    assert_eq!(
        obj,
        Object::BList(vec![
            Object::BBytes(b"spam".to_vec()),
            Object::BInt(-42),
            Object::BList(vec![Object::BInt(0)]),
            Object::BDict(vec![(b"a".to_vec(), Object::BInt(1))]),
        ])
    );
}

#[test]
fn parses_extreme_ints() {
    let wire = b"i9223372036854775807e".to_vec();
    let (obj, _) = nrepl_client::bencode::parse_value(&wire, 0).unwrap();
    assert_eq!(obj, Object::BInt(i64::MAX));

    let wire = b"i-9223372036854775808e".to_vec();
    let (obj, _) = nrepl_client::bencode::parse_value(&wire, 0).unwrap();
    assert_eq!(obj, Object::BInt(i64::MIN));

    let wire = b"i9223372036854775808e".to_vec();
    assert!(matches!(
        nrepl_client::bencode::parse_value(&wire, 0),
        Err(nrepl_client::bencode::ParseErr::Malformed)
    ));
}

#[test]
fn incomplete_values_ask_for_more() {
    for wire in [
        b"4:ab".to_vec(),
        b"d6:status".to_vec(),
        b"i12".to_vec(),
        b"l4:spam".to_vec(),
        b"12".to_vec(),
        b"".to_vec(),
    ] {
        assert!(matches!(
            nrepl_client::bencode::parse_value(&wire, 0),
            Err(nrepl_client::bencode::ParseErr::Incomplete)
        ));
    }
}

#[test]
fn response_keeps_entry_order_and_values() {
    let mut pairs = vec![
        (b"value".to_vec(), Object::BBytes(b"42".to_vec())),
        (b"session".to_vec(), Object::BBytes(b"s1".to_vec())),
    ];
    let resp = Resp::from_dict_pairs(&mut pairs).unwrap();
    assert_eq!(resp.len(), 2);
    let entries = resp.entries();
    assert_eq!(entries[0].0, "value");
    assert_eq!(entries[1].0, "session");
    assert_eq!(resp.get(&"session".to_string()), Some(&Object::BBytes(b"s1".to_vec())));
    assert_eq!(resp.get(&"missing".to_string()), None);
}
