use bencode::decode::{decode, DecodeError, MAX_DEPTH};
use bencode::encode::encode;
use bencode::value::Value;

fn bytes(s: &str) -> Value {
    Value::ByteString(s.as_bytes().to_vec())
}

#[test]
fn check_correct_string() {
    let input = "5:hello";
    let ans = decode(input.as_bytes()).unwrap();
    assert_eq!(ans.0, bytes("hello"));
}

#[test]
fn check_incorrect_string() {
    let input = "3:hello";
    let ans = decode(input.as_bytes()).unwrap();
    assert_ne!(ans.0, bytes("hello"));
}

#[test]
fn check_integers() {
    let input = [("i26e", 26), ("i-53e", -53)];
    for item in input {
        let ans = decode(item.0.as_bytes()).unwrap();
        assert_eq!(ans.0, Value::Integer(item.1));
    }
}

#[test]
fn check_goodencoded_lists() {
    let input = [
        ("l4:spam4:eggse", ["spam", "eggs"]),
        ("l5:hello5:worlde", ["hello", "world"]),
    ];
    for item in input {
        let ans = decode(item.0.as_bytes()).unwrap();
        match ans.0 {
            Value::List(items) => {
                for (i, subitem) in item.1.iter().enumerate() {
                    assert_eq!(items[i], bytes(subitem));
                }
            }
            other => panic!("not a list: {:?}", other),
        }
    }
    let num_input = "li-2ei-1ei0ei1ei2ee";
    let num_expected = [-2, -1, 0, 1, 2];
    let ans = decode(num_input.as_bytes()).unwrap();
    match ans.0 {
        Value::List(items) => {
            for (index, item) in num_expected.iter().enumerate() {
                assert_eq!(items[index], Value::Integer(*item));
            }
        }
        other => panic!("not a list: {:?}", other),
    }
}

#[test]
fn string_payload_follows_length_prefix() {
    let (v, rest) = decode(b"3:hello").unwrap();
    assert_eq!(v, bytes("hel"));
    assert_eq!(rest, b"lo");
    let (v, rest) = decode(b"3:hel").unwrap();
    assert_eq!(v, bytes("hel"));
    assert!(rest.is_empty());
    let (v, rest) = decode(b"0:").unwrap();
    assert_eq!(v, bytes(""));
    assert!(rest.is_empty());
}

#[test]
fn string_holds_raw_bytes() {
    let (v, rest) = decode(&[50, 58, 0xff, 0x00]).unwrap();
    assert_eq!(v, Value::ByteString(vec![0xff, 0x00]));
    assert!(rest.is_empty());
}

#[test]
fn nested_lists() {
    let (v, rest) = decode(b"l6:nestedl4:spam4:eggsee").unwrap();
    assert!(rest.is_empty());
    assert_eq!(
        v,
        Value::List(vec![bytes("nested"), Value::List(vec![bytes("spam"), bytes("eggs")])])
    );
}

#[test]
fn integer_extremes() {
    let (v, _) = decode(b"i9223372036854775807e").unwrap();
    assert_eq!(v, Value::Integer(i64::MAX));
    let (v, _) = decode(b"i-9223372036854775808e").unwrap();
    assert_eq!(v, Value::Integer(i64::MIN));
    let (v, _) = decode(b"i0e").unwrap();
    assert_eq!(v, Value::Integer(0));
    assert!(decode(b"i9223372036854775808e").is_err());
    assert!(decode(b"i-9223372036854775809e").is_err());
}

#[test]
fn integer_round_trip() {
    for lit in ["i0e", "i26e", "i-53e", "i9223372036854775807e", "i-9223372036854775808e"] {
        let (v, rest) = decode(lit.as_bytes()).unwrap();
        assert!(rest.is_empty());
        assert_eq!(encode(&v), lit.as_bytes().to_vec());
    }
}

#[test]
fn non_canonical_integers_rejected() {
    for lit in ["i-0e", "i03e", "ie", "i-e", "i+5e", "iabce", "i12"] {
        assert_eq!(decode(lit.as_bytes()), Err(DecodeError::InvalidInteger { at: 0 }), "{}", lit);
    }
}

#[test]
fn byte_string_round_trip() {
    for lit in ["0:", "5:hello", "11:hello world"] {
        let (v, rest) = decode(lit.as_bytes()).unwrap();
        assert!(rest.is_empty());
        assert_eq!(encode(&v), lit.as_bytes().to_vec());
    }
}

#[test]
fn dictionary_key_must_be_string() {
    assert_eq!(decode(b"di1e3:fooe"), Err(DecodeError::NonStringKey { at: 1 }));
    assert_eq!(decode(b"dl1:ae3:fooe"), Err(DecodeError::NonStringKey { at: 1 }));
}

#[test]
fn dictionary_sorted_and_last_write_wins() {
    let (v, rest) = decode(b"d1:bi2e1:ai1e1:bi3ee").unwrap();
    assert!(rest.is_empty());
    assert_eq!(
        v,
        Value::Dictionary(vec![
            (b"a".to_vec(), Value::Integer(1)),
            (b"b".to_vec(), Value::Integer(3)),
        ])
    );
    assert_eq!(encode(&v), b"d1:ai1e1:bi3ee".to_vec());
}

#[test]
fn encode_sorts_dictionary_keys() {
    let v = Value::Dictionary(vec![
        (b"zeta".to_vec(), Value::Integer(-1)),
        (b"ab".to_vec(), Value::List(vec![bytes("x")])),
        (b"a".to_vec(), bytes("")),
    ]);
    assert_eq!(encode(&v), b"d1:a0:2:abl1:xe4:zetai-1ee".to_vec());
}

#[test]
fn encode_each_kind() {
    assert_eq!(encode(&Value::Integer(0)), b"i0e".to_vec());
    assert_eq!(encode(&Value::Integer(-53)), b"i-53e".to_vec());
    assert_eq!(encode(&bytes("spam")), b"4:spam".to_vec());
    assert_eq!(encode(&Value::List(vec![])), b"le".to_vec());
    assert_eq!(encode(&Value::Dictionary(vec![])), b"de".to_vec());
}

#[test]
fn malformed_input_is_an_error() {
    assert_eq!(decode(b""), Err(DecodeError::UnexpectedEnd));
    assert_eq!(decode(b"5:hel"), Err(DecodeError::Truncated { at: 0 }));
    assert_eq!(decode(b"5hello"), Err(DecodeError::InvalidLength { at: 0 }));
    assert_eq!(decode(b"05:hello"), Err(DecodeError::InvalidLength { at: 0 }));
    assert_eq!(decode(b"l4:spam"), Err(DecodeError::UnexpectedEnd));
    assert_eq!(decode(b"d3:foo"), Err(DecodeError::UnexpectedEnd));
    assert_eq!(decode(b"d3:fooi1e"), Err(DecodeError::UnexpectedEnd));
    assert_eq!(decode(b"x"), Err(DecodeError::UnexpectedByte { at: 0 }));
    assert_eq!(decode(b"l4:spamxe"), Err(DecodeError::UnexpectedByte { at: 7 }));
}

#[test]
fn nesting_depth_is_bounded() {
    let mut ok = vec![b'l'; MAX_DEPTH];
    ok.extend(vec![b'e'; MAX_DEPTH]);
    assert!(decode(&ok).is_ok());
    let mut deep = vec![b'l'; MAX_DEPTH + 1];
    deep.extend(vec![b'e'; MAX_DEPTH + 1]);
    assert_eq!(decode(&deep), Err(DecodeError::TooDeep { at: MAX_DEPTH }));
}

#[test]
fn rest_follows_the_term() {
    let (v, rest) = decode(b"i1ei2e").unwrap();
    assert_eq!(v, Value::Integer(1));
    assert_eq!(rest, b"i2e");
}
