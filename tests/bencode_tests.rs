use bittorrent::bencode::{
    decode, decode_all, decode_strict, encode_value, get_natural, get_next_number, key_less, Entry, Value,
};
use bittorrent::Error;

fn dict(entries: Vec<(&[u8], Value)>) -> Value {
    Value::Dict(
        entries
            .into_iter()
            .map(|(k, v)| Entry { key: k.to_vec(), value: v })
            .collect(),
    )
}

#[test]
fn empty_dictionary_decodes_to_empty_map() {
    match decode_all(b"de") {
        Ok(Value::Dict(d)) => assert!(d.is_empty()),
        other => panic!("unexpected {:?}", other),
    }
}

#[test]
fn zero_and_minus_one() {
    assert!(matches!(decode_all(b"i0e"), Ok(Value::Number(0))));
    assert!(matches!(decode_all(b"i-1e"), Ok(Value::Number(-1))));
}

#[test]
fn zero_length_string_is_empty_bytes() {
    match decode_all(b"0:") {
        Ok(Value::Str(b)) => assert!(b.is_empty()),
        other => panic!("unexpected {:?}", other),
    }
}

#[test]
fn integer_boundaries() {
    assert!(matches!(decode_all(b"i9223372036854775807e"), Ok(Value::Number(i64::MAX))));
    assert!(matches!(decode_all(b"i-9223372036854775808e"), Ok(Value::Number(i64::MIN))));
    assert!(matches!(decode_all(b"i+1e"), Err(Error::Malformed)));
    assert!(matches!(decode_all(b"i9223372036854775808e"), Err(Error::Malformed)));
    assert!(matches!(decode_all(b"i-9223372036854775809e"), Err(Error::Malformed)));
}

#[test]
fn non_canonical_integers_are_malformed() {
    assert!(matches!(decode_all(b"i-0e"), Err(Error::Malformed)));
    assert!(matches!(decode_all(b"i03e"), Err(Error::Malformed)));
    assert!(matches!(decode_all(b"ie"), Err(Error::Malformed)));
    assert!(matches!(decode_all(b"i12"), Err(Error::Malformed)));
}

#[test]
fn malformed_inputs() {
    assert!(matches!(decode_all(b""), Err(Error::Malformed)));
    assert!(matches!(decode_all(b"5:abc"), Err(Error::Malformed)));
    assert!(matches!(decode_all(b"-1:a"), Err(Error::Malformed)));
    assert!(matches!(decode_all(b"l"), Err(Error::Malformed)));
    assert!(matches!(decode_all(b"d3:keye"), Err(Error::Malformed)));
    assert!(matches!(decode_all(b"x"), Err(Error::Malformed)));
    assert!(matches!(decode_all(b"i1ei2e"), Err(Error::Malformed)));
}

#[test]
fn pieces_length_not_multiple_of_twenty_is_malformed() {
    let mut buf = b"d6:pieces21:".to_vec();
    buf.extend_from_slice(&[7u8; 21]);
    buf.push(b'e');
    assert!(matches!(decode_all(&buf), Err(Error::Malformed)));
}

#[test]
fn pieces_are_read_as_digests() {
    let mut buf = b"d6:pieces40:".to_vec();
    buf.extend_from_slice(&[1u8; 20]);
    buf.extend_from_slice(&[2u8; 20]);
    buf.push(b'e');
    match decode_all(&buf) {
        Ok(Value::Dict(d)) => {
            assert_eq!(d.len(), 1);
            assert_eq!(d[0].key, b"pieces".to_vec());
            match &d[0].value {
                Value::Hashes(h) => {
                    assert_eq!(h.len(), 2);
                    assert_eq!(h[0], [1u8; 20]);
                    assert_eq!(h[1], [2u8; 20]);
                }
                other => panic!("unexpected {:?}", other),
            }
        }
        other => panic!("unexpected {:?}", other),
    }
}

#[test]
fn peers_are_read_as_compact_entries() {
    let mut buf = b"d5:peers12:".to_vec();
    buf.extend_from_slice(&[10, 0, 0, 1, 0x1a, 0xe1, 192, 168, 1, 2, 0x1a, 0xe1]);
    buf.push(b'e');
    match decode_all(&buf) {
        Ok(Value::Dict(d)) => match &d[0].value {
            Value::Peers(p) => {
                assert_eq!(p.len(), 2);
                assert_eq!(p[0], [10, 0, 0, 1, 0x1a, 0xe1]);
            }
            other => panic!("unexpected {:?}", other),
        },
        other => panic!("unexpected {:?}", other),
    }
}

#[test]
fn nested_values_keep_source_order() {
    match decode_all(b"d1:bli1e3:xyze1:ad1:ci-5eee") {
        Ok(Value::Dict(d)) => {
            assert_eq!(d.len(), 2);
            assert_eq!(d[0].key, b"b".to_vec());
            assert_eq!(d[1].key, b"a".to_vec());
            match &d[0].value {
                Value::List(l) => {
                    assert_eq!(l.len(), 2);
                    assert!(matches!(l[0], Value::Number(1)));
                    assert!(matches!(&l[1], Value::Str(s) if s == b"xyz"));
                }
                other => panic!("unexpected {:?}", other),
            }
        }
        other => panic!("unexpected {:?}", other),
    }
}

#[test]
fn cursor_moves_past_one_value() {
    let buf = b"i42e4:spam";
    let mut cursor = 0usize;
    assert!(matches!(decode(buf, &mut cursor), Ok(Value::Number(42))));
    assert_eq!(cursor, 4);
    match decode(buf, &mut cursor) {
        Ok(Value::Str(s)) => assert_eq!(s, b"spam".to_vec()),
        other => panic!("unexpected {:?}", other),
    }
    assert_eq!(cursor, 10);
    assert!(matches!(decode(buf, &mut cursor), Err(Error::Malformed)));
    assert_eq!(cursor, 10);
}

#[test]
fn encodes_each_shape() {
    assert_eq!(encode_value(Value::Number(-42)), b"i-42e".to_vec());
    assert_eq!(encode_value(Value::Number(0)), b"i0e".to_vec());
    assert_eq!(encode_value(Value::Number(i64::MIN)), b"i-9223372036854775808e".to_vec());
    assert_eq!(encode_value(Value::Str(b"spam".to_vec())), b"4:spam".to_vec());
    assert_eq!(
        encode_value(Value::List(vec![Value::Number(1), Value::Str(vec![])])),
        b"li1e0:e".to_vec()
    );
    assert_eq!(
        encode_value(dict(vec![(b"a", Value::Number(1)), (b"bb", Value::Str(b"x".to_vec()))])),
        b"d1:ai1e2:bb1:xe".to_vec()
    );
    assert_eq!(encode_value(Value::Hashes(vec![[9u8; 20]])), {
        let mut v = b"20:".to_vec();
        v.extend_from_slice(&[9u8; 20]);
        v
    });
    assert_eq!(
        encode_value(Value::Peers(vec![[1, 2, 3, 4, 0, 80]])),
        vec![b'6', b':', 1, 2, 3, 4, 0, 80]
    );
}

#[test]
fn decode_of_encode_gives_the_value_back() {
    let v = dict(vec![
        (b"count", Value::Number(-17)),
        (b"list", Value::List(vec![Value::Str(vec![0, 255, 10]), dict(vec![])])),
        (b"peers", Value::Peers(vec![[1, 2, 3, 4, 5, 6]])),
        (b"pieces", Value::Hashes(vec![[3u8; 20], [4u8; 20]])),
    ]);
    let bytes = encode_value(v);
    let back = decode_all(&bytes).unwrap();
    assert_eq!(encode_value(back), bytes);
    match decode_all(&bytes).unwrap() {
        Value::Dict(d) => {
            assert_eq!(d.len(), 4);
            assert!(matches!(d[0].value, Value::Number(-17)));
            assert!(matches!(&d[2].value, Value::Peers(p) if p == &vec![[1, 2, 3, 4, 5, 6]]));
            assert!(matches!(&d[3].value, Value::Hashes(h) if h == &vec![[3u8; 20], [4u8; 20]]));
        }
        other => panic!("unexpected {:?}", other),
    }
}

#[test]
fn strict_mode_rejects_keys_out_of_order() {
    assert!(decode_strict(b"d1:ai1e1:bi2ee").is_ok());
    assert!(matches!(decode_strict(b"d1:bi1e1:ai2ee"), Err(Error::Malformed)));
    assert!(matches!(decode_strict(b"d1:ai1e1:ai2ee"), Err(Error::Malformed)));
    assert!(matches!(decode_strict(b"ld1:bi1e1:ai2eee"), Err(Error::Malformed)));
    assert!(decode_all(b"d1:bi1e1:ai2ee").is_ok());
    assert!(key_less(b"ab", b"abc"));
    assert!(key_less(b"abc", b"abd"));
    assert!(!key_less(b"abc", b"abc"));
    assert!(!key_less(b"b", b"abc"));
}

#[test]
fn dictionaries_encode_in_key_order() {
    let v = dict(vec![(b"b", Value::Number(2)), (b"a", Value::Number(1)), (b"ab", Value::Number(3))]);
    assert_eq!(encode_value(v), b"d1:ai1e2:abi3e1:bi2ee".to_vec());
}

#[test]
fn duplicate_keys_keep_the_first_entry() {
    let v = dict(vec![(b"k", Value::Number(1)), (b"a", Value::Number(0)), (b"k", Value::Number(2))]);
    assert_eq!(encode_value(v), b"d1:ai0e1:ki1ee".to_vec());
}

#[test]
fn decoded_out_of_order_dictionary_reencodes_sorted() {
    let v = decode_all(b"d1:bli2e1:ae1:ad1:zi0e1:yi1eee").unwrap();
    assert_eq!(encode_value(v), b"d1:ad1:yi1e1:zi0ee1:bli2e1:aee".to_vec());
}

#[test]
fn signed_number_reader() {
    assert_eq!(get_next_number(b"-42x", 0), Some((-42, 3)));
    assert_eq!(get_next_number(b"i17e", 1), Some((17, 3)));
    assert_eq!(get_next_number(b"0", 0), Some((0, 1)));
    assert_eq!(get_next_number(b"-9223372036854775808", 0), Some((i64::MIN, 20)));
    assert_eq!(get_next_number(b"9223372036854775808", 0), None);
    assert_eq!(get_next_number(b"-0", 0), None);
    assert_eq!(get_next_number(b"007", 0), None);
    assert_eq!(get_next_number(b"-", 0), None);
    assert_eq!(get_next_number(b"x", 0), None);
}

#[test]
fn natural_reader_for_lengths() {
    assert_eq!(get_natural(b"12:", 0, 100), Some((12, 2)));
    assert_eq!(get_natural(b"-1:", 0, 100), None);
    assert_eq!(get_natural(b"101:", 0, 100), None);
}
