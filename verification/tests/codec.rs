use std::rc::Rc;
use std::sync::Arc;

use bobsled::CStringKey;
use bobsled::DataTooShort;
use bobsled::DecodeKey;
use bobsled::EncodeKey;
use bobsled::F32Key;
use bobsled::F64Key;
use bobsled::GreedyKey;
use bobsled::MissingNulTerminator;
use bobsled::StringDecodeError;
use bobsled::Tuple2DecodeError;
use bobsled::VecDecodeError;

#[test]
fn round_trip_unsigned() {
    for v in [0u64, 1, 5, 0xDEAD_BEEF_0123_4567, u64::MAX] {
        let enc = v.encode();
        assert_eq!(enc.len(), 8);
        let (back, rem) = u64::try_decode(&enc).unwrap();
        assert_eq!(back, v);
        assert!(rem.is_empty());
    }
    let (back, rem) = u16::try_decode(&[0x12, 0x34, 0x56]).unwrap();
    assert_eq!(back, 0x1234u16);
    assert_eq!(rem, &[0x56]);
    let (back, _) = u8::try_decode(&[9]).unwrap();
    assert_eq!(back, 9u8);
    let (back, _) = u32::try_decode(&1u32.encode()).unwrap();
    assert_eq!(back, 1u32);
}

#[test]
fn round_trip_signed() {
    for v in [i64::MIN, -1, 0, 1, i64::MAX] {
        let enc = v.encode();
        let (back, rem) = i64::try_decode(&enc).unwrap();
        assert_eq!(back, v);
        assert!(rem.is_empty());
    }
    for v in [i32::MIN, -5, 0, 17, i32::MAX] {
        let (back, _) = i32::try_decode(&v.encode()).unwrap();
        assert_eq!(back, v);
    }
    for v in [i16::MIN, -2, 0, i16::MAX] {
        let (back, _) = i16::try_decode(&v.encode()).unwrap();
        assert_eq!(back, v);
    }
    for v in [i8::MIN, -1, 0, i8::MAX] {
        let (back, _) = i8::try_decode(&v.encode()).unwrap();
        assert_eq!(back, v);
    }
}

#[test]
fn round_trip_float_bits() {
    for f in [-2.5f64, -0.0, 0.0, 1.5, f64::INFINITY, f64::NEG_INFINITY] {
        let key = F64Key { bits: f.to_bits() };
        let enc = key.encode();
        let (back, rem) = F64Key::try_decode(&enc).unwrap();
        assert_eq!(back, key);
        assert!(rem.is_empty());
        assert_eq!(f64::from_bits(back.bits), f);
    }
    for f in [-7.25f32, 0.5] {
        let key = F32Key { bits: f.to_bits() };
        let (back, _) = F32Key::try_decode(&key.encode()).unwrap();
        assert_eq!(f32::from_bits(back.bits), f);
    }
}

#[test]
fn round_trip_string_and_unit() {
    let s = String::from("Hello there!");
    let enc = s.encode();
    assert_eq!(enc.len(), 8 + 12);
    let (back, rem) = String::try_decode(&enc).unwrap();
    assert_eq!(back, s);
    assert!(rem.is_empty());

    let empty = String::new();
    let empty_enc = empty.encode();
    let (back, rem) = String::try_decode(&empty_enc).unwrap();
    assert_eq!(back, empty);
    assert!(rem.is_empty());

    let (back, rem) = <()>::try_decode(&[1, 2]).unwrap();
    assert_eq!(back, ());
    assert_eq!(rem, &[1, 2]);
}

#[test]
fn round_trip_vec_and_tuples() {
    let v: Vec<u16> = vec![3, 1, 0xFFFF];
    let enc = v.encode();
    assert_eq!(enc.len(), 8 + 3 * 2);
    let (back, rem) = Vec::<u16>::try_decode(&enc).unwrap();
    assert_eq!(back, v);
    assert!(rem.is_empty());

    let pair = (1u8, 0x0203u16);
    let enc = pair.encode();
    assert_eq!(enc, vec![1, 2, 3]);
    let (back, rem) = <(u8, u16)>::try_decode(&enc).unwrap();
    assert_eq!(back, pair);
    assert!(rem.is_empty());

    let triple = (1u8, 2u8, String::from("xy"));
    let triple_enc = triple.encode();
    let (back, rem) = <(u8, u8, String)>::try_decode(&triple_enc).unwrap();
    assert_eq!(back, triple);
    assert!(rem.is_empty());
}

#[test]
fn round_trip_greedy() {
    let raw = GreedyKey(vec![0u8, 1, 255]);
    let enc = raw.encode();
    assert_eq!(enc, vec![0, 1, 255]);
    let (back, rem) = GreedyKey::<Vec<u8>>::try_decode(&enc).unwrap();
    assert_eq!(back.0, vec![0, 1, 255]);
    assert!(rem.is_empty());

    let text = GreedyKey(String::from("prefix search"));
    let enc = text.encode();
    assert_eq!(enc, b"prefix search");
    let (back, rem) = GreedyKey::<String>::try_decode(&enc).unwrap();
    assert_eq!(back.0, "prefix search");
    assert!(rem.is_empty());
}

#[test]
fn exact_encodings() {
    assert_eq!(1u16.encode(), vec![0, 1]);
    assert_eq!(0x0102_0304u32.encode(), vec![1, 2, 3, 4]);
    assert_eq!(0i8.encode(), vec![0x80]);
    assert_eq!((-128i8).encode(), vec![0x00]);
    assert_eq!(127i8.encode(), vec![0xFF]);
    assert_eq!(0i64.encode(), vec![0x80, 0, 0, 0, 0, 0, 0, 0]);
    let zero = F64Key { bits: 0.0f64.to_bits() };
    assert_eq!(zero.encode(), vec![0x80, 0, 0, 0, 0, 0, 0, 0]);
    let s = String::from("ab");
    assert_eq!(s.encode(), vec![0, 0, 0, 0, 0, 0, 0, 2, b'a', b'b']);
}

#[test]
fn order_scenario_integers() {
    assert!(5u64.encode() < 6u64.encode());
    assert!((-1i32).encode() < 0i32.encode());
    assert!(0i32.encode() < 1i32.encode());
    assert!(i64::MIN.encode() < (-1i64).encode());
    assert!((-1i64).encode() < 0i64.encode());
    assert!(1u8.encode() < 2u8.encode());
    assert!(0x00FFu16.encode() < 0x0100u16.encode());
}

#[test]
fn order_scenario_floats() {
    let keys = [-2.0f64, -1.0, 0.0, 1.0].map(|f| F64Key { bits: f.to_bits() });
    assert!(keys[0].encode() < keys[1].encode());
    assert!(keys[1].encode() < keys[2].encode());
    assert!(keys[2].encode() < keys[3].encode());

    let small = F32Key {
        bits: (-3.5f32).to_bits(),
    };
    let large = F32Key {
        bits: 0.25f32.to_bits(),
    };
    assert!(small.encode() < large.encode());
}

#[test]
fn order_scenario_tuples() {
    assert!((1u8, 2u8).encode() < (1u8, 3u8).encode());
    assert!((1u8, 200u8).encode() < (2u8, 0u8).encode());
}

#[test]
fn prefix_encoding_is_byte_prefix() {
    let full = (1u8, 0xBEEFu16, 7u8);
    let one = (1u8,);
    let two = (1u8, 0xBEEFu16);
    let full_enc = full.encode();
    assert!(full_enc.starts_with(&one.encode()));
    assert!(full_enc.starts_with(&two.encode()));
}

#[test]
fn decode_errors_fixed_width() {
    assert_eq!(
        u64::try_decode(&[1, 2, 3]),
        Err(DataTooShort {
            expected: 8,
            actual: 3
        })
    );
    assert_eq!(
        u16::try_decode(&[9]),
        Err(DataTooShort {
            expected: 2,
            actual: 1
        })
    );
    assert_eq!(
        i32::try_decode(&[]),
        Err(DataTooShort {
            expected: 4,
            actual: 0
        })
    );
    assert_eq!(
        F64Key::try_decode(&[0; 7]),
        Err(DataTooShort {
            expected: 8,
            actual: 7
        })
    );
}

#[test]
fn decode_errors_string() {
    match String::try_decode(&[0, 0, 0]) {
        Err(StringDecodeError::DataTooShort(e)) => {
            assert_eq!(e.expected, 8);
            assert_eq!(e.actual, 3);
        }
        other => panic!("expected a header error, got {:?}", other),
    }
    // header says 4 bytes, only 2 remain
    match String::try_decode(&[0, 0, 0, 0, 0, 0, 0, 4, b'a', b'b']) {
        Err(StringDecodeError::DataTooShort(e)) => {
            assert_eq!(e.expected, 4);
            assert_eq!(e.actual, 2);
        }
        other => panic!("expected a length error, got {:?}", other),
    }
    // 0xFF alone is not valid UTF-8
    match String::try_decode(&[0, 0, 0, 0, 0, 0, 0, 1, 0xFF]) {
        Err(StringDecodeError::Utf8Error(_)) => {}
        other => panic!("expected a text error, got {:?}", other),
    }
    assert!(GreedyKey::<String>::try_decode(&[0xFF]).is_err());
}

#[test]
fn decode_errors_composite() {
    match Vec::<u16>::try_decode(&[0, 0]) {
        Err(VecDecodeError::HeaderError(e)) => {
            assert_eq!(e.expected, 8);
            assert_eq!(e.actual, 2);
        }
        other => panic!("expected a header error, got {:?}", other),
    }
    // two elements declared, bytes for one and a half
    match Vec::<u16>::try_decode(&[0, 0, 0, 0, 0, 0, 0, 2, 0, 1, 0]) {
        Err(VecDecodeError::ElementError(e)) => {
            assert_eq!(e.expected, 2);
            assert_eq!(e.actual, 1);
        }
        other => panic!("expected an element error, got {:?}", other),
    }
    match <(u16, u16)>::try_decode(&[5]) {
        Err(Tuple2DecodeError::DecodeAError(e)) => {
            assert_eq!(e.expected, 2);
            assert_eq!(e.actual, 1);
        }
        other => panic!("expected a first-field error, got {:?}", other),
    }
    match <(u16, u16)>::try_decode(&[5, 5, 9]) {
        Err(Tuple2DecodeError::DecodeBError(e)) => {
            assert_eq!(e.expected, 2);
            assert_eq!(e.actual, 1);
        }
        other => panic!("expected a second-field error, got {:?}", other),
    }
}

#[test]
fn greedy_from_wraps_the_value() {
    let key: GreedyKey<String> = GreedyKey::from(String::from("abc"));
    assert_eq!(key.0, "abc");
}

#[test]
fn round_trip_cstring() {
    let key = CStringKey::new(b"hi".to_vec()).unwrap();
    let enc = key.encode();
    assert_eq!(enc, vec![b'h', b'i', 0]);

    let mut buf = enc.clone();
    buf.extend_from_slice(&[7, 8]);
    let (back, rem) = CStringKey::try_decode(&buf).unwrap();
    assert_eq!(back.as_bytes(), key.as_bytes());
    assert_eq!(rem, &[7, 8]);

    // no terminator anywhere in the buffer
    assert!(matches!(
        CStringKey::try_decode(&[1, 2, 3]),
        Err(MissingNulTerminator)
    ));
    // interior nul is refused at construction
    assert!(CStringKey::new(vec![1, 0, 2]).is_none());
}

#[test]
fn container_keys_delegate() {
    assert_eq!(Box::new(7u64).encode(), 7u64.encode());
    assert_eq!(Rc::new(-3i32).encode(), (-3i32).encode());
    assert_eq!(Arc::new(String::from("k")).encode(), String::from("k").encode());
}

#[test]
fn round_trip_byte_arrays() {
    let a: [u8; 4] = [9, 8, 7, 255];
    let enc = a.encode();
    assert_eq!(enc, vec![9, 8, 7, 255]);
    let mut buf = enc.clone();
    buf.push(42);
    let (back, rem) = <[u8; 4]>::try_decode(&buf).unwrap();
    assert_eq!(back, a);
    assert_eq!(rem, &[42]);

    assert_eq!(
        <[u8; 4]>::try_decode(&[1, 2]),
        Err(DataTooShort {
            expected: 4,
            actual: 2
        })
    );
    assert!([0u8, 1].encode() < [0u8, 2].encode());
}

#[test]
fn scalar_is_a_prefix_of_its_tuples() {
    let full = (7u16, 0xAABBu16);
    let full_enc = full.encode();
    assert!(full_enc.starts_with(&7u16.encode()));
    let triple = (7u16, 1u8, 2u8);
    assert!(triple.encode().starts_with(&7u16.encode()));
}

#[test]
fn borrowed_str_encodes_like_string() {
    let s = "Hello there!";
    assert_eq!(s.encode(), String::from(s).encode());
    assert_eq!(GreedyKey("ab").encode(), vec![b'a', b'b']);
}
