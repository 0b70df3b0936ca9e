use ug_erlpack::convert::{is_sentinel_atom, u64_to_big_digits};
use ug_erlpack::{
    decode, decode_with, encode, encode_value, from_value, splice_map, to_value, ConvertError,
    DecodeConfig, DecodeError, EncodeError, JsonNumber, JsonValue, SplicedValue, Term,
};

fn float_text_value(text: &[u8]) -> Option<u64> {
    let s = std::str::from_utf8(text).ok()?;
    s.trim().parse::<f64>().ok().map(f64::to_bits)
}

fn members(pairs: Vec<(&str, JsonValue)>) -> JsonValue {
    JsonValue::Object(pairs.into_iter().map(|(k, v)| (k.to_string(), v)).collect())
}

#[test]
fn config_defaults_and_builders() {
    let c = DecodeConfig::new();
    assert_eq!(c.big_digit_ceiling, 64);
    assert_eq!(c.max_depth, 32);
    let c = c.with_big_digit_ceiling(3).with_max_depth(7);
    assert_eq!(c.big_digit_ceiling, 3);
    assert_eq!(c.max_depth, 7);
    let d = DecodeConfig::default();
    assert_eq!((d.big_digit_ceiling, d.max_depth), (64, 32));
}

#[test]
fn decoded_term_stays_within_limits_string_ext_at_deepest_level() {
    // A STRING_EXT at the top with max_depth 0 is one list level deep.
    let cfg = DecodeConfig::default().with_max_depth(0);
    let (t, n) = decode_with(&[131, 107, 0, 1, 97], &cfg, &float_text_value).expect("decodes");
    assert_eq!(t, Term::List(vec![Term::Integer(97)]));
    assert_eq!(n, 5);
    // A tuple holding something is refused at the same limit.
    let err = decode_with(&[131, 104, 1, 97, 0], &cfg, &float_text_value).expect_err("too deep");
    assert!(matches!(err, DecodeError::MaxDepthExceeded { depth: 1, ceiling: 0, offset: 3 }), "{err:?}");
    // An empty tuple is not.
    let (t, _) = decode_with(&[131, 104, 0], &cfg, &float_text_value).expect("empty tuple");
    assert_eq!(t, Term::Tuple(vec![]));
}

#[test]
fn trailing_bytes_do_not_change_the_decode() {
    let data = encode(&Term::Tuple(vec![Term::Atom("ok".into()), Term::Integer(7)])).unwrap();
    let (t1, n1) = decode(&data, &float_text_value).unwrap();
    let mut longer = data[..n1].to_vec();
    longer.extend_from_slice(&[104, 200, 1, 2, 3]);
    let (t2, n2) = decode(&longer, &float_text_value).unwrap();
    assert_eq!(t1, t2);
    assert_eq!(n1, n2);
    assert_eq!(n1, data.len());
}

#[test]
fn encode_exact_bytes() {
    assert_eq!(encode(&Term::Integer(-2)).unwrap(), vec![131, 98, 255, 255, 255, 254]);
    assert_eq!(
        encode(&Term::Float(1.5f64.to_bits())).unwrap(),
        vec![131, 70, 0x3f, 0xf8, 0, 0, 0, 0, 0, 0]
    );
    assert_eq!(
        encode(&Term::Big { sign: true, digits: vec![1, 2] }).unwrap(),
        vec![131, 110, 2, 1, 1, 2]
    );
    assert_eq!(encode(&Term::Atom("é".into())).unwrap(), vec![131, 115, 2, 0xc3, 0xa9]);
    let large: Vec<Term> = (0..256).map(|_| Term::Integer(1)).collect();
    let bytes = encode(&Term::Tuple(large)).unwrap();
    assert_eq!(&bytes[..6], &[131, 105, 0, 0, 1, 0]);
}

#[test]
fn encode_errors() {
    let err = encode(&Term::Atom("a".repeat(255))).expect_err("atom too long");
    assert_eq!(err.kind_str(), "atom_too_long");
    assert!(matches!(err, EncodeError::AtomTooLong { byte_len: 255 }));
    let err = encode(&Term::Big { sign: false, digits: vec![1; 9] }).expect_err("too many digits");
    assert_eq!(err.kind_str(), "big_too_many_digits");
    assert!(matches!(err, EncodeError::BigTooManyDigits { digit_count: 9 }));
    // An error deep inside a container comes out unchanged.
    let nested = Term::List(vec![Term::Integer(1), Term::Dict(vec![(Term::Atom("k".into()), Term::Atom("b".repeat(300)))])]);
    assert!(matches!(encode(&nested), Err(EncodeError::AtomTooLong { byte_len: 300 })));
    assert_eq!(EncodeError::BinaryTooLong { byte_len: 1 }.kind_str(), "binary_too_long");
    assert_eq!(EncodeError::ContainerTooLong { kind: "map", arity: 1 }.kind_str(), "container_too_long");
}

#[test]
fn decode_other_term_kinds() {
    // Legacy FLOAT_EXT: text padded with NUL bytes.
    let mut bytes = vec![131u8, 99];
    let mut field = b"1.50000000000000000000e+00".to_vec();
    field.resize(31, 0);
    bytes.extend_from_slice(&field);
    let (t, n) = decode(&bytes, &float_text_value).unwrap();
    assert_eq!(t, Term::Float(1.5f64.to_bits()));
    assert_eq!(n, 33);
    // Latin-1 atom.
    let (t, _) = decode(&[131, 100, 0, 2, b'c', 0xe9], &float_text_value).unwrap();
    assert_eq!(t, Term::Atom("cé".into()));
    // UTF-8 atoms.
    let (t, _) = decode(&[131, 118, 0, 2, 0xc3, 0xa9], &float_text_value).unwrap();
    assert_eq!(t, Term::Atom("é".into()));
    let (t, _) = decode(&[131, 119, 3, b'a', 0xc3, 0xa9], &float_text_value).unwrap();
    assert_eq!(t, Term::Atom("aé".into()));
    // LARGE_BIG_EXT and negative INTEGER_EXT.
    let (t, _) = decode(&[131, 111, 0, 0, 0, 2, 1, 5, 6], &float_text_value).unwrap();
    assert_eq!(t, Term::Big { sign: true, digits: vec![5, 6] });
    let (t, _) = decode(&[131, 98, 255, 255, 255, 0], &float_text_value).unwrap();
    assert_eq!(t, Term::Integer(-256));
    // A map.
    let (t, _) = decode(&[131, 116, 0, 0, 0, 1, 97, 1, 106], &float_text_value).unwrap();
    assert_eq!(t, Term::Dict(vec![(Term::Integer(1), Term::List(vec![]))]));
}

#[test]
fn decode_eof_inside_container() {
    let err = decode(&[131, 108, 0, 0, 0, 2, 97, 1], &float_text_value).expect_err("eof");
    assert!(matches!(err, DecodeError::UnexpectedEof { needed: 1, available: 0, offset: 8 }), "{err:?}");
    let err = decode(&[131, 108, 0, 0, 0, 1, 97, 1], &float_text_value).expect_err("missing tail");
    assert!(matches!(err, DecodeError::UnexpectedEof { needed: 1, available: 0, offset: 8 }), "{err:?}");
    let err = decode(&[131, 110, 2, 0, 7], &float_text_value).expect_err("short big");
    assert!(matches!(err, DecodeError::UnexpectedEof { .. }), "{err:?}");
}

#[test]
fn splice_mixes_owned_and_preencoded() {
    let pre = [97u8, 9];
    let out = splice_map(&[
        (Term::Binary(b"a".to_vec()), SplicedValue::PreEncoded(&pre)),
        (Term::Atom("b".into()), SplicedValue::Owned(Term::Integer(300))),
    ])
    .unwrap();
    assert_eq!(
        out,
        vec![131, 116, 0, 0, 0, 2, 109, 0, 0, 0, 1, b'a', 97, 9, 115, 1, b'b', 98, 0, 0, 1, 44]
    );
    let err = splice_map(&[(Term::Atom("x".repeat(256)), SplicedValue::PreEncoded(&pre))]).expect_err("key too long");
    assert_eq!(err.kind_str(), "atom_too_long");
}

#[test]
fn json_value_survives_its_term() {
    let v = members(vec![
        ("a", JsonValue::Null),
        ("b", JsonValue::Bool(true)),
        ("c", JsonValue::Bool(false)),
        ("d", JsonValue::Number(JsonNumber::NegInt(i64::MIN))),
        ("e", JsonValue::Number(JsonNumber::PosInt(u64::MAX))),
        ("f", JsonValue::Number(JsonNumber::NegInt(-5))),
        ("g", JsonValue::Number(JsonNumber::Float((-2.25f64).to_bits()))),
        ("h", JsonValue::String("nil".into())),
        ("i", JsonValue::Array(vec![JsonValue::Number(JsonNumber::PosInt(70000)), JsonValue::String("é".into())])),
    ]);
    let back = to_value(&from_value(&v)).expect("to_value");
    assert_eq!(back, v);
}

#[test]
fn term_json_objects_come_out_ordered_without_repeats() {
    let t = Term::Dict(vec![
        (Term::Binary(b"zeta".to_vec()), Term::Integer(1)),
        (Term::Atom("alpha".into()), Term::Integer(2)),
        (Term::Binary(b"zeta".to_vec()), Term::Integer(3)),
        (Term::Binary(b"mid".to_vec()), Term::Atom("nil".into())),
    ]);
    let v = to_value(&t).expect("to_value");
    assert_eq!(
        v,
        members(vec![
            ("alpha", JsonValue::Number(JsonNumber::PosInt(2))),
            ("mid", JsonValue::Null),
            ("zeta", JsonValue::Number(JsonNumber::PosInt(3))),
        ])
    );
}

#[test]
fn term_json_scalars() {
    assert_eq!(to_value(&Term::Atom("null".into())).unwrap(), JsonValue::Null);
    assert_eq!(to_value(&Term::Atom("true".into())).unwrap(), JsonValue::Bool(true));
    assert_eq!(to_value(&Term::Atom("other".into())).unwrap(), JsonValue::String("other".into()));
    assert_eq!(to_value(&Term::Integer(-3)).unwrap(), JsonValue::Number(JsonNumber::NegInt(-3)));
    assert_eq!(
        to_value(&Term::Tuple(vec![Term::Integer(1)])).unwrap(),
        JsonValue::Array(vec![JsonValue::Number(JsonNumber::PosInt(1))])
    );
    assert_eq!(
        to_value(&Term::Binary("héllo".as_bytes().to_vec())).unwrap(),
        JsonValue::String("héllo".into())
    );
}

#[test]
fn big_integers_as_json() {
    // Fits in 64 bits: a number.
    let t = Term::Big { sign: true, digits: vec![0, 0, 0, 0, 0, 0, 0, 0x80] };
    assert_eq!(to_value(&t).unwrap(), JsonValue::Number(JsonNumber::NegInt(i64::MIN)));
    let t = Term::Big { sign: true, digits: vec![1] };
    assert_eq!(to_value(&t).unwrap(), JsonValue::Number(JsonNumber::NegInt(-1)));
    let t = Term::Big { sign: false, digits: vec![] };
    assert_eq!(to_value(&t).unwrap(), JsonValue::Number(JsonNumber::PosInt(0)));
    // Past 64 bits: decimal text.
    let t = Term::Big { sign: true, digits: vec![0, 0, 0, 0, 0, 0, 0, 0, 1] };
    assert_eq!(to_value(&t).unwrap(), JsonValue::String("-18446744073709551616".into()));
    let t = Term::Big { sign: true, digits: vec![0, 0, 0, 0, 0, 0, 0, 0x80, 0] };
    assert_eq!(to_value(&t).unwrap(), JsonValue::String("-9223372036854775808".into()));
    let t = Term::Big { sign: true, digits: vec![0; 9] };
    assert_eq!(to_value(&t).unwrap(), JsonValue::String("0".into()));
    let t = Term::Big { sign: true, digits: vec![0, 0, 0, 0, 0, 0, 0, 0x81] };
    assert_eq!(to_value(&t).unwrap(), JsonValue::String("-9295429630892703744".into()));
}

#[test]
fn convert_errors() {
    let err = to_value(&Term::Binary(vec![0xff])).expect_err("invalid utf-8");
    assert_eq!(err.kind_str(), "binary_invalid_utf8");
    assert!(matches!(err, ConvertError::BinaryInvalidUtf8 { .. }));
    let err = to_value(&Term::Dict(vec![(Term::Integer(1), Term::Integer(2))])).expect_err("integer key");
    assert_eq!(err.kind_str(), "non_string_map_key");
    assert!(matches!(err, ConvertError::NonStringMapKey { key_kind: "integer" }));
    let err = to_value(&Term::Dict(vec![(Term::Atom("nil".into()), Term::Integer(2))])).expect_err("sentinel key");
    assert!(matches!(err, ConvertError::NonStringMapKey { key_kind: "atom" }));
    let err = to_value(&Term::Dict(vec![(Term::Binary(vec![0xc3]), Term::Integer(2))])).expect_err("bad key text");
    assert!(matches!(err, ConvertError::BinaryInvalidUtf8 { .. }));
    let err = to_value(&Term::Float(f64::INFINITY.to_bits())).expect_err("infinite");
    assert_eq!(err.kind_str(), "non_finite_float");
    let err = to_value(&Term::Float(f64::NAN.to_bits())).expect_err("nan");
    assert!(matches!(err, ConvertError::NonFiniteFloat));
    // The first failure in a list wins.
    let err = to_value(&Term::List(vec![Term::Float(f64::NAN.to_bits()), Term::Binary(vec![0xff])])).expect_err("first");
    assert!(matches!(err, ConvertError::NonFiniteFloat));
}

#[test]
fn json_numbers_as_terms() {
    assert_eq!(from_value(&JsonValue::Number(JsonNumber::PosInt(300))), Term::Integer(300));
    assert_eq!(
        from_value(&JsonValue::Number(JsonNumber::PosInt(1 << 40))),
        Term::Big { sign: false, digits: vec![0, 0, 0, 0, 0, 1] }
    );
    assert_eq!(
        from_value(&JsonValue::Number(JsonNumber::NegInt(i64::MIN))),
        Term::Big { sign: true, digits: vec![0, 0, 0, 0, 0, 0, 0, 0x80] }
    );
    assert_eq!(from_value(&JsonValue::String("a".into())), Term::Binary(vec![b'a']));
    assert_eq!(u64_to_big_digits(0), Vec::<u8>::new());
    assert_eq!(u64_to_big_digits(0x0102), vec![2, 1]);
    assert_eq!(JsonNumber::PosInt(u64::MAX).as_i64(), None);
    assert_eq!(JsonNumber::NegInt(-1).as_u64(), None);
    assert_eq!(JsonNumber::PosInt(5).as_i64(), Some(5));
    assert_eq!(
        encode_value(&JsonValue::Number(JsonNumber::PosInt(u64::MAX))).unwrap(),
        vec![131, 110, 8, 0, 255, 255, 255, 255, 255, 255, 255, 255]
    );
}

#[test]
fn sentinel_atom_names() {
    for s in ["nil", "null", "true", "false"] {
        assert!(is_sentinel_atom(s));
    }
    for s in ["", "nul", "True", "nils"] {
        assert!(!is_sentinel_atom(s));
    }
}

#[test]
fn decode_error_kind_names() {
    assert_eq!(
        DecodeError::MaxDepthExceeded { depth: 1, ceiling: 0, offset: 0 }.kind_str(),
        "max_depth_exceeded"
    );
    assert_eq!(DecodeError::ImproperList { tail_tag: 1, offset: 0 }.kind_str(), "improper_list");
}

#[test]
fn float_terms_compare_as_numbers() {
    let zero = Term::Float(0.0f64.to_bits());
    let neg_zero = Term::Float((-0.0f64).to_bits());
    assert_eq!(zero, neg_zero);
    let nan = Term::Float(f64::NAN.to_bits());
    assert_ne!(nan, nan);
    assert_ne!(Term::Float(1.0f64.to_bits()), Term::Float(2.0f64.to_bits()));
    assert_eq!(
        Term::Dict(vec![(Term::Atom("k".into()), Term::List(vec![zero]))]),
        Term::Dict(vec![(Term::Atom("k".into()), Term::List(vec![neg_zero]))])
    );
    assert_ne!(Term::Tuple(vec![Term::Integer(1)]), Term::List(vec![Term::Integer(1)]));
    assert_ne!(
        Term::Big { sign: false, digits: vec![1] },
        Term::Big { sign: true, digits: vec![1] }
    );
    assert_eq!(JsonNumber::Float(0.0f64.to_bits()), JsonNumber::Float((-0.0f64).to_bits()));
    assert_ne!(JsonNumber::PosInt(1), JsonNumber::NegInt(1));
}
