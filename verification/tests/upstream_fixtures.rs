use ug_erlpack::{decode, encode, Term};

fn legacy_float_reading(text: &[u8]) -> Option<u64> {
    let s = std::str::from_utf8(text).ok()?;
    s.trim().parse::<f64>().ok().map(f64::to_bits)
}

/// The bytes that `discord/erlpack` writes for each reference value.
fn upstream_bytes(name: &str) -> Vec<u8> {
    match name {
        "nil_atom" => vec![131, 115, 3, b'n', b'i', b'l'],
        "true_atom" => vec![131, 115, 4, b't', b'r', b'u', b'e'],
        "false_atom" => vec![131, 115, 5, b'f', b'a', b'l', b's', b'e'],
        "small_int_0" => vec![131, 97, 0],
        "small_int_255" => vec![131, 97, 255],
        "int_256" => vec![131, 98, 0, 0, 1, 0],
        "int_neg1" => vec![131, 98, 255, 255, 255, 255],
        "int_max_i32" => vec![131, 98, 127, 255, 255, 255],
        "big_2to33" => vec![131, 110, 5, 0, 0, 0, 0, 0, 2],
        "snowflake_8bytes" => vec![131, 110, 8, 0, 21, 129, 233, 125, 244, 16, 34, 17],
        "binary_hello" => vec![131, 109, 0, 0, 0, 5, b'h', b'e', b'l', b'l', b'o'],
        "binary_utf8" => {
            let mut v = vec![131, 109, 0, 0, 0, 10];
            v.extend_from_slice("café \u{1f389}".as_bytes());
            v
        }
        "empty_list" => vec![131, 106],
        "nested_list" => vec![
            131, 108, 0, 0, 0, 3, 97, 1, 108, 0, 0, 0, 2, 97, 2, 97, 3, 106, 97, 4, 106,
        ],
        "simple_map" => vec![
            131, 116, 0, 0, 0, 2, 109, 0, 0, 0, 2, b'o', b'p', 97, 10, 109, 0, 0, 0, 1, b'd', 115,
            3, b'n', b'i', b'l',
        ],
        "tuple_2" => vec![131, 104, 2, 97, 1, 97, 2],
        other => panic!("no reference bytes named {other}"),
    }
}

fn assert_decodes_to(name: &str, expected: &Term) {
    let bytes = upstream_bytes(name);
    let (term, consumed) = decode(&bytes, &legacy_float_reading)
        .unwrap_or_else(|e| panic!("decode({name}) failed: {e:?} (kind={})", e.kind_str()));
    assert_eq!(consumed, bytes.len(), "decode({name}) consumed {consumed} of {} bytes", bytes.len());
    assert_eq!(&term, expected, "decode({name}) produced unexpected Term");
}

#[test]
fn nil_atom() {
    assert_decodes_to("nil_atom", &Term::Atom("nil".into()));
}

#[test]
fn true_atom() {
    assert_decodes_to("true_atom", &Term::Atom("true".into()));
}

#[test]
fn false_atom() {
    assert_decodes_to("false_atom", &Term::Atom("false".into()));
}

#[test]
fn small_int_0() {
    assert_decodes_to("small_int_0", &Term::Integer(0));
}

#[test]
fn small_int_255() {
    assert_decodes_to("small_int_255", &Term::Integer(255));
}

#[test]
fn int_256() {
    assert_decodes_to("int_256", &Term::Integer(256));
}

#[test]
fn int_neg1() {
    assert_decodes_to("int_neg1", &Term::Integer(-1));
}

#[test]
fn int_max_i32() {
    assert_decodes_to("int_max_i32", &Term::Integer(i32::MAX));
}

#[test]
fn big_2to33() {
    assert_decodes_to("big_2to33", &Term::Big { sign: false, digits: vec![0, 0, 0, 0, 2] });
}

#[test]
fn snowflake_8bytes() {
    let id: u64 = 1_234_567_890_123_456_789;
    assert_decodes_to(
        "snowflake_8bytes",
        &Term::Big { sign: false, digits: id.to_le_bytes().to_vec() },
    );
}

#[test]
fn binary_hello() {
    assert_decodes_to("binary_hello", &Term::Binary(b"hello".to_vec()));
}

#[test]
fn binary_utf8() {
    assert_decodes_to("binary_utf8", &Term::Binary("café \u{1f389}".as_bytes().to_vec()));
}

#[test]
fn empty_list() {
    let bytes = upstream_bytes("empty_list");
    assert_eq!(bytes, vec![131, 106], "empty list wire shape");
    assert_decodes_to("empty_list", &Term::List(vec![]));
}

#[test]
fn nested_list() {
    assert_decodes_to(
        "nested_list",
        &Term::List(vec![
            Term::Integer(1),
            Term::List(vec![Term::Integer(2), Term::Integer(3)]),
            Term::Integer(4),
        ]),
    );
}

#[test]
fn simple_map() {
    assert_decodes_to(
        "simple_map",
        &Term::Dict(vec![
            (Term::Binary(b"op".to_vec()), Term::Integer(10)),
            (Term::Binary(b"d".to_vec()), Term::Atom("nil".into())),
        ]),
    );
}

#[test]
fn tuple_2() {
    assert_decodes_to("tuple_2", &Term::Tuple(vec![Term::Integer(1), Term::Integer(2)]));
}

#[test]
fn encoder_matches_upstream_byte_for_byte() {
    let cases = [
        "nil_atom",
        "true_atom",
        "false_atom",
        "small_int_0",
        "small_int_255",
        "int_256",
        "int_neg1",
        "int_max_i32",
        "big_2to33",
        "snowflake_8bytes",
        "binary_hello",
        "binary_utf8",
        "empty_list",
        "nested_list",
        "simple_map",
        "tuple_2",
    ];
    for name in cases {
        let bytes = upstream_bytes(name);
        let (term, _) = decode(&bytes, &legacy_float_reading)
            .unwrap_or_else(|e| panic!("decode {name}: {e:?}"));
        let reencoded = encode(&term).unwrap_or_else(|e| panic!("encode {name}: {e:?}"));
        assert_eq!(reencoded, bytes, "{name}: re-encoded bytes differ from upstream");
    }
}
