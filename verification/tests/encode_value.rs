use ug_erlpack::{
    decode, encode, encode_value, encode_value_into, from_value, to_value, JsonNumber, JsonValue, Term,
};

fn value_float_text(text: &[u8]) -> Option<u64> {
    let s = std::str::from_utf8(text).ok()?;
    s.trim().parse::<f64>().ok().map(f64::to_bits)
}

/// A JSON integer, held as `serde_json` holds one.
fn integer(n: i64) -> JsonValue {
    if n < 0 {
        JsonValue::Number(JsonNumber::NegInt(n))
    } else {
        JsonValue::Number(JsonNumber::PosInt(n as u64))
    }
}

fn uint(n: u64) -> JsonValue {
    JsonValue::Number(JsonNumber::PosInt(n))
}

fn float(f: f64) -> JsonValue {
    JsonValue::Number(JsonNumber::Float(f.to_bits()))
}

fn text(s: &str) -> JsonValue {
    JsonValue::String(s.to_string())
}

fn array(items: Vec<JsonValue>) -> JsonValue {
    JsonValue::Array(items)
}

/// A JSON object, its members in the order of their keys (as `serde_json`'s
/// default map keeps them).
fn object(members: Vec<(&str, JsonValue)>) -> JsonValue {
    let mut members: Vec<(String, JsonValue)> =
        members.into_iter().map(|(k, v)| (k.to_string(), v)).collect();
    members.sort_by(|a, b| a.0.as_bytes().cmp(b.0.as_bytes()));
    JsonValue::Object(members)
}

fn assert_parity(v: &JsonValue) {
    let via_term = encode(&from_value(v)).unwrap_or_else(|e| panic!("encode(from_value) failed: {e:?}"));
    let direct = encode_value(v).unwrap_or_else(|e| panic!("encode_value failed: {e:?}"));
    assert_eq!(
        via_term, direct,
        "encode_value diverged from encode(from_value) for {v:?}\nencode(from_value)={via_term:02x?}\nencode_value     ={direct:02x?}"
    );
}

#[test]
fn parity_null() {
    assert_parity(&JsonValue::Null);
}

#[test]
fn parity_bool_true() {
    assert_parity(&JsonValue::Bool(true));
}

#[test]
fn parity_bool_false() {
    assert_parity(&JsonValue::Bool(false));
}

#[test]
fn parity_int_small_path() {
    for n in [0i64, 1, 7, 42, 127, 128, 254, 255] {
        assert_parity(&integer(n));
    }
}

#[test]
fn parity_int_boundary_255_256() {
    assert_parity(&integer(255));
    assert_parity(&integer(256));
}

#[test]
fn parity_int_negative_within_i32() {
    for n in [-1i64, -127, -128, -255, -256, i64::from(i32::MIN), i64::from(i32::MAX)] {
        assert_parity(&integer(n));
    }
}

#[test]
fn parity_int_outside_i32_into_big() {
    for n in [
        i64::from(i32::MAX) + 1,
        i64::from(i32::MIN) - 1,
        1_234_567_890_123_456_789_i64,
        i64::MAX,
        i64::MIN,
    ] {
        assert_parity(&integer(n));
    }
}

#[test]
fn parity_u64_above_i64_max() {
    assert_parity(&uint(u64::MAX));
    assert_parity(&uint(u64::try_from(i64::MAX).unwrap() + 1));
}

#[test]
fn parity_float_finite() {
    for f in [0.5_f64, -1.5, std::f64::consts::PI, std::f64::consts::E, -3.14e10] {
        assert_parity(&float(f));
    }
}

#[test]
fn parity_string_variants() {
    for s in ["", "x", "hello", "café", "\u{1f389}", "discord.gg/abcd"] {
        assert_parity(&text(s));
    }
}

#[test]
fn parity_array_empty() {
    assert_parity(&array(Vec::new()));
}

#[test]
fn parity_array_simple() {
    assert_parity(&array(vec![integer(1), integer(2), integer(3)]));
}

#[test]
fn parity_array_nested() {
    assert_parity(&array(vec![
        array(vec![integer(1), array(vec![integer(2), array(vec![integer(3), array(vec![])])])]),
        text("x"),
        JsonValue::Null,
        JsonValue::Bool(true),
    ]));
}

#[test]
fn parity_object_empty() {
    assert_parity(&object(vec![]));
}

#[test]
fn parity_object_mixed() {
    assert_parity(&object(vec![
        ("op", integer(0)),
        ("d", JsonValue::Null),
        ("s", integer(42)),
        ("t", text("READY")),
    ]));
}

#[test]
fn parity_object_nested() {
    assert_parity(&object(vec![
        (
            "user",
            object(vec![
                ("id", text("1234567890123456789")),
                ("username", text("alice")),
                ("discriminator", text("0")),
            ]),
        ),
        (
            "guilds",
            array(vec![
                object(vec![
                    ("id", text("456")),
                    ("channels", array(vec![object(vec![("id", text("789")), ("name", text("general"))])])),
                ]),
                object(vec![("id", text("457")), ("channels", array(vec![]))]),
            ]),
        ),
        ("extra", JsonValue::Null),
        ("flag", JsonValue::Bool(true)),
        ("ratio", float(1.5)),
        ("big", uint(9_876_543_210_987_654_321_u64)),
    ]));
}

#[test]
fn parity_object_with_inner_arrays_and_nulls() {
    assert_parity(&object(vec![
        (
            "items",
            array(vec![
                object(vec![("k", integer(1))]),
                object(vec![("k", integer(2))]),
                object(vec![
                    ("k", float(3.5)),
                    ("deeper", array(vec![JsonValue::Null, JsonValue::Bool(false), JsonValue::Bool(true), text("mixed")])),
                ]),
            ]),
        ),
        ("empty_arr", array(vec![])),
        ("empty_obj", object(vec![])),
    ]));
}

fn ready_payload() -> JsonValue {
    object(vec![
        ("op", integer(0)),
        (
            "d",
            object(vec![
                ("v", integer(9)),
                (
                    "user",
                    object(vec![
                        ("id", text("1234567890123456789")),
                        ("username", text("alice")),
                        ("bot", JsonValue::Bool(false)),
                    ]),
                ),
                (
                    "guilds",
                    array(vec![
                        object(vec![
                            ("id", text("111")),
                            ("name", text("G1")),
                            (
                                "channels",
                                array(vec![object(vec![
                                    ("id", text("211")),
                                    ("name", text("general")),
                                    ("type", integer(0)),
                                ])]),
                            ),
                        ]),
                        object(vec![("id", text("222")), ("name", text("G2")), ("channels", array(vec![]))]),
                    ]),
                ),
                ("presences", array(vec![])),
                ("_trace", array(vec![text("underground-gateway")])),
            ]),
        ),
        ("s", integer(1)),
        ("t", text("READY")),
    ])
}

/// A counting global allocator needs `unsafe`; what stands here checks
/// instead that the pre-sized output buffer is written in place, never
/// moved or grown, and that it receives the tail of `encode_value`.
#[test]
fn encode_value_into_zero_alloc_with_presized_buffer() {
    let payload = ready_payload();
    let probe = encode_value(&payload).expect("probe encode_value");
    let mut out: Vec<u8> = Vec::with_capacity(probe.len() * 4);
    let capacity = out.capacity();
    let start = out.as_ptr();
    let res = encode_value_into(&payload, &mut out);
    res.expect("encode_value_into");
    assert_eq!(out.capacity(), capacity, "encode_value_into grew the pre-sized output buffer");
    assert_eq!(out.as_ptr(), start, "encode_value_into moved the pre-sized output buffer");
    assert_eq!(&out[..], &probe[1..], "encode_value_into bytes differ from encode_value tail");
}

fn reference_message(name: &str) -> Vec<u8> {
    match name {
        "nil_atom" => vec![131, 115, 3, b'n', b'i', b'l'],
        "small_int_0" => vec![131, 97, 0],
        "small_int_255" => vec![131, 97, 255],
        "int_256" => vec![131, 98, 0, 0, 1, 0],
        "int_neg1" => vec![131, 98, 255, 255, 255, 255],
        "int_max_i32" => vec![131, 98, 127, 255, 255, 255],
        "snowflake_8bytes" => vec![131, 110, 8, 0, 21, 129, 233, 125, 244, 16, 34, 17],
        "binary_hello" => vec![131, 109, 0, 0, 0, 5, b'h', b'e', b'l', b'l', b'o'],
        "binary_utf8" => {
            let mut v = vec![131, 109, 0, 0, 0, 10];
            v.extend_from_slice("café \u{1f389}".as_bytes());
            v
        }
        "nested_list" => vec![
            131, 108, 0, 0, 0, 3, 97, 1, 108, 0, 0, 0, 2, 97, 2, 97, 3, 106, 97, 4, 106,
        ],
        "simple_map" => vec![
            131, 116, 0, 0, 0, 2, 109, 0, 0, 0, 2, b'o', b'p', 97, 10, 109, 0, 0, 0, 1, b'd', 115,
            3, b'n', b'i', b'l',
        ],
        other => panic!("no reference message named {other}"),
    }
}

fn fixture_value_roundtrip(name: &str) {
    let bytes = reference_message(name);
    let (term, consumed) =
        decode(&bytes, &value_float_text).unwrap_or_else(|e| panic!("decode({name}): {e:?}"));
    assert_eq!(consumed, bytes.len(), "decode({name}) did not consume all bytes");
    let value = to_value(&term).unwrap_or_else(|e| panic!("to_value({name}): {e:?}"));
    let via_term = encode(&from_value(&value)).unwrap_or_else(|e| panic!("encode({name}): {e:?}"));
    let direct = encode_value(&value).unwrap_or_else(|e| panic!("encode_value({name}): {e:?}"));
    assert_eq!(via_term, direct, "fixture {name}: encode_value diverged from encode(from_value)");
}

#[test]
fn fixture_parity_simple_map() {
    fixture_value_roundtrip("simple_map");
}

#[test]
fn fixture_parity_nested_list() {
    fixture_value_roundtrip("nested_list");
}

#[test]
fn fixture_parity_binary_hello() {
    fixture_value_roundtrip("binary_hello");
}

#[test]
fn fixture_parity_binary_utf8() {
    fixture_value_roundtrip("binary_utf8");
}

#[test]
fn fixture_parity_snowflake() {
    fixture_value_roundtrip("snowflake_8bytes");
}

#[test]
fn fixture_parity_small_ints() {
    for name in ["small_int_0", "small_int_255", "int_256", "int_neg1", "int_max_i32"] {
        fixture_value_roundtrip(name);
    }
}

#[test]
fn fixture_parity_atoms_become_strings_then_reencoded_as_binary() {
    let bytes = reference_message("nil_atom");
    let (term, _) = decode(&bytes, &value_float_text).expect("decode nil_atom");
    assert_eq!(term, Term::Atom("nil".into()));
    let value = to_value(&term).expect("to_value");
    assert_eq!(value, JsonValue::Null);
    assert_parity(&value);
}

#[test]
fn encode_value_envelope_matches_manual_term_path() {
    let inner = object(vec![
        ("id", text("1234567890123456789")),
        ("channel_id", text("9876543210987654321")),
        ("content", text("hello world")),
        ("embeds", array(vec![])),
        ("attachments", array(vec![])),
        ("mentions", array(vec![])),
    ]);
    let envelope = object(vec![("op", integer(0)), ("d", inner), ("s", integer(42)), ("t", text("MESSAGE_CREATE"))]);
    let via_term = encode(&from_value(&envelope)).expect("encode(from_value)");
    let direct = encode_value(&envelope).expect("encode_value");
    assert_eq!(via_term, direct);
}
