use ug_erlpack::{decode, encode, splice_map, SplicedValue, Term};

fn splice_float_text(text: &[u8]) -> Option<u64> {
    let s = std::str::from_utf8(text).ok()?;
    s.trim().parse::<f64>().ok().map(f64::to_bits)
}

fn corpus() -> Vec<Vec<(Term, Term)>> {
    vec![
        vec![],
        vec![(Term::Binary(b"op".to_vec()), Term::Integer(10))],
        vec![
            (Term::Binary(b"op".to_vec()), Term::Integer(10)),
            (Term::Atom("ok".into()), Term::Atom("nil".into())),
        ],
        vec![
            (
                Term::Binary(b"a".to_vec()),
                Term::Dict(vec![(Term::Binary(b"x".to_vec()), Term::Integer(1))]),
            ),
            (Term::Binary(b"b".to_vec()), Term::List(vec![Term::Integer(1), Term::Integer(2)])),
        ],
        vec![
            (
                Term::Binary(b"id".to_vec()),
                Term::Big {
                    sign: false,
                    digits: 1_234_567_890_123_456_789_u64.to_le_bytes().to_vec(),
                },
            ),
            (Term::Binary(b"pi".to_vec()), Term::Float(std::f64::consts::PI.to_bits())),
        ],
        vec![(Term::Atom("status".into()), Term::Binary(b"online".to_vec()))],
        vec![
            (Term::Binary(b"name".to_vec()), Term::Binary(b"test".to_vec())),
            (Term::Binary(b"count".to_vec()), Term::Integer(42)),
            (Term::Binary(b"ok".to_vec()), Term::Atom("true".into())),
        ],
        vec![
            (Term::Binary(b"a".to_vec()), Term::Integer(1)),
            (Term::Binary(b"b".to_vec()), Term::Integer(2)),
            (Term::Binary(b"c".to_vec()), Term::Integer(3)),
            (Term::Binary(b"d".to_vec()), Term::Integer(-1)),
            (Term::Binary(b"e".to_vec()), Term::Integer(256)),
        ],
    ]
}

fn extract_value_bytes(key: &Term, value: &Term) -> Vec<u8> {
    let b_solo = encode(&Term::Dict(vec![(key.clone(), value.clone())]))
        .expect("encode single-entry map (real value)");
    let probe = encode(&Term::Dict(vec![(key.clone(), Term::Integer(0))]))
        .expect("encode single-entry map (probe value)");
    assert!(
        probe.len() >= 8,
        "probe length {} is below the 6-byte map prefix + 2-byte small_int suffix floor",
        probe.len()
    );
    let key_len = probe.len() - 8;
    assert!(
        b_solo.len() >= 6 + key_len,
        "b_solo length {} cannot fit the 6-byte map prefix + {key_len}-byte key",
        b_solo.len()
    );
    b_solo[6 + key_len..].to_vec()
}

/// The reference messages of `discord/erlpack` whose top level is a map,
/// with the others, as bytes.
fn reference_messages() -> Vec<(&'static str, Vec<u8>)> {
    vec![
        ("nil_atom", vec![131, 115, 3, b'n', b'i', b'l']),
        ("small_int_255", vec![131, 97, 255]),
        ("int_256", vec![131, 98, 0, 0, 1, 0]),
        ("snowflake_8bytes", vec![131, 110, 8, 0, 21, 129, 233, 125, 244, 16, 34, 17]),
        ("binary_hello", vec![131, 109, 0, 0, 0, 5, b'h', b'e', b'l', b'l', b'o']),
        ("empty_list", vec![131, 106]),
        (
            "nested_list",
            vec![131, 108, 0, 0, 0, 3, 97, 1, 108, 0, 0, 0, 2, 97, 2, 97, 3, 106, 97, 4, 106],
        ),
        (
            "simple_map",
            vec![
                131, 116, 0, 0, 0, 2, 109, 0, 0, 0, 2, b'o', b'p', 97, 10, 109, 0, 0, 0, 1, b'd',
                115, 3, b'n', b'i', b'l',
            ],
        ),
        ("tuple_2", vec![131, 104, 2, 97, 1, 97, 2]),
    ]
}

#[test]
fn owned_only_baseline() {
    for (idx, shape) in corpus().iter().enumerate() {
        let baseline = encode(&Term::Dict(shape.clone())).expect("encode baseline map should succeed");
        let spliced_entries: Vec<(Term, SplicedValue<'_>)> =
            shape.iter().map(|(k, v)| (k.clone(), SplicedValue::Owned(v.clone()))).collect();
        let spliced = splice_map(&spliced_entries).expect("splice_map all-Owned should succeed");
        assert_eq!(
            baseline, spliced,
            "shape {idx}: baseline encode vs all-Owned splice_map must be byte-identical"
        );
    }
}

#[test]
fn mixed_owned_preencoded_equivalence() {
    for (shape_idx, shape) in corpus().iter().enumerate() {
        let baseline = encode(&Term::Dict(shape.clone())).expect("encode baseline map should succeed");
        for n in 0..shape.len() {
            let (key_n, value_n) = &shape[n];
            let v_bytes = extract_value_bytes(key_n, value_n);
            let mixed: Vec<(Term, SplicedValue<'_>)> = shape
                .iter()
                .enumerate()
                .map(|(i, (k, v))| {
                    let value = if i == n {
                        SplicedValue::PreEncoded(&v_bytes)
                    } else {
                        SplicedValue::Owned(v.clone())
                    };
                    (k.clone(), value)
                })
                .collect();
            let spliced = splice_map(&mixed).expect("splice_map with one PreEncoded slot should succeed");
            assert_eq!(
                baseline, spliced,
                "shape {shape_idx} position {n}: splice_map with PreEncoded slot must match all-Owned baseline byte-for-byte"
            );
        }
    }
}

#[test]
fn splice_into_upstream_fixtures() {
    let mut top_level_maps = 0;
    for (name, bytes) in reference_messages() {
        let (term, consumed) = decode(&bytes, &splice_float_text)
            .unwrap_or_else(|e| panic!("decode fixture {name}: {e:?} (kind={})", e.kind_str()));
        assert_eq!(consumed, bytes.len(), "fixture {name}: decode consumed {consumed} of {} bytes", bytes.len());
        let Term::Dict(entries) = term else {
            continue;
        };
        top_level_maps += 1;
        for (idx, (key, value)) in entries.iter().enumerate() {
            let v_bytes = extract_value_bytes(key, value);
            let wrapper = splice_map(&[(
                Term::Binary(b"wrapper".to_vec()),
                SplicedValue::PreEncoded(&v_bytes),
            )])
            .expect("splice_map wrapper");
            let (wrapper_term, wrapper_consumed) = decode(&wrapper, &splice_float_text).unwrap_or_else(|e| {
                panic!("decode wrapper from fixture {name} entry {idx}: {e:?} (kind={})", e.kind_str());
            });
            assert_eq!(
                wrapper_consumed,
                wrapper.len(),
                "fixture {name} entry {idx}: wrapper decode consumed {wrapper_consumed} of {} bytes",
                wrapper.len()
            );
            let Term::Dict(wrapper_entries) = wrapper_term else {
                panic!("fixture {name} entry {idx}: wrapper top-level was not a Map");
            };
            assert_eq!(
                wrapper_entries.len(),
                1,
                "fixture {name} entry {idx}: wrapper map arity was {}, expected 1",
                wrapper_entries.len()
            );
            let (wrapper_key, wrapper_value) = &wrapper_entries[0];
            assert_eq!(
                wrapper_key,
                &Term::Binary(b"wrapper".to_vec()),
                "fixture {name} entry {idx}: wrapper key did not round-trip"
            );
            assert_eq!(
                wrapper_value, value,
                "fixture {name} entry {idx}: spliced value did not round-trip to original decoded value"
            );
        }
    }
    assert!(top_level_maps >= 1, "expected at least one top-level map fixture");
}
