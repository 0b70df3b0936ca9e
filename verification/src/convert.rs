//! Conversion between terms and JSON values, and direct encoding of JSON
//! values.
use vstd::prelude::*;
use vstd::slice::slice_to_vec;
use vstd::string::*;
use vstd::utf8::*;

use crate::encode::{
    be32_bytes, container_too_long, encoding, push_all, push_be32, push_be64, term_encoding,
    terms_encoding, pairs_encoding, lemma_terms_failure_persists, lemma_pairs_failure_persists, lemma_prefix_trans, EncodeError, EncodeFailure, BINARY_EXT, INTEGER_EXT, LIST_EXT,
    MAP_EXT, NEW_FLOAT_EXT, NIL_EXT, SMALL_ATOM_EXT, SMALL_BIG_EXT, SMALL_INTEGER_EXT, VERSION_BYTE,
};
use crate::term::{Term, TermModel};
use crate::text::{push_char, string_from_utf8, string_of};

verus! {

/// A JSON number, held the way `serde_json` holds one: a non-negative
/// integer, a negative integer, or a finite float (by its IEEE-754 bits).
#[derive(Clone, Copy, Debug, Eq)]
pub enum JsonNumber {
    PosInt(u64),
    NegInt(i64),
    Float(u64),
}

/// A JSON value. An object's members are kept in strictly increasing order
/// of their keys' UTF-8 bytes, one member per key.
#[derive(Debug, PartialEq)]
pub enum JsonValue {
    Null,
    Bool(bool),
    Number(JsonNumber),
    String(String),
    Array(Vec<JsonValue>),
    Object(Vec<(String, JsonValue)>),
}

pub enum JsonModel {
    Null,
    Bool(bool),
    Number(JsonNumber),
    Str(Seq<char>),
    Array(Seq<JsonModel>),
    Object(Seq<(Seq<char>, JsonModel)>),
}

/// The models of a sequence of values.
pub open spec fn view_values(v: Seq<JsonValue>) -> Seq<JsonModel>
    decreases v, 0nat,
{
    Seq::new(v.len(), |i: int| if 0 <= i < v.len() { v[i].view() } else { JsonModel::Null })
}

/// The models of a sequence of object members.
pub open spec fn view_members(v: Seq<(String, JsonValue)>) -> Seq<(Seq<char>, JsonModel)>
    decreases v, 0nat,
{
    Seq::new(
        v.len(),
        |i: int|
            if 0 <= i < v.len() {
                (v[i].0@, v[i].1.view())
            } else {
                (Seq::empty(), JsonModel::Null)
            },
    )
}

impl View for JsonValue {
    type V = JsonModel;

    open spec fn view(&self) -> JsonModel
        decreases self, 1nat,
    {
        match self {
            JsonValue::Null => JsonModel::Null,
            JsonValue::Bool(b) => JsonModel::Bool(*b),
            JsonValue::Number(n) => JsonModel::Number(*n),
            JsonValue::String(s) => JsonModel::Str(s@),
            JsonValue::Array(v) => JsonModel::Array(view_values(v@)),
            JsonValue::Object(v) => JsonModel::Object(view_members(v@)),
        }
    }
}

pub open spec fn spec_as_i64(n: JsonNumber) -> Option<i64> {
    match n {
        JsonNumber::PosInt(u) => if u <= i64::MAX {
            Some(u as i64)
        } else {
            None
        },
        JsonNumber::NegInt(i) => Some(i),
        JsonNumber::Float(_) => None,
    }
}

pub open spec fn spec_as_u64(n: JsonNumber) -> Option<u64> {
    match n {
        JsonNumber::PosInt(u) => Some(u),
        _ => None,
    }
}

/// The JSON number of an integer, as `serde_json`'s `From` conversions
/// build it.
pub open spec fn number_of_int(v: int) -> JsonNumber {
    if v < 0 {
        JsonNumber::NegInt(v as i64)
    } else {
        JsonNumber::PosInt(v as u64)
    }
}

impl JsonNumber {
    /// The number as an `i64`, if it is an integer that fits.
    pub fn as_i64(&self) -> (r: Option<i64>)
        ensures
            r == spec_as_i64(*self),
    {
        match self {
            JsonNumber::PosInt(u) => if *u <= i64::MAX as u64 {
                Some(*u as i64)
            } else {
                None
            },
            JsonNumber::NegInt(i) => Some(*i),
            JsonNumber::Float(_) => None,
        }
    }

    /// The number as a `u64`, if it is a non-negative integer.
    pub fn as_u64(&self) -> (r: Option<u64>)
        ensures
            r == spec_as_u64(*self),
    {
        match self {
            JsonNumber::PosInt(u) => Some(*u),
            _ => None,
        }
    }
}

// ---------------------------------------------------------------------------
// JSON values as terms.
// ---------------------------------------------------------------------------

/// The little-endian base-256 digits of `n`, without trailing zeros.
pub open spec fn le_digits(n: nat) -> Seq<u8>
    decreases n,
{
    if n == 0 {
        seq![]
    } else {
        seq![(n % 256) as u8] + le_digits(n / 256)
    }
}

pub open spec fn nil_chars() -> Seq<char> {
    seq!['n', 'i', 'l']
}

pub open spec fn null_chars() -> Seq<char> {
    seq!['n', 'u', 'l', 'l']
}

pub open spec fn true_chars() -> Seq<char> {
    seq!['t', 'r', 'u', 'e']
}

pub open spec fn false_chars() -> Seq<char> {
    seq!['f', 'a', 'l', 's', 'e']
}

/// The term of a JSON number: an integer when it fits in 32 bits, a big
/// integer when it is an integer that does not, a float otherwise.
pub open spec fn number_term(n: JsonNumber) -> TermModel {
    match spec_as_i64(n) {
        Some(v) => if i32::MIN <= v <= i32::MAX {
            TermModel::Integer(v as i32)
        } else {
            TermModel::Big { sign: v < 0, digits: le_digits((if v < 0 { -v } else { v as int }) as nat) }
        },
        None => match spec_as_u64(n) {
            Some(u) => TermModel::Big { sign: false, digits: le_digits(u as nat) },
            None => match n {
                JsonNumber::Float(bits) => TermModel::Float(bits),
                _ => TermModel::Integer(0),
            },
        },
    }
}

/// The terms of a sequence of JSON values.
pub open spec fn value_terms(vs: Seq<JsonModel>) -> Seq<TermModel>
    decreases vs, 0nat,
{
    Seq::new(vs.len(), |i: int| if 0 <= i < vs.len() { value_term(vs[i]) } else { TermModel::Integer(0) })
}

/// The entries of the map term of a JSON object: each key as a binary of its
/// UTF-8 text, with the term of its value.
pub open spec fn member_terms(ms: Seq<(Seq<char>, JsonModel)>) -> Seq<(TermModel, TermModel)>
    decreases ms, 0nat,
{
    Seq::new(
        ms.len(),
        |i: int|
            if 0 <= i < ms.len() {
                (TermModel::Binary(encode_utf8(ms[i].0)), value_term(ms[i].1))
            } else {
                (TermModel::Integer(0), TermModel::Integer(0))
            },
    )
}

/// The term of a JSON value: `null`, `true`, `false` become atoms, strings
/// become binaries of their UTF-8 text, arrays lists, objects maps keyed by
/// binaries.
pub open spec fn value_term(v: JsonModel) -> TermModel
    decreases v, 1nat,
{
    match v {
        JsonModel::Null => TermModel::Atom(nil_chars()),
        JsonModel::Bool(b) => TermModel::Atom(if b { true_chars() } else { false_chars() }),
        JsonModel::Number(n) => number_term(n),
        JsonModel::Str(s) => TermModel::Binary(encode_utf8(s)),
        JsonModel::Array(vs) => TermModel::List(value_terms(vs)),
        JsonModel::Object(ms) => TermModel::Dict(member_terms(ms)),
    }
}

/// `256` to the power `k`.
pub open spec fn radix_pow(k: nat) -> nat
    decreases k,
{
    if k == 0 {
        1
    } else {
        256 * radix_pow((k - 1) as nat)
    }
}

proof fn lemma_le_digits_short(n: nat, k: nat)
    requires
        n < radix_pow(k),
    ensures
        le_digits(n).len() <= k,
        le_digits(n).len() == 0 || le_digits(n).last() != 0,
    decreases n,
{
    if n > 0 {
        if k == 0 {
        } else {
            assert(n / 256 < radix_pow((k - 1) as nat));
            lemma_le_digits_short(n / 256, (k - 1) as nat);
            if n / 256 == 0 {
                assert(le_digits(n / 256) =~= seq![]);
                assert(n % 256 != 0);
            }
            assert(le_digits(n) =~= seq![(n % 256) as u8] + le_digits(n / 256));
        }
    }
}

pub(crate) proof fn lemma_u64_digits(n: u64)
    ensures
        le_digits(n as nat).len() <= 8,
{
    reveal_with_fuel(radix_pow, 9);
    assert(radix_pow(8) == 0x1_0000_0000_0000_0000);
    lemma_le_digits_short(n as nat, 8);
}

/// The little-endian digits of `n` without trailing zeros (none for zero).
pub fn u64_to_big_digits(n: u64) -> (digits: Vec<u8>)
    ensures
        digits@ == le_digits(n as nat),
{
    let mut digits: Vec<u8> = Vec::new();
    let mut m = n;
    while m > 0
        invariant
            digits@ + le_digits(m as nat) == le_digits(n as nat),
        decreases m,
    {
        let ghost before = digits@;
        digits.push((m % 256) as u8);
        assert(le_digits(m as nat) == seq![(m % 256) as u8] + le_digits((m / 256) as nat));
        assert(digits@ + le_digits((m / 256) as nat) =~= before + le_digits(m as nat));
        m = m / 256;
    }
    assert(le_digits(0) =~= seq![]);
    assert(digits@ =~= le_digits(n as nat));
    digits
}

/// The magnitude of `v`, as an unsigned number.
fn magnitude(v: i64) -> (m: u64)
    ensures
        m == (if v < 0 { -v } else { v as int }),
{
    if v < 0 {
        (-(v + 1)) as u64 + 1
    } else {
        v as u64
    }
}

pub fn number_to_term(n: &JsonNumber) -> (t: Term)
    ensures
        t@ == number_term(*n),
{
    match n.as_i64() {
        Some(v) => {
            if i32::MIN as i64 <= v && v <= i32::MAX as i64 {
                return Term::Integer(v as i32);
            }
            Term::Big { sign: v < 0, digits: u64_to_big_digits(magnitude(v)) }
        },
        None => match n.as_u64() {
            Some(u) => Term::Big { sign: false, digits: u64_to_big_digits(u) },
            None => match n {
                JsonNumber::Float(bits) => Term::Float(*bits),
                _ => Term::Integer(0),
            },
        },
    }
}

fn from_values(vs: &Vec<JsonValue>) -> (r: Vec<Term>)
    ensures
        r@.len() == vs@.len(),
        forall|i: int| 0 <= i < vs@.len() ==> #[trigger] r@[i]@ == value_term(vs@[i]@),
    decreases vs, 0nat,
{
    let mut r: Vec<Term> = Vec::new();
    let mut i: usize = 0;
    while i < vs.len()
        invariant
            i <= vs@.len(),
            r@.len() == i,
            forall|j: int| 0 <= j < i ==> #[trigger] r@[j]@ == value_term(vs@[j]@),
        decreases vs@.len() - i,
    {
        proof {
            assert(decreases_to!(vs => vs@[i as int]));
        }
        r.push(from_value(&vs[i]));
        i = i + 1;
    }
    r
}

fn from_members(ms: &Vec<(String, JsonValue)>) -> (r: Vec<(Term, Term)>)
    ensures
        r@.len() == ms@.len(),
        forall|i: int|
            0 <= i < ms@.len() ==> #[trigger] r@[i].0@ == TermModel::Binary(encode_utf8(ms@[i].0@))
                && r@[i].1@ == value_term(ms@[i].1@),
    decreases ms, 0nat,
{
    let mut r: Vec<(Term, Term)> = Vec::new();
    let mut i: usize = 0;
    while i < ms.len()
        invariant
            i <= ms@.len(),
            r@.len() == i,
            forall|j: int|
                0 <= j < i ==> #[trigger] r@[j].0@ == TermModel::Binary(encode_utf8(ms@[j].0@))
                    && r@[j].1@ == value_term(ms@[j].1@),
        decreases ms@.len() - i,
    {
        proof {
            assert(decreases_to!(ms => ms@[i as int]));
            assert(decreases_to!(ms@[i as int] => ms@[i as int].1));
        }
        let key = Term::Binary(slice_to_vec(ms[i].0.as_str().as_bytes()));
        let value = from_value(&ms[i].1);
        r.push((key, value));
        i = i + 1;
    }
    r
}

/// The term that stands for a JSON value (see `value_term`).
pub fn from_value(value: &JsonValue) -> (t: Term)
    ensures
        t@ == value_term(value@),
    decreases value, 1nat,
{
    match value {
        JsonValue::Null => Term::Atom(string_of(&['n', 'i', 'l'])),
        JsonValue::Bool(true) => Term::Atom(string_of(&['t', 'r', 'u', 'e'])),
        JsonValue::Bool(false) => Term::Atom(string_of(&['f', 'a', 'l', 's', 'e'])),
        JsonValue::Number(n) => number_to_term(n),
        JsonValue::String(s) => Term::Binary(slice_to_vec(s.as_str().as_bytes())),
        JsonValue::Array(arr) => {
            let elems = from_values(arr);
            proof {
                assert forall|i: int| 0 <= i < elems@.len() implies crate::term::view_terms(elems@)[i]
                    == value_terms(view_values(arr@))[i] by {
                    assert(elems@[i]@ == value_term(arr@[i]@));
                    assert(view_values(arr@)[i] == arr@[i]@);
                }
                assert(crate::term::view_terms(elems@) =~= value_terms(view_values(arr@)));
            }
            Term::List(elems)
        },
        JsonValue::Object(obj) => {
            let entries = from_members(obj);
            proof {
                assert forall|i: int| 0 <= i < entries@.len() implies crate::term::view_pairs(entries@)[i]
                    == member_terms(view_members(obj@))[i] by {
                    assert(entries@[i].0@ == TermModel::Binary(encode_utf8(obj@[i].0@)));
                    assert(view_members(obj@)[i] == (obj@[i].0@, obj@[i].1@));
                }
                assert(crate::term::view_pairs(entries@) =~= member_terms(view_members(obj@)));
            }
            Term::Dict(entries)
        },
    }
}


// ---------------------------------------------------------------------------
// Encoding JSON values directly.
// ---------------------------------------------------------------------------

pub(crate) proof fn lemma_ascii_bytes(cs: Seq<char>, bs: Seq<u8>)
    requires
        cs.len() == bs.len(),
        forall|i: int| 0 <= i < cs.len() ==> '\0' <= #[trigger] cs[i] <= '\u{7f}' && cs[i] as u8 == bs[i],
    ensures
        encode_utf8(cs) == bs,
{
    assert(is_ascii_chars(cs));
    is_ascii_chars_encode_utf8(cs);
    assert(encode_utf8(cs) =~= bs);
}

/// Appends an atom whose UTF-8 text is `bytes`.
fn write_small_atom(out: &mut Vec<u8>, bytes: &[u8])
    requires
        bytes@.len() <= 255,
    ensures
        final(out)@ == old(out)@ + seq![SMALL_ATOM_EXT, bytes@.len() as u8] + bytes@,
{
    out.push(SMALL_ATOM_EXT);
    out.push(bytes.len() as u8);
    push_all(out, bytes);
    assert(out@ =~= old(out)@ + seq![SMALL_ATOM_EXT, bytes@.len() as u8] + bytes@);
}

/// Appends a big integer of sign byte `sign_byte` and magnitude `magnitude`,
/// with as few digits as the magnitude needs.
fn write_small_big(sign_byte: u8, magnitude: u64, out: &mut Vec<u8>)
    ensures
        final(out)@ == old(out)@ + seq![SMALL_BIG_EXT, le_digits(magnitude as nat).len() as u8, sign_byte]
            + le_digits(magnitude as nat),
{
    proof {
        lemma_u64_digits(magnitude);
    }
    let mut len: usize = 0;
    let mut m = magnitude;
    while m > 0
        invariant
            len + le_digits(m as nat).len() == le_digits(magnitude as nat).len(),
            le_digits(magnitude as nat).len() <= 8,
        decreases m,
    {
        assert(le_digits(m as nat) == seq![(m % 256) as u8] + le_digits((m / 256) as nat));
        m = m / 256;
        len = len + 1;
    }
    out.push(SMALL_BIG_EXT);
    out.push(len as u8);
    out.push(sign_byte);
    let ghost target = old(out)@ + seq![SMALL_BIG_EXT, le_digits(magnitude as nat).len() as u8, sign_byte]
        + le_digits(magnitude as nat);
    assert(out@ + le_digits(magnitude as nat) =~= target);
    m = magnitude;
    while m > 0
        invariant
            out@ + le_digits(m as nat) == target,
        decreases m,
    {
        let ghost before = out@;
        out.push((m % 256) as u8);
        assert(le_digits(m as nat) == seq![(m % 256) as u8] + le_digits((m / 256) as nat));
        assert(out@ + le_digits((m / 256) as nat) =~= before + le_digits(m as nat));
        m = m / 256;
    }
    assert(out@ =~= out@ + le_digits(0));
}

/// Appends the term of a JSON number.
fn write_number(n: &JsonNumber, out: &mut Vec<u8>)
    ensures
        term_encoding(number_term(*n)) is Ok,
        final(out)@ == old(out)@ + term_encoding(number_term(*n))->Ok_0,
{
    match n.as_i64() {
        Some(v) => {
            if i32::MIN as i64 <= v && v <= i32::MAX as i64 {
                let v32 = v as i32;
                if 0 <= v32 && v32 <= 255 {
                    out.push(SMALL_INTEGER_EXT);
                    out.push(v32 as u8);
                } else {
                    out.push(INTEGER_EXT);
                    push_be32(out, v32 as u32);
                }
                assert(out@ =~= old(out)@ + term_encoding(number_term(*n))->Ok_0);
                return;
            }
            let m = magnitude(v);
            proof {
                lemma_u64_digits(m);
            }
            let sign_byte: u8 = if v < 0 { 1 } else { 0 };
            write_small_big(sign_byte, m, out);
        },
        None => match n.as_u64() {
            Some(u) => {
                proof {
                    lemma_u64_digits(u);
                }
                write_small_big(0, u, out);
            },
            None => match n {
                JsonNumber::Float(bits) => {
                    out.push(NEW_FLOAT_EXT);
                    push_be64(out, *bits);
                    assert(out@ =~= old(out)@ + term_encoding(number_term(*n))->Ok_0);
                },
                JsonNumber::PosInt(_) | JsonNumber::NegInt(_) => {},
            },
        },
    }
}

/// Appends a binary of the bytes `bytes`.
fn write_binary(out: &mut Vec<u8>, bytes: &[u8]) -> (r: Result<(), EncodeError>)
    ensures
        match term_encoding(TermModel::Binary(bytes@)) {
            Ok(b) => r is Ok && final(out)@ == old(out)@ + b,
            Err(e) => r matches Err(x) && x@ == e && final(out)@ == old(out)@,
        },
{
    if bytes.len() > u32::MAX as usize {
        return Err(EncodeError::BinaryTooLong { byte_len: bytes.len() });
    }
    out.push(BINARY_EXT);
    push_be32(out, bytes.len() as u32);
    push_all(out, bytes);
    assert(out@ =~= old(out)@ + term_encoding(TermModel::Binary(bytes@))->Ok_0);
    Ok(())
}

fn write_list(arr: &Vec<JsonValue>, out: &mut Vec<u8>) -> (r: Result<(), EncodeError>)
    ensures
        match term_encoding(TermModel::List(value_terms(view_values(arr@)))) {
            Ok(b) => r is Ok && final(out)@ == old(out)@ + b,
            Err(e) => r matches Err(x) && x@ == e && old(out)@.is_prefix_of(final(out)@),
        },
    decreases arr, 0nat,
{
    let ghost s = value_terms(view_values(arr@));
    if arr.len() == 0 {
        out.push(NIL_EXT);
        assert(s =~= seq![]);
        assert(out@ =~= old(out)@ + seq![NIL_EXT]);
        return Ok(());
    }
    if arr.len() > u32::MAX as usize {
        return Err(EncodeError::ContainerTooLong { kind: "list", arity: arr.len() });
    }
    let ghost start = out@;
    out.push(LIST_EXT);
    push_be32(out, arr.len() as u32);
    let ghost base = out@;
    assert(start.is_prefix_of(base)) by {
        assert(start =~= base.subrange(0, start.len() as int));
    }
    let mut i: usize = 0;
    assert(s.take(0) =~= seq![]);
    assert(out@ =~= base + seq![]);
    while i < arr.len()
        invariant
            s == value_terms(view_values(arr@)),
            s.len() == arr@.len(),
            0 < arr@.len() <= u32::MAX,
            i <= arr@.len(),
            terms_encoding(s.take(i as int)) is Ok,
            out@ == base + terms_encoding(s.take(i as int))->Ok_0,
            start == old(out)@,
            start.is_prefix_of(base),
        decreases arr@.len() - i,
    {
        proof {
            assert(decreases_to!(arr => arr@[i as int]));
            assert(s[i as int] == value_term(arr@[i as int]@));
            assert(s.take(i + 1).drop_last() =~= s.take(i as int));
        }
        let ghost before = out@;
        match encode_value_into(&arr[i], out) {
            Err(e) => {
                proof {
                    lemma_terms_failure_persists(s, i + 1, s.len() as int);
                    assert(s.take(s.len() as int) =~= s);
                    assert(base.is_prefix_of(before)) by {
                        assert(base =~= before.subrange(0, base.len() as int));
                    }
                    lemma_prefix_trans(start, base, before);
                    lemma_prefix_trans(start, before, out@);
                }
                return Err(e);
            },
            Ok(()) => {
                proof {
                    assert(out@ =~= base + terms_encoding(s.take(i + 1))->Ok_0);
                }
            },
        }
        i = i + 1;
    }
    assert(s.take(i as int) =~= s);
    let ghost body = out@;
    out.push(NIL_EXT);
    assert(out@ =~= old(out)@ + term_encoding(TermModel::List(s))->Ok_0);
    Ok(())
}

fn write_map(obj: &Vec<(String, JsonValue)>, out: &mut Vec<u8>) -> (r: Result<(), EncodeError>)
    ensures
        match term_encoding(TermModel::Dict(member_terms(view_members(obj@)))) {
            Ok(b) => r is Ok && final(out)@ == old(out)@ + b,
            Err(e) => r matches Err(x) && x@ == e && old(out)@.is_prefix_of(final(out)@),
        },
    decreases obj, 0nat,
{
    let ghost s = member_terms(view_members(obj@));
    if obj.len() > u32::MAX as usize {
        return Err(EncodeError::ContainerTooLong { kind: "map", arity: obj.len() });
    }
    let ghost start = out@;
    out.push(MAP_EXT);
    push_be32(out, obj.len() as u32);
    let ghost base = out@;
    assert(start.is_prefix_of(base)) by {
        assert(start =~= base.subrange(0, start.len() as int));
    }
    let mut i: usize = 0;
    assert(s.take(0) =~= seq![]);
    assert(out@ =~= base + seq![]);
    while i < obj.len()
        invariant
            s == member_terms(view_members(obj@)),
            s.len() == obj@.len(),
            obj@.len() <= u32::MAX,
            i <= obj@.len(),
            pairs_encoding(s.take(i as int)) is Ok,
            out@ == base + pairs_encoding(s.take(i as int))->Ok_0,
            start == old(out)@,
            start.is_prefix_of(base),
        decreases obj@.len() - i,
    {
        proof {
            assert(decreases_to!(obj => obj@[i as int]));
            assert(decreases_to!(obj@[i as int] => obj@[i as int].1));
            assert(s[i as int] == (TermModel::Binary(encode_utf8(obj@[i as int].0@)), value_term(obj@[i as int].1@)));
            assert(s.take(i + 1).drop_last() =~= s.take(i as int));
        }
        let ghost before = out@;
        match write_binary(out, obj[i].0.as_str().as_bytes()) {
            Err(e) => {
                proof {
                    lemma_pairs_failure_persists(s, i + 1, s.len() as int);
                    assert(s.take(s.len() as int) =~= s);
                    assert(base.is_prefix_of(out@)) by {
                        assert(base =~= out@.subrange(0, base.len() as int));
                    }
                    lemma_prefix_trans(start, base, out@);
                }
                return Err(e);
            },
            Ok(()) => {},
        }
        let ghost middle = out@;
        match encode_value_into(&obj[i].1, out) {
            Err(e) => {
                proof {
                    lemma_pairs_failure_persists(s, i + 1, s.len() as int);
                    assert(s.take(s.len() as int) =~= s);
                    assert(base.is_prefix_of(middle)) by {
                        assert(base =~= middle.subrange(0, base.len() as int));
                    }
                    lemma_prefix_trans(start, base, middle);
                    lemma_prefix_trans(start, middle, out@);
                }
                return Err(e);
            },
            Ok(()) => {},
        }
        proof {
            assert(out@ =~= base + pairs_encoding(s.take(i + 1))->Ok_0);
        }
        i = i + 1;
    }
    assert(s.take(i as int) =~= s);
    assert(out@ =~= old(out)@ + term_encoding(TermModel::Dict(s))->Ok_0);
    Ok(())
}

/// Appends the bytes of the term that `value` stands for (see
/// `value_term`), without building that term.
pub fn encode_value_into(value: &JsonValue, out: &mut Vec<u8>) -> (r: Result<(), EncodeError>)
    ensures
        match term_encoding(value_term(value@)) {
            Ok(b) => r is Ok && final(out)@ == old(out)@ + b,
            Err(e) => r matches Err(x) && x@ == e && old(out)@.is_prefix_of(final(out)@),
        },
    decreases value, 1nat,
{
    match value {
        JsonValue::Null => {
            proof {
                lemma_ascii_bytes(nil_chars(), seq![110u8, 105u8, 108u8]);
            }
            let name: [u8; 3] = [110, 105, 108];
            assert(name@ =~= seq![110u8, 105u8, 108u8]);
            write_small_atom(out, &name);
            Ok(())
        },
        JsonValue::Bool(true) => {
            proof {
                lemma_ascii_bytes(true_chars(), seq![116u8, 114u8, 117u8, 101u8]);
            }
            let name: [u8; 4] = [116, 114, 117, 101];
            assert(name@ =~= seq![116u8, 114u8, 117u8, 101u8]);
            write_small_atom(out, &name);
            Ok(())
        },
        JsonValue::Bool(false) => {
            proof {
                lemma_ascii_bytes(false_chars(), seq![102u8, 97u8, 108u8, 115u8, 101u8]);
            }
            let name: [u8; 5] = [102, 97, 108, 115, 101];
            assert(name@ =~= seq![102u8, 97u8, 108u8, 115u8, 101u8]);
            write_small_atom(out, &name);
            Ok(())
        },
        JsonValue::Number(n) => {
            write_number(n, out);
            Ok(())
        },
        JsonValue::String(s) => write_binary(out, s.as_str().as_bytes()),
        JsonValue::Array(arr) => write_list(arr, out),
        JsonValue::Object(obj) => write_map(obj, out),
    }
}

/// The encoding, behind the version byte, of the term that `value` stands
/// for: `encode_value(v)` writes what `encode(&from_value(v))` writes.
pub fn encode_value(value: &JsonValue) -> (r: Result<Vec<u8>, EncodeError>)
    ensures
        match encoding(value_term(value@)) {
            Ok(b) => r matches Ok(v) && v@ == b,
            Err(e) => r matches Err(x) && x@ == e,
        },
{
    let mut out: Vec<u8> = Vec::new();
    out.push(VERSION_BYTE);
    match encode_value_into(value, &mut out) {
        Err(e) => Err(e),
        Ok(()) => Ok(out),
    }
}

// ---------------------------------------------------------------------------
// Terms as JSON values.
// ---------------------------------------------------------------------------

/// Why a term has no JSON value.
#[derive(Debug)]
pub enum ConvertError {
    BinaryInvalidUtf8 { source: std::string::FromUtf8Error },
    NonStringMapKey { key_kind: &'static str },
    NonFiniteFloat,
}

/// A conversion error without the UTF-8 error detail.
pub enum ConvertFailure {
    BinaryInvalidUtf8,
    NonStringMapKey { key_kind: Seq<char> },
    NonFiniteFloat,
}

impl View for ConvertError {
    type V = ConvertFailure;

    open spec fn view(&self) -> ConvertFailure {
        match self {
            ConvertError::BinaryInvalidUtf8 { .. } => ConvertFailure::BinaryInvalidUtf8,
            ConvertError::NonStringMapKey { key_kind } => ConvertFailure::NonStringMapKey {
                key_kind: key_kind@,
            },
            ConvertError::NonFiniteFloat => ConvertFailure::NonFiniteFloat,
        }
    }
}

/// The stable machine-readable name of each kind of conversion failure.
pub open spec fn convert_failure_name(e: ConvertFailure) -> Seq<char> {
    match e {
        ConvertFailure::BinaryInvalidUtf8 => "binary_invalid_utf8"@,
        ConvertFailure::NonStringMapKey { .. } => "non_string_map_key"@,
        ConvertFailure::NonFiniteFloat => "non_finite_float"@,
    }
}

impl ConvertError {
    pub fn kind_str(&self) -> (r: &'static str)
        ensures
            r@ == convert_failure_name(self@),
    {
        match self {
            Self::BinaryInvalidUtf8 { .. } => "binary_invalid_utf8",
            Self::NonStringMapKey { .. } => "non_string_map_key",
            Self::NonFiniteFloat => "non_finite_float",
        }
    }
}

/// The name of a term's kind.
pub open spec fn term_kind_name(t: TermModel) -> Seq<char> {
    match t {
        TermModel::Atom(_) => "atom"@,
        TermModel::Integer(_) => "integer"@,
        TermModel::Float(_) => "float"@,
        TermModel::Big { .. } => "big"@,
        TermModel::Binary(_) => "binary"@,
        TermModel::Tuple(_) => "tuple"@,
        TermModel::List(_) => "list"@,
        TermModel::Dict(_) => "map"@,
    }
}

/// The atom names that stand for JSON's `null`, `true` and `false`.
pub open spec fn is_sentinel(s: Seq<char>) -> bool {
    s == nil_chars() || s == null_chars() || s == true_chars() || s == false_chars()
}

/// The JSON value of an atom.
pub open spec fn atom_json(s: Seq<char>) -> JsonModel {
    if s == nil_chars() || s == null_chars() {
        JsonModel::Null
    } else if s == true_chars() {
        JsonModel::Bool(true)
    } else if s == false_chars() {
        JsonModel::Bool(false)
    } else {
        JsonModel::Str(s)
    }
}

/// The IEEE-754 bits `bits` stand for a finite number (the exponent field
/// is not all ones).
pub open spec fn finite_bits(bits: u64) -> bool {
    (bits / 0x10_0000_0000_0000) % 0x800 != 0x7ff
}

/// The number that little-endian base-256 digits stand for.
pub open spec fn digits_value(d: Seq<u8>) -> nat
    decreases d.len(),
{
    if d.len() == 0 {
        0
    } else {
        d[0] as nat + 256 * digits_value(d.drop_first())
    }
}

/// The decimal digits of `n`, least significant first (none for zero).
pub open spec fn low_decimal_digits(n: nat) -> Seq<u8>
    decreases n,
{
    if n == 0 {
        seq![]
    } else {
        seq![(n % 10) as u8] + low_decimal_digits(n / 10)
    }
}

pub open spec fn digit_char(d: u8) -> char {
    ((48 + d) as u8) as char
}

/// `n` written in decimal, most significant digit first.
pub open spec fn decimal_chars(n: nat) -> Seq<char> {
    if n == 0 {
        seq!['0']
    } else {
        let ds = low_decimal_digits(n);
        Seq::new(ds.len(), |i: int| digit_char(ds[ds.len() - 1 - i]))
    }
}

/// The decimal text of a big integer: a minus sign when it is negative and
/// not zero, then its magnitude.
pub open spec fn big_text(sign: bool, digits: Seq<u8>) -> Seq<char> {
    let n = digits_value(digits);
    if n != 0 && sign {
        seq!['-'] + decimal_chars(n)
    } else {
        decimal_chars(n)
    }
}

pub const TWO_POW_63: u64 = 0x8000_0000_0000_0000;

/// The JSON value of a big integer: a number when it fits in 64 bits
/// (unsigned when positive, signed when negative), its decimal text
/// otherwise.
pub open spec fn big_json(sign: bool, digits: Seq<u8>) -> JsonModel {
    let m = digits_value(digits);
    if digits.len() <= 8 && !sign {
        JsonModel::Number(JsonNumber::PosInt(m as u64))
    } else if digits.len() <= 8 && m < TWO_POW_63 {
        JsonModel::Number(number_of_int(-m))
    } else if digits.len() <= 8 && m == TWO_POW_63 {
        JsonModel::Number(JsonNumber::NegInt(i64::MIN))
    } else {
        JsonModel::Str(big_text(sign, digits))
    }
}

/// The object key that a map key term stands for.
pub open spec fn key_text(k: TermModel) -> Result<Seq<char>, ConvertFailure> {
    match k {
        TermModel::Binary(b) => if valid_utf8(b) {
            Ok(decode_utf8(b))
        } else {
            Err(ConvertFailure::BinaryInvalidUtf8)
        },
        TermModel::Atom(s) => if !is_sentinel(s) {
            Ok(s)
        } else {
            Err(ConvertFailure::NonStringMapKey { key_kind: "atom"@ })
        },
        _ => Err(ConvertFailure::NonStringMapKey { key_kind: term_kind_name(k) }),
    }
}

/// Byte-wise lexicographic order, shorter first on a common prefix.
pub open spec fn bytes_less(a: Seq<u8>, b: Seq<u8>) -> bool
    decreases a.len(),
{
    if a.len() == 0 {
        b.len() > 0
    } else if b.len() == 0 {
        false
    } else if a[0] != b[0] {
        a[0] < b[0]
    } else {
        bytes_less(a.drop_first(), b.drop_first())
    }
}

/// The order of object keys: that of their UTF-8 bytes.
pub open spec fn key_less(a: Seq<char>, b: Seq<char>) -> bool {
    bytes_less(encode_utf8(a), encode_utf8(b))
}

/// The members after inserting `(k, v)` into members kept in key order: a
/// member with key `k` has its value replaced; otherwise the new member goes
/// after every smaller key.
pub open spec fn member_insert(
    ms: Seq<(Seq<char>, JsonModel)>,
    k: Seq<char>,
    v: JsonModel,
) -> Seq<(Seq<char>, JsonModel)>
    decreases ms.len(),
{
    if ms.len() == 0 {
        seq![(k, v)]
    } else if key_less(ms[0].0, k) {
        seq![ms[0]] + member_insert(ms.drop_first(), k, v)
    } else if ms[0].0 == k {
        seq![(k, v)] + ms.drop_first()
    } else {
        seq![(k, v)] + ms
    }
}

/// The JSON value of a term.
pub open spec fn term_json(t: TermModel) -> Result<JsonModel, ConvertFailure>
    decreases t, 1nat,
{
    match t {
        TermModel::Atom(s) => Ok(atom_json(s)),
        TermModel::Integer(n) => Ok(JsonModel::Number(number_of_int(n as int))),
        TermModel::Float(bits) => if finite_bits(bits) {
            Ok(JsonModel::Number(JsonNumber::Float(bits)))
        } else {
            Err(ConvertFailure::NonFiniteFloat)
        },
        TermModel::Big { sign, digits } => Ok(big_json(sign, digits)),
        TermModel::Binary(b) => if valid_utf8(b) {
            Ok(JsonModel::Str(decode_utf8(b)))
        } else {
            Err(ConvertFailure::BinaryInvalidUtf8)
        },
        TermModel::Tuple(es) => match terms_json(es) {
            Err(e) => Err(e),
            Ok(vs) => Ok(JsonModel::Array(vs)),
        },
        TermModel::List(es) => match terms_json(es) {
            Err(e) => Err(e),
            Ok(vs) => Ok(JsonModel::Array(vs)),
        },
        TermModel::Dict(ps) => match pairs_json(ps) {
            Err(e) => Err(e),
            Ok(ms) => Ok(JsonModel::Object(ms)),
        },
    }
}

/// The JSON values of a run of terms; the first failure wins.
pub open spec fn terms_json(es: Seq<TermModel>) -> Result<Seq<JsonModel>, ConvertFailure>
    decreases es, 0nat,
{
    if es.len() == 0 {
        Ok(seq![])
    } else {
        match terms_json(es.drop_last()) {
            Err(e) => Err(e),
            Ok(vs) => match term_json(es.last()) {
                Err(e) => Err(e),
                Ok(v) => Ok(vs.push(v)),
            },
        }
    }
}

/// The members of the object of a run of map entries, inserted one after
/// another; the first failure wins.
pub open spec fn pairs_json(ps: Seq<(TermModel, TermModel)>) -> Result<
    Seq<(Seq<char>, JsonModel)>,
    ConvertFailure,
>
    decreases ps, 0nat,
{
    if ps.len() == 0 {
        Ok(seq![])
    } else {
        proof {
            assert(decreases_to!(ps => ps[ps.len() - 1]));
        }
        match pairs_json(ps.drop_last()) {
            Err(e) => Err(e),
            Ok(ms) => match key_text(ps.last().0) {
                Err(e) => Err(e),
                Ok(k) => match term_json(ps.last().1) {
                    Err(e) => Err(e),
                    Ok(v) => Ok(member_insert(ms, k, v)),
                },
            },
        }
    }
}


fn chars_equal(s: &str, lit: &[char]) -> (r: bool)
    ensures
        r == (s@ == lit@),
{
    let n = s.unicode_len();
    if n != lit.len() {
        return false;
    }
    let mut i: usize = 0;
    while i < n
        invariant
            n == s@.len(),
            n == lit@.len(),
            i <= n,
            forall|j: int| 0 <= j < i ==> s@[j] == lit@[j],
        decreases n - i,
    {
        if s.get_char(i) != lit[i] {
            return false;
        }
        i = i + 1;
    }
    assert(s@ =~= lit@);
    true
}

/// Whether an atom's name is one that stands for `null`, `true` or `false`.
pub fn is_sentinel_atom(s: &str) -> (r: bool)
    ensures
        r == is_sentinel(s@),
{
    let nil: [char; 3] = ['n', 'i', 'l'];
    let null: [char; 4] = ['n', 'u', 'l', 'l'];
    let t: [char; 4] = ['t', 'r', 'u', 'e'];
    let f: [char; 5] = ['f', 'a', 'l', 's', 'e'];
    assert(nil@ =~= nil_chars() && null@ =~= null_chars() && t@ =~= true_chars() && f@ =~= false_chars());
    chars_equal(s, &nil) || chars_equal(s, &null) || chars_equal(s, &t) || chars_equal(s, &f)
}

fn atom_to_value(s: &str) -> (v: JsonValue)
    ensures
        v@ == atom_json(s@),
{
    let nil: [char; 3] = ['n', 'i', 'l'];
    let null: [char; 4] = ['n', 'u', 'l', 'l'];
    let t: [char; 4] = ['t', 'r', 'u', 'e'];
    let f: [char; 5] = ['f', 'a', 'l', 's', 'e'];
    assert(nil@ =~= nil_chars() && null@ =~= null_chars() && t@ =~= true_chars() && f@ =~= false_chars());
    if chars_equal(s, &nil) || chars_equal(s, &null) {
        JsonValue::Null
    } else if chars_equal(s, &t) {
        JsonValue::Bool(true)
    } else if chars_equal(s, &f) {
        JsonValue::Bool(false)
    } else {
        JsonValue::String(s.to_owned())
    }
}

fn term_kind_str(t: &Term) -> (r: &'static str)
    ensures
        r@ == term_kind_name(t@),
{
    match t {
        Term::Atom(_) => "atom",
        Term::Integer(_) => "integer",
        Term::Float(_) => "float",
        Term::Big { .. } => "big",
        Term::Binary(_) => "binary",
        Term::Tuple(_) => "tuple",
        Term::List(_) => "list",
        Term::Dict(_) => "map",
    }
}

/// The JSON number `serde_json` makes of an `i64`.
fn number_from_i64(v: i64) -> (n: JsonNumber)
    ensures
        n == number_of_int(v as int),
{
    if v < 0 {
        JsonNumber::NegInt(v)
    } else {
        JsonNumber::PosInt(v as u64)
    }
}

fn float_to_value(bits: u64) -> (r: Result<JsonValue, ConvertError>)
    ensures
        finite_bits(bits) ==> (r matches Ok(v) && v@ == JsonModel::Number(JsonNumber::Float(bits))),
        !finite_bits(bits) ==> (r matches Err(e) && e@ == ConvertFailure::NonFiniteFloat),
{
    if (bits / 0x10_0000_0000_0000) % 0x800 != 0x7ff {
        Ok(JsonValue::Number(JsonNumber::Float(bits)))
    } else {
        Err(ConvertError::NonFiniteFloat)
    }
}

fn binary_to_value(bytes: &[u8]) -> (r: Result<JsonValue, ConvertError>)
    ensures
        valid_utf8(bytes@) ==> (r matches Ok(v) && v@ == JsonModel::Str(decode_utf8(bytes@))),
        !valid_utf8(bytes@) ==> (r matches Err(e) && e@ == ConvertFailure::BinaryInvalidUtf8),
{
    match string_from_utf8(slice_to_vec(bytes)) {
        Ok(s) => {
            proof {
                encode_utf8_decode_utf8(s@);
            }
            Ok(JsonValue::String(s))
        },
        Err(source) => Err(ConvertError::BinaryInvalidUtf8 { source }),
    }
}

proof fn lemma_digits_value_skip(d: Seq<u8>, i: int)
    requires
        0 <= i < d.len(),
    ensures
        digits_value(d.skip(i)) == d[i] as nat + 256 * digits_value(d.skip(i + 1)),
{
    assert(d.skip(i).drop_first() =~= d.skip(i + 1));
}

proof fn lemma_digits_value_zero(d: Seq<u8>)
    ensures
        digits_value(d) == 0 <==> forall|i: int| 0 <= i < d.len() ==> d[i] == 0,
    decreases d.len(),
{
    if d.len() > 0 {
        lemma_digits_value_zero(d.drop_first());
        if digits_value(d) == 0 {
            assert forall|i: int| 0 <= i < d.len() implies d[i] == 0 by {
                if i > 0 {
                    assert(d[i] == d.drop_first()[i - 1]);
                }
            }
        }
        if forall|i: int| 0 <= i < d.len() ==> d[i] == 0 {
            assert forall|i: int| 0 <= i < d.drop_first().len() implies d.drop_first()[i] == 0 by {
                assert(d.drop_first()[i] == d[i + 1]);
            }
        }
    }
}

pub(crate) proof fn lemma_digits_value_bound(d: Seq<u8>)
    ensures
        digits_value(d) < radix_pow(d.len()),
    decreases d.len(),
{
    if d.len() > 0 {
        lemma_digits_value_bound(d.drop_first());
    }
}

pub(crate) proof fn lemma_radix_pow_mono(k: nat, j: nat)
    requires
        k <= j,
    ensures
        radix_pow(k) <= radix_pow(j),
    decreases j,
{
    if k < j {
        lemma_radix_pow_mono(k, (j - 1) as nat);
    }
}

/// The number that at most 8 little-endian digits stand for.
fn little_endian_value(digits: &[u8]) -> (m: u64)
    requires
        digits@.len() <= 8,
    ensures
        m == digits_value(digits@),
{
    proof {
        reveal_with_fuel(radix_pow, 8);
        assert(radix_pow(7) == 0x100_0000_0000_0000);
    }
    let mut m: u64 = 0;
    let mut i: usize = digits.len();
    assert(digits@.skip(i as int) =~= seq![]);
    while i > 0
        invariant
            i <= digits@.len() <= 8,
            radix_pow(7) == 0x100_0000_0000_0000,
            m == digits_value(digits@.skip(i as int)),
        decreases i,
    {
        i = i - 1;
        proof {
            lemma_digits_value_skip(digits@, i as int);
            lemma_digits_value_bound(digits@.skip(i + 1));
            lemma_radix_pow_mono(digits@.skip(i + 1).len(), 7);
        }
        m = m * 256 + digits[i] as u64;
    }
    assert(digits@.skip(0) =~= digits@);
    m
}

/// Divides the little-endian number in `work` by ten in place, answering
/// the remainder.
fn divide_by_ten(work: &mut Vec<u8>) -> (rem: u8)
    ensures
        final(work)@.len() == old(work)@.len(),
        rem < 10,
        digits_value(old(work)@) == 10 * digits_value(final(work)@) + rem,
{
    let ghost w0 = work@;
    let mut remainder: u16 = 0;
    let mut i: usize = work.len();
    assert(w0.skip(i as int) =~= seq![]);
    assert(work@.skip(i as int) =~= seq![]);
    while i > 0
        invariant
            i <= work@.len(),
            work@.len() == w0.len(),
            remainder < 10,
            forall|j: int| 0 <= j < i ==> work@[j] == w0[j],
            digits_value(w0.skip(i as int)) == 10 * digits_value(work@.skip(i as int)) + remainder,
        decreases i,
    {
        i = i - 1;
        let current: u16 = remainder * 256 + work[i] as u16;
        let ghost old_work = work@;
        work.set(i, (current / 10) as u8);
        proof {
            lemma_digits_value_skip(w0, i as int);
            lemma_digits_value_skip(work@, i as int);
            assert(work@.skip(i + 1) =~= old_work.skip(i + 1));
        }
        remainder = current % 10;
    }
    assert(w0.skip(0) =~= w0);
    assert(work@.skip(0) =~= work@);
    remainder as u8
}

/// Whether the little-endian number `v` is not zero.
fn any_nonzero(v: &[u8]) -> (r: bool)
    ensures
        r == (digits_value(v@) != 0),
{
    proof {
        lemma_digits_value_zero(v@);
    }
    let mut i: usize = 0;
    while i < v.len()
        invariant
            i <= v@.len(),
            forall|j: int| 0 <= j < i ==> v@[j] == 0,
        decreases v@.len() - i,
    {
        if v[i] != 0 {
            proof {
                lemma_digits_value_zero(v@);
                if digits_value(v@) == 0 {
                    assert(v@[i as int] == 0);
                }
            }
            return true;
        }
        i = i + 1;
    }
    false
}

pub(crate) proof fn lemma_low_digits_small(n: nat)
    ensures
        forall|i: int| 0 <= i < low_decimal_digits(n).len() ==> #[trigger] low_decimal_digits(n)[i] < 10,
    decreases n,
{
    if n > 0 {
        lemma_low_digits_small(n / 10);
        assert forall|i: int| 0 <= i < low_decimal_digits(n).len() implies #[trigger] low_decimal_digits(n)[i] < 10 by {
            if i > 0 {
                assert(low_decimal_digits(n)[i] == low_decimal_digits(n / 10)[i - 1]);
            }
        }
    }
}

/// The decimal text of a big integer (see `big_text`).
fn big_to_decimal_string(sign: bool, digits: &[u8]) -> (s: String)
    ensures
        s@ == big_text(sign, digits@),
{
    let ghost n = digits_value(digits@);
    if !any_nonzero(digits) {
        let zero: [char; 1] = ['0'];
        assert(zero@ =~= seq!['0']);
        return string_of(&zero);
    }
    let mut work: Vec<u8> = slice_to_vec(digits);
    let mut decimal_digits: Vec<u8> = Vec::new();
    assert(low_decimal_digits(n) =~= decimal_digits@ + low_decimal_digits(digits_value(work@)));
    while any_nonzero(work.as_slice())
        invariant
            low_decimal_digits(n) == decimal_digits@ + low_decimal_digits(digits_value(work@)),
        decreases digits_value(work@),
    {
        let ghost w = digits_value(work@);
        let r = divide_by_ten(&mut work);
        proof {
            vstd::arithmetic::div_mod::lemma_fundamental_div_mod_converse(
                w as int,
                10,
                digits_value(work@) as int,
                r as int,
            );
            assert(low_decimal_digits(w) == seq![r] + low_decimal_digits(digits_value(work@)));
        }
        let ghost before = decimal_digits@;
        decimal_digits.push(r);
        assert(decimal_digits@ + low_decimal_digits(digits_value(work@)) =~= before + low_decimal_digits(w));
    }
    assert(decimal_digits@ =~= low_decimal_digits(n));
    proof {
        lemma_low_digits_small(n);
    }
    let mut s = String::new();
    if sign {
        push_char(&mut s, '-');
    }
    let ghost prefix = s@;
    let len = decimal_digits.len();
    let mut i: usize = len;
    assert(s@ =~= prefix + Seq::new((len - i) as nat, |j: int| digit_char(decimal_digits@[len - 1 - j])));
    while i > 0
        invariant
            i <= len == decimal_digits@.len(),
            decimal_digits@ == low_decimal_digits(n),
            forall|j: int| 0 <= j < len ==> #[trigger] decimal_digits@[j] < 10,
            s@ == prefix + Seq::new((len - i) as nat, |j: int| digit_char(decimal_digits@[len - 1 - j])),
        decreases i,
    {
        i = i - 1;
        let d = decimal_digits[i];
        push_char(&mut s, (48u8 + d) as char);
        assert(s@ =~= prefix + Seq::new((len - i) as nat, |j: int| digit_char(decimal_digits@[len - 1 - j])));
    }
    assert(s@ =~= big_text(sign, digits@));
    s
}

/// The JSON value of a big integer (see `big_json`).
fn big_to_value(sign: bool, digits: &[u8]) -> (v: JsonValue)
    ensures
        v@ == big_json(sign, digits@),
{
    if digits.len() <= 8 {
        let magnitude = little_endian_value(digits);
        if !sign {
            return JsonValue::Number(JsonNumber::PosInt(magnitude));
        }
        if magnitude < TWO_POW_63 {
            let m_i64 = magnitude as i64;
            return JsonValue::Number(number_from_i64(-m_i64));
        }
        if magnitude == TWO_POW_63 {
            return JsonValue::Number(JsonNumber::NegInt(i64::MIN));
        }
    }
    JsonValue::String(big_to_decimal_string(sign, digits))
}


proof fn lemma_bytes_less_skip(a: Seq<u8>, b: Seq<u8>, i: int)
    requires
        0 <= i < a.len(),
        i < b.len(),
        a[i] == b[i],
    ensures
        bytes_less(a.skip(i), b.skip(i)) == bytes_less(a.skip(i + 1), b.skip(i + 1)),
{
    assert(a.skip(i).drop_first() =~= a.skip(i + 1));
    assert(b.skip(i).drop_first() =~= b.skip(i + 1));
}

/// Whether `a` comes before `b` in byte-wise lexicographic order.
fn key_precedes(a: &[u8], b: &[u8]) -> (r: bool)
    ensures
        r == bytes_less(a@, b@),
{
    let mut i: usize = 0;
    assert(a@.skip(0) =~= a@ && b@.skip(0) =~= b@);
    while i < a.len() && i < b.len() && a[i] == b[i]
        invariant
            i <= a@.len(),
            i <= b@.len(),
            bytes_less(a@, b@) == bytes_less(a@.skip(i as int), b@.skip(i as int)),
        decreases a@.len() - i,
    {
        proof {
            lemma_bytes_less_skip(a@, b@, i as int);
        }
        i = i + 1;
    }
    if i == a.len() {
        assert(a@.skip(i as int).len() == 0);
        i < b.len()
    } else if i == b.len() {
        assert(b@.skip(i as int).len() == 0);
        false
    } else {
        assert(a@.skip(i as int)[0] == a@[i as int] && b@.skip(i as int)[0] == b@[i as int]);
        a[i] < b[i]
    }
}

/// Inserting after a run of smaller keys keeps that run in front.
proof fn lemma_member_insert_at(ms: Seq<(Seq<char>, JsonModel)>, k: Seq<char>, v: JsonModel, j: int)
    requires
        0 <= j <= ms.len(),
        forall|t: int| 0 <= t < j ==> key_less(#[trigger] ms[t].0, k),
        j < ms.len() ==> !key_less(ms[j].0, k),
    ensures
        member_insert(ms, k, v) == (if j < ms.len() && ms[j].0 == k {
            ms.take(j) + seq![(k, v)] + ms.skip(j + 1)
        } else {
            ms.take(j) + seq![(k, v)] + ms.skip(j)
        }),
    decreases j,
{
    if j == 0 {
        assert(ms.take(0) =~= seq![]);
        assert(ms.skip(0) =~= ms);
        if ms.len() > 0 {
            assert(ms.skip(1) =~= ms.drop_first());
        }
    } else {
        let rest = ms.drop_first();
        assert forall|t: int| 0 <= t < j - 1 implies key_less(#[trigger] rest[t].0, k) by {
            assert(rest[t] == ms[t + 1]);
        }
        assert(key_less(ms[0].0, k));
        lemma_member_insert_at(rest, k, v, j - 1);
        assert(rest.take(j - 1) =~= ms.take(j).drop_first());
        assert(rest.skip(j - 1) =~= ms.skip(j));
        if j < ms.len() {
            assert(rest[j - 1] == ms[j]);
            assert(rest.skip(j) =~= ms.skip(j + 1));
        }
        assert(seq![ms[0]] + ms.take(j).drop_first() =~= ms.take(j));
        if j < ms.len() && ms[j].0 == k {
            assert(seq![ms[0]] + (rest.take(j - 1) + seq![(k, v)] + rest.skip(j)) =~= ms.take(j) + seq![(k, v)]
                + ms.skip(j + 1));
        } else {
            assert(seq![ms[0]] + (rest.take(j - 1) + seq![(k, v)] + rest.skip(j - 1)) =~= ms.take(j)
                + seq![(k, v)] + ms.skip(j));
        }
    }
}

/// Inserts a member into an object kept in key order, as `serde_json`'s map
/// insertion does (see `member_insert`).
fn insert_member(obj: &mut Vec<(String, JsonValue)>, key: String, value: JsonValue)
    ensures
        view_members(final(obj)@) == member_insert(view_members(old(obj)@), key@, value@),
{
    let ghost ms = view_members(obj@);
    let mut j: usize = 0;
    while j < obj.len() && key_precedes(obj[j].0.as_str().as_bytes(), key.as_str().as_bytes())
        invariant
            ms == view_members(obj@),
            obj@ == old(obj)@,
            j <= obj@.len(),
            forall|t: int| 0 <= t < j ==> key_less(#[trigger] ms[t].0, key@),
        decreases obj@.len() - j,
    {
        assert(ms[j as int].0 == obj@[j as int].0@);
        j = j + 1;
    }
    proof {
        if j < obj@.len() {
            assert(ms[j as int].0 == obj@[j as int].0@);
        }
        lemma_member_insert_at(ms, key@, value@, j as int);
    }
    if j < obj.len() && obj[j].0 == key {
        let ghost before = obj@;
        obj.set(j, (key, value));
        assert(view_members(obj@) =~= ms.take(j as int) + seq![(key@, value@)] + ms.skip(j + 1));
    } else {
        let ghost before = obj@;
        let ghost k = key@;
        let ghost val = value@;
        obj.insert(j, (key, value));
        assert(view_members(obj@) =~= ms.take(j as int) + seq![(k, val)] + ms.skip(j as int));
    }
}

proof fn lemma_terms_json_failure_persists(s: Seq<TermModel>, k: int, n: int)
    requires
        0 <= k <= n <= s.len(),
        terms_json(s.take(k)) is Err,
    ensures
        terms_json(s.take(n)) == terms_json(s.take(k)),
    decreases n - k,
{
    if k < n {
        lemma_terms_json_failure_persists(s, k, n - 1);
        assert(s.take(n).drop_last() =~= s.take(n - 1));
    }
}

proof fn lemma_pairs_json_failure_persists(s: Seq<(TermModel, TermModel)>, k: int, n: int)
    requires
        0 <= k <= n <= s.len(),
        pairs_json(s.take(k)) is Err,
    ensures
        pairs_json(s.take(n)) == pairs_json(s.take(k)),
    decreases n - k,
{
    if k < n {
        lemma_pairs_json_failure_persists(s, k, n - 1);
        assert(s.take(n).drop_last() =~= s.take(n - 1));
    }
}

fn sequence_to_value(elems: &Vec<Term>) -> (r: Result<JsonValue, ConvertError>)
    ensures
        match terms_json(crate::term::view_terms(elems@)) {
            Ok(vs) => r matches Ok(v) && v@ == JsonModel::Array(vs),
            Err(e) => r matches Err(x) && x@ == e,
        },
    decreases elems, 0nat,
{
    let ghost s = crate::term::view_terms(elems@);
    let mut arr: Vec<JsonValue> = Vec::new();
    let mut i: usize = 0;
    assert(s.take(0) =~= seq![]);
    assert(view_values(arr@) =~= seq![]);
    while i < elems.len()
        invariant
            s == crate::term::view_terms(elems@),
            i <= elems@.len(),
            terms_json(s.take(i as int)) == Ok::<Seq<JsonModel>, ConvertFailure>(view_values(arr@)),
        decreases elems@.len() - i,
    {
        proof {
            assert(decreases_to!(elems => elems@[i as int]));
            assert(s[i as int] == elems@[i as int]@);
            assert(s.take(i + 1).drop_last() =~= s.take(i as int));
        }
        match to_value(&elems[i]) {
            Err(e) => {
                proof {
                    lemma_terms_json_failure_persists(s, i + 1, s.len() as int);
                    assert(s.take(s.len() as int) =~= s);
                }
                return Err(e);
            },
            Ok(v) => {
                let ghost before = arr@;
                arr.push(v);
                assert(view_values(arr@) =~= view_values(before).push(v@));
            },
        }
        i = i + 1;
    }
    assert(s.take(i as int) =~= s);
    Ok(JsonValue::Array(arr))
}

/// The object key of a map key term (see `key_text`).
fn key_to_string(k: &Term) -> (r: Result<String, ConvertError>)
    ensures
        match key_text(k@) {
            Ok(t) => r matches Ok(s) && s@ == t,
            Err(e) => r matches Err(x) && x@ == e,
        },
{
    match k {
        Term::Binary(bytes) => {
            let copy = bytes.clone();
            assert(copy@ =~= bytes@);
            match string_from_utf8(copy) {
                Ok(s) => {
                    proof {
                        encode_utf8_decode_utf8(s@);
                    }
                    Ok(s)
                },
                Err(source) => Err(ConvertError::BinaryInvalidUtf8 { source }),
            }
        },
        Term::Atom(s) if !is_sentinel_atom(s.as_str()) => Ok(s.clone()),
        other => Err(ConvertError::NonStringMapKey { key_kind: term_kind_str(other) }),
    }
}

fn map_to_value(entries: &Vec<(Term, Term)>) -> (r: Result<JsonValue, ConvertError>)
    ensures
        match pairs_json(crate::term::view_pairs(entries@)) {
            Ok(ms) => r matches Ok(v) && v@ == JsonModel::Object(ms),
            Err(e) => r matches Err(x) && x@ == e,
        },
    decreases entries, 0nat,
{
    let ghost s = crate::term::view_pairs(entries@);
    let mut obj: Vec<(String, JsonValue)> = Vec::new();
    let mut i: usize = 0;
    assert(s.take(0) =~= seq![]);
    assert(view_members(obj@) =~= seq![]);
    while i < entries.len()
        invariant
            s == crate::term::view_pairs(entries@),
            i <= entries@.len(),
            pairs_json(s.take(i as int)) == Ok::<Seq<(Seq<char>, JsonModel)>, ConvertFailure>(
                view_members(obj@),
            ),
        decreases entries@.len() - i,
    {
        proof {
            assert(decreases_to!(entries => entries@[i as int]));
            assert(decreases_to!(entries@[i as int] => entries@[i as int].1));
            assert(s[i as int] == (entries@[i as int].0@, entries@[i as int].1@));
            assert(s.take(i + 1).drop_last() =~= s.take(i as int));
        }
        let key = match key_to_string(&entries[i].0) {
            Err(e) => {
                proof {
                    lemma_pairs_json_failure_persists(s, i + 1, s.len() as int);
                    assert(s.take(s.len() as int) =~= s);
                }
                return Err(e);
            },
            Ok(k) => k,
        };
        let value = match to_value(&entries[i].1) {
            Err(e) => {
                proof {
                    lemma_pairs_json_failure_persists(s, i + 1, s.len() as int);
                    assert(s.take(s.len() as int) =~= s);
                }
                return Err(e);
            },
            Ok(v) => v,
        };
        insert_member(&mut obj, key, value);
        i = i + 1;
    }
    assert(s.take(i as int) =~= s);
    Ok(JsonValue::Object(obj))
}

/// The JSON value of a term (see `term_json`).
pub fn to_value(term: &Term) -> (r: Result<JsonValue, ConvertError>)
    ensures
        match term_json(term@) {
            Ok(v) => r matches Ok(x) && x@ == v,
            Err(e) => r matches Err(x) && x@ == e,
        },
    decreases term, 1nat,
{
    match term {
        Term::Atom(s) => Ok(atom_to_value(s.as_str())),
        Term::Integer(n) => Ok(JsonValue::Number(number_from_i64(*n as i64))),
        Term::Float(bits) => float_to_value(*bits),
        Term::Big { sign, digits } => Ok(big_to_value(*sign, digits.as_slice())),
        Term::Binary(bytes) => binary_to_value(bytes.as_slice()),
        Term::Tuple(elems) => sequence_to_value(elems),
        Term::List(elems) => sequence_to_value(elems),
        Term::Dict(entries) => map_to_value(entries),
    }
}

} // verus!
