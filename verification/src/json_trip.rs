//! A JSON value survives the trip through its term.
use vstd::prelude::*;
use vstd::utf8::*;

use crate::convert::{
    decimal_chars, digit_char, low_decimal_digits, lemma_ascii_bytes, lemma_low_digits_small,
    lemma_digits_value_bound, radix_pow, false_chars, nil_chars, true_chars,
    big_json, bytes_less, digits_value, finite_bits, key_less, key_text, le_digits, member_insert,
    member_terms, number_of_int, number_term, pairs_json, spec_as_i64, term_json, terms_json,
    value_term, value_terms, ConvertFailure, JsonModel, JsonNumber, TWO_POW_63,
};
use crate::encode::{be32_bytes, encoding, term_encoding};
use crate::term::TermModel;

verus! {

broadcast use {encode_utf8_valid_utf8, encode_utf8_decode_utf8};

/// A number as `serde_json` holds one: `NegInt` only for negative integers,
/// `Float` only for finite ones.
pub open spec fn number_wf(n: JsonNumber) -> bool {
    match n {
        JsonNumber::PosInt(_) => true,
        JsonNumber::NegInt(i) => i < 0,
        JsonNumber::Float(bits) => finite_bits(bits),
    }
}

/// A JSON value as `serde_json` builds one: its numbers are well formed and
/// the keys of each object strictly increase.
pub open spec fn json_wf(v: JsonModel) -> bool
    decreases v,
{
    match v {
        JsonModel::Number(n) => number_wf(n),
        JsonModel::Array(vs) => forall|i: int| 0 <= i < vs.len() ==> json_wf(#[trigger] vs[i]),
        JsonModel::Object(ms) => (forall|i: int, j: int|
            0 <= i < j < ms.len() ==> key_less(#[trigger] ms[i].0, #[trigger] ms[j].0)) && (forall|
            i: int,
        |
            0 <= i < ms.len() ==> json_wf(#[trigger] ms[i].1)),
        _ => true,
    }
}

proof fn lemma_le_digits_value(n: nat)
    ensures
        digits_value(le_digits(n)) == n,
    decreases n,
{
    if n > 0 {
        lemma_le_digits_value(n / 256);
        let d = le_digits(n);
        assert(d.drop_first() =~= le_digits(n / 256));
    }
}

proof fn lemma_u64_le_digits(n: u64)
    ensures
        le_digits(n as nat).len() <= 8,
        digits_value(le_digits(n as nat)) == n,
{
    crate::convert::lemma_u64_digits(n);
    lemma_le_digits_value(n as nat);
}

proof fn lemma_number_trip(n: JsonNumber)
    requires
        number_wf(n),
    ensures
        term_json(number_term(n)) == Ok::<JsonModel, ConvertFailure>(JsonModel::Number(n)),
{
    match spec_as_i64(n) {
        Some(v) => {
            if !(i32::MIN <= v <= i32::MAX) {
                let m: int = if v < 0 { -v } else { v as int };
                assert(0 <= m <= TWO_POW_63);
                lemma_u64_le_digits(m as u64);
                let d = le_digits(m as nat);
                if v < 0 {
                    assert(big_json(true, d) == JsonModel::Number(number_of_int(v as int)));
                }
            }
        },
        None => {
            if let JsonNumber::PosInt(u) = n {
                lemma_u64_le_digits(u);
            }
        },
    }
}

/// Inserting a key greater than every key present appends the member.
proof fn lemma_member_insert_last(ms: Seq<(Seq<char>, JsonModel)>, k: Seq<char>, v: JsonModel)
    requires
        forall|i: int| 0 <= i < ms.len() ==> key_less(#[trigger] ms[i].0, k),
    ensures
        member_insert(ms, k, v) == ms.push((k, v)),
    decreases ms.len(),
{
    if ms.len() > 0 {
        assert(key_less(ms[0].0, k));
        let rest = ms.drop_first();
        assert forall|i: int| 0 <= i < rest.len() implies key_less(#[trigger] rest[i].0, k) by {
            assert(rest[i] == ms[i + 1]);
        }
        lemma_member_insert_last(rest, k, v);
        assert(seq![ms[0]] + rest.push((k, v)) =~= ms.push((k, v)));
    }
}

proof fn lemma_values_trip(vs: Seq<JsonModel>)
    requires
        forall|i: int| 0 <= i < vs.len() ==> json_wf(#[trigger] vs[i]),
    ensures
        terms_json(value_terms(vs)) == Ok::<Seq<JsonModel>, ConvertFailure>(vs),
    decreases vs, 0nat,
{
    if vs.len() > 0 {
        let init = vs.drop_last();
        assert(decreases_to!(vs => vs[vs.len() - 1]));
        assert forall|i: int| 0 <= i < init.len() implies json_wf(#[trigger] init[i]) by {
            assert(init[i] == vs[i]);
        }
        lemma_values_trip(init);
        lemma_json_trip(vs[vs.len() - 1]);
        let ts = value_terms(vs);
        assert(ts.drop_last() =~= value_terms(init));
        assert(ts.last() == value_term(vs.last()));
        assert(init.push(vs.last()) =~= vs);
    } else {
        assert(value_terms(vs) =~= seq![]);
        assert(vs =~= seq![]);
    }
}

proof fn lemma_members_trip(ms: Seq<(Seq<char>, JsonModel)>)
    requires
        forall|i: int, j: int| 0 <= i < j < ms.len() ==> key_less(#[trigger] ms[i].0, #[trigger] ms[j].0),
        forall|i: int| 0 <= i < ms.len() ==> json_wf(#[trigger] ms[i].1),
    ensures
        pairs_json(member_terms(ms)) == Ok::<Seq<(Seq<char>, JsonModel)>, ConvertFailure>(ms),
    decreases ms, 0nat,
{
    if ms.len() > 0 {
        let init = ms.drop_last();
        let (k, v) = ms.last();
        assert(decreases_to!(ms => ms[ms.len() - 1]));
        assert forall|i: int, j: int| 0 <= i < j < init.len() implies key_less(
            #[trigger] init[i].0,
            #[trigger] init[j].0,
        ) by {
            assert(init[i] == ms[i] && init[j] == ms[j]);
        }
        assert forall|i: int| 0 <= i < init.len() implies json_wf(#[trigger] init[i].1) by {
            assert(init[i] == ms[i]);
        }
        assert forall|i: int| 0 <= i < init.len() implies key_less(#[trigger] init[i].0, k) by {
            assert(init[i] == ms[i]);
            assert(key_less(ms[i].0, ms[ms.len() - 1].0));
        }
        lemma_members_trip(init);
        lemma_json_trip(ms[ms.len() - 1].1);
        let ps = member_terms(ms);
        assert(ps.drop_last() =~= member_terms(init));
        assert(ps.last() == (TermModel::Binary(encode_utf8(k)), value_term(v)));
        assert(key_text(ps.last().0) == Ok::<Seq<char>, ConvertFailure>(k));
        lemma_member_insert_last(init, k, v);
        assert(init.push((k, v)) =~= ms);
    } else {
        assert(member_terms(ms) =~= seq![]);
        assert(ms =~= seq![]);
    }
}

proof fn lemma_json_trip(v: JsonModel)
    requires
        json_wf(v),
    ensures
        term_json(value_term(v)) == Ok::<JsonModel, ConvertFailure>(v),
    decreases v, 1nat,
{
    match v {
        JsonModel::Number(n) => lemma_number_trip(n),
        JsonModel::Array(vs) => lemma_values_trip(vs),
        JsonModel::Object(ms) => lemma_members_trip(ms),
        _ => {},
    }
}

/// A JSON value as `serde_json` builds one comes back unchanged from its
/// term: `to_value(&from_value(v))` answers `v`. (`null`, `true` and
/// `false` travel as atoms, strings as binaries of their UTF-8 text, and
/// object keys keep their order because they already increase.)
pub proof fn law_json_survives_term(v: JsonModel)
    requires
        json_wf(v),
    ensures
        term_json(value_term(v)) == Ok::<JsonModel, ConvertFailure>(v),
{
    lemma_json_trip(v);
}

// ---------------------------------------------------------------------------
// Every JSON value that a term gives is well formed.
// ---------------------------------------------------------------------------

proof fn lemma_bytes_less_irreflexive(a: Seq<u8>)
    ensures
        !bytes_less(a, a),
    decreases a.len(),
{
    if a.len() > 0 {
        lemma_bytes_less_irreflexive(a.drop_first());
    }
}

proof fn lemma_bytes_less_transitive(a: Seq<u8>, b: Seq<u8>, c: Seq<u8>)
    requires
        bytes_less(a, b),
        bytes_less(b, c),
    ensures
        bytes_less(a, c),
    decreases a.len(),
{
    if a.len() > 0 && b.len() > 0 && c.len() > 0 && a[0] == b[0] && b[0] == c[0] {
        lemma_bytes_less_transitive(a.drop_first(), b.drop_first(), c.drop_first());
    }
}

proof fn lemma_bytes_less_total(a: Seq<u8>, b: Seq<u8>)
    requires
        a != b,
    ensures
        bytes_less(a, b) || bytes_less(b, a),
    decreases a.len(),
{
    if a.len() > 0 && b.len() > 0 && a[0] == b[0] {
        if a.drop_first() == b.drop_first() {
            assert(a =~= seq![a[0]] + a.drop_first());
            assert(b =~= seq![b[0]] + b.drop_first());
        }
        lemma_bytes_less_total(a.drop_first(), b.drop_first());
    } else if a.len() == 0 && b.len() == 0 {
        assert(a =~= b);
    }
}

/// Keys in strictly increasing order.
pub open spec fn keys_increase(ms: Seq<(Seq<char>, JsonModel)>) -> bool {
    forall|i: int, j: int| 0 <= i < j < ms.len() ==> key_less(#[trigger] ms[i].0, #[trigger] ms[j].0)
}

/// Inserting into members with increasing keys keeps them increasing, keeps
/// every lower bound of the keys and of `k`, and keeps the values well formed.
proof fn lemma_member_insert_keeps_order(ms: Seq<(Seq<char>, JsonModel)>, k: Seq<char>, v: JsonModel)
    requires
        keys_increase(ms),
        forall|i: int| 0 <= i < ms.len() ==> json_wf(#[trigger] ms[i].1),
        json_wf(v),
    ensures
        keys_increase(member_insert(ms, k, v)),
        forall|i: int|
            0 <= i < member_insert(ms, k, v).len() ==> json_wf(#[trigger] member_insert(ms, k, v)[i].1),
        forall|x: Seq<char>|
            key_less(x, k) && (forall|j: int| 0 <= j < ms.len() ==> key_less(x, #[trigger] ms[j].0))
                ==> forall|i: int|
                0 <= i < member_insert(ms, k, v).len() ==> key_less(x, #[trigger] member_insert(ms, k, v)[i].0),
    decreases ms.len(),
{
    let r = member_insert(ms, k, v);
    if ms.len() == 0 {
    } else if key_less(ms[0].0, k) {
        let rest = ms.drop_first();
        assert forall|i: int, j: int| 0 <= i < j < rest.len() implies key_less(
            #[trigger] rest[i].0,
            #[trigger] rest[j].0,
        ) by {
            assert(rest[i] == ms[i + 1] && rest[j] == ms[j + 1]);
        }
        assert forall|i: int| 0 <= i < rest.len() implies json_wf(#[trigger] rest[i].1) by {
            assert(rest[i] == ms[i + 1]);
        }
        lemma_member_insert_keeps_order(rest, k, v);
        let t = member_insert(rest, k, v);
        assert(r =~= seq![ms[0]] + t);
        assert forall|j: int| 0 <= j < rest.len() implies key_less(ms[0].0, #[trigger] rest[j].0) by {
            assert(rest[j] == ms[j + 1]);
        }
        assert forall|i: int, j: int| 0 <= i < j < r.len() implies key_less(
            #[trigger] r[i].0,
            #[trigger] r[j].0,
        ) by {
            if i == 0 {
                assert(r[j] == t[j - 1]);
            } else {
                assert(r[i] == t[i - 1] && r[j] == t[j - 1]);
            }
        }
        assert forall|i: int| 0 <= i < r.len() implies json_wf(#[trigger] r[i].1) by {
            if i > 0 {
                assert(r[i] == t[i - 1]);
            }
        }
        assert forall|x: Seq<char>|
            key_less(x, k) && (forall|j: int| 0 <= j < ms.len() ==> key_less(x, #[trigger] ms[j].0))
            implies forall|i: int| 0 <= i < r.len() ==> key_less(x, #[trigger] r[i].0) by {
            assert forall|j: int| 0 <= j < rest.len() implies key_less(x, #[trigger] rest[j].0) by {
                assert(rest[j] == ms[j + 1]);
            }
            assert forall|i: int| 0 <= i < r.len() implies key_less(x, #[trigger] r[i].0) by {
                if i == 0 {
                    assert(key_less(x, ms[0].0));
                } else {
                    assert(r[i] == t[i - 1]);
                }
            }
        }
    } else {
        if ms[0].0 != k {
            if encode_utf8(ms[0].0) == encode_utf8(k) {
                assert(decode_utf8(encode_utf8(ms[0].0)) == decode_utf8(encode_utf8(k)));
            }
            lemma_bytes_less_total(encode_utf8(ms[0].0), encode_utf8(k));
        }
        let tail = if ms[0].0 == k { ms.drop_first() } else { ms };
        assert(r =~= seq![(k, v)] + tail);
        assert forall|j: int| 0 <= j < tail.len() implies key_less(k, #[trigger] tail[j].0) by {
            if ms[0].0 == k {
                assert(tail[j] == ms[j + 1]);
            } else if j > 0 {
                lemma_bytes_less_transitive(encode_utf8(k), encode_utf8(ms[0].0), encode_utf8(ms[j].0));
            }
        }
        assert forall|i: int, j: int| 0 <= i < j < r.len() implies key_less(
            #[trigger] r[i].0,
            #[trigger] r[j].0,
        ) by {
            if i == 0 {
                assert(r[j] == tail[j - 1]);
            } else {
                assert(r[i] == tail[i - 1] && r[j] == tail[j - 1]);
                if ms[0].0 == k {
                    assert(tail[i - 1] == ms[i] && tail[j - 1] == ms[j]);
                }
            }
        }
        assert forall|i: int| 0 <= i < r.len() implies json_wf(#[trigger] r[i].1) by {
            if i > 0 {
                assert(r[i] == tail[i - 1]);
                if ms[0].0 == k {
                    assert(tail[i - 1] == ms[i]);
                }
            }
        }
        assert forall|x: Seq<char>|
            key_less(x, k) && (forall|j: int| 0 <= j < ms.len() ==> key_less(x, #[trigger] ms[j].0))
            implies forall|i: int| 0 <= i < r.len() ==> key_less(x, #[trigger] r[i].0) by {
            assert forall|i: int| 0 <= i < r.len() implies key_less(x, #[trigger] r[i].0) by {
                if i > 0 {
                    assert(r[i] == tail[i - 1]);
                    if ms[0].0 == k {
                        assert(tail[i - 1] == ms[i]);
                    }
                }
            }
        }
    }
}

proof fn lemma_terms_json_wf(es: Seq<TermModel>)
    requires
        terms_json(es) is Ok,
    ensures
        terms_json(es) matches Ok(vs) && forall|i: int| 0 <= i < vs.len() ==> json_wf(#[trigger] vs[i]),
    decreases es, 0nat,
{
    if es.len() > 0 {
        assert(decreases_to!(es => es[es.len() - 1]));
        lemma_terms_json_wf(es.drop_last());
        lemma_term_json_wf(es[es.len() - 1]);
        let init = terms_json(es.drop_last())->Ok_0;
        let vs = terms_json(es)->Ok_0;
        assert forall|i: int| 0 <= i < vs.len() implies json_wf(#[trigger] vs[i]) by {
            if i < init.len() {
                assert(vs[i] == init[i]);
            }
        }
    }
}

proof fn lemma_pairs_json_wf(ps: Seq<(TermModel, TermModel)>)
    requires
        pairs_json(ps) is Ok,
    ensures
        pairs_json(ps) matches Ok(ms) && keys_increase(ms) && forall|i: int|
            0 <= i < ms.len() ==> json_wf(#[trigger] ms[i].1),
    decreases ps, 0nat,
{
    if ps.len() > 0 {
        assert(decreases_to!(ps => ps[ps.len() - 1]));
        lemma_pairs_json_wf(ps.drop_last());
        lemma_term_json_wf(ps[ps.len() - 1].1);
        let init = pairs_json(ps.drop_last())->Ok_0;
        let k = key_text(ps.last().0)->Ok_0;
        let v = term_json(ps.last().1)->Ok_0;
        lemma_member_insert_keeps_order(init, k, v);
    }
}

proof fn lemma_term_json_wf(t: TermModel)
    requires
        term_json(t) is Ok,
    ensures
        term_json(t) matches Ok(v) && json_wf(v),
    decreases t, 1nat,
{
    match t {
        TermModel::Tuple(es) => lemma_terms_json_wf(es),
        TermModel::List(es) => lemma_terms_json_wf(es),
        TermModel::Dict(ps) => lemma_pairs_json_wf(ps),
        _ => {},
    }
}

/// Whatever `to_value` answers is a JSON value as `serde_json` builds one:
/// negative integers only as `NegInt`, finite floats only, and each
/// object's keys strictly increasing, so that no key occurs twice (a later
/// map entry with the same key replaces the earlier one's value).
pub proof fn law_term_gives_wellformed_json(t: TermModel)
    requires
        term_json(t) is Ok,
    ensures
        term_json(t) matches Ok(v) && json_wf(v),
{
    lemma_term_json_wf(t);
}

// ---------------------------------------------------------------------------
// Big integers as JSON.
// ---------------------------------------------------------------------------

/// A decimal digit character.
pub open spec fn is_decimal_digit(c: char) -> bool {
    '0' <= c && c <= '9'
}

/// The number that a run of decimal digit characters reads as.
pub open spec fn decimal_value(s: Seq<char>) -> int
    decreases s.len(),
{
    if s.len() == 0 {
        0
    } else {
        decimal_value(s.drop_last()) * 10 + (s.last() as int - 48)
    }
}

/// Plain decimal notation: one digit or more, and no leading zero unless
/// the text is `0` itself.
pub open spec fn plain_decimal(s: Seq<char>) -> bool {
    &&& s.len() >= 1
    &&& forall|i: int| 0 <= i < s.len() ==> is_decimal_digit(#[trigger] s[i])
    &&& (s[0] != '0' || s.len() == 1)
}

proof fn lemma_digit_char(d: u8)
    requires
        d < 10,
    ensures
        digit_char(d) as int == 48 + d,
        is_decimal_digit(digit_char(d)),
        d != 0 ==> digit_char(d) != '0',
{
}

proof fn lemma_decimal_chars(n: nat)
    ensures
        plain_decimal(decimal_chars(n)),
        decimal_value(decimal_chars(n)) == n,
    decreases n,
{
    let c = decimal_chars(n);
    if n == 0 {
        assert(c == seq!['0']);
        assert(c.drop_last() =~= Seq::<char>::empty());
        assert(decimal_value(c) == decimal_value(c.drop_last()) * 10 + (c.last() as int - 48));
    } else {
        let m = n / 10;
        let ds = low_decimal_digits(n);
        lemma_low_digits_small(n);
        assert(ds =~= seq![(n % 10) as u8] + low_decimal_digits(m));
        let d = (n % 10) as u8;
        lemma_digit_char(d);
        assert(c.len() == ds.len());
        assert(c[c.len() - 1] == digit_char(ds[0]));
        assert(c.last() == digit_char(d));
        assert(decimal_value(c) == decimal_value(c.drop_last()) * 10 + (c.last() as int - 48));
        if m == 0 {
            assert(low_decimal_digits(m) =~= Seq::<u8>::empty());
            assert(c.len() == 1);
            assert(c.drop_last() =~= Seq::<char>::empty());
            assert(decimal_value(c.drop_last()) == 0);
            assert(n % 10 == n);
            assert(c[0] == digit_char(d));
        } else {
            lemma_decimal_chars(m);
            let cm = decimal_chars(m);
            let dm = low_decimal_digits(m);
            assert(m != 0);
            assert(cm.len() == dm.len());
            assert forall|i: int| 0 <= i < cm.len() implies #[trigger] c.drop_last()[i] == cm[i] by {
                assert(c[i] == digit_char(ds[ds.len() - 1 - i]));
                assert(ds[ds.len() - 1 - i] == dm[dm.len() - 1 - i]);
            }
            assert(c.drop_last() =~= cm);
            assert(decimal_value(c) == m * 10 + n % 10);
            assert(c[0] == cm[0]);
            if cm.len() == 1 && cm[0] == '0' {
                assert(cm.drop_last() =~= Seq::<char>::empty());
                assert(decimal_value(cm) == decimal_value(cm.drop_last()) * 10 + (cm.last() as int - 48));
            }
            assert forall|i: int| 0 <= i < c.len() implies is_decimal_digit(#[trigger] c[i]) by {
                if i < c.len() - 1 {
                    assert(c[i] == c.drop_last()[i]);
                }
            }
        }
    }
}

/// The JSON value of a big integer stands for its signed value: with `m`
/// the number its little-endian digits stand for, it is `PosInt(m)` when
/// `m` is zero or the sign is positive, `NegInt(-m)` when the sign is
/// negative, both only for at most 8 digits; otherwise (more than 8 digits,
/// or a negative value below `i64::MIN`) it is the text of `m` in plain
/// decimal notation, behind a minus sign exactly when the sign is negative
/// and `m` is not zero.
pub proof fn law_big_json_value(sign: bool, digits: Seq<u8>)
    ensures
        term_json(TermModel::Big { sign, digits }) matches Ok(v) && ({
            let m = digits_value(digits);
            match v {
                JsonModel::Number(JsonNumber::PosInt(u)) => u == m && (m == 0 || !sign) && digits.len()
                    <= 8,
                JsonModel::Number(JsonNumber::NegInt(i)) => i == -m && sign && m != 0 && digits.len()
                    <= 8,
                JsonModel::Str(t) => (digits.len() > 8 || (sign && m > TWO_POW_63)) && if sign && m
                    != 0 {
                    t.len() >= 1 && t[0] == '-' && plain_decimal(t.drop_first()) && decimal_value(
                        t.drop_first(),
                    ) == m
                } else {
                    plain_decimal(t) && decimal_value(t) == m
                },
                _ => false,
            }
        }),
{
    let m = digits_value(digits);
    lemma_decimal_chars(m);
    lemma_digits_value_bound(digits);
    if digits.len() <= 8 {
        crate::convert::lemma_radix_pow_mono(digits.len(), 8);
        reveal_with_fuel(radix_pow, 9);
        assert(radix_pow(8) == 0x1_0000_0000_0000_0000);
    }
    if sign && m != 0 {
        assert((seq!['-'] + decimal_chars(m)).drop_first() =~= decimal_chars(m));
    }
}

// ---------------------------------------------------------------------------
// The message of a JSON value.
// ---------------------------------------------------------------------------

/// The message of a JSON value starts with the version byte and the tag of
/// the term the value becomes: `null`, `true` and `false` are exactly the
/// atoms `nil`, `true` and `false` as erlpack writes them; a number is a
/// small integer, an integer, a big integer or a float; a string is a binary
/// of its UTF-8 text; an array is a list (`NIL_EXT` when empty, otherwise
/// `LIST_EXT` with its element count, ending in `NIL_EXT`), never a tuple;
/// an object is a map with its member count.
pub proof fn law_json_message_shape(v: JsonModel)
    requires
        encoding(value_term(v)) is Ok,
    ensures
        encoding(value_term(v)) matches Ok(b) && b.len() >= 2 && b[0] == 131 && match v {
            JsonModel::Null => b == seq![131u8, 115u8, 3u8, 110u8, 105u8, 108u8],
            JsonModel::Bool(true) => b == seq![131u8, 115u8, 4u8, 116u8, 114u8, 117u8, 101u8],
            JsonModel::Bool(false) => b == seq![131u8, 115u8, 5u8, 102u8, 97u8, 108u8, 115u8, 101u8],
            JsonModel::Number(_) => b[1] == 97 || b[1] == 98 || b[1] == 110 || b[1] == 70,
            JsonModel::Str(s) => b[1] == 109 && b.len() == 6 + encode_utf8(s).len() && b.subrange(2, 6)
                == be32_bytes(encode_utf8(s).len() as u32) && b.subrange(6, b.len() as int)
                == encode_utf8(s),
            JsonModel::Array(vs) => if vs.len() == 0 {
                b == seq![131u8, 106u8]
            } else {
                b.len() >= 7 && b[1] == 108 && b.subrange(2, 6) == be32_bytes(vs.len() as u32) && b[b.len()
                    - 1] == 106
            },
            JsonModel::Object(ms) => b.len() >= 6 && b[1] == 116 && b.subrange(2, 6) == be32_bytes(
                ms.len() as u32,
            ),
        },
{
    let b = encoding(value_term(v))->Ok_0;
    let body = term_encoding(value_term(v))->Ok_0;
    assert(b == seq![131u8] + body);
    match v {
        JsonModel::Null => {
            lemma_ascii_bytes(nil_chars(), seq![110u8, 105u8, 108u8]);
            assert(b =~= seq![131u8, 115u8, 3u8, 110u8, 105u8, 108u8]);
        },
        JsonModel::Bool(true) => {
            lemma_ascii_bytes(true_chars(), seq![116u8, 114u8, 117u8, 101u8]);
            assert(b =~= seq![131u8, 115u8, 4u8, 116u8, 114u8, 117u8, 101u8]);
        },
        JsonModel::Bool(false) => {
            lemma_ascii_bytes(false_chars(), seq![102u8, 97u8, 108u8, 115u8, 101u8]);
            assert(b =~= seq![131u8, 115u8, 5u8, 102u8, 97u8, 108u8, 115u8, 101u8]);
        },
        JsonModel::Str(s) => {
            assert(b.subrange(2, 6) =~= be32_bytes(encode_utf8(s).len() as u32));
            assert(b.subrange(6, b.len() as int) =~= encode_utf8(s));
        },
        JsonModel::Array(vs) => {
            if vs.len() == 0 {
                assert(value_terms(vs) =~= seq![]);
                assert(b =~= seq![131u8, 106u8]);
            } else {
                assert(b.subrange(2, 6) =~= be32_bytes(vs.len() as u32));
            }
        },
        JsonModel::Object(ms) => {
            assert(b.subrange(2, 6) =~= be32_bytes(ms.len() as u32));
        },
        JsonModel::Number(n) => {},
    }
}

/// Atoms and integers as JSON: the atoms `nil` and `null` read as `null`,
/// `true` and `false` as the booleans, and any other atom as the string of
/// its name; an integer reads as the same number, held as `PosInt` when it
/// is not negative and as `NegInt` when it is.
pub proof fn law_scalar_terms_as_json(s: Seq<char>, n: i32)
    ensures
        term_json(TermModel::Atom(s)) == Ok::<JsonModel, ConvertFailure>(
            if s == seq!['n', 'i', 'l'] || s == seq!['n', 'u', 'l', 'l'] {
                JsonModel::Null
            } else if s == seq!['t', 'r', 'u', 'e'] {
                JsonModel::Bool(true)
            } else if s == seq!['f', 'a', 'l', 's', 'e'] {
                JsonModel::Bool(false)
            } else {
                JsonModel::Str(s)
            },
        ),
        term_json(TermModel::Integer(n)) matches Ok(JsonModel::Number(x)) && (if n < 0 {
            x matches JsonNumber::NegInt(i) && i == n
        } else {
            x matches JsonNumber::PosInt(u) && u == n
        }),
{
}

} // verus!
