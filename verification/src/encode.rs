//! ETF encoder.
use vstd::prelude::*;
use vstd::string::*;
use vstd::utf8::*;

use crate::term::{view_pairs, view_terms, Term, TermModel};

verus! {

pub const NEW_FLOAT_EXT: u8 = 70;
pub const SMALL_INTEGER_EXT: u8 = 97;
pub const INTEGER_EXT: u8 = 98;
pub const SMALL_TUPLE_EXT: u8 = 104;
pub const LARGE_TUPLE_EXT: u8 = 105;
pub const NIL_EXT: u8 = 106;
pub const LIST_EXT: u8 = 108;
pub const BINARY_EXT: u8 = 109;
pub const SMALL_BIG_EXT: u8 = 110;
pub const SMALL_ATOM_EXT: u8 = 115;
pub const MAP_EXT: u8 = 116;
pub const VERSION_BYTE: u8 = 131;

/// Longest atom text, in UTF-8 bytes, that the encoder writes.
pub const MAX_ATOM_BYTES: usize = 254;
/// Most digits of a big integer that the encoder writes.
pub const MAX_BIG_DIGITS: usize = 8;

/// Why a term could not be written.
#[derive(Debug)]
pub enum EncodeError {
    AtomTooLong { byte_len: usize },
    BigTooManyDigits { digit_count: usize },
    BinaryTooLong { byte_len: usize },
    ContainerTooLong { kind: &'static str, arity: usize },
}

/// An encode error, with the container kind as its text.
pub enum EncodeFailure {
    AtomTooLong { byte_len: usize },
    BigTooManyDigits { digit_count: usize },
    BinaryTooLong { byte_len: usize },
    ContainerTooLong { kind: Seq<char>, arity: usize },
}

impl View for EncodeError {
    type V = EncodeFailure;

    open spec fn view(&self) -> EncodeFailure {
        match self {
            EncodeError::AtomTooLong { byte_len } => EncodeFailure::AtomTooLong { byte_len: *byte_len },
            EncodeError::BigTooManyDigits { digit_count } => EncodeFailure::BigTooManyDigits {
                digit_count: *digit_count,
            },
            EncodeError::BinaryTooLong { byte_len } => EncodeFailure::BinaryTooLong {
                byte_len: *byte_len,
            },
            EncodeError::ContainerTooLong { kind, arity } => EncodeFailure::ContainerTooLong {
                kind: kind@,
                arity: *arity,
            },
        }
    }
}

/// The stable machine-readable name of each kind of encode failure.
pub open spec fn encode_failure_name(e: EncodeFailure) -> Seq<char> {
    match e {
        EncodeFailure::AtomTooLong { .. } => "atom_too_long"@,
        EncodeFailure::BigTooManyDigits { .. } => "big_too_many_digits"@,
        EncodeFailure::BinaryTooLong { .. } => "binary_too_long"@,
        EncodeFailure::ContainerTooLong { .. } => "container_too_long"@,
    }
}

impl EncodeError {
    pub fn kind_str(&self) -> (r: &'static str)
        ensures
            r@ == encode_failure_name(self@),
    {
        match self {
            Self::AtomTooLong { .. } => "atom_too_long",
            Self::BigTooManyDigits { .. } => "big_too_many_digits",
            Self::BinaryTooLong { .. } => "binary_too_long",
            Self::ContainerTooLong { .. } => "container_too_long",
        }
    }
}

// ---------------------------------------------------------------------------
// The format, written as a function from terms to bytes.
// ---------------------------------------------------------------------------

pub open spec fn be32_bytes(n: u32) -> Seq<u8> {
    seq![
        (n / 0x1000000) as u8,
        (n / 0x10000 % 0x100) as u8,
        (n / 0x100 % 0x100) as u8,
        (n % 0x100) as u8,
    ]
}

pub open spec fn be64_bytes(n: u64) -> Seq<u8> {
    be32_bytes((n / 0x1_0000_0000) as u32) + be32_bytes((n % 0x1_0000_0000) as u32)
}

pub open spec fn container_too_long(kind: Seq<char>, arity: int) -> EncodeFailure {
    EncodeFailure::ContainerTooLong { kind, arity: arity as usize }
}

/// The bytes of a term, without the version byte.
pub open spec fn term_encoding(t: TermModel) -> Result<Seq<u8>, EncodeFailure>
    decreases t,
{
    match t {
        TermModel::Atom(s) => {
            let b = encode_utf8(s);
            if b.len() > MAX_ATOM_BYTES {
                Err(EncodeFailure::AtomTooLong { byte_len: b.len() as usize })
            } else {
                Ok(seq![SMALL_ATOM_EXT, b.len() as u8] + b)
            }
        },
        TermModel::Integer(n) => if 0 <= n <= 255 {
            Ok(seq![SMALL_INTEGER_EXT, n as u8])
        } else {
            Ok(seq![INTEGER_EXT] + be32_bytes(n as u32))
        },
        TermModel::Float(bits) => Ok(seq![NEW_FLOAT_EXT] + be64_bytes(bits)),
        TermModel::Big { sign, digits } => if digits.len() > MAX_BIG_DIGITS {
            Err(EncodeFailure::BigTooManyDigits { digit_count: digits.len() as usize })
        } else {
            Ok(seq![SMALL_BIG_EXT, digits.len() as u8, if sign { 1u8 } else { 0u8 }] + digits)
        },
        TermModel::Binary(b) => if b.len() > u32::MAX {
            Err(EncodeFailure::BinaryTooLong { byte_len: b.len() as usize })
        } else {
            Ok(seq![BINARY_EXT] + be32_bytes(b.len() as u32) + b)
        },
        TermModel::Tuple(es) => {
            if es.len() > u32::MAX {
                Err(container_too_long("tuple"@, es.len() as int))
            } else {
                let header = if es.len() <= 255 {
                    seq![SMALL_TUPLE_EXT, es.len() as u8]
                } else {
                    seq![LARGE_TUPLE_EXT] + be32_bytes(es.len() as u32)
                };
                match terms_encoding(es) {
                    Err(e) => Err(e),
                    Ok(body) => Ok(header + body),
                }
            }
        },
        TermModel::List(es) => {
            if es.len() == 0 {
                Ok(seq![NIL_EXT])
            } else if es.len() > u32::MAX {
                Err(container_too_long("list"@, es.len() as int))
            } else {
                match terms_encoding(es) {
                    Err(e) => Err(e),
                    Ok(body) => Ok(seq![LIST_EXT] + be32_bytes(es.len() as u32) + body + seq![NIL_EXT]),
                }
            }
        },
        TermModel::Dict(ps) => {
            if ps.len() > u32::MAX {
                Err(container_too_long("map"@, ps.len() as int))
            } else {
                match pairs_encoding(ps) {
                    Err(e) => Err(e),
                    Ok(body) => Ok(seq![MAP_EXT] + be32_bytes(ps.len() as u32) + body),
                }
            }
        },
    }
}

/// The bytes of a run of terms, one after another; the first failure wins.
pub open spec fn terms_encoding(es: Seq<TermModel>) -> Result<Seq<u8>, EncodeFailure>
    decreases es,
{
    if es.len() == 0 {
        Ok(seq![])
    } else {
        match terms_encoding(es.drop_last()) {
            Err(e) => Err(e),
            Ok(a) => match term_encoding(es.last()) {
                Err(e) => Err(e),
                Ok(b) => Ok(a + b),
            },
        }
    }
}

/// The bytes of a run of key/value pairs, key before value.
pub open spec fn pairs_encoding(ps: Seq<(TermModel, TermModel)>) -> Result<Seq<u8>, EncodeFailure>
    decreases ps,
{
    if ps.len() == 0 {
        Ok(seq![])
    } else {
        proof {
            assert(decreases_to!(ps => ps[ps.len() - 1]));
        }
        match pairs_encoding(ps.drop_last()) {
            Err(e) => Err(e),
            Ok(a) => match term_encoding(ps.last().0) {
                Err(e) => Err(e),
                Ok(k) => match term_encoding(ps.last().1) {
                    Err(e) => Err(e),
                    Ok(v) => Ok(a + k + v),
                },
            },
        }
    }
}

/// The bytes of a whole message: the version byte, then the term.
pub open spec fn encoding(t: TermModel) -> Result<Seq<u8>, EncodeFailure> {
    match term_encoding(t) {
        Err(e) => Err(e),
        Ok(b) => Ok(seq![VERSION_BYTE] + b),
    }
}


// ---------------------------------------------------------------------------
// The encoder.
// ---------------------------------------------------------------------------

pub(crate) fn push_be32(output: &mut Vec<u8>, n: u32)
    ensures
        final(output)@ == old(output)@ + be32_bytes(n),
{
    output.push((n / 0x1000000) as u8);
    output.push((n / 0x10000 % 0x100) as u8);
    output.push((n / 0x100 % 0x100) as u8);
    output.push((n % 0x100) as u8);
    assert(output@ =~= old(output)@ + be32_bytes(n));
}

pub(crate) fn push_be64(output: &mut Vec<u8>, n: u64)
    ensures
        final(output)@ == old(output)@ + be64_bytes(n),
{
    push_be32(output, (n / 0x1_0000_0000) as u32);
    push_be32(output, (n % 0x1_0000_0000) as u32);
    assert(output@ =~= old(output)@ + be64_bytes(n));
}

/// Appends `bytes` to `output`.
pub(crate) fn push_all(output: &mut Vec<u8>, bytes: &[u8])
    ensures
        final(output)@ == old(output)@ + bytes@,
{
    output.extend_from_slice(bytes);
    assert(output@ =~= old(output)@ + bytes@);
}

/// A prefix of a prefix is a prefix.
pub(crate) proof fn lemma_prefix_trans(a: Seq<u8>, b: Seq<u8>, c: Seq<u8>)
    requires
        a.is_prefix_of(b),
        b.is_prefix_of(c),
    ensures
        a.is_prefix_of(c),
{
    assert forall|i: int| 0 <= i < a.len() implies a[i] == c[i] by {
        assert(a[i] == b.subrange(0, a.len() as int)[i]);
        assert(b[i] == c.subrange(0, b.len() as int)[i]);
    }
    assert(a =~= c.subrange(0, a.len() as int));
}

/// What stood in a buffer stays at its front after more is appended.
pub(crate) proof fn lemma_prefix_of_append(a: Seq<u8>, b: Seq<u8>)
    ensures
        a.is_prefix_of(a + b),
{
    assert(a =~= (a + b).subrange(0, a.len() as int));
}

/// A failure in the first `k` terms of `s` is the failure of the first `n`.
pub(crate) proof fn lemma_terms_failure_persists(s: Seq<TermModel>, k: int, n: int)
    requires
        0 <= k <= n <= s.len(),
        terms_encoding(s.take(k)) is Err,
    ensures
        terms_encoding(s.take(n)) == terms_encoding(s.take(k)),
    decreases n - k,
{
    if k < n {
        lemma_terms_failure_persists(s, k, n - 1);
        assert(s.take(n).drop_last() =~= s.take(n - 1));
    }
}

pub(crate) proof fn lemma_pairs_failure_persists(s: Seq<(TermModel, TermModel)>, k: int, n: int)
    requires
        0 <= k <= n <= s.len(),
        pairs_encoding(s.take(k)) is Err,
    ensures
        pairs_encoding(s.take(n)) == pairs_encoding(s.take(k)),
    decreases n - k,
{
    if k < n {
        lemma_pairs_failure_persists(s, k, n - 1);
        assert(s.take(n).drop_last() =~= s.take(n - 1));
    }
}

/// Appends the bytes of `elems`, one after another.
fn encode_elements(elems: &Vec<Term>, output: &mut Vec<u8>) -> (r: Result<(), EncodeError>)
    ensures
        match terms_encoding(view_terms(elems@)) {
            Ok(b) => r is Ok && final(output)@ == old(output)@ + b,
            Err(e) => r matches Err(x) && x@ == e && old(output)@.is_prefix_of(final(output)@),
        },
    decreases elems, 1nat,
{
    let ghost s = view_terms(elems@);
    let ghost base = output@;
    let mut i: usize = 0;
    assert(s.take(0) =~= seq![]);
    assert(output@ =~= base + seq![]);
    while i < elems.len()
        invariant
            s == view_terms(elems@),
            i <= elems@.len(),
            terms_encoding(s.take(i as int)) is Ok,
            output@ == base + terms_encoding(s.take(i as int))->Ok_0,
            base == old(output)@,
        decreases elems@.len() - i,
    {
        proof {
            assert(decreases_to!(elems => elems@[i as int]));
        }
        let ghost before = output@;
        match encode_term(&elems[i], output) {
            Err(e) => {
                proof {
                    assert(s.take(i + 1).drop_last() =~= s.take(i as int));
                    lemma_terms_failure_persists(s, i + 1, s.len() as int);
                    assert(s.take(s.len() as int) =~= s);
                    lemma_prefix_of_append(base, terms_encoding(s.take(i as int))->Ok_0);
                    lemma_prefix_trans(base, before, output@);
                }
                return Err(e);
            },
            Ok(()) => {
                proof {
                    assert(s.take(i + 1).drop_last() =~= s.take(i as int));
                    assert(output@ =~= base + terms_encoding(s.take(i + 1))->Ok_0);
                }
                i = i + 1;
            },
        }
    }
    assert(s.take(i as int) =~= s);
    Ok(())
}

/// Appends the bytes of `entries`, key before value.
fn encode_entries(entries: &Vec<(Term, Term)>, output: &mut Vec<u8>) -> (r: Result<(), EncodeError>)
    ensures
        match pairs_encoding(view_pairs(entries@)) {
            Ok(b) => r is Ok && final(output)@ == old(output)@ + b,
            Err(e) => r matches Err(x) && x@ == e && old(output)@.is_prefix_of(final(output)@),
        },
    decreases entries, 1nat,
{
    let ghost s = view_pairs(entries@);
    let ghost base = output@;
    let mut i: usize = 0;
    assert(s.take(0) =~= seq![]);
    assert(output@ =~= base + seq![]);
    while i < entries.len()
        invariant
            s == view_pairs(entries@),
            i <= entries@.len(),
            pairs_encoding(s.take(i as int)) is Ok,
            output@ == base + pairs_encoding(s.take(i as int))->Ok_0,
            base == old(output)@,
        decreases entries@.len() - i,
    {
        proof {
            assert(decreases_to!(entries => entries@[i as int]));
            assert(decreases_to!(entries@[i as int] => entries@[i as int].0));
            assert(decreases_to!(entries@[i as int] => entries@[i as int].1));
            assert(s.take(i + 1).drop_last() =~= s.take(i as int));
        }
        let ghost before = output@;
        proof {
            lemma_prefix_of_append(base, pairs_encoding(s.take(i as int))->Ok_0);
        }
        match encode_term(&entries[i].0, output) {
            Err(e) => {
                proof {
                    lemma_pairs_failure_persists(s, i + 1, s.len() as int);
                    assert(s.take(s.len() as int) =~= s);
                    lemma_prefix_trans(base, before, output@);
                }
                return Err(e);
            },
            Ok(()) => {},
        }
        let ghost middle = output@;
        proof {
            lemma_prefix_of_append(before, middle.subrange(before.len() as int, middle.len() as int));
            assert(before + middle.subrange(before.len() as int, middle.len() as int) =~= middle);
            lemma_prefix_trans(base, before, middle);
        }
        match encode_term(&entries[i].1, output) {
            Err(e) => {
                proof {
                    lemma_pairs_failure_persists(s, i + 1, s.len() as int);
                    assert(s.take(s.len() as int) =~= s);
                    lemma_prefix_trans(base, middle, output@);
                }
                return Err(e);
            },
            Ok(()) => {},
        }
        proof {
            assert(output@ =~= base + pairs_encoding(s.take(i + 1))->Ok_0);
        }
        i = i + 1;
    }
    assert(s.take(i as int) =~= s);
    Ok(())
}

fn encode_atom(s: &str, output: &mut Vec<u8>) -> (r: Result<(), EncodeError>)
    ensures
        match term_encoding(TermModel::Atom(s@)) {
            Ok(b) => r is Ok && final(output)@ == old(output)@ + b,
            Err(e) => r matches Err(x) && x@ == e && final(output)@ == old(output)@,
        },
{
    let bytes = s.as_bytes();
    if bytes.len() > MAX_ATOM_BYTES {
        return Err(EncodeError::AtomTooLong { byte_len: bytes.len() });
    }
    output.push(SMALL_ATOM_EXT);
    output.push(bytes.len() as u8);
    push_all(output, bytes);
    assert(output@ =~= old(output)@ + term_encoding(TermModel::Atom(s@))->Ok_0);
    Ok(())
}

fn encode_integer(n: i32, output: &mut Vec<u8>)
    ensures
        final(output)@ == old(output)@ + term_encoding(TermModel::Integer(n))->Ok_0,
{
    if 0 <= n && n <= 255 {
        output.push(SMALL_INTEGER_EXT);
        output.push(n as u8);
    } else {
        output.push(INTEGER_EXT);
        push_be32(output, n as u32);
    }
    assert(output@ =~= old(output)@ + term_encoding(TermModel::Integer(n))->Ok_0);
}

fn encode_float(bits: u64, output: &mut Vec<u8>)
    ensures
        final(output)@ == old(output)@ + term_encoding(TermModel::Float(bits))->Ok_0,
{
    output.push(NEW_FLOAT_EXT);
    push_be64(output, bits);
    assert(output@ =~= old(output)@ + term_encoding(TermModel::Float(bits))->Ok_0);
}

fn encode_big(sign: bool, digits: &[u8], output: &mut Vec<u8>) -> (r: Result<(), EncodeError>)
    ensures
        match term_encoding(TermModel::Big { sign, digits: digits@ }) {
            Ok(b) => r is Ok && final(output)@ == old(output)@ + b,
            Err(e) => r matches Err(x) && x@ == e && final(output)@ == old(output)@,
        },
{
    if digits.len() > MAX_BIG_DIGITS {
        return Err(EncodeError::BigTooManyDigits { digit_count: digits.len() });
    }
    output.push(SMALL_BIG_EXT);
    output.push(digits.len() as u8);
    output.push(if sign { 1u8 } else { 0u8 });
    push_all(output, digits);
    assert(output@ =~= old(output)@ + term_encoding(TermModel::Big { sign, digits: digits@ })->Ok_0);
    Ok(())
}

fn encode_binary(bytes: &[u8], output: &mut Vec<u8>) -> (r: Result<(), EncodeError>)
    ensures
        match term_encoding(TermModel::Binary(bytes@)) {
            Ok(b) => r is Ok && final(output)@ == old(output)@ + b,
            Err(e) => r matches Err(x) && x@ == e && final(output)@ == old(output)@,
        },
{
    if bytes.len() > u32::MAX as usize {
        return Err(EncodeError::BinaryTooLong { byte_len: bytes.len() });
    }
    output.push(BINARY_EXT);
    push_be32(output, bytes.len() as u32);
    push_all(output, bytes);
    assert(output@ =~= old(output)@ + term_encoding(TermModel::Binary(bytes@))->Ok_0);
    Ok(())
}

fn encode_tuple(elems: &Vec<Term>, output: &mut Vec<u8>) -> (r: Result<(), EncodeError>)
    ensures
        match term_encoding(TermModel::Tuple(view_terms(elems@))) {
            Ok(b) => r is Ok && final(output)@ == old(output)@ + b,
            Err(e) => r matches Err(x) && x@ == e && old(output)@.is_prefix_of(final(output)@),
        },
    decreases elems, 2nat,
{
    let arity = elems.len();
    if arity <= 255 {
        output.push(SMALL_TUPLE_EXT);
        output.push(arity as u8);
    } else if arity <= u32::MAX as usize {
        output.push(LARGE_TUPLE_EXT);
        push_be32(output, arity as u32);
    } else {
        return Err(EncodeError::ContainerTooLong { kind: "tuple", arity });
    }
    let ghost mid = output@;
    let r = encode_elements(elems, output);
    proof {
        if r is Ok {
            assert(output@ =~= old(output)@ + term_encoding(TermModel::Tuple(view_terms(elems@)))->Ok_0);
        } else {
            lemma_prefix_of_append(old(output)@, mid.subrange(old(output)@.len() as int, mid.len() as int));
            assert(old(output)@ + mid.subrange(old(output)@.len() as int, mid.len() as int) =~= mid);
            lemma_prefix_trans(old(output)@, mid, output@);
        }
    }
    r
}

fn encode_list(elems: &Vec<Term>, output: &mut Vec<u8>) -> (r: Result<(), EncodeError>)
    ensures
        match term_encoding(TermModel::List(view_terms(elems@))) {
            Ok(b) => r is Ok && final(output)@ == old(output)@ + b,
            Err(e) => r matches Err(x) && x@ == e && old(output)@.is_prefix_of(final(output)@),
        },
    decreases elems, 2nat,
{
    if elems.len() == 0 {
        output.push(NIL_EXT);
        assert(output@ =~= old(output)@ + seq![NIL_EXT]);
        return Ok(());
    }
    if elems.len() > u32::MAX as usize {
        return Err(EncodeError::ContainerTooLong { kind: "list", arity: elems.len() });
    }
    output.push(LIST_EXT);
    push_be32(output, elems.len() as u32);
    let ghost mid = output@;
    match encode_elements(elems, output) {
        Err(e) => {
            proof {
                lemma_prefix_of_append(old(output)@, mid.subrange(old(output)@.len() as int, mid.len() as int));
                assert(old(output)@ + mid.subrange(old(output)@.len() as int, mid.len() as int) =~= mid);
                lemma_prefix_trans(old(output)@, mid, output@);
            }
            return Err(e);
        },
        Ok(()) => {},
    }
    output.push(NIL_EXT);
    assert(output@ =~= old(output)@ + term_encoding(TermModel::List(view_terms(elems@)))->Ok_0);
    Ok(())
}

fn encode_map(entries: &Vec<(Term, Term)>, output: &mut Vec<u8>) -> (r: Result<(), EncodeError>)
    ensures
        match term_encoding(TermModel::Dict(view_pairs(entries@))) {
            Ok(b) => r is Ok && final(output)@ == old(output)@ + b,
            Err(e) => r matches Err(x) && x@ == e && old(output)@.is_prefix_of(final(output)@),
        },
    decreases entries, 2nat,
{
    if entries.len() > u32::MAX as usize {
        return Err(EncodeError::ContainerTooLong { kind: "map", arity: entries.len() });
    }
    output.push(MAP_EXT);
    push_be32(output, entries.len() as u32);
    let ghost mid = output@;
    let r = encode_entries(entries, output);
    proof {
        if r is Ok {
            assert(output@ =~= old(output)@ + term_encoding(TermModel::Dict(view_pairs(entries@)))->Ok_0);
        } else {
            lemma_prefix_of_append(old(output)@, mid.subrange(old(output)@.len() as int, mid.len() as int));
            assert(old(output)@ + mid.subrange(old(output)@.len() as int, mid.len() as int) =~= mid);
            lemma_prefix_trans(old(output)@, mid, output@);
        }
    }
    r
}

/// Appends the bytes of `term` (without a version byte) to `output`. On
/// failure, what was appended before the failing part stays.
pub(crate) fn encode_term(term: &Term, output: &mut Vec<u8>) -> (r: Result<(), EncodeError>)
    ensures
        match term_encoding(term@) {
            Ok(b) => r is Ok && final(output)@ == old(output)@ + b,
            Err(e) => r matches Err(x) && x@ == e && old(output)@.is_prefix_of(final(output)@),
        },
    decreases term, 3nat,
{
    proof {
        lemma_prefix_of_append(old(output)@, seq![]);
        assert(old(output)@ + seq![] =~= old(output)@);
    }
    match term {
        Term::Atom(s) => encode_atom(s.as_str(), output),
        Term::Integer(n) => {
            encode_integer(*n, output);
            Ok(())
        },
        Term::Float(bits) => {
            encode_float(*bits, output);
            Ok(())
        },
        Term::Big { sign, digits } => encode_big(*sign, digits.as_slice(), output),
        Term::Binary(bytes) => encode_binary(bytes.as_slice(), output),
        Term::Tuple(elems) => encode_tuple(elems, output),
        Term::List(elems) => encode_list(elems, output),
        Term::Dict(entries) => encode_map(entries, output),
    }
}

/// The bytes of `term`, behind the version byte.
pub fn encode(term: &Term) -> (r: Result<Vec<u8>, EncodeError>)
    ensures
        match encoding(term@) {
            Ok(b) => r matches Ok(v) && v@ == b,
            Err(e) => r matches Err(x) && x@ == e,
        },
{
    let mut output: Vec<u8> = Vec::new();
    output.push(VERSION_BYTE);
    match encode_term(term, &mut output) {
        Err(e) => Err(e),
        Ok(()) => Ok(output),
    }
}
} // verus!
