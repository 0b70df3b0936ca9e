//! Equality of terms and of JSON numbers, with floats compared as IEEE-754
//! numbers.
use vstd::prelude::*;
use vstd::std_specs::cmp::PartialEqSpecImpl;

use crate::convert::JsonNumber;
use crate::term::{view_pairs, view_terms, Term, TermModel};

verus! {

pub const MANTISSA_SPAN: u64 = 0x10_0000_0000_0000;

pub const SIGN_BIT: u64 = 0x8000_0000_0000_0000;

/// The bits stand for a NaN: the exponent field is all ones and the
/// mantissa is not zero.
pub open spec fn is_nan_bits(x: u64) -> bool {
    (x / MANTISSA_SPAN) % 0x800 == 0x7ff && x % MANTISSA_SPAN != 0
}

/// The bits stand for zero, of either sign.
pub open spec fn is_zero_bits(x: u64) -> bool {
    x % SIGN_BIT == 0
}

/// IEEE-754 equality of two doubles given by their bits: a NaN equals
/// nothing, not even itself, and the two zeros are equal.
pub open spec fn float_bits_eq(a: u64, b: u64) -> bool {
    !is_nan_bits(a) && !is_nan_bits(b) && (a == b || (is_zero_bits(a) && is_zero_bits(b)))
}

/// Float equality is IEEE-754 equality: a NaN equals nothing, not even
/// itself, every other float equals itself, equality is symmetric, and two
/// floats are equal only when their bits agree or both are zeros (of
/// either sign); so floats of opposite signs are equal only when both are
/// zeros, and floats that differ in magnitude never are.
pub proof fn law_float_equality(a: u64, b: u64)
    ensures
        float_bits_eq(a, a) == !((a / MANTISSA_SPAN) % 0x800 == 0x7ff && a % MANTISSA_SPAN != 0),
        float_bits_eq(a, b) == float_bits_eq(b, a),
        float_bits_eq(a, b) ==> a == b || (a % SIGN_BIT == 0 && b % SIGN_BIT == 0),
        float_bits_eq(a, b) ==> a % SIGN_BIT == b % SIGN_BIT,
        a % SIGN_BIT == 0 && b % SIGN_BIT == 0 ==> float_bits_eq(a, b),
{
}

/// Equality of terms: the same kind and the same contents, floats compared
/// by `float_bits_eq`.
pub open spec fn term_eq(a: TermModel, b: TermModel) -> bool
    decreases a,
{
    match a {
        TermModel::Atom(x) => b matches TermModel::Atom(y) && x == y,
        TermModel::Integer(x) => b matches TermModel::Integer(y) && x == y,
        TermModel::Float(x) => b matches TermModel::Float(y) && float_bits_eq(x, y),
        TermModel::Big { sign, digits } => b matches TermModel::Big { sign: s2, digits: d2 } && sign
            == s2 && digits == d2,
        TermModel::Binary(x) => b matches TermModel::Binary(y) && x == y,
        TermModel::Tuple(xs) => b matches TermModel::Tuple(ys) && xs.len() == ys.len() && forall|i: int|
            0 <= i < xs.len() ==> term_eq(#[trigger] xs[i], ys[i]),
        TermModel::List(xs) => b matches TermModel::List(ys) && xs.len() == ys.len() && forall|i: int|
            0 <= i < xs.len() ==> term_eq(#[trigger] xs[i], ys[i]),
        TermModel::Dict(ps) => b matches TermModel::Dict(qs) && ps.len() == qs.len() && forall|i: int|
            0 <= i < ps.len() ==> term_eq(#[trigger] ps[i].0, qs[i].0) && term_eq(ps[i].1, qs[i].1),
    }
}

/// Two map entries are equal: keys equal and values equal.
pub open spec fn entry_eq(p: (TermModel, TermModel), q: (TermModel, TermModel)) -> bool {
    term_eq(p.0, q.0) && term_eq(p.1, q.1)
}

/// Whether two doubles, given by their bits, are equal as numbers.
pub fn float_bits_equal(a: u64, b: u64) -> (r: bool)
    ensures
        r == float_bits_eq(a, b),
{
    let a_nan = (a / MANTISSA_SPAN) % 0x800 == 0x7ff && a % MANTISSA_SPAN != 0;
    let b_nan = (b / MANTISSA_SPAN) % 0x800 == 0x7ff && b % MANTISSA_SPAN != 0;
    if a_nan || b_nan {
        return false;
    }
    a == b || (a % SIGN_BIT == 0 && b % SIGN_BIT == 0)
}

fn bytes_equal(a: &Vec<u8>, b: &Vec<u8>) -> (r: bool)
    ensures
        r == (a@ == b@),
{
    if a.len() != b.len() {
        return false;
    }
    let mut i: usize = 0;
    while i < a.len()
        invariant
            a@.len() == b@.len(),
            i <= a@.len(),
            forall|j: int| 0 <= j < i ==> a@[j] == b@[j],
        decreases a@.len() - i,
    {
        if a[i] != b[i] {
            return false;
        }
        i = i + 1;
    }
    assert(a@ =~= b@);
    true
}

fn seqs_equal(a: &Vec<Term>, b: &Vec<Term>) -> (r: bool)
    ensures
        r == (a@.len() == b@.len() && forall|i: int|
            0 <= i < a@.len() ==> term_eq(#[trigger] view_terms(a@)[i], view_terms(b@)[i])),
    decreases a, 1nat,
{
    if a.len() != b.len() {
        return false;
    }
    let mut i: usize = 0;
    while i < a.len()
        invariant
            a@.len() == b@.len(),
            i <= a@.len(),
            forall|j: int| 0 <= j < i ==> term_eq(#[trigger] view_terms(a@)[j], view_terms(b@)[j]),
        decreases a@.len() - i,
    {
        proof {
            assert(decreases_to!(a => a@[i as int]));
        }
        if !terms_equal(&a[i], &b[i]) {
            assert(view_terms(a@)[i as int] == a@[i as int]@ && view_terms(b@)[i as int] == b@[i as int]@);
            return false;
        }
        i = i + 1;
    }
    true
}

fn entries_equal(a: &Vec<(Term, Term)>, b: &Vec<(Term, Term)>) -> (r: bool)
    ensures
        r == (a@.len() == b@.len() && forall|i: int|
            0 <= i < a@.len() ==> entry_eq(#[trigger] view_pairs(a@)[i], view_pairs(b@)[i])),
    decreases a, 1nat,
{
    if a.len() != b.len() {
        return false;
    }
    let mut i: usize = 0;
    while i < a.len()
        invariant
            a@.len() == b@.len(),
            i <= a@.len(),
            forall|j: int| 0 <= j < i ==> entry_eq(#[trigger] view_pairs(a@)[j], view_pairs(b@)[j]),
        decreases a@.len() - i,
    {
        proof {
            assert(decreases_to!(a => a@[i as int]));
            assert(decreases_to!(a@[i as int] => a@[i as int].0));
            assert(decreases_to!(a@[i as int] => a@[i as int].1));
        }
        assert(view_pairs(a@)[i as int] == (a@[i as int].0@, a@[i as int].1@));
        assert(view_pairs(b@)[i as int] == (b@[i as int].0@, b@[i as int].1@));
        if !terms_equal(&a[i].0, &b[i].0) {
            assert(!entry_eq(view_pairs(a@)[i as int], view_pairs(b@)[i as int]));
            return false;
        }
        if !terms_equal(&a[i].1, &b[i].1) {
            assert(!entry_eq(view_pairs(a@)[i as int], view_pairs(b@)[i as int]));
            return false;
        }
        i = i + 1;
    }
    true
}

/// Whether two terms are equal (see `term_eq`).
pub fn terms_equal(a: &Term, b: &Term) -> (r: bool)
    ensures
        r == term_eq(a@, b@),
    decreases a, 0nat,
{
    proof {
        if let Term::Tuple(xs) = a {
            assert(view_terms(xs@).len() == xs@.len());
        }
        if let Term::List(xs) = a {
            assert(view_terms(xs@).len() == xs@.len());
        }
        if let Term::Dict(ps) = a {
            assert(view_pairs(ps@).len() == ps@.len());
        }
        if let Term::Tuple(ys) = b {
            assert(view_terms(ys@).len() == ys@.len());
        }
        if let Term::List(ys) = b {
            assert(view_terms(ys@).len() == ys@.len());
        }
        if let Term::Dict(qs) = b {
            assert(view_pairs(qs@).len() == qs@.len());
        }
    }
    match (a, b) {
        (Term::Atom(x), Term::Atom(y)) => *x == *y,
        (Term::Integer(x), Term::Integer(y)) => *x == *y,
        (Term::Float(x), Term::Float(y)) => float_bits_equal(*x, *y),
        (Term::Big { sign: s1, digits: d1 }, Term::Big { sign: s2, digits: d2 }) => *s1 == *s2
            && bytes_equal(d1, d2),
        (Term::Binary(x), Term::Binary(y)) => bytes_equal(x, y),
        (Term::Tuple(xs), Term::Tuple(ys)) => seqs_equal(xs, ys),
        (Term::List(xs), Term::List(ys)) => seqs_equal(xs, ys),
        (Term::Dict(ps), Term::Dict(qs)) => {
            let r = entries_equal(ps, qs);
            proof {
                let xs = view_pairs(ps@);
                let ys = view_pairs(qs@);
                if r {
                    assert forall|i: int| 0 <= i < xs.len() implies term_eq(#[trigger] xs[i].0, ys[i].0)
                        && term_eq(xs[i].1, ys[i].1) by {
                        assert(entry_eq(xs[i], ys[i]));
                    }
                } else if xs.len() == ys.len() {
                    let k = choose|i: int| 0 <= i < xs.len() && !entry_eq(#[trigger] xs[i], ys[i]);
                    assert(!(term_eq(xs[k].0, ys[k].0) && term_eq(xs[k].1, ys[k].1)));
                }
            }
            assert(r == term_eq(a@, b@));
            r
        },
        _ => false,
    }
}

impl PartialEq for Term {
    fn eq(&self, other: &Self) -> (r: bool) {
        terms_equal(self, other)
    }
}

impl PartialEqSpecImpl for Term {
    open spec fn obeys_eq_spec() -> bool {
        true
    }

    open spec fn eq_spec(&self, other: &Self) -> bool {
        term_eq(self@, other@)
    }
}

/// Equality of JSON numbers: the same kind and the same value, floats
/// compared by `float_bits_eq`.
pub open spec fn number_eq(a: JsonNumber, b: JsonNumber) -> bool {
    match (a, b) {
        (JsonNumber::PosInt(x), JsonNumber::PosInt(y)) => x == y,
        (JsonNumber::NegInt(x), JsonNumber::NegInt(y)) => x == y,
        (JsonNumber::Float(x), JsonNumber::Float(y)) => float_bits_eq(x, y),
        _ => false,
    }
}

impl PartialEq for JsonNumber {
    fn eq(&self, other: &Self) -> (r: bool) {
        match (self, other) {
            (JsonNumber::PosInt(x), JsonNumber::PosInt(y)) => *x == *y,
            (JsonNumber::NegInt(x), JsonNumber::NegInt(y)) => *x == *y,
            (JsonNumber::Float(x), JsonNumber::Float(y)) => float_bits_equal(*x, *y),
            _ => false,
        }
    }
}

impl PartialEqSpecImpl for JsonNumber {
    open spec fn obeys_eq_spec() -> bool {
        true
    }

    open spec fn eq_spec(&self, other: &Self) -> bool {
        number_eq(*self, *other)
    }
}

} // verus!
