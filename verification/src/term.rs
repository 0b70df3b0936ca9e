use vstd::prelude::*;

verus! {

/// An Erlang term as the codec reads and writes it.
#[derive(Debug)]
pub enum Term {
    Atom(String),
    Integer(i32),
    Float(u64),
    Big { sign: bool, digits: Vec<u8> },
    Binary(Vec<u8>),
    Tuple(Vec<Term>),
    List(Vec<Term>),
    Dict(Vec<(Term, Term)>),
}

pub enum TermModel {
    Atom(Seq<char>),
    Integer(i32),
    Float(u64),
    Big { sign: bool, digits: Seq<u8> },
    Binary(Seq<u8>),
    Tuple(Seq<TermModel>),
    List(Seq<TermModel>),
    Dict(Seq<(TermModel, TermModel)>),
}

/// The models of a sequence of terms, element by element.
pub open spec fn view_terms(v: Seq<Term>) -> Seq<TermModel>
    decreases v, 0nat,
{
    Seq::new(v.len(), |i: int| if 0 <= i < v.len() { v[i].view() } else { TermModel::Integer(0) })
}

/// The models of a sequence of key/value pairs, pair by pair.
pub open spec fn view_pairs(v: Seq<(Term, Term)>) -> Seq<(TermModel, TermModel)>
    decreases v, 0nat,
{
    Seq::new(
        v.len(),
        |i: int|
            if 0 <= i < v.len() {
                (v[i].0.view(), v[i].1.view())
            } else {
                (TermModel::Integer(0), TermModel::Integer(0))
            },
    )
}

impl View for Term {
    type V = TermModel;

    open spec fn view(&self) -> TermModel
        decreases self, 1nat,
    {
        match self {
            Term::Atom(s) => TermModel::Atom(s@),
            Term::Integer(n) => TermModel::Integer(*n),
            Term::Float(b) => TermModel::Float(*b),
            Term::Big { sign, digits } => TermModel::Big { sign: *sign, digits: digits@ },
            Term::Binary(b) => TermModel::Binary(b@),
            Term::Tuple(v) => TermModel::Tuple(view_terms(v@)),
            Term::List(v) => TermModel::List(view_terms(v@)),
            Term::Dict(v) => TermModel::Dict(view_pairs(v@)),
        }
    }
}

fn clone_terms(v: &Vec<Term>) -> (r: Vec<Term>)
    ensures
        r@.len() == v@.len(),
        forall|i: int| 0 <= i < v@.len() ==> r@[i]@ == v@[i]@,
    decreases v, 1nat,
{
    let mut r: Vec<Term> = Vec::new();
    let mut i: usize = 0;
    while i < v.len()
        invariant
            i <= v@.len(),
            r@.len() == i,
            forall|j: int| 0 <= j < i ==> r@[j]@ == v@[j]@,
        decreases v@.len() - i,
    {
        proof {
            assert(decreases_to!(v => v@[i as int]));
        }
        let c = v[i].clone_term();
        r.push(c);
        i += 1;
    }
    r
}

fn clone_pairs(v: &Vec<(Term, Term)>) -> (r: Vec<(Term, Term)>)
    ensures
        r@.len() == v@.len(),
        forall|i: int| 0 <= i < v@.len() ==> r@[i].0@ == v@[i].0@ && r@[i].1@ == v@[i].1@,
    decreases v, 1nat,
{
    let mut r: Vec<(Term, Term)> = Vec::new();
    let mut i: usize = 0;
    while i < v.len()
        invariant
            i <= v@.len(),
            r@.len() == i,
            forall|j: int| 0 <= j < i ==> r@[j].0@ == v@[j].0@ && r@[j].1@ == v@[j].1@,
        decreases v@.len() - i,
    {
        proof {
            assert(decreases_to!(v => v@[i as int]));
            assert(decreases_to!(v@[i as int] => v@[i as int].0));
        }
        let k = v[i].0.clone_term();
        let x = v[i].1.clone_term();
        r.push((k, x));
        i += 1;
    }
    r
}

impl Term {
    pub fn clone_term(&self) -> (r: Term)
        ensures r@ == self@,
        decreases self, 0nat,
    {
        match self {
            Term::Atom(s) => Term::Atom(s.clone()),
            Term::Integer(n) => Term::Integer(*n),
            Term::Float(b) => Term::Float(*b),
            Term::Big { sign, digits } => {
                let d = digits.clone();
                assert(d@ =~= digits@);
                Term::Big { sign: *sign, digits: d }
            },
            Term::Binary(b) => {
                let c = b.clone();
                assert(c@ =~= b@);
                Term::Binary(c)
            },
            Term::Tuple(v) => {
                let r = clone_terms(v);
                assert(view_terms(r@) =~= view_terms(v@));
                Term::Tuple(r)
            },
            Term::List(v) => {
                let r = clone_terms(v);
                assert(view_terms(r@) =~= view_terms(v@));
                Term::List(r)
            },
            Term::Dict(v) => {
                let r = clone_pairs(v);
                assert(view_pairs(r@) =~= view_pairs(v@));
                Term::Dict(r)
            },
        }
    }
}

impl Clone for Term {
    fn clone(&self) -> (r: Term)
        ensures r@ == self@,
    {
        self.clone_term()
    }
}

} // verus!
