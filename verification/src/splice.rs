//! Building a map message out of terms and values that are already encoded.
use vstd::prelude::*;

use crate::encode::{
    be32_bytes, container_too_long, encode_term, encoding, pairs_encoding, push_all, push_be32,
    term_encoding, EncodeError, EncodeFailure, MAP_EXT, VERSION_BYTE,
};
use crate::term::{Term, TermModel};

verus! {

/// A map value: a term to encode, or the bytes of a term encoded before
/// (without a version byte), written as they are.
pub enum SplicedValue<'a> {
    Owned(Term),
    PreEncoded(&'a [u8]),
}

pub enum SplicedModel {
    Owned(TermModel),
    PreEncoded(Seq<u8>),
}

impl<'a> View for SplicedValue<'a> {
    type V = SplicedModel;

    open spec fn view(&self) -> SplicedModel {
        match self {
            SplicedValue::Owned(t) => SplicedModel::Owned(t@),
            SplicedValue::PreEncoded(b) => SplicedModel::PreEncoded(b@),
        }
    }
}

/// The models of the entries handed to `splice_map`.
pub open spec fn view_spliced(es: Seq<(Term, SplicedValue)>) -> Seq<(TermModel, SplicedModel)> {
    Seq::new(es.len(), |i: int| (es[i].0@, es[i].1@))
}

/// The bytes that stand for a spliced value.
pub open spec fn spliced_value_encoding(v: SplicedModel) -> Result<Seq<u8>, EncodeFailure> {
    match v {
        SplicedModel::Owned(t) => term_encoding(t),
        SplicedModel::PreEncoded(b) => Ok(b),
    }
}

/// The bytes of a run of entries, key before value; the first failure wins.
pub open spec fn spliced_entries_encoding(es: Seq<(TermModel, SplicedModel)>) -> Result<
    Seq<u8>,
    EncodeFailure,
>
    decreases es.len(),
{
    if es.len() == 0 {
        Ok(seq![])
    } else {
        match spliced_entries_encoding(es.drop_last()) {
            Err(e) => Err(e),
            Ok(a) => match term_encoding(es.last().0) {
                Err(e) => Err(e),
                Ok(k) => match spliced_value_encoding(es.last().1) {
                    Err(e) => Err(e),
                    Ok(v) => Ok(a + k + v),
                },
            },
        }
    }
}

/// The whole message `splice_map` writes: version byte, map header, entries.
pub open spec fn splice_encoding(es: Seq<(TermModel, SplicedModel)>) -> Result<Seq<u8>, EncodeFailure> {
    if es.len() > u32::MAX {
        Err(container_too_long("map"@, es.len() as int))
    } else {
        match spliced_entries_encoding(es) {
            Err(e) => Err(e),
            Ok(b) => Ok(seq![VERSION_BYTE, MAP_EXT] + be32_bytes(es.len() as u32) + b),
        }
    }
}

/// One more entry adds the bytes of that entry.
proof fn lemma_entries_step(s: Seq<(TermModel, SplicedModel)>, i: int)
    requires
        0 <= i < s.len(),
        spliced_entries_encoding(s.take(i)) is Ok,
    ensures
        spliced_entries_encoding(s.take(i + 1)) == match spliced_entry_encoding(s[i]) {
            Err(e) => Err(e),
            Ok(b) => Ok(spliced_entries_encoding(s.take(i))->Ok_0 + b),
        },
{
    assert(s.take(i + 1).drop_last() =~= s.take(i));
    assert(s.take(i + 1).last() == s[i]);
    match spliced_entry_encoding(s[i]) {
        Err(e) => {},
        Ok(b) => {
            let a = spliced_entries_encoding(s.take(i))->Ok_0;
            let k = term_encoding(s[i].0)->Ok_0;
            let v = spliced_value_encoding(s[i].1)->Ok_0;
            assert(a + k + v =~= a + (k + v));
        },
    }
}

proof fn lemma_spliced_failure_persists(s: Seq<(TermModel, SplicedModel)>, k: int, n: int)
    requires
        0 <= k <= n <= s.len(),
        spliced_entries_encoding(s.take(k)) is Err,
    ensures
        spliced_entries_encoding(s.take(n)) == spliced_entries_encoding(s.take(k)),
    decreases n - k,
{
    if k < n {
        lemma_spliced_failure_persists(s, k, n - 1);
        assert(s.take(n).drop_last() =~= s.take(n - 1));
    }
}

/// The bytes of one entry, key before value.
pub open spec fn spliced_entry_encoding(e: (TermModel, SplicedModel)) -> Result<Seq<u8>, EncodeFailure> {
    match term_encoding(e.0) {
        Err(x) => Err(x),
        Ok(k) => match spliced_value_encoding(e.1) {
            Err(x) => Err(x),
            Ok(v) => Ok(k + v),
        },
    }
}

fn splice_entry(key: &Term, value: &SplicedValue, out: &mut Vec<u8>) -> (r: Result<(), EncodeError>)
    ensures
        match spliced_entry_encoding((key@, value@)) {
            Ok(b) => r is Ok && final(out)@ == old(out)@ + b,
            Err(e) => r matches Err(x) && x@ == e,
        },
{
    match encode_term(key, out) {
        Err(e) => return Err(e),
        Ok(()) => {},
    }
    let ghost mid = out@;
    match value {
        SplicedValue::Owned(t) => match encode_term(t, out) {
            Err(e) => return Err(e),
            Ok(()) => {},
        },
        SplicedValue::PreEncoded(bytes) => push_all(out, bytes),
    }
    assert(out@ =~= old(out)@ + spliced_entry_encoding((key@, value@))->Ok_0);
    Ok(())
}

/// Encodes a map whose entries are given as keys and spliced values, with
/// the version byte in front.
pub fn splice_map(entries: &[(Term, SplicedValue<'_>)]) -> (r: Result<Vec<u8>, EncodeError>)
    ensures
        match splice_encoding(view_spliced(entries@)) {
            Ok(b) => r matches Ok(v) && v@ == b,
            Err(e) => r matches Err(x) && x@ == e,
        },
{
    let ghost s = view_spliced(entries@);
    if entries.len() > u32::MAX as usize {
        return Err(EncodeError::ContainerTooLong { kind: "map", arity: entries.len() });
    }
    let mut out: Vec<u8> = Vec::new();
    out.push(VERSION_BYTE);
    out.push(MAP_EXT);
    push_be32(&mut out, entries.len() as u32);
    let ghost base = out@;
    assert(s.take(0) =~= seq![]);
    assert(out@ =~= base + seq![]);
    let mut i: usize = 0;
    while i < entries.len()
        invariant
            s == view_spliced(entries@),
            i <= entries@.len(),
            entries@.len() <= u32::MAX,
            spliced_entries_encoding(s.take(i as int)) is Ok,
            out@ == base + spliced_entries_encoding(s.take(i as int))->Ok_0,
            base == seq![VERSION_BYTE, MAP_EXT] + be32_bytes(entries@.len() as u32),
        decreases entries@.len() - i,
    {
        proof {
            assert(s.take(i + 1).drop_last() =~= s.take(i as int));
            assert(s[i as int] == (entries@[i as int].0@, entries@[i as int].1@));
            lemma_entries_step(s, i as int);
        }
        let ghost before = out@;
        match splice_entry(&entries[i].0, &entries[i].1, &mut out) {
            Err(e) => {
                proof {
                    lemma_spliced_failure_persists(s, i + 1, s.len() as int);
                    assert(s.take(s.len() as int) =~= s);
                }
                return Err(e);
            },
            Ok(()) => {},
        }
        proof {
            assert(out@ =~= base + spliced_entries_encoding(s.take(i + 1))->Ok_0);
        }
        i = i + 1;
    }
    assert(s.take(i as int) =~= s);
    Ok(out)
}

/// Entries whose values are all terms to encode.
pub open spec fn owned_entries(ps: Seq<(TermModel, TermModel)>) -> Seq<(TermModel, SplicedModel)> {
    Seq::new(ps.len(), |i: int| (ps[i].0, SplicedModel::Owned(ps[i].1)))
}

proof fn lemma_owned_entries(ps: Seq<(TermModel, TermModel)>)
    ensures
        spliced_entries_encoding(owned_entries(ps)) == pairs_encoding(ps),
    decreases ps.len(),
{
    if ps.len() > 0 {
        lemma_owned_entries(ps.drop_last());
        assert(owned_entries(ps).drop_last() =~= owned_entries(ps.drop_last()));
    }
}

/// Two runs of entries with the same keys, whose values stand for the same
/// bytes, encode the same.
proof fn lemma_same_bytes(a: Seq<(TermModel, SplicedModel)>, b: Seq<(TermModel, SplicedModel)>)
    requires
        a.len() == b.len(),
        forall|i: int|
            0 <= i < a.len() ==> #[trigger] a[i].0 == b[i].0 && spliced_value_encoding(a[i].1)
                == spliced_value_encoding(b[i].1),
    ensures
        spliced_entries_encoding(a) == spliced_entries_encoding(b),
    decreases a.len(),
{
    if a.len() > 0 {
        lemma_same_bytes(a.drop_last(), b.drop_last());
        assert(a[a.len() - 1].0 == b[b.len() - 1].0);
    }
}

/// Splicing with every value a term to encode writes exactly what `encode`
/// writes for the map of those entries.
pub proof fn law_splice_owned_matches_encode(ps: Seq<(TermModel, TermModel)>)
    ensures
        splice_encoding(owned_entries(ps)) == encoding(TermModel::Dict(ps)),
{
    lemma_owned_entries(ps);
    if ps.len() <= u32::MAX {
        if let Ok(b) = pairs_encoding(ps) {
            assert(seq![VERSION_BYTE, MAP_EXT] + be32_bytes(ps.len() as u32) + b =~= seq![VERSION_BYTE]
                + (seq![MAP_EXT] + be32_bytes(ps.len() as u32) + b));
        }
    }
}

/// Handing over a value already encoded, in place of the term it encodes,
/// changes nothing in what `splice_map` writes.
pub proof fn law_splice_preencoded_matches_owned(
    es: Seq<(TermModel, SplicedModel)>,
    i: int,
    v: TermModel,
)
    requires
        0 <= i < es.len(),
        es[i].1 == SplicedModel::Owned(v),
        term_encoding(v) is Ok,
    ensures
        splice_encoding(es.update(i, (es[i].0, SplicedModel::PreEncoded(term_encoding(v)->Ok_0))))
            == splice_encoding(es),
{
    let b = es.update(i, (es[i].0, SplicedModel::PreEncoded(term_encoding(v)->Ok_0)));
    assert forall|j: int| 0 <= j < b.len() implies #[trigger] b[j].0 == es[j].0
        && spliced_value_encoding(b[j].1) == spliced_value_encoding(es[j].1) by {
    }
    lemma_same_bytes(b, es);
}

} // verus!
