//! What decoding gives back of an encoding.
use vstd::prelude::*;
use vstd::utf8::*;

use crate::decode::{
    be32_at, be64_at, decoding, integer_at, latin1_chars, leaf_at, small_integer_at, binary_at, small_big_at, pairs_at, term_at, terms_at, DecodeConfig,
    DecodeFailure,
};
use crate::encode::{be32_bytes, be64_bytes, encoding, pairs_encoding, term_encoding, terms_encoding};
use crate::term::TermModel;

verus! {

/// Every atom in `t` is ASCII text. (The encoder writes atom text as UTF-8
/// under `SMALL_ATOM_EXT`, which the decoder reads as Latin-1; the two
/// readings agree exactly on ASCII.)
pub open spec fn ascii_atoms(t: TermModel) -> bool
    decreases t,
{
    match t {
        TermModel::Atom(s) => is_ascii_chars(s),
        TermModel::Tuple(es) => forall|i: int| 0 <= i < (es.len() as int) ==> ascii_atoms(#[trigger] es[i]),
        TermModel::List(es) => forall|i: int| 0 <= i < (es.len() as int) ==> ascii_atoms(#[trigger] es[i]),
        TermModel::Dict(ps) => forall|i: int|
            0 <= i < (ps.len() as int) ==> ascii_atoms(#[trigger] ps[i].0) && ascii_atoms(ps[i].1),
        _ => true,
    }
}

/// `t` has no sub-term more than `levels` levels below it (an empty
/// container counts as a leaf).
pub open spec fn nests_within(t: TermModel, levels: int) -> bool
    decreases t,
{
    match t {
        TermModel::Tuple(es) => (es.len() as int) == 0 || (levels >= 1 && forall|i: int|
            0 <= i < (es.len() as int) ==> nests_within(#[trigger] es[i], levels - 1)),
        TermModel::List(es) => (es.len() as int) == 0 || (levels >= 1 && forall|i: int|
            0 <= i < (es.len() as int) ==> nests_within(#[trigger] es[i], levels - 1)),
        TermModel::Dict(ps) => (ps.len() as int) == 0 || (levels >= 1 && forall|i: int|
            0 <= i < (ps.len() as int) ==> nests_within(#[trigger] ps[i].0, levels - 1) && nests_within(
                ps[i].1,
                levels - 1,
            )),
        _ => true,
    }
}

/// No big integer in `t` has more than `ceiling` digits.
pub open spec fn bigs_within(t: TermModel, ceiling: int) -> bool
    decreases t,
{
    match t {
        TermModel::Big { digits, .. } => (digits.len() as int) <= ceiling,
        TermModel::Tuple(es) => forall|i: int| 0 <= i < (es.len() as int) ==> bigs_within(#[trigger] es[i], ceiling),
        TermModel::List(es) => forall|i: int| 0 <= i < (es.len() as int) ==> bigs_within(#[trigger] es[i], ceiling),
        TermModel::Dict(ps) => forall|i: int|
            0 <= i < (ps.len() as int) ==> bigs_within(#[trigger] ps[i].0, ceiling) && bigs_within(ps[i].1, ceiling),
        _ => true,
    }
}

/// A window of a window.
proof fn lemma_window(data: Seq<u8>, p: int, enc: Seq<u8>, i: int, j: int)
    requires
        0 <= p,
        p + enc.len() <= data.len(),
        data.subrange(p, p + enc.len()) == enc,
        0 <= i <= j <= enc.len(),
    ensures
        data.subrange(p + i, p + j) == enc.subrange(i, j),
{
    assert(data.subrange(p + i, p + j) =~= data.subrange(p, p + enc.len()).subrange(i, j));
}

proof fn lemma_be32(data: Seq<u8>, p: int, n: u32)
    requires
        0 <= p,
        p + 4 <= data.len(),
        data.subrange(p, p + 4) == be32_bytes(n),
    ensures
        be32_at(data, p) == n,
{
    assert(data[p] == be32_bytes(n)[0]);
    assert(data[p + 1] == be32_bytes(n)[1]);
    assert(data[p + 2] == be32_bytes(n)[2]);
    assert(data[p + 3] == be32_bytes(n)[3]);
    assert(((n / 0x1000000) as u8) as u32 * 0x1000000 + ((n / 0x10000 % 0x100) as u8) as u32
        * 0x10000 + ((n / 0x100 % 0x100) as u8) as u32 * 0x100 + ((n % 0x100) as u8) as u32 == n)
        by (bit_vector);
}

proof fn lemma_be64(data: Seq<u8>, p: int, n: u64)
    requires
        0 <= p,
        p + 8 <= data.len(),
        data.subrange(p, p + 8) == be64_bytes(n),
    ensures
        be64_at(data, p) == n,
{
    let hi = (n / 0x1_0000_0000) as u32;
    let lo = (n % 0x1_0000_0000) as u32;
    lemma_window(data, p, be64_bytes(n), 0, 4);
    assert(be64_bytes(n).subrange(0, 4) =~= be32_bytes(hi));
    lemma_window(data, p, be64_bytes(n), 4, 8);
    assert(be64_bytes(n).subrange(4, 8) =~= be32_bytes(lo));
    lemma_be32(data, p, hi);
    lemma_be32(data, p + 4, lo);
    assert(((n / 0x1_0000_0000) as u32) as u64 * 0x1_0000_0000 + ((n % 0x1_0000_0000) as u32) as u64
        == n) by (bit_vector);
}

/// The children of a container at depth `parent` satisfy the law's
/// conditions.
pub open spec fn children_fit(es: Seq<TermModel>, cfg: DecodeConfig, parent: int) -> bool {
    forall|i: int|
        0 <= i < es.len() ==> ascii_atoms(#[trigger] es[i]) && nests_within(
            es[i],
            cfg.max_depth - parent - 1,
        ) && bigs_within(es[i], cfg.big_digit_ceiling as int)
}

pub open spec fn entries_fit(ps: Seq<(TermModel, TermModel)>, cfg: DecodeConfig, parent: int) -> bool {
    forall|i: int|
        0 <= i < ps.len() ==> ascii_atoms(#[trigger] ps[i].0) && ascii_atoms(ps[i].1)
            && nests_within(ps[i].0, cfg.max_depth - parent - 1) && nests_within(
            ps[i].1,
            cfg.max_depth - parent - 1,
        ) && bigs_within(ps[i].0, cfg.big_digit_ceiling as int) && bigs_within(
            ps[i].1,
            cfg.big_digit_ceiling as int,
        )
}

/// `enc` stands at `p` in `data`.
pub open spec fn lies_at(data: Seq<u8>, p: int, enc: Seq<u8>) -> bool {
    0 <= p && p + enc.len() <= data.len() && data.subrange(p, p + enc.len()) == enc
}

/// The encoding of each term of `es`, laid at `p`, decodes to `es`.
proof fn lemma_terms_decode<F: Fn(&[u8]) -> Option<u64>>(
    parse: F,
    cfg: DecodeConfig,
    es: Seq<TermModel>,
    data: Seq<u8>,
    p: int,
    parent: int,
)
    requires
        terms_encoding(es) is Ok,
        lies_at(data, p, terms_encoding(es)->Ok_0),
        0 <= parent,
        es.len() > 0 ==> parent < cfg.max_depth,
        children_fit(es, cfg, parent),
    ensures
        terms_at(parse, cfg, data, p, parent, es.len()) == Ok::<(Seq<TermModel>, int), DecodeFailure>(
            (es, p + terms_encoding(es)->Ok_0.len()),
        ),
    decreases es, 0nat,
{
    if es.len() > 0 {
        let init = es.drop_last();
        let last = es.last();
        let a = terms_encoding(init)->Ok_0;
        let b = term_encoding(last)->Ok_0;
        let al = a.len() as int;
        let bl = b.len() as int;
        assert(terms_encoding(es)->Ok_0 == a + b);
        lemma_window(data, p, a + b, 0, al);
        assert((a + b).subrange(0, al) =~= a);
        lemma_window(data, p, a + b, al, al + bl);
        assert((a + b).subrange(al, al + bl) =~= b);
        assert(children_fit(init, cfg, parent)) by {
            assert forall|i: int| 0 <= i < init.len() implies ascii_atoms(#[trigger] init[i])
                && nests_within(init[i], cfg.max_depth - parent - 1) && bigs_within(
                init[i],
                cfg.big_digit_ceiling as int,
            ) by {
                assert(init[i] == es[i]);
            }
        }
        lemma_terms_decode(parse, cfg, init, data, p, parent);
        assert(decreases_to!(es => es[es.len() - 1]));
        assert(ascii_atoms(es[es.len() - 1]));
        lemma_term_decodes(parse, cfg, last, data, p + al, parent + 1);
        assert(init.push(last) =~= es);
        assert(es.len() - 1 == init.len());
        assert(terms_at(parse, cfg, data, p, parent, init.len()) == Ok::<
            (Seq<TermModel>, int),
            DecodeFailure,
        >((init, p + al)));
        assert(term_at(parse, cfg, data, p + al, parent + 1) == Ok::<(TermModel, int), DecodeFailure>(
            (last, p + al + bl),
        ));
        assert(terms_encoding(es)->Ok_0.len() == al + bl);
    } else {
        assert(es =~= seq![]);
    }
}

/// The encoding of each pair of `ps`, laid at `p`, decodes to `ps`.
proof fn lemma_pairs_decode<F: Fn(&[u8]) -> Option<u64>>(
    parse: F,
    cfg: DecodeConfig,
    ps: Seq<(TermModel, TermModel)>,
    data: Seq<u8>,
    p: int,
    parent: int,
)
    requires
        pairs_encoding(ps) is Ok,
        lies_at(data, p, pairs_encoding(ps)->Ok_0),
        0 <= parent,
        ps.len() > 0 ==> parent < cfg.max_depth,
        entries_fit(ps, cfg, parent),
    ensures
        pairs_at(parse, cfg, data, p, parent, ps.len()) == Ok::<
            (Seq<(TermModel, TermModel)>, int),
            DecodeFailure,
        >((ps, p + pairs_encoding(ps)->Ok_0.len())),
    decreases ps, 0nat,
{
    if ps.len() > 0 {
        let init = ps.drop_last();
        let last = ps.last();
        let a = pairs_encoding(init)->Ok_0;
        let k = term_encoding(last.0)->Ok_0;
        let v = term_encoding(last.1)->Ok_0;
        let al = a.len() as int;
        let kl = k.len() as int;
        let vl = v.len() as int;
        assert(pairs_encoding(ps)->Ok_0 == a + k + v);
        lemma_window(data, p, a + k + v, 0, al);
        assert((a + k + v).subrange(0, al) =~= a);
        lemma_window(data, p, a + k + v, al, al + kl);
        assert((a + k + v).subrange(al, al + kl) =~= k);
        lemma_window(data, p, a + k + v, al + kl, al + kl + vl);
        assert((a + k + v).subrange(al + kl, al + kl + vl) =~= v);
        assert(entries_fit(init, cfg, parent)) by {
            assert forall|i: int| 0 <= i < init.len() implies ascii_atoms(#[trigger] init[i].0)
                && ascii_atoms(init[i].1) && nests_within(init[i].0, cfg.max_depth - parent - 1)
                && nests_within(init[i].1, cfg.max_depth - parent - 1) && bigs_within(
                init[i].0,
                cfg.big_digit_ceiling as int,
            ) && bigs_within(init[i].1, cfg.big_digit_ceiling as int) by {
                assert(init[i] == ps[i]);
            }
        }
        lemma_pairs_decode(parse, cfg, init, data, p, parent);
        assert(decreases_to!(ps => ps[ps.len() - 1]));
        assert(ascii_atoms(ps[ps.len() - 1].0));
        lemma_term_decodes(parse, cfg, last.0, data, p + al, parent + 1);
        lemma_term_decodes(parse, cfg, last.1, data, p + al + kl, parent + 1);
        assert(init.push(last) =~= ps);
        assert(ps.len() - 1 == init.len());
        assert(pairs_at(parse, cfg, data, p, parent, init.len()) == Ok::<
            (Seq<(TermModel, TermModel)>, int),
            DecodeFailure,
        >((init, p + al)));
        assert(init.push((last.0, last.1)) =~= ps);
        assert(pairs_encoding(ps)->Ok_0.len() == al + kl + vl);
    } else {
        assert(ps =~= seq![]);
    }
}

proof fn lemma_atom_decodes<F: Fn(&[u8]) -> Option<u64>>(
    parse: F,
    cfg: DecodeConfig,
    s: Seq<char>,
    data: Seq<u8>,
    p: int,
    depth: int,
)
    requires
        term_encoding(TermModel::Atom(s)) is Ok,
        lies_at(data, p, term_encoding(TermModel::Atom(s))->Ok_0),
        0 <= depth <= cfg.max_depth,
        is_ascii_chars(s),
    ensures
        term_at(parse, cfg, data, p, depth) == Ok::<(TermModel, int), DecodeFailure>(
            (TermModel::Atom(s), p + term_encoding(TermModel::Atom(s))->Ok_0.len()),
        ),
{
    let enc = term_encoding(TermModel::Atom(s))->Ok_0;
    let b = encode_utf8(s);
    let bl = b.len() as int;
    is_ascii_chars_encode_utf8(s);
    lemma_window(data, p, enc, 0, 2);
    assert(data[p] == enc[0] && data[p + 1] == enc[1]) by {
        assert(data.subrange(p, p + 2)[0] == data[p]);
        assert(data.subrange(p, p + 2)[1] == data[p + 1]);
    }
    lemma_window(data, p, enc, 2, 2 + bl);
    assert(enc.subrange(2, 2 + bl) =~= b);
    assert(latin1_chars(b) =~= s) by {
        assert forall|i: int| 0 <= i < s.len() implies latin1_chars(b)[i] == s[i] by {
            assert(s[i] as u8 == b[i]);
            assert('\0' <= s[i] <= '\u{7f}');
        }
    }
}

proof fn lemma_integer_decodes<F: Fn(&[u8]) -> Option<u64>>(
    parse: F,
    cfg: DecodeConfig,
    n: i32,
    data: Seq<u8>,
    p: int,
    depth: int,
)
    requires
        lies_at(data, p, term_encoding(TermModel::Integer(n))->Ok_0),
        0 <= depth <= cfg.max_depth,
    ensures
        term_at(parse, cfg, data, p, depth) == Ok::<(TermModel, int), DecodeFailure>(
            (TermModel::Integer(n), p + term_encoding(TermModel::Integer(n))->Ok_0.len()),
        ),
{
    let enc = term_encoding(TermModel::Integer(n))->Ok_0;
    lemma_window(data, p, enc, 0, 1);
    assert(data[p] == enc[0]) by {
        assert(data.subrange(p, p + 1)[0] == data[p]);
    }
    if 0 <= n <= 255 {
        lemma_window(data, p, enc, 1, 2);
        assert(data[p + 1] == enc[1]) by {
            assert(data.subrange(p + 1, p + 2)[0] == data[p + 1]);
        }
        assert(term_at(parse, cfg, data, p, depth) == leaf_at(parse, cfg, data, data[p], p));
        assert(small_integer_at(data, p + 1) == Ok::<(TermModel, int), DecodeFailure>(
            (TermModel::Integer(n), p + 2),
        ));
    } else {
        lemma_window(data, p, enc, 1, 5);
        assert(enc.subrange(1, 5) =~= be32_bytes(n as u32));
        lemma_be32(data, p + 1, n as u32);
        assert((n as u32) as i32 == n) by (bit_vector);
        assert(term_at(parse, cfg, data, p, depth) == leaf_at(parse, cfg, data, data[p], p));
        assert(integer_at(data, p + 1) == Ok::<(TermModel, int), DecodeFailure>(
            (TermModel::Integer(n), p + 5),
        ));
    }
}

proof fn lemma_float_decodes<F: Fn(&[u8]) -> Option<u64>>(
    parse: F,
    cfg: DecodeConfig,
    bits: u64,
    data: Seq<u8>,
    p: int,
    depth: int,
)
    requires
        lies_at(data, p, term_encoding(TermModel::Float(bits))->Ok_0),
        0 <= depth <= cfg.max_depth,
    ensures
        term_at(parse, cfg, data, p, depth) == Ok::<(TermModel, int), DecodeFailure>(
            (TermModel::Float(bits), p + term_encoding(TermModel::Float(bits))->Ok_0.len()),
        ),
{
    let enc = term_encoding(TermModel::Float(bits))->Ok_0;
    lemma_window(data, p, enc, 0, 1);
    assert(data[p] == enc[0]) by {
        assert(data.subrange(p, p + 1)[0] == data[p]);
    }
    lemma_window(data, p, enc, 1, 9);
    assert(enc.subrange(1, 9) =~= be64_bytes(bits));
    lemma_be64(data, p + 1, bits);
    assert(term_at(parse, cfg, data, p, depth) == leaf_at(parse, cfg, data, data[p], p));
}

proof fn lemma_big_decodes<F: Fn(&[u8]) -> Option<u64>>(
    parse: F,
    cfg: DecodeConfig,
    sign: bool,
    digits: Seq<u8>,
    data: Seq<u8>,
    p: int,
    depth: int,
)
    requires
        term_encoding(TermModel::Big { sign, digits }) is Ok,
        lies_at(data, p, term_encoding(TermModel::Big { sign, digits })->Ok_0),
        0 <= depth <= cfg.max_depth,
        digits.len() <= cfg.big_digit_ceiling,
    ensures
        term_at(parse, cfg, data, p, depth) == Ok::<(TermModel, int), DecodeFailure>(
            (
                TermModel::Big { sign, digits },
                p + term_encoding(TermModel::Big { sign, digits })->Ok_0.len(),
            ),
        ),
{
    let enc = term_encoding(TermModel::Big { sign, digits })->Ok_0;
    let dl = digits.len() as int;
    lemma_window(data, p, enc, 0, 3);
    assert(data[p] == enc[0] && data[p + 1] == enc[1] && data[p + 2] == enc[2]) by {
        assert(data.subrange(p, p + 3)[0] == data[p]);
        assert(data.subrange(p, p + 3)[1] == data[p + 1]);
        assert(data.subrange(p, p + 3)[2] == data[p + 2]);
    }
    lemma_window(data, p, enc, 3, 3 + dl);
    assert(enc.subrange(3, 3 + dl) =~= digits);
    assert(term_at(parse, cfg, data, p, depth) == leaf_at(parse, cfg, data, data[p], p));
    assert(leaf_at(parse, cfg, data, data[p], p) == small_big_at(cfg, data, p + 1, p));
}

proof fn lemma_binary_decodes<F: Fn(&[u8]) -> Option<u64>>(
    parse: F,
    cfg: DecodeConfig,
    b: Seq<u8>,
    data: Seq<u8>,
    p: int,
    depth: int,
)
    requires
        term_encoding(TermModel::Binary(b)) is Ok,
        lies_at(data, p, term_encoding(TermModel::Binary(b))->Ok_0),
        0 <= depth <= cfg.max_depth,
    ensures
        term_at(parse, cfg, data, p, depth) == Ok::<(TermModel, int), DecodeFailure>(
            (TermModel::Binary(b), p + term_encoding(TermModel::Binary(b))->Ok_0.len()),
        ),
{
    let enc = term_encoding(TermModel::Binary(b))->Ok_0;
    let bl = b.len() as int;
    lemma_window(data, p, enc, 0, 1);
    assert(data[p] == enc[0]) by {
        assert(data.subrange(p, p + 1)[0] == data[p]);
    }
    lemma_window(data, p, enc, 1, 5);
    assert(enc.subrange(1, 5) =~= be32_bytes(b.len() as u32));
    lemma_be32(data, p + 1, b.len() as u32);
    lemma_window(data, p, enc, 5, 5 + bl);
    assert(enc.subrange(5, 5 + bl) =~= b);
    assert(term_at(parse, cfg, data, p, depth) == leaf_at(parse, cfg, data, data[p], p));
    assert(leaf_at(parse, cfg, data, data[p], p) == binary_at(data, p + 1));
}

proof fn lemma_tuple_decodes<F: Fn(&[u8]) -> Option<u64>>(
    parse: F,
    cfg: DecodeConfig,
    es: Seq<TermModel>,
    data: Seq<u8>,
    p: int,
    depth: int,
)
    requires
        term_encoding(TermModel::Tuple(es)) is Ok,
        lies_at(data, p, term_encoding(TermModel::Tuple(es))->Ok_0),
        0 <= depth <= cfg.max_depth,
        ascii_atoms(TermModel::Tuple(es)),
        nests_within(TermModel::Tuple(es), cfg.max_depth - depth),
        bigs_within(TermModel::Tuple(es), cfg.big_digit_ceiling as int),
    ensures
        term_at(parse, cfg, data, p, depth) == Ok::<(TermModel, int), DecodeFailure>(
            (TermModel::Tuple(es), p + term_encoding(TermModel::Tuple(es))->Ok_0.len()),
        ),
    decreases es, 1nat,
{
    let enc = term_encoding(TermModel::Tuple(es))->Ok_0;
    let body = terms_encoding(es)->Ok_0;
    let h: int = if es.len() <= 255 { 2 } else { 5 };
    let bl = body.len() as int;
    assert(enc.len() == h + bl);
    lemma_window(data, p, enc, 0, 1);
    assert(data[p] == enc[0]) by {
        assert(data.subrange(p, p + 1)[0] == data[p]);
    }
    lemma_window(data, p, enc, h, h + bl);
    assert(enc.subrange(h, h + bl) =~= body);
    if es.len() <= 255 {
        lemma_window(data, p, enc, 1, 2);
        assert(data[p + 1] == enc[1]) by {
            assert(data.subrange(p + 1, p + 2)[0] == data[p + 1]);
        }
    } else {
        lemma_window(data, p, enc, 1, 5);
        assert(enc.subrange(1, 5) =~= be32_bytes(es.len() as u32));
        lemma_be32(data, p + 1, es.len() as u32);
    }
    assert(children_fit(es, cfg, depth)) by {
        if es.len() > 0 {
            assert forall|i: int| 0 <= i < es.len() implies ascii_atoms(#[trigger] es[i])
                && nests_within(es[i], cfg.max_depth - depth - 1) && bigs_within(
                es[i],
                cfg.big_digit_ceiling as int,
            ) by {
                assert(ascii_atoms(es[i]));
                assert(nests_within(es[i], cfg.max_depth - depth - 1));
                assert(bigs_within(es[i], cfg.big_digit_ceiling as int));
            }
        }
    }
    lemma_terms_decode(parse, cfg, es, data, p + h, depth);
}

proof fn lemma_list_decodes<F: Fn(&[u8]) -> Option<u64>>(
    parse: F,
    cfg: DecodeConfig,
    es: Seq<TermModel>,
    data: Seq<u8>,
    p: int,
    depth: int,
)
    requires
        term_encoding(TermModel::List(es)) is Ok,
        lies_at(data, p, term_encoding(TermModel::List(es))->Ok_0),
        0 <= depth <= cfg.max_depth,
        ascii_atoms(TermModel::List(es)),
        nests_within(TermModel::List(es), cfg.max_depth - depth),
        bigs_within(TermModel::List(es), cfg.big_digit_ceiling as int),
    ensures
        term_at(parse, cfg, data, p, depth) == Ok::<(TermModel, int), DecodeFailure>(
            (TermModel::List(es), p + term_encoding(TermModel::List(es))->Ok_0.len()),
        ),
    decreases es, 1nat,
{
    let enc = term_encoding(TermModel::List(es))->Ok_0;
    lemma_window(data, p, enc, 0, 1);
    assert(data[p] == enc[0]) by {
        assert(data.subrange(p, p + 1)[0] == data[p]);
    }
    if es.len() == 0 {
        assert(es =~= seq![]);
        assert(term_at(parse, cfg, data, p, depth) == leaf_at(parse, cfg, data, data[p], p));
    } else {
        let body = terms_encoding(es)->Ok_0;
        let bl = body.len() as int;
        assert(enc.len() == 6 + bl);
        lemma_window(data, p, enc, 5, 5 + bl);
        assert(enc.subrange(5, 5 + bl) =~= body);
        lemma_window(data, p, enc, 1, 5);
        assert(enc.subrange(1, 5) =~= be32_bytes(es.len() as u32));
        lemma_be32(data, p + 1, es.len() as u32);
        assert(children_fit(es, cfg, depth)) by {
            assert forall|i: int| 0 <= i < es.len() implies ascii_atoms(#[trigger] es[i])
                && nests_within(es[i], cfg.max_depth - depth - 1) && bigs_within(
                es[i],
                cfg.big_digit_ceiling as int,
            ) by {
                assert(ascii_atoms(es[i]));
                assert(nests_within(es[i], cfg.max_depth - depth - 1));
                assert(bigs_within(es[i], cfg.big_digit_ceiling as int));
            }
        }
        lemma_terms_decode(parse, cfg, es, data, p + 5, depth);
        lemma_window(data, p, enc, 5 + bl, 6 + bl);
        assert(data[p + 5 + bl] == enc[5 + bl]) by {
            assert(data.subrange(p + 5 + bl, p + 6 + bl)[0] == data[p + 5 + bl]);
        }
    }
}

proof fn lemma_dict_decodes<F: Fn(&[u8]) -> Option<u64>>(
    parse: F,
    cfg: DecodeConfig,
    ps: Seq<(TermModel, TermModel)>,
    data: Seq<u8>,
    p: int,
    depth: int,
)
    requires
        term_encoding(TermModel::Dict(ps)) is Ok,
        lies_at(data, p, term_encoding(TermModel::Dict(ps))->Ok_0),
        0 <= depth <= cfg.max_depth,
        ascii_atoms(TermModel::Dict(ps)),
        nests_within(TermModel::Dict(ps), cfg.max_depth - depth),
        bigs_within(TermModel::Dict(ps), cfg.big_digit_ceiling as int),
    ensures
        term_at(parse, cfg, data, p, depth) == Ok::<(TermModel, int), DecodeFailure>(
            (TermModel::Dict(ps), p + term_encoding(TermModel::Dict(ps))->Ok_0.len()),
        ),
    decreases ps, 1nat,
{
    let enc = term_encoding(TermModel::Dict(ps))->Ok_0;
    let body = pairs_encoding(ps)->Ok_0;
    let bl = body.len() as int;
    lemma_window(data, p, enc, 0, 1);
    assert(data[p] == enc[0]) by {
        assert(data.subrange(p, p + 1)[0] == data[p]);
    }
    lemma_window(data, p, enc, 5, 5 + bl);
    assert(enc.subrange(5, 5 + bl) =~= body);
    lemma_window(data, p, enc, 1, 5);
    assert(enc.subrange(1, 5) =~= be32_bytes(ps.len() as u32));
    lemma_be32(data, p + 1, ps.len() as u32);
    assert(entries_fit(ps, cfg, depth)) by {
        if ps.len() > 0 {
            assert forall|i: int| 0 <= i < ps.len() implies ascii_atoms(#[trigger] ps[i].0)
                && ascii_atoms(ps[i].1) && nests_within(ps[i].0, cfg.max_depth - depth - 1)
                && nests_within(ps[i].1, cfg.max_depth - depth - 1) && bigs_within(
                ps[i].0,
                cfg.big_digit_ceiling as int,
            ) && bigs_within(ps[i].1, cfg.big_digit_ceiling as int) by {
                assert(ascii_atoms(ps[i].0));
                assert(nests_within(ps[i].0, cfg.max_depth - depth - 1));
                assert(bigs_within(ps[i].0, cfg.big_digit_ceiling as int));
            }
        }
    }
    lemma_pairs_decode(parse, cfg, ps, data, p + 5, depth);
}

/// The encoding of `t`, laid at `p` inside `data`, decodes to `t` and ends
/// where the encoding ends.
proof fn lemma_term_decodes<F: Fn(&[u8]) -> Option<u64>>(
    parse: F,
    cfg: DecodeConfig,
    t: TermModel,
    data: Seq<u8>,
    p: int,
    depth: int,
)
    requires
        term_encoding(t) is Ok,
        lies_at(data, p, term_encoding(t)->Ok_0),
        0 <= depth <= cfg.max_depth,
        ascii_atoms(t),
        nests_within(t, cfg.max_depth - depth),
        bigs_within(t, cfg.big_digit_ceiling as int),
    ensures
        term_at(parse, cfg, data, p, depth) == Ok::<(TermModel, int), DecodeFailure>(
            (t, p + term_encoding(t)->Ok_0.len()),
        ),
    decreases t, 2nat,
{
    match t {
        TermModel::Atom(s) => lemma_atom_decodes(parse, cfg, s, data, p, depth),
        TermModel::Integer(n) => lemma_integer_decodes(parse, cfg, n, data, p, depth),
        TermModel::Float(bits) => lemma_float_decodes(parse, cfg, bits, data, p, depth),
        TermModel::Big { sign, digits } => lemma_big_decodes(parse, cfg, sign, digits, data, p, depth),
        TermModel::Binary(b) => lemma_binary_decodes(parse, cfg, b, data, p, depth),
        TermModel::Tuple(es) => lemma_tuple_decodes(parse, cfg, es, data, p, depth),
        TermModel::List(es) => lemma_list_decodes(parse, cfg, es, data, p, depth),
        TermModel::Dict(ps) => lemma_dict_decodes(parse, cfg, ps, data, p, depth),
    }
}

/// Decoding gives back what encoding wrote: for a term that encodes, whose
/// atoms are ASCII, that nests no deeper than the decoder's depth limit and
/// whose big integers stay within its digit ceiling, decoding its encoding,
/// followed by any bytes at all, answers the term and the length of the
/// encoding.
pub proof fn law_decode_inverts_encode<F: Fn(&[u8]) -> Option<u64>>(
    parse: F,
    cfg: DecodeConfig,
    t: TermModel,
    rest: Seq<u8>,
)
    requires
        encoding(t) is Ok,
        ascii_atoms(t),
        nests_within(t, cfg.max_depth as int),
        bigs_within(t, cfg.big_digit_ceiling as int),
    ensures
        decoding(parse, cfg, encoding(t)->Ok_0 + rest) == Ok::<(TermModel, int), DecodeFailure>(
            (t, encoding(t)->Ok_0.len() as int),
        ),
{
    let enc = term_encoding(t)->Ok_0;
    let data = encoding(t)->Ok_0 + rest;
    assert(data.subrange(1, 1 + enc.len() as int) =~= enc);
    lemma_term_decodes(parse, cfg, t, data, 1, 0);
}

} // verus!
