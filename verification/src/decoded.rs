//! What holds of every successful decode.
use vstd::prelude::*;

use crate::decode::{
    decoding, leaf_at, pairs_at, term_at, terms_at, DecodeConfig, DecodeFailure,
};
use crate::roundtrip::{bigs_within, nests_within};
use crate::term::TermModel;

verus! {

/// `a` and `b` hold the same bytes below `q`, and `b` reaches `q`.
pub open spec fn agree_below(a: Seq<u8>, b: Seq<u8>, q: int) -> bool {
    &&& 0 <= q <= a.len()
    &&& q <= b.len()
    &&& forall|i: int| 0 <= i < q ==> #[trigger] a[i] == b[i]
}

/// A term that decodes from `a` decodes the same from any `b` that holds
/// the same bytes up to where the term ends.
proof fn lemma_leaf_agree<F: Fn(&[u8]) -> Option<u64>>(
    parse: F,
    cfg: DecodeConfig,
    a: Seq<u8>,
    b: Seq<u8>,
    tag: u8,
    tag_pos: int,
    q: int,
)
    requires
        0 <= tag_pos,
        leaf_at(parse, cfg, a, tag, tag_pos) matches Ok((_, r)) && r <= q,
        agree_below(a, b, q),
    ensures
        leaf_at(parse, cfg, b, tag, tag_pos) == leaf_at(parse, cfg, a, tag, tag_pos),
{
    let p = tag_pos + 1;
    assert(forall|i: int| 0 <= i < q ==> #[trigger] a[i] == b[i]);
    if a.len() - p >= 1 && p < q {
        assert(a[p] == b[p]);
    }
    if a.len() - p >= 4 && p + 4 <= q {
        assert(a[p] == b[p] && a[p + 1] == b[p + 1] && a[p + 2] == b[p + 2] && a[p + 3] == b[p + 3]);
    }
    if a.len() - p >= 8 && p + 8 <= q {
        assert(a[p + 4] == b[p + 4] && a[p + 5] == b[p + 5] && a[p + 6] == b[p + 6] && a[p + 7] == b[p + 7]);
    }
    assert(forall|s: int, e: int| 0 <= s <= e <= q ==> #[trigger] b.subrange(s, e) =~= a.subrange(s, e));
}


proof fn lemma_nests_within_mono(t: TermModel, k: int, k2: int)
    requires
        nests_within(t, k),
        k <= k2,
    ensures
        nests_within(t, k2),
    decreases t,
{
    match t {
        TermModel::Tuple(es) => {
            assert forall|i: int| 0 <= i < es.len() implies nests_within(#[trigger] es[i], k2 - 1) by {
                lemma_nests_within_mono(es[i], k - 1, k2 - 1);
            }
        },
        TermModel::List(es) => {
            assert forall|i: int| 0 <= i < es.len() implies nests_within(#[trigger] es[i], k2 - 1) by {
                lemma_nests_within_mono(es[i], k - 1, k2 - 1);
            }
        },
        TermModel::Dict(ps) => {
            assert forall|i: int| 0 <= i < ps.len() implies nests_within(#[trigger] ps[i].0, k2 - 1)
                && nests_within(ps[i].1, k2 - 1) by {
                lemma_nests_within_mono(ps[i].0, k - 1, k2 - 1);
                lemma_nests_within_mono(ps[i].1, k - 1, k2 - 1);
            }
        },
        _ => {},
    }
}

/// A term without sub-terms takes at least its tag byte, stays inside the
/// input, nests at most one level (a `STRING_EXT` list of integers) and
/// keeps its big-integer digits under the ceiling.
proof fn lemma_leaf_fits<F: Fn(&[u8]) -> Option<u64>>(
    parse: F,
    cfg: DecodeConfig,
    a: Seq<u8>,
    tag: u8,
    tag_pos: int,
)
    requires
        0 <= tag_pos < a.len(),
        leaf_at(parse, cfg, a, tag, tag_pos) is Ok,
    ensures
        leaf_at(parse, cfg, a, tag, tag_pos) matches Ok((t, r)) && tag_pos < r <= a.len() && nests_within(t, 1)
            && bigs_within(t, cfg.big_digit_ceiling as int),
{
    if tag == crate::decode::STRING_EXT {
        let (t, r) = leaf_at(parse, cfg, a, tag, tag_pos)->Ok_0;
        if let TermModel::List(es) = t {
            assert forall|i: int| 0 <= i < es.len() implies nests_within(#[trigger] es[i], 0) && bigs_within(
                es[i],
                cfg.big_digit_ceiling as int,
            ) by {
                assert(es[i] is Integer);
            }
        }
    }
}

/// What every successfully decoded term satisfies: it takes at least one
/// byte, stays inside the input, nests no more than one level below the
/// depth limit, and keeps its big-integer digits under the ceiling.
proof fn lemma_term_fits<F: Fn(&[u8]) -> Option<u64>>(
    parse: F,
    cfg: DecodeConfig,
    a: Seq<u8>,
    pos: int,
    depth: int,
)
    requires
        0 <= pos,
        0 <= depth,
        term_at(parse, cfg, a, pos, depth) is Ok,
    ensures
        term_at(parse, cfg, a, pos, depth) matches Ok((t, r)) && pos < r <= a.len() && nests_within(
            t,
            cfg.max_depth + 1 - depth,
        ) && bigs_within(t, cfg.big_digit_ceiling as int),
    decreases
            (if depth <= cfg.max_depth {
                cfg.max_depth + 1 - depth
            } else {
                0
            }),
            0nat,
            0nat,
{
    let tag = a[pos];
    let p = pos + 1;
    if tag == crate::decode::SMALL_TUPLE_EXT {
        lemma_terms_fits(parse, cfg, a, p + 1, depth, a[p] as nat);
    } else if tag == crate::decode::LARGE_TUPLE_EXT || tag == crate::decode::LIST_EXT {
        lemma_terms_fits(parse, cfg, a, p + 4, depth, crate::decode::be32_at(a, p) as nat);
    } else if tag == crate::decode::MAP_EXT {
        lemma_pairs_fits(parse, cfg, a, p + 4, depth, crate::decode::be32_at(a, p) as nat);
    } else {
        lemma_leaf_fits(parse, cfg, a, tag, pos);
        let t = term_at(parse, cfg, a, pos, depth)->Ok_0.0;
        lemma_nests_within_mono(t, 1, cfg.max_depth + 1 - depth);
    }
}

proof fn lemma_terms_fits<F: Fn(&[u8]) -> Option<u64>>(
    parse: F,
    cfg: DecodeConfig,
    a: Seq<u8>,
    pos: int,
    parent: int,
    n: nat,
)
    requires
        0 <= pos <= a.len(),
        0 <= parent,
        terms_at(parse, cfg, a, pos, parent, n) is Ok,
    ensures
        terms_at(parse, cfg, a, pos, parent, n) matches Ok((es, r)) && pos <= r <= a.len() && es.len()
            == n && forall|i: int|
            0 <= i < es.len() ==> nests_within(#[trigger] es[i], cfg.max_depth - parent) && bigs_within(
                es[i],
                cfg.big_digit_ceiling as int,
            ),
    decreases
            (if parent < cfg.max_depth {
                cfg.max_depth - parent
            } else {
                0
            }),
            1nat,
            n,
{
    if n > 0 {
        lemma_terms_fits(parse, cfg, a, pos, parent, (n - 1) as nat);
        let (init, q) = terms_at(parse, cfg, a, pos, parent, (n - 1) as nat)->Ok_0;
        lemma_term_fits(parse, cfg, a, q, parent + 1);
        let (t, r) = term_at(parse, cfg, a, q, parent + 1)->Ok_0;
        let es = init.push(t);
        assert(terms_at(parse, cfg, a, pos, parent, n) == Ok::<(Seq<TermModel>, int), DecodeFailure>((es, r)));
        assert forall|i: int| 0 <= i < es.len() implies nests_within(#[trigger] es[i], cfg.max_depth - parent)
            && bigs_within(es[i], cfg.big_digit_ceiling as int) by {
            if i < init.len() {
                assert(es[i] == init[i]);
            } else {
                assert(es[i] == t);
            }
        }
    } else {
        if n == 0 {
            assert(terms_at(parse, cfg, a, pos, parent, n)->Ok_0.0 =~= seq![]);
        }
    }
}

proof fn lemma_pairs_fits<F: Fn(&[u8]) -> Option<u64>>(
    parse: F,
    cfg: DecodeConfig,
    a: Seq<u8>,
    pos: int,
    parent: int,
    n: nat,
)
    requires
        0 <= pos <= a.len(),
        0 <= parent,
        pairs_at(parse, cfg, a, pos, parent, n) is Ok,
    ensures
        pairs_at(parse, cfg, a, pos, parent, n) matches Ok((ps, r)) && pos <= r <= a.len() && ps.len()
            == n && forall|i: int|
            0 <= i < ps.len() ==> nests_within(#[trigger] ps[i].0, cfg.max_depth - parent)
                && nests_within(ps[i].1, cfg.max_depth - parent) && bigs_within(
                ps[i].0,
                cfg.big_digit_ceiling as int,
            ) && bigs_within(ps[i].1, cfg.big_digit_ceiling as int),
    decreases
            (if parent < cfg.max_depth {
                cfg.max_depth - parent
            } else {
                0
            }),
            1nat,
            n,
{
    if n > 0 {
        lemma_pairs_fits(parse, cfg, a, pos, parent, (n - 1) as nat);
        let (init, q) = pairs_at(parse, cfg, a, pos, parent, (n - 1) as nat)->Ok_0;
        lemma_term_fits(parse, cfg, a, q, parent + 1);
        let (k, r1) = term_at(parse, cfg, a, q, parent + 1)->Ok_0;
        lemma_term_fits(parse, cfg, a, r1, parent + 1);
        let (v, r) = term_at(parse, cfg, a, r1, parent + 1)->Ok_0;
        let ps = init.push((k, v));
        assert(pairs_at(parse, cfg, a, pos, parent, n) == Ok::<(Seq<(TermModel, TermModel)>, int), DecodeFailure>((ps, r)));
        assert forall|i: int| 0 <= i < ps.len() implies nests_within(#[trigger] ps[i].0, cfg.max_depth - parent)
            && nests_within(ps[i].1, cfg.max_depth - parent) && bigs_within(
            ps[i].0,
            cfg.big_digit_ceiling as int,
        ) && bigs_within(ps[i].1, cfg.big_digit_ceiling as int) by {
            if i < init.len() {
                assert(ps[i] == init[i]);
            } else {
                assert(ps[i] == (k, v));
            }
        }
    } else {
        if n == 0 {
            assert(pairs_at(parse, cfg, a, pos, parent, n)->Ok_0.0 =~= seq![]);
        }
    }
}


proof fn lemma_term_agree<F: Fn(&[u8]) -> Option<u64>>(
    parse: F,
    cfg: DecodeConfig,
    a: Seq<u8>,
    b: Seq<u8>,
    pos: int,
    depth: int,
    q: int,
)
    requires
        0 <= pos,
        0 <= depth,
        term_at(parse, cfg, a, pos, depth) matches Ok((_, r)) && r <= q,
        agree_below(a, b, q),
    ensures
        term_at(parse, cfg, b, pos, depth) == term_at(parse, cfg, a, pos, depth),
    decreases
            (if depth <= cfg.max_depth {
                cfg.max_depth + 1 - depth
            } else {
                0
            }),
            0nat,
            0nat,
{
    lemma_term_fits(parse, cfg, a, pos, depth);
    let tag = a[pos];
    let p = pos + 1;
    assert(a[pos] == b[pos]);
    if tag == crate::decode::SMALL_TUPLE_EXT {
        lemma_terms_fits(parse, cfg, a, p + 1, depth, a[p] as nat);
        assert(a[p] == b[p]);
        lemma_terms_agree(parse, cfg, a, b, p + 1, depth, a[p] as nat, q);
    } else if tag == crate::decode::LARGE_TUPLE_EXT || tag == crate::decode::LIST_EXT || tag
        == crate::decode::MAP_EXT {
        if tag == crate::decode::MAP_EXT {
            lemma_pairs_fits(parse, cfg, a, p + 4, depth, crate::decode::be32_at(a, p) as nat);
        } else {
            lemma_terms_fits(parse, cfg, a, p + 4, depth, crate::decode::be32_at(a, p) as nat);
        }
        assert(a[p] == b[p] && a[p + 1] == b[p + 1] && a[p + 2] == b[p + 2] && a[p + 3] == b[p + 3]);
        let n = crate::decode::be32_at(a, p) as nat;
        assert(crate::decode::be32_at(b, p) == crate::decode::be32_at(a, p));
        if tag == crate::decode::MAP_EXT {
            lemma_pairs_agree(parse, cfg, a, b, p + 4, depth, n, q);
        } else {
            lemma_terms_agree(parse, cfg, a, b, p + 4, depth, n, q);
            if tag == crate::decode::LIST_EXT {
                let e = terms_at(parse, cfg, a, p + 4, depth, n)->Ok_0.1;
                assert(a[e] == b[e]);
            }
        }
    } else {
        lemma_leaf_agree(parse, cfg, a, b, tag, pos, q);
    }
}

proof fn lemma_terms_agree<F: Fn(&[u8]) -> Option<u64>>(
    parse: F,
    cfg: DecodeConfig,
    a: Seq<u8>,
    b: Seq<u8>,
    pos: int,
    parent: int,
    n: nat,
    q: int,
)
    requires
        0 <= pos <= a.len(),
        0 <= parent,
        terms_at(parse, cfg, a, pos, parent, n) matches Ok((_, r)) && r <= q,
        agree_below(a, b, q),
    ensures
        terms_at(parse, cfg, b, pos, parent, n) == terms_at(parse, cfg, a, pos, parent, n),
    decreases
            (if parent < cfg.max_depth {
                cfg.max_depth - parent
            } else {
                0
            }),
            1nat,
            n,
{
    if n > 0 {
        lemma_terms_fits(parse, cfg, a, pos, parent, (n - 1) as nat);
        let m = terms_at(parse, cfg, a, pos, parent, (n - 1) as nat)->Ok_0.1;
        lemma_term_fits(parse, cfg, a, m, parent + 1);
        lemma_terms_agree(parse, cfg, a, b, pos, parent, (n - 1) as nat, q);
        lemma_term_agree(parse, cfg, a, b, m, parent + 1, q);
    }
}

proof fn lemma_pairs_agree<F: Fn(&[u8]) -> Option<u64>>(
    parse: F,
    cfg: DecodeConfig,
    a: Seq<u8>,
    b: Seq<u8>,
    pos: int,
    parent: int,
    n: nat,
    q: int,
)
    requires
        0 <= pos <= a.len(),
        0 <= parent,
        pairs_at(parse, cfg, a, pos, parent, n) matches Ok((_, r)) && r <= q,
        agree_below(a, b, q),
    ensures
        pairs_at(parse, cfg, b, pos, parent, n) == pairs_at(parse, cfg, a, pos, parent, n),
    decreases
            (if parent < cfg.max_depth {
                cfg.max_depth - parent
            } else {
                0
            }),
            1nat,
            n,
{
    if n > 0 {
        lemma_pairs_fits(parse, cfg, a, pos, parent, (n - 1) as nat);
        let m = pairs_at(parse, cfg, a, pos, parent, (n - 1) as nat)->Ok_0.1;
        lemma_term_fits(parse, cfg, a, m, parent + 1);
        let k_end = term_at(parse, cfg, a, m, parent + 1)->Ok_0.1;
        lemma_term_fits(parse, cfg, a, k_end, parent + 1);
        lemma_pairs_agree(parse, cfg, a, b, pos, parent, (n - 1) as nat, q);
        lemma_term_agree(parse, cfg, a, b, m, parent + 1, q);
        lemma_term_agree(parse, cfg, a, b, k_end, parent + 1, q);
    }
}

/// Every successful decode stays inside the input and within the limits it
/// was given: it takes the version byte and at least one more, no more than
/// the input holds; its containers nest no deeper than `max_depth + 1`
/// levels (a `STRING_EXT` at the deepest allowed level reads as a list of
/// integers one level further down); and no big integer in it has more
/// digits than `big_digit_ceiling`.
pub proof fn law_decoded_within_limits<F: Fn(&[u8]) -> Option<u64>>(
    parse: F,
    cfg: DecodeConfig,
    data: Seq<u8>,
)
    requires
        decoding(parse, cfg, data) is Ok,
    ensures
        decoding(parse, cfg, data) matches Ok((t, n)) && 1 < n <= data.len() && nests_within(
            t,
            cfg.max_depth + 1,
        ) && bigs_within(t, cfg.big_digit_ceiling as int),
{
    lemma_term_fits(parse, cfg, data, 1, 0);
}

/// Decoding reads nothing past the end of the term: with the bytes that a
/// successful decode took kept, and anything at all put after them, the
/// decode answers the same term and the same length.
pub proof fn law_trailing_bytes_ignored<F: Fn(&[u8]) -> Option<u64>>(
    parse: F,
    cfg: DecodeConfig,
    data: Seq<u8>,
    rest: Seq<u8>,
)
    requires
        decoding(parse, cfg, data) is Ok,
    ensures
        decoding(parse, cfg, data) matches Ok((_, n)) && decoding(parse, cfg, data.take(n) + rest)
            == decoding(parse, cfg, data),
{
    lemma_term_fits(parse, cfg, data, 1, 0);
    let n = decoding(parse, cfg, data)->Ok_0.1;
    let b = data.take(n) + rest;
    assert(agree_below(data, b, n));
    assert(b[0] == data[0]);
    lemma_term_agree(parse, cfg, data, b, 1, 0, n);
}

// ---------------------------------------------------------------------------
// Looser limits keep every success.
// ---------------------------------------------------------------------------

/// `c2` allows at least what `c1` allows.
pub open spec fn limits_within(c1: DecodeConfig, c2: DecodeConfig) -> bool {
    c1.max_depth <= c2.max_depth && c1.big_digit_ceiling <= c2.big_digit_ceiling
}

proof fn lemma_term_raise<F: Fn(&[u8]) -> Option<u64>>(
    parse: F,
    c1: DecodeConfig,
    c2: DecodeConfig,
    a: Seq<u8>,
    pos: int,
    depth: int,
)
    requires
        limits_within(c1, c2),
        0 <= pos,
        0 <= depth,
        term_at(parse, c1, a, pos, depth) is Ok,
    ensures
        term_at(parse, c2, a, pos, depth) == term_at(parse, c1, a, pos, depth),
    decreases
            (if depth <= c1.max_depth {
                c1.max_depth + 1 - depth
            } else {
                0
            }),
            0nat,
            0nat,
{
    let tag = a[pos];
    let p = pos + 1;
    if tag == crate::decode::SMALL_TUPLE_EXT {
        lemma_terms_raise(parse, c1, c2, a, p + 1, depth, a[p] as nat);
    } else if tag == crate::decode::LARGE_TUPLE_EXT || tag == crate::decode::LIST_EXT {
        lemma_terms_raise(parse, c1, c2, a, p + 4, depth, crate::decode::be32_at(a, p) as nat);
    } else if tag == crate::decode::MAP_EXT {
        lemma_pairs_raise(parse, c1, c2, a, p + 4, depth, crate::decode::be32_at(a, p) as nat);
    }
}

proof fn lemma_terms_raise<F: Fn(&[u8]) -> Option<u64>>(
    parse: F,
    c1: DecodeConfig,
    c2: DecodeConfig,
    a: Seq<u8>,
    pos: int,
    parent: int,
    n: nat,
)
    requires
        limits_within(c1, c2),
        0 <= pos <= a.len(),
        0 <= parent,
        terms_at(parse, c1, a, pos, parent, n) is Ok,
    ensures
        terms_at(parse, c2, a, pos, parent, n) == terms_at(parse, c1, a, pos, parent, n),
    decreases
            (if parent < c1.max_depth {
                c1.max_depth - parent
            } else {
                0
            }),
            1nat,
            n,
{
    if n > 0 {
        lemma_terms_raise(parse, c1, c2, a, pos, parent, (n - 1) as nat);
        lemma_terms_fits(parse, c1, a, pos, parent, (n - 1) as nat);
        let q = terms_at(parse, c1, a, pos, parent, (n - 1) as nat)->Ok_0.1;
        lemma_term_raise(parse, c1, c2, a, q, parent + 1);
    }
}

proof fn lemma_pairs_raise<F: Fn(&[u8]) -> Option<u64>>(
    parse: F,
    c1: DecodeConfig,
    c2: DecodeConfig,
    a: Seq<u8>,
    pos: int,
    parent: int,
    n: nat,
)
    requires
        limits_within(c1, c2),
        0 <= pos <= a.len(),
        0 <= parent,
        pairs_at(parse, c1, a, pos, parent, n) is Ok,
    ensures
        pairs_at(parse, c2, a, pos, parent, n) == pairs_at(parse, c1, a, pos, parent, n),
    decreases
            (if parent < c1.max_depth {
                c1.max_depth - parent
            } else {
                0
            }),
            1nat,
            n,
{
    if n > 0 {
        lemma_pairs_raise(parse, c1, c2, a, pos, parent, (n - 1) as nat);
        let q = pairs_at(parse, c1, a, pos, parent, (n - 1) as nat)->Ok_0.1;
        lemma_pairs_fits(parse, c1, a, pos, parent, (n - 1) as nat);
        lemma_term_raise(parse, c1, c2, a, q, parent + 1);
        let r = term_at(parse, c1, a, q, parent + 1)->Ok_0.1;
        lemma_term_fits(parse, c1, a, q, parent + 1);
        lemma_term_raise(parse, c1, c2, a, r, parent + 1);
    }
}

/// Raising either decode limit never changes a successful decode: with a
/// depth limit and a digit ceiling at least those of `c1`, `c2` decodes
/// every input that `c1` decodes to the same term and the same length.
pub proof fn law_looser_limits_keep_success<F: Fn(&[u8]) -> Option<u64>>(
    parse: F,
    c1: DecodeConfig,
    c2: DecodeConfig,
    data: Seq<u8>,
)
    requires
        limits_within(c1, c2),
        decoding(parse, c1, data) is Ok,
    ensures
        decoding(parse, c2, data) == decoding(parse, c1, data),
{
    lemma_term_raise(parse, c1, c2, data, 1, 0);
}

// ---------------------------------------------------------------------------
// STRING_EXT payloads read as unsigned bytes.
// ---------------------------------------------------------------------------

/// A `STRING_EXT` message (version byte, tag, 16-bit length `n`, then `n`
/// payload bytes) decodes, under any limits, to a list of `n` integers, the
/// `i`-th of which is payload byte `i` read as an unsigned number, so in
/// `0..=255`; the decode takes exactly the `4 + n` bytes of the message.
pub proof fn law_string_ext_reads_unsigned_bytes<F: Fn(&[u8]) -> Option<u64>>(
    parse: F,
    cfg: DecodeConfig,
    data: Seq<u8>,
)
    requires
        data.len() >= 4,
        data[0] == 131,
        data[1] == 107,
        data.len() >= 4 + data[2] as int * 256 + data[3] as int,
    ensures
        ({
            let n = data[2] as int * 256 + data[3] as int;
            decoding(parse, cfg, data) matches Ok((TermModel::List(es), used)) && used == 4 + n
                && es.len() == n && forall|i: int|
                0 <= i < n ==> (#[trigger] es[i] matches TermModel::Integer(v) && v as int
                    == data[4 + i] as int && 0 <= v <= 255)
        }),
{
    let n = data[2] as int * 256 + data[3] as int;
    assert(crate::decode::be16_at(data, 2) as int == n);
    let b = data.subrange(4, 4 + n);
    let es = crate::decode::byte_integers(b);
    assert forall|i: int| 0 <= i < n implies (#[trigger] es[i] matches TermModel::Integer(v) && v as int
        == data[4 + i] as int && 0 <= v <= 255) by {
        assert(b[i] == data[4 + i]);
    }
}

/// A `SMALL_ATOM_EXT` or `ATOM_EXT` message (Latin-1 text, with an 8-bit
/// or a 16-bit length `n`) decodes to the atom of `n` characters, the
/// `i`-th of which is the code point of text byte `i`, whatever the byte;
/// the decode takes exactly the bytes of the message.
pub proof fn law_latin1_atom_reads_code_points<F: Fn(&[u8]) -> Option<u64>>(
    parse: F,
    cfg: DecodeConfig,
    data: Seq<u8>,
)
    requires
        data.len() >= 4,
        data[0] == 131,
        data[1] == 115 || data[1] == 100,
    ensures
        ({
            let head: int = if data[1] == 115 { 3 } else { 4 };
            let n: int = if data[1] == 115 { data[2] as int } else { data[2] as int * 256 + data[3] as int };
            data.len() >= head + n ==> (decoding(parse, cfg, data) matches Ok((TermModel::Atom(cs), used))
                && used == head + n && cs.len() == n && forall|i: int|
                0 <= i < n ==> #[trigger] cs[i] as int == data[head + i] as int)
        }),
{
    let head: int = if data[1] == 115 { 3 } else { 4 };
    let n: int = if data[1] == 115 { data[2] as int } else { data[2] as int * 256 + data[3] as int };
    if data.len() >= head + n {
        if data[1] == 100 {
            assert(crate::decode::be16_at(data, 2) as int == n);
        }
        let b = data.subrange(head, head + n);
        let cs = crate::decode::latin1_chars(b);
        assert forall|i: int| 0 <= i < n implies #[trigger] cs[i] as int == data[head + i] as int by {
            assert(b[i] == data[head + i]);
        }
    }
}

/// A `SMALL_BIG_EXT` message (digit count `n`, sign byte, then `n` digits)
/// decodes, when `n` is within the digit ceiling, to the big integer whose
/// sign is negative exactly when the sign byte is not zero and whose digits
/// are the `n` bytes that follow, in order; past the ceiling it is refused
/// with the declared count, whatever follows.
pub proof fn law_small_big_reads_digits<F: Fn(&[u8]) -> Option<u64>>(
    parse: F,
    cfg: DecodeConfig,
    data: Seq<u8>,
)
    requires
        data.len() >= 3,
        data[0] == 131,
        data[1] == 110,
    ensures
        ({
            let n = data[2] as int;
            &&& n <= cfg.big_digit_ceiling && data.len() >= 4 + n ==> decoding(parse, cfg, data)
                == Ok::<(TermModel, int), DecodeFailure>(
                (TermModel::Big { sign: data[3] != 0, digits: data.subrange(4, 4 + n) }, 4 + n),
            )
            &&& n > cfg.big_digit_ceiling ==> (decoding(parse, cfg, data) matches Err(
                DecodeFailure::BigDigitCeilingExceeded { declared, ceiling, offset },
            ) && declared == n && ceiling == cfg.big_digit_ceiling && offset == 1)
        }),
{
}

} // verus!
