//! ETF decoder.
use vstd::prelude::*;
use vstd::slice::{slice_subrange, slice_to_vec};
use vstd::string::*;
use vstd::utf8::*;

use crate::term::{view_pairs, view_terms, Term, TermModel};
use crate::text::{push_char, str_from_utf8};

verus! {

pub const NEW_FLOAT_EXT: u8 = 70;
pub const BIT_BINARY_EXT: u8 = 77;
pub const COMPRESSED: u8 = 80;
pub const SMALL_INTEGER_EXT: u8 = 97;
pub const INTEGER_EXT: u8 = 98;
pub const FLOAT_EXT: u8 = 99;
pub const ATOM_EXT: u8 = 100;
pub const REFERENCE_EXT: u8 = 101;
pub const PORT_EXT: u8 = 102;
pub const PID_EXT: u8 = 103;
pub const SMALL_TUPLE_EXT: u8 = 104;
pub const LARGE_TUPLE_EXT: u8 = 105;
pub const NIL_EXT: u8 = 106;
pub const STRING_EXT: u8 = 107;
pub const LIST_EXT: u8 = 108;
pub const BINARY_EXT: u8 = 109;
pub const SMALL_BIG_EXT: u8 = 110;
pub const LARGE_BIG_EXT: u8 = 111;
pub const NEW_FUN_EXT: u8 = 112;
pub const EXPORT_EXT: u8 = 113;
pub const NEW_REFERENCE_EXT: u8 = 114;
pub const SMALL_ATOM_EXT: u8 = 115;
pub const MAP_EXT: u8 = 116;
pub const FUN_EXT: u8 = 117;
pub const ATOM_UTF8_EXT: u8 = 118;
pub const SMALL_ATOM_UTF8_EXT: u8 = 119;
pub const VERSION_BYTE: u8 = 131;

/// Width in bytes of the ASCII text field of a legacy `FLOAT_EXT` term.
pub const LEGACY_FLOAT_WIDTH: usize = 31;

pub const DEFAULT_BIG_DIGIT_CEILING: u32 = 64;
pub const DEFAULT_MAX_DEPTH: u32 = 32;

/// Limits that the decoder enforces on untrusted input.
#[derive(Clone, Copy, Debug)]
pub struct DecodeConfig {
    /// Largest digit count accepted in a `SMALL_BIG_EXT` / `LARGE_BIG_EXT` term.
    pub big_digit_ceiling: u32,
    /// Deepest nesting level at which a term may still start (the top level is 0).
    pub max_depth: u32,
}

impl Default for DecodeConfig {
    fn default() -> (c: Self)
        ensures
            c.big_digit_ceiling == DEFAULT_BIG_DIGIT_CEILING,
            c.max_depth == DEFAULT_MAX_DEPTH,
    {
        DecodeConfig { big_digit_ceiling: DEFAULT_BIG_DIGIT_CEILING, max_depth: DEFAULT_MAX_DEPTH }
    }
}

impl DecodeConfig {
    pub fn new() -> (c: Self)
        ensures
            c.big_digit_ceiling == DEFAULT_BIG_DIGIT_CEILING,
            c.max_depth == DEFAULT_MAX_DEPTH,
    {
        Self::default()
    }

    #[must_use]
    pub fn with_big_digit_ceiling(self, max_bytes: u32) -> (c: Self)
        ensures
            c.big_digit_ceiling == max_bytes,
            c.max_depth == self.max_depth,
    {
        let mut c = self;
        c.big_digit_ceiling = max_bytes;
        c
    }

    #[must_use]
    pub fn with_max_depth(self, max_depth: u32) -> (c: Self)
        ensures
            c.big_digit_ceiling == self.big_digit_ceiling,
            c.max_depth == max_depth,
    {
        let mut c = self;
        c.max_depth = max_depth;
        c
    }
}

/// Why a byte string was refused.
#[derive(Debug)]
pub enum DecodeError {
    BadVersion { found: u8 },
    UnknownTag { tag: u8, offset: usize },
    CompressedNotSupported { offset: usize },
    BitBinaryNotSupported { offset: usize },
    ErlangRuntimeTermNotSupported { tag: u8, offset: usize },
    UnexpectedEof { needed: usize, available: usize, offset: usize },
    BigDigitCeilingExceeded { declared: u32, ceiling: u32, offset: usize },
    ImproperList { tail_tag: u8, offset: usize },
    MaxDepthExceeded { depth: u32, ceiling: u32, offset: usize },
    AtomInvalidUtf8 { offset: usize, source: core::str::Utf8Error },
    LegacyFloatParseFailed { offset: usize },
}

/// A decode error with everything but the UTF-8 error detail.
pub enum DecodeFailure {
    BadVersion { found: u8 },
    UnknownTag { tag: u8, offset: usize },
    CompressedNotSupported { offset: usize },
    BitBinaryNotSupported { offset: usize },
    ErlangRuntimeTermNotSupported { tag: u8, offset: usize },
    UnexpectedEof { needed: usize, available: usize, offset: usize },
    BigDigitCeilingExceeded { declared: u32, ceiling: u32, offset: usize },
    ImproperList { tail_tag: u8, offset: usize },
    MaxDepthExceeded { depth: u32, ceiling: u32, offset: usize },
    AtomInvalidUtf8 { offset: usize },
    LegacyFloatParseFailed { offset: usize },
}

impl View for DecodeError {
    type V = DecodeFailure;

    open spec fn view(&self) -> DecodeFailure {
        match self {
            DecodeError::BadVersion { found } => DecodeFailure::BadVersion { found: *found },
            DecodeError::UnknownTag { tag, offset } => DecodeFailure::UnknownTag {
                tag: *tag,
                offset: *offset,
            },
            DecodeError::CompressedNotSupported { offset } => DecodeFailure::CompressedNotSupported {
                offset: *offset,
            },
            DecodeError::BitBinaryNotSupported { offset } => DecodeFailure::BitBinaryNotSupported {
                offset: *offset,
            },
            DecodeError::ErlangRuntimeTermNotSupported {
                tag,
                offset,
            } => DecodeFailure::ErlangRuntimeTermNotSupported { tag: *tag, offset: *offset },
            DecodeError::UnexpectedEof { needed, available, offset } => DecodeFailure::UnexpectedEof {
                needed: *needed,
                available: *available,
                offset: *offset,
            },
            DecodeError::BigDigitCeilingExceeded {
                declared,
                ceiling,
                offset,
            } => DecodeFailure::BigDigitCeilingExceeded {
                declared: *declared,
                ceiling: *ceiling,
                offset: *offset,
            },
            DecodeError::ImproperList { tail_tag, offset } => DecodeFailure::ImproperList {
                tail_tag: *tail_tag,
                offset: *offset,
            },
            DecodeError::MaxDepthExceeded { depth, ceiling, offset } => DecodeFailure::MaxDepthExceeded {
                depth: *depth,
                ceiling: *ceiling,
                offset: *offset,
            },
            DecodeError::AtomInvalidUtf8 { offset, .. } => DecodeFailure::AtomInvalidUtf8 {
                offset: *offset,
            },
            DecodeError::LegacyFloatParseFailed { offset } => DecodeFailure::LegacyFloatParseFailed {
                offset: *offset,
            },
        }
    }
}

/// The stable machine-readable name of each kind of decode failure.
pub open spec fn decode_failure_name(e: DecodeFailure) -> Seq<char> {
    match e {
        DecodeFailure::BadVersion { .. } => "bad_version"@,
        DecodeFailure::UnknownTag { .. } => "unknown_tag"@,
        DecodeFailure::CompressedNotSupported { .. } => "compressed_not_supported"@,
        DecodeFailure::BitBinaryNotSupported { .. } => "bit_binary_not_supported"@,
        DecodeFailure::ErlangRuntimeTermNotSupported { .. } => "erlang_runtime_term_not_supported"@,
        DecodeFailure::UnexpectedEof { .. } => "unexpected_eof"@,
        DecodeFailure::BigDigitCeilingExceeded { .. } => "big_digit_ceiling_exceeded"@,
        DecodeFailure::ImproperList { .. } => "improper_list"@,
        DecodeFailure::MaxDepthExceeded { .. } => "max_depth_exceeded"@,
        DecodeFailure::AtomInvalidUtf8 { .. } => "atom_invalid_utf8"@,
        DecodeFailure::LegacyFloatParseFailed { .. } => "legacy_float_parse_failed"@,
    }
}

impl DecodeError {
    pub fn kind_str(&self) -> (r: &'static str)
        ensures
            r@ == decode_failure_name(self@),
    {
        match self {
            Self::BadVersion { .. } => "bad_version",
            Self::UnknownTag { .. } => "unknown_tag",
            Self::CompressedNotSupported { .. } => "compressed_not_supported",
            Self::BitBinaryNotSupported { .. } => "bit_binary_not_supported",
            Self::ErlangRuntimeTermNotSupported { .. } => "erlang_runtime_term_not_supported",
            Self::UnexpectedEof { .. } => "unexpected_eof",
            Self::BigDigitCeilingExceeded { .. } => "big_digit_ceiling_exceeded",
            Self::ImproperList { .. } => "improper_list",
            Self::MaxDepthExceeded { .. } => "max_depth_exceeded",
            Self::AtomInvalidUtf8 { .. } => "atom_invalid_utf8",
            Self::LegacyFloatParseFailed { .. } => "legacy_float_parse_failed",
        }
    }
}

// ---------------------------------------------------------------------------
// The format, read as a function from bytes to terms.
// ---------------------------------------------------------------------------

/// The outcome of reading one item at some position: the item and the
/// position just after it, or the failure.
pub type Step<T> = Result<(T, int), DecodeFailure>;

/// A reader for the text of legacy `FLOAT_EXT` terms: called on the text
/// (the field up to its first NUL byte), it answers the IEEE-754 bits of the
/// number written there, or `None` when the text is no number. It must
/// accept every text and answer the same for equal texts.
pub open spec fn reads_floats<F: Fn(&[u8]) -> Option<u64>>(parse: F) -> bool {
    &&& forall|s: &[u8]| #[trigger] call_requires(parse, (s,))
    &&& forall|s1: &[u8], s2: &[u8], r1: Option<u64>, r2: Option<u64>|
        s1@ == s2@ && #[trigger] call_ensures(parse, (s1,), r1) && #[trigger] call_ensures(
            parse,
            (s2,),
            r2,
        ) ==> r1 == r2
}

/// What `parse` answers on the text `text`.
pub open spec fn float_reading<F: Fn(&[u8]) -> Option<u64>>(parse: F, text: Seq<u8>) -> Option<u64> {
    (choose|r: Option<u64>, s: &[u8]| #[trigger] call_ensures(parse, (s,), r) && s@ == text).0
}

pub open spec fn eof_at(data: Seq<u8>, pos: int, needed: int) -> DecodeFailure {
    DecodeFailure::UnexpectedEof {
        needed: needed as usize,
        available: (data.len() - pos) as usize,
        offset: pos as usize,
    }
}

pub open spec fn be16_at(data: Seq<u8>, p: int) -> u16 {
    (data[p] as int * 0x100 + data[p + 1] as int) as u16
}

pub open spec fn be32_at(data: Seq<u8>, p: int) -> u32 {
    (data[p] as int * 0x1000000 + data[p + 1] as int * 0x10000 + data[p + 2] as int * 0x100
        + data[p + 3] as int) as u32
}

pub open spec fn be64_at(data: Seq<u8>, p: int) -> u64 {
    (be32_at(data, p) as int * 0x1_0000_0000 + be32_at(data, p + 4) as int) as u64
}

/// The characters that Latin-1 text denotes: one per byte, of that code point.
pub open spec fn latin1_chars(b: Seq<u8>) -> Seq<char> {
    b.map_values(|x: u8| x as char)
}

/// Where the text of a legacy float field ends: at its first NUL byte, or at
/// the end of the field.
pub open spec fn text_end(b: Seq<u8>) -> int {
    if exists|i: int| 0 <= i < b.len() && b[i] == 0 {
        choose|i: int| 0 <= i < b.len() && b[i] == 0 && forall|j: int| 0 <= j < i ==> b[j] != 0
    } else {
        b.len() as int
    }
}

/// `1 + n`, saturated at `usize::MAX`.
pub open spec fn big_needed(n: int) -> int {
    if 1 + n > usize::MAX {
        usize::MAX as int
    } else {
        1 + n
    }
}

/// The depth reported when the nesting limit is passed.
pub open spec fn depth_field(d: int) -> u32 {
    if d <= u32::MAX {
        d as u32
    } else {
        u32::MAX
    }
}

/// A byte run of `len` bytes at `p`, if there is one.
pub open spec fn bytes_at(data: Seq<u8>, p: int, len: int) -> Step<Seq<u8>> {
    if data.len() - p < len {
        Err(eof_at(data, p, len))
    } else {
        Ok((data.subrange(p, p + len), p + len))
    }
}

/// Latin-1 atom text of `len` bytes at `p`.
pub open spec fn latin1_atom_at(data: Seq<u8>, p: int, len: int) -> Step<TermModel> {
    match bytes_at(data, p, len) {
        Err(e) => Err(e),
        Ok((b, q)) => Ok((TermModel::Atom(latin1_chars(b)), q)),
    }
}

/// UTF-8 atom text of `len` bytes at `p`.
pub open spec fn utf8_atom_at(data: Seq<u8>, p: int, len: int) -> Step<TermModel> {
    match bytes_at(data, p, len) {
        Err(e) => Err(e),
        Ok((b, q)) => if valid_utf8(b) {
            Ok((TermModel::Atom(decode_utf8(b)), q))
        } else {
            Err(DecodeFailure::AtomInvalidUtf8 { offset: p as usize })
        },
    }
}

/// The body of a big integer with `n` digits, starting at `p` (after the
/// digit count), for the tag at `tag_pos`.
pub open spec fn big_body_at(cfg: DecodeConfig, data: Seq<u8>, tag_pos: int, p: int, n: int) -> Step<
    TermModel,
> {
    if n > cfg.big_digit_ceiling {
        Err(
            DecodeFailure::BigDigitCeilingExceeded {
                declared: n as u32,
                ceiling: cfg.big_digit_ceiling,
                offset: tag_pos as usize,
            },
        )
    } else if data.len() - p < big_needed(n) {
        Err(eof_at(data, p, big_needed(n)))
    } else if data.len() - (p + 1) < n {
        Err(eof_at(data, p + 1, n))
    } else {
        Ok(
            (
                TermModel::Big { sign: data[p] != 0, digits: data.subrange(p + 1, p + 1 + n) },
                p + 1 + n,
            ),
        )
    }
}

pub open spec fn new_float_at(data: Seq<u8>, p: int) -> Step<TermModel> {
    if data.len() - p < 8 {
        Err(eof_at(data, p, 8))
    } else {
        Ok((TermModel::Float(be64_at(data, p)), p + 8))
    }
}

pub open spec fn small_integer_at(data: Seq<u8>, p: int) -> Step<TermModel> {
    if data.len() - p < 1 {
        Err(eof_at(data, p, 1))
    } else {
        Ok((TermModel::Integer(data[p] as i32), p + 1))
    }
}

pub open spec fn integer_at(data: Seq<u8>, p: int) -> Step<TermModel> {
    if data.len() - p < 4 {
        Err(eof_at(data, p, 4))
    } else {
        Ok((TermModel::Integer(be32_at(data, p) as i32), p + 4))
    }
}

pub open spec fn legacy_float_at<F: Fn(&[u8]) -> Option<u64>>(
    parse: F,
    data: Seq<u8>,
    p: int,
    tag_pos: int,
) -> Step<TermModel> {
    match bytes_at(data, p, LEGACY_FLOAT_WIDTH as int) {
        Err(e) => Err(e),
        Ok((field, q)) => match float_reading(parse, field.take(text_end(field))) {
            Some(bits) => Ok((TermModel::Float(bits), q)),
            None => Err(DecodeFailure::LegacyFloatParseFailed { offset: tag_pos as usize }),
        },
    }
}

/// An atom with a 16-bit length (`ATOM_EXT` when `utf8` is false,
/// `ATOM_UTF8_EXT` when it is true).
pub open spec fn long_atom_at(data: Seq<u8>, p: int, utf8: bool) -> Step<TermModel> {
    if data.len() - p < 2 {
        Err(eof_at(data, p, 2))
    } else if utf8 {
        utf8_atom_at(data, p + 2, be16_at(data, p) as int)
    } else {
        latin1_atom_at(data, p + 2, be16_at(data, p) as int)
    }
}

/// An atom with an 8-bit length (`SMALL_ATOM_EXT` / `SMALL_ATOM_UTF8_EXT`).
pub open spec fn short_atom_at(data: Seq<u8>, p: int, utf8: bool) -> Step<TermModel> {
    if data.len() - p < 1 {
        Err(eof_at(data, p, 1))
    } else if utf8 {
        utf8_atom_at(data, p + 1, data[p] as int)
    } else {
        latin1_atom_at(data, p + 1, data[p] as int)
    }
}

/// The integers a `STRING_EXT` payload stands for.
pub open spec fn byte_integers(b: Seq<u8>) -> Seq<TermModel> {
    b.map_values(|x: u8| TermModel::Integer(x as i32))
}

pub open spec fn string_ext_at(data: Seq<u8>, p: int) -> Step<TermModel> {
    if data.len() - p < 2 {
        Err(eof_at(data, p, 2))
    } else {
        match bytes_at(data, p + 2, be16_at(data, p) as int) {
            Err(e) => Err(e),
            Ok((b, q)) => Ok((TermModel::List(byte_integers(b)), q)),
        }
    }
}

pub open spec fn binary_at(data: Seq<u8>, p: int) -> Step<TermModel> {
    if data.len() - p < 4 {
        Err(eof_at(data, p, 4))
    } else {
        match bytes_at(data, p + 4, be32_at(data, p) as int) {
            Err(e) => Err(e),
            Ok((b, q)) => Ok((TermModel::Binary(b), q)),
        }
    }
}

pub open spec fn small_big_at(cfg: DecodeConfig, data: Seq<u8>, p: int, tag_pos: int) -> Step<
    TermModel,
> {
    if data.len() - p < 1 {
        Err(eof_at(data, p, 1))
    } else {
        big_body_at(cfg, data, tag_pos, p + 1, data[p] as int)
    }
}

pub open spec fn large_big_at(cfg: DecodeConfig, data: Seq<u8>, p: int, tag_pos: int) -> Step<
    TermModel,
> {
    if data.len() - p < 4 {
        Err(eof_at(data, p, 4))
    } else {
        big_body_at(cfg, data, tag_pos, p + 4, be32_at(data, p) as int)
    }
}

/// How a term without sub-terms decodes, for the tag `tag` read at `tag_pos`.
pub open spec fn leaf_at<F: Fn(&[u8]) -> Option<u64>>(
    parse: F,
    cfg: DecodeConfig,
    data: Seq<u8>,
    tag: u8,
    tag_pos: int,
) -> Step<TermModel> {
    let p = tag_pos + 1;
    if tag == NEW_FLOAT_EXT {
        new_float_at(data, p)
    } else if tag == SMALL_INTEGER_EXT {
        small_integer_at(data, p)
    } else if tag == INTEGER_EXT {
        integer_at(data, p)
    } else if tag == FLOAT_EXT {
        legacy_float_at(parse, data, p, tag_pos)
    } else if tag == ATOM_EXT {
        long_atom_at(data, p, false)
    } else if tag == ATOM_UTF8_EXT {
        long_atom_at(data, p, true)
    } else if tag == SMALL_ATOM_EXT {
        short_atom_at(data, p, false)
    } else if tag == SMALL_ATOM_UTF8_EXT {
        short_atom_at(data, p, true)
    } else if tag == NIL_EXT {
        Ok((TermModel::List(seq![]), p))
    } else if tag == STRING_EXT {
        string_ext_at(data, p)
    } else if tag == BINARY_EXT {
        binary_at(data, p)
    } else if tag == SMALL_BIG_EXT {
        small_big_at(cfg, data, p, tag_pos)
    } else if tag == LARGE_BIG_EXT {
        large_big_at(cfg, data, p, tag_pos)
    } else if tag == COMPRESSED {
        Err(DecodeFailure::CompressedNotSupported { offset: tag_pos as usize })
    } else if tag == BIT_BINARY_EXT {
        Err(DecodeFailure::BitBinaryNotSupported { offset: tag_pos as usize })
    } else if is_runtime_tag(tag) {
        Err(DecodeFailure::ErlangRuntimeTermNotSupported { tag, offset: tag_pos as usize })
    } else {
        Err(DecodeFailure::UnknownTag { tag, offset: tag_pos as usize })
    }
}

/// Tags of the terms that the decoder reads.
pub open spec fn is_read_tag(tag: u8) -> bool {
    tag == NEW_FLOAT_EXT || tag == SMALL_INTEGER_EXT || tag == INTEGER_EXT || tag == FLOAT_EXT
        || tag == ATOM_EXT || tag == SMALL_TUPLE_EXT || tag == LARGE_TUPLE_EXT || tag == NIL_EXT
        || tag == STRING_EXT || tag == LIST_EXT || tag == BINARY_EXT || tag == SMALL_BIG_EXT
        || tag == LARGE_BIG_EXT || tag == SMALL_ATOM_EXT || tag == MAP_EXT || tag == ATOM_UTF8_EXT
        || tag == SMALL_ATOM_UTF8_EXT
}

/// Tags of terms that only make sense inside a running Erlang node.
pub open spec fn is_runtime_tag(tag: u8) -> bool {
    tag == REFERENCE_EXT || tag == PORT_EXT || tag == PID_EXT || tag == NEW_FUN_EXT || tag
        == EXPORT_EXT || tag == NEW_REFERENCE_EXT || tag == FUN_EXT
}


/// How the term at `pos`, nested `depth` levels deep, decodes.
pub open spec fn term_at<F: Fn(&[u8]) -> Option<u64>>(
    parse: F,
    cfg: DecodeConfig,
    data: Seq<u8>,
    pos: int,
    depth: int,
) -> Step<TermModel>
    decreases
            (if depth <= cfg.max_depth {
                cfg.max_depth + 1 - depth
            } else {
                0
            }),
            0nat,
            0nat,
{
    if depth > cfg.max_depth {
        Err(
            DecodeFailure::MaxDepthExceeded {
                depth: depth_field(depth),
                ceiling: cfg.max_depth,
                offset: pos as usize,
            },
        )
    } else if data.len() - pos < 1 {
        Err(eof_at(data, pos, 1))
    } else {
        let tag = data[pos];
        let p = pos + 1;
        if tag == SMALL_TUPLE_EXT {
            if data.len() - p < 1 {
                Err(eof_at(data, p, 1))
            } else {
                match terms_at(parse, cfg, data, p + 1, depth, data[p] as nat) {
                    Err(e) => Err(e),
                    Ok((elems, q)) => Ok((TermModel::Tuple(elems), q)),
                }
            }
        } else if tag == LARGE_TUPLE_EXT || tag == LIST_EXT || tag == MAP_EXT {
            if data.len() - p < 4 {
                Err(eof_at(data, p, 4))
            } else if tag == LARGE_TUPLE_EXT {
                match terms_at(parse, cfg, data, p + 4, depth, be32_at(data, p) as nat) {
                    Err(e) => Err(e),
                    Ok((elems, q)) => Ok((TermModel::Tuple(elems), q)),
                }
            } else if tag == LIST_EXT {
                match terms_at(parse, cfg, data, p + 4, depth, be32_at(data, p) as nat) {
                    Err(e) => Err(e),
                    Ok((elems, q)) => if data.len() - q < 1 {
                        Err(eof_at(data, q, 1))
                    } else if data[q] != NIL_EXT {
                        Err(DecodeFailure::ImproperList { tail_tag: data[q], offset: q as usize })
                    } else {
                        Ok((TermModel::List(elems), q + 1))
                    },
                }
            } else {
                match pairs_at(parse, cfg, data, p + 4, depth, be32_at(data, p) as nat) {
                    Err(e) => Err(e),
                    Ok((entries, q)) => Ok((TermModel::Dict(entries), q)),
                }
            }
        } else {
            leaf_at(parse, cfg, data, tag, pos)
        }
    }
}

/// How `n` consecutive terms at `pos`, children of a container nested
/// `parent` levels deep, decode.
pub open spec fn terms_at<F: Fn(&[u8]) -> Option<u64>>(
    parse: F,
    cfg: DecodeConfig,
    data: Seq<u8>,
    pos: int,
    parent: int,
    n: nat,
) -> Step<Seq<TermModel>>
    decreases
            (if parent < cfg.max_depth {
                cfg.max_depth - parent
            } else {
                0
            }),
            1nat,
            n,
{
    if n == 0 {
        Ok((seq![], pos))
    } else if parent >= cfg.max_depth {
        Err(
            DecodeFailure::MaxDepthExceeded {
                depth: depth_field(parent + 1),
                ceiling: cfg.max_depth,
                offset: pos as usize,
            },
        )
    } else {
        match terms_at(parse, cfg, data, pos, parent, (n - 1) as nat) {
            Err(e) => Err(e),
            Ok((elems, q)) => match term_at(parse, cfg, data, q, parent + 1) {
                Err(e) => Err(e),
                Ok((t, r)) => Ok((elems.push(t), r)),
            },
        }
    }
}

/// How `n` consecutive key/value pairs at `pos`, entries of a map nested
/// `parent` levels deep, decode.
pub open spec fn pairs_at<F: Fn(&[u8]) -> Option<u64>>(
    parse: F,
    cfg: DecodeConfig,
    data: Seq<u8>,
    pos: int,
    parent: int,
    n: nat,
) -> Step<Seq<(TermModel, TermModel)>>
    decreases
            (if parent < cfg.max_depth {
                cfg.max_depth - parent
            } else {
                0
            }),
            1nat,
            n,
{
    if n == 0 {
        Ok((seq![], pos))
    } else if parent >= cfg.max_depth {
        Err(
            DecodeFailure::MaxDepthExceeded {
                depth: depth_field(parent + 1),
                ceiling: cfg.max_depth,
                offset: pos as usize,
            },
        )
    } else {
        match pairs_at(parse, cfg, data, pos, parent, (n - 1) as nat) {
            Err(e) => Err(e),
            Ok((entries, q)) => match term_at(parse, cfg, data, q, parent + 1) {
                Err(e) => Err(e),
                Ok((k, r)) => match term_at(parse, cfg, data, r, parent + 1) {
                    Err(e) => Err(e),
                    Ok((v, s)) => Ok((entries.push((k, v)), s)),
                },
            },
        }
    }
}

/// How a whole byte string decodes: the version byte, then one term.
pub open spec fn decoding<F: Fn(&[u8]) -> Option<u64>>(
    parse: F,
    cfg: DecodeConfig,
    data: Seq<u8>,
) -> Step<TermModel> {
    if data.len() < 1 {
        Err(eof_at(data, 0, 1))
    } else if data[0] != VERSION_BYTE {
        Err(DecodeFailure::BadVersion { found: data[0] })
    } else {
        term_at(parse, cfg, data, 1, 0)
    }
}


// ---------------------------------------------------------------------------
// The decoder.
// ---------------------------------------------------------------------------

/// A cursor over the input.
struct Reader<'a> {
    bytes: &'a [u8],
    offset: usize,
    cfg: &'a DecodeConfig,
}

/// `new` reads from the same input with the same limits as `old`, and the
/// result `r` and the new position are what `expect` says.
spec fn advanced<T: View>(
    r: Result<T, DecodeError>,
    old: Reader,
    new: Reader,
    expect: Step<T::V>,
) -> bool {
    &&& new.bytes == old.bytes
    &&& new.cfg == old.cfg
    &&& new.offset <= new.bytes@.len()
    &&& match expect {
        Ok((v, p)) => r matches Ok(x) && x@ == v && new.offset == p,
        Err(e) => r matches Err(x) && x@ == e,
    }
}

impl<'a> Reader<'a> {
    spec fn wf(&self) -> bool {
        self.offset <= self.bytes@.len()
    }

    fn new(bytes: &'a [u8], cfg: &'a DecodeConfig) -> (r: Self)
        ensures
            r.bytes == bytes,
            r.cfg == cfg,
            r.offset == 0,
    {
        Self { bytes, offset: 0, cfg }
    }

    fn remaining(&self) -> (r: usize)
        requires
            self.wf(),
        ensures
            r == self.bytes@.len() - self.offset,
    {
        self.bytes.len().saturating_sub(self.offset)
    }

    fn require(&self, n: usize) -> (r: Result<(), DecodeError>)
        requires
            self.wf(),
        ensures
            r is Ok <==> self.bytes@.len() - self.offset >= n,
            r matches Err(e) ==> e@ == eof_at(self.bytes@, self.offset as int, n as int),
    {
        if self.remaining() < n {
            Err(
                DecodeError::UnexpectedEof {
                    needed: n,
                    available: self.remaining(),
                    offset: self.offset,
                },
            )
        } else {
            Ok(())
        }
    }

    fn read_u8(&mut self) -> (r: Result<u8, DecodeError>)
        requires
            old(self).wf(),
        ensures
            advanced(
                r,
                *old(self),
                *final(self),
                if old(self).bytes@.len() - old(self).offset < 1 {
                    Err(eof_at(old(self).bytes@, old(self).offset as int, 1))
                } else {
                    Ok((old(self).bytes@[old(self).offset as int], old(self).offset + 1))
                },
            ),
            r is Err ==> final(self).offset == old(self).offset,
    {
        match self.require(1) {
            Err(e) => Err(e),
            Ok(()) => {
                let b = self.bytes[self.offset];
                self.offset = self.offset + 1;
                Ok(b)
            },
        }
    }

    fn read_u16_be(&mut self) -> (r: Result<u16, DecodeError>)
        requires
            old(self).wf(),
        ensures
            advanced(
                r,
                *old(self),
                *final(self),
                if old(self).bytes@.len() - old(self).offset < 2 {
                    Err(eof_at(old(self).bytes@, old(self).offset as int, 2))
                } else {
                    Ok((be16_at(old(self).bytes@, old(self).offset as int), old(self).offset + 2))
                },
            ),
            r is Err ==> final(self).offset == old(self).offset,
    {
        match self.require(2) {
            Err(e) => Err(e),
            Ok(()) => {
                let b0 = self.bytes[self.offset];
                let b1 = self.bytes[self.offset + 1];
                self.offset = self.offset + 2;
                Ok((b0 as u16) * 0x100 + (b1 as u16))
            },
        }
    }

    fn read_u32_be(&mut self) -> (r: Result<u32, DecodeError>)
        requires
            old(self).wf(),
        ensures
            advanced(
                r,
                *old(self),
                *final(self),
                if old(self).bytes@.len() - old(self).offset < 4 {
                    Err(eof_at(old(self).bytes@, old(self).offset as int, 4))
                } else {
                    Ok((be32_at(old(self).bytes@, old(self).offset as int), old(self).offset + 4))
                },
            ),
            r is Err ==> final(self).offset == old(self).offset,
    {
        match self.require(4) {
            Err(e) => Err(e),
            Ok(()) => {
                let o = self.offset;
                let v = (self.bytes[o] as u32) * 0x1000000 + (self.bytes[o + 1] as u32) * 0x10000
                    + (self.bytes[o + 2] as u32) * 0x100 + (self.bytes[o + 3] as u32);
                self.offset = o + 4;
                Ok(v)
            },
        }
    }

    fn read_i32_be(&mut self) -> (r: Result<i32, DecodeError>)
        requires
            old(self).wf(),
        ensures
            advanced(
                r,
                *old(self),
                *final(self),
                if old(self).bytes@.len() - old(self).offset < 4 {
                    Err(eof_at(old(self).bytes@, old(self).offset as int, 4))
                } else {
                    Ok(
                        (
                            be32_at(old(self).bytes@, old(self).offset as int) as i32,
                            old(self).offset + 4,
                        ),
                    )
                },
            ),
            r is Err ==> final(self).offset == old(self).offset,
    {
        match self.read_u32_be() {
            Err(e) => Err(e),
            Ok(v) => Ok(v as i32),
        }
    }

    fn read_u64_be(&mut self) -> (r: Result<u64, DecodeError>)
        requires
            old(self).wf(),
        ensures
            advanced(
                r,
                *old(self),
                *final(self),
                if old(self).bytes@.len() - old(self).offset < 8 {
                    Err(eof_at(old(self).bytes@, old(self).offset as int, 8))
                } else {
                    Ok((be64_at(old(self).bytes@, old(self).offset as int), old(self).offset + 8))
                },
            ),
            r is Err ==> final(self).offset == old(self).offset,
    {
        match self.require(8) {
            Err(e) => Err(e),
            Ok(()) => {
                let hi = match self.read_u32_be() {
                    Ok(v) => v,
                    Err(e) => return Err(e),
                };
                let lo = match self.read_u32_be() {
                    Ok(v) => v,
                    Err(e) => return Err(e),
                };
                Ok((hi as u64) * 0x1_0000_0000 + (lo as u64))
            },
        }
    }

    fn read_bytes(&mut self, n: usize) -> (r: Result<&'a [u8], DecodeError>)
        requires
            old(self).wf(),
        ensures
            advanced(r, *old(self), *final(self), bytes_at(old(self).bytes@, old(self).offset as int, n as int)),
            r is Err ==> final(self).offset == old(self).offset,
    {
        match self.require(n) {
            Err(e) => Err(e),
            Ok(()) => {
                let len = self.bytes.len();
                assert(self.offset + n <= len);
                let slice = slice_subrange(self.bytes, self.offset, self.offset + n);
                self.offset = self.offset + n;
                Ok(slice)
            },
        }
    }
}


fn decode_new_float(reader: &mut Reader) -> (res: Result<Term, DecodeError>)
    requires
        old(reader).wf(),
    ensures
        advanced(res, *old(reader), *final(reader), new_float_at(old(reader).bytes@, old(reader).offset as int)),
{
    match reader.read_u64_be() {
        Err(e) => Err(e),
        Ok(bits) => Ok(Term::Float(bits)),
    }
}

fn decode_small_integer(reader: &mut Reader) -> (res: Result<Term, DecodeError>)
    requires
        old(reader).wf(),
    ensures
        advanced(res, *old(reader), *final(reader), small_integer_at(old(reader).bytes@, old(reader).offset as int)),
{
    match reader.read_u8() {
        Err(e) => Err(e),
        Ok(n) => Ok(Term::Integer(n as i32)),
    }
}

fn decode_integer(reader: &mut Reader) -> (res: Result<Term, DecodeError>)
    requires
        old(reader).wf(),
    ensures
        advanced(res, *old(reader), *final(reader), integer_at(old(reader).bytes@, old(reader).offset as int)),
{
    match reader.read_i32_be() {
        Err(e) => Err(e),
        Ok(n) => Ok(Term::Integer(n)),
    }
}

/// Where the text of a legacy float field ends.
fn find_text_end(field: &[u8]) -> (end: usize)
    ensures
        end == text_end(field@),
{
    let mut end: usize = 0;
    while end < field.len() && field[end] != 0
        invariant
            end <= field@.len(),
            forall|j: int| 0 <= j < end ==> field@[j] != 0,
        decreases field@.len() - end,
    {
        end = end + 1;
    }
    proof {
        if end < field@.len() {
            let k = choose|i: int|
                0 <= i < field@.len() && field@[i] == 0 && forall|j: int| 0 <= j < i ==> field@[j] != 0;
            assert(0 <= k < field@.len() && field@[k] == 0 && forall|j: int| 0 <= j < k ==> field@[j] != 0);
            if k < end {
                assert(field@[k] != 0);
            }
            if k > end {
                assert(field@[end as int] != 0);
            }
        }
    }
    end
}

fn decode_legacy_float<F: Fn(&[u8]) -> Option<u64>>(
    reader: &mut Reader,
    tag_offset: usize,
    parse: &F,
) -> (res: Result<Term, DecodeError>)
    requires
        old(reader).wf(),
        reads_floats(*parse),
    ensures
        advanced(
            res,
            *old(reader),
            *final(reader),
            legacy_float_at(*parse, old(reader).bytes@, old(reader).offset as int, tag_offset as int),
        ),
{
    let field = match reader.read_bytes(LEGACY_FLOAT_WIDTH) {
        Err(e) => return Err(e),
        Ok(f) => f,
    };
    let end = find_text_end(field);
    let text = slice_subrange(field, 0, end);
    let r = parse(text);
    proof {
        assert(text@ == field@.take(text_end(field@)));
        assert(call_ensures(*parse, (text,), r) && text@ == text@);
        let (r2, s2) = choose|r2: Option<u64>, s2: &[u8]|
            #[trigger] call_ensures(*parse, (s2,), r2) && s2@ == text@;
        assert(call_ensures(*parse, (s2,), r2) && s2@ == text@);
        assert(r2 == r);
    }
    match r {
        Some(bits) => Ok(Term::Float(bits)),
        None => Err(DecodeError::LegacyFloatParseFailed { offset: tag_offset }),
    }
}

/// The string of the characters that Latin-1 bytes denote.
fn latin1_to_string(bytes: &[u8]) -> (s: String)
    ensures
        s@ == latin1_chars(bytes@),
{
    let mut s = String::new();
    let mut i: usize = 0;
    while i < bytes.len()
        invariant
            i <= bytes@.len(),
            s@.len() == i,
            forall|j: int| 0 <= j < i ==> s@[j] == bytes@[j] as char,
        decreases bytes@.len() - i,
    {
        push_char(&mut s, bytes[i] as char);
        i = i + 1;
    }
    assert(s@ =~= latin1_chars(bytes@));
    s
}

fn decode_atom_latin1_long(reader: &mut Reader) -> (res: Result<Term, DecodeError>)
    requires
        old(reader).wf(),
    ensures
        advanced(res, *old(reader), *final(reader), long_atom_at(old(reader).bytes@, old(reader).offset as int, false)),
{
    let len = match reader.read_u16_be() {
        Err(e) => return Err(e),
        Ok(n) => n as usize,
    };
    match reader.read_bytes(len) {
        Err(e) => Err(e),
        Ok(bytes) => Ok(Term::Atom(latin1_to_string(bytes))),
    }
}

fn decode_small_atom_latin1(reader: &mut Reader) -> (res: Result<Term, DecodeError>)
    requires
        old(reader).wf(),
    ensures
        advanced(res, *old(reader), *final(reader), short_atom_at(old(reader).bytes@, old(reader).offset as int, false)),
{
    let len = match reader.read_u8() {
        Err(e) => return Err(e),
        Ok(n) => n as usize,
    };
    match reader.read_bytes(len) {
        Err(e) => Err(e),
        Ok(bytes) => Ok(Term::Atom(latin1_to_string(bytes))),
    }
}

/// The atom whose UTF-8 text is `bytes`, found at `payload_offset`.
fn utf8_atom(bytes: &[u8], payload_offset: usize) -> (res: Result<Term, DecodeError>)
    ensures
        valid_utf8(bytes@) ==> (res matches Ok(t) && t@ == TermModel::Atom(decode_utf8(bytes@))),
        !valid_utf8(bytes@) ==> (res matches Err(e) && e@ == (DecodeFailure::AtomInvalidUtf8 {
            offset: payload_offset,
        })),
{
    match str_from_utf8(bytes) {
        Ok(s) => {
            proof {
                encode_utf8_decode_utf8(s@);
            }
            Ok(Term::Atom(s.to_owned()))
        },
        Err(source) => Err(DecodeError::AtomInvalidUtf8 { offset: payload_offset, source }),
    }
}

fn decode_atom_utf8(reader: &mut Reader) -> (res: Result<Term, DecodeError>)
    requires
        old(reader).wf(),
    ensures
        advanced(res, *old(reader), *final(reader), long_atom_at(old(reader).bytes@, old(reader).offset as int, true)),
{
    let len = match reader.read_u16_be() {
        Err(e) => return Err(e),
        Ok(n) => n as usize,
    };
    let payload_offset = reader.offset;
    match reader.read_bytes(len) {
        Err(e) => Err(e),
        Ok(bytes) => utf8_atom(bytes, payload_offset),
    }
}

fn decode_small_atom_utf8(reader: &mut Reader) -> (res: Result<Term, DecodeError>)
    requires
        old(reader).wf(),
    ensures
        advanced(res, *old(reader), *final(reader), short_atom_at(old(reader).bytes@, old(reader).offset as int, true)),
{
    let len = match reader.read_u8() {
        Err(e) => return Err(e),
        Ok(n) => n as usize,
    };
    let payload_offset = reader.offset;
    match reader.read_bytes(len) {
        Err(e) => Err(e),
        Ok(bytes) => utf8_atom(bytes, payload_offset),
    }
}

fn decode_string_ext(reader: &mut Reader) -> (res: Result<Term, DecodeError>)
    requires
        old(reader).wf(),
    ensures
        advanced(res, *old(reader), *final(reader), string_ext_at(old(reader).bytes@, old(reader).offset as int)),
{
    let len = match reader.read_u16_be() {
        Err(e) => return Err(e),
        Ok(n) => n as usize,
    };
    let bytes = match reader.read_bytes(len) {
        Err(e) => return Err(e),
        Ok(b) => b,
    };
    let mut elems: Vec<Term> = Vec::new();
    let mut i: usize = 0;
    while i < bytes.len()
        invariant
            i <= bytes@.len(),
            elems@.len() == i,
            forall|j: int| 0 <= j < i ==> elems@[j]@ == TermModel::Integer(bytes@[j] as i32),
        decreases bytes@.len() - i,
    {
        elems.push(Term::Integer(bytes[i] as i32));
        i = i + 1;
    }
    assert(view_terms(elems@) =~= byte_integers(bytes@));
    Ok(Term::List(elems))
}

fn decode_binary(reader: &mut Reader) -> (res: Result<Term, DecodeError>)
    requires
        old(reader).wf(),
    ensures
        advanced(res, *old(reader), *final(reader), binary_at(old(reader).bytes@, old(reader).offset as int)),
{
    let len = match reader.read_u32_be() {
        Err(e) => return Err(e),
        Ok(n) => n as usize,
    };
    match reader.read_bytes(len) {
        Err(e) => Err(e),
        Ok(bytes) => Ok(Term::Binary(slice_to_vec(bytes))),
    }
}

/// The sign byte and `n` digits of a big integer whose tag stands at
/// `tag_offset`.
fn decode_big_body(reader: &mut Reader, n: u32, tag_offset: usize) -> (res: Result<Term, DecodeError>)
    requires
        old(reader).wf(),
    ensures
        advanced(
            res,
            *old(reader),
            *final(reader),
            big_body_at(*old(reader).cfg, old(reader).bytes@, tag_offset as int, old(reader).offset as int, n as int),
        ),
        n > old(reader).cfg.big_digit_ceiling ==> final(reader).offset == old(reader).offset,
{
    if n > reader.cfg.big_digit_ceiling {
        return Err(
            DecodeError::BigDigitCeilingExceeded {
                declared: n,
                ceiling: reader.cfg.big_digit_ceiling,
                offset: tag_offset,
            },
        );
    }
    let needed = 1usize.saturating_add(n as usize);
    match reader.require(needed) {
        Err(e) => return Err(e),
        Ok(()) => {},
    }
    let sign_byte = match reader.read_u8() {
        Err(e) => return Err(e),
        Ok(b) => b,
    };
    match reader.read_bytes(n as usize) {
        Err(e) => Err(e),
        Ok(digits) => Ok(Term::Big { sign: sign_byte != 0, digits: slice_to_vec(digits) }),
    }
}

fn decode_small_big(reader: &mut Reader, tag_offset: usize) -> (res: Result<Term, DecodeError>)
    requires
        old(reader).wf(),
    ensures
        advanced(
            res,
            *old(reader),
            *final(reader),
            small_big_at(*old(reader).cfg, old(reader).bytes@, old(reader).offset as int, tag_offset as int),
        ),
        old(reader).offset < old(reader).bytes@.len() && old(reader).bytes@[old(reader).offset as int]
            > old(reader).cfg.big_digit_ceiling ==> final(reader).offset == old(reader).offset + 1,
{
    match reader.read_u8() {
        Err(e) => Err(e),
        Ok(n) => decode_big_body(reader, n as u32, tag_offset),
    }
}

fn decode_large_big(reader: &mut Reader, tag_offset: usize) -> (res: Result<Term, DecodeError>)
    requires
        old(reader).wf(),
    ensures
        advanced(
            res,
            *old(reader),
            *final(reader),
            large_big_at(*old(reader).cfg, old(reader).bytes@, old(reader).offset as int, tag_offset as int),
        ),
        old(reader).bytes@.len() - old(reader).offset >= 4 && be32_at(old(reader).bytes@, old(reader).offset as int)
            > old(reader).cfg.big_digit_ceiling ==> final(reader).offset == old(reader).offset + 4,
{
    match reader.read_u32_be() {
        Err(e) => Err(e),
        Ok(n) => decode_big_body(reader, n, tag_offset),
    }
}


/// A failure while decoding the first `k` elements of a run is the failure
/// of any longer run that starts the same way.
proof fn lemma_terms_failure_persists<F: Fn(&[u8]) -> Option<u64>>(
    parse: F,
    cfg: DecodeConfig,
    data: Seq<u8>,
    pos: int,
    parent: int,
    k: nat,
    n: nat,
)
    requires
        k <= n,
        terms_at(parse, cfg, data, pos, parent, k) is Err,
    ensures
        terms_at(parse, cfg, data, pos, parent, n) == terms_at(parse, cfg, data, pos, parent, k),
    decreases n - k,
{
    if k < n {
        lemma_terms_failure_persists(parse, cfg, data, pos, parent, k, (n - 1) as nat);
    }
}

/// The same for runs of key/value pairs.
proof fn lemma_pairs_failure_persists<F: Fn(&[u8]) -> Option<u64>>(
    parse: F,
    cfg: DecodeConfig,
    data: Seq<u8>,
    pos: int,
    parent: int,
    k: nat,
    n: nat,
)
    requires
        k <= n,
        pairs_at(parse, cfg, data, pos, parent, k) is Err,
    ensures
        pairs_at(parse, cfg, data, pos, parent, n) == pairs_at(parse, cfg, data, pos, parent, k),
    decreases n - k,
{
    if k < n {
        lemma_pairs_failure_persists(parse, cfg, data, pos, parent, k, (n - 1) as nat);
    }
}

/// Decodes `arity` consecutive terms, children of a container nested `depth`
/// levels deep.
fn decode_elements<F: Fn(&[u8]) -> Option<u64>>(
    reader: &mut Reader,
    arity: usize,
    depth: u64,
    parse: &F,
) -> (res: Result<Vec<Term>, DecodeError>)
    requires
        old(reader).wf(),
        depth <= old(reader).cfg.max_depth,
        reads_floats(*parse),
    ensures
        final(reader).bytes == old(reader).bytes,
        final(reader).cfg == old(reader).cfg,
        final(reader).wf(),
        match terms_at(*parse, *old(reader).cfg, old(reader).bytes@, old(reader).offset as int, depth as int, arity as nat) {
            Ok((elems, q)) => res matches Ok(v) && view_terms(v@) == elems && final(reader).offset == q,
            Err(e) => res matches Err(x) && x@ == e,
        },
    decreases old(reader).cfg.max_depth + 1 - depth, 0nat,
{
    let ghost start = reader.offset as int;
    let ghost data = reader.bytes@;
    let ghost cfg = *reader.cfg;
    let cap = if arity < reader.remaining() { arity } else { reader.remaining() };
    let mut elems: Vec<Term> = Vec::with_capacity(cap);
    let mut i: usize = 0;
    assert(view_terms(elems@) =~= seq![]);
    while i < arity
        invariant
            reader.wf(),
            reader.bytes@ == data,
            *reader.cfg == cfg,
            reader.bytes == old(reader).bytes,
            reader.cfg == old(reader).cfg,
            cfg == *old(reader).cfg,
            data == old(reader).bytes@,
            start == old(reader).offset,
            depth <= cfg.max_depth,
            reads_floats(*parse),
            i <= arity,
            terms_at(*parse, cfg, data, start, depth as int, i as nat) == Ok::<(Seq<TermModel>, int), DecodeFailure>((view_terms(elems@), reader.offset as int)),
        decreases arity - i,
    {
        match decode_term(reader, depth + 1, parse) {
            Err(e) => {
                proof {
                    lemma_terms_failure_persists(*parse, cfg, data, start, depth as int, (i + 1) as nat, arity as nat);
                }
                return Err(e);
            },
            Ok(t) => {
                let ghost before = elems@;
                elems.push(t);
                assert(view_terms(elems@) =~= view_terms(before).push(t@));
                i = i + 1;
            },
        }
    }
    Ok(elems)
}

/// Decodes `arity` consecutive key/value pairs, entries of a map nested
/// `depth` levels deep.
fn decode_entries<F: Fn(&[u8]) -> Option<u64>>(
    reader: &mut Reader,
    arity: usize,
    depth: u64,
    parse: &F,
) -> (res: Result<Vec<(Term, Term)>, DecodeError>)
    requires
        old(reader).wf(),
        depth <= old(reader).cfg.max_depth,
        reads_floats(*parse),
    ensures
        final(reader).bytes == old(reader).bytes,
        final(reader).cfg == old(reader).cfg,
        final(reader).wf(),
        match pairs_at(*parse, *old(reader).cfg, old(reader).bytes@, old(reader).offset as int, depth as int, arity as nat) {
            Ok((entries, q)) => res matches Ok(v) && view_pairs(v@) == entries && final(reader).offset == q,
            Err(e) => res matches Err(x) && x@ == e,
        },
    decreases old(reader).cfg.max_depth + 1 - depth, 0nat,
{
    let ghost start = reader.offset as int;
    let ghost data = reader.bytes@;
    let ghost cfg = *reader.cfg;
    let cap = if arity < reader.remaining() / 2 { arity } else { reader.remaining() / 2 };
    let mut entries: Vec<(Term, Term)> = Vec::with_capacity(cap);
    let mut i: usize = 0;
    assert(view_pairs(entries@) =~= seq![]);
    while i < arity
        invariant
            reader.wf(),
            reader.bytes@ == data,
            *reader.cfg == cfg,
            reader.bytes == old(reader).bytes,
            reader.cfg == old(reader).cfg,
            cfg == *old(reader).cfg,
            data == old(reader).bytes@,
            start == old(reader).offset,
            depth <= cfg.max_depth,
            reads_floats(*parse),
            i <= arity,
            pairs_at(*parse, cfg, data, start, depth as int, i as nat) == Ok::<(Seq<(TermModel, TermModel)>, int), DecodeFailure>((view_pairs(entries@), reader.offset as int)),
        decreases arity - i,
    {
        let k = match decode_term(reader, depth + 1, parse) {
            Err(e) => {
                proof {
                    lemma_pairs_failure_persists(*parse, cfg, data, start, depth as int, (i + 1) as nat, arity as nat);
                }
                return Err(e);
            },
            Ok(k) => k,
        };
        let v = match decode_term(reader, depth + 1, parse) {
            Err(e) => {
                proof {
                    lemma_pairs_failure_persists(*parse, cfg, data, start, depth as int, (i + 1) as nat, arity as nat);
                }
                return Err(e);
            },
            Ok(v) => v,
        };
        let ghost before = entries@;
        entries.push((k, v));
        assert(view_pairs(entries@) =~= view_pairs(before).push((k@, v@)));
        i = i + 1;
    }
    Ok(entries)
}

fn decode_small_tuple<F: Fn(&[u8]) -> Option<u64>>(
    reader: &mut Reader,
    depth: u64,
    parse: &F,
) -> (res: Result<Term, DecodeError>)
    requires
        old(reader).wf(),
        1 <= old(reader).offset,
        old(reader).bytes@[old(reader).offset - 1] == SMALL_TUPLE_EXT,
        depth <= old(reader).cfg.max_depth,
        reads_floats(*parse),
    ensures
        advanced(res, *old(reader), *final(reader), term_at(*parse, *old(reader).cfg, old(reader).bytes@, old(reader).offset - 1, depth as int)),
    decreases old(reader).cfg.max_depth + 1 - depth, 1nat,
{
    let arity = match reader.read_u8() {
        Err(e) => return Err(e),
        Ok(n) => n as usize,
    };
    match decode_elements(reader, arity, depth, parse) {
        Err(e) => Err(e),
        Ok(elems) => Ok(Term::Tuple(elems)),
    }
}

fn decode_large_tuple<F: Fn(&[u8]) -> Option<u64>>(
    reader: &mut Reader,
    depth: u64,
    parse: &F,
) -> (res: Result<Term, DecodeError>)
    requires
        old(reader).wf(),
        1 <= old(reader).offset,
        old(reader).bytes@[old(reader).offset - 1] == LARGE_TUPLE_EXT,
        depth <= old(reader).cfg.max_depth,
        reads_floats(*parse),
    ensures
        advanced(res, *old(reader), *final(reader), term_at(*parse, *old(reader).cfg, old(reader).bytes@, old(reader).offset - 1, depth as int)),
    decreases old(reader).cfg.max_depth + 1 - depth, 1nat,
{
    let arity = match reader.read_u32_be() {
        Err(e) => return Err(e),
        Ok(n) => n as usize,
    };
    match decode_elements(reader, arity, depth, parse) {
        Err(e) => Err(e),
        Ok(elems) => Ok(Term::Tuple(elems)),
    }
}

fn decode_list<F: Fn(&[u8]) -> Option<u64>>(
    reader: &mut Reader,
    depth: u64,
    parse: &F,
) -> (res: Result<Term, DecodeError>)
    requires
        old(reader).wf(),
        1 <= old(reader).offset,
        old(reader).bytes@[old(reader).offset - 1] == LIST_EXT,
        depth <= old(reader).cfg.max_depth,
        reads_floats(*parse),
    ensures
        advanced(res, *old(reader), *final(reader), term_at(*parse, *old(reader).cfg, old(reader).bytes@, old(reader).offset - 1, depth as int)),
    decreases old(reader).cfg.max_depth + 1 - depth, 1nat,
{
    let arity = match reader.read_u32_be() {
        Err(e) => return Err(e),
        Ok(n) => n as usize,
    };
    let elems = match decode_elements(reader, arity, depth, parse) {
        Err(e) => return Err(e),
        Ok(elems) => elems,
    };
    let tail_offset = reader.offset;
    let tail_tag = match reader.read_u8() {
        Err(e) => return Err(e),
        Ok(t) => t,
    };
    if tail_tag != NIL_EXT {
        return Err(DecodeError::ImproperList { tail_tag, offset: tail_offset });
    }
    Ok(Term::List(elems))
}

fn decode_map<F: Fn(&[u8]) -> Option<u64>>(
    reader: &mut Reader,
    depth: u64,
    parse: &F,
) -> (res: Result<Term, DecodeError>)
    requires
        old(reader).wf(),
        1 <= old(reader).offset,
        old(reader).bytes@[old(reader).offset - 1] == MAP_EXT,
        depth <= old(reader).cfg.max_depth,
        reads_floats(*parse),
    ensures
        advanced(res, *old(reader), *final(reader), term_at(*parse, *old(reader).cfg, old(reader).bytes@, old(reader).offset - 1, depth as int)),
    decreases old(reader).cfg.max_depth + 1 - depth, 1nat,
{
    let arity = match reader.read_u32_be() {
        Err(e) => return Err(e),
        Ok(n) => n as usize,
    };
    match decode_entries(reader, arity, depth, parse) {
        Err(e) => Err(e),
        Ok(entries) => Ok(Term::Dict(entries)),
    }
}

fn decode_term<F: Fn(&[u8]) -> Option<u64>>(
    reader: &mut Reader,
    depth: u64,
    parse: &F,
) -> (res: Result<Term, DecodeError>)
    requires
        old(reader).wf(),
        depth <= old(reader).cfg.max_depth + 1,
        reads_floats(*parse),
    ensures
        advanced(res, *old(reader), *final(reader), term_at(*parse, *old(reader).cfg, old(reader).bytes@, old(reader).offset as int, depth as int)),
        // A refusal before the tag is read leaves the reader where it was.
        depth > old(reader).cfg.max_depth || old(reader).offset == old(reader).bytes@.len()
            ==> final(reader).offset == old(reader).offset,
        // A refused tag leaves the reader just past it.
        depth <= old(reader).cfg.max_depth && old(reader).offset < old(reader).bytes@.len()
            && !is_read_tag(old(reader).bytes@[old(reader).offset as int])
            ==> final(reader).offset == old(reader).offset + 1,
    decreases old(reader).cfg.max_depth + 1 - depth, 2nat,
{
    if depth > reader.cfg.max_depth as u64 {
        let reported = if depth <= u32::MAX as u64 { depth as u32 } else { u32::MAX };
        return Err(
            DecodeError::MaxDepthExceeded {
                depth: reported,
                ceiling: reader.cfg.max_depth,
                offset: reader.offset,
            },
        );
    }
    let tag_offset = reader.offset;
    let tag = match reader.read_u8() {
        Err(e) => return Err(e),
        Ok(t) => t,
    };
    match tag {
        NEW_FLOAT_EXT => decode_new_float(reader),
        SMALL_INTEGER_EXT => decode_small_integer(reader),
        INTEGER_EXT => decode_integer(reader),
        FLOAT_EXT => decode_legacy_float(reader, tag_offset, parse),
        ATOM_EXT => decode_atom_latin1_long(reader),
        SMALL_TUPLE_EXT => decode_small_tuple(reader, depth, parse),
        LARGE_TUPLE_EXT => decode_large_tuple(reader, depth, parse),
        NIL_EXT => {
            let empty: Vec<Term> = Vec::new();
            assert(view_terms(empty@) =~= seq![]);
            Ok(Term::List(empty))
        },
        STRING_EXT => decode_string_ext(reader),
        LIST_EXT => decode_list(reader, depth, parse),
        BINARY_EXT => decode_binary(reader),
        SMALL_BIG_EXT => decode_small_big(reader, tag_offset),
        LARGE_BIG_EXT => decode_large_big(reader, tag_offset),
        SMALL_ATOM_EXT => decode_small_atom_latin1(reader),
        MAP_EXT => decode_map(reader, depth, parse),
        ATOM_UTF8_EXT => decode_atom_utf8(reader),
        SMALL_ATOM_UTF8_EXT => decode_small_atom_utf8(reader),
        COMPRESSED => Err(DecodeError::CompressedNotSupported { offset: tag_offset }),
        BIT_BINARY_EXT => Err(DecodeError::BitBinaryNotSupported { offset: tag_offset }),
        REFERENCE_EXT | PORT_EXT | PID_EXT | NEW_FUN_EXT | EXPORT_EXT | NEW_REFERENCE_EXT
        | FUN_EXT => Err(DecodeError::ErlangRuntimeTermNotSupported { tag, offset: tag_offset }),
        _ => Err(DecodeError::UnknownTag { tag, offset: tag_offset }),
    }
}

/// The configuration that `decode` uses.
pub open spec fn default_config() -> DecodeConfig {
    DecodeConfig { big_digit_ceiling: DEFAULT_BIG_DIGIT_CEILING, max_depth: DEFAULT_MAX_DEPTH }
}

/// Decodes one term from the front of `bytes` under the limits of `cfg`,
/// answering the term and how many bytes it took; bytes after it are left
/// alone. `parse` reads the text of legacy `FLOAT_EXT` terms.
pub fn decode_with<F: Fn(&[u8]) -> Option<u64>>(
    bytes: &[u8],
    cfg: &DecodeConfig,
    parse: &F,
) -> (res: Result<(Term, usize), DecodeError>)
    requires
        reads_floats(*parse),
    ensures
        match decoding(*parse, *cfg, bytes@) {
            Ok((t, n)) => res matches Ok((x, m)) && x@ == t && m == n,
            Err(e) => res matches Err(x) && x@ == e,
        },
{
    let mut reader = Reader::new(bytes, cfg);
    let version = match reader.read_u8() {
        Err(e) => return Err(e),
        Ok(v) => v,
    };
    if version != VERSION_BYTE {
        return Err(DecodeError::BadVersion { found: version });
    }
    match decode_term(&mut reader, 0, parse) {
        Err(e) => Err(e),
        Ok(term) => Ok((term, reader.offset)),
    }
}

/// `decode_with` under the default limits.
pub fn decode<F: Fn(&[u8]) -> Option<u64>>(bytes: &[u8], parse: &F) -> (res: Result<
    (Term, usize),
    DecodeError,
>)
    requires
        reads_floats(*parse),
    ensures
        match decoding(*parse, default_config(), bytes@) {
            Ok((t, n)) => res matches Ok((x, m)) && x@ == t && m == n,
            Err(e) => res matches Err(x) && x@ == e,
        },
{
    decode_with(bytes, &DecodeConfig::default(), parse)
}
} // verus!
