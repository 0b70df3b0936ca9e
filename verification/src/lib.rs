//! Erlang External Term Format codec, wire-compatible with `discord/erlpack`.
use vstd::prelude::*;

pub mod convert;
pub mod decode;
pub mod decoded;
pub mod encode;
pub mod json_trip;
pub mod roundtrip;
pub mod splice;
pub mod term;
pub mod equality;
mod text;

pub use decode::{decode, decode_with, DecodeConfig, DecodeError};
pub use encode::{encode, EncodeError};
pub use term::Term;
pub use splice::{splice_map, SplicedValue};
pub use convert::{
    encode_value, encode_value_into, from_value, to_value, ConvertError, JsonNumber, JsonValue,
};
