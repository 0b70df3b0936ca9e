# ug_erlpack

An Erlang External Term Format codec, wire-compatible with `discord/erlpack`,
written in Verus and proved against its contracts.

- `src/term.rs`: the `Term` type and its mathematical model.
- `src/equality.rs`: `==` on terms and JSON numbers, floats compared as
  IEEE-754 numbers (`0.0 == -0.0`, a NaN equals nothing).
- `src/encode.rs`: the encoder, specified by `term_encoding` / `encoding`.
- `src/decode.rs`: the decoder with its limits (`DecodeConfig`), specified by
  `term_at` / `decoding`, a function from bytes to terms.
- `src/splice.rs`: maps built from terms and values encoded beforehand.
- `src/convert.rs`: JSON values to terms and back, and the direct encoding of
  JSON values.
- `src/roundtrip.rs`, `src/decoded.rs`, `src/json_trip.rs`: the laws that
  relate these (decode inverts encode, trailing bytes are ignored, a JSON
  value survives the trip through its term, looser decode limits keep every
  success, and more), each a proof function.
- `src/text.rs`: the calls into `core`/`std` string functions, with the
  contracts they are trusted to meet.
- `app/`: the public face over `serde_json::Value` and `thiserror` errors, and
  the `f64` reading of legacy `FLOAT_EXT` text.
- `tests/`: the test suite.
