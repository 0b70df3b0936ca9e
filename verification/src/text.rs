use vstd::prelude::*;
use vstd::string::*;
use vstd::utf8::*;

verus! {

/// The error that `core::str::from_utf8` reports; carried inside
/// `DecodeError::AtomInvalidUtf8` and never inspected.
#[verifier::external_type_specification]
#[verifier::external_body]
pub struct ExUtf8Error(core::str::Utf8Error);

/// Calls `core::str::from_utf8`. The contract claims what its documentation
/// states: the call succeeds exactly on well-formed UTF-8, and the string it
/// returns is a view of the very bytes it was given.
#[verifier::external_body]
pub(crate) fn str_from_utf8(v: &[u8]) -> (r: Result<&str, core::str::Utf8Error>)
    ensures
        r is Ok <==> valid_utf8(v@),
        r matches Ok(s) ==> s.spec_bytes() == v@,
{
    core::str::from_utf8(v)
}

/// Calls `String::push`. The contract claims that the character is appended
/// at the end of the string and nothing else changes.
#[verifier::external_body]
pub(crate) fn push_char(s: &mut String, c: char)
    ensures
        final(s)@ == old(s)@.push(c),
{
    s.push(c)
}

/// The error that `String::from_utf8` reports; carried inside
/// `ConvertError::BinaryInvalidUtf8` and never inspected.
#[verifier::external_type_specification]
#[verifier::external_body]
pub struct ExFromUtf8Error(std::string::FromUtf8Error);

/// Calls `String::from_utf8`. The contract claims what its documentation
/// states: the call succeeds exactly on well-formed UTF-8, and the string's
/// bytes are the bytes it was given.
#[verifier::external_body]
pub(crate) fn string_from_utf8(v: Vec<u8>) -> (r: Result<String, std::string::FromUtf8Error>)
    ensures
        r is Ok <==> valid_utf8(v@),
        r matches Ok(s) ==> encode_utf8(s@) == v@,
{
    String::from_utf8(v)
}

/// The string of the characters `cs`, in order.
pub(crate) fn string_of(cs: &[char]) -> (s: String)
    ensures
        s@ == cs@,
{
    let mut s = String::new();
    let mut i: usize = 0;
    while i < cs.len()
        invariant
            i <= cs@.len(),
            s@ == cs@.take(i as int),
        decreases cs@.len() - i,
    {
        push_char(&mut s, cs[i]);
        i = i + 1;
        assert(s@ =~= cs@.take(i as int));
    }
    assert(cs@.take(i as int) =~= cs@);
    s
}

} // verus!
