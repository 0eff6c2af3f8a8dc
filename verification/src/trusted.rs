//! What the library takes on trust from code outside it.  Each item below
//! gives a function of another crate, or of the standard library, the
//! contract that the proofs use; none of these contracts is proved here.

use vstd::prelude::*;
use vstd::string::*;
use vstd::utf8::valid_utf8;

verus! {

/// Trusted: `memchr::memchr` of the crate `memchr`.  The contract claims what
/// its documentation says: the result is the index of the first occurrence
/// of `needle` in `haystack`, and `None` where `needle` does not occur.
pub assume_specification[ memchr::memchr ](needle: u8, haystack: &[u8]) -> (r: Option<usize>)
    ensures
        match r {
            Some(i) => i < haystack@.len() && haystack@[i as int] == needle && forall|j: int|
                0 <= j < i ==> haystack@[j] != needle,
            None => forall|j: int| 0 <= j < haystack@.len() ==> haystack@[j] != needle,
        },
;

/// Trusted: `String::push` of the standard library.  The contract claims what
/// its documentation says: the character is appended to the end of the string
/// and nothing else changes.
pub assume_specification[ String::push ](s: &mut String, ch: char)
    ensures
        final(s)@ == old(s)@.push(ch),
;

/// The error type of `core::str::from_utf8`, carried through as it is.
#[verifier::external_type_specification]
#[verifier::external_body]
pub struct ExUtf8Error(core::str::Utf8Error);

/// Trusted: `core::str::from_utf8` of the standard library.  The contract
/// claims what its documentation says: the call succeeds exactly on valid
/// UTF-8, and the string slice it then returns has the bytes it was given.
pub assume_specification[ core::str::from_utf8 ](v: &[u8]) -> (r: Result<
    &str,
    core::str::Utf8Error,
>)
    ensures
        r is Ok <==> valid_utf8(v@),
        r matches Ok(s) ==> s.spec_bytes() == v@,
;

} // verus!
