//! What this crate takes on trust from the standard library: the types and
//! functions of `std` that it uses and that have no contract of their own.

use vstd::prelude::*;
use vstd::std_specs::iter::IteratorSpec;
use vstd::utf8::encode_utf8;
use crate::winds_down;

verus! {

/// `std::io::Error`, the failure that a read returns. Nothing is known of
/// what is inside.
#[verifier::external_type_specification]
#[verifier::external_body]
pub struct ExIoError(std::io::Error);

/// `std::iter::Fuse`, the iterator that `Iterator::fuse` returns. Nothing is
/// known of what is inside.
#[verifier::external_type_specification]
#[verifier::external_body]
#[verifier::reject_recursive_types(I)]
pub struct ExFuse<I>(std::iter::Fuse<I>);

/// `Iterator::fuse`: wraps a source so that it is not asked again once it has
/// returned `None`. Assumed: of a source that winds down, the fused source
/// will yield the same items and winds down as well.
#[verifier::external_body]
pub(crate) fn fuse<I: Iterator>(iter: I) -> (fused: std::iter::Fuse<I>)
    ensures
        winds_down(&iter) ==> winds_down(&fused) && fused.remaining() == iter.remaining(),
{
    iter.fuse()
}

/// `String::into_bytes`: turns a string into the vector of its bytes.
/// Assumed: the bytes are the UTF-8 encoding of the characters of the string.
pub assume_specification[ String::into_bytes ](text: String) -> (bytes: Vec<u8>)
    ensures
        bytes@ == encode_utf8(text@),
;

} // verus!
