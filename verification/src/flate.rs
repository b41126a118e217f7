//! The DEFLATE decoder that stream payloads are handed to.

use vstd::prelude::*;

verus! {

/// What `inflate::inflate_bytes` makes of `data`: the decoded bytes, or
/// nothing where it reports an error.
pub uninterp spec fn inflated(data: Seq<u8>) -> Option<Seq<u8>>;

/// `inflate::inflate_bytes`.  The decoder reads `data` as one DEFLATE stream
/// and returns the decoded bytes or an error message; the message is dropped.
/// What it returns depends on `data` alone.
#[verifier::external_body]
pub(crate) fn inflate_bytes(data: &[u8]) -> (r: Option<Vec<u8>>)
    ensures
        match r {
            Some(decoded) => inflated(data@) == Some(decoded@),
            None => inflated(data@) is None,
        },
{
    inflate::inflate_bytes(data).ok()
}

} // verus!
