//! Words to bytes and back. The packing is done by `bitcode`; what is
//! stated of it here is taken on trust.

use vstd::prelude::*;

verus! {

/// The error of `bitcode`. Nothing is read from it.
#[verifier::external_type_specification]
#[verifier::external_body]
pub struct ExPackError(bitcode::Error);

/// The bytes that `bitcode::serialize` makes of a vector of words, `None`
/// where it reports an error.
pub uninterp spec fn serialized(words: Seq<u64>) -> Option<Seq<u8>>;

/// The words that `bitcode::deserialize` reads from bytes as a vector of
/// `u64`, `None` where it reports an error.
pub uninterp spec fn deserialized(bytes: Seq<u8>) -> Option<Seq<u64>>;

/// Calls `bitcode::serialize` on the words. Taken on trust: the outcome
/// depends on the words alone, and the bytes it returns are read back by
/// `bitcode::deserialize` as the same words, which is what the crate is
/// documented to be for.
#[verifier::external_body]
pub(crate) fn pack(words: &Vec<u64>) -> (r: Result<Vec<u8>, bitcode::Error>)
    ensures
        match r {
            Ok(bytes) => serialized(words@) == Some(bytes@) && deserialized(bytes@) == Some(
                words@,
            ),
            Err(_) => serialized(words@) is None,
        },
{
    bitcode::serialize(words)
}

/// Calls `bitcode::deserialize` to read a vector of words. Taken on trust:
/// the outcome depends on the bytes alone.
#[verifier::external_body]
pub(crate) fn unpack(bytes: &[u8]) -> (r: Result<Vec<u64>, bitcode::Error>)
    ensures
        match r {
            Ok(words) => deserialized(bytes@) == Some(words@),
            Err(_) => deserialized(bytes@) is None,
        },
{
    bitcode::deserialize::<Vec<u64>>(bytes)
}

} // verus!
