//! The serialization boundary of the store.
//!
//! A database snapshot is one byte string: the `bincode` encoding of the
//! full list of key/value entries.  The encoding itself is opaque; it is
//! named by [`snapshot_bytes`], and the contracts of the two calls below
//! state the one fact the store depends on: decoding is the inverse of
//! encoding.

use vstd::prelude::*;

verus! {

/// The mathematical contents of an entry list: each key as a character
/// sequence, each payload as a byte sequence.
pub open spec fn entry_views(entries: Seq<(String, Vec<u8>)>) -> Seq<(Seq<char>, Seq<u8>)> {
    entries.map_values(|e: (String, Vec<u8>)| (e.0@, e.1@))
}

/// The byte string that `bincode::serialize` produces for an entry list
/// with the given contents.  The encoding depends on the contents alone.
pub uninterp spec fn snapshot_bytes(entries: Seq<(Seq<char>, Seq<u8>)>) -> Seq<u8>;

/// Relies on `bincode::ErrorKind`: the error type of `bincode::serialize`
/// and `bincode::deserialize`, carried through opaquely.
#[verifier::external_type_specification]
#[verifier::external_body]
pub struct ExErrorKind(bincode::ErrorKind);

/// Relies on `bincode::serialize` (fixed-width integers, little endian):
/// a deterministic encoding of the entry list into one byte string.
/// Serialization of this entry type cannot fail: the size limit is
/// unlimited and the writer is a byte vector, which never errors.
#[verifier::external_body]
pub(crate) fn encode_entries(entries: &Vec<(String, Vec<u8>)>) -> (r: Result<
    Vec<u8>,
    Box<bincode::ErrorKind>,
>)
    ensures
        r is Ok,
        r matches Ok(bytes) ==> bytes@ == snapshot_bytes(entry_views(entries@)),
{
    bincode::serialize(entries)
}

/// Relies on `bincode::deserialize`: deserializing the bytes that
/// `bincode::serialize` produced for a value yields that value back, so a
/// byte string is the encoding of at most one entry list.
#[verifier::external_body]
pub(crate) fn decode_entries(bytes: &Vec<u8>) -> (r: Result<
    Vec<(String, Vec<u8>)>,
    Box<bincode::ErrorKind>,
>)
    ensures
        match r {
            Ok(entries) => forall|s: Seq<(Seq<char>, Seq<u8>)>|
                bytes@ == snapshot_bytes(s) ==> entry_views(entries@) == s,
            Err(_) => forall|s: Seq<(Seq<char>, Seq<u8>)>| bytes@ != snapshot_bytes(s),
        },
{
    bincode::deserialize(bytes.as_slice())
}

} // verus!
