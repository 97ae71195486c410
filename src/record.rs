use vstd::prelude::*;

use crate::key::KeyBytes;

verus! {

/// bincode's `ErrorKind`: why an encoding or a decoding failed; a record's
/// codec reports failures as `bincode::Error`, a box of it.
#[verifier::external_type_specification]
#[verifier::external_body]
pub struct ExBincodeErrorKind(bincode::ErrorKind);

/// What a type supplies to be stored: a key, the name of its table, and a
/// binary encoding that decodes back to the same value.
pub trait Record: Sized {
    type Key: KeyBytes;

    /// The bytes that this record is stored under; a type whose proofs rely
    /// on it says what they are.
    open spec fn record_key(&self) -> Seq<u8> {
        arbitrary()
    }

    /// The name of the table that records of this type live in: "default"
    /// unless the type says otherwise.
    open spec fn table_name() -> Seq<char> {
        "default"@
    }

    /// The record that `bytes` decode to, if any; a type whose proofs rely on
    /// it says what that is.
    open spec fn decoded(bytes: Seq<u8>) -> Option<Self> {
        arbitrary()
    }

    /// The bytes this record encodes to, or `None` where it cannot be
    /// encoded: one encoding per value, whenever and however often it is
    /// made.
    open spec fn encoded(&self) -> Option<Seq<u8>> {
        arbitrary()
    }

    /// Used to determine the key to use to associate with the object in the database
    fn key(&self) -> (k: Self::Key)
        ensures
            k.key_bytes() == self.record_key(),
    ;

    /// The database name to save a record in.
    fn db_name() -> (r: &'static str)
        ensures
            r@ == Self::table_name(),
            !r@.contains('\0'),
    ;

    /// Serializes the record to binary: its encoding, which decodes to the
    /// record; an error exactly where it has none.
    fn to_binary(&self) -> (r: Result<Vec<u8>, bincode::Error>)
        ensures
            r is Ok <==> self.encoded() is Some,
            r is Ok ==> r->Ok_0@ == self.encoded()->Some_0,
            r is Ok ==> Self::decoded(r->Ok_0@) == Some(*self),
    ;

    /// Deserializes a record from binary.
    fn from_binary(bytes: &[u8]) -> (r: Result<Self, bincode::Error>)
        ensures
            match r {
                Ok(v) => Self::decoded(bytes@) == Some(v),
                Err(_) => Self::decoded(bytes@) is None,
            },
    ;
}

/// Decoding what encoding produced gives the record back: a record stored as
/// `bytes` is read back equal to itself.
pub proof fn lemma_round_trip<T: Record>(record: T, bytes: Seq<u8>, back: Result<T, bincode::Error>)
    requires
        T::decoded(bytes) == Some(record),
        match back {
            Ok(v) => T::decoded(bytes) == Some(v),
            Err(_) => T::decoded(bytes) is None,
        },
    ensures
        back is Ok && back->Ok_0 == record,
{
}

} // verus!
