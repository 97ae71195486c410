//! The meaning of the storage operations, stated over table contents: a table
//! is a finite map from key bytes to value bytes.
use vstd::prelude::*;

use crate::engine::table_of;
use crate::record::Record;

verus! {

/// One transaction run on a table: the table's name, the handle it went
/// through, what it saw there, and what it left.
pub struct Access {
    pub table: Seq<char>,
    pub db: lmdb::Database,
    pub before: Map<Seq<u8>, Seq<u8>>,
    pub after: Map<Seq<u8>, Seq<u8>>,
}

/// The record of type `T` that table contents `m` hold under `key`, if the
/// key is there and its value decodes.
pub open spec fn lookup<T: Record>(m: Map<Seq<u8>, Seq<u8>>, key: Seq<u8>) -> Option<T> {
    if m.contains_key(key) {
        T::decoded(m[key])
    } else {
        None
    }
}

/// `values` are encodings of `records`, one for one.
pub open spec fn encodes_all<T: Record>(records: Seq<T>, values: Seq<Seq<u8>>) -> bool {
    &&& records.len() == values.len()
    &&& forall|i: int| 0 <= i < records.len() ==> T::decoded(#[trigger] values[i]) == Some(records[i])
}

/// `m` after each record is put under its key, in order, with its value.
pub open spec fn put_all<T: Record>(
    m: Map<Seq<u8>, Seq<u8>>,
    records: Seq<T>,
    values: Seq<Seq<u8>>,
) -> Map<Seq<u8>, Seq<u8>>
    decreases records.len(),
{
    if records.len() == 0 || values.len() == 0 {
        m
    } else {
        put_all(m, records.drop_last(), values.drop_last()).insert(
            records.last().record_key(),
            values.last(),
        )
    }
}

/// The encodings of `records`, one for one.
pub open spec fn encodings<T: Record>(records: Seq<T>) -> Seq<Seq<u8>> {
    records.map_values(|r: T| r.encoded()->Some_0)
}

/// Every one of `records` has an encoding.
pub open spec fn all_encode<T: Record>(records: Seq<T>) -> bool {
    forall|i: int| 0 <= i < records.len() ==> (#[trigger] records[i]).encoded() is Some
}

/// `a` stored `records`, in order, each as its encoding, in the table of `T`.
pub open spec fn stores<T: Record>(a: Access, records: Seq<T>) -> bool {
    &&& a.table == T::table_name()
    &&& table_of(a.db) == a.table
    &&& all_encode(records)
    &&& encodes_all(records, encodings(records))
    &&& a.after == put_all(a.before, records, encodings(records))
}

/// `a` read the table of `T` and changed nothing.
pub open spec fn reads<T: Record>(a: Access) -> bool {
    a.table == T::table_name() && table_of(a.db) == a.table && a.after == a.before
}

/// `a` removed `key`, which was there, from the table of `T`.
pub open spec fn deletes<T: Record>(a: Access, key: Seq<u8>) -> bool {
    &&& a.table == T::table_name()
    &&& table_of(a.db) == a.table
    &&& a.before.contains_key(key)
    &&& a.after == a.before.remove(key)
}

/// `a` emptied the table of `T`.
pub open spec fn clears<T: Record>(a: Access) -> bool {
    a.table == T::table_name() && table_of(a.db) == a.table && a.after == Map::<Seq<u8>, Seq<u8>>::empty()
}

/// The handle cache after resolving `name`: kept where `name` was there,
/// else kept or grown by that one name.
pub open spec fn keeps_or_opens(
    before: Map<Seq<char>, lmdb::Database>,
    after: Map<Seq<char>, lmdb::Database>,
    name: Seq<char>,
) -> bool {
    if before.contains_key(name) {
        after == before
    } else {
        after == before || exists|d: lmdb::Database| after == #[trigger] before.insert(name, d)
    }
}

} // verus!
