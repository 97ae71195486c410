//! Laws of the storage operations, over the transactions they report in
//! `Storage::history`.
use vstd::prelude::*;

use crate::model::{clears, deletes, encodes_all, encodings, lookup, put_all, reads, stores, Access};
use crate::query::decodable;
use crate::record::Record;

verus! {

/// Every table of an environment, by name.
pub type Tables = Map<Seq<char>, Map<Seq<u8>, Seq<u8>>>;

/// The tables after transaction `a`: its table holds what `a` left.
pub open spec fn apply(tables: Tables, a: Access) -> Tables {
    tables.insert(a.table, a.after)
}

/// The tables after the transactions of `h`, run one after another.
pub open spec fn replay(tables: Tables, h: Seq<Access>) -> Tables
    decreases h.len(),
{
    if h.len() == 0 {
        tables
    } else {
        apply(replay(tables, h.drop_last()), h.last())
    }
}

/// The tables after the table `name` is dropped.
pub open spec fn drop_table(tables: Tables, name: Seq<char>) -> Tables {
    tables.remove(name)
}

/// A save replaces what its key held: a read that sees what the save left
/// finds the saved record, whatever was stored under that key before.
pub proof fn lemma_upsert<T: Record>(saved: Access, read: Access, record: T)
    requires
        stores(saved, seq![record]),
        reads::<T>(read),
        read.before == saved.after,
    ensures
        lookup::<T>(read.before, record.record_key()) == Some(record),
{
    let values = encodings(seq![record]);
    assert(seq![record].drop_last() =~= Seq::<T>::empty());
    assert(T::decoded(values[0]) == Some(seq![record][0]));
}

proof fn lemma_put_all_last<T: Record>(m: Map<Seq<u8>, Seq<u8>>, records: Seq<T>, values: Seq<Seq<u8>>, i: int)
    requires
        encodes_all(records, values),
        0 <= i < records.len(),
        forall|j: int| i < j < records.len() ==> #[trigger] records[j].record_key() != records[i].record_key(),
    ensures
        put_all(m, records, values).contains_key(records[i].record_key()),
        T::decoded(put_all(m, records, values)[records[i].record_key()]) == Some(records[i]),
    decreases records.len(),
{
    let n = records.len() - 1;
    if i < n {
        assert(records.drop_last()[i] == records[i]);
        assert forall|j: int| i < j < records.drop_last().len() implies #[trigger] records.drop_last()[j].record_key()
            != records.drop_last()[i].record_key() by {
            assert(records.drop_last()[j] == records[j]);
        }
        assert forall|j: int| 0 <= j < records.drop_last().len() implies T::decoded(#[trigger] values.drop_last()[j])
            == Some(records.drop_last()[j]) by {
            assert(values.drop_last()[j] == values[j]);
        }
        lemma_put_all_last(m, records.drop_last(), values.drop_last(), i);
        assert(records.last() == records[n]);
    } else {
        assert(T::decoded(values[n]) == Some(records[n]));
    }
}

/// A batch puts its records in order: each record that no later record of
/// the batch shares a key with is found under its key after the batch.
pub proof fn lemma_batch_visible<T: Record>(saved: Access, records: Seq<T>, i: int)
    requires
        stores(saved, records),
        0 <= i < records.len(),
        forall|j: int| i < j < records.len() ==> #[trigger] records[j].record_key() != records[i].record_key(),
    ensures
        lookup::<T>(saved.after, records[i].record_key()) == Some(records[i]),
{
    lemma_put_all_last(saved.before, records, encodings(records), i);
}

/// A read that sees what a delete left finds nothing under the deleted key.
pub proof fn lemma_deleted<T: Record>(deleted: Access, read: Access, key: Seq<u8>)
    requires
        deletes::<T>(deleted, key),
        reads::<T>(read),
        read.before == deleted.after,
    ensures
        lookup::<T>(read.before, key) is None,
{
}

/// A read that sees what a truncate left finds nothing under any key.
pub proof fn lemma_truncated<T: Record>(cleared: Access, read: Access, key: Seq<u8>)
    requires
        clears::<T>(cleared),
        reads::<T>(read),
        read.before == cleared.after,
    ensures
        lookup::<T>(read.before, key) is None,
{
}

/// Tables are separate: transactions on the table of `T` leave the table of
/// a type `U` with another table name as it was, even where the two types'
/// keys have the same bytes; and dropping the table of `T` leaves it too.
pub proof fn lemma_tables_isolated<T: Record, U: Record>(tables: Tables, h: Seq<Access>)
    requires
        T::table_name() != U::table_name(),
        forall|i: int| 0 <= i < h.len() ==> (#[trigger] h[i]).table == T::table_name(),
    ensures
        replay(tables, h).contains_key(U::table_name()) == tables.contains_key(U::table_name()),
        replay(tables, h)[U::table_name()] == tables[U::table_name()],
        drop_table(replay(tables, h), T::table_name()).contains_key(U::table_name())
            == tables.contains_key(U::table_name()),
        drop_table(replay(tables, h), T::table_name())[U::table_name()] == tables[U::table_name()],
    decreases h.len(),
{
    if h.len() > 0 {
        assert forall|i: int| 0 <= i < h.drop_last().len() implies (#[trigger] h.drop_last()[i]).table
            == T::table_name() by {
            assert(h.drop_last()[i] == h[i]);
        }
        lemma_tables_isolated::<T, U>(tables, h.drop_last());
        assert(h.last() == h[h.len() - 1]);
    }
}

/// Where every value of a table decodes, a walk from the start reads as many
/// records as the table has keys: the count that `RoQuery::read_all` returns.
pub proof fn lemma_walk_counts_every_record<T: Record>(m: Map<Seq<u8>, Seq<u8>>)
    requires
        forall|k: Seq<u8>| #[trigger] m.contains_key(k) ==> T::decoded(m[k]) is Some,
    ensures
        decodable::<T>(m, m.dom()) == m.dom(),
{
    assert(decodable::<T>(m, m.dom()) =~= m.dom());
}

/// A history in which each transaction on a table sees what the previous
/// transaction on that table left: what the environment gives where this
/// storage is its only writer.
pub open spec fn serial(h: Seq<Access>) -> bool {
    forall|i: int, j: int|
        #![trigger h[i], h[j]]
        0 <= i < j < h.len() && h[i].table == h[j].table
            && (forall|k: int| i < k < j ==> (#[trigger] h[k]).table != h[i].table)
            ==> h[j].before == h[i].after
}

/// In a serial history, a get on a table after a save there, with no
/// transaction on that table between them, finds the saved record under its
/// key, whatever the key held before, and whatever other tables, even ones
/// whose keys have the same bytes, saw meanwhile.
pub proof fn lemma_get_after_save<T: Record>(h: Seq<Access>, i: int, j: int, record: T)
    requires
        serial(h),
        0 <= i < j < h.len(),
        stores(h[i], seq![record]),
        reads::<T>(h[j]),
        forall|k: int| i < k < j ==> (#[trigger] h[k]).table != T::table_name(),
    ensures
        lookup::<T>(h[j].before, record.record_key()) == Some(record),
{
    assert(h[j].before == h[i].after);
    lemma_upsert(h[i], h[j], record);
}

} // verus!
