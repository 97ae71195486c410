//! The embedded engine as this library sees it: its handle types, a name for
//! what a transaction sees in a table, and one wrapper per engine call.
use lmdb::{Cursor, Transaction};
use vstd::prelude::*;

use crate::key::key_lt;

verus! {

/// lmdb's `Environment`: an open environment, a directory of tables.
#[verifier::external_type_specification]
#[verifier::external_body]
pub struct ExEnvironment(lmdb::Environment);

/// lmdb's `EnvironmentBuilder`: the settings an environment is opened with.
#[verifier::external_type_specification]
#[verifier::external_body]
pub struct ExEnvironmentBuilder(lmdb::EnvironmentBuilder);

/// lmdb's `Database`: the handle of one named table.
#[verifier::external_type_specification]
#[verifier::external_body]
pub struct ExDatabase(lmdb::Database);

/// lmdb's `RwTransaction`: a read-write transaction; dropped uncommitted, it
/// is aborted.
#[verifier::external_type_specification]
#[verifier::external_body]
pub struct ExRwTransaction<'env>(lmdb::RwTransaction<'env>);

/// lmdb's `RoTransaction`: a read-only transaction, which sees the tables as
/// they were when it began.
#[verifier::external_type_specification]
#[verifier::external_body]
pub struct ExRoTransaction<'env>(lmdb::RoTransaction<'env>);

/// lmdb's `RoCursor`: a read-only cursor over one table of a transaction.
#[verifier::external_type_specification]
#[verifier::external_body]
pub struct ExRoCursor<'txn>(lmdb::RoCursor<'txn>);

/// lmdb's `Error`: the engine's failure kinds, `NotFound` among them.
#[verifier::external_type_specification]
pub struct ExLmdbError(lmdb::Error);

/// The table limit a builder was given, if it was given one.
pub uninterp spec fn builder_max_dbs(builder: lmdb::EnvironmentBuilder) -> Option<u32>;

/// The memory map size a builder was given, if it was given one.
pub uninterp spec fn builder_map_size(builder: lmdb::EnvironmentBuilder) -> Option<usize>;

/// The table limit an environment was opened with, if it was given one.
pub uninterp spec fn env_max_dbs(env: lmdb::Environment) -> Option<u32>;

/// The memory map size an environment was opened with, if it was given one.
pub uninterp spec fn env_map_size(env: lmdb::Environment) -> Option<usize>;

/// The directory an environment was opened in.
pub uninterp spec fn env_dir(env: lmdb::Environment) -> Seq<char>;

/// The name of the table that a handle denotes.
pub uninterp spec fn table_of(db: lmdb::Database) -> Seq<char>;

/// What a read-write transaction sees in a table: key bytes to value bytes.
pub uninterp spec fn rw_table(txn: lmdb::RwTransaction<'_>, db: lmdb::Database) -> Map<Seq<u8>, Seq<u8>>;

/// What a read-only transaction sees in a table; it is fixed for the
/// transaction's life.
pub uninterp spec fn ro_table(txn: lmdb::RoTransaction<'_>, db: lmdb::Database) -> Map<Seq<u8>, Seq<u8>>;

/// The table that a cursor walks.
pub uninterp spec fn cursor_table(cursor: lmdb::RoCursor<'_>) -> Map<Seq<u8>, Seq<u8>>;

/// `k` is the least key of `m` that does not come before `lo`.
pub open spec fn least_from(m: Map<Seq<u8>, Seq<u8>>, lo: Seq<u8>, k: Seq<u8>) -> bool {
    &&& m.contains_key(k)
    &&& !key_lt(k, lo)
    &&& forall|j: Seq<u8>| #[trigger] m.contains_key(j) && !key_lt(j, lo) ==> !key_lt(j, k)
}

/// What a cursor that seeks the least key not before `lo` in `m` may return:
/// that entry, or `NotFound` where there is none, or another failure.
pub open spec fn seek_result(
    m: Map<Seq<u8>, Seq<u8>>,
    lo: Seq<u8>,
    r: Result<(Option<Vec<u8>>, Vec<u8>), lmdb::Error>,
) -> bool {
    match r {
        Ok((Some(k), v)) => least_from(m, lo, k@) && m[k@] == v@,
        Ok((None, _)) => false,
        Err(e) => e == lmdb::Error::NotFound ==> none_from(m, lo),
    }
}

/// A table with no entries.
pub open spec fn empty_table() -> Map<Seq<u8>, Seq<u8>> {
    Map::empty()
}

/// Every key of `m` comes before `lo`.
pub open spec fn none_from(m: Map<Seq<u8>, Seq<u8>>, lo: Seq<u8>) -> bool {
    forall|j: Seq<u8>| #[trigger] m.contains_key(j) ==> key_lt(j, lo)
}

/// The cursor operation that goes to the first entry of a table.
pub const OP_FIRST: u32 = 0;

/// The cursor operation that goes to the least key not before a given key.
pub const OP_SET_RANGE: u32 = 17;

/// Relies on lmdb's `Environment::new`: a builder with no settings made.
#[verifier::external_body]
pub(crate) fn env_builder() -> (r: lmdb::EnvironmentBuilder)
    ensures
        builder_max_dbs(r) is None,
        builder_map_size(r) is None,
{
    lmdb::Environment::new()
}

/// Relies on lmdb's `EnvironmentBuilder::set_max_dbs`: sets how many named
/// tables the environment may hold.
#[verifier::external_body]
pub(crate) fn set_max_dbs(builder: &mut lmdb::EnvironmentBuilder, n: u32)
    ensures
        builder_max_dbs(*final(builder)) == Some(n),
        builder_map_size(*final(builder)) == builder_map_size(*old(builder)),
{
    builder.set_max_dbs(n);
}

/// Relies on lmdb's `EnvironmentBuilder::set_map_size`: sets the size of the
/// memory map, the ceiling on what the environment holds.
#[verifier::external_body]
pub(crate) fn set_map_size(builder: &mut lmdb::EnvironmentBuilder, size: usize)
    ensures
        builder_map_size(*final(builder)) == Some(size),
        builder_max_dbs(*final(builder)) == builder_max_dbs(*old(builder)),
{
    builder.set_map_size(size);
}

/// Relies on lmdb's `EnvironmentBuilder::open`: opens or creates the
/// environment in the directory `path`, with the builder's settings.
#[verifier::external_body]
pub(crate) fn open_env(builder: &lmdb::EnvironmentBuilder, path: &str) -> (r: Result<lmdb::Environment, lmdb::Error>)
    ensures
        r is Ok ==> env_max_dbs(r->Ok_0) == builder_max_dbs(*builder),
        r is Ok ==> env_map_size(r->Ok_0) == builder_map_size(*builder),
        r is Ok ==> env_dir(r->Ok_0) == path@,
{
    builder.open(std::path::Path::new(path))
}

/// Relies on lmdb's `Environment::create_db`: opens the named table,
/// creating it when it does not exist.  A name holding a NUL character makes
/// it panic.
#[verifier::external_body]
pub(crate) fn create_table(env: &lmdb::Environment, name: &str) -> (r: Result<lmdb::Database, lmdb::Error>)
    requires
        !name@.contains('\0'),
    ensures
        r is Ok ==> table_of(r->Ok_0) == name@,
{
    env.create_db(Some(name), lmdb::DatabaseFlags::empty())
}

/// Relies on lmdb's `Environment::begin_rw_txn`.
#[verifier::external_body]
pub(crate) fn begin_rw<'env>(env: &'env lmdb::Environment) -> Result<lmdb::RwTransaction<'env>, lmdb::Error> {
    env.begin_rw_txn()
}

/// Relies on lmdb's `Environment::begin_ro_txn`; a table holds finitely many
/// entries.
#[verifier::external_body]
pub(crate) fn begin_ro<'env>(env: &'env lmdb::Environment) -> (r: Result<lmdb::RoTransaction<'env>, lmdb::Error>)
    ensures
        r is Ok ==> forall|db: lmdb::Database| #[trigger] ro_table(r->Ok_0, db).dom().finite(),
{
    env.begin_ro_txn()
}

/// Relies on lmdb's `RwTransaction::put` with no flags: the pair replaces
/// whatever the key held.
#[verifier::external_body]
pub(crate) fn put(txn: &mut lmdb::RwTransaction<'_>, db: lmdb::Database, key: &[u8], value: &[u8]) -> (r: Result<(), lmdb::Error>)
    ensures
        r is Ok ==> rw_table(*final(txn), db) == rw_table(*old(txn), db).insert(key@, value@),
{
    txn.put(db, &key, &value, lmdb::WriteFlags::empty())
}

/// Relies on lmdb's `RwTransaction::del`: removes the key, and fails with
/// `NotFound` where the table does not hold it.
#[verifier::external_body]
pub(crate) fn del(txn: &mut lmdb::RwTransaction<'_>, db: lmdb::Database, key: &[u8]) -> (r: Result<(), lmdb::Error>)
    ensures
        r is Ok ==> rw_table(*old(txn), db).contains_key(key@),
        r is Ok ==> rw_table(*final(txn), db) == rw_table(*old(txn), db).remove(key@),
        r is Err && r->Err_0 == lmdb::Error::NotFound ==> !rw_table(*old(txn), db).contains_key(key@),
{
    txn.del(db, &key, None)
}

/// Relies on lmdb's `RwTransaction::clear_db`: every entry of the table goes.
#[verifier::external_body]
pub(crate) fn clear(txn: &mut lmdb::RwTransaction<'_>, db: lmdb::Database) -> (r: Result<(), lmdb::Error>)
    ensures
        r is Ok ==> rw_table(*final(txn), db) == empty_table(),
{
    txn.clear_db(db)
}

/// Relies on lmdb's `Transaction::commit` for a read-write transaction.
#[verifier::external_body]
pub(crate) fn commit(txn: lmdb::RwTransaction<'_>) -> Result<(), lmdb::Error> {
    txn.commit()
}

/// Relies on lmdb's `Transaction::get`: the value at the key, or `NotFound`.
#[verifier::external_body]
pub(crate) fn get(txn: &lmdb::RoTransaction<'_>, db: lmdb::Database, key: &[u8]) -> (r: Result<Vec<u8>, lmdb::Error>)
    ensures
        r is Ok ==> ro_table(*txn, db).contains_key(key@) && ro_table(*txn, db)[key@] == r->Ok_0@,
        r is Err && r->Err_0 == lmdb::Error::NotFound ==> !ro_table(*txn, db).contains_key(key@),
{
    txn.get(db, &key).map(|v| v.to_vec())
}

/// Relies on lmdb's `Transaction::open_ro_cursor`: a cursor over what the
/// transaction sees in the table; the engine's cursor open never answers
/// `NotFound`.
#[verifier::external_body]
pub(crate) fn open_cursor<'txn>(txn: &'txn lmdb::RoTransaction<'_>, db: lmdb::Database) -> (r: Result<lmdb::RoCursor<'txn>, lmdb::Error>)
    ensures
        r is Ok ==> cursor_table(r->Ok_0) == ro_table(*txn, db),
        r is Err ==> r->Err_0 != lmdb::Error::NotFound,
{
    txn.open_ro_cursor(db)
}

/// Relies on lmdb's `Cursor::get`, in the engine's default key order: with
/// `OP_FIRST` the first entry, with `OP_SET_RANGE` the first whose key is not
/// before `key`; `NotFound` where there is none.
#[verifier::external_body]
pub(crate) fn cursor_get(cursor: &lmdb::RoCursor<'_>, key: Option<&[u8]>, op: u32) -> (r: Result<(Option<Vec<u8>>, Vec<u8>), lmdb::Error>)
    ensures
        op == OP_FIRST ==> seek_result(cursor_table(*cursor), Seq::empty(), r),
        op == OP_SET_RANGE && key is Some ==> seek_result(cursor_table(*cursor), key->Some_0@, r),
{
    cursor.get(key, None, op).map(|(k, v)| (k.map(|k| k.to_vec()), v.to_vec()))
}

} // verus!
