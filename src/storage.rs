use vstd::prelude::*;

use crate::cache::TableCache;
use crate::engine::{self, env_dir, env_map_size, env_max_dbs, ro_table, rw_table, table_of};
use crate::key::{key_lt, KeyBytes};
use crate::model::{all_encode, clears, deletes, encodes_all, encodings, keeps_or_opens, lookup, put_all, reads, stores, Access};
use crate::query::RoQuery;
use crate::record::Record;

verus! {

/// std's `io::Error`: why the storage directory could not be made or reached.
#[verifier::external_type_specification]
#[verifier::external_body]
pub struct ExIoError(std::io::Error);

/// How many named tables one environment may hold.
pub const MAX_DBS: u32 = 2048;

/// The size of the environment's memory map, the ceiling on what it holds.
pub const MAP_SIZE: usize = 256 * 1024 * 1024;

/// Why a storage operation failed.
#[allow(inconsistent_fields)]
#[derive(Debug)]
pub enum StorageError {
    /// The storage directory could not be made or reached.
    FileError { source: std::io::Error },
    /// The engine refused an operation.
    DBError { source: lmdb::Error },
    /// A record could not be encoded; nothing of the operation was kept.
    EncodeError { source: bincode::Error },
}

impl StorageError {
    /// A sentence that says what went wrong.
    pub fn message(&self) -> (r: &'static str)
        ensures
            self is FileError ==> r@ == "could not access database directory"@,
            self is DBError ==> r@ == "could not process database command"@,
            self is EncodeError ==> r@ == "could not encode record"@,
    {
        match self {
            StorageError::FileError { .. } => "could not access database directory",
            StorageError::DBError { .. } => "could not process database command",
            StorageError::EncodeError { .. } => "could not encode record",
        }
    }
}

fn db_error(e: lmdb::Error) -> (r: StorageError)
    ensures
        r == (StorageError::DBError { source: e }),
{
    StorageError::DBError { source: e }
}

/// Storage provides a simple interface for interacting with databases
pub struct Storage {
    env: lmdb::Environment,
    path: String,
    dbs: TableCache,
    history: Ghost<Seq<Access>>,
}

impl Storage {
    pub closed spec fn wf(&self) -> bool {
        &&& self.dbs.wf()
        &&& forall|n: Seq<char>| #[trigger] self.dbs@.contains_key(n) ==> table_of(self.dbs@[n]) == n
    }

    /// The table limit the environment was opened with.
    pub closed spec fn max_dbs(&self) -> Option<u32> {
        env_max_dbs(self.env)
    }

    /// The memory map size the environment was opened with.
    pub closed spec fn map_size(&self) -> Option<usize> {
        env_map_size(self.env)
    }

    /// The directory the environment was opened in.
    pub closed spec fn dir(&self) -> Seq<char> {
        env_dir(self.env)
    }

    /// The table handles opened so far, by table name.
    pub closed spec fn tables(&self) -> Map<Seq<char>, lmdb::Database> {
        self.dbs@
    }

    /// The transactions that this storage's operations ran and saw through,
    /// oldest first.
    pub closed spec fn history(&self) -> Seq<Access> {
        self.history@
    }

    pub closed spec fn spec_path(&self) -> Seq<char> {
        self.path@
    }

    /// Opens storage in the existing directory `path`, with room for
    /// `MAX_DBS` tables and `MAP_SIZE` bytes.
    pub fn new(path: &str) -> (r: Result<Storage, StorageError>)
        ensures
            match r {
                Ok(s) => s.wf() && s.tables().is_empty() && s.history() == Seq::<Access>::empty()
                    && s.spec_path() == path@ && s.dir() == path@ && s.max_dbs() == Some(MAX_DBS)
                    && s.map_size() == Some(MAP_SIZE),
                Err(e) => e is DBError,
            },
    {
        let mut builder = engine::env_builder();
        engine::set_max_dbs(&mut builder, MAX_DBS);
        engine::set_map_size(&mut builder, MAP_SIZE);
        match engine::open_env(&builder, path) {
            Ok(env) => {
                let dbs = TableCache::new();
                proof {
                    assert(dbs@.dom() =~= Set::<Seq<char>>::empty());
                }
                Ok(Storage { env, path: path.to_owned(), dbs, history: Ghost(Seq::empty()) })
            },
            Err(e) => Err(db_error(e)),
        }
    }

    /// The directory the storage lives in.
    pub fn path(&self) -> (r: &str)
        ensures
            r@ == self.spec_path(),
    {
        self.path.as_str()
    }

    /// The engine environment the tables live in.
    pub fn env(&self) -> &lmdb::Environment {
        &self.env
    }

    /// How many table handles are open.
    pub fn open_tables(&self) -> (r: usize)
        requires
            self.wf(),
        ensures
            r == self.tables().len(),
    {
        self.dbs.len()
    }

    /// The handle of table `db_name`: the one opened before if there is one,
    /// else one the engine opens, or creates, now.
    pub fn db(&mut self, db_name: &'static str) -> (r: Result<lmdb::Database, StorageError>)
        requires
            old(self).wf(),
            !db_name@.contains('\0'),
        ensures
            final(self).wf(),
            r is Ok ==> table_of(r->Ok_0) == db_name@,
            r is Ok ==> final(self).tables().contains_key(db_name@),
            final(self).history() == old(self).history(),
            final(self).spec_path() == old(self).spec_path(),
            old(self).tables().contains_key(db_name@) ==> r is Ok && r->Ok_0 == old(self).tables()[db_name@]
                && final(self).tables() == old(self).tables(),
            !old(self).tables().contains_key(db_name@) ==> match r {
                Ok(d) => final(self).tables() == old(self).tables().insert(db_name@, d),
                Err(e) => final(self).tables() == old(self).tables() && e is DBError,
            },
    {
        let name = db_name.to_owned();
        match self.dbs.lookup(&name) {
            Some(db) => Ok(db),
            None => {
                match engine::create_table(&self.env, db_name) {
                    Ok(db) => {
                        self.dbs.insert(name, db);
                        assert(self.dbs@ == old(self).dbs@.insert(db_name@, db));
                        Ok(db)
                    },
                    Err(e) => Err(db_error(e)),
                }
            },
        }
    }

    /// Forgets the handle of table `db_name`; the next operation on it opens
    /// it anew.
    pub fn forget(&mut self, db_name: &'static str)
        requires
            old(self).wf(),
        ensures
            final(self).wf(),
            final(self).tables() == old(self).tables().remove(db_name@),
            final(self).history() == old(self).history(),
            final(self).spec_path() == old(self).spec_path(),
    {
        let name = db_name.to_owned();
        self.dbs.remove(&name);
    }

    /// Serializes and saves a record in its table, replacing what its key
    /// held, in one transaction.
    pub fn save<T: Record>(&mut self, record: &T) -> (r: Result<(), StorageError>)
        requires
            old(self).wf(),
        ensures
            final(self).wf(),
            final(self).spec_path() == old(self).spec_path(),
            keeps_or_opens(old(self).tables(), final(self).tables(), T::table_name()),
            r is Ok ==> final(self).tables().contains_key(T::table_name()),
            match r {
                Ok(()) => final(self).history().drop_last() == old(self).history()
                    && final(self).history().len() == old(self).history().len() + 1
                    && stores(final(self).history().last(), seq![*record]),
                Err(e) => final(self).history() == old(self).history() && (e is DBError || e is EncodeError),
            },
            r is Err && r->Err_0 is EncodeError ==> record.encoded() is None,
            record.encoded() is None ==> r is Err,
    {
        let db = self.db(T::db_name())?;
        let mut txn = match engine::begin_rw(&self.env) {
            Ok(t) => t,
            Err(e) => return Err(db_error(e)),
        };
        let ghost before = rw_table(txn, db);
        let bytes = match record.to_binary() {
            Ok(b) => b,
            Err(e) => return Err(StorageError::EncodeError { source: e }),
        };
        let key = record.key().to_key_bytes();
        if let Err(e) = engine::put(&mut txn, db, key.as_slice(), bytes.as_slice()) {
            return Err(db_error(e));
        }
        let ghost after = rw_table(txn, db);
        if let Err(e) = engine::commit(txn) {
            return Err(db_error(e));
        }
        proof {
            let a = Access { table: T::table_name(), db, before, after };
            let records = seq![*record];
            assert(records.drop_last() =~= Seq::<T>::empty());
            assert(encodings(records).drop_last() =~= Seq::<Seq<u8>>::empty());
            assert(encodings(records)[0] == bytes@);
            assert(put_all(a.before, records.drop_last(), encodings(records).drop_last()) == a.before);
            assert(records.last() == *record);
            assert(a.after == put_all(a.before, records, encodings(records)));
            self.history@ = self.history@.push(a);
            assert(self.history@.drop_last() =~= old(self).history@);
        }
        Ok(())
    }

    /// Saves a group of records to their table in one transaction: all of
    /// them, in order, or none.
    pub fn save_batch<T: Record>(&mut self, records: Vec<T>) -> (r: Result<(), StorageError>)
        requires
            old(self).wf(),
        ensures
            final(self).wf(),
            final(self).spec_path() == old(self).spec_path(),
            keeps_or_opens(old(self).tables(), final(self).tables(), T::table_name()),
            r is Ok ==> final(self).tables().contains_key(T::table_name()),
            match r {
                Ok(()) => final(self).history().drop_last() == old(self).history()
                    && final(self).history().len() == old(self).history().len() + 1
                    && stores(final(self).history().last(), records@),
                Err(e) => final(self).history() == old(self).history() && (e is DBError || e is EncodeError),
            },
            r is Err && r->Err_0 is EncodeError ==> !all_encode(records@),
            !all_encode(records@) ==> r is Err,
    {
        let db = self.db(T::db_name())?;
        let mut txn = match engine::begin_rw(&self.env) {
            Ok(t) => t,
            Err(e) => return Err(db_error(e)),
        };
        let ghost before = rw_table(txn, db);
        let mut i: usize = 0;
        while i < records.len()
            invariant
                self.wf(),
                self.spec_path() == old(self).spec_path(),
                self.history() == old(self).history(),
                keeps_or_opens(old(self).tables(), self.tables(), T::table_name()),
                self.tables().contains_key(T::table_name()),
                i <= records@.len(),
                all_encode(records@.take(i as int)),
                encodes_all(records@.take(i as int), encodings(records@.take(i as int))),
                rw_table(txn, db) == put_all(before, records@.take(i as int), encodings(records@.take(i as int))),
            decreases records@.len() - i,
        {
            let bytes = match records[i].to_binary() {
                Ok(b) => b,
                Err(e) => {
                    assert(records@[i as int].encoded() is None);
                    assert(!all_encode(records@));
                    return Err(StorageError::EncodeError { source: e });
                },
            };
            let key = records[i].key().to_key_bytes();
            if let Err(e) = engine::put(&mut txn, db, key.as_slice(), bytes.as_slice()) {
                return Err(db_error(e));
            }
            proof {
                let done = records@.take(i as int);
                let next = records@.take(i + 1);
                assert(next.drop_last() =~= done);
                assert(encodings(next).drop_last() =~= encodings(done));
                assert(next.last() == records@[i as int]);
                assert(encodings(next).last() == bytes@);
                assert forall|j: int| 0 <= j < next.len() implies T::decoded(#[trigger] encodings(next)[j]) == Some(next[j]) by {
                    if j < i {
                        assert(encodings(next)[j] == encodings(done)[j]);
                        assert(next[j] == done[j]);
                    }
                }
                assert forall|j: int| 0 <= j < next.len() implies (#[trigger] next[j]).encoded() is Some by {
                    if j < i {
                        assert(next[j] == done[j]);
                    }
                }
            }
            i = i + 1;
        }
        let ghost after = rw_table(txn, db);
        if let Err(e) = engine::commit(txn) {
            return Err(db_error(e));
        }
        proof {
            assert(records@.take(records@.len() as int) =~= records@);
            let a = Access { table: T::table_name(), db, before, after };
            self.history@ = self.history@.push(a);
            assert(self.history@.drop_last() =~= old(self).history@);
        }
        Ok(())
    }

    /// Retrieves the record stored under `key`: `None` where the key is not
    /// there, or its value does not decode.
    pub fn get<T: Record>(&mut self, key: T::Key) -> (r: Result<Option<T>, StorageError>)
        requires
            old(self).wf(),
        ensures
            final(self).wf(),
            final(self).spec_path() == old(self).spec_path(),
            keeps_or_opens(old(self).tables(), final(self).tables(), T::table_name()),
            r is Ok ==> final(self).tables().contains_key(T::table_name()),
            match r {
                Ok(found) => final(self).history().drop_last() == old(self).history()
                    && final(self).history().len() == old(self).history().len() + 1
                    && reads::<T>(final(self).history().last())
                    && found == lookup::<T>(final(self).history().last().before, key.key_bytes()),
                Err(e) => final(self).history() == old(self).history() && e is DBError,
            },
    {
        let db = self.db(T::db_name())?;
        let txn = match engine::begin_ro(&self.env) {
            Ok(t) => t,
            Err(e) => return Err(db_error(e)),
        };
        let k = key.to_key_bytes();
        let found = match read_outcome::<T>(engine::get(&txn, db, k.as_slice())) {
            Ok(f) => f,
            Err(e) => return Err(db_error(e)),
        };
        proof {
            let m = ro_table(txn, db);
            self.history@ = self.history@.push(Access { table: T::table_name(), db, before: m, after: m });
            assert(self.history@.drop_last() =~= old(self).history@);
        }
        Ok(found)
    }

    /// Deletes the record's key from its table.  A key that is not there is
    /// the engine's `NotFound`.
    pub fn delete<T: Record>(&mut self, record: &T) -> (r: Result<(), StorageError>)
        requires
            old(self).wf(),
        ensures
            final(self).wf(),
            final(self).spec_path() == old(self).spec_path(),
            keeps_or_opens(old(self).tables(), final(self).tables(), T::table_name()),
            r is Ok ==> final(self).tables().contains_key(T::table_name()),
            match r {
                Ok(()) => final(self).history().drop_last() == old(self).history()
                    && final(self).history().len() == old(self).history().len() + 1
                    && deletes::<T>(final(self).history().last(), record.record_key()),
                Err(e) => final(self).history() == old(self).history() && e is DBError,
            },
    {
        let db = self.db(T::db_name())?;
        let mut txn = match engine::begin_rw(&self.env) {
            Ok(t) => t,
            Err(e) => return Err(db_error(e)),
        };
        let ghost before = rw_table(txn, db);
        let key = record.key().to_key_bytes();
        if let Err(e) = engine::del(&mut txn, db, key.as_slice()) {
            return Err(db_error(e));
        }
        let ghost after = rw_table(txn, db);
        if let Err(e) = engine::commit(txn) {
            return Err(db_error(e));
        }
        proof {
            self.history@ = self.history@.push(Access { table: T::table_name(), db, before, after });
            assert(self.history@.drop_last() =~= old(self).history@);
        }
        Ok(())
    }

    /// Removes all records in the table of `T`; its handle stays open.
    pub fn truncate<T: Record>(&mut self) -> (r: Result<(), StorageError>)
        requires
            old(self).wf(),
        ensures
            final(self).wf(),
            final(self).spec_path() == old(self).spec_path(),
            keeps_or_opens(old(self).tables(), final(self).tables(), T::table_name()),
            r is Ok ==> final(self).tables().contains_key(T::table_name()),
            match r {
                Ok(()) => final(self).history().drop_last() == old(self).history()
                    && final(self).history().len() == old(self).history().len() + 1
                    && clears::<T>(final(self).history().last()),
                Err(e) => final(self).history() == old(self).history() && e is DBError,
            },
    {
        let db = self.db(T::db_name())?;
        let mut txn = match engine::begin_rw(&self.env) {
            Ok(t) => t,
            Err(e) => return Err(db_error(e)),
        };
        let ghost before = rw_table(txn, db);
        if let Err(e) = engine::clear(&mut txn, db) {
            return Err(db_error(e));
        }
        let ghost after = rw_table(txn, db);
        if let Err(e) = engine::commit(txn) {
            return Err(db_error(e));
        }
        proof {
            self.history@ = self.history@.push(Access { table: T::table_name(), db, before, after });
            assert(self.history@.drop_last() =~= old(self).history@);
        }
        Ok(())
    }

    /// A walk over every record of the table of `T`, in key order, in a
    /// read-only transaction that lives as long as the walk.
    pub fn query<T: Record>(&mut self) -> (r: Result<RoQuery<'_, T>, StorageError>)
        requires
            old(self).wf(),
        ensures
            final(self).wf(),
            final(self).spec_path() == old(self).spec_path(),
            keeps_or_opens(old(self).tables(), final(self).tables(), T::table_name()),
            r is Ok ==> final(self).tables().contains_key(T::table_name()),
            match r {
                Ok(q) => final(self).history().drop_last() == old(self).history()
                    && final(self).history().len() == old(self).history().len() + 1
                    && reads::<T>(final(self).history().last())
                    && q.wf() && !q.done()
                    && q.snapshot() == final(self).history().last().before
                    && q.remaining() == q.snapshot().dom(),
                Err(e) => final(self).history() == old(self).history() && e is DBError,
            },
    {
        let db = self.db(T::db_name())?;
        let txn = match engine::begin_ro(&self.env) {
            Ok(t) => t,
            Err(e) => return Err(db_error(e)),
        };
        proof {
            let m = ro_table(txn, db);
            self.history@ = self.history@.push(Access { table: T::table_name(), db, before: m, after: m });
            assert(self.history@.drop_last() =~= old(self).history@);
        }
        Ok(RoQuery::new(db, txn))
    }

    #[verifier::loop_isolation(false)]
    /// The first record, in key order, of the table of `T` that `p` holds of;
    /// records whose value does not decode are passed over.
    pub fn find<T: Record, F: Fn(&T) -> bool>(&mut self, p: F) -> (r: Result<Option<T>, StorageError>)
        requires
            old(self).wf(),
            forall|x: &T| #[trigger] p.requires((x,)),
        ensures
            final(self).wf(),
            final(self).spec_path() == old(self).spec_path(),
            keeps_or_opens(old(self).tables(), final(self).tables(), T::table_name()),
            r is Ok ==> final(self).tables().contains_key(T::table_name()),
            match r {
                Ok(found) => final(self).history().drop_last() == old(self).history()
                    && final(self).history().len() == old(self).history().len() + 1
                    && reads::<T>(final(self).history().last())
                    && finds(final(self).history().last().before, p, found),
                Err(e) => e is DBError && (final(self).history() == old(self).history() || (
                    final(self).history().drop_last() == old(self).history()
                    && final(self).history().len() == old(self).history().len() + 1
                    && reads::<T>(final(self).history().last()))),
            },
    {
        let mut q = self.query::<T>()?;
        let ghost m = q.snapshot();
        proof {
            q.lemma_remaining_finite();
        }
        while !q.is_done()
            invariant
                q.wf(),
                q.snapshot() == m,
                forall|x: &T| #[trigger] p.requires((x,)),
                !q.failed() ==> forall|j: Seq<u8>| m.contains_key(j) && !q.remaining().contains(j) && #[trigger] T::decoded(m[j]) is Some
                    ==> call_ensures(p, (&T::decoded(m[j])->Some_0,), false),
            decreases q.remaining().len() + (if q.done() { 0int } else { 1int }),
        {
            proof {
                q.lemma_remaining_finite();
            }
            let ghost rem = q.remaining();
            let next = q.next();
            proof {
                q.lemma_remaining_finite();
            }
            if let Some(x) = next {
                let ghost k = choose|k: Seq<u8>| #[trigger] rem.contains(k)
                    && (forall|j: Seq<u8>| rem.contains(j) ==> !key_lt(j, k))
                    && q.remaining() == rem.remove(k)
                    && !q.done()
                    && next == T::decoded(m[k]);
                if p(&x) {
                    proof {
                        assert(m.contains_key(k));
                        assert forall|j: Seq<u8>| m.contains_key(j) && key_lt(j, k) && #[trigger] T::decoded(m[j]) is Some
                            implies call_ensures(p, (&T::decoded(m[j])->Some_0,), false) by {
                            assert(!rem.contains(j));
                        }
                    }
                    return Ok(Some(x));
                }
            }
            proof {
                if !q.failed() {
                    assert forall|j: Seq<u8>| m.contains_key(j) && !q.remaining().contains(j) && #[trigger] T::decoded(m[j]) is Some
                        implies call_ensures(p, (&T::decoded(m[j])->Some_0,), false) by {
                        if rem.contains(j) {
                            assert(!q.done());
                        }
                    }
                }
            }
        }
        match q.error() {
            Some(e) => Err(db_error(e)),
            None => {
                proof {
                    assert forall|j: Seq<u8>| m.contains_key(j) && #[trigger] T::decoded(m[j]) is Some
                        implies call_ensures(p, (&T::decoded(m[j])->Some_0,), false) by {
                        q.lemma_remaining_finite();
                        assert(!q.remaining().contains(j));
                    }
                }
                Ok(None)
            },
        }
    }
}

/// What a lookup of one key gives: the record its value decodes to (`None`
/// where it does not decode), `None` where the engine answers `NotFound`, and
/// the engine's failure otherwise.
pub fn read_outcome<T: Record>(value: Result<Vec<u8>, lmdb::Error>) -> (r: Result<Option<T>, lmdb::Error>)
    ensures
        match value {
            Ok(v) => r == Ok::<Option<T>, lmdb::Error>(T::decoded(v@)),
            Err(e) => if e == lmdb::Error::NotFound {
                r == Ok::<Option<T>, lmdb::Error>(None)
            } else {
                r == Err::<Option<T>, lmdb::Error>(e)
            },
        },
{
    match value {
        Ok(v) => match T::from_binary(v.as_slice()) {
            Ok(record) => Ok(Some(record)),
            Err(_) => Ok(None),
        },
        Err(lmdb::Error::NotFound) => Ok(None),
        Err(e) => Err(e),
    }
}

/// `found` is what a search by `p` through table contents `m`, in key order,
/// may return: the first decodable record that `p` holds of, or `None` where
/// `p` holds of none.
pub open spec fn finds<T: Record, F: Fn(&T) -> bool>(m: Map<Seq<u8>, Seq<u8>>, p: F, found: Option<T>) -> bool {
    match found {
        Some(x) => exists|k: Seq<u8>|
            #[trigger] m.contains_key(k) && T::decoded(m[k]) == Some(x) && call_ensures(p, (&x,), true)
                && forall|j: Seq<u8>| m.contains_key(j) && key_lt(j, k) && #[trigger] T::decoded(m[j]) is Some
                    ==> call_ensures(p, (&T::decoded(m[j])->Some_0,), false),
        None => forall|j: Seq<u8>| m.contains_key(j) && #[trigger] T::decoded(m[j]) is Some
            ==> call_ensures(p, (&T::decoded(m[j])->Some_0,), false),
    }
}

} // verus!
