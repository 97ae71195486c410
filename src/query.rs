use std::marker::PhantomData;
use vstd::prelude::*;
use vstd::slice::slice_to_vec;

use crate::engine::{self, least_from, none_from, ro_table, seek_result, OP_FIRST, OP_SET_RANGE};
use crate::key::{key_lt, lemma_key_after, lemma_key_lt_irreflexive, lemma_key_lt_total, lemma_key_lt_transitive};
use crate::record::Record;

verus! {

/// Where a query stands in its table.
pub enum QueryState {
    /// No entry read yet.
    Unopened,
    /// The last entry read was at this key.
    Positioned(Vec<u8>),
    /// Every entry was read.
    Exhausted,
    /// The engine failed; nothing more is read.
    Failed(lmdb::Error),
}

/// A forward-only, single-pass walk over a table, in key order, within one
/// read-only transaction held for the walk's life.
pub struct RoQuery<'env, T> {
    db: lmdb::Database,
    txn: lmdb::RoTransaction<'env>,
    state: QueryState,
    phantom: PhantomData<T>,
}

impl<'env, T: Record> RoQuery<'env, T> {
    /// The table contents the walk reads: fixed for the walk's life.
    pub closed spec fn snapshot(&self) -> Map<Seq<u8>, Seq<u8>> {
        ro_table(self.txn, self.db)
    }

    /// The keys not read yet.
    pub closed spec fn remaining(&self) -> Set<Seq<u8>> {
        match self.state {
            QueryState::Unopened => self.snapshot().dom(),
            QueryState::Positioned(k) => self.snapshot().dom().filter(|j: Seq<u8>| key_lt(k@, j)),
            _ => Set::empty(),
        }
    }

    /// The walk reads nothing more.
    pub closed spec fn done(&self) -> bool {
        self.state is Exhausted || self.state is Failed
    }

    /// The walk ended on an engine failure.
    pub closed spec fn failed(&self) -> bool {
        self.state is Failed
    }

    /// The engine failure that ended the walk.
    pub closed spec fn failure(&self) -> lmdb::Error {
        self.state->Failed_0
    }

    pub closed spec fn wf(&self) -> bool {
        &&& self.snapshot().dom().finite()
        &&& self.state is Failed ==> self.state->Failed_0 != lmdb::Error::NotFound
    }

    /// The keys not read yet are finitely many keys of the table.
    pub proof fn lemma_remaining_finite(&self)
        requires
            self.wf(),
        ensures
            self.remaining().finite(),
            self.remaining().subset_of(self.snapshot().dom()),
            self.done() ==> self.remaining().is_empty(),
            self.failed() ==> self.done(),
    {
        vstd::set_lib::lemma_len_subset(self.remaining(), self.snapshot().dom());
    }

    /// A walk over table `db` in `txn`, before its first entry.
    pub fn new(db: lmdb::Database, txn: lmdb::RoTransaction<'env>) -> (r: RoQuery<'env, T>)
        requires
            ro_table(txn, db).dom().finite(),
        ensures
            r.wf(),
            r.snapshot() == ro_table(txn, db),
            r.remaining() == ro_table(txn, db).dom(),
            !r.done(),
    {
        RoQuery { db, txn, state: QueryState::Unopened, phantom: PhantomData }
    }

    /// Whether the walk reads nothing more.
    pub fn is_done(&self) -> (r: bool)
        ensures
            r == self.done(),
    {
        match self.state {
            QueryState::Exhausted | QueryState::Failed(_) => true,
            _ => false,
        }
    }

    /// The engine failure that ended the walk, if one did.
    pub fn error(&self) -> (r: Option<lmdb::Error>)
        ensures
            r is Some <==> self.failed(),
            r is Some ==> r->Some_0 == self.failure(),
    {
        match &self.state {
            QueryState::Failed(e) => Some(*e),
            _ => None,
        }
    }

    /// Reads the entry at the least key not read yet.  Its record, or `None`
    /// where its value does not decode; `None` once nothing is left.  The
    /// walk ends as failed only where the engine reports a failure other than
    /// `NotFound`.
    ///
    /// Each step opens a cursor and seeks the least key not before the last
    /// key read followed by a zero byte, which is the least key after it.
    pub fn next(&mut self) -> (r: Option<T>)
        requires
            old(self).wf(),
        ensures
            final(self).wf(),
            final(self).snapshot() == old(self).snapshot(),
            final(self).failed() ==> final(self).failure() != lmdb::Error::NotFound,
            old(self).done() ==> r is None && final(self).remaining() == old(self).remaining()
                && final(self).failed() == old(self).failed() && final(self).done(),
            !old(self).done() ==> {
                ||| final(self).failed() && final(self).done() && final(self).remaining().is_empty()
                    && r is None
                ||| !final(self).failed() && final(self).done() && old(self).remaining().is_empty()
                    && final(self).remaining().is_empty() && r is None
                ||| exists|k: Seq<u8>|
                    #[trigger] old(self).remaining().contains(k)
                        && (forall|j: Seq<u8>| old(self).remaining().contains(j) ==> !key_lt(j, k))
                        && final(self).remaining() == old(self).remaining().remove(k)
                        && !final(self).done()
                        && r == T::decoded(old(self).snapshot()[k])
            },
            !old(self).done() && !old(self).remaining().is_empty() && !final(self).failed()
                ==> r == T::decoded(old(self).snapshot()[least_key(old(self).remaining())])
                    && !final(self).done(),
            !old(self).done() && old(self).remaining().is_empty() && !final(self).failed()
                ==> r is None && final(self).done(),
    {
        let lo: Option<Vec<u8>> = match &self.state {
            QueryState::Exhausted => {
                return None;
            },
            QueryState::Failed(_) => {
                return None;
            },
            QueryState::Unopened => None,
            QueryState::Positioned(k) => {
                let mut s = slice_to_vec(k.as_slice());
                s.push(0u8);
                Some(s)
            },
        };
        let ghost m = self.snapshot();
        let ghost before = self.remaining();
        proof {
            self.lemma_remaining_finite();
        }
        let cursor = match engine::open_cursor(&self.txn, self.db) {
            Ok(c) => c,
            Err(e) => {
                self.state = QueryState::Failed(e);
                return None;
            },
        };
        let step = match &lo {
            None => engine::cursor_get(&cursor, None, OP_FIRST),
            Some(s) => engine::cursor_get(&cursor, Some(s.as_slice()), OP_SET_RANGE),
        };
        let ghost bound: Seq<u8> = match lo {
            None => Seq::empty(),
            Some(s) => s@,
        };
        let ghost found = step;
        proof {
            assert(seek_result(m, bound, step));
            // The keys not read yet are those not before the bound.
            assert forall|j: Seq<u8>| #[trigger] m.contains_key(j) implies (before.contains(j) <==> !key_lt(j, bound)) by {
                match old(self).state {
                    QueryState::Positioned(k) => {
                        assert(bound == k@.push(0));
                        lemma_key_after(k@, j);
                    },
                    _ => {},
                }
            }
        }
        let (state, item) = seek_outcome::<T>(step);
        self.state = state;
        proof {
            match found {
                Ok((Some(k), v)) => {
                    let kk = k@;
                    assert(least_from(m, bound, kk));
                    assert(before.contains(kk));
                    assert forall|j: Seq<u8>| before.contains(j) implies !key_lt(j, kk) by {
                        assert(m.contains_key(j));
                    }
                    assert forall|j: Seq<u8>| #[trigger] self.remaining().contains(j) <==> before.remove(kk).contains(j) by {
                        if self.remaining().contains(j) {
                            assert(key_lt(kk, j));
                            lemma_key_lt_irreflexive(kk);
                            if old(self).state is Positioned {
                                lemma_key_lt_transitive(old(self).state->Positioned_0@, kk, j);
                            }
                        }
                        if before.remove(kk).contains(j) {
                            assert(m.contains_key(j));
                            assert(!key_lt(j, kk));
                            lemma_key_lt_total(j, kk);
                        }
                    }
                    assert(self.remaining() =~= before.remove(kk));
                    lemma_least_key_unique(before, kk);
                },
                Ok((None, _)) => {},
                Err(e) => {
                    if e == lmdb::Error::NotFound {
                        assert(none_from(m, bound));
                        assert forall|j: Seq<u8>| !before.contains(j) by {
                            if before.contains(j) {
                                assert(m.contains_key(j));
                            }
                        }
                        assert(before =~= Set::<Seq<u8>>::empty());
                    }
                },
            }
        }
        item
    }

    /// Reads every entry not read yet, and returns, in key order, the records
    /// among them that decode.
    pub fn read_all(&mut self) -> (r: Vec<T>)
        requires
            old(self).wf(),
        ensures
            final(self).wf(),
            final(self).done(),
            final(self).snapshot() == old(self).snapshot(),
            !final(self).failed() ==> r@.len() == decodable::<T>(old(self).snapshot(), old(self).remaining()).len(),
    {
        let ghost m = self.snapshot();
        let ghost start = self.remaining();
        let mut out: Vec<T> = Vec::new();
        proof {
            self.lemma_remaining_finite();
        }
        while !self.is_done()
            invariant
                self.wf(),
                self.snapshot() == m,
                self.remaining().subset_of(start),
                start.finite(),
                !self.failed() ==> out@.len() + decodable::<T>(m, self.remaining()).len()
                    == decodable::<T>(m, start).len(),
            decreases self.remaining().len() + (if self.done() { 0int } else { 1int }),
        {
            proof {
                self.lemma_remaining_finite();
            }
            let ghost rem = self.remaining();
            let r = self.next();
            proof {
                self.lemma_remaining_finite();
                vstd::set_lib::lemma_len_subset(decodable::<T>(m, rem), rem);
                if !self.done() {
                    let k = choose|k: Seq<u8>| #[trigger] rem.contains(k)
                        && (forall|j: Seq<u8>| rem.contains(j) ==> !key_lt(j, k))
                        && self.remaining() == rem.remove(k)
                        && !self.done()
                        && r == T::decoded(m[k]);
                    if r is Some {
                        assert(decodable::<T>(m, self.remaining()) =~= decodable::<T>(m, rem).remove(k));
                    } else {
                        assert(decodable::<T>(m, self.remaining()) =~= decodable::<T>(m, rem));
                    }
                } else if !self.failed() {
                    assert(decodable::<T>(m, self.remaining()) =~= Set::<Seq<u8>>::empty());
                    assert(decodable::<T>(m, rem) =~= Set::<Seq<u8>>::empty());
                }
            }
            match r {
                Some(record) => out.push(record),
                None => {},
            }
        }
        proof {
            assert(self.remaining() =~= Set::<Seq<u8>>::empty());
            assert(decodable::<T>(m, self.remaining()) =~= Set::<Seq<u8>>::empty());
        }
        out
    }
}

/// What one seek of the walk gives: the state it leaves and the item it
/// reads.  An entry is read and the walk stands at its key; `NotFound` ends
/// the walk; any other failure ends it as failed.
pub fn seek_outcome<T: Record>(found: Result<(Option<Vec<u8>>, Vec<u8>), lmdb::Error>) -> (r: (QueryState, Option<T>))
    ensures
        match found {
            Ok((Some(k), v)) => r.0 is Positioned && r.0->Positioned_0@ == k@ && r.1 == T::decoded(v@),
            Ok((None, _)) => r.0 is Exhausted && r.1 is None,
            Err(e) => r.1 is None && (if e == lmdb::Error::NotFound {
                r.0 is Exhausted
            } else {
                r.0 is Failed && r.0->Failed_0 == e
            }),
        },
{
    match found {
        Ok((Some(k), v)) => {
            let item = match T::from_binary(v.as_slice()) {
                Ok(record) => Some(record),
                Err(_) => None,
            };
            (QueryState::Positioned(k), item)
        },
        Ok((None, _)) => (QueryState::Exhausted, None),
        Err(lmdb::Error::NotFound) => (QueryState::Exhausted, None),
        Err(e) => (QueryState::Failed(e), None),
    }
}

/// The least of a set of keys.
pub open spec fn least_key(keys: Set<Seq<u8>>) -> Seq<u8> {
    choose|k: Seq<u8>| keys.contains(k) && forall|j: Seq<u8>| keys.contains(j) ==> !key_lt(j, k)
}

/// A key of `keys` that none of them comes before is their least key.
pub proof fn lemma_least_key_unique(keys: Set<Seq<u8>>, k: Seq<u8>)
    requires
        keys.contains(k),
        forall|j: Seq<u8>| keys.contains(j) ==> !key_lt(j, k),
    ensures
        least_key(keys) == k,
{
    let l = least_key(keys);
    assert(keys.contains(l) && forall|j: Seq<u8>| keys.contains(j) ==> !key_lt(j, l));
    if l != k {
        lemma_key_lt_total(l, k);
    }
}

/// The keys of `keys` whose value in `m` decodes to a record of type `T`.
pub open spec fn decodable<T: Record>(m: Map<Seq<u8>, Seq<u8>>, keys: Set<Seq<u8>>) -> Set<Seq<u8>> {
    keys.filter(|k: Seq<u8>| T::decoded(m[k]) is Some)
}

} // verus!
