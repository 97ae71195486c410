use vstd::prelude::*;

verus! {

/// The table handles opened so far, by table name; each name at most once.
pub struct TableCache {
    entries: Vec<(String, lmdb::Database)>,
    map: Ghost<Map<Seq<char>, lmdb::Database>>,
}

impl TableCache {
    /// The handle of each table opened so far, by name.
    pub closed spec fn view(&self) -> Map<Seq<char>, lmdb::Database> {
        self.map@
    }

    pub closed spec fn names(&self) -> Seq<Seq<char>> {
        self.entries@.map_values(|e: (String, lmdb::Database)| e.0@)
    }

    pub closed spec fn wf(&self) -> bool {
        &&& self.names().no_duplicates()
        &&& self.map@.dom() == self.names().to_set()
        &&& forall|i: int|
            0 <= i < self.entries@.len() ==> #[trigger] self.map@[self.entries@[i].0@]
                == self.entries@[i].1
    }

    pub fn new() -> (r: TableCache)
        ensures
            r.wf(),
            r@ == Map::<Seq<char>, lmdb::Database>::empty(),
    {
        let r = TableCache { entries: Vec::new(), map: Ghost(Map::empty()) };
        assert(r.names() =~= Seq::empty());
        assert(r.map@.dom() =~= r.names().to_set());
        r
    }

    /// How many tables are open.
    pub fn len(&self) -> (r: usize)
        requires
            self.wf(),
        ensures
            r == self@.len(),
    {
        proof {
            self.names().unique_seq_to_set();
        }
        self.entries.len()
    }

    /// The handle opened for `name`, if there is one.
    pub fn lookup(&self, name: &String) -> (r: Option<lmdb::Database>)
        requires
            self.wf(),
        ensures
            r == (if self@.contains_key(name@) {
                Some(self@[name@])
            } else {
                None::<lmdb::Database>
            }),
    {
        let mut i: usize = 0;
        while i < self.entries.len()
            invariant
                self.wf(),
                i <= self.entries@.len(),
                forall|j: int| 0 <= j < i ==> self.entries@[j].0@ != name@,
            decreases self.entries@.len() - i,
        {
            if self.entries[i].0 == *name {
                proof {
                    assert(self.names()[i as int] == name@);
                    assert(self.names().to_set().contains(name@));
                }
                return Some(self.entries[i].1);
            }
            i = i + 1;
        }
        proof {
            if self@.contains_key(name@) {
                assert(self.names().to_set().contains(name@));
                let j = choose|j: int| 0 <= j < self.names().len() && self.names()[j] == name@;
                assert(self.entries@[j].0@ == name@);
            }
        }
        None
    }

    /// Records the handle of a table not opened before.
    pub fn insert(&mut self, name: String, db: lmdb::Database)
        requires
            old(self).wf(),
            !old(self)@.contains_key(name@),
        ensures
            final(self).wf(),
            final(self)@ == old(self)@.insert(name@, db),
    {
        let ghost n = name@;
        self.entries.push((name, db));
        self.map = Ghost(self.map@.insert(n, db));
        proof {
            assert(self.names() =~= old(self).names().push(n));
            assert(!old(self).names().contains(n));
            assert forall|x: Seq<char>| self.map@.dom().contains(x) <==> self.names().to_set().contains(x) by {
                if old(self).names().to_set().contains(x) {
                    let j = choose|j: int| 0 <= j < old(self).names().len() && old(self).names()[j] == x;
                    assert(self.names()[j] == x);
                }
                if self.names().to_set().contains(x) && x != n {
                    let j = choose|j: int| 0 <= j < self.names().len() && self.names()[j] == x;
                    assert(old(self).names()[j] == x);
                }
                if x == n {
                    assert(self.names()[old(self).names().len() as int] == x);
                }
            }
            assert(self.map@.dom() =~= self.names().to_set());
            assert forall|i: int| 0 <= i < self.entries@.len() implies #[trigger] self.map@[self.entries@[i].0@]
                == self.entries@[i].1 by {
                if i < old(self).entries@.len() {
                    assert(old(self).names()[i] == self.entries@[i].0@);
                }
            }
        }
    }

    /// Forgets the handle of `name`, if there is one.
    pub fn remove(&mut self, name: &String)
        requires
            old(self).wf(),
        ensures
            final(self).wf(),
            final(self)@ == old(self)@.remove(name@),
    {
        let mut i: usize = 0;
        while i < self.entries.len()
            invariant
                self.wf(),
                self == old(self),
                i <= self.entries@.len(),
                forall|j: int| 0 <= j < i ==> self.entries@[j].0@ != name@,
            decreases self.entries@.len() - i,
        {
            if self.entries[i].0 == *name {
                let ghost before = self.entries@;
                proof {
                    assert(old(self).names()[i as int] == name@);
                }
                self.entries.remove(i);
                self.map = Ghost(self.map@.remove(name@));
                proof {
                    let ob = old(self).names();
                    assert(self.names() =~= ob.remove(i as int));
                    assert forall|a: int, b: int| 0 <= a < b < self.names().len() implies self.names()[a] != self.names()[b] by {
                        let a2 = if a < i { a } else { a + 1 };
                        let b2 = if b < i { b } else { b + 1 };
                        assert(self.names()[a] == ob[a2]);
                        assert(self.names()[b] == ob[b2]);
                    }
                    assert forall|x: Seq<char>| self.map@.dom().contains(x) <==> self.names().to_set().contains(x) by {
                        if self.map@.dom().contains(x) {
                            let j = choose|j: int| 0 <= j < ob.len() && ob[j] == x;
                            assert(j != i);
                            if j < i { assert(self.names()[j] == x); } else { assert(self.names()[j - 1] == x); }
                        }
                        if self.names().to_set().contains(x) {
                            let j = choose|j: int| 0 <= j < self.names().len() && self.names()[j] == x;
                            let j2 = if j < i { j } else { j + 1 };
                            assert(ob[j2] == x);
                            assert(j2 != i);
                            assert(ob[j2] != ob[i as int]);
                            assert(ob.to_set().contains(x));
                        }
                    }
                    assert(self.map@.dom() =~= self.names().to_set());
                    assert forall|k: int| 0 <= k < self.entries@.len() implies #[trigger] self.map@[self.entries@[k].0@]
                        == self.entries@[k].1 by {
                        let k2 = if k < i { k } else { k + 1 };
                        assert(self.entries@[k] == before[k2]);
                        assert(ob[k2] != ob[i as int]);
                    }
                }
                return;
            }
            i = i + 1;
        }
        proof {
            if self@.contains_key(name@) {
                let j = choose|j: int| 0 <= j < self.names().len() && self.names()[j] == name@;
                assert(self.entries@[j].0@ == name@);
            }
            assert(self@ =~= old(self)@.remove(name@));
        }
    }
}

} // verus!
