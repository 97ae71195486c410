use nostalgia::query::seek_outcome;
use nostalgia::storage::read_outcome;
use nostalgia::{Key, QueryState, Record, Storage, StorageError};

fn open() -> Storage {
    Storage::new("/tmp").expect("Could not open db storage")
}

fn encode(id: u32, name: &str) -> Result<Vec<u8>, bincode::Error> {
    bincode::serialize(&(id, name))
}

fn decode(bytes: &[u8]) -> Result<(u32, String), bincode::Error> {
    bincode::deserialize(bytes)
}

#[derive(Debug, PartialEq, Clone)]
struct Place {
    id: u32,
    name: String,
}

impl Record for Place {
    type Key = Key<u32>;

    fn key(&self) -> Key<u32> {
        Key::from(self.id)
    }

    fn db_name() -> &'static str {
        "Place"
    }

    fn to_binary(&self) -> Result<Vec<u8>, bincode::Error> {
        encode(self.id, &self.name)
    }

    fn from_binary(bytes: &[u8]) -> Result<Self, bincode::Error> {
        let (id, name) = decode(bytes)?;
        Ok(Place { id, name })
    }
}

#[derive(Debug, PartialEq, Clone)]
struct Cat {
    id: u32,
    name: String,
}

impl Record for Cat {
    type Key = Key<u32>;

    fn key(&self) -> Key<u32> {
        Key::from(self.id)
    }

    fn db_name() -> &'static str {
        "Cat"
    }

    fn to_binary(&self) -> Result<Vec<u8>, bincode::Error> {
        encode(self.id, &self.name)
    }

    fn from_binary(bytes: &[u8]) -> Result<Self, bincode::Error> {
        let (id, name) = decode(bytes)?;
        Ok(Cat { id, name })
    }
}

#[derive(Debug, PartialEq, Clone)]
struct Dog {
    id: u32,
    name: String,
}

impl Record for Dog {
    type Key = Key<u32>;

    fn key(&self) -> Key<u32> {
        Key::from(self.id)
    }

    fn db_name() -> &'static str {
        "Dog"
    }

    fn to_binary(&self) -> Result<Vec<u8>, bincode::Error> {
        encode(self.id, &self.name)
    }

    fn from_binary(bytes: &[u8]) -> Result<Self, bincode::Error> {
        let (id, name) = decode(bytes)?;
        Ok(Dog { id, name })
    }
}

/// A record whose encoding fails for one name.
#[derive(Debug, PartialEq, Clone)]
struct Fragile {
    id: u32,
    name: String,
}

impl Record for Fragile {
    type Key = Key<u32>;

    fn key(&self) -> Key<u32> {
        Key::from(self.id)
    }

    fn db_name() -> &'static str {
        "Fragile"
    }

    fn to_binary(&self) -> Result<Vec<u8>, bincode::Error> {
        if self.name == "unencodable" {
            Err(Box::new(bincode::ErrorKind::Custom("refused".to_string())))
        } else {
            encode(self.id, &self.name)
        }
    }

    fn from_binary(bytes: &[u8]) -> Result<Self, bincode::Error> {
        let (id, name) = decode(bytes)?;
        Ok(Fragile { id, name })
    }
}

/// A record whose stored value never decodes, with string keys.
#[derive(Debug, PartialEq, Clone)]
struct Garbled {
    label: String,
}

impl Record for Garbled {
    type Key = Key<String>;

    fn key(&self) -> Key<String> {
        Key::from(self.label.clone())
    }

    fn db_name() -> &'static str {
        "Garbled"
    }

    fn to_binary(&self) -> Result<Vec<u8>, bincode::Error> {
        Ok(vec![1u8])
    }

    fn from_binary(_bytes: &[u8]) -> Result<Self, bincode::Error> {
        Err(Box::new(bincode::ErrorKind::Custom("unreadable".to_string())))
    }
}

fn place(id: u32, name: &str) -> Place {
    Place { id, name: name.to_string() }
}

#[test]
fn places_scenario() {
    let mut storage = open();
    storage.truncate::<Place>().expect("Could not truncate");
    let records = vec![place(1, "Vienna"), place(2, "Paris"), place(3, "Istanbul")];
    storage.save_batch(records).expect("Could not save records");

    let paris: Option<Place> = storage.get::<Place>(Key::from(2)).expect("Error fetching");
    assert_eq!(Some(place(2, "Paris")), paris);

    let istanbul = storage.find(|p: &Place| p.name == "Istanbul").expect("Could not execute find");
    assert_eq!(Some(place(3, "Istanbul")), istanbul);

    storage.truncate::<Place>().expect("Could not truncate");
    let mut query = storage.query::<Place>().expect("Could not build a query");
    assert_eq!(None, query.next());
    assert!(query.is_done());
    drop(query);

    storage.save(&place(4, "London")).expect("Could not save after truncate");
    let london = storage.get::<Place>(Key::from(4)).expect("Error fetching");
    assert_eq!(Some(place(4, "London")), london);
}

#[test]
fn save_replaces_the_value_under_a_key() {
    let mut storage = open();
    storage.truncate::<Place>().expect("Could not truncate");
    storage.save(&place(1, "Vienna")).expect("Could not save record");
    storage.save(&place(1, "Wien")).expect("Could not save record");
    assert_eq!(Some(place(1, "Wien")), storage.get::<Place>(Key::from(1)).expect("Error fetching"));
}

#[test]
fn batch_with_unencodable_record_keeps_nothing() {
    let mut storage = open();
    storage.truncate::<Fragile>().expect("Could not truncate");
    let records = vec![
        Fragile { id: 1, name: "first".to_string() },
        Fragile { id: 2, name: "unencodable".to_string() },
        Fragile { id: 3, name: "third".to_string() },
    ];
    match storage.save_batch(records) {
        Err(StorageError::EncodeError { .. }) => {},
        other => panic!("expected an encoding failure, got {:?}", other),
    }
    assert_eq!(None, storage.get::<Fragile>(Key::from(1)).expect("Error fetching"));
    assert_eq!(None, storage.get::<Fragile>(Key::from(3)).expect("Error fetching"));
    match storage.save(&Fragile { id: 2, name: "unencodable".to_string() }) {
        Err(StorageError::EncodeError { .. }) => {},
        other => panic!("expected an encoding failure, got {:?}", other),
    }
}

#[test]
fn batch_puts_in_order() {
    let mut storage = open();
    storage.truncate::<Place>().expect("Could not truncate");
    let records = vec![place(5, "first"), place(6, "other"), place(5, "second")];
    storage.save_batch(records).expect("Could not save records");
    assert_eq!(Some(place(5, "second")), storage.get::<Place>(Key::from(5)).expect("Error fetching"));
    assert_eq!(Some(place(6, "other")), storage.get::<Place>(Key::from(6)).expect("Error fetching"));
}

#[test]
fn tables_with_equal_keys_stay_apart() {
    let mut storage = open();
    storage.truncate::<Cat>().expect("Could not truncate");
    storage.truncate::<Dog>().expect("Could not truncate");
    storage.save(&Cat { id: 1, name: "Tom".to_string() }).expect("Could not save");
    storage.save(&Dog { id: 1, name: "Rex".to_string() }).expect("Could not save");
    assert_eq!(Some(Cat { id: 1, name: "Tom".to_string() }), storage.get::<Cat>(Key::from(1)).unwrap());
    assert_eq!(Some(Dog { id: 1, name: "Rex".to_string() }), storage.get::<Dog>(Key::from(1)).unwrap());
    storage.truncate::<Cat>().expect("Could not truncate");
    assert_eq!(None, storage.get::<Cat>(Key::from(1)).unwrap());
    assert_eq!(Some(Dog { id: 1, name: "Rex".to_string() }), storage.get::<Dog>(Key::from(1)).unwrap());
}

#[test]
fn query_yields_each_record_once_then_nothing() {
    let mut storage = open();
    storage.truncate::<Place>().expect("Could not truncate");
    let records = vec![place(300, "c"), place(2, "a"), place(70000, "d"), place(256, "b")];
    storage.save_batch(records).expect("Could not save records");

    let mut query = storage.query::<Place>().expect("Could not build a query");
    assert!(!query.is_done());
    let mut seen = vec![];
    while let Some(p) = query.next() {
        seen.push(p.id);
    }
    assert_eq!(vec![2, 256, 300, 70000], seen);
    assert!(query.is_done());
    assert_eq!(None, query.error());
    let mut again = 0;
    while let Some(_) = query.next() {
        again += 1;
    }
    assert_eq!(0, again);
    drop(query);

    let mut fresh = storage.query::<Place>().expect("Could not build a query");
    let all = fresh.read_all();
    assert_eq!(4, all.len());
    assert_eq!(place(70000, "d"), all[3]);
    assert!(fresh.read_all().is_empty());
}

#[test]
fn undecodable_values_read_as_absent() {
    let mut storage = open();
    storage.truncate::<Garbled>().expect("Could not truncate");
    storage.save(&Garbled { label: "x".to_string() }).expect("Could not save");
    assert_eq!(None, storage.get::<Garbled>(Key::from("x".to_string())).expect("Error fetching"));
    let mut query = storage.query::<Garbled>().expect("Could not build a query");
    assert_eq!(None, query.next());
    assert!(!query.is_done());
    assert_eq!(None, query.next());
    assert!(query.is_done());
}

#[test]
fn missing_key_reads_as_absent() {
    let mut storage = open();
    storage.truncate::<Place>().expect("Could not truncate");
    assert_eq!(None, storage.get::<Place>(Key::from(99)).expect("Error fetching"));
    assert_eq!(None, storage.find(|p: &Place| p.id == 99).expect("Could not execute find"));
}

#[test]
fn delete_removes_the_record() {
    let mut storage = open();
    storage.truncate::<Place>().expect("Could not truncate");
    let p = place(8, "Oslo");
    storage.save(&p).expect("Could not save");
    storage.delete(&p).expect("Could not delete");
    assert_eq!(None, storage.get::<Place>(Key::from(8)).expect("Error fetching"));
    match storage.delete(&p) {
        Err(StorageError::DBError { source }) => assert_eq!(lmdb::Error::NotFound, source),
        other => panic!("expected the engine's NotFound, got {:?}", other),
    }
}

#[test]
fn handle_cache_opens_each_table_once() {
    let mut storage = open();
    assert_eq!(0, storage.open_tables());
    storage.save(&place(1, "Vienna")).expect("Could not save record");
    assert_eq!(1, storage.open_tables());
    storage.save(&place(2, "Paris")).expect("Could not save record");
    let first = storage.db("Place").expect("Could not open table");
    let second = storage.db("Place").expect("Could not open table");
    assert_eq!(first, second);
    assert_eq!(1, storage.open_tables());
    storage.save(&Cat { id: 1, name: "Tom".to_string() }).expect("Could not save record");
    assert_eq!(2, storage.open_tables());
    storage.forget("Place");
    assert_eq!(1, storage.open_tables());
    storage.save(&place(3, "Rome")).expect("Could not save after forgetting the handle");
    assert_eq!(2, storage.open_tables());
    assert_eq!(Some(place(3, "Rome")), storage.get::<Place>(Key::from(3)).expect("Error fetching"));
    assert_eq!("/tmp", storage.path());
}

#[test]
fn error_messages() {
    let e = StorageError::DBError { source: lmdb::Error::NotFound };
    assert_eq!("could not process database command", e.message());
    let f = StorageError::EncodeError { source: Box::new(bincode::ErrorKind::Custom("x".to_string())) };
    assert_eq!("could not encode record", f.message());
    let g = StorageError::FileError { source: std::io::Error::new(std::io::ErrorKind::Other, "x") };
    assert_eq!("could not access database directory", g.message());
}

#[test]
fn lookup_outcomes() {
    let bytes = place(7, "Lyon").to_binary().unwrap();
    assert_eq!(Ok(Some(place(7, "Lyon"))), read_outcome::<Place>(Ok(bytes)));
    assert_eq!(Ok(None), read_outcome::<Place>(Ok(vec![1u8])));
    assert_eq!(Ok(None), read_outcome::<Place>(Err(lmdb::Error::NotFound)));
    assert_eq!(Err(lmdb::Error::Corrupted), read_outcome::<Place>(Err(lmdb::Error::Corrupted)));
}

#[test]
fn seek_outcomes() {
    let bytes = place(9, "Bern").to_binary().unwrap();
    let (state, item) = seek_outcome::<Place>(Ok((Some(vec![0u8, 0, 0, 9]), bytes)));
    assert!(matches!(state, QueryState::Positioned(ref k) if *k == vec![0u8, 0, 0, 9]));
    assert_eq!(Some(place(9, "Bern")), item);
    let (state, item) = seek_outcome::<Place>(Ok((Some(vec![1u8]), vec![1u8])));
    assert!(matches!(state, QueryState::Positioned(_)));
    assert_eq!(None, item);
    let (state, item) = seek_outcome::<Place>(Err(lmdb::Error::NotFound));
    assert!(matches!(state, QueryState::Exhausted));
    assert_eq!(None, item);
    let (state, item) = seek_outcome::<Place>(Err(lmdb::Error::Panic));
    assert!(matches!(state, QueryState::Failed(lmdb::Error::Panic)));
    assert_eq!(None, item);
}
