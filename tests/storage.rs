use nostalgia::{Key, Record, Storage, StorageError};

#[derive(Debug, PartialEq, Clone)]
struct Person {
    id: u32,
    name: String,
}

impl Record for Person {
    type Key = Key<u32>;

    fn key(&self) -> Key<u32> {
        Key::from(self.id)
    }

    fn db_name() -> &'static str {
        "Person"
    }

    fn to_binary(&self) -> Result<Vec<u8>, bincode::Error> {
        bincode::serialize(&(self.id, &self.name))
    }

    fn from_binary(bytes: &[u8]) -> Result<Self, bincode::Error> {
        let (id, name): (u32, String) = bincode::deserialize(bytes)?;
        Ok(Person { id, name })
    }
}

fn open() -> Storage {
    Storage::new("/tmp").expect("Could not open db storage")
}

fn clear_db(storage: &mut Storage) {
    match storage.truncate::<Person>() {
        Ok(_) => assert_eq!(0, 0),
        Err(_) => assert_ne!(0, 0, "Could not truncate Person db"),
    }
}

#[test]
fn test_that_we_can_insert_and_get_records_with_a_storage_object() {
    let mut storage = open();
    clear_db(&mut storage);

    let person = Person { id: 421, name: "Ada Lovelace".to_string() };

    assert_eq!("Person", Person::db_name());

    let _ = storage.save(&person).expect("Could not save record");
    let p: Result<Option<Person>, StorageError> = storage.get::<Person>(person.key());

    match p {
        Ok(Some(pn)) => assert_eq!(pn, person),
        Ok(None) => assert_ne!(0, 0, "Didn't get a result back"),
        Err(_) => assert_ne!(0, 0, "Got an error"),
    };
}

#[test]
fn test_that_we_can_batch_insert_records_and_then_interate() {
    let records_to_create: u32 = 10000;
    let mut records: Vec<Person> = vec![];
    for idx in 0..records_to_create {
        records.push(Person { id: idx, name: format!("Person {}", idx) });
    }

    let mut storage = open();
    clear_db(&mut storage);

    let _ = storage.save_batch(records).expect("Could not save records");
    let mut person_iterator = storage.query::<Person>().unwrap();

    let mut cnt = 0;
    while let Some(_) = person_iterator.next() {
        cnt += 1;
    }

    assert_eq!(records_to_create, cnt);
}
