use std::convert::Infallible;
use std::str::Utf8Error;

use bobsled::GreedyKey;
use bobsled::MemStore;
use bobsled::Record;
use bobsled::RecordExt;

#[derive(Debug, Clone, PartialEq, Eq)]
struct TestRecord {
    pub id: u64,
    pub data: String,
}

impl Record for TestRecord {
    type Key = u64;
    type EncodeError = Infallible;
    type DecodeError = Utf8Error;

    fn try_encode(&self) -> Result<(Self::Key, Vec<u8>), Self::EncodeError> {
        Ok((self.id, self.data.as_bytes().into()))
    }

    fn try_decode(key: Self::Key, value: &[u8]) -> Result<Self, Self::DecodeError> {
        Ok(Self {
            id: key,
            data: std::str::from_utf8(value)?.into(),
        })
    }
}

#[test]
fn test() {
    let mut store = MemStore::new();

    let record = TestRecord {
        id: 0,
        data: "Hello there!".into(),
    };
    record.persist(&mut store).unwrap();

    assert_eq!(Ok(Some(record.clone())), TestRecord::fetch(&store, &0));

    let mut iter = TestRecord::scan(&store);
    let mut records: Vec<TestRecord> = Vec::new();
    while let Some(item) = iter.next() {
        records.push(item.expect("Iterating should succeed"));
    }

    assert_eq!(records.len(), 1);
    assert_eq!(Some(record), records.into_iter().next());

    let record = TestRecord {
        id: 1,
        data: "Hello there!".into(),
    };
    record.persist(&mut store).unwrap();

    let mut n_records = 0;
    let mut iter = TestRecord::scan_range(&store, 0u64..=1u64);
    while iter.next().is_some() {
        n_records += 1;
    }
    assert_eq!(n_records, 2);

    let mut n_records = 0;
    let mut iter = TestRecord::scan_range(&store, 0u64..1u64);
    while iter.next().is_some() {
        n_records += 1;
    }
    assert_eq!(n_records, 1);
}

#[test]
fn persist_twice_keeps_one_entry() {
    let mut store = MemStore::new();

    let first = TestRecord {
        id: 7,
        data: "first".into(),
    };
    first.persist(&mut store).unwrap();
    let second = TestRecord {
        id: 7,
        data: "second".into(),
    };
    second.persist(&mut store).unwrap();

    assert_eq!(Ok(Some(second.clone())), TestRecord::fetch(&store, &7));

    let mut iter = TestRecord::scan(&store);
    let mut records: Vec<TestRecord> = Vec::new();
    while let Some(item) = iter.next() {
        records.push(item.unwrap());
    }
    assert_eq!(records, vec![second]);
}

#[test]
fn remove_erases_the_record() {
    let mut store = MemStore::new();

    let record = TestRecord {
        id: 3,
        data: "here".into(),
    };
    record.persist(&mut store).unwrap();
    assert_eq!(Ok(Some(record)), TestRecord::fetch(&store, &3));

    TestRecord::remove(&mut store, &3).unwrap();
    assert_eq!(Ok(None), TestRecord::fetch(&store, &3));
}

#[test]
fn fetch_missing_key_is_absent() {
    let mut store = MemStore::new();
    let record = TestRecord {
        id: 2,
        data: "two".into(),
    };
    record.persist(&mut store).unwrap();
    assert_eq!(Ok(None), TestRecord::fetch(&store, &1));
}

#[test]
fn scan_yields_records_in_key_order() {
    let mut store = MemStore::new();
    for id in [5u64, 1, 9, 3] {
        let record = TestRecord {
            id,
            data: format!("row {}", id),
        };
        record.persist(&mut store).unwrap();
    }

    let mut iter = TestRecord::scan(&store);
    let mut ids: Vec<u64> = Vec::new();
    while let Some(item) = iter.next() {
        ids.push(item.unwrap().id);
    }
    assert_eq!(ids, vec![1, 3, 5, 9]);
}

#[test]
fn scan_range_open_and_unbounded() {
    let mut store = MemStore::new();
    for id in [1u64, 2, 3, 4] {
        let record = TestRecord {
            id,
            data: "x".into(),
        };
        record.persist(&mut store).unwrap();
    }

    let mut ids: Vec<u64> = Vec::new();
    let mut iter = TestRecord::scan_range(&store, 2u64..);
    while let Some(item) = iter.next() {
        ids.push(item.unwrap().id);
    }
    assert_eq!(ids, vec![2, 3, 4]);

    let mut ids: Vec<u64> = Vec::new();
    let mut iter = TestRecord::scan_range(&store, ..3u64);
    while let Some(item) = iter.next() {
        ids.push(item.unwrap().id);
    }
    assert_eq!(ids, vec![1, 2]);
}

#[derive(Debug, Clone, PartialEq, Eq)]
struct NamedRecord {
    pub name: String,
    pub data: String,
}

impl Record for NamedRecord {
    type Key = GreedyKey<String>;
    type EncodeError = Infallible;
    type DecodeError = Utf8Error;

    fn try_encode(&self) -> Result<(Self::Key, Vec<u8>), Self::EncodeError> {
        Ok((
            GreedyKey(self.name.clone()),
            self.data.as_bytes().into(),
        ))
    }

    fn try_decode(key: Self::Key, value: &[u8]) -> Result<Self, Self::DecodeError> {
        Ok(Self {
            name: key.0,
            data: std::str::from_utf8(value)?.into(),
        })
    }
}

#[test]
fn scan_prefix_finds_exactly_the_extensions() {
    let mut store = MemStore::new();
    for name in ["apple", "apricot", "banana", "ap"] {
        let record = NamedRecord {
            name: name.into(),
            data: "fruit".into(),
        };
        record.persist(&mut store).unwrap();
    }

    let prefix = GreedyKey(String::from("ap"));
    let mut iter = NamedRecord::scan_prefix(&store, &prefix);
    let mut names: Vec<String> = Vec::new();
    while let Some(item) = iter.next() {
        names.push(item.unwrap().name);
    }
    assert_eq!(names, vec!["ap", "apple", "apricot"]);
}

#[test]
fn scan_prefix_with_borrowed_str_prefix() {
    let mut store = MemStore::new();
    for name in ["alpha", "alto", "beta"] {
        let record = NamedRecord {
            name: name.into(),
            data: "x".into(),
        };
        record.persist(&mut store).unwrap();
    }

    let prefix = GreedyKey("al");
    let mut iter = NamedRecord::scan_prefix(&store, &prefix);
    let mut names: Vec<String> = Vec::new();
    while let Some(item) = iter.next() {
        names.push(item.unwrap().name);
    }
    assert_eq!(names, vec!["alpha", "alto"]);
}
