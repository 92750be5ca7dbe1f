use lsmkv::{Bound, Directory, Interval, Store, StoreIter};

/// A store together with the directory that it leaves behind when it is closed.
struct TestStore {
    store: Option<Store>,
    directory: Option<Directory>,
}

impl TestStore {
    fn create() -> TestStore {
        let mut ts = TestStore { store: None, directory: Some(Store::create()) };
        ts.open();
        ts
    }

    fn open(&mut self) {
        assert!(self.store.is_none());
        let directory = self.directory.take().unwrap();
        self.store = Some(Store::open(directory, 100).unwrap());
    }

    fn close(&mut self) -> Option<()> {
        self.store.take().map(|store| {
            self.directory = Some(store.directory);
        })
    }

    fn kv(&mut self) -> &mut Store {
        self.store.as_mut().unwrap()
    }
}

fn pair(key: &str, value: &str) -> Option<(String, String)> {
    Some((key.to_string(), value.to_string()))
}

#[test]
fn putget() {
    let mut ts = TestStore::create();
    let kv = ts.kv();
    kv.put("foo", "Hey").unwrap();
    let x: Option<String> = kv.get("foo").unwrap();
    assert_eq!(Some("Hey".to_string()), x);
    assert!(kv.key_exists("foo").unwrap());
    assert_eq!(None, kv.get("bar").unwrap());
    assert!(!kv.key_exists("bar").unwrap());
}

#[test]
fn range() {
    let mut ts = TestStore::create();
    let kv = ts.kv();
    kv.put("a", "alpha").unwrap();
    kv.put("b", "beta").unwrap();
    kv.put("c", "charlie").unwrap();
    kv.put("d", "delta").unwrap();
    let interval = Interval::<String> { lower: Bound::Unbounded, upper: Bound::Excluded("d".to_string()) };
    let mut it: StoreIter = kv.range(&interval).expect("range");
    assert_eq!(pair("a", "alpha"), kv.next(&mut it).unwrap());
    assert_eq!(pair("b", "beta"), kv.next(&mut it).unwrap());
    assert_eq!(pair("c", "charlie"), kv.next(&mut it).unwrap());
    assert_eq!(None, kv.next(&mut it).unwrap());
}

#[test]
fn overwrite() {
    let mut ts = TestStore::create();
    let kv = ts.kv();

    kv.put("a", "alpha").unwrap();
    kv.put("a", "alpha-2").unwrap();
    assert_eq!(Some("alpha-2".to_string()), kv.get("a").unwrap());
    let inserted: bool = kv.insert("a", "alpha-3").unwrap();
    assert!(!inserted);
    let overwrote: bool = kv.replace("a", "alpha-4").unwrap();
    assert!(overwrote);
    assert_eq!(Some("alpha-4".to_string()), kv.get("a").unwrap());
}

fn write_basic_kv(ts: &mut TestStore) {
    let kv = ts.kv();
    for i in 0..102 {
        kv.put(&i.to_string(), &format!("value-{}", i.to_string())).unwrap();
    }
    // Remove one, so that rows that delete really do override those that set.
    let removed: bool = kv.remove("11").unwrap();
    assert!(removed);
    assert!(1 < kv.memstores.len());
}

fn verify_basic_kv(ts: &mut TestStore) {
    let kv = ts.kv();
    let interval = Interval::<String> { lower: Bound::Excluded("1".to_string()), upper: Bound::Unbounded };
    let mut it: StoreIter = kv.range(&interval).expect("range");
    assert_eq!(pair("10", "value-10"), kv.next(&mut it).unwrap());
    assert_eq!(pair("100", "value-100"), kv.next(&mut it).unwrap());
    assert_eq!(pair("101", "value-101"), kv.next(&mut it).unwrap());
    assert_eq!(pair("12", "value-12"), kv.next(&mut it).unwrap());
    assert_eq!(pair("13", "value-13"), kv.next(&mut it).unwrap());
}

#[test]
fn many() {
    let mut ts = TestStore::create();
    write_basic_kv(&mut ts);
    verify_basic_kv(&mut ts);
}

#[test]
fn disk() {
    let mut ts = TestStore::create();
    write_basic_kv(&mut ts);
    ts.kv().flush().unwrap();
    // Drop the store, and keep its files.
    assert!(ts.close().is_some());
    ts.open();
    verify_basic_kv(&mut ts);
}

#[test]
fn disk_missing_key() {
    let mut ts = TestStore::create();
    write_basic_kv(&mut ts);
    ts.kv().flush().unwrap();
    // Drop the store, and keep its files.
    assert!(ts.close().is_some());
    ts.open();
    // The key is in no memory store, so the tables are read for it.
    assert_eq!(None, ts.kv().get("bogus").unwrap());
}
