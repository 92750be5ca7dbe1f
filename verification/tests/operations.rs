use lsmkv::{Bound, Directory, Interval, Store};

fn fresh(threshold: usize) -> Store {
    Store::open(Store::create(), threshold).unwrap()
}

fn reopened(store: Store, threshold: usize) -> Store {
    Store::open(store.directory, threshold).unwrap()
}

fn value(store: &Store, key: &str) -> Option<String> {
    store.get(key).unwrap()
}

fn some(text: &str) -> Option<String> {
    Some(text.to_string())
}

fn everything() -> Interval<String> {
    Interval { lower: Bound::Unbounded, upper: Bound::Unbounded }
}

fn pairs(store: &Store, interval: &Interval<String>) -> Vec<(String, String)> {
    let mut found: Vec<(String, String)> = Vec::new();
    let mut it = store.range(interval).unwrap();
    while let Some(pair) = store.next(&mut it).unwrap() {
        found.push(pair);
    }
    assert_eq!(None, store.next(&mut it).unwrap());
    found
}

fn keys(store: &Store, interval: &Interval<String>) -> Vec<String> {
    pairs(store, interval).into_iter().map(|(key, _)| key).collect()
}

#[test]
fn new_store_is_empty() {
    let store = fresh(100);
    assert_eq!(2, store.memstores.len());
    assert_eq!(None, value(&store, ""));
    assert_eq!(None, value(&store, "a"));
    assert!(pairs(&store, &everything()).is_empty());
    assert!(store.directory.toc_log.is_empty());
    assert!(store.directory.tables.is_empty());
}

#[test]
fn insert_replace_and_remove_say_what_they_did() {
    let mut store = fresh(1000);
    assert!(!store.replace("a", "1").unwrap());
    assert_eq!(None, value(&store, "a"));
    assert!(store.insert("a", "1").unwrap());
    assert_eq!(some("1"), value(&store, "a"));
    assert!(!store.insert("a", "2").unwrap());
    assert_eq!(some("1"), value(&store, "a"));
    assert!(store.replace("a", "3").unwrap());
    assert_eq!(some("3"), value(&store, "a"));
    assert!(store.remove("a").unwrap());
    assert_eq!(None, value(&store, "a"));
    assert!(!store.key_exists("a").unwrap());
    assert!(!store.remove("a").unwrap());
    assert!(store.insert("a", "4").unwrap());
    assert_eq!(some("4"), value(&store, "a"));
}

#[test]
fn memory_usage_counts_bytes_of_keys_and_values() {
    let mut store = fresh(1000);
    store.put("key", "value").unwrap();
    assert_eq!(8, store.memstores[0].mem_usage);
    store.put("key", "v").unwrap();
    assert_eq!(4, store.memstores[0].mem_usage);
    store.put("k", "ä").unwrap();
    assert_eq!(7, store.memstores[0].mem_usage);
    store.remove("key").unwrap();
    assert_eq!(6, store.memstores[0].mem_usage);
}

#[test]
fn memory_store_is_flushed_when_it_reaches_the_threshold() {
    let mut store = fresh(4);
    store.put("a", "12").unwrap();
    assert_eq!(0, store.toc.table_infos.len());
    store.put("b", "").unwrap();
    assert_eq!(1, store.toc.table_infos.len());
    assert_eq!(0, store.memstores[0].mem_usage);
    assert_eq!(0, store.memstores[0].entries.len());
    assert_eq!(2, store.memstores.len());
    assert_eq!(some("12"), value(&store, "a"));
    assert_eq!(some(""), value(&store, "b"));
}

#[test]
fn consider_split_flushes_at_the_threshold() {
    let mut store = fresh(4);
    store.put("a", "12").unwrap();
    store.consider_split().unwrap();
    assert_eq!(3, store.memstores[0].mem_usage);
    assert_eq!(0, store.toc.table_infos.len());
    store.threshold = 3;
    store.consider_split().unwrap();
    assert_eq!(0, store.memstores[0].mem_usage);
    assert_eq!(1, store.toc.table_infos.len());
    assert_eq!(some("12"), value(&store, "a"));
}

#[test]
fn levels_above_zero_never_overlap() {
    let mut store = fresh(12);
    for i in 0..400 {
        store.put(&format!("k{:03}", (i * 37) % 211), &i.to_string()).unwrap();
        for level in 1..=store.toc.table_infos.iter().map(|info| info.level).max().unwrap_or(0) {
            let on_level: Vec<_> =
                store.toc.table_infos.iter().filter(|info| info.level == level).map(|info| info.duplicate()).collect();
            assert!(!Store::self_overlaps(&on_level));
        }
    }
    for i in 189..400 {
        assert_eq!(Some(i.to_string()), value(&store, &format!("k{:03}", (i * 37) % 211)));
    }
}

#[test]
fn put_and_remove_are_seen_through_flushes() {
    let mut store = fresh(1);
    for round in 0..7 {
        for key in ["b", "a", "d", "c"] {
            store.put(key, &format!("{}-{}", key, round)).unwrap();
            assert_eq!(Some(format!("{}-{}", key, round)), value(&store, key));
        }
        assert_eq!(Some(format!("b-{}", round)), value(&store, "b"));
        assert!(store.remove("b").unwrap());
        assert_eq!(None, value(&store, "b"));
        assert_eq!(Some(format!("c-{}", round)), value(&store, "c"));
    }
    assert_eq!(vec!["a".to_string(), "c".to_string(), "d".to_string()], keys(&store, &everything()));
}

#[test]
fn flush_of_nothing_with_tables_present_changes_nothing() {
    let mut store = fresh(1000);
    store.put("a", "1").unwrap();
    store.flush().unwrap();
    let log = store.directory.toc_log.clone();
    store.flush().unwrap();
    assert_eq!(1, store.toc.table_infos.len());
    assert_eq!(1, store.directory.tables.len());
    assert_eq!(log, store.directory.toc_log);
    assert_eq!(some("1"), value(&store, "a"));
}

#[test]
fn flush_keeps_what_the_store_says() {
    let mut store = fresh(1000);
    store.put("a", "1").unwrap();
    store.put("b", "2").unwrap();
    store.remove("a").unwrap();
    let before = pairs(&store, &everything());
    store.flush().unwrap();
    assert_eq!(before, pairs(&store, &everything()));
    assert_eq!(None, value(&store, "a"));
    assert_eq!(some("2"), value(&store, "b"));
}

#[test]
fn range_agrees_with_get() {
    let mut store = fresh(20);
    for i in 0..60 {
        store.put(&format!("k{:02}", (i * 7) % 40), &format!("v{}", i)).unwrap();
    }
    store.remove("k11").unwrap();
    store.remove("k12").unwrap();
    let found = pairs(&store, &everything());
    assert_eq!(38, found.len());
    for (key, text) in &found {
        assert_eq!(Some(text.clone()), value(&store, key));
    }
    for i in 0..found.len() - 1 {
        assert!(found[i].0 < found[i + 1].0);
    }
}

#[test]
fn ends_of_a_range() {
    let mut store = fresh(1000);
    for key in ["a", "ab", "b", "c", "d"] {
        store.put(key, "x").unwrap();
    }
    store.flush().unwrap();
    let end = |key: &str| key.to_string();
    let within = Interval { lower: Bound::Included(end("ab")), upper: Bound::Included(end("c")) };
    assert_eq!(vec!["ab", "b", "c"], keys(&store, &within));
    let between = Interval { lower: Bound::Excluded(end("ab")), upper: Bound::Excluded(end("c")) };
    assert_eq!(vec!["b"], keys(&store, &between));
    let gaps = Interval { lower: Bound::Excluded(end("aa")), upper: Bound::Excluded(end("bb")) };
    assert_eq!(vec!["ab", "b"], keys(&store, &gaps));
    let none = Interval { lower: Bound::Included(end("c")), upper: Bound::Excluded(end("c")) };
    assert!(keys(&store, &none).is_empty());
    let reversed = Interval { lower: Bound::Included(end("d")), upper: Bound::Included(end("a")) };
    assert!(keys(&store, &reversed).is_empty());
    let above = Interval { lower: Bound::Excluded(end("d")), upper: Bound::Unbounded };
    assert!(keys(&store, &above).is_empty());
}

#[test]
fn keys_are_ordered_by_their_bytes() {
    let mut store = fresh(1000);
    for key in ["z", "é", "Z", "", "zz", "日本"] {
        store.put(key, "x").unwrap();
    }
    assert_eq!(vec!["", "Z", "z", "zz", "é", "日本"], keys(&store, &everything()));
}

#[test]
fn deleted_keys_are_passed_over_in_a_range() {
    let mut store = fresh(1000);
    for key in ["a", "b", "c"] {
        store.put(key, "x").unwrap();
    }
    store.flush().unwrap();
    store.remove("a").unwrap();
    store.remove("c").unwrap();
    assert_eq!(vec!["b"], keys(&store, &everything()));
}

#[test]
fn flushed_rows_survive_reopening() {
    let mut store = fresh(1000);
    store.put("a", "eins").unwrap();
    store.put("ä", "zwei – ü").unwrap();
    store.put("gone", "x").unwrap();
    store.flush().unwrap();
    store.remove("gone").unwrap();
    store.flush().unwrap();
    store.put("unflushed", "lost").unwrap();
    let store = reopened(store, 1000);
    assert_eq!(some("eins"), value(&store, "a"));
    assert_eq!(some("zwei – ü"), value(&store, "ä"));
    assert_eq!(None, value(&store, "gone"));
    assert_eq!(None, value(&store, "unflushed"));
    let again = reopened(store, 5);
    assert_eq!(5, again.threshold);
    assert_eq!(some("eins"), value(&again, "a"));
    assert_eq!(2, pairs(&again, &everything()).len());
}

#[test]
fn rows_taken_into_memory_at_opening_go_before_tables() {
    let mut store = fresh(1000);
    store.put("a", "old").unwrap();
    store.flush().unwrap();
    let mut store = reopened(store, 1000);
    store.put("a", "new").unwrap();
    assert_eq!(some("new"), value(&store, "a"));
    store.flush().unwrap();
    assert_eq!(some("old"), value(&store, "a"));
    let store = reopened(store, 1000);
    assert_eq!(some("new"), value(&store, "a"));
}

#[test]
fn opening_goes_by_the_numbers_of_tables() {
    let mut store = fresh(1000);
    for i in 0..5 {
        store.put("a", &i.to_string()).unwrap();
        store.flush().unwrap();
    }
    // The four older tables were merged into one with a higher number than the newest.
    assert_eq!(vec![4, 5], store.toc.table_infos.iter().map(|info| info.id).collect::<Vec<u64>>());
    assert_eq!(some("4"), value(&store, "a"));
    let store = reopened(store, 1000);
    assert_eq!(some("3"), value(&store, "a"));
}

#[test]
fn files_are_only_added_to() {
    let mut store = fresh(10);
    let mut log: Vec<u8> = Vec::new();
    let mut tables: Vec<(u64, Vec<u8>)> = Vec::new();
    for i in 0..80 {
        store.put(&format!("key{}", i % 30), "value").unwrap();
        assert!(store.directory.toc_log.starts_with(&log));
        assert!(tables.len() <= store.directory.tables.len());
        for n in 0..tables.len() {
            assert_eq!(tables[n].0, store.directory.tables[n].id);
            assert_eq!(tables[n].1, store.directory.tables[n].bytes);
        }
        log = store.directory.toc_log.clone();
        tables = store.directory.tables.iter().map(|file| (file.id, file.bytes.clone())).collect();
        // The log amounts to the table of contents.
        let directory = Directory { toc_log: log.clone(), tables: Vec::new() };
        let contents = lsmkv::log::read_toc(&directory.toc_log).unwrap();
        assert_eq!(store.toc.next_table_id, contents.next_table_id);
        assert_eq!(format!("{:?}", store.toc.table_infos), format!("{:?}", contents.table_infos));
    }
    assert!(tables.len() > 20);
}
