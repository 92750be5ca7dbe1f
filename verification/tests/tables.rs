use lsmkv::encoding;
use lsmkv::log;
use lsmkv::memstore::MemStore;
use lsmkv::order;
use lsmkv::order::Side;
use lsmkv::rebalance;
use lsmkv::rows::Mutation;
use lsmkv::table;
use lsmkv::table::{TableBuilder, TableInfo};
use lsmkv::toc::{Entry, TOC};
use lsmkv::{Directory, Error, Store, TableFile};

/// A table that sets each of the keys to the text.
fn table_of(id: u64, level: u64, keys: &[&str], text: &str) -> (TableFile, TableInfo) {
    let mut builder = TableBuilder::new();
    for key in keys {
        builder.add_mutation(key, &Mutation::Put(text.to_string()));
    }
    let (bytes, info) = builder.finish(id, level);
    (TableFile { id, bytes }, info)
}

/// A store with the given tables and nothing in memory.
fn store_of(threshold: usize, parts: Vec<(TableFile, TableInfo)>) -> Store {
    let mut directory = Directory::new();
    let mut toc = TOC::new();
    let mut additions: Vec<TableInfo> = Vec::new();
    for (file, info) in parts {
        directory.write_table(file.id, file.bytes);
        additions.push(info);
    }
    let entry = Entry { removals: Vec::new(), additions };
    toc.apply(&entry);
    log::write_entry(&mut directory.toc_log, &entry);
    Store::make(threshold, directory, toc)
}

fn placed(store: &Store) -> Vec<(u64, u64, String, String)> {
    store
        .toc
        .table_infos
        .iter()
        .map(|info| (info.id, info.level, info.smallest_key.clone(), info.biggest_key.clone()))
        .collect()
}

fn place(id: u64, level: u64, smallest: &str, biggest: &str) -> (u64, u64, String, String) {
    (id, level, smallest.to_string(), biggest.to_string())
}

fn some(text: &str) -> Option<String> {
    Some(text.to_string())
}

#[test]
fn numbers_and_strings_as_bytes() {
    let mut out: Vec<u8> = Vec::new();
    encoding::write_u64(&mut out, 0x0102_0304_0506_0708);
    encoding::write_str(&mut out, "aé");
    assert_eq!(vec![8, 7, 6, 5, 4, 3, 2, 1, 3, 0, 0, 0, 0, 0, 0, 0, 97, 0xc3, 0xa9], out);
    assert_eq!(Some((0x0102_0304_0506_0708, 8)), encoding::read_u64(&out, 0));
    assert_eq!(Some(("aé".to_string(), 19)), encoding::read_str(&out, 8));
    assert_eq!(None, encoding::read_u64(&out, 12));
    assert_eq!(None, encoding::read_str(&out, 9));
    assert_eq!(Some(("a".to_string(), 17)), encoding::read_text(&out, 16, 1));
    // The two bytes of a character cannot be torn apart.
    assert_eq!(None, encoding::read_text(&out, 16, 2));
    assert_eq!(None, encoding::read_text(&out, 18, 1));
    assert_eq!(None, encoding::read_text(&out, 16, u64::MAX));
}

#[test]
fn order_of_keys() {
    assert_eq!(Side::Same, order::compare("", ""));
    assert_eq!(Side::Before, order::compare("", "a"));
    assert_eq!(Side::Before, order::compare("a", "ab"));
    assert_eq!(Side::After, order::compare("b", "ab"));
    assert_eq!(Side::After, order::compare("é", "z"));
    assert_eq!(Side::Same, order::compare("日", "日"));
}

#[test]
fn table_files() {
    let mut builder = TableBuilder::new();
    assert!(builder.is_empty());
    assert_eq!(0, builder.file_size());
    builder.add_mutation("a", &Mutation::Put("xy".to_string()));
    assert_eq!(28, builder.file_size());
    builder.add_mutation("b", &Mutation::Delete);
    assert_eq!(38, builder.file_size());
    builder.add_mutation("c", &Mutation::Put("z".to_string()));
    assert!(!builder.is_empty());
    let (bytes, info) = builder.finish(7, 2);
    assert_eq!((7, 2, 3, 65), (info.id, info.level, info.keys_offset, info.file_size));
    assert_eq!(("a", "c"), (info.smallest_key.as_str(), info.biggest_key.as_str()));
    assert_eq!(65, bytes.len());
    assert_eq!(b"xyz", &bytes[0..3]);
    let rows = table::read_table(&bytes, &info).unwrap();
    assert_eq!(3, rows.len());
    assert_eq!("a", rows[0].key);
    assert!(matches!(&rows[0].mutation, Mutation::Put(value) if value == "xy"));
    assert!(matches!(&rows[1].mutation, Mutation::Delete));
    assert!(matches!(&rows[2].mutation, Mutation::Put(value) if value == "z"));
}

#[test]
fn damaged_table_files() {
    let (file, info) = table_of(3, 0, &["a", "b"], "x");
    assert!(table::read_table(&file.bytes, &info).is_some());
    // Too short, too long, and not what the table of contents says.
    assert!(table::read_table(&file.bytes[0..20].to_vec(), &info).is_none());
    let mut longer = file.bytes.clone();
    longer.push(0);
    assert!(table::read_table(&longer, &info).is_none());
    let other = TableInfo { biggest_key: "c".to_string(), ..info.duplicate() };
    assert!(table::read_table(&file.bytes, &other).is_none());
    let smaller = TableInfo { smallest_key: "A".to_string(), ..info.duplicate() };
    assert!(table::read_table(&file.bytes, &smaller).is_none());
    // A value that is no UTF-8.
    let mut torn = file.bytes.clone();
    torn[0] = 0xff;
    assert!(table::read_table(&torn, &info).is_none());
    // Keys out of order.
    let (swapped, reversed) = table_of(3, 0, &["b", "a"], "x");
    assert!(table::read_table(&swapped.bytes, &reversed).is_none());
}

#[test]
fn ranges_of_tables() {
    let info = |smallest: &str, biggest: &str| table_of(0, 0, &[smallest, biggest], "").1;
    assert!(info("b", "d").covers("b"));
    assert!(info("b", "d").covers("c"));
    assert!(info("b", "d").covers("d"));
    assert!(!info("b", "d").covers("a"));
    assert!(!info("b", "d").covers("da"));
    assert!(info("b", "d").overlaps(&info("d", "e")));
    assert!(!info("b", "d").overlaps(&info("da", "e")));
    assert!(!info("b", "d").overlaps(&info("a", "az")));
    assert!(!Store::self_overlaps(&vec![]));
    assert!(!Store::self_overlaps(&vec![info("a", "b"), info("c", "d"), info("e", "f")]));
    assert!(Store::self_overlaps(&vec![info("a", "b"), info("c", "e"), info("d", "f")]));
}

#[test]
fn overlapping_tables_of_a_level() {
    let store = store_of(
        1000,
        vec![
            table_of(0, 1, &["a", "c"], ""),
            table_of(1, 1, &["d", "f"], ""),
            table_of(2, 2, &["a", "z"], ""),
            table_of(3, 1, &["g", "i"], ""),
        ],
    );
    let others = vec![table_of(9, 0, &["b", "b"], "").1, table_of(10, 0, &["h", "k"], "").1];
    assert_eq!(vec![0, 3], Store::get_overlapping_tables(&store.toc, &others, 1));
    assert_eq!(vec![2], Store::get_overlapping_tables(&store.toc, &others, 2));
    assert!(Store::get_overlapping_tables(&store.toc, &others, 3).is_empty());
    assert!(Store::get_overlapping_tables(&store.toc, &vec![], 1).is_empty());
}

#[test]
fn table_of_contents() {
    let mut toc = TOC::new();
    toc.apply(&Entry {
        removals: vec![],
        additions: vec![table_of(4, 1, &["a"], "").1, table_of(2, 0, &["a"], "").1, table_of(3, 1, &["b"], "").1],
    });
    assert_eq!(5, toc.next_table_id);
    assert_eq!(vec![2], toc.ids_at(0));
    assert_eq!(vec![3, 4], toc.ids_at(1));
    assert!(toc.ids_at(2).is_empty());
    assert_eq!(1, toc.max_level());
    assert_eq!(vec![2, 4, 3], toc.visits(true));
    assert_eq!(vec![2, 3, 4], toc.visits(false));
    toc.apply(&Entry { removals: vec![4, 17], additions: vec![table_of(3, 5, &["c"], "").1] });
    assert_eq!(5, toc.next_table_id);
    assert!(toc.find(4).is_none());
    assert_eq!(5, toc.find(3).unwrap().level);
    assert_eq!(5, toc.max_level());
}

#[test]
fn log_of_the_table_of_contents() {
    let first = Entry { removals: vec![], additions: vec![table_of(0, 0, &["a", "b"], "x").1] };
    let second = Entry { removals: vec![0], additions: vec![table_of(1, 1, &["ä"], "").1, table_of(2, 1, &["b"], "").1] };
    let mut bytes: Vec<u8> = Vec::new();
    log::write_entry(&mut bytes, &first);
    assert_eq!(8 + 8 + (32 + 9 + 9), bytes.len());
    let one = log::read_toc(&bytes).unwrap();
    assert_eq!(1, one.table_infos.len());
    assert_eq!(1, one.next_table_id);
    log::write_entry(&mut bytes, &second);
    let two = log::read_toc(&bytes).unwrap();
    assert_eq!(vec![1, 2], two.ids_at(1));
    assert_eq!("ä", two.find(1).unwrap().smallest_key);
    assert_eq!(3, two.next_table_id);
    assert_eq!(0, log::read_toc(&Vec::new()).unwrap().table_infos.len());
    // A log that breaks off.
    bytes.pop();
    assert!(matches!(log::read_toc(&bytes), Err(Error::CorruptToc)));
    // No number would be left behind this one.
    let mut last: Vec<u8> = Vec::new();
    log::write_entry(&mut last, &Entry { removals: vec![], additions: vec![table_of(u64::MAX, 0, &["a"], "").1] });
    assert!(matches!(log::read_toc(&last), Err(Error::CorruptToc)));
}

#[test]
fn later_files_of_a_table_count() {
    let mut directory = Directory::new();
    assert!(directory.find(1).is_none());
    directory.write_table(1, vec![1]);
    directory.write_table(2, vec![2]);
    directory.write_table(1, vec![3]);
    assert_eq!(Some(&vec![3]), directory.find(1));
    assert_eq!(Some(&vec![2]), directory.find(2));
}

#[test]
fn relevel_merges_with_the_next_level() {
    let mut store = store_of(
        1000,
        vec![
            table_of(0, 1, &["a", "c"], "lower"),
            table_of(1, 1, &["x", "z"], "kept"),
            table_of(2, 0, &["c", "d"], "older"),
            table_of(3, 0, &["d", "e"], "newer"),
        ],
    );
    store.relevel(0, vec![3, 2]).unwrap();
    assert_eq!(vec![place(1, 1, "x", "z"), place(4, 1, "a", "e")], placed(&store));
    assert_eq!(some("lower"), store.get("a").unwrap());
    assert_eq!(some("older"), store.get("c").unwrap());
    assert_eq!(some("newer"), store.get("d").unwrap());
    assert_eq!(some("newer"), store.get("e").unwrap());
    assert_eq!(some("kept"), store.get("x").unwrap());
    assert_eq!(5, store.directory.tables.len());
}

#[test]
fn merged_tables_keep_clear_of_the_others() {
    let mut store = store_of(
        1000,
        vec![
            table_of(0, 1, &["m", "n"], "between"),
            table_of(1, 0, &["a", "b"], "1"),
            table_of(2, 0, &["a", "b"], "2"),
            table_of(3, 0, &["x", "z"], "3"),
        ],
    );
    store.relevel(0, vec![3, 2, 1]).unwrap();
    assert_eq!(vec![place(0, 1, "m", "n"), place(4, 1, "a", "b"), place(5, 1, "x", "z")], placed(&store));
    assert!(!Store::self_overlaps(&store.toc.table_infos));
    for (key, text) in [("a", "2"), ("b", "2"), ("m", "between"), ("n", "between"), ("x", "3"), ("z", "3")] {
        assert_eq!(Ok(some(text)), store.get(key));
    }
}

#[test]
fn relevel_cuts_tables_beyond_the_threshold() {
    // A row with a key and a value of one byte each takes twenty-seven bytes.
    let mut store = store_of(
        54,
        vec![table_of(0, 0, &["a", "c", "e", "g"], "0"), table_of(1, 0, &["b", "d", "f"], "1")],
    );
    store.relevel(0, vec![1, 0]).unwrap();
    assert_eq!(vec![place(2, 1, "a", "c"), place(3, 1, "d", "f"), place(4, 1, "g", "g")], placed(&store));
    assert_eq!(81, store.toc.find(2).unwrap().file_size);
    assert_eq!(3, store.toc.find(2).unwrap().keys_offset);
    assert_eq!(some("1"), store.get("b").unwrap());
}

#[test]
fn relevel_without_overlap_moves_the_tables_as_they_are() {
    let mut store = store_of(
        1000,
        vec![table_of(0, 1, &["m", "n"], "0"), table_of(1, 0, &["a", "b"], "1"), table_of(2, 0, &["x", "z"], "2")],
    );
    let log_len = store.directory.toc_log.len();
    store.relevel(0, vec![2, 1]).unwrap();
    assert_eq!(vec![place(0, 1, "m", "n"), place(1, 1, "a", "b"), place(2, 1, "x", "z")], placed(&store));
    assert_eq!(3, store.toc.next_table_id);
    assert_eq!(3, store.directory.tables.len());
    assert!(store.directory.toc_log.len() > log_len);
    assert_eq!(vec![0, 1, 2], log::read_toc(&store.directory.toc_log).unwrap().ids_at(1));
    for (key, text) in [("a", "1"), ("m", "0"), ("z", "2")] {
        assert_eq!(Ok(some(text)), store.get(key));
    }
}

#[test]
fn relevel_of_a_flushed_table() {
    let mut store = Store::open(Store::create(), 1000).unwrap();
    let n = store.toc.next_table_id;
    store.put("a", "1").unwrap();
    store.flush().unwrap();
    store.relevel(0, vec![n]).unwrap();
    assert_eq!(vec![place(n, 1, "a", "a")], placed(&store));
    assert_eq!(n + 1, store.toc.next_table_id);
    assert_eq!(Ok(some("1")), store.get("a"));
}

#[test]
fn rebalance_drains_a_level_zero_without_overlaps() {
    let mut store = store_of(
        1000,
        ["a", "b", "c", "d", "e"].iter().enumerate().map(|(i, key)| table_of(i as u64, 0, &[key], "x")).collect(),
    );
    store.rebalance().unwrap();
    assert_eq!(vec![4], store.toc.ids_at(0));
    assert_eq!(vec![0, 1, 2, 3], store.toc.ids_at(1));
    assert_eq!(5, store.directory.tables.len());
}

#[test]
fn rebalance_moves_a_table_without_overlaps_to_the_next_level() {
    let mut parts: Vec<(TableFile, TableInfo)> =
        ["a", "b", "c", "d", "e"].iter().enumerate().map(|(i, key)| table_of(i as u64, 1, &[key], "x")).collect();
    parts.push(table_of(5, 2, &["a", "b"], "y"));
    let mut store = store_of(1000, parts);
    store.rebalance().unwrap();
    assert_eq!(vec![0, 1, 3, 4], store.toc.ids_at(1));
    assert_eq!(vec![2, 5], store.toc.ids_at(2));
    assert_eq!(Ok(some("x")), store.get("c"));
}

#[test]
fn rebalance_merges_all_but_the_newest_table_of_level_zero() {
    let mut store = store_of(1000, (0..5).map(|i| table_of(i, 0, &["a", "b"], &i.to_string())).collect());
    store.rebalance().unwrap();
    assert_eq!(vec![place(4, 0, "a", "b"), place(5, 1, "a", "b")], placed(&store));
    assert_eq!(some("4"), store.get("a").unwrap());
    let rows = rebalance::load(&store.directory, store.toc.find(5).unwrap()).unwrap();
    assert!(matches!(&rows[0].mutation, Mutation::Put(value) if value == "3"));
}

#[test]
fn rebalance_leaves_four_tables_on_level_zero() {
    let mut store = store_of(1000, (0..4).map(|i| table_of(i, 0, &["a", "b"], &i.to_string())).collect());
    let before = placed(&store);
    store.rebalance().unwrap();
    assert_eq!(before, placed(&store));
}

#[test]
fn rebalance_takes_the_table_with_the_fewest_overlaps() {
    let mut parts = vec![
        table_of(0, 1, &["a", "b"], "1"),
        table_of(1, 1, &["c", "d"], "1"),
        table_of(2, 1, &["e", "f"], "1"),
        table_of(3, 1, &["g", "h"], "1"),
        table_of(4, 2, &["a", "a"], "2"),
        table_of(5, 2, &["b", "c"], "2"),
        table_of(6, 2, &["f", "g"], "2"),
        table_of(7, 2, &["h", "h"], "2"),
        table_of(8, 2, &["i", "k"], "2"),
    ];
    // Four tables are not too many for level one.
    let mut store = store_of(1000, parts);
    let before = placed(&store);
    store.rebalance().unwrap();
    assert_eq!(before, placed(&store));

    parts = vec![
        table_of(0, 1, &["a", "b"], "1"),
        table_of(1, 1, &["c", "d"], "1"),
        table_of(2, 1, &["e", "f"], "1"),
        table_of(3, 1, &["g", "h"], "1"),
        table_of(4, 2, &["a", "a"], "2"),
        table_of(5, 2, &["b", "c"], "2"),
        table_of(6, 2, &["f", "g"], "2"),
        table_of(7, 2, &["h", "h"], "2"),
        table_of(8, 2, &["i", "k"], "2"),
        table_of(9, 1, &["i", "j"], "1"),
    ];
    let mut store = store_of(1000, parts);
    store.rebalance().unwrap();
    // The tables 1, 2 and 9 overlap one table each, and 1 comes first.
    let mut after: Vec<(u64, u64, String, String)> =
        before.into_iter().filter(|entry| entry.0 != 1 && entry.0 != 5).collect();
    after.push(place(9, 1, "i", "j"));
    after.push(place(10, 2, "b", "d"));
    assert_eq!(after, placed(&store));
    assert_eq!(some("1"), store.get("c").unwrap());
    assert_eq!(some("1"), store.get("d").unwrap());
    assert_eq!(some("1"), store.get("b").unwrap());
}

#[test]
fn missing_and_damaged_tables() {
    let mut store = store_of(1000, vec![table_of(0, 0, &["b", "d"], "x"), table_of(1, 0, &["f", "h"], "y")]);
    store.directory.tables.remove(0);
    assert_eq!(Err(Error::MissingTable(0)), store.get("b"));
    assert_eq!(Err(Error::MissingTable(0)), store.get("c"));
    assert_eq!(Err(Error::MissingTable(0)), store.key_exists("d"));
    // Tables that do not span the key are not read.
    assert_eq!(Ok(None), store.get("a"));
    assert_eq!(Ok(some("y")), store.get("f"));
    assert_eq!(Err(Error::MissingTable(0)), store.insert("c", "z"));
    assert_eq!(Err(Error::MissingTable(0)), store.replace("c", "z"));
    assert_eq!(Err(Error::MissingTable(0)), store.remove("c"));
    assert_eq!(0, store.memstores[0].entries.len());
    // Memory goes before the tables.
    store.put("b", "memory").unwrap();
    assert_eq!(Ok(some("memory")), store.get("b"));
    store.directory.tables[0].bytes.pop();
    assert_eq!(Err(Error::CorruptTable(1)), store.get("g"));
    let everything = lsmkv::Interval { lower: lsmkv::Bound::Unbounded, upper: lsmkv::Bound::Unbounded };
    assert!(matches!(store.range(&everything), Err(Error::CorruptTable(1))));
    assert!(matches!(Store::open(store.directory, 10), Err(Error::MissingTable(0))));
}

#[test]
fn damaged_log() {
    let directory = Directory { toc_log: vec![1, 2, 3], tables: Vec::new() };
    assert!(matches!(Store::open(directory, 10), Err(Error::CorruptToc)));
}

#[test]
fn failed_rebalance_of_a_flush_keeps_the_table() {
    let mut store = store_of(1, (0..4).map(|i| table_of(i, 0, &["a", "b"], &i.to_string())).collect());
    store.directory.tables.remove(2);
    let mut expected = placed(&store);
    expected.push(place(4, 0, "c", "c"));
    assert_eq!(Err(Error::MissingTable(2)), store.put("c", "new"));
    // The row is in a table that is recorded, and its memory store is gone.
    assert_eq!(expected, placed(&store));
    assert_eq!(5, log::read_toc(&store.directory.toc_log).unwrap().table_infos.len());
    assert_eq!(4, store.directory.tables.len());
    assert_eq!(1, store.memstores.len());
    assert_eq!(Ok(some("new")), store.get("c"));
    // There is always a memory store.
    assert_eq!(Err(Error::MissingTable(2)), store.flush());
    assert_eq!(expected, placed(&store));
    assert_eq!(1, store.memstores.len());
    assert_eq!(Ok(some("new")), store.get("c"));
    // With the file back in place the flush succeeds.
    let (file, _) = table_of(2, 0, &["a", "b"], "2");
    store.directory.write_table(file.id, file.bytes);
    assert_eq!(Ok(()), store.flush());
    assert_eq!(1, store.memstores.len());
    assert_eq!(Ok(some("new")), store.get("c"));
    assert_eq!(vec![place(4, 0, "c", "c"), place(5, 1, "a", "a"), place(6, 1, "b", "b")], placed(&store));
}

#[test]
fn failed_rebalance_keeps_the_levels_before() {
    // Level one gives up table 0, and level two, which has too many then, fails to give it up in turn.
    let mut parts: Vec<(TableFile, TableInfo)> = Vec::new();
    for (i, key) in ["a", "b", "c", "d", "e"].iter().enumerate() {
        parts.push(table_of(i as u64, 1, &[key], "one"));
    }
    for i in 0..40 {
        parts.push(table_of(5 + i, 2, &[&format!("k{:02}", i)], "two"));
    }
    parts.push(table_of(45, 3, &["a", "z"], "three"));
    let mut store = store_of(1000, parts);
    // The table of level three is needed for level two only.
    store.directory.tables.pop();
    assert_eq!(Err(Error::MissingTable(45)), store.rebalance());
    assert_eq!(vec![1, 2, 3, 4], store.toc.ids_at(1));
    assert_eq!(41, store.toc.ids_at(2).len());
    assert!(store.toc.ids_at(2).contains(&0));
    assert_eq!(vec![45], store.toc.ids_at(3));
    assert_eq!(41, log::read_toc(&store.directory.toc_log).unwrap().ids_at(2).len());
    assert_eq!(Ok(some("one")), store.get("a"));
}

#[test]
fn numbers_run_out() {
    let mut store = store_of(1, vec![table_of(u64::MAX - 2, 0, &["a"], "x")]);
    assert_eq!(u64::MAX - 1, store.toc.next_table_id);
    assert_eq!(Ok(()), store.put("b", "y"));
    assert_eq!(u64::MAX, store.toc.next_table_id);
    assert_eq!(Err(Error::IdsExhausted), store.put("c", "z"));
    assert_eq!(Ok(some("z")), store.get("c"));
    assert_eq!(2, store.toc.table_infos.len());
}

#[test]
fn numbers_run_out_in_a_merge() {
    let parts =
        vec![table_of(u64::MAX - 3, 0, &["a", "b"], "old"), table_of(u64::MAX - 2, 0, &["a", "b"], "new")];
    let mut store = store_of(1, parts);
    let before = placed(&store);
    // Each of the two rows would need a table of its own.
    assert_eq!(Err(Error::IdsExhausted), store.relevel(0, vec![u64::MAX - 2, u64::MAX - 3]));
    assert_eq!(before, placed(&store));
    assert_eq!(2, store.directory.tables.len());
    assert_eq!(Ok(some("new")), store.get("a"));
}

#[test]
fn flush_and_record_writes_rows_to_the_given_level() {
    let mut store = store_of(1000, vec![table_of(0, 0, &["a"], "x")]);
    let mut ms = MemStore::new();
    store.flush_and_record(3, &ms).unwrap();
    assert_eq!(1, store.toc.table_infos.len());
    ms.apply("k".to_string(), Mutation::Put("v".to_string()));
    store.flush_and_record(3, &ms).unwrap();
    assert_eq!(vec![place(0, 0, "a", "a"), place(1, 3, "k", "k")], placed(&store));
    assert_eq!(Ok(some("v")), store.get("k"));
}
