//! What a store is and what its operations make of it, in mathematical terms.
use crate::directory::Directory;
use crate::error::Error;
use crate::interval;
use crate::interval::Bound;
use crate::log;
use crate::memstore;
use crate::order;
use crate::rows;
use crate::rows::{Changes, RowView};
use crate::table;
use crate::table::{InfoView, LevelNumber, TableId};
use crate::toc;
use crate::toc::{EntryView, TocState};
use vstd::arithmetic::power;
use vstd::prelude::*;

verus! {

/// What a store keeps in files: its table of contents, the log of it, and the table files.
pub struct DiskState {
    pub toc: TocState,
    pub log: Seq<u8>,
    pub files: Map<TableId, Seq<u8>>,
}

/// A store: its memory stores, the newest first, the size at which a memory store is written to a
/// table, and what is kept in files.
pub struct StoreState {
    pub memstores: Seq<Changes>,
    pub threshold: usize,
    pub disk: DiskState,
}

// Reading tables.

/// The rows of a table, as its file has them.
pub open spec fn rows_in(files: Map<TableId, Seq<u8>>, info: InfoView) -> Result<Seq<RowView>, Error> {
    if !files.contains_key(info.id) {
        Err(Error::MissingTable(info.id))
    } else {
        match table::table_rows(files[info.id], info) {
            Some(found) => Ok(found),
            None => Err(Error::CorruptTable(info.id)),
        }
    }
}

/// What the given tables say, one map for each. The first table that cannot be read decides the
/// error.
pub open spec fn read_all(
    infos: Map<TableId, InfoView>,
    files: Map<TableId, Seq<u8>>,
    ids: Seq<TableId>,
) -> Result<Seq<Changes>, Error>
    decreases ids.len(),
{
    if ids.len() == 0 {
        Ok(Seq::empty())
    } else {
        match read_all(infos, files, ids.drop_last()) {
            Ok(maps) => match rows_in(files, infos[ids.last()]) {
                Ok(found) => Ok(maps.push(rows::to_map(found))),
                Err(e) => Err(e),
            },
            Err(e) => Err(e),
        }
    }
}

/// A table that cannot be read decides the error however many follow.
pub proof fn lemma_read_all_stuck(
    infos: Map<TableId, InfoView>,
    files: Map<TableId, Seq<u8>>,
    ids: Seq<TableId>,
    n: int,
)
    requires
        0 <= n <= ids.len(),
        read_all(infos, files, ids.take(n)) is Err,
    ensures
        read_all(infos, files, ids) == read_all(infos, files, ids.take(n)),
    decreases ids.len(),
{
    if n < ids.len() {
        assert(ids.drop_last().take(n) =~= ids.take(n));
        lemma_read_all_stuck(infos, files, ids.drop_last(), n);
    } else {
        assert(ids.take(n) =~= ids);
    }
}

/// What the first of the given tables that has a row for `key` says. Tables whose range does not
/// cover the key are not read.
pub open spec fn lookup_in(
    infos: Map<TableId, InfoView>,
    files: Map<TableId, Seq<u8>>,
    ids: Seq<TableId>,
    key: Seq<char>,
) -> Result<Option<Option<Seq<char>>>, Error>
    decreases ids.len(),
{
    if ids.len() == 0 {
        Ok(None)
    } else if !infos[ids[0]].covers(key) {
        lookup_in(infos, files, ids.drop_first(), key)
    } else {
        match rows_in(files, infos[ids[0]]) {
            Ok(found) => if rows::to_map(found).contains_key(key) {
                Ok(Some(rows::to_map(found)[key]))
            } else {
                lookup_in(infos, files, ids.drop_first(), key)
            },
            Err(e) => Err(e),
        }
    }
}

/// What the store says of `key`: `Some(mutation)` from the first place that has a row for it.
/// The memory stores come first, then the tables, level by level and the newest first.
pub open spec fn lookup(s: StoreState, key: Seq<char>) -> Result<Option<Option<Seq<char>>>, Error> {
    if rows::overlay(s.memstores).contains_key(key) {
        Ok(Some(rows::overlay(s.memstores)[key]))
    } else {
        lookup_in(s.disk.toc.infos, s.disk.files, toc::visits(s.disk.toc.infos, true), key)
    }
}

/// The value of `key`, where it has one.
pub open spec fn value_of(s: StoreState, key: Seq<char>) -> Result<Option<Seq<char>>, Error> {
    match lookup(s, key) {
        Ok(Some(Some(value))) => Ok(Some(value)),
        Ok(_) => Ok(None),
        Err(e) => Err(e),
    }
}

/// Everything that the store says of keys from a lower end on.
pub open spec fn scan(s: StoreState, lower: Bound<String>) -> Result<Changes, Error> {
    match read_all(s.disk.toc.infos, s.disk.files, toc::visits(s.disk.toc.infos, false)) {
        Ok(maps) => Ok(interval::from_lower(rows::overlay(s.memstores + maps), lower)),
        Err(e) => Err(e),
    }
}

/// The pairs that a walk has still to come, up to an upper end.
pub open spec fn pairs_below(changes: Changes, upper: Bound<String>) -> Map<Seq<char>, Seq<char>> {
    Map::new(
        |key: Seq<char>| changes.contains_key(key) && changes[key] is Some && interval::below_upper(key, upper),
        |key: Seq<char>| changes[key].unwrap(),
    )
}

/// What a map says of the keys behind `key`.
pub open spec fn behind(changes: Changes, key: Seq<char>) -> Changes {
    changes.filter_keys(|k: Seq<char>| order::key_less(key, k))
}

/// What a map says of the keys above an upper end.
pub open spec fn beyond(changes: Changes, upper: Bound<String>) -> Changes {
    changes.filter_keys(|k: Seq<char>| !interval::below_upper(k, upper))
}

/// What the tables say when they are carried out one after the other: of several that have a key,
/// the last one counts.
pub open spec fn stacked(maps: Seq<Changes>) -> Changes
    decreases maps.len(),
{
    if maps.len() == 0 {
        Map::empty()
    } else {
        stacked(maps.drop_last()).union_prefer_right(maps.last())
    }
}

/// The store that is opened on files: the memory stores are an empty one and one that has what all
/// the tables say, carried out in the order of their numbers.
pub open spec fn opened(log: Seq<u8>, files: Map<TableId, Seq<u8>>, threshold: usize) -> Result<StoreState, Error> {
    match log::replay(log) {
        Some(found) => match read_all(found.infos, files, toc::id_list(found.infos.dom())) {
            Ok(maps) => Ok(
                StoreState {
                    memstores: seq![Changes::empty(), stacked(maps)],
                    threshold,
                    disk: DiskState { toc: found, log, files },
                },
            ),
            Err(e) => Err(e),
        },
        None => Err(Error::CorruptToc),
    }
}

// Writing tables.

/// After an entry was added to the table of contents.
pub open spec fn recorded(d: DiskState, entry: EntryView) -> DiskState {
    DiskState { toc: toc::after_entry(d.toc, entry), log: d.log + log::entry_bytes(entry), files: d.files }
}

/// After the rows of a memory store were written to a new table of a level. Where there are no rows
/// nothing is written.
pub open spec fn written(d: DiskState, changes: Changes, level: LevelNumber) -> Result<DiskState, Error> {
    if changes == Changes::empty() {
        Ok(d)
    } else if d.toc.next_id == u64::MAX {
        Err(Error::IdsExhausted)
    } else {
        let id = d.toc.next_id;
        let all = rows::rows_of(changes);
        Ok(
            recorded(
                DiskState { files: d.files.insert(id, table::table_bytes(all)), ..d },
                EntryView { removals: Seq::empty(), additions: seq![table::info_of(all, id, level)] },
            ),
        )
    }
}

/// What is recorded of the given tables.
pub open spec fn infos_of(infos: Map<TableId, InfoView>, ids: Seq<TableId>) -> Seq<InfoView> {
    Seq::new(ids.len(), |i: int| infos[ids[i]])
}

/// The range of the table overlaps that of one of the others.
pub open spec fn overlaps_any(info: InfoView, others: Seq<InfoView>) -> bool {
    exists|i: int| 0 <= i < others.len() && info.overlaps(#[trigger] others[i])
}

/// The tables of a level whose ranges overlap those of the given tables.
pub open spec fn overlapping(
    infos: Map<TableId, InfoView>,
    others: Seq<InfoView>,
    level: LevelNumber,
) -> Seq<TableId> {
    toc::ids_at(infos, level).filter(|id: TableId| overlaps_any(infos[id], others))
}

/// The ranges of two of the tables overlap.
pub open spec fn self_overlaps(infos: Seq<InfoView>) -> bool {
    exists|i: int, j: int| 0 <= i < j < infos.len() && (#[trigger] infos[i]).overlaps(#[trigger] infos[j])
}

/// What is recorded of the tables, but with another level.
pub open spec fn on_level(infos: Seq<InfoView>, level: LevelNumber) -> Seq<InfoView> {
    Seq::new(infos.len(), |i: int| InfoView { level, ..infos[i] })
}

/// What is recorded of the tables of a level whose ranges do not overlap those of the given tables.
pub open spec fn clear_of(
    infos: Map<TableId, InfoView>,
    others: Seq<InfoView>,
    level: LevelNumber,
) -> Seq<InfoView> {
    infos_of(infos, toc::ids_at(infos, level).filter(|id: TableId| !overlaps_any(infos[id], others)))
}

/// The range of one of the tables lies between the two keys.
pub open spec fn parted(a: Seq<char>, b: Seq<char>, kept: Seq<InfoView>) -> bool {
    exists|i: int|
        0 <= i < kept.len() && order::key_less(a, (#[trigger] kept[i]).smallest_key) && order::key_less(
            kept[i].biggest_key,
            b,
        )
}

/// A table ends behind the first `n` rows: its size is beyond the threshold, or one of the tables
/// that are kept lies between it and the next row, or there are no more rows.
pub open spec fn ends(all: Seq<RowView>, threshold: usize, kept: Seq<InfoView>, n: int) -> bool {
    ||| n == all.len()
    ||| table::table_bytes(all.take(n)).len() > threshold
    ||| parted(all[n - 1].0, all[n].0, kept)
}

/// The first `n` rows make up a table: it is the first place where one ends.
pub open spec fn is_cut(all: Seq<RowView>, threshold: usize, kept: Seq<InfoView>, n: int) -> bool {
    &&& 1 <= n <= all.len()
    &&& ends(all, threshold, kept, n)
    &&& forall|m: int| 1 <= m < n ==> !#[trigger] ends(all, threshold, kept, m)
}

/// How many of the rows make up the first table.
pub open spec fn cut(all: Seq<RowView>, threshold: usize, kept: Seq<InfoView>) -> int {
    choose|n: int| is_cut(all, threshold, kept, n)
}

/// There is one way to cut off the first table.
pub proof fn lemma_cut(all: Seq<RowView>, threshold: usize, kept: Seq<InfoView>, n: int)
    requires
        is_cut(all, threshold, kept, n),
    ensures
        cut(all, threshold, kept) == n,
{
    let found = cut(all, threshold, kept);
    assert(is_cut(all, threshold, kept, found));
    if found < n {
        assert(!ends(all, threshold, kept, found));
    } else if n < found {
        assert(!ends(all, threshold, kept, n));
    }
}

proof fn lemma_cut_from(all: Seq<RowView>, threshold: usize, kept: Seq<InfoView>, n: int) -> (found: int)
    requires
        1 <= n <= all.len(),
        forall|m: int| 1 <= m < n ==> !#[trigger] ends(all, threshold, kept, m),
    ensures
        is_cut(all, threshold, kept, found),
    decreases all.len() - n,
{
    if ends(all, threshold, kept, n) {
        n
    } else {
        lemma_cut_from(all, threshold, kept, n + 1)
    }
}

/// Where there are rows, a first table can be cut off.
pub proof fn lemma_cut_exists(all: Seq<RowView>, threshold: usize, kept: Seq<InfoView>)
    requires
        all.len() > 0,
    ensures
        is_cut(all, threshold, kept, cut(all, threshold, kept)),
{
    let found = lemma_cut_from(all, threshold, kept, 1);
    lemma_cut(all, threshold, kept, found);
}

/// The rows, cut into tables.
pub open spec fn chunks(all: Seq<RowView>, threshold: usize, kept: Seq<InfoView>) -> Seq<Seq<RowView>>
    decreases all.len(),
{
    if all.len() == 0 {
        Seq::empty()
    } else {
        proof {
            lemma_cut_exists(all, threshold, kept);
        }
        let n = cut(all, threshold, kept);
        seq![all.take(n)] + chunks(all.skip(n), threshold, kept)
    }
}

/// What is recorded of new tables that are numbered from `first` on.
pub open spec fn infos_for(parts: Seq<Seq<RowView>>, first: TableId, level: LevelNumber) -> Seq<InfoView> {
    Seq::new(parts.len(), |i: int| table::info_of(parts[i], (first + i) as u64, level))
}

/// The table files with those of new tables that are numbered from `first` on.
pub open spec fn files_with(
    files: Map<TableId, Seq<u8>>,
    parts: Seq<Seq<RowView>>,
    first: TableId,
) -> Map<TableId, Seq<u8>>
    decreases parts.len(),
{
    if parts.len() == 0 {
        files
    } else {
        files_with(files, parts.drop_last(), first).insert(
            (first + parts.len() - 1) as u64,
            table::table_bytes(parts.last()),
        )
    }
}

/// After the rows were written to new tables of a level, in place of the tables in `removals` and
/// clear of those in `kept`.
pub open spec fn rewritten(
    d: DiskState,
    all: Seq<RowView>,
    threshold: usize,
    kept: Seq<InfoView>,
    level: LevelNumber,
    removals: Seq<TableId>,
) -> Result<DiskState, Error> {
    let parts = chunks(all, threshold, kept);
    if d.toc.next_id + parts.len() > u64::MAX {
        Err(Error::IdsExhausted)
    } else {
        Ok(
            recorded(
                DiskState { files: files_with(d.files, parts, d.toc.next_id), ..d },
                EntryView { removals, additions: infos_for(parts, d.toc.next_id, level) },
            ),
        )
    }
}

/// After the given tables of a level were merged with those of the next level that their ranges
/// overlap. Where nothing overlaps, the tables move to the next level as they are.
pub open spec fn releveled(
    d: DiskState,
    threshold: usize,
    level: LevelNumber,
    ids: Seq<TableId>,
) -> Result<DiskState, Error> {
    let uppers = infos_of(d.toc.infos, ids);
    let lower = overlapping(d.toc.infos, uppers, (level + 1) as u64);
    if lower.len() == 0 && !self_overlaps(uppers) {
        Ok(recorded(d, EntryView { removals: ids, additions: on_level(uppers, (level + 1) as u64) }))
    } else {
        match read_all(d.toc.infos, d.files, ids + lower) {
            Ok(maps) => rewritten(
                d,
                rows::rows_of(rows::overlay(maps)),
                threshold,
                clear_of(d.toc.infos, uppers, (level + 1) as u64),
                (level + 1) as u64,
                ids + lower,
            ),
            Err(e) => Err(e),
        }
    }
}

/// How many tables a level above zero may have.
pub open spec fn level_limit(level: LevelNumber) -> int {
    4 * power::pow(10, (level - 1) as nat)
}

/// How many tables of the next level the range of the table overlaps.
pub open spec fn overlap_count(infos: Map<TableId, InfoView>, level: LevelNumber, id: TableId) -> nat {
    overlapping(infos, seq![infos[id]], (level + 1) as u64).len()
}

/// The `i`th table of the level overlaps the fewest tables of the next level, and is the first one
/// that does.
pub open spec fn is_least_overlapping(infos: Map<TableId, InfoView>, level: LevelNumber, i: int) -> bool {
    let ids = toc::ids_at(infos, level);
    &&& 0 <= i < ids.len()
    &&& forall|j: int|
        0 <= j < ids.len() ==> overlap_count(infos, level, ids[i]) <= overlap_count(infos, level, #[trigger] ids[j])
    &&& forall|j: int|
        0 <= j < i ==> overlap_count(infos, level, ids[i]) < overlap_count(infos, level, #[trigger] ids[j])
}

/// The table that a level has to give up, where it has too many.
pub open spec fn surplus(infos: Map<TableId, InfoView>, level: LevelNumber) -> Option<TableId> {
    let ids = toc::ids_at(infos, level);
    if ids.len() <= level_limit(level) {
        None
    } else {
        Some(ids[choose|i: int| is_least_overlapping(infos, level, i)])
    }
}

/// There is one table that overlaps the fewest and is the first one that does.
pub proof fn lemma_least_overlapping(infos: Map<TableId, InfoView>, level: LevelNumber, i: int)
    requires
        is_least_overlapping(infos, level, i),
    ensures
        (choose|j: int| is_least_overlapping(infos, level, j)) == i,
{
    let j = choose|j: int| is_least_overlapping(infos, level, j);
    assert(is_least_overlapping(infos, level, j));
    let ids = toc::ids_at(infos, level);
    assert(overlap_count(infos, level, ids[i]) <= overlap_count(infos, level, ids[j]));
    assert(overlap_count(infos, level, ids[j]) <= overlap_count(infos, level, ids[i]));
}

/// What is left, and the answer, when a step has been tried: where it fails nothing changes.
pub open spec fn tried(d: DiskState, step: Result<DiskState, Error>) -> (DiskState, Result<(), Error>) {
    match step {
        Ok(next) => (next, Ok(())),
        Err(e) => (d, Err(e)),
    }
}

/// After each level from `level` up to, but not including, `top` gave up a table where it had too
/// many, and the answer. Where a level fails to, what the levels before it gave up stays so.
pub open spec fn settled(d: DiskState, threshold: usize, level: LevelNumber, top: LevelNumber) -> (
    DiskState,
    Result<(), Error>,
)
    decreases top - level,
{
    if level >= top {
        (d, Ok(()))
    } else {
        match surplus(d.toc.infos, level) {
            None => settled(d, threshold, (level + 1) as u64, top),
            Some(id) => match releveled(d, threshold, level, seq![id]) {
                Ok(next) => settled(next, threshold, (level + 1) as u64, top),
                Err(e) => (d, Err(e)),
            },
        }
    }
}

/// The tables of level zero but for the newest, the newest first.
pub open spec fn older_on_zero(infos: Map<TableId, InfoView>) -> Seq<TableId> {
    toc::ids_at(infos, 0).drop_last().reverse()
}

/// After a rebalance: where level zero has more than four tables, all but the newest of them are
/// releveled into level one. Otherwise each further level below the highest gives up a table where it
/// has too many. The answer comes with it.
pub open spec fn rebalanced(d: DiskState, threshold: usize) -> (DiskState, Result<(), Error>) {
    if toc::ids_at(d.toc.infos, 0).len() > 4 {
        tried(d, releveled(d, threshold, 0, older_on_zero(d.toc.infos)))
    } else {
        settled(d, threshold, 1, toc::max_level(d.toc.infos))
    }
}

/// The memory stores without the first one. There is always one.
pub open spec fn without_first(memstores: Seq<Changes>) -> Seq<Changes> {
    if memstores.len() > 1 {
        memstores.drop_first()
    } else {
        seq![Changes::empty()]
    }
}

/// After the first memory store was written to a table, and the levels were rebalanced, and the
/// answer. Where it cannot be written nothing changes. Where the rebalance fails, the table and what
/// was rebalanced so far stay, and the memory store, whose rows are in the table, is gone.
pub open spec fn flushed(s: StoreState) -> (StoreState, Result<(), Error>) {
    match written(s.disk, s.memstores[0], 0) {
        Ok(d) => {
            let (disk, answer) = rebalanced(d, s.threshold);
            let memstores = match answer {
                Ok(_) => s.memstores.update(0, Changes::empty()),
                Err(_) => without_first(s.memstores),
            };
            (StoreState { memstores, disk, ..s }, answer)
        },
        Err(e) => (s, Err(e)),
    }
}

/// The store with a row put into its first memory store.
pub open spec fn applied(s: StoreState, key: Seq<char>, mutation: Option<Seq<char>>) -> StoreState {
    StoreState { memstores: s.memstores.update(0, s.memstores[0].insert(key, mutation)), ..s }
}

/// The first memory store has reached the size at which it is written to a table.
pub open spec fn is_full(s: StoreState) -> bool {
    memstore::usage(rows::rows_of(s.memstores[0])) >= s.threshold
}

/// After a row was put in, and the answer: a memory store that is full then is flushed.
pub open spec fn changed(s: StoreState, key: Seq<char>, mutation: Option<Seq<char>>) -> (
    StoreState,
    Result<(), Error>,
) {
    let next = applied(s, key, mutation);
    if is_full(next) {
        flushed(next)
    } else {
        (next, Ok(()))
    }
}

/// `true` where there was no error.
pub open spec fn done(answer: Result<(), Error>) -> Result<bool, Error> {
    match answer {
        Ok(_) => Ok(true),
        Err(e) => Err(e),
    }
}

/// What the fields of a directory are to a store.
pub open spec fn disk_of(contents: TocState, directory: Directory) -> DiskState {
    DiskState { toc: contents, log: directory.toc_log@, files: directory.files() }
}

} // verus!
