//! Moving rows down the levels.
use crate::directory;
use crate::directory::{Directory, TableFile};
use crate::error::Error;
use crate::interval;
use crate::interval::Bound;
use crate::iter;
use crate::iter::{MergeIterator, Run, Source};
use crate::log;
use crate::memstore::MemStore;
use crate::merging;
use crate::model;
use crate::order;
use crate::order::Side;
use crate::rows;
use crate::rows::{Changes, Row, RowView};
use crate::store::Store;
use crate::table;
use crate::table::{InfoView, LevelNumber, TableBuilder, TableId, TableInfo};
use crate::toc;
use crate::toc::{Entry, EntryView, TOC};
use vstd::arithmetic::power;
use vstd::prelude::*;

verus! {

/// Reads the rows of a table from its file.
pub fn load(directory: &Directory, info: &TableInfo) -> (loaded: Result<Vec<Row>, Error>)
    ensures
        match loaded {
            Ok(found) => model::rows_in(directory.files(), info@) == Ok::<Seq<RowView>, Error>(rows::views(found@))
                && rows::sorted(rows::views(found@)),
            Err(e) => model::rows_in(directory.files(), info@) == Err::<Seq<RowView>, Error>(e),
        },
{
    match directory.find(info.id) {
        Some(bytes) => match table::read_table(bytes, info) {
            Some(found) => Ok(found),
            None => Err(Error::CorruptTable(info.id)),
        },
        None => Err(Error::MissingTable(info.id)),
    }
}

/// Whether a level above zero with this many tables has too many.
fn is_over_limit(count: usize, level: LevelNumber) -> (over: bool)
    requires
        level >= 1,
    ensures
        over == (count > model::level_limit(level)),
{
    let mut limit: u64 = 4;
    let mut reached: LevelNumber = 1;
    proof {
        power::lemma_pow0(10);
    }
    while reached < level
        invariant
            1 <= reached <= level,
            limit == model::level_limit(reached),
        decreases level - reached,
    {
        proof {
            let e = (reached - 1) as nat;
            power::lemma_pow_adds(10, e, 1);
            power::lemma_pow1(10);
            power::lemma_pow_increases(10, e + 1, (level - 1) as nat);
            assert(model::level_limit((reached + 1) as u64) == 10 * limit);
        }
        if limit > u64::MAX / 10 {
            return false;
        }
        limit = limit * 10;
        reached = reached + 1;
    }
    count as u64 > limit
}

/// Whether the range of one of the tables lies between the two keys.
fn lies_between(a: &str, b: &str, kept: &Vec<TableInfo>) -> (between: bool)
    ensures
        between == model::parted(a@, b@, toc::info_views(kept@)),
{
    broadcast use order::group_key_order;

    let ghost v = toc::info_views(kept@);
    let mut i: usize = 0;
    while i < kept.len()
        invariant
            v == toc::info_views(kept@),
            i <= kept.len(),
            forall|j: int|
                0 <= j < i ==> !(order::key_less(a@, (#[trigger] v[j]).smallest_key) && order::key_less(
                    v[j].biggest_key,
                    b@,
                )),
        decreases kept.len() - i,
    {
        broadcast use order::group_key_order;

        assert(v[i as int] == kept[i as int]@);
        match order::compare(a, kept[i].smallest_key.as_str()) {
            Side::Before => match order::compare(kept[i].biggest_key.as_str(), b) {
                Side::Before => {
                    return true;
                },
                _ => {},
            },
            _ => {},
        }
        i += 1;
    }
    false
}

/// Fills a table with the rows that the walk has next, up to the first place where a table ends.
fn next_table(
    walk: &mut MergeIterator,
    threshold: usize,
    kept: &Vec<TableInfo>,
    Ghost(all): Ghost<Seq<RowView>>,
) -> (builder: TableBuilder)
    requires
        old(walk).wf(),
        rows::sorted(all),
        old(walk)@ == rows::to_map(all),
    ensures
        final(walk).wf(),
        builder.wf(),
        builder@.len() <= all.len(),
        builder@ == all.take(builder@.len() as int),
        final(walk)@ == rows::to_map(all.skip(builder@.len() as int)),
        all.len() > 0 ==> model::is_cut(all, threshold, toc::info_views(kept@), builder@.len() as int),
{
    let ghost fences = toc::info_views(kept@);
    let mut builder: TableBuilder = TableBuilder::new();
    let ghost mut n: int = 0;
    proof {
        assert(all.take(0) =~= Seq::<RowView>::empty());
        assert(all.skip(0) =~= all);
    }
    let mut full: bool = false;
    while !full
        invariant
            walk.wf(),
            builder.wf(),
            rows::sorted(all),
            fences == toc::info_views(kept@),
            0 <= n <= all.len(),
            builder@ == all.take(n),
            walk@ == rows::to_map(all.skip(n)),
            forall|m: int| 1 <= m < n ==> !#[trigger] model::ends(all, threshold, fences, m),
            !full ==> n == 0 || !model::ends(all, threshold, fences, n),
            full ==> n == all.len() || n > 0 && model::ends(all, threshold, fences, n),
        decreases all.len() - n, (if full { 0int } else { 1int }),
    {
        proof {
            rows::lemma_head(all, n);
        }
        match walk.current_key() {
            Some(next_key) => {
                let key: String = next_key.clone();
                proof {
                    if n == all.len() {
                        assert(walk@.contains_key(key@));
                    }
                    iter::lemma_least_key(walk@, all[n].0);
                }
                match walk.current_value() {
                    Some(mutation) => {
                        builder.add_mutation(key.as_str(), mutation);
                    },
                    None => {
                        assert(walk@.contains_key(key@));
                        assert(false);
                    },
                }
                proof {
                    assert(walk@ != Changes::empty());
                    assert(all.take(n + 1) =~= all.take(n).push(all[n]));
                }
                walk.step();
                proof {
                    n = n + 1;
                    rows::lemma_head(all, n);
                }
                let parted: bool = match walk.current_key() {
                    Some(following) => {
                        proof {
                            if n == all.len() {
                                assert(walk@.contains_key(following@));
                            }
                            iter::lemma_least_key(walk@, all[n].0);
                        }
                        lies_between(key.as_str(), following.as_str(), kept)
                    },
                    None => {
                        proof {
                            if n < all.len() {
                                assert(walk@.contains_key(all[n].0));
                            }
                        }
                        true
                    },
                };
                if parted || builder.file_size() > threshold as u128 {
                    full = true;
                }
            },
            None => {
                proof {
                    if n < all.len() {
                        assert(walk@.contains_key(all[n].0));
                    }
                }
                full = true;
            },
        }
    }
    assert(all.take(n).len() == n);
    builder
}

proof fn lemma_files_with(old_tables: Seq<TableFile>, added: Seq<TableFile>, parts: Seq<Seq<RowView>>, first: TableId)
    requires
        added.len() == parts.len(),
        first + parts.len() <= u64::MAX,
        forall|i: int|
            0 <= i < added.len() ==> (#[trigger] added[i]).id == first + i && added[i].bytes@ == table::table_bytes(
                parts[i],
            ),
    ensures
        directory::files_of(old_tables + added) == model::files_with(directory::files_of(old_tables), parts, first),
    decreases parts.len(),
{
    let all = old_tables + added;
    if parts.len() == 0 {
        assert(all =~= old_tables);
    } else {
        assert(all.drop_last() =~= old_tables + added.drop_last());
        assert forall|i: int| 0 <= i < added.drop_last().len() implies (#[trigger] added.drop_last()[i]).id == first
            + i && added.drop_last()[i].bytes@ == table::table_bytes(parts.drop_last()[i]) by {
            assert(added[i].id == first + i);
        }
        lemma_files_with(old_tables, added.drop_last(), parts.drop_last(), first);
        assert(added[added.len() - 1].id == first + parts.len() - 1);
    }
}

/// Writes the rows of a walk to new tables of a level, numbered from `first` on and clear of those
/// that are kept.
fn write_tables(
    walk: MergeIterator,
    threshold: usize,
    kept: &Vec<TableInfo>,
    level: LevelNumber,
    first: TableId,
    Ghost(all): Ghost<Seq<RowView>>,
) -> (result: Result<(Vec<TableFile>, Vec<TableInfo>), Error>)
    requires
        walk.wf(),
        rows::sorted(all),
        walk@ == rows::to_map(all),
    ensures
        match result {
            Ok((files, infos)) => {
                let parts = model::chunks(all, threshold, toc::info_views(kept@));
                &&& first + parts.len() <= u64::MAX
                &&& toc::info_views(infos@) == model::infos_for(parts, first, level)
                &&& files.len() == parts.len()
                &&& forall|i: int|
                    0 <= i < files.len() ==> (#[trigger] files[i]).id == first + i && files[i].bytes@
                        == table::table_bytes(parts[i])
            },
            Err(e) => e == Error::IdsExhausted && first + model::chunks(all, threshold, toc::info_views(kept@)).len() > u64::MAX,
        },
{
    let ghost fences = toc::info_views(kept@);
    let ghost parts = model::chunks(all, threshold, fences);
    let mut walk: MergeIterator = walk;
    let mut files: Vec<TableFile> = Vec::new();
    let mut infos: Vec<TableInfo> = Vec::new();
    let mut next_id: TableId = first;
    let ghost mut rest: Seq<RowView> = all;
    let mut done: bool = false;
    assert(parts.skip(0) =~= parts);
    while !done
        invariant
            walk.wf(),
            rows::sorted(rest),
            walk@ == rows::to_map(rest),
            fences == toc::info_views(kept@),
            parts == model::chunks(all, threshold, fences),
            files.len() == infos.len(),
            files.len() <= parts.len(),
            next_id == first + files.len(),
            parts.skip(files.len() as int) == model::chunks(rest, threshold, fences),
            forall|i: int|
                0 <= i < files.len() ==> (#[trigger] files[i]).id == first + i && files[i].bytes@
                    == table::table_bytes(parts[i]),
            forall|i: int|
                0 <= i < infos.len() ==> (#[trigger] infos[i])@ == table::info_of(parts[i], (first + i) as u64, level),
            done ==> rest.len() == 0,
        decreases rest.len(), (if done { 0int } else { 1int }),
    {
        let builder: TableBuilder = next_table(&mut walk, threshold, kept, Ghost(rest));
        if builder.is_empty() {
            done = true;
        } else {
            let ghost n = builder@.len() as int;
            proof {
                model::lemma_cut(rest, threshold, fences, n);
                let here = parts.skip(files.len() as int);
                assert(here =~= seq![rest.take(n)] + model::chunks(rest.skip(n), threshold, fences));
                assert(here.len() > 0);
                assert(here[0] == rest.take(n));
                assert(parts[files.len() as int] == rest.take(n));
                assert(parts.skip(files.len() + 1) =~= model::chunks(rest.skip(n), threshold, fences)) by {
                    assert(here.skip(1) =~= model::chunks(rest.skip(n), threshold, fences));
                    assert(parts.skip(files.len() + 1) =~= here.skip(1));
                }
                assert(rows::sorted(rest.skip(n)));
            }
            if next_id == u64::MAX {
                return Err(Error::IdsExhausted);
            }
            let (bytes, info) = builder.finish(next_id, level);
            files.push(TableFile { id: next_id, bytes });
            infos.push(info);
            next_id = next_id + 1;
            proof {
                rest = rest.skip(n);
            }
        }
    }
    proof {
        assert(parts.skip(files.len() as int).len() == 0);
        assert(toc::info_views(infos@) =~= model::infos_for(parts, first, level));
    }
    Ok((files, infos))
}

impl Store {
    /// Whether the ranges of two tables overlap.
    fn tables_overlap(x: &TableInfo, y: &TableInfo) -> (overlapping: bool)
        ensures
            overlapping == x@.overlaps(y@),
    {
        x.overlaps(y)
    }

    /// Whether the ranges of any two of the tables overlap.
    pub fn self_overlaps(xs: &Vec<TableInfo>) -> (overlapping: bool)
        ensures
            overlapping == model::self_overlaps(toc::info_views(xs@)),
    {
        let ghost v = toc::info_views(xs@);
        let mut i: usize = 0;
        while i < xs.len()
            invariant
                i <= xs.len(),
                v == toc::info_views(xs@),
                forall|a: int, b: int| 0 <= a < i && a < b < v.len() ==> !(#[trigger] v[a]).overlaps(#[trigger] v[b]),
            decreases xs.len() - i,
        {
            let mut j: usize = i + 1;
            while j < xs.len()
                invariant
                    i < j <= xs.len(),
                    v == toc::info_views(xs@),
                    forall|b: int| i < b < j ==> !v[i as int].overlaps(#[trigger] v[b]),
                decreases xs.len() - j,
            {
                if Store::tables_overlap(&xs[i], &xs[j]) {
                    assert(v[i as int].overlaps(v[j as int]));
                    return true;
                }
                assert(v[j as int] == xs[j as int]@);
                j += 1;
            }
            i += 1;
        }
        false
    }

    /// Whether the range of the table overlaps that of one of the others.
    fn overlaps_any(info: &TableInfo, others: &Vec<TableInfo>) -> (overlapping: bool)
        ensures
            overlapping == model::overlaps_any(info@, toc::info_views(others@)),
    {
        let ghost v = toc::info_views(others@);
        let mut i: usize = 0;
        while i < others.len()
            invariant
                v == toc::info_views(others@),
                i <= others.len(),
                forall|n: int| 0 <= n < i ==> !info@.overlaps(#[trigger] v[n]),
            decreases others.len() - i,
        {
            assert(v[i as int] == others[i as int]@);
            if Store::tables_overlap(info, &others[i]) {
                return true;
            }
            i += 1;
        }
        false
    }

    /// The tables of a level whose ranges overlap one of the given tables, or those that do not.
    fn tables_by_overlap(
        contents: &TOC,
        tables: &Vec<TableInfo>,
        level: LevelNumber,
        overlapping: bool,
    ) -> (ids: Vec<TableId>)
        requires
            contents.wf(),
        ensures
            ids@ == toc::ids_at(contents@.infos, level).filter(
                |id: TableId| model::overlaps_any(contents@.infos[id], toc::info_views(tables@)) == overlapping,
            ),
            forall|i: int| 0 <= i < ids.len() ==> contents@.infos.contains_key(#[trigger] ids[i]),
    {
        let ghost infos = contents@.infos;
        let ghost others = toc::info_views(tables@);
        let ghost pred = |id: TableId| model::overlaps_any(infos[id], others) == overlapping;
        let level_tables: Vec<TableId> = contents.ids_at(level);
        let mut ids: Vec<TableId> = Vec::new();
        let mut i: usize = 0;
        assert(level_tables@.take(0) =~= Seq::<TableId>::empty());
        assert(level_tables@.take(0).filter(pred) =~= Seq::<TableId>::empty()) by {
            reveal(Seq::filter);
        }
        while i < level_tables.len()
            invariant
                contents.wf(),
                infos == contents@.infos,
                others == toc::info_views(tables@),
                pred == (|id: TableId| model::overlaps_any(infos[id], others) == overlapping),
                i <= level_tables.len(),
                ids@ == level_tables@.take(i as int).filter(pred),
                forall|id: TableId| level_tables@.contains(id) ==> infos.contains_key(id),
                forall|n: int| 0 <= n < ids.len() ==> infos.contains_key(#[trigger] ids[n]),
            decreases level_tables.len() - i,
        {
            let id: TableId = level_tables[i];
            assert(level_tables@.contains(id));
            match contents.find(id) {
                Some(info) => {
                    let wanted: bool = Store::overlaps_any(info, tables) == overlapping;
                    assert(wanted == pred(id));
                    if wanted {
                        ids.push(id);
                    }
                    proof {
                        reveal(Seq::filter);
                        assert(level_tables@.take(i + 1).drop_last() =~= level_tables@.take(i as int));
                    }
                },
                None => {},
            }
            i += 1;
        }
        assert(level_tables@.take(i as int) =~= level_tables@);
        ids
    }

    /// The tables of a level whose ranges overlap those of the given tables.
    pub fn get_overlapping_tables(contents: &TOC, tables: &Vec<TableInfo>, level: LevelNumber) -> (ids: Vec<TableId>)
        requires
            contents.wf(),
        ensures
            ids@ == model::overlapping(contents@.infos, toc::info_views(tables@), level),
            forall|i: int| 0 <= i < ids.len() ==> contents@.infos.contains_key(#[trigger] ids[i]),
    {
        let ghost infos = contents@.infos;
        let ghost others = toc::info_views(tables@);
        proof {
            assert((|id: TableId| model::overlaps_any(infos[id], others) == true) =~= (|id: TableId|
                model::overlaps_any(infos[id], others)));
        }
        Store::tables_by_overlap(contents, tables, level, true)
    }

    /// What is recorded of the tables of a level whose ranges do not overlap those of the given tables.
    fn tables_clear_of(&self, tables: &Vec<TableInfo>, level: LevelNumber) -> (kept: Vec<TableInfo>)
        requires
            self.toc.wf(),
        ensures
            toc::info_views(kept@) == model::clear_of(self.toc@.infos, toc::info_views(tables@), level),
    {
        let ghost infos = self.toc@.infos;
        let ghost others = toc::info_views(tables@);
        proof {
            assert((|id: TableId| model::overlaps_any(infos[id], others) == false) =~= (|id: TableId|
                !model::overlaps_any(infos[id], others)));
        }
        let ids: Vec<TableId> = Store::tables_by_overlap(&self.toc, tables, level, false);
        self.infos_of(&ids)
    }

    /// Carries out an entry of the table of contents and adds it to the log.
    fn append_toc(&mut self, entry: Entry)
        requires
            old(self).toc.wf(),
            toc::ids_bounded(entry@.additions),
        ensures
            final(self).toc.wf(),
            final(self).disk() == model::recorded(old(self).disk(), entry@),
            final(self).memstores == old(self).memstores,
            final(self).threshold == old(self).threshold,
            final(self).directory.tables == old(self).directory.tables,
            final(self).directory.toc_log@ == old(self).directory.toc_log@ + log::entry_bytes(entry@),
            old(self).is_recorded() ==> final(self).is_recorded(),
    {
        self.toc.apply(&entry);
        log::write_entry(&mut self.directory.toc_log, &entry);
        proof {
            if old(self).is_recorded() {
                log::lemma_replay_append(old(self).directory.toc_log@, entry@);
            }
        }
    }

    /// Writes the rows of a memory store to a new table of a level. Where there are no rows nothing is
    /// written.
    pub fn flush_and_record(&mut self, level: LevelNumber, ms: &MemStore) -> (result: Result<(), Error>)
        requires
            old(self).toc.wf(),
            ms.wf(),
        ensures
            final(self).toc.wf(),
            final(self).memstores == old(self).memstores,
            final(self).threshold == old(self).threshold,
            final(self).extends(*old(self)),
            old(self).is_recorded() ==> final(self).is_recorded(),
            old(self).has_levels_apart() && level == 0 ==> final(self).has_levels_apart(),
            old(self).is_sound() && level == 0 ==> final(self).is_sound(),
            match model::written(old(self).disk(), ms@, level) {
                Ok(d) => result == Ok::<(), Error>(()) && final(self).disk() == d,
                Err(e) => result == Err::<(), Error>(e) && final(self).disk() == old(self).disk(),
            },
    {
        if ms.is_empty() {
            return Ok(());
        }
        let table_id: TableId = self.toc.next_table_id;
        if table_id == u64::MAX {
            return Err(Error::IdsExhausted);
        }
        let ghost all = rows::views(ms.entries@);
        proof {
            ms.lemma_rows();
        }
        let mut builder: TableBuilder = TableBuilder::new();
        let mut i: usize = 0;
        assert(all.take(0) =~= Seq::<RowView>::empty());
        while i < ms.entries.len()
            invariant
                builder.wf(),
                all == rows::views(ms.entries@),
                i <= ms.entries.len(),
                builder@ == all.take(i as int),
            decreases ms.entries.len() - i,
        {
            builder.add_mutation(ms.entries[i].key.as_str(), &ms.entries[i].mutation);
            proof {
                assert(all.take(i + 1) =~= all.take(i as int).push(all[i as int]));
            }
            i += 1;
        }
        proof {
            assert(all.take(i as int) =~= all);
            if all.len() == 0 {
                assert(ms@ =~= Changes::empty());
            }
        }
        let (bytes, info) = builder.finish(table_id, level);
        self.directory.write_table(table_id, bytes);
        let mut additions: Vec<TableInfo> = Vec::new();
        additions.push(info);
        let entry = Entry { removals: Vec::new(), additions };
        proof {
            assert(entry@.additions =~= seq![table::info_of(all, table_id, level)]);
            assert(entry@.removals =~= Seq::<TableId>::empty());
        }
        self.append_toc(entry);
        proof {
            old(self).toc.lemma_listed();
            if old(self).has_levels_apart() && level == 0 {
                merging::lemma_written_apart(old(self).disk(), ms@, self.disk());
            }
            if old(self).is_sound() && level == 0 {
                merging::lemma_directory_fits(self.toc@, self.directory);
                rows::lemma_to_map(all);
                merging::lemma_written(old(self).disk(), ms@, self.disk());
            }
        }
        Ok(())
    }

    /// What is recorded of the given tables.
    fn infos_of(&self, ids: &Vec<TableId>) -> (infos: Vec<TableInfo>)
        requires
            self.toc.wf(),
            forall|i: int| 0 <= i < ids.len() ==> self.toc@.infos.contains_key(#[trigger] ids[i]),
        ensures
            toc::info_views(infos@) == model::infos_of(self.toc@.infos, ids@),
    {
        let mut infos: Vec<TableInfo> = Vec::new();
        let mut i: usize = 0;
        while i < ids.len()
            invariant
                self.toc.wf(),
                i <= ids.len(),
                infos.len() == i,
                forall|j: int| 0 <= j < ids.len() ==> self.toc@.infos.contains_key(#[trigger] ids[j]),
                forall|j: int| 0 <= j < i ==> (#[trigger] infos[j])@ == self.toc@.infos[ids[j]],
            decreases ids.len() - i,
        {
            assert(self.toc@.infos.contains_key(ids[i as int]));
            match self.toc.find(ids[i]) {
                Some(info) => {
                    infos.push(info.duplicate());
                },
                None => {
                    assert(false);
                },
            }
            i += 1;
        }
        assert(toc::info_views(infos@) =~= model::infos_of(self.toc@.infos, ids@));
        infos
    }

    /// Adds the rows of a table, from a lower end on, to the runs of a walk.
    pub fn add_table_iter_to_iters<'a>(
        &self,
        iters: &mut Vec<Source<'a>>,
        table_id: TableId,
        lower_bound: &Bound<String>,
    ) -> (result: Result<(), Error>)
        requires
            self.toc.wf(),
            self.toc@.infos.contains_key(table_id),
        ensures
            match model::rows_in(self.directory.files(), self.toc@.infos[table_id]) {
                Ok(found) => {
                    &&& result is Ok
                    &&& final(iters).len() == old(iters).len() + 1
                    &&& final(iters)@.drop_last() == old(iters)@
                    &&& final(iters)@.last().wf()
                    &&& final(iters)@.last()@ == interval::from_lower(rows::to_map(found), *lower_bound)
                },
                Err(e) => result == Err::<(), Error>(e) && final(iters)@ == old(iters)@,
            },
    {
        match self.toc.find(table_id) {
            Some(info) => match load(&self.directory, info) {
                Ok(found) => {
                    iters.push(Source::make(Run::Table(found), lower_bound));
                    Ok(())
                },
                Err(e) => Err(e),
            },
            None => {
                assert(false);
                Err(Error::MissingTable(table_id))
            },
        }
    }

    /// Adds the rows of several tables, from a lower end on, to the runs of a walk. Those that come
    /// first supersede the others.
    pub(crate) fn add_tables<'a>(
        &self,
        iters: &mut Vec<Source<'a>>,
        ids: &Vec<TableId>,
        lower_bound: &Bound<String>,
    ) -> (result: Result<(), Error>)
        requires
            self.toc.wf(),
            forall|i: int| 0 <= i < ids.len() ==> self.toc@.infos.contains_key(#[trigger] ids[i]),
            forall|i: int| 0 <= i < old(iters).len() ==> (#[trigger] old(iters)[i]).wf(),
        ensures
            forall|i: int| 0 <= i < final(iters).len() ==> (#[trigger] final(iters)[i]).wf(),
            match model::read_all(self.toc@.infos, self.directory.files(), ids@) {
                Ok(maps) => {
                    &&& result is Ok
                    &&& iter::layers(final(iters)@) == iter::layers(old(iters)@) + iter::narrowed(maps, *lower_bound)
                },
                Err(e) => result == Err::<(), Error>(e),
            },
    {
        let ghost infos = self.toc@.infos;
        let ghost files = self.directory.files();
        let ghost before = iter::layers(iters@);
        let ghost mut maps: Seq<Changes> = Seq::empty();
        let mut i: usize = 0;
        proof {
            assert(ids@.take(0) =~= Seq::<TableId>::empty());
            assert(before + iter::narrowed(maps, *lower_bound) =~= before);
        }
        while i < ids.len()
            invariant
                self.toc.wf(),
                infos == self.toc@.infos,
                files == self.directory.files(),
                i <= ids.len(),
                forall|n: int| 0 <= n < ids.len() ==> infos.contains_key(#[trigger] ids[n]),
                forall|n: int| 0 <= n < iters.len() ==> (#[trigger] iters[n]).wf(),
                model::read_all(infos, files, ids@.take(i as int)) == Ok::<Seq<Changes>, Error>(maps),
                iter::layers(iters@) == before + iter::narrowed(maps, *lower_bound),
            decreases ids.len() - i,
        {
            assert(infos.contains_key(ids[i as int]));
            let ghost so_far = iters@;
            proof {
                assert(ids@.take(i + 1).drop_last() =~= ids@.take(i as int));
            }
            match self.add_table_iter_to_iters(iters, ids[i], lower_bound) {
                Ok(()) => {
                    proof {
                        let found = model::rows_in(files, infos[ids[i as int]])->Ok_0;
                        let more = maps.push(rows::to_map(found));
                        assert(iters@ =~= so_far.push(iters@.last()));
                        assert(iter::layers(iters@) =~= iter::layers(so_far).push(iters@.last()@));
                        assert(iter::narrowed(more, *lower_bound) =~= iter::narrowed(maps, *lower_bound).push(
                            interval::from_lower(rows::to_map(found), *lower_bound),
                        ));
                        assert(iter::layers(iters@) =~= before + iter::narrowed(more, *lower_bound));
                        assert forall|n: int| 0 <= n < iters.len() implies (#[trigger] iters[n]).wf() by {
                            if n < so_far.len() {
                                assert(iters@.drop_last()[n] == so_far[n]);
                            }
                        }
                        maps = more;
                    }
                },
                Err(e) => {
                    proof {
                        model::lemma_read_all_stuck(infos, files, ids@, i + 1);
                    }
                    return Err(e);
                },
            }
            i += 1;
        }
        assert(ids@.take(i as int) =~= ids@);
        Ok(())
    }

    /// Writes the rows of a walk to new tables of a level, in place of the tables in `removals` and clear
    /// of those that are kept.
    fn rewrite(
        &mut self,
        walk: MergeIterator,
        kept: &Vec<TableInfo>,
        level: LevelNumber,
        removals: Vec<TableId>,
        Ghost(all): Ghost<Seq<RowView>>,
    ) -> (result: Result<(), Error>)
        requires
            old(self).toc.wf(),
            walk.wf(),
            rows::sorted(all),
            walk@ == rows::to_map(all),
        ensures
            final(self).toc.wf(),
            final(self).memstores == old(self).memstores,
            final(self).threshold == old(self).threshold,
            final(self).extends(*old(self)),
            old(self).is_recorded() ==> final(self).is_recorded(),
            match model::rewritten(
                old(self).disk(),
                all,
                old(self).threshold,
                toc::info_views(kept@),
                level,
                removals@,
            ) {
                Ok(d) => result == Ok::<(), Error>(()) && final(self).disk() == d,
                Err(e) => result == Err::<(), Error>(e) && final(self).disk() == old(self).disk(),
            },
    {
        let first: TableId = self.toc.next_table_id;
        let ghost parts = model::chunks(all, self.threshold, toc::info_views(kept@));
        match write_tables(walk, self.threshold, kept, level, first, Ghost(all)) {
            Ok((new_files, additions)) => {
                let mut new_files: Vec<TableFile> = new_files;
                proof {
                    lemma_files_with(self.directory.tables@, new_files@, parts, first);
                }
                self.directory.tables.append(&mut new_files);
                let entry = Entry { removals, additions };
                proof {
                    assert forall|n: int| 0 <= n < entry@.additions.len() implies (#[trigger] entry@.additions[n]).id
                        < u64::MAX by {
                        assert(entry@.additions[n] == model::infos_for(parts, first, level)[n]);
                    }
                }
                self.append_toc(entry);
                Ok(())
            },
            Err(e) => Err(e),
        }
    }

    /// Moves the given tables to a level as they are.
    fn record_on_level(&mut self, level: LevelNumber, tables: Vec<TableId>, table_infos: Vec<TableInfo>)
        requires
            old(self).toc.wf(),
            forall|i: int| 0 <= i < tables.len() ==> old(self).toc@.infos.contains_key(#[trigger] tables[i]),
            toc::info_views(table_infos@) == model::infos_of(old(self).toc@.infos, tables@),
        ensures
            final(self).toc.wf(),
            final(self).memstores == old(self).memstores,
            final(self).threshold == old(self).threshold,
            final(self).extends(*old(self)),
            old(self).is_recorded() ==> final(self).is_recorded(),
            final(self).disk() == model::recorded(
                old(self).disk(),
                (EntryView {
                    removals: tables@,
                    additions: model::on_level(model::infos_of(old(self).toc@.infos, tables@), level),
                }),
            ),
    {
        let ghost uppers = toc::info_views(table_infos@);
        let mut additions: Vec<TableInfo> = table_infos;
        let mut i: usize = 0;
        while i < additions.len()
            invariant
                i <= additions.len(),
                additions.len() == uppers.len(),
                forall|n: int| i <= n < additions.len() ==> (#[trigger] additions[n])@ == uppers[n],
                forall|n: int| 0 <= n < i ==> (#[trigger] additions[n])@ == (InfoView { level, ..uppers[n] }),
            decreases additions.len() - i,
        {
            additions[i].level = level;
            i += 1;
        }
        let entry = Entry { removals: tables, additions };
        proof {
            self.toc.lemma_listed();
            assert(entry@.additions =~= model::on_level(uppers, level));
            assert forall|n: int| 0 <= n < entry@.additions.len() implies (#[trigger] entry@.additions[n]).id
                < u64::MAX by {
                assert(self.toc@.infos.contains_key(tables[n]));
                assert(uppers[n] == self.toc@.infos[tables[n]]);
            }
        }
        self.append_toc(entry);
    }

    /// Merges the given tables of a level with those of the next level that their ranges overlap.
    /// The tables are given in the order of precedence, the frontmost superseding the others. New tables
    /// are cut so that none spans a table of the next level that does not take part. Where nothing
    /// overlaps, the given tables move to the next level as they are.
    pub fn relevel(&mut self, level: LevelNumber, tables: Vec<TableId>) -> (result: Result<(), Error>)
        requires
            old(self).toc.wf(),
            level < u64::MAX,
            if level == 0 {
                tables.len() > 0
            } else {
                tables.len() == 1
            },
            forall|i: int| 0 <= i < tables.len() ==> old(self).toc@.infos.contains_key(#[trigger] tables[i]),
        ensures
            final(self).toc.wf(),
            final(self).memstores == old(self).memstores,
            final(self).threshold == old(self).threshold,
            final(self).extends(*old(self)),
            old(self).is_recorded() ==> final(self).is_recorded(),
            old(self).has_levels_apart() ==> final(self).has_levels_apart(),
            old(self).is_sound() && merging::mergeable(old(self).disk(), level, tables@) ==> final(self).is_sound() && (
            result matches Err(e) ==> e == Error::IdsExhausted),
            match model::releveled(old(self).disk(), old(self).threshold, level, tables@) {
                Ok(d) => result == Ok::<(), Error>(()) && final(self).disk() == d,
                Err(e) => result == Err::<(), Error>(e) && final(self).disk() == old(self).disk(),
            },
    {
        let ghost infos = self.toc@.infos;
        let table_infos: Vec<TableInfo> = self.infos_of(&tables);
        let mut lower: Vec<TableId> = Store::get_overlapping_tables(&self.toc, &table_infos, level + 1);
        if lower.len() == 0 && !Store::self_overlaps(&table_infos) {
            self.record_on_level(level + 1, tables, table_infos);
            proof {
                old(self).toc.lemma_listed();
                if old(self).has_levels_apart() {
                    merging::lemma_relevel_apart(old(self).disk(), self.threshold, level, tables@, self.disk());
                }
                if old(self).is_sound() && merging::mergeable(old(self).disk(), level, tables@) {
                    merging::lemma_directory_fits(self.toc@, self.directory);
                    merging::lemma_releveled(old(self).disk(), self.threshold, level, tables@, self.disk());
                }
            }
            return Ok(());
        }
        let kept: Vec<TableInfo> = self.tables_clear_of(&table_infos, level + 1);
        let mut removals: Vec<TableId> = tables;
        let ghost inputs = tables@ + lower@;
        proof {
            assert forall|n: int| 0 <= n < inputs.len() implies infos.contains_key(#[trigger] inputs[n]) by {
                if n < tables.len() {
                    assert(infos.contains_key(tables[n]));
                } else {
                    assert(infos.contains_key(lower[n - tables.len()]));
                }
            }
        }
        removals.append(&mut lower);
        assert(removals@ =~= inputs);
        let mut iters: Vec<Source> = Vec::new();
        assert forall|n: int| 0 <= n < removals.len() implies infos.contains_key(#[trigger] removals[n]) by {
            assert(infos.contains_key(inputs[n]));
        }
        match self.add_tables(&mut iters, &removals, &Bound::Unbounded) {
            Ok(()) => {},
            Err(e) => {
                proof {
                    if old(self).is_sound() && merging::mergeable(old(self).disk(), level, tables@) {
                        merging::lemma_relevel_refused(old(self).disk(), self.threshold, level, tables@);
                    }
                }
                return Err(e);
            },
        }
        let ghost maps = iter::layers(iters@);
        let ghost all = rows::rows_of(rows::overlay(maps));
        proof {
            let read = model::read_all(infos, self.directory.files(), inputs)->Ok_0;
            iter::lemma_narrowed_unbounded(read);
            assert(maps =~= read);
        }
        let walk: MergeIterator = MergeIterator::make(iters);
        proof {
            walk.lemma_finite();
            rows::lemma_rows_exist(walk@);
        }
        let result = self.rewrite(walk, &kept, level + 1, removals, Ghost(all));
        proof {
            old(self).toc.lemma_listed();
            if old(self).has_levels_apart() && result is Ok {
                merging::lemma_relevel_apart(old(self).disk(), self.threshold, level, tables@, self.disk());
            }
            if old(self).is_sound() && merging::mergeable(old(self).disk(), level, tables@) {
                merging::lemma_directory_fits(self.toc@, self.directory);
                if result is Ok {
                    merging::lemma_releveled(old(self).disk(), self.threshold, level, tables@, self.disk());
                } else {
                    merging::lemma_relevel_refused(old(self).disk(), self.threshold, level, tables@);
                }
            }
        }
        result
    }

    /// The table that a level has to give up, where it has too many: the one that overlaps the
    /// fewest tables of the next level.
    fn surplus(&self, level: LevelNumber) -> (id: Option<TableId>)
        requires
            self.toc.wf(),
            1 <= level < u64::MAX,
        ensures
            id == model::surplus(self.toc@.infos, level),
            id matches Some(found) ==> self.toc@.infos.contains_key(found) && self.toc@.infos[found].level == level,
    {
        let ghost infos = self.toc@.infos;
        let ids: Vec<TableId> = self.toc.ids_at(level);
        if !is_over_limit(ids.len(), level) {
            return None;
        }
        let mut best: Option<(usize, usize)> = None;
        let mut i: usize = 0;
        while i < ids.len()
            invariant
                self.toc.wf(),
                infos == self.toc@.infos,
                1 <= level < u64::MAX,
                i <= ids.len(),
                forall|id: TableId| ids@.contains(id) ==> infos.contains_key(id),
                match best {
                    Some((at, overlap)) => {
                        &&& at < i
                        &&& overlap == model::overlap_count(infos, level, ids[at as int])
                        &&& forall|j: int|
                            0 <= j < i ==> overlap <= model::overlap_count(infos, level, #[trigger] ids[j])
                        &&& forall|j: int|
                            0 <= j < at ==> overlap < model::overlap_count(infos, level, #[trigger] ids[j])
                    },
                    None => i == 0,
                },
            decreases ids.len() - i,
        {
            assert(ids@.contains(ids[i as int]));
            match self.toc.find(ids[i]) {
                Some(info) => {
                    let mut alone: Vec<TableInfo> = Vec::new();
                    alone.push(info.duplicate());
                    assert(toc::info_views(alone@) =~= seq![infos[ids[i as int]]]);
                    let lower_overlapping: Vec<TableId> = Store::get_overlapping_tables(&self.toc, &alone, level + 1);
                    let overlap: usize = lower_overlapping.len();
                    match best {
                        Some((_, smallest)) => {
                            if overlap < smallest {
                                best = Some((i, overlap));
                            }
                        },
                        None => {
                            best = Some((i, overlap));
                        },
                    }
                },
                None => {
                    assert(false);
                },
            }
            i += 1;
        }
        match best {
            Some((at, _)) => {
                proof {
                    assert(model::is_least_overlapping(infos, level, at as int));
                    model::lemma_least_overlapping(infos, level, at as int);
                    assert(ids@.contains(ids[at as int]));
                }
                Some(ids[at])
            },
            None => {
                proof {
                    power::lemma_pow_positive(10, (level - 1) as nat);
                    assert(false);
                }
                None
            },
        }
    }

    /// Moves tables down where a level has too many. Where level zero has more than four, all but
    /// the newest of them are releveled into level one. Otherwise each further level below the highest
    /// gives up a table to the next one where it has too many. Where a level fails to, what the levels
    /// before it gave up stays so.
    pub fn rebalance(&mut self) -> (result: Result<(), Error>)
        requires
            old(self).toc.wf(),
            old(self).toc.table_infos.len() > 0,
        ensures
            final(self).toc.wf(),
            final(self).memstores == old(self).memstores,
            final(self).threshold == old(self).threshold,
            final(self).extends(*old(self)),
            old(self).is_recorded() ==> final(self).is_recorded(),
            old(self).has_levels_apart() ==> final(self).has_levels_apart(),
            old(self).is_sound() ==> final(self).is_sound() && (result matches Err(e) ==> e == Error::IdsExhausted),
            model::rebalanced(old(self).disk(), old(self).threshold) == (final(self).disk(), result),
    {
        let level_zero: Vec<TableId> = self.toc.ids_at(0);
        if level_zero.len() > 4 {
            // All but the newest, the newest first.
            let mut table_ids: Vec<TableId> = Vec::new();
            let mut i: usize = level_zero.len() - 1;
            let ghost older = level_zero@.drop_last();
            while i > 0
                invariant
                    i <= older.len(),
                    older == level_zero@.drop_last(),
                    level_zero.len() > 4,
                    table_ids@ == older.skip(i as int).reverse(),
                decreases i,
            {
                i -= 1;
                table_ids.push(level_zero[i]);
                assert(table_ids@ =~= older.skip(i as int).reverse());
            }
            proof {
                assert(older.skip(0) =~= older);
                assert forall|n: int| 0 <= n < table_ids.len() implies self.toc@.infos.contains_key(
                    #[trigger] table_ids[n],
                ) by {
                    assert(table_ids[n] == level_zero[older.len() - 1 - n]);
                    assert(level_zero@.contains(table_ids[n]));
                }
            }
            proof {
                if self.is_sound() {
                    merging::lemma_older_mergeable(self.disk());
                }
            }
            return self.relevel(0, table_ids);
        }
        let top: LevelNumber = self.toc.max_level();
        let ghost start = self.disk();
        let mut level: LevelNumber = 1;
        while level < top
            invariant
                1 <= level,
                level <= top || level == 1,
                start == old(self).disk(),
                model::rebalanced(start, self.threshold) == model::settled(start, self.threshold, 1, top),
                self.toc.wf(),
                self.memstores == old(self).memstores,
                self.threshold == old(self).threshold,
                self.extends(*old(self)),
                old(self).is_recorded() ==> self.is_recorded(),
                old(self).has_levels_apart() ==> self.has_levels_apart(),
                old(self).is_sound() ==> self.is_sound(),
                model::settled(self.disk(), self.threshold, level, top) == model::settled(
                    start,
                    self.threshold,
                    1,
                    top,
                ),
            decreases top - level,
        {
            match self.surplus(level) {
                Some(id) => {
                    let mut alone: Vec<TableId> = Vec::new();
                    alone.push(id);
                    proof {
                        assert(alone@ =~= seq![id]);
                        if old(self).is_sound() {
                            merging::lemma_alone_mergeable(self.disk(), level, id);
                        }
                    }
                    match self.relevel(level, alone) {
                        Ok(()) => {},
                        Err(e) => {
                            return Err(e);
                        },
                    }
                },
                None => {},
            }
            level = level + 1;
        }
        Ok(())
    }
}

} // verus!
