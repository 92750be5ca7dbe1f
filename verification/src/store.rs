//! The store.
use crate::contents;
use crate::directory::Directory;
use crate::error::Error;
use crate::interval;
use crate::interval::Interval;
use crate::iter;
use crate::iter::{MergeIterator, Run, Source};
use crate::laws;
use crate::log;
use crate::memstore::MemStore;
use crate::model;
use crate::model::{DiskState, StoreState};
use crate::order;
use crate::rebalance;
use crate::rows;
use crate::rows::{Changes, Mutation};
use crate::table;
use crate::table::{InfoView, TableId};
use crate::toc;
use crate::toc::TOC;
use vstd::prelude::*;

verus! {

/// An ordered key-value store. Rows are put into the first memory store, which is written to a
/// table when it has reached the threshold.
pub struct Store {
    // Never empty
    pub memstores: Vec<MemStore>,
    pub threshold: usize,
    pub directory: Directory,
    pub toc: TOC,
}

/// What the memory stores say, one map for each.
pub open spec fn memory_views(memstores: Seq<MemStore>) -> Seq<Changes> {
    Seq::new(memstores.len(), |i: int| memstores[i]@)
}

impl View for Store {
    type V = StoreState;

    open spec fn view(&self) -> StoreState {
        StoreState { memstores: memory_views(self.memstores@), threshold: self.threshold, disk: self.disk() }
    }
}

impl Store {
    /// What the store keeps in files.
    pub open spec fn disk(self) -> DiskState {
        model::disk_of(self.toc@, self.directory)
    }

    /// There is a memory store, and all parts are sound.
    pub open spec fn wf(self) -> bool {
        &&& self.memstores.len() > 0
        &&& forall|i: int| 0 <= i < self.memstores.len() ==> (#[trigger] self.memstores[i]).wf()
        &&& self.toc.wf()
    }

    /// The table of contents is what its log amounts to.
    pub open spec fn is_recorded(self) -> bool {
        log::replay(self.directory.toc_log@) == Some(self.toc@)
    }

    /// On no level above zero do the ranges of two tables overlap.
    pub open spec fn has_levels_apart(self) -> bool {
        contents::apart(self.toc@.infos)
    }

    /// The tables can be read, and on no level above zero do the ranges of two tables overlap.
    pub open spec fn is_sound(self) -> bool {
        contents::sound(self.disk())
    }

    /// The files are those of `earlier`, with table files and entries of the log added at most.
    pub open spec fn extends(self, earlier: Store) -> bool {
        &&& earlier.directory.tables.len() <= self.directory.tables.len()
        &&& self.directory.tables@.take(earlier.directory.tables.len() as int) =~= earlier.directory.tables@
        &&& earlier.directory.toc_log.len() <= self.directory.toc_log.len()
        &&& self.directory.toc_log@.take(earlier.directory.toc_log.len() as int) =~= earlier.directory.toc_log@
    }

    /// The files of a new store.
    pub fn create() -> (directory: Directory)
        ensures
            directory.toc_log@ == Seq::<u8>::empty(),
            directory.files() == Map::<TableId, Seq<u8>>::empty(),
            log::replay(directory.toc_log@) == Some(toc::empty_toc()),
    {
        Directory::new()
    }

    /// Opens the store that the files are those of. All the rows of its tables are taken into
    /// memory.
    pub fn open(directory: Directory, threshold: usize) -> (result: Result<Store, Error>)
        ensures
            match model::opened(directory.toc_log@, directory.files(), threshold) {
                Ok(s) => {
                    &&& result matches Ok(store)
                    &&& store.wf()
                    &&& store@ == s
                    &&& store.directory == directory
                    &&& store.is_recorded()
                },
                Err(e) => result == Err::<Store, Error>(e),
            },
    {
        let contents: TOC = match log::read_toc(&directory.toc_log) {
            Ok(found) => found,
            Err(e) => {
                return Err(e);
            },
        };
        let ghost infos = contents@.infos;
        let ghost files = directory.files();
        let ghost ids = toc::id_list(infos.dom());
        let ghost mut maps: Seq<Changes> = Seq::empty();
        proof {
            contents.lemma_id_order();
            assert(ids.take(0) =~= Seq::<TableId>::empty());
        }
        let mut ms: MemStore = MemStore::new();
        let mut i: usize = 0;
        while i < contents.table_infos.len()
            invariant
                contents.wf(),
                infos == contents@.infos,
                files == directory.files(),
                log::replay(directory.toc_log@) == Some(contents@),
                ids == toc::id_list(infos.dom()),
                ids == Seq::new(contents.table_infos@.len(), |n: int| contents.table_infos[n].id),
                i <= contents.table_infos.len(),
                ms.wf(),
                ms@ == model::stacked(maps),
                model::read_all(infos, files, ids.take(i as int)) == Ok::<Seq<Changes>, Error>(maps),
            decreases contents.table_infos.len() - i,
        {
            proof {
                contents.lemma_listed();
                assert(ids[i as int] == contents.table_infos[i as int].id);
                assert(ids.take(i + 1).drop_last() =~= ids.take(i as int));
                assert(ids.take(i + 1).last() == ids[i as int]);
            }
            match rebalance::load(&directory, &contents.table_infos[i]) {
                Ok(found) => {
                    ms.apply_all(&found);
                    proof {
                        let map = rows::to_map(rows::views(found@));
                        assert(maps.push(map).drop_last() =~= maps);
                        maps = maps.push(map);
                    }
                },
                Err(e) => {
                    proof {
                        model::lemma_read_all_stuck(infos, files, ids, i + 1);
                    }
                    return Err(e);
                },
            }
            i += 1;
        }
        proof {
            assert(ids.take(i as int) =~= ids);
        }
        Ok(Store::make_existing(threshold, directory, contents, ms))
    }

    /// A store with nothing in memory.
    pub fn make(threshold: usize, directory: Directory, toc: TOC) -> (store: Store)
        requires
            toc.wf(),
        ensures
            store.wf(),
            store.toc == toc,
            store.directory == directory,
            store@ == (StoreState {
                memstores: seq![Changes::empty(), Changes::empty()],
                threshold,
                disk: model::disk_of(toc@, directory),
            }),
    {
        Store::make_existing(threshold, directory, toc, MemStore::new())
    }

    fn make_existing(threshold: usize, directory: Directory, toc: TOC, ms: MemStore) -> (store: Store)
        requires
            toc.wf(),
            ms.wf(),
        ensures
            store.wf(),
            store.toc == toc,
            store.directory == directory,
            store@ == (StoreState {
                memstores: seq![Changes::empty(), ms@],
                threshold,
                disk: model::disk_of(toc@, directory),
            }),
    {
        let mut memstores: Vec<MemStore> = Vec::new();
        memstores.push(MemStore::new());
        memstores.push(ms);
        let store = Store { memstores, threshold, directory, toc };
        assert(memory_views(store.memstores@) =~= seq![Changes::empty(), ms@]);
        store
    }

    /// Sets the key to the value where the key has none yet, and says whether it did. Where a flush
    /// that follows fails, the row is in memory or in the table that was written.
    pub fn insert(&mut self, key: &str, val: &str) -> (result: Result<bool, Error>)
        requires
            old(self).wf(),
        ensures
            final(self).wf(),
            final(self).extends(*old(self)),
            old(self).is_recorded() ==> final(self).is_recorded(),
            old(self).has_levels_apart() ==> final(self).has_levels_apart(),
            old(self).is_sound() ==> final(self).is_sound() && (result matches Err(e) ==> e == Error::IdsExhausted),
            match model::value_of(old(self)@, key@) {
                Ok(None) => {
                    let (s, answer) = model::changed(old(self)@, key@, Some(val@));
                    &&& final(self)@ == s
                    &&& result == model::done(answer)
                    &&& answer is Ok ==> result == Ok::<bool, Error>(true)
                    &&& answer matches Err(e) ==> result == Err::<bool, Error>(e)
                },
                Ok(Some(_)) => result == Ok::<bool, Error>(false) && final(self)@ == old(self)@,
                Err(e) => result == Err::<bool, Error>(e) && final(self)@ == old(self)@,
            },
    {
        proof {
            if self.is_sound() {
                laws::law_store_is_sound(*self);
                laws::law_lookup_answers(self@, key@);
            }
        }
        match self.key_exists(key) {
            Ok(found) => {
                if !found {
                    return match self.put(key, val) {
                        Ok(()) => Ok(true),
                        Err(e) => Err(e),
                    };
                }
                Ok(false)
            },
            Err(e) => Err(e),
        }
    }

    /// Sets the key to the value where the key has one already, and says whether it did. Where a
    /// flush that follows fails, the row is in memory or in the table that was written.
    pub fn replace(&mut self, key: &str, val: &str) -> (result: Result<bool, Error>)
        requires
            old(self).wf(),
        ensures
            final(self).wf(),
            final(self).extends(*old(self)),
            old(self).is_recorded() ==> final(self).is_recorded(),
            old(self).has_levels_apart() ==> final(self).has_levels_apart(),
            old(self).is_sound() ==> final(self).is_sound() && (result matches Err(e) ==> e == Error::IdsExhausted),
            match model::value_of(old(self)@, key@) {
                Ok(Some(_)) => {
                    let (s, answer) = model::changed(old(self)@, key@, Some(val@));
                    &&& final(self)@ == s
                    &&& result == model::done(answer)
                    &&& answer is Ok ==> result == Ok::<bool, Error>(true)
                    &&& answer matches Err(e) ==> result == Err::<bool, Error>(e)
                },
                Ok(None) => result == Ok::<bool, Error>(false) && final(self)@ == old(self)@,
                Err(e) => result == Err::<bool, Error>(e) && final(self)@ == old(self)@,
            },
    {
        proof {
            if self.is_sound() {
                laws::law_store_is_sound(*self);
                laws::law_lookup_answers(self@, key@);
            }
        }
        match self.key_exists(key) {
            Ok(found) => {
                if found {
                    return match self.put(key, val) {
                        Ok(()) => Ok(true),
                        Err(e) => Err(e),
                    };
                }
                Ok(false)
            },
            Err(e) => Err(e),
        }
    }

    /// Sets the key to the value. Where a flush that follows fails, the row is in memory or in the table
    /// that was written.
    pub fn put(&mut self, key: &str, val: &str) -> (result: Result<(), Error>)
        requires
            old(self).wf(),
        ensures
            final(self).wf(),
            final(self).extends(*old(self)),
            old(self).is_recorded() ==> final(self).is_recorded(),
            old(self).has_levels_apart() ==> final(self).has_levels_apart(),
            old(self).is_sound() ==> final(self).is_sound() && (result matches Err(e) ==> e == Error::IdsExhausted),
            model::changed(old(self)@, key@, Some(val@)) == (final(self)@, result),
    {
        self.apply(key, Mutation::Put(val.to_owned()));
        self.consider_split()
    }

    /// Takes the key away where it has a value, and says whether it did. Where a flush that follows
    /// fails, the row that deletes the key is in memory or in the table that was written.
    pub fn remove(&mut self, key: &str) -> (result: Result<bool, Error>)
        requires
            old(self).wf(),
        ensures
            final(self).wf(),
            final(self).extends(*old(self)),
            old(self).is_recorded() ==> final(self).is_recorded(),
            old(self).has_levels_apart() ==> final(self).has_levels_apart(),
            old(self).is_sound() ==> final(self).is_sound() && (result matches Err(e) ==> e == Error::IdsExhausted),
            match model::value_of(old(self)@, key@) {
                Ok(Some(_)) => {
                    let (s, answer) = model::changed(old(self)@, key@, None);
                    &&& final(self)@ == s
                    &&& result == model::done(answer)
                    &&& answer is Ok ==> result == Ok::<bool, Error>(true)
                    &&& answer matches Err(e) ==> result == Err::<bool, Error>(e)
                },
                Ok(None) => result == Ok::<bool, Error>(false) && final(self)@ == old(self)@,
                Err(e) => result == Err::<bool, Error>(e) && final(self)@ == old(self)@,
            },
    {
        proof {
            if self.is_sound() {
                laws::law_store_is_sound(*self);
                laws::law_lookup_answers(self@, key@);
            }
        }
        match self.key_exists(key) {
            Ok(found) => {
                if found {
                    self.apply(key, Mutation::Delete);
                    return match self.consider_split() {
                        Ok(()) => Ok(true),
                        Err(e) => Err(e),
                    };
                }
                Ok(false)
            },
            Err(e) => Err(e),
        }
    }

    /// Puts a row into the first memory store.
    fn apply(&mut self, key: &str, mutation: Mutation)
        requires
            old(self).wf(),
        ensures
            final(self).wf(),
            final(self).memstores[0]@ != Changes::empty(),
            final(self).directory == old(self).directory,
            final(self).toc == old(self).toc,
            final(self)@ == model::applied(old(self)@, key@, mutation@),
    {
        let ghost row = mutation@;
        assert(self.memstores[0].wf());
        self.memstores[0].apply(key.to_owned(), mutation);
        proof {
            assert(self.memstores[0]@.contains_key(key@));
            assert(memory_views(self.memstores@) =~= memory_views(old(self).memstores@).update(
                0,
                old(self).memstores[0]@.insert(key@, row),
            ));
            assert forall|i: int| 0 <= i < self.memstores.len() implies (#[trigger] self.memstores[i]).wf() by {
                if i > 0 {
                    assert(old(self).memstores[i].wf());
                }
            }
        }
    }

    /// Writes the first memory store to a table and rebalances the levels. Where it cannot be written
    /// nothing changes. Where the rebalance fails, the table and what was rebalanced so far stay, and
    /// the memory store, whose rows are in the table, is gone. There has to be something to write, or a
    /// table already.
    pub fn flush(&mut self) -> (result: Result<(), Error>)
        requires
            old(self).wf(),
            old(self).memstores[0]@ != Changes::empty() || old(self).toc.table_infos.len() > 0,
        ensures
            final(self).wf(),
            final(self).extends(*old(self)),
            old(self).is_recorded() ==> final(self).is_recorded(),
            old(self).has_levels_apart() ==> final(self).has_levels_apart(),
            old(self).is_sound() ==> final(self).is_sound() && (result matches Err(e) ==> e == Error::IdsExhausted),
            model::flushed(old(self)@) == (final(self)@, result),
    {
        let ms: MemStore = self.memstores.remove(0);
        proof {
            assert(old(self).memstores[0].wf());
            assert(memory_views(old(self).memstores@)[0] == ms@);
        }
        match self.flush_and_record(0, &ms) {
            Ok(()) => {},
            Err(e) => {
                self.memstores.insert(0, ms);
                assert(self.memstores@ =~= old(self).memstores@);
                return Err(e);
            },
        }
        proof {
            self.toc.lemma_listed();
            old(self).toc.lemma_listed();
            if old(self).toc.table_infos.len() > 0 {
                let id = old(self).toc.table_infos[0].id;
                assert(old(self).toc@.infos.contains_key(id));
                if ms@ == Changes::empty() {
                    assert(self.disk().toc.infos.contains_key(id));
                    assert(self.toc@.infos.contains_key(id));
                }
            }
            if ms@ != Changes::empty() {
                assert(self.toc@.infos.contains_key(old(self).toc.next_table_id)) by {
                    let id = old(self).toc.next_table_id;
                    let added = seq![table::info_of(rows::rows_of(ms@), id, 0)];
                    reveal_with_fuel(toc::with_tables, 2);
                    assert(added.drop_last() =~= Seq::<InfoView>::empty());
                }
            }
        }
        let answer: Result<(), Error> = self.rebalance();
        match answer {
            Ok(_) => {
                self.memstores.insert(0, MemStore::new());
                proof {
                    assert(self.memstores@ =~= old(self).memstores@.update(0, self.memstores[0]));
                    assert(memory_views(self.memstores@) =~= memory_views(old(self).memstores@).update(
                        0,
                        Changes::empty(),
                    ));
                    assert forall|i: int| 0 <= i < self.memstores.len() implies (#[trigger] self.memstores[i]).wf() by {
                        if i > 0 {
                            assert(old(self).memstores[i].wf());
                        }
                    }
                }
            },
            Err(_) => {
                if self.memstores.len() == 0 {
                    self.memstores.push(MemStore::new());
                }
                proof {
                    assert(memory_views(self.memstores@) =~= model::without_first(memory_views(old(self).memstores@)));
                    assert forall|i: int| 0 <= i < self.memstores.len() implies (#[trigger] self.memstores[i]).wf() by {
                        if i < old(self).memstores.len() - 1 {
                            assert(old(self).memstores[i + 1].wf());
                        }
                    }
                }
            },
        }
        answer
    }

    /// Flushes the first memory store where its memory usage has reached the threshold. Below it nothing
    /// changes. Where the threshold is reached there has to be something to write, or a table already.
    pub fn consider_split(&mut self) -> (result: Result<(), Error>)
        requires
            old(self).wf(),
            old(self).memstores[0].mem_usage >= old(self).threshold ==> old(self).memstores[0]@ != Changes::empty()
                || old(self).toc.table_infos.len() > 0,
        ensures
            final(self).wf(),
            final(self).extends(*old(self)),
            old(self).is_recorded() ==> final(self).is_recorded(),
            old(self).has_levels_apart() ==> final(self).has_levels_apart(),
            old(self).is_sound() ==> final(self).is_sound() && (result matches Err(e) ==> e == Error::IdsExhausted),
            model::is_full(old(self)@) == (old(self).memstores[0].mem_usage >= old(self).threshold),
            if old(self).memstores[0].mem_usage < old(self).threshold {
                result == Ok::<(), Error>(()) && *final(self) == *old(self)
            } else {
                model::flushed(old(self)@) == (final(self)@, result)
            },
    {
        proof {
            assert(self.memstores[0].wf());
            self.memstores[0].lemma_rows();
            assert(self@.memstores[0] == self.memstores[0]@);
        }
        if self.memstores[0].mem_usage >= self.threshold as u128 {
            return self.flush();
        }
        Ok(())
    }

    /// What the store says of the key.
    fn lookup(&self, key: &str) -> (result: Result<Option<Mutation>, Error>)
        requires
            self.wf(),
        ensures
            match model::lookup(self@, key@) {
                Ok(Some(row)) => result matches Ok(Some(mutation)) && mutation@ == row,
                Ok(None) => result matches Ok(None),
                Err(e) => result == Err::<Option<Mutation>, Error>(e),
            },
    {
        let ghost layers = memory_views(self.memstores@);
        let mut i: usize = 0;
        while i < self.memstores.len()
            invariant
                self.wf(),
                layers == memory_views(self.memstores@),
                i <= self.memstores.len(),
                forall|j: int| 0 <= j < i ==> !(#[trigger] layers[j]).contains_key(key@),
            decreases self.memstores.len() - i,
        {
            assert(self.memstores[i as int].wf());
            assert(layers[i as int] == self.memstores[i as int]@);
            match self.memstores[i].lookup(key) {
                Some(mutation) => {
                    proof {
                        rows::lemma_overlay_at(layers, key@, i as int);
                    }
                    return Ok(Some(mutation.duplicate()));
                },
                None => {},
            }
            i += 1;
        }
        proof {
            rows::lemma_overlay_absent(layers, key@);
        }
        let ghost infos = self.toc@.infos;
        let ghost files = self.directory.files();
        let ids: Vec<TableId> = self.toc.visits(true);
        let mut j: usize = 0;
        assert(ids@.skip(0) =~= ids@);
        while j < ids.len()
            invariant
                self.wf(),
                infos == self.toc@.infos,
                files == self.directory.files(),
                forall|id: TableId| ids@.contains(id) <==> infos.contains_key(id),
                j <= ids.len(),
                model::lookup(self@, key@) == model::lookup_in(infos, files, ids@.skip(j as int), key@),
            decreases ids.len() - j,
        {
            assert(ids@.contains(ids[j as int]));
            assert(ids@.skip(j as int)[0] == ids[j as int]);
            assert(ids@.skip(j as int).drop_first() =~= ids@.skip(j + 1));
            match self.toc.find(ids[j]) {
                Some(info) => {
                    if info.covers(key) {
                        match rebalance::load(&self.directory, info) {
                            Ok(found) => match rows::find(&found, key) {
                                Some(mutation) => {
                                    return Ok(Some(mutation.duplicate()));
                                },
                                None => {},
                            },
                            Err(e) => {
                                return Err(e);
                            },
                        }
                    }
                },
                None => {
                    assert(false);
                },
            }
            j += 1;
        }
        Ok(None)
    }

    /// Whether the key has a value.
    pub fn key_exists(&self, key: &str) -> (result: Result<bool, Error>)
        requires
            self.wf(),
        ensures
            match model::value_of(self@, key@) {
                Ok(value) => result == Ok::<bool, Error>(value is Some),
                Err(e) => result == Err::<bool, Error>(e),
            },
    {
        match self.lookup(key) {
            Ok(Some(Mutation::Put(_))) => Ok(true),
            Ok(_) => Ok(false),
            Err(e) => Err(e),
        }
    }

    /// The value of the key, where it has one.
    pub fn get(&self, key: &str) -> (result: Result<Option<String>, Error>)
        requires
            self.wf(),
        ensures
            match model::value_of(self@, key@) {
                Ok(Some(value)) => result matches Ok(Some(found)) && found@ == value,
                Ok(None) => result matches Ok(None),
                Err(e) => result == Err::<Option<String>, Error>(e),
            },
    {
        match self.lookup(key) {
            Ok(Some(Mutation::Put(value))) => Ok(Some(value)),
            Ok(_) => Ok(None),
            Err(e) => Err(e),
        }
    }

    /// A walk through the pairs whose keys lie in the interval.
    pub fn range<'a>(&'a self, interval: &Interval<String>) -> (result: Result<StoreIter<'a>, Error>)
        requires
            self.wf(),
        ensures
            match model::scan(self@, interval.lower) {
                Ok(changes) => {
                    &&& result matches Ok(it)
                    &&& it.wf()
                    &&& it.interval == *interval
                    &&& it@ == changes
                },
                Err(e) => result matches Err(found) && found == e,
            },
    {
        let ghost layers = memory_views(self.memstores@);
        let mut iters: Vec<Source<'a>> = Vec::new();
        let mut i: usize = 0;
        while i < self.memstores.len()
            invariant
                self.wf(),
                layers == memory_views(self.memstores@),
                i <= self.memstores.len(),
                iters.len() == i,
                forall|n: int| 0 <= n < iters.len() ==> (#[trigger] iters[n]).wf(),
                forall|n: int|
                    0 <= n < iters.len() ==> (#[trigger] iters[n])@ == interval::from_lower(layers[n], interval.lower),
            decreases self.memstores.len() - i,
        {
            assert(self.memstores[i as int].wf());
            iters.push(Source::make(Run::Memory(&self.memstores[i].entries), &interval.lower));
            i += 1;
        }
        let ghost front = iter::layers(iters@);
        let ids: Vec<TableId> = self.toc.visits(false);
        proof {
            assert(front =~= iter::narrowed(layers, interval.lower));
            assert forall|n: int| 0 <= n < ids.len() implies self.toc@.infos.contains_key(#[trigger] ids[n]) by {
                assert(ids@.contains(ids[n]));
            }
        }
        match self.add_tables(&mut iters, &ids, &interval.lower) {
            Ok(()) => {},
            Err(e) => {
                return Err(e);
            },
        }
        proof {
            let maps = model::read_all(self.toc@.infos, self.directory.files(), ids@)->Ok_0;
            assert(iter::layers(iters@) =~= iter::narrowed(layers + maps, interval.lower));
            iter::lemma_overlay_narrowed(layers + maps, interval.lower);
        }
        Ok(StoreIter { interval: interval.duplicate(), iters: MergeIterator::make(iters) })
    }

    /// The next pair of a walk. Rows that delete their keys are passed over.
    pub fn next(&self, iter: &mut StoreIter) -> (result: Result<Option<(String, String)>, Error>)
        requires
            old(iter).wf(),
        ensures
            final(iter).wf(),
            final(iter).interval == old(iter).interval,
            match result {
                Ok(Some((key, value))) => {
                    let pairs = model::pairs_below(old(iter)@, old(iter).interval.upper);
                    &&& pairs.contains_key(key@)
                    &&& pairs[key@] == value@
                    &&& forall|k: Seq<char>| #[trigger] pairs.contains_key(k) ==> !order::key_less(k, key@)
                    &&& final(iter)@ == model::behind(old(iter)@, key@)
                },
                Ok(None) => {
                    &&& model::pairs_below(old(iter)@, old(iter).interval.upper) == Map::<Seq<char>, Seq<char>>::empty()
                    &&& final(iter)@ == model::beyond(old(iter)@, old(iter).interval.upper)
                },
                Err(_) => false,
            },
    {
        broadcast use order::group_key_order;

        let ghost start = iter@;
        let ghost upper = iter.interval.upper;
        proof {
            iter.iters.lemma_finite();
        }
        let mut done: bool = false;
        while !done
            invariant
                iter.wf(),
                iter.interval == old(iter).interval,
                start == old(iter)@,
                upper == old(iter).interval.upper,
                start.dom().finite(),
                iter@.submap_of(start),
                forall|k: Seq<char>| #[trigger]
                    start.contains_key(k) && !iter@.contains_key(k) ==> start[k] is None && interval::below_upper(k, upper),
                forall|k: Seq<char>, l: Seq<char>|
                    start.contains_key(k) && !iter@.contains_key(k) && iter@.contains_key(l) ==> #[trigger]
                        order::key_less(k, l),
                done ==> forall|k: Seq<char>| #[trigger] iter@.contains_key(k) ==> !interval::below_upper(k, upper),
            decreases iter@.dom().len(), (if done { 0int } else { 1int }),
        {
            broadcast use order::group_key_order;

            let ghost here = iter@;
            match iter.iters.current_key() {
                Some(next_key) => {
                    let key: String = next_key.clone();
                    if !interval::below_upper_bound(key.as_str(), &iter.interval.upper) {
                        done = true;
                    } else {
                        let mutation: Mutation = match iter.iters.current_value() {
                            Some(mutation) => mutation.duplicate(),
                            None => {
                                assert(here.contains_key(key@));
                                assert(false);
                                Mutation::Delete
                            },
                        };
                        proof {
                            assert(here != Changes::empty());
                        }
                        iter.iters.step();
                        proof {
                            assert(iter@ == here.remove(key@));
                            assert(here.dom().finite()) by {
                                assert(here.dom().subset_of(start.dom()));
                                vstd::set_lib::lemma_set_subset_finite(start.dom(), here.dom());
                            }
                        }
                        match mutation {
                            Mutation::Put(value) => {
                                proof {
                                    assert forall|k: Seq<char>|
                                        iter@.contains_key(k) <==> model::behind(start, key@).contains_key(k) by {
                                        if start.contains_key(k) {
                                            assert(order::key_less(k, key@) || k == key@ || order::key_less(key@, k));
                                            if here.contains_key(k) {
                                                assert(!order::key_less(k, key@));
                                            } else {
                                                assert(order::key_less(k, key@));
                                            }
                                        }
                                    }
                                    assert(iter@ =~= model::behind(start, key@));
                                    let pairs = model::pairs_below(start, upper);
                                    assert(here.contains_key(key@) && here[key@] == Some(value@));
                                    assert(start.dom().contains(key@) && start[key@] == here[key@]);
                                    assert(pairs.contains_key(key@) && pairs[key@] == value@);
                                    assert forall|k: Seq<char>| #[trigger] pairs.contains_key(k) implies !order::key_less(
                                        k,
                                        key@,
                                    ) by {
                                        assert(start.contains_key(k));
                                        assert(here.contains_key(k));
                                    }
                                }
                                return Ok(Some((key, value)));
                            },
                            Mutation::Delete => {},
                        }
                    }
                },
                None => {
                    done = true;
                },
            }
        }
        proof {
            assert(iter@ =~= model::beyond(start, upper));
            assert(model::pairs_below(start, upper) =~= Map::<Seq<char>, Seq<char>>::empty());
        }
        Ok(None)
    }
}

/// A walk through the pairs of a store whose keys lie in an interval.
pub struct StoreIter<'a> {
    pub interval: Interval<String>,
    pub iters: MergeIterator<'a>,
}

impl<'a> View for StoreIter<'a> {
    type V = Changes;

    /// What the store says of the keys that are still to come, those beyond the upper end too.
    open spec fn view(&self) -> Changes {
        self.iters@
    }
}

impl<'a> StoreIter<'a> {
    /// Each run that the walk goes through is sorted.
    pub open spec fn wf(self) -> bool {
        self.iters.wf()
    }
}

} // verus!
