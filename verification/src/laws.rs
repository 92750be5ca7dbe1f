//! What holds of a store whatever is done with it.
use crate::contents;
use crate::error::Error;
use crate::interval;
use crate::interval::{Bound, Interval};
use crate::log;
use crate::memstore;
use crate::merging;
use crate::model;
use crate::model::{DiskState, StoreState};
use crate::order;
use crate::rows;
use crate::rows::Changes;
use crate::store::Store;
use crate::table;
use crate::table::{LevelNumber, TableId};
use crate::toc;
use vstd::prelude::*;

verus! {

/// There is a memory store, the memory stores have finitely many rows each, and the tables are as
/// the operations of a store leave them.
pub open spec fn sound_store(s: StoreState) -> bool {
    &&& s.memstores.len() > 0
    &&& forall|i: int| 0 <= i < s.memstores.len() ==> (#[trigger] s.memstores[i]).dom().finite()
    &&& contents::sound(s.disk)
}

/// A store that keeps its invariant and whose tables are sound is sound as a whole, and its files
/// are short enough for their lengths to be recorded.
pub proof fn law_store_is_sound(store: Store)
    requires
        store.wf(),
        store.is_sound(),
    ensures
        sound_store(store@),
        merging::files_fit(store@.disk),
{
    merging::lemma_directory_fits(store.toc@, store.directory);
    assert forall|i: int| 0 <= i < store@.memstores.len() implies (#[trigger] store@.memstores[i]).dom().finite() by {
        rows::lemma_to_map(rows::views(store.memstores[i].entries@));
    }
}

/// What the memory stores behind the first one say.
pub open spec fn rest_of_memory(s: StoreState) -> Changes {
    rows::overlay(s.memstores.drop_first())
}

/// A memory store behind the first one says something else of a key than the first one does.
pub open spec fn shadowed(s: StoreState, key: Seq<char>) -> bool {
    &&& s.memstores[0].contains_key(key)
    &&& rest_of_memory(s).contains_key(key)
    &&& rest_of_memory(s)[key] != s.memstores[0][key]
}

/// What a flush leaves, where the memory store could be written.
proof fn lemma_flushed(s: StoreState, next: StoreState)
    requires
        sound_store(s),
        model::flushed(s).0 == next,
        merging::files_fit(next.disk),
        model::written(s.disk, s.memstores[0], 0) is Ok,
    ensures
        contents::sound(next.disk),
        rows::overlay(next.memstores) == rest_of_memory(s),
        forall|key: Seq<char>| #[trigger]
            contents::disk_lookup(next.disk, key) == if s.memstores[0].contains_key(key) {
                Ok::<Option<Option<Seq<char>>>, Error>(Some(s.memstores[0][key]))
            } else {
                contents::disk_lookup(s.disk, key)
            },
{
    let front = s.memstores[0];
    let middle = model::written(s.disk, front, 0)->Ok_0;
    if front != Changes::empty() {
        merging::lemma_written_parts(s.disk, front, 0, middle);
        merging::lemma_recorded(s.disk, seq![rows::rows_of(front)], 0, Seq::empty(), middle);
    }
    merging::lemma_rebalance_keeps(middle, s.threshold, next.disk);
    assert(front.dom().finite());
    merging::lemma_written(s.disk, front, middle);
    merging::lemma_rebalanced(middle, s.threshold, next.disk);
    assert forall|key: Seq<char>| #[trigger]
        contents::disk_lookup(next.disk, key) == if front.contains_key(key) {
            Ok::<Option<Option<Seq<char>>>, Error>(Some(front[key]))
        } else {
            contents::disk_lookup(s.disk, key)
        } by {
        assert(contents::disk_lookup(next.disk, key) == contents::disk_lookup(middle, key));
    }
    let kept = s.memstores.update(0, Changes::empty());
    assert(kept.drop_first() =~= s.memstores.drop_first());
    assert(rows::overlay(kept) =~= rest_of_memory(s));
    let alone = seq![Changes::empty()];
    assert(alone.drop_first() =~= Seq::<Changes>::empty());
    assert(rows::overlay(alone) =~= rows::overlay(Seq::<Changes>::empty()));
    if s.memstores.len() == 1 {
        assert(s.memstores.drop_first() =~= Seq::<Changes>::empty());
    }
}

/// A flush leaves the store sound, even where it fails.
pub proof fn law_flush_keeps_soundness(s: StoreState, next: StoreState)
    requires
        sound_store(s),
        model::flushed(s).0 == next,
        merging::files_fit(next.disk),
    ensures
        sound_store(next),
{
    if model::written(s.disk, s.memstores[0], 0) is Ok {
        lemma_flushed(s, next);
        assert forall|i: int| 0 <= i < next.memstores.len() implies (#[trigger] next.memstores[i]).dom().finite() by {
            if i < s.memstores.len() - 1 {
                assert(s.memstores[i + 1].dom().finite());
            }
            assert(s.memstores[i].dom().finite());
        }
    }
}

/// A flush, with all the merging of tables that follows from it, changes nothing of what the store
/// says of a key, even where it fails, unless another memory store says something else of the key
/// than the flushed one.
pub proof fn law_flush_keeps_contents(s: StoreState, next: StoreState, key: Seq<char>)
    requires
        sound_store(s),
        model::flushed(s).0 == next,
        merging::files_fit(next.disk),
        !shadowed(s, key),
    ensures
        model::lookup(next, key) == model::lookup(s, key),
{
    if model::written(s.disk, s.memstores[0], 0) is Ok {
        lemma_flushed(s, next);
        assert(contents::disk_lookup(next.disk, key) == if s.memstores[0].contains_key(key) {
            Ok::<Option<Option<Seq<char>>>, Error>(Some(s.memstores[0][key]))
        } else {
            contents::disk_lookup(s.disk, key)
        });
    }
}

/// A rebalance, even one that fails, changes nothing of what the tables say of a key, and leaves them
/// sound.
pub proof fn law_rebalance_keeps_contents(d: DiskState, threshold: usize, next: DiskState, key: Seq<char>)
    requires
        contents::sound(d),
        model::rebalanced(d, threshold).0 == next,
        merging::files_fit(next),
    ensures
        contents::sound(next),
        contents::disk_lookup(next, key) == contents::disk_lookup(d, key),
{
    merging::lemma_rebalanced(d, threshold, next);
}

proof fn lemma_applied(s: StoreState, key: Seq<char>, mutation: Option<Seq<char>>)
    requires
        sound_store(s),
    ensures
        sound_store(model::applied(s, key, mutation)),
        model::lookup(model::applied(s, key, mutation), key) == Ok::<Option<Option<Seq<char>>>, Error>(Some(mutation)),
        forall|other: Seq<char>|
            other != key ==> #[trigger] model::lookup(model::applied(s, key, mutation), other) == model::lookup(s, other),
{
    let next = model::applied(s, key, mutation);
    assert(next.memstores.drop_first() =~= s.memstores.drop_first());
    assert(next.memstores[0] == s.memstores[0].insert(key, mutation));
    assert forall|i: int| 0 <= i < next.memstores.len() implies (#[trigger] next.memstores[i]).dom().finite() by {
        assert(s.memstores[i].dom().finite());
    }
}

/// Putting in a row leaves the store sound, even where a flush that follows fails.
pub proof fn law_change_keeps_soundness(s: StoreState, key: Seq<char>, mutation: Option<Seq<char>>, next: StoreState)
    requires
        sound_store(s),
        model::changed(s, key, mutation).0 == next,
        merging::files_fit(next.disk),
    ensures
        sound_store(next),
{
    lemma_applied(s, key, mutation);
    let middle = model::applied(s, key, mutation);
    if model::is_full(middle) {
        law_flush_keeps_soundness(middle, next);
    }
}

/// A key has the value that was put last, even where a flush that follows fails, unless putting it
/// led to a flush and another memory store says something else of the key.
pub proof fn law_get_after_put(s: StoreState, key: Seq<char>, value: Seq<char>, next: StoreState)
    requires
        sound_store(s),
        model::changed(s, key, Some(value)).0 == next,
        merging::files_fit(next.disk),
        !(model::is_full(model::applied(s, key, Some(value))) && shadowed(model::applied(s, key, Some(value)), key)),
    ensures
        model::value_of(next, key) == Ok::<Option<Seq<char>>, Error>(Some(value)),
{
    lemma_applied(s, key, Some(value));
    let middle = model::applied(s, key, Some(value));
    if model::is_full(middle) {
        law_flush_keeps_contents(middle, next, key);
    }
}

/// A key that was removed has no value, even where a flush that follows fails, unless removing it led
/// to a flush and another memory store says something else of the key.
pub proof fn law_get_after_remove(s: StoreState, key: Seq<char>, next: StoreState)
    requires
        sound_store(s),
        model::changed(s, key, None).0 == next,
        merging::files_fit(next.disk),
        !(model::is_full(model::applied(s, key, None)) && shadowed(model::applied(s, key, None), key)),
    ensures
        model::value_of(next, key) == Ok::<Option<Seq<char>>, Error>(None),
{
    lemma_applied(s, key, None);
    let middle = model::applied(s, key, None);
    if model::is_full(middle) {
        law_flush_keeps_contents(middle, next, key);
    }
}

/// Putting in a row changes nothing of what the store says of other keys, unless it led to a flush
/// and another memory store says something else of the other key than the flushed one.
pub proof fn law_change_leaves_others(
    s: StoreState,
    key: Seq<char>,
    mutation: Option<Seq<char>>,
    next: StoreState,
    other: Seq<char>,
)
    requires
        sound_store(s),
        model::changed(s, key, mutation).0 == next,
        merging::files_fit(next.disk),
        other != key,
        !(model::is_full(model::applied(s, key, mutation)) && shadowed(s, other)),
    ensures
        model::lookup(next, other) == model::lookup(s, other),
{
    lemma_applied(s, key, mutation);
    let middle = model::applied(s, key, mutation);
    assert(model::lookup(middle, other) == model::lookup(s, other));
    assert(middle.memstores.drop_first() =~= s.memstores.drop_first());
    if model::is_full(middle) {
        law_flush_keeps_contents(middle, next, other);
    }
}

/// A sound store answers for every key.
pub proof fn law_lookup_answers(s: StoreState, key: Seq<char>)
    requires
        sound_store(s),
    ensures
        model::lookup(s, key) is Ok,
{
    let found = contents::lemma_disk_lookup(s.disk, key);
}

/// Of the tables that have a row for a key, the one on the lowest level, and there the one with the
/// highest number, says what becomes of the key.
pub proof fn law_lowest_level_then_highest_number(d: DiskState, key: Seq<char>, id: TableId)
    requires
        contents::sound(d),
        contents::has_row(d, id, key),
        forall|other: TableId|
            other != id && #[trigger] contents::has_row(d, other, key) ==> d.toc.infos[id].level
                < d.toc.infos[other].level || d.toc.infos[id].level == d.toc.infos[other].level && other < id,
    ensures
        contents::disk_lookup(d, key) == Ok::<Option<Option<Seq<char>>>, Error>(Some(contents::says(d, id)[key])),
{
    contents::lemma_foremost_decides(d, key, id);
}

/// Tables none of which has a row for a key say nothing of it.
pub proof fn law_tables_without_a_row_say_nothing(d: DiskState, key: Seq<char>)
    requires
        contents::sound(d),
        forall|id: TableId| !#[trigger] contents::has_row(d, id, key),
    ensures
        contents::disk_lookup(d, key) == Ok::<Option<Option<Seq<char>>>, Error>(None),
{
    match contents::lemma_disk_lookup(d, key) {
        Some(id) => {
            assert(contents::has_row(d, id, key));
        },
        None => {},
    }
}

proof fn lemma_lookup_found(d: DiskState, ids: Seq<TableId>, key: Seq<char>, n: int)
    requires
        0 <= n < ids.len(),
        d.toc.infos[ids[n]].covers(key),
        model::rows_in(d.files, d.toc.infos[ids[n]]) is Ok,
        contents::says(d, ids[n]).contains_key(key),
        forall|i: int|
            0 <= i < n && d.toc.infos[#[trigger] ids[i]].covers(key) ==> model::rows_in(d.files, d.toc.infos[ids[i]]) is Ok
                && !contents::says(d, ids[i]).contains_key(key),
    ensures
        model::lookup_in(d.toc.infos, d.files, ids, key) == Ok::<Option<Option<Seq<char>>>, Error>(
            Some(contents::says(d, ids[n])[key]),
        ),
    decreases ids.len(),
{
    if n > 0 {
        let rest = ids.drop_first();
        assert(rest[n - 1] == ids[n]);
        assert forall|i: int|
            0 <= i < n - 1 && d.toc.infos[#[trigger] rest[i]].covers(key) implies model::rows_in(
            d.files,
            d.toc.infos[rest[i]],
        ) is Ok && !contents::says(d, rest[i]).contains_key(key) by {
            assert(rest[i] == ids[i + 1]);
        }
        lemma_lookup_found(d, rest, key, n - 1);
        assert(d.toc.infos[ids[0]].covers(key) ==> !contents::says(d, ids[0]).contains_key(key));
    }
}

/// Tables that do not span a key are not asked for it, nor are those that come behind the one that has a
/// row for it, so that it does not matter whether they can be read.
pub proof fn law_only_tables_that_span_the_key_matter(d: DiskState, key: Seq<char>, id: TableId)
    requires
        contents::numbered(d.toc),
        d.toc.infos.contains_key(id),
        d.toc.infos[id].covers(key),
        model::rows_in(d.files, d.toc.infos[id]) is Ok,
        contents::says(d, id).contains_key(key),
        forall|other: TableId|
            {
                &&& #[trigger] d.toc.infos.contains_key(other)
                &&& d.toc.infos[other].covers(key)
                &&& d.toc.infos[other].level < d.toc.infos[id].level || d.toc.infos[other].level == d.toc.infos[id].level
                    && other > id
            } ==> model::rows_in(d.files, d.toc.infos[other]) is Ok && !contents::says(d, other).contains_key(key),
    ensures
        contents::disk_lookup(d, key) == Ok::<Option<Option<Seq<char>>>, Error>(Some(contents::says(d, id)[key])),
{
    let ids = toc::visits(d.toc.infos, true);
    let less = |a: TableId, b: TableId| toc::visited_before(d.toc.infos, true, a, b);
    toc::lemma_visits_exist(d.toc.infos, true);
    assert(ids.contains(id));
    let n = choose|n: int| 0 <= n < ids.len() && ids[n] == id;
    assert forall|i: int| 0 <= i < n && d.toc.infos[#[trigger] ids[i]].covers(key) implies model::rows_in(
        d.files,
        d.toc.infos[ids[i]],
    ) is Ok && !contents::says(d, ids[i]).contains_key(key) by {
        assert(ids.contains(ids[i]));
        assert(less(ids[i], ids[n]));
        assert(d.toc.infos.contains_key(ids[i]));
    }
    lemma_lookup_found(d, ids, key, n);
}

/// A table can be read only where it has a file of the recorded length whose rows increase from the
/// smallest key to the biggest one. The error names the table, and says whether it has a file.
pub proof fn law_reading_a_table(d: DiskState, id: TableId)
    requires
        contents::numbered(d.toc),
        d.toc.infos.contains_key(id),
    ensures
        match model::rows_in(d.files, d.toc.infos[id]) {
            Ok(found) => {
                &&& d.files.contains_key(id)
                &&& d.files[id].len() == d.toc.infos[id].file_size
                &&& found.len() > 0
                &&& found[0].0 == d.toc.infos[id].smallest_key
                &&& found[found.len() - 1].0 == d.toc.infos[id].biggest_key
                &&& forall|i: int, j: int|
                    0 <= i < j < found.len() ==> order::key_less((#[trigger] found[i]).0, (#[trigger] found[j]).0)
            },
            Err(e) => if d.files.contains_key(id) {
                e == Error::CorruptTable(id)
            } else {
                e == Error::MissingTable(id)
            },
        },
{
    assert(d.toc.infos[id].id == id);
    if let Ok(found) = model::rows_in(d.files, d.toc.infos[id]) {
        assert forall|i: int, j: int| 0 <= i < j < found.len() implies order::key_less(
            (#[trigger] found[i]).0,
            (#[trigger] found[j]).0,
        ) by {
            assert(order::key_less(found[i].0, found[j].0));
        }
    }
}

proof fn lemma_lookup_stuck(d: DiskState, ids: Seq<TableId>, key: Seq<char>, n: int)
    requires
        0 <= n < ids.len(),
        d.toc.infos[ids[n]].covers(key),
        model::rows_in(d.files, d.toc.infos[ids[n]]) is Err,
        forall|i: int|
            0 <= i < n && d.toc.infos[#[trigger] ids[i]].covers(key) ==> model::rows_in(d.files, d.toc.infos[ids[i]]) is Ok
                && !contents::says(d, ids[i]).contains_key(key),
    ensures
        model::lookup_in(d.toc.infos, d.files, ids, key) == Err::<Option<Option<Seq<char>>>, Error>(
            model::rows_in(d.files, d.toc.infos[ids[n]])->Err_0,
        ),
    decreases ids.len(),
{
    if n > 0 {
        let rest = ids.drop_first();
        assert(rest[n - 1] == ids[n]);
        assert forall|i: int|
            0 <= i < n - 1 && d.toc.infos[#[trigger] rest[i]].covers(key) implies model::rows_in(
            d.files,
            d.toc.infos[rest[i]],
        ) is Ok && !contents::says(d, rest[i]).contains_key(key) by {
            assert(rest[i] == ids[i + 1]);
        }
        lemma_lookup_stuck(d, rest, key, n - 1);
        assert(d.toc.infos[ids[0]].covers(key) ==> !contents::says(d, ids[0]).contains_key(key));
    }
}

/// Where the first table that would be asked for a key cannot be read, because those on lower levels, and
/// those with higher numbers on its own, do not span the key or have no row for it, the error is given.
pub proof fn law_unreadable_table_is_reported(d: DiskState, key: Seq<char>, id: TableId)
    requires
        contents::numbered(d.toc),
        d.toc.infos.contains_key(id),
        d.toc.infos[id].covers(key),
        model::rows_in(d.files, d.toc.infos[id]) is Err,
        forall|other: TableId|
            {
                &&& #[trigger] d.toc.infos.contains_key(other)
                &&& d.toc.infos[other].covers(key)
                &&& d.toc.infos[other].level < d.toc.infos[id].level || d.toc.infos[other].level == d.toc.infos[id].level
                    && other > id
            } ==> model::rows_in(d.files, d.toc.infos[other]) is Ok && !contents::says(d, other).contains_key(key),
    ensures
        contents::disk_lookup(d, key) == Err::<Option<Option<Seq<char>>>, Error>(
            if d.files.contains_key(id) {
                Error::CorruptTable(id)
            } else {
                Error::MissingTable(id)
            },
        ),
{
    law_reading_a_table(d, id);
    let ids = toc::visits(d.toc.infos, true);
    let less = |a: TableId, b: TableId| toc::visited_before(d.toc.infos, true, a, b);
    toc::lemma_visits_exist(d.toc.infos, true);
    assert(ids.contains(id));
    let n = choose|n: int| 0 <= n < ids.len() && ids[n] == id;
    assert forall|i: int| 0 <= i < n && d.toc.infos[#[trigger] ids[i]].covers(key) implies model::rows_in(
        d.files,
        d.toc.infos[ids[i]],
    ) is Ok && !contents::says(d, ids[i]).contains_key(key) by {
        assert(ids.contains(ids[i]));
        assert(less(ids[i], ids[n]));
        assert(d.toc.infos.contains_key(ids[i]));
    }
    lemma_lookup_stuck(d, ids, key, n);
}

/// Where tables cannot be read, the error is that of one of them.
pub proof fn lemma_read_fails(d: DiskState, ids: Seq<TableId>)
    requires
        model::read_all(d.toc.infos, d.files, ids) is Err,
    ensures
        exists|i: int| {
            &&& 0 <= i < ids.len()
            &&& model::rows_in(d.files, d.toc.infos[#[trigger] ids[i]]) == Err::<Seq<rows::RowView>, Error>(
                model::read_all(d.toc.infos, d.files, ids)->Err_0,
            )
        },
    decreases ids.len(),
{
    let front = ids.drop_last();
    if model::read_all(d.toc.infos, d.files, front) is Err {
        lemma_read_fails(d, front);
        let i = choose|i: int| {
            &&& 0 <= i < front.len()
            &&& model::rows_in(d.files, d.toc.infos[#[trigger] front[i]]) == Err::<Seq<rows::RowView>, Error>(
                model::read_all(d.toc.infos, d.files, front)->Err_0,
            )
        };
        assert(ids[i] == front[i]);
    } else {
        assert(ids[ids.len() - 1] == ids.last());
    }
}

/// Walking a store and opening its files need every table: they succeed exactly where all the tables that
/// are listed can be read, and otherwise give the error of one that cannot.
pub proof fn law_walking_and_opening_need_every_table(s: StoreState, lower: Bound<String>, threshold: usize)
    requires
        contents::numbered(s.disk.toc),
        log::replay(s.disk.log) == Some(s.disk.toc),
    ensures
        model::scan(s, lower) is Ok <==> forall|id: TableId| #[trigger]
            s.disk.toc.infos.contains_key(id) ==> model::rows_in(s.disk.files, s.disk.toc.infos[id]) is Ok,
        model::scan(s, lower) matches Err(e) ==> exists|id: TableId| #[trigger]
            s.disk.toc.infos.contains_key(id) && model::rows_in(s.disk.files, s.disk.toc.infos[id]) == Err::<
                Seq<rows::RowView>,
                Error,
            >(e),
        model::opened(s.disk.log, s.disk.files, threshold) is Ok <==> forall|id: TableId| #[trigger]
            s.disk.toc.infos.contains_key(id) ==> model::rows_in(s.disk.files, s.disk.toc.infos[id]) is Ok,
        model::opened(s.disk.log, s.disk.files, threshold) matches Err(e) ==> exists|id: TableId| #[trigger]
            s.disk.toc.infos.contains_key(id) && model::rows_in(s.disk.files, s.disk.toc.infos[id]) == Err::<
                Seq<rows::RowView>,
                Error,
            >(e),
{
    let d = s.disk;
    let visited = toc::visits(d.toc.infos, false);
    let listed = toc::id_list(d.toc.infos.dom());
    toc::lemma_visits_exist(d.toc.infos, false);
    toc::lemma_id_list_exists(d.toc.infos.dom());
    assert forall|id: TableId| #[trigger] listed.contains(id) <==> d.toc.infos.contains_key(id) by {
        assert(listed.to_set().contains(id) <==> d.toc.infos.dom().contains(id));
    }
    lemma_reads_all(d, visited);
    lemma_reads_all(d, listed);
}

proof fn lemma_reads_all(d: DiskState, ids: Seq<TableId>)
    requires
        forall|id: TableId| #[trigger] ids.contains(id) <==> d.toc.infos.contains_key(id),
    ensures
        model::read_all(d.toc.infos, d.files, ids) is Ok <==> contents::intact(d),
        model::read_all(d.toc.infos, d.files, ids) matches Err(e) ==> exists|id: TableId| #[trigger]
            d.toc.infos.contains_key(id) && model::rows_in(d.files, d.toc.infos[id]) == Err::<
                Seq<rows::RowView>,
                Error,
            >(e),
{
    assert forall|i: int| 0 <= i < ids.len() implies d.toc.infos.contains_key(#[trigger] ids[i]) by {
        assert(ids.contains(ids[i]));
    }
    if model::read_all(d.toc.infos, d.files, ids) is Ok {
        assert forall|id: TableId| #[trigger] d.toc.infos.contains_key(id) implies model::rows_in(
            d.files,
            d.toc.infos[id],
        ) is Ok by {
            assert(ids.contains(id));
            let i = choose|i: int| 0 <= i < ids.len() && ids[i] == id;
            merging::lemma_read_each(d.toc.infos, d.files, ids, i);
        }
    } else {
        lemma_read_fails(d, ids);
        let i = choose|i: int| {
            &&& 0 <= i < ids.len()
            &&& model::rows_in(d.files, d.toc.infos[#[trigger] ids[i]]) == Err::<Seq<rows::RowView>, Error>(
                model::read_all(d.toc.infos, d.files, ids)->Err_0,
            )
        };
        assert(d.toc.infos.contains_key(ids[i]));
    }
}

/// The first memory store that has a row for a key says what becomes of it, and only where none has one
/// are the tables asked.
pub proof fn law_memory_goes_before_tables(s: StoreState, key: Seq<char>)
    ensures
        forall|i: int|
            0 <= i < s.memstores.len() && (#[trigger] s.memstores[i]).contains_key(key) && (forall|j: int|
                0 <= j < i ==> !(#[trigger] s.memstores[j]).contains_key(key)) ==> model::lookup(s, key) == Ok::<
                Option<Option<Seq<char>>>,
                Error,
            >(Some(s.memstores[i][key])),
        (forall|i: int| 0 <= i < s.memstores.len() ==> !(#[trigger] s.memstores[i]).contains_key(key))
            ==> model::lookup(s, key) == contents::disk_lookup(s.disk, key),
{
    rows::law_front_map_wins(s.memstores, key);
}

/// A key has the value that its row sets. It has none where its row deletes it or where it has no row.
pub proof fn law_value_is_what_the_row_sets(s: StoreState, key: Seq<char>, value: Seq<char>)
    ensures
        model::lookup(s, key) == Ok::<Option<Option<Seq<char>>>, Error>(Some(Some(value))) <==> model::value_of(s, key)
            == Ok::<Option<Seq<char>>, Error>(Some(value)),
        model::lookup(s, key) == Ok::<Option<Option<Seq<char>>>, Error>(Some(None)) ==> model::value_of(s, key) == Ok::<
            Option<Seq<char>>,
            Error,
        >(None),
        model::lookup(s, key) == Ok::<Option<Option<Seq<char>>>, Error>(None) ==> model::value_of(s, key) == Ok::<
            Option<Seq<char>>,
            Error,
        >(None),
        model::lookup(s, key) matches Err(e) ==> model::value_of(s, key) == Err::<Option<Seq<char>>, Error>(e),
{
}

/// Writing rows to a table of a level uses the next number for it and changes nothing of the other
/// tables. The table spans the rows from the smallest key to the biggest one, and reads back as them.
/// Without rows nothing is written, and with rows it fails only where no number is left.
pub proof fn law_rows_are_written_to_a_new_table(d: DiskState, changes: Changes, level: LevelNumber, other: TableId)
    requires
        contents::numbered(d.toc),
        changes.dom().finite(),
    ensures
        changes == Changes::empty() ==> model::written(d, changes, level) == Ok::<DiskState, Error>(d),
        changes != Changes::empty() && d.toc.next_id == u64::MAX ==> model::written(d, changes, level) == Err::<
            DiskState,
            Error,
        >(Error::IdsExhausted),
        changes != Changes::empty() && d.toc.next_id < u64::MAX ==> {
            &&& model::written(d, changes, level) matches Ok(next)
            &&& next.toc.next_id == d.toc.next_id + 1
            &&& next.toc.infos.contains_key(d.toc.next_id)
            &&& {
                let info = next.toc.infos[d.toc.next_id];
                &&& info.id == d.toc.next_id
                &&& info.level == level
                &&& changes.contains_key(info.smallest_key) && changes.contains_key(info.biggest_key)
                &&& forall|key: Seq<char>| #[trigger]
                    changes.contains_key(key) ==> (key == info.smallest_key || order::key_less(info.smallest_key, key))
                        && (key == info.biggest_key || order::key_less(key, info.biggest_key))
                &&& merging::files_fit(next) ==> model::rows_in(next.files, info) == Ok::<Seq<rows::RowView>, Error>(
                    rows::rows_of(changes),
                )
            }
            &&& other != d.toc.next_id ==> {
                &&& next.toc.infos.contains_key(other) <==> d.toc.infos.contains_key(other)
                &&& next.toc.infos.contains_key(other) ==> next.toc.infos[other] == d.toc.infos[other]
                &&& next.files.contains_key(other) <==> d.files.contains_key(other)
                &&& next.files.contains_key(other) ==> next.files[other] == d.files[other]
            }
        },
{
    if changes != Changes::empty() && d.toc.next_id < u64::MAX {
        let next = model::written(d, changes, level)->Ok_0;
        let id = d.toc.next_id;
        let all = rows::rows_of(changes);
        let parts = seq![all];
        merging::lemma_written_parts(d, changes, level, next);
        merging::lemma_recorded(d, parts, level, Seq::empty(), next);
        merging::lemma_files_with(d.files, parts, id);
        rows::law_rows_list_a_map(changes);
        rows::lemma_rows_exist(changes);
        if all.len() == 0 {
            assert(changes =~= Changes::empty());
        }
        assert(next.toc.infos[id] == table::info_of(parts[id - d.toc.next_id], id, level));
        assert(next.files[id] == table::table_bytes(parts[id - d.toc.next_id]));
        assert(next.files.contains_key(id));
        assert(!Seq::<TableId>::empty().contains(other));
        assert(changes.contains_key(all[0].0) && changes.contains_key(all[all.len() - 1].0));
        if merging::files_fit(next) {
            table::lemma_table_round_trip(all, id, level);
        }
        let info = next.toc.infos[id];
        assert forall|key: Seq<char>| #[trigger] changes.contains_key(key) implies (key == info.smallest_key
            || order::key_less(info.smallest_key, key)) && (key == info.biggest_key || order::key_less(
            key,
            info.biggest_key,
        )) by {
            let i = choose|i: int| 0 <= i < all.len() && (#[trigger] all[i]).0 == key;
            if i > 0 {
                assert(order::key_less(all[0].0, all[i].0));
            }
            if i < all.len() - 1 {
                assert(order::key_less(all[i].0, all[all.len() - 1].0));
            }
        }
        if other > id {
            assert(next.files.contains_key(other) <==> d.files.contains_key(other));
            lemma_inserted(d.files, id, all, other);
        }
    }
}

proof fn lemma_inserted(files: Map<TableId, Seq<u8>>, id: TableId, all: Seq<rows::RowView>, other: TableId)
    requires
        other != id,
        id < u64::MAX,
    ensures
        model::files_with(files, seq![all], id)[other] == files[other],
{
    reveal_with_fuel(model::files_with, 2);
    assert(seq![all].drop_last() =~= Seq::<Seq<rows::RowView>>::empty());
}

/// A flush that can write the first memory store brings all of its rows to the tables, whatever other
/// memory stores say of the keys, and changes nothing of what the tables say of other keys.
pub proof fn law_flush_brings_rows_to_tables(s: StoreState, next: StoreState, key: Seq<char>)
    requires
        sound_store(s),
        model::flushed(s).0 == next,
        merging::files_fit(next.disk),
        s.disk.toc.next_id < u64::MAX,
    ensures
        s.memstores[0].contains_key(key) ==> contents::disk_lookup(next.disk, key) == Ok::<
            Option<Option<Seq<char>>>,
            Error,
        >(Some(s.memstores[0][key])),
        !s.memstores[0].contains_key(key) ==> contents::disk_lookup(next.disk, key) == contents::disk_lookup(
            s.disk,
            key,
        ),
{
    lemma_flushed(s, next);
    assert(contents::disk_lookup(next.disk, key) == contents::disk_lookup(next.disk, key));
}

/// After a flush the first memory store is empty, and the others and the threshold are as before. Where
/// the flush failed, the first memory store is as before or gone, and the others are as before.
pub proof fn law_flush_empties_the_first_store(s: StoreState)
    requires
        s.memstores.len() > 0,
    ensures
        ({
            let (next, answer) = model::flushed(s);
            &&& next.threshold == s.threshold
            &&& answer is Ok ==> {
                &&& next.memstores.len() == s.memstores.len()
                &&& next.memstores[0] == Changes::empty()
                &&& forall|i: int| 0 < i < s.memstores.len() ==> #[trigger] next.memstores[i] == s.memstores[i]
            }
            &&& answer is Err && s.memstores.len() > 1 ==> next.memstores == s.memstores || next.memstores
                == s.memstores.drop_first()
            &&& s.disk.toc.next_id == u64::MAX && s.memstores[0] != Changes::empty() ==> next == s && answer is Err
        }),
{
}

/// A flush fails where its rows cannot be written, and then nothing changes, or where the rebalance that
/// follows fails. The error is theirs. The files are those that the writing and the rebalance leave.
pub proof fn law_flush_reports_failure(s: StoreState, d: DiskState)
    requires
        s.memstores.len() > 0,
    ensures
        model::written(s.disk, s.memstores[0], 0) matches Err(e) ==> model::flushed(s).0 == s && model::flushed(s).1
            == Err::<(), Error>(e),
        model::written(s.disk, s.memstores[0], 0) == Ok::<DiskState, Error>(d) ==> {
            &&& model::flushed(s).0.disk == model::rebalanced(d, s.threshold).0
            &&& model::rebalanced(d, s.threshold).1 is Ok ==> model::flushed(s).1 is Ok
            &&& model::rebalanced(d, s.threshold).1 matches Err(e) ==> model::flushed(s).1 == Err::<(), Error>(e) && (
            s.memstores.len() > 1 ==> model::flushed(s).0.memstores == s.memstores.drop_first()) && (s.memstores.len()
                == 1 ==> model::flushed(s).0.memstores == seq![Changes::empty()])
        },
{
}

/// Where the rows of the first memory store, with the one that is put in, stay below the threshold, the
/// row is put into the first memory store, in place of any for its key, and nothing else changes.
pub proof fn law_row_stays_in_memory_below_the_threshold(s: StoreState, key: Seq<char>, mutation: Option<Seq<char>>)
    requires
        s.memstores.len() > 0,
        memstore::usage(rows::rows_of(s.memstores[0].insert(key, mutation))) < s.threshold,
    ensures
        ({
            let (next, answer) = model::changed(s, key, mutation);
            &&& answer is Ok
            &&& next.memstores.len() == s.memstores.len()
            &&& next.memstores[0] == s.memstores[0].insert(key, mutation)
            &&& forall|i: int| 0 < i < s.memstores.len() ==> #[trigger] next.memstores[i] == s.memstores[i]
            &&& next.threshold == s.threshold
            &&& next.disk == s.disk
        }),
{
}

/// Where the rows of the first memory store, with the one that is put in, reach the threshold, they all
/// come to the tables, the one that is put in among them with what it does, whatever other memory stores
/// say of the key. Nothing else that the tables say changes, and the other memory stores stay.
pub proof fn law_row_comes_to_tables_at_the_threshold(
    s: StoreState,
    key: Seq<char>,
    mutation: Option<Seq<char>>,
    next: StoreState,
    other: Seq<char>,
)
    requires
        sound_store(s),
        memstore::usage(rows::rows_of(s.memstores[0].insert(key, mutation))) >= s.threshold,
        model::changed(s, key, mutation).0 == next,
        merging::files_fit(next.disk),
        s.disk.toc.next_id < u64::MAX,
        other != key,
    ensures
        contents::disk_lookup(next.disk, key) == Ok::<Option<Option<Seq<char>>>, Error>(Some(mutation)),
        s.memstores[0].contains_key(other) ==> contents::disk_lookup(next.disk, other) == Ok::<
            Option<Option<Seq<char>>>,
            Error,
        >(Some(s.memstores[0][other])),
        !s.memstores[0].contains_key(other) ==> contents::disk_lookup(next.disk, other) == contents::disk_lookup(
            s.disk,
            other,
        ),
        model::changed(s, key, mutation).1 is Ok ==> next.memstores == s.memstores.update(0, Changes::empty()),
        model::changed(s, key, mutation).1 is Err && s.memstores.len() > 1 ==> next.memstores
            == s.memstores.drop_first(),
        next.threshold == s.threshold,
{
    lemma_applied(s, key, mutation);
    let middle = model::applied(s, key, mutation);
    assert(middle.memstores[0] == s.memstores[0].insert(key, mutation));
    law_flush_brings_rows_to_tables(middle, next, key);
    law_flush_brings_rows_to_tables(middle, next, other);
    assert(middle.memstores.update(0, Changes::empty()) =~= s.memstores.update(0, Changes::empty()));
    assert(middle.memstores.drop_first() =~= s.memstores.drop_first());
}

/// A row that was put in is never lost: afterwards it is in the first memory store, or it is what the
/// tables say of its key, even where a flush failed.
pub proof fn law_row_is_kept(s: StoreState, key: Seq<char>, mutation: Option<Seq<char>>, next: StoreState)
    requires
        sound_store(s),
        model::changed(s, key, mutation).0 == next,
        merging::files_fit(next.disk),
    ensures
        next.memstores[0].contains_key(key) && next.memstores[0][key] == mutation || contents::disk_lookup(
            next.disk,
            key,
        ) == Ok::<Option<Option<Seq<char>>>, Error>(Some(mutation)),
{
    lemma_applied(s, key, mutation);
    let middle = model::applied(s, key, mutation);
    assert(middle.memstores[0] == s.memstores[0].insert(key, mutation));
    if model::is_full(middle) {
        if s.disk.toc.next_id < u64::MAX {
            law_flush_brings_rows_to_tables(middle, next, key);
        } else {
            assert(middle.memstores[0].contains_key(key));
            assert(middle.memstores[0] != Changes::empty());
        }
    }
}

// Opening.

/// Of the tables that have a row for the key, this one has the highest number.
pub open spec fn newest(d: DiskState, key: Seq<char>, id: TableId) -> bool {
    &&& contents::has_row(d, id, key)
    &&& forall|other: TableId| other != id && #[trigger] contents::has_row(d, other, key) ==> other < id
}

proof fn lemma_stacked_absent(maps: Seq<Changes>, key: Seq<char>)
    requires
        forall|i: int| 0 <= i < maps.len() ==> !(#[trigger] maps[i]).contains_key(key),
    ensures
        !model::stacked(maps).contains_key(key),
    decreases maps.len(),
{
    if maps.len() > 0 {
        assert(!maps[maps.len() - 1].contains_key(key));
        assert forall|i: int| 0 <= i < maps.drop_last().len() implies !(#[trigger] maps.drop_last()[i]).contains_key(
            key,
        ) by {
            assert(!maps[i].contains_key(key));
        }
        lemma_stacked_absent(maps.drop_last(), key);
    }
}

proof fn lemma_stacked_at(maps: Seq<Changes>, key: Seq<char>, i: int)
    requires
        0 <= i < maps.len(),
        maps[i].contains_key(key),
        forall|j: int| i < j < maps.len() ==> !(#[trigger] maps[j]).contains_key(key),
    ensures
        model::stacked(maps).contains_key(key),
        model::stacked(maps)[key] == maps[i][key],
    decreases maps.len(),
{
    if i < maps.len() - 1 {
        let front = maps.drop_last();
        assert(!maps[maps.len() - 1].contains_key(key));
        assert forall|j: int| i < j < front.len() implies !(#[trigger] front[j]).contains_key(key) by {
            assert(!maps[j].contains_key(key));
        }
        lemma_stacked_at(front, key, i);
    }
}

proof fn lemma_stacked_finite(maps: Seq<Changes>)
    requires
        forall|i: int| 0 <= i < maps.len() ==> (#[trigger] maps[i]).dom().finite(),
    ensures
        model::stacked(maps).dom().finite(),
    decreases maps.len(),
{
    if maps.len() > 0 {
        let front = maps.drop_last();
        assert(maps[maps.len() - 1].dom().finite());
        assert forall|i: int| 0 <= i < front.len() implies (#[trigger] front[i]).dom().finite() by {
            assert(maps[i].dom().finite());
        }
        lemma_stacked_finite(front);
        assert(model::stacked(maps).dom() =~= model::stacked(front).dom().union(maps.last().dom()));
    }
}

/// The tables in the order in which they are taken into memory.
proof fn lemma_opened(d: DiskState) -> (ids: Seq<TableId>)
    requires
        contents::sound(d),
    ensures
        ids == toc::id_list(d.toc.infos.dom()),
        toc::ascending(ids),
        forall|id: TableId| #[trigger] ids.contains(id) <==> d.toc.infos.contains_key(id),
        model::read_all(d.toc.infos, d.files, ids) == Ok::<Seq<Changes>, Error>(
            Seq::new(ids.len(), |i: int| contents::says(d, ids[i])),
        ),
{
    let ids = toc::id_list(d.toc.infos.dom());
    toc::lemma_id_list_exists(d.toc.infos.dom());
    assert forall|id: TableId| #[trigger] ids.contains(id) <==> d.toc.infos.contains_key(id) by {
        assert(ids.to_set().contains(id) <==> d.toc.infos.dom().contains(id));
    }
    assert forall|i: int| 0 <= i < ids.len() implies d.toc.infos.contains_key(#[trigger] ids[i]) by {
        assert(ids.contains(ids[i]));
    }
    contents::lemma_read_all(d, ids);
    ids
}

/// The files of a sound store can be opened. The store that is opened has those files, is sound,
/// and is the same each time.
pub proof fn law_open_succeeds(d: DiskState, threshold: usize)
    requires
        contents::sound(d),
        log::replay(d.log) == Some(d.toc),
    ensures
        model::opened(d.log, d.files, threshold) is Ok,
        model::opened(d.log, d.files, threshold)->Ok_0.disk == d,
        model::opened(d.log, d.files, threshold)->Ok_0.threshold == threshold,
        sound_store(model::opened(d.log, d.files, threshold)->Ok_0),
{
    let ids = lemma_opened(d);
    let maps = Seq::new(ids.len(), |i: int| contents::says(d, ids[i]));
    let r = model::opened(d.log, d.files, threshold)->Ok_0;
    assert forall|i: int| 0 <= i < maps.len() implies (#[trigger] maps[i]).dom().finite() by {
        rows::lemma_to_map(model::rows_in(d.files, d.toc.infos[ids[i]])->Ok_0);
    }
    lemma_stacked_finite(maps);
    assert(r.memstores =~= seq![Changes::empty(), model::stacked(maps)]);
}

/// A store that is opened has an empty memory store in front of one with the rows of the tables. Where the
/// log cannot be read it is not opened.
pub proof fn law_open_starts_with_empty_memory(log_bytes: Seq<u8>, files: Map<TableId, Seq<u8>>, threshold: usize)
    ensures
        log::replay(log_bytes) is None ==> model::opened(log_bytes, files, threshold) == Err::<StoreState, Error>(
            Error::CorruptToc,
        ),
        model::opened(log_bytes, files, threshold) matches Ok(s) ==> {
            &&& s.memstores.len() == 2
            &&& s.memstores[0] == Changes::empty()
            &&& s.threshold == threshold
            &&& s.disk.log == log_bytes
            &&& s.disk.files == files
            &&& log::replay(log_bytes) == Some(s.disk.toc)
        },
{
}

/// A store that is opened says of a key what the table with the highest number says that has a row
/// for it.
pub proof fn law_open_takes_newest(d: DiskState, threshold: usize, key: Seq<char>, id: TableId)
    requires
        contents::sound(d),
        log::replay(d.log) == Some(d.toc),
        newest(d, key, id),
    ensures
        model::lookup(model::opened(d.log, d.files, threshold)->Ok_0, key) == Ok::<Option<Option<Seq<char>>>, Error>(
            Some(contents::says(d, id)[key]),
        ),
{
    law_open_succeeds(d, threshold);
    let ids = lemma_opened(d);
    let maps = Seq::new(ids.len(), |i: int| contents::says(d, ids[i]));
    let r = model::opened(d.log, d.files, threshold)->Ok_0;
    let below = |a: TableId, b: TableId| a < b;
    assert(ids.contains(id));
    let n = choose|n: int| 0 <= n < ids.len() && ids[n] == id;
    assert forall|j: int| n < j < maps.len() implies !(#[trigger] maps[j]).contains_key(key) by {
        assert(ids.contains(ids[j]));
        assert(below(ids[n], ids[j]));
        if maps[j].contains_key(key) {
            assert(contents::has_row(d, ids[j], key));
        }
    }
    lemma_stacked_at(maps, key, n);
    assert(rows::frontmost(r.memstores, key, 1));
    rows::lemma_overlay_at(r.memstores, key, 1);
}

/// A store that is opened says nothing of a key that no table has.
pub proof fn law_open_adds_nothing(d: DiskState, threshold: usize, key: Seq<char>)
    requires
        contents::sound(d),
        log::replay(d.log) == Some(d.toc),
        forall|id: TableId| !#[trigger] contents::has_row(d, id, key),
    ensures
        model::lookup(model::opened(d.log, d.files, threshold)->Ok_0, key) == Ok::<Option<Option<Seq<char>>>, Error>(
            None,
        ),
{
    law_open_succeeds(d, threshold);
    let ids = lemma_opened(d);
    let maps = Seq::new(ids.len(), |i: int| contents::says(d, ids[i]));
    let r = model::opened(d.log, d.files, threshold)->Ok_0;
    assert forall|j: int| 0 <= j < maps.len() implies !(#[trigger] maps[j]).contains_key(key) by {
        assert(ids.contains(ids[j]));
        assert(!contents::has_row(d, ids[j], key));
    }
    lemma_stacked_absent(maps, key);
    rows::lemma_overlay_absent(r.memstores, key);
    match contents::lemma_disk_lookup(d, key) {
        Some(id) => {
            assert(contents::has_row(d, id, key));
        },
        None => {},
    }
}

/// The table with the highest number of those that have a row for the key says of it what the one
/// that is visited first says.
pub open spec fn numbers_agree(d: DiskState, key: Seq<char>) -> bool {
    forall|a: TableId, b: TableId|
        contents::foremost(d, key, a) && newest(d, key, b) ==> #[trigger] contents::says(d, a)[key]
            == #[trigger] contents::says(d, b)[key]
}

proof fn lemma_newest_exists(d: DiskState, key: Seq<char>, some: TableId) -> (id: TableId)
    requires
        contents::has_row(d, some, key),
        contents::numbered(d.toc),
    ensures
        newest(d, key, id),
    decreases d.toc.next_id - some,
{
    assert(some < d.toc.next_id);
    if newest(d, key, some) {
        some
    } else {
        let higher = choose|higher: TableId| higher != some && #[trigger] contents::has_row(d, higher, key) && higher > some;
        assert(contents::has_row(d, higher, key) && higher > some && higher < d.toc.next_id);
        lemma_newest_exists(d, key, higher)
    }
}

/// The store says of the key what its tables say of it.
pub open spec fn told_by_tables(s: StoreState, key: Seq<char>) -> bool {
    model::lookup(s, key) == contents::disk_lookup(s.disk, key)
}

/// A store that is opened again says of a key what it said before it was closed, where that is what
/// its tables say of the key, and where the order of the tables' numbers agrees with the order in
/// which they are visited.
pub proof fn law_reopen_keeps_contents(s: StoreState, threshold: usize, key: Seq<char>)
    requires
        sound_store(s),
        log::replay(s.disk.log) == Some(s.disk.toc),
        told_by_tables(s, key),
        numbers_agree(s.disk, key),
    ensures
        model::opened(s.disk.log, s.disk.files, threshold) is Ok,
        model::lookup(model::opened(s.disk.log, s.disk.files, threshold)->Ok_0, key) == model::lookup(s, key),
{
    law_open_succeeds(s.disk, threshold);
    match contents::lemma_disk_lookup(s.disk, key) {
        Some(a) => {
            let b = lemma_newest_exists(s.disk, key, a);
            assert(contents::says(s.disk, a)[key] == contents::says(s.disk, b)[key]);
            law_open_takes_newest(s.disk, threshold, key, b);
        },
        None => {
            law_open_adds_nothing(s.disk, threshold, key);
        },
    }
}

/// What a store says of a key survives a flush and opening the store again, where no other memory
/// store says something else of the key than the flushed one or than the tables, and where the order
/// of the tables' numbers agrees with the order in which they are visited.
pub proof fn law_flush_and_reopen(s: StoreState, flushed: StoreState, threshold: usize, key: Seq<char>)
    requires
        sound_store(s),
        model::flushed(s).0 == flushed,
        merging::files_fit(flushed.disk),
        log::replay(flushed.disk.log) == Some(flushed.disk.toc),
        !shadowed(s, key),
        told_by_tables(flushed, key),
        numbers_agree(flushed.disk, key),
    ensures
        model::opened(flushed.disk.log, flushed.disk.files, threshold) is Ok,
        model::lookup(model::opened(flushed.disk.log, flushed.disk.files, threshold)->Ok_0, key) == model::lookup(s, key),
{
    law_flush_keeps_soundness(s, flushed);
    law_flush_keeps_contents(s, flushed, key);
    law_reopen_keeps_contents(flushed, threshold, key);
}

/// Writing a memory store to a table keeps the order of the numbers in agreement with the order in
/// which tables are visited: only merging can part them.
pub proof fn law_writing_keeps_numbers_agreed(d: DiskState, changes: Changes, next: DiskState, key: Seq<char>)
    requires
        contents::sound(d),
        changes.dom().finite(),
        model::written(d, changes, 0) == Ok::<DiskState, Error>(next),
        merging::files_fit(next),
        changes.contains_key(key) || numbers_agree(d, key),
    ensures
        numbers_agree(next, key),
{
    if changes != Changes::empty() {
        let new = d.toc.next_id;
        merging::lemma_written_row(d, changes, next);
        assert(contents::has_row(next, new, key) == changes.contains_key(key));
        assert forall|a: TableId, b: TableId|
            contents::foremost(next, key, a) && newest(next, key, b) implies #[trigger] contents::says(next, a)[key]
            == #[trigger] contents::says(next, b)[key] by {
            assert(contents::has_row(next, a, key) && contents::has_row(next, b, key));
            if changes.contains_key(key) {
                assert(contents::has_row(next, new, key));
                assert(a == new) by {
                    if a != new {
                        assert(toc::visited_before(next.toc.infos, true, a, new));
                    }
                }
            } else {
                assert(a != new && b != new);
                assert(contents::foremost(d, key, a)) by {
                    assert forall|other: TableId| other != a && #[trigger] contents::has_row(
                        d,
                        other,
                        key,
                    ) implies toc::visited_before(d.toc.infos, true, a, other) by {
                        assert(contents::has_row(next, other, key));
                    }
                }
                assert(newest(d, key, b)) by {
                    assert forall|other: TableId| other != b && #[trigger] contents::has_row(
                        d,
                        other,
                        key,
                    ) implies other < b by {
                        assert(contents::has_row(next, other, key));
                    }
                }
                assert(contents::says(d, a)[key] == contents::says(d, b)[key]);
            }
        }
    } else {
        assert(!changes.contains_key(key));
    }
}

/// What the flushed memory store says of a key is what the store says when it is opened again, whatever
/// other memory stores said of the key, where the order of the tables' numbers agrees with the order in
/// which they are visited. Of other keys the opened store says what the tables said before.
pub proof fn law_flushed_rows_are_there_after_opening(s: StoreState, next: StoreState, threshold: usize, key: Seq<char>)
    requires
        sound_store(s),
        model::flushed(s).0 == next,
        merging::files_fit(next.disk),
        s.disk.toc.next_id < u64::MAX,
        log::replay(next.disk.log) == Some(next.disk.toc),
        numbers_agree(next.disk, key),
    ensures
        model::opened(next.disk.log, next.disk.files, threshold) is Ok,
        s.memstores[0].contains_key(key) ==> model::lookup(
            model::opened(next.disk.log, next.disk.files, threshold)->Ok_0,
            key,
        ) == Ok::<Option<Option<Seq<char>>>, Error>(Some(s.memstores[0][key])),
        !s.memstores[0].contains_key(key) ==> model::lookup(
            model::opened(next.disk.log, next.disk.files, threshold)->Ok_0,
            key,
        ) == contents::disk_lookup(s.disk, key),
{
    law_flush_keeps_soundness(s, next);
    law_flush_brings_rows_to_tables(s, next, key);
    let bare = StoreState { memstores: seq![Changes::empty()], ..next };
    assert(sound_store(bare)) by {
        assert(bare.memstores[0].dom().finite());
    }
    rows::law_front_map_wins(bare.memstores, key);
    law_reopen_keeps_contents(bare, threshold, key);
}

/// A row that was put in and led to a flush without merging is what the store says of the key when it is
/// opened again, whatever was there before: an update or a removal after opening is not lost.
pub proof fn law_changed_row_is_there_after_opening(
    s: StoreState,
    key: Seq<char>,
    mutation: Option<Seq<char>>,
    written: DiskState,
    threshold: usize,
)
    requires
        sound_store(s),
        memstore::usage(rows::rows_of(s.memstores[0].insert(key, mutation))) >= s.threshold,
        model::written(s.disk, s.memstores[0].insert(key, mutation), 0) == Ok::<DiskState, Error>(written),
        model::rebalanced(written, s.threshold).0 == written,
        merging::files_fit(written),
        log::replay(written.log) == Some(written.toc),
    ensures
        model::changed(s, key, mutation).0.disk == written,
        model::opened(written.log, written.files, threshold) is Ok,
        model::lookup(model::opened(written.log, written.files, threshold)->Ok_0, key) == Ok::<
            Option<Option<Seq<char>>>,
            Error,
        >(Some(mutation)),
{
    lemma_applied(s, key, mutation);
    let front = s.memstores[0].insert(key, mutation);
    assert(model::applied(s, key, mutation).memstores[0] == front);
    assert(front.contains_key(key));
    assert(front != Changes::empty());
    assert(model::applied(s, key, mutation).memstores[0].dom().finite());
    merging::lemma_written(s.disk, front, written);
    merging::lemma_written_row(s.disk, front, written);
    let id = s.disk.toc.next_id;
    assert(contents::has_row(written, id, key));
    assert(newest(written, key, id)) by {
        assert forall|other: TableId| other != id && #[trigger] contents::has_row(written, other, key) implies other
            < id by {
            assert(written.toc.infos.contains_key(other));
        }
    }
    law_open_succeeds(written, threshold);
    law_open_takes_newest(written, threshold, key, id);
}

/// A new store can be opened, is sound, and says nothing of any key.
pub proof fn law_new_store_is_empty(threshold: usize, key: Seq<char>)
    ensures
        model::opened(Seq::empty(), Map::empty(), threshold) is Ok,
        sound_store(model::opened(Seq::empty(), Map::empty(), threshold)->Ok_0),
        model::value_of(model::opened(Seq::empty(), Map::empty(), threshold)->Ok_0, key) == Ok::<
            Option<Seq<char>>,
            Error,
        >(None),
{
    let d = DiskState { toc: toc::empty_toc(), log: Seq::empty(), files: Map::empty() };
    assert(contents::sound(d));
    law_open_succeeds(d, threshold);
    law_open_adds_nothing(d, threshold, key);
}

// Walking.

proof fn lemma_overlay_concat(a: Seq<Changes>, b: Seq<Changes>)
    ensures
        rows::overlay(a + b) == rows::overlay(b).union_prefer_right(rows::overlay(a)),
    decreases a.len(),
{
    if a.len() == 0 {
        assert(a + b =~= b);
        assert(rows::overlay(b).union_prefer_right(rows::overlay(a)) =~= rows::overlay(b));
    } else {
        lemma_overlay_concat(a.drop_first(), b);
        assert((a + b).drop_first() =~= a.drop_first() + b);
        assert(rows::overlay(a + b) =~= rows::overlay(b).union_prefer_right(rows::overlay(a)));
    }
}

/// A walk through an interval comes to the keys in it that have a value, and to no others, and gives
/// each the value that it has.
pub proof fn law_range_agrees_with_get(s: StoreState, interval: Interval<String>, key: Seq<char>)
    requires
        sound_store(s),
    ensures
        model::scan(s, interval.lower) is Ok,
        ({
            let pairs = model::pairs_below(model::scan(s, interval.lower)->Ok_0, interval.upper);
            match model::value_of(s, key) {
                Ok(Some(value)) => pairs.contains_key(key) == interval::within(key, interval) && (pairs.contains_key(
                    key,
                ) ==> pairs[key] == value),
                _ => !pairs.contains_key(key),
            }
        }),
{
    let d = s.disk;
    let ids = toc::visits(d.toc.infos, false);
    let less = |a: TableId, b: TableId| toc::visited_before(d.toc.infos, false, a, b);
    contents::lemma_no_shared_keys(d);
    toc::lemma_visits_exist(d.toc.infos, false);
    assert forall|i: int| 0 <= i < ids.len() implies d.toc.infos.contains_key(#[trigger] ids[i]) by {
        assert(ids.contains(ids[i]));
    }
    contents::lemma_read_all(d, ids);
    let maps = Seq::new(ids.len(), |i: int| contents::says(d, ids[i]));
    lemma_overlay_concat(s.memstores, maps);
    if rows::overlay(maps).contains_key(key) {
        let p = rows::lemma_overlay_frontmost(maps, key);
        assert(contents::has_row(d, ids[p], key));
        assert forall|other: TableId| other != ids[p] && #[trigger] contents::has_row(
            d,
            other,
            key,
        ) implies toc::visited_before(d.toc.infos, true, ids[p], other) by {
            assert(ids.contains(other));
            let q = choose|q: int| 0 <= q < ids.len() && ids[q] == other;
            assert(maps[q].contains_key(key));
            assert(!(q < p));
            assert(less(ids[p], ids[q]));
        }
        contents::lemma_foremost_decides(d, key, ids[p]);
    } else {
        match contents::lemma_disk_lookup(d, key) {
            Some(id) => {
                assert(ids.contains(id));
                let q = choose|q: int| 0 <= q < ids.len() && ids[q] == id;
                assert(maps[q].contains_key(key));
                rows::lemma_in_overlay(maps, q, key);
            },
            None => {},
        }
    }
}

/// A walk through an interval comes to a key exactly where the key has a value and lies on the right side
/// of both ends, and gives it that value.
pub proof fn law_range_has_the_pairs_between_its_ends(
    s: StoreState,
    interval: Interval<String>,
    key: Seq<char>,
    value: Seq<char>,
)
    requires
        sound_store(s),
    ensures
        model::scan(s, interval.lower) is Ok,
        ({
            let pairs = model::pairs_below(model::scan(s, interval.lower)->Ok_0, interval.upper);
            let inside = {
                &&& match interval.lower {
                    Bound::Included(end) => key == end@ || order::key_less(end@, key),
                    Bound::Excluded(end) => order::key_less(end@, key),
                    Bound::Unbounded => true,
                }
                &&& match interval.upper {
                    Bound::Included(end) => key == end@ || order::key_less(key, end@),
                    Bound::Excluded(end) => order::key_less(key, end@),
                    Bound::Unbounded => true,
                }
            };
            pairs.contains_key(key) && pairs[key] == value <==> inside && model::value_of(s, key) == Ok::<
                Option<Seq<char>>,
                Error,
            >(Some(value))
        }),
{
    law_range_agrees_with_get(s, interval, key);
    interval::law_within_both_ends(key, interval);
}

/// What a walk has still to come, up to an upper end, are the keys that are set and lie before the end or
/// on an included one. What is behind a key are the keys after it, and beyond an end those after it.
pub proof fn law_what_is_still_to_come(changes: Changes, upper: Bound<String>, key: Seq<char>, k: Seq<char>)
    ensures
        ({
            let before_end = match upper {
                Bound::Included(end) => k == end@ || order::key_less(k, end@),
                Bound::Excluded(end) => order::key_less(k, end@),
                Bound::Unbounded => true,
            };
            &&& model::pairs_below(changes, upper).contains_key(k) <==> changes.contains_key(k) && changes[k] is Some
                && before_end
            &&& model::pairs_below(changes, upper).contains_key(k) ==> changes[k] == Some(
                model::pairs_below(changes, upper)[k],
            )
            &&& model::behind(changes, key).contains_key(k) <==> changes.contains_key(k) && order::key_less(key, k)
            &&& model::behind(changes, key).contains_key(k) ==> model::behind(changes, key)[k] == changes[k]
            &&& model::beyond(changes, upper).contains_key(k) <==> changes.contains_key(k) && !before_end
            &&& model::beyond(changes, upper).contains_key(k) ==> model::beyond(changes, upper)[k] == changes[k]
        }),
{
    broadcast use order::group_key_order;

}

/// Each step of a walk takes one pair off those that are to come, the one with the smallest key.
pub proof fn law_next_takes_one(changes: Changes, upper: Bound<String>, key: Seq<char>)
    requires
        model::pairs_below(changes, upper).contains_key(key),
        forall|k: Seq<char>| #[trigger]
            model::pairs_below(changes, upper).contains_key(k) ==> !order::key_less(k, key),
    ensures
        model::pairs_below(model::behind(changes, key), upper) == model::pairs_below(changes, upper).remove(key),
{
    broadcast use order::group_key_order;

    let before = model::pairs_below(changes, upper);
    let after = model::pairs_below(model::behind(changes, key), upper);
    assert forall|k: Seq<char>| after.contains_key(k) <==> before.remove(key).contains_key(k) by {
        if before.contains_key(k) {
            assert(!order::key_less(k, key));
            assert(order::key_less(key, k) || k == key);
        }
    }
    assert(after =~= before.remove(key));
}

/// A walk that has come to its end stays there.
pub proof fn law_end_is_final(changes: Changes, upper: Bound<String>)
    ensures
        model::pairs_below(model::beyond(changes, upper), upper) == Map::<Seq<char>, Seq<char>>::empty(),
        model::beyond(model::beyond(changes, upper), upper) == model::beyond(changes, upper),
{
    assert(model::pairs_below(model::beyond(changes, upper), upper) =~= Map::<Seq<char>, Seq<char>>::empty());
    assert(model::beyond(model::beyond(changes, upper), upper) =~= model::beyond(changes, upper));
}

} // verus!
