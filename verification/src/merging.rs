//! Merging tables changes where rows stand, not what they say.
use crate::contents;
use crate::directory;
use crate::directory::Directory;
use crate::error::Error;
use crate::model;
use crate::model::DiskState;
use crate::order;
use crate::rows;
use crate::rows::{Changes, RowView};
use crate::table;
use crate::table::{InfoView, LevelNumber, TableId};
use crate::toc;
use crate::toc::{EntryView, TocState};
use vstd::arithmetic::power;
use vstd::prelude::*;

verus! {

/// The files of the tables numbered so far are short enough for their lengths to be recorded.
pub open spec fn files_fit(d: DiskState) -> bool {
    forall|id: TableId|
        id < d.toc.next_id && #[trigger] d.files.contains_key(id) ==> d.files[id].len() <= u64::MAX
}

/// The files of the tables numbered so far are still there.
pub open spec fn files_kept(d: DiskState, next: DiskState) -> bool {
    &&& d.toc.next_id <= next.toc.next_id
    &&& forall|id: TableId|
        id < d.toc.next_id && #[trigger] d.files.contains_key(id) ==> next.files.contains_key(id) && next.files[id]
            == d.files[id]
}

// Cutting rows into tables.

/// Sorted rows that are cut in two.
proof fn lemma_two_parts(all: Seq<RowView>, n: int)
    requires
        rows::sorted(all),
        0 <= n <= all.len(),
    ensures
        rows::sorted(all.take(n)),
        rows::sorted(all.skip(n)),
        forall|key: Seq<char>| #[trigger]
            rows::to_map(all).contains_key(key) <==> rows::to_map(all.take(n)).contains_key(key) || rows::to_map(
                all.skip(n),
            ).contains_key(key),
        forall|key: Seq<char>| #[trigger]
            rows::to_map(all.take(n)).contains_key(key) ==> rows::to_map(all.take(n))[key] == rows::to_map(all)[key],
        forall|key: Seq<char>| #[trigger]
            rows::to_map(all.skip(n)).contains_key(key) ==> rows::to_map(all.skip(n))[key] == rows::to_map(all)[key],
        forall|key: Seq<char>| #[trigger]
            rows::to_map(all.take(n)).contains_key(key) ==> !rows::to_map(all.skip(n)).contains_key(key),
{
    broadcast use order::group_key_order;

    let a = all.take(n);
    let b = all.skip(n);
    assert(rows::sorted(a));
    assert(rows::sorted(b));
    rows::lemma_to_map(all);
    rows::lemma_to_map(a);
    rows::lemma_to_map(b);
    assert forall|key: Seq<char>| #[trigger] rows::to_map(all).contains_key(key) implies rows::to_map(a).contains_key(key)
        || rows::to_map(b).contains_key(key) by {
        let i = choose|i: int| 0 <= i < all.len() && #[trigger] all[i].0 == key;
        if i < n {
            assert(a[i].0 == key);
        } else {
            assert(b[i - n].0 == key);
        }
    }
    assert forall|key: Seq<char>| #[trigger] rows::to_map(a).contains_key(key) implies rows::to_map(all).contains_key(key)
        && rows::to_map(a)[key] == rows::to_map(all)[key] && !rows::to_map(b).contains_key(key) by {
        let i = choose|i: int| 0 <= i < a.len() && #[trigger] a[i].0 == key;
        assert(all[i] == a[i]);
        if rows::to_map(b).contains_key(key) {
            let j = choose|j: int| 0 <= j < b.len() && #[trigger] b[j].0 == key;
            assert(order::key_less(all[i].0, all[n + j].0));
        }
    }
    assert forall|key: Seq<char>| #[trigger] rows::to_map(b).contains_key(key) implies rows::to_map(all).contains_key(key)
        && rows::to_map(b)[key] == rows::to_map(all)[key] by {
        let i = choose|i: int| 0 <= i < b.len() && #[trigger] b[i].0 == key;
        assert(all[n + i] == b[i]);
    }
}

/// One of the tables into which rows are cut has a row for the key.
pub open spec fn part_has(parts: Seq<Seq<RowView>>, i: int, key: Seq<char>) -> bool {
    0 <= i < parts.len() && rows::to_map(parts[i]).contains_key(key)
}

/// Tables come one behind the other, and none of them spans one of those that are kept.
pub open spec fn clear_cut(parts: Seq<Seq<RowView>>, kept: Seq<InfoView>) -> bool {
    &&& forall|i: int, j: int|
        0 <= i < j < parts.len() ==> order::key_less((#[trigger] parts[i]).last().0, (#[trigger] parts[j]).first().0)
    &&& forall|i: int, n: int|
        0 <= i < parts.len() && 1 <= n < parts[i].len() ==> !model::parted(
            parts[i][n - 1].0,
            (#[trigger] parts[i][n]).0,
            kept,
        )
}

/// The tables into which rows are cut have all the rows, each in one table, and in order.
pub open spec fn cut_from(parts: Seq<Seq<RowView>>, all: Changes, kept: Seq<InfoView>) -> bool {
    &&& forall|i: int| 0 <= i < parts.len() ==> (#[trigger] parts[i]).len() > 0 && rows::sorted(parts[i])
    &&& forall|i: int, key: Seq<char>| #[trigger]
        part_has(parts, i, key) ==> all.contains_key(key) && rows::to_map(parts[i])[key] == all[key]
    &&& forall|key: Seq<char>| #[trigger] all.contains_key(key) ==> exists|i: int| part_has(parts, i, key)
    &&& forall|i: int, j: int, key: Seq<char>| #[trigger]
        part_has(parts, i, key) && i != j ==> !#[trigger] part_has(parts, j, key)
    &&& clear_cut(parts, kept)
}

/// Rows that are cut into tables are all there, each in one table, and in order.
pub proof fn lemma_chunks(all: Seq<RowView>, threshold: usize, kept: Seq<InfoView>)
    requires
        rows::sorted(all),
    ensures
        cut_from(model::chunks(all, threshold, kept), rows::to_map(all), kept),
    decreases all.len(),
{
    let parts = model::chunks(all, threshold, kept);
    if all.len() > 0 {
        model::lemma_cut_exists(all, threshold, kept);
        let n = model::cut(all, threshold, kept);
        let rest = model::chunks(all.skip(n), threshold, kept);
        lemma_two_parts(all, n);
        lemma_chunks(all.skip(n), threshold, kept);
        assert(parts == seq![all.take(n)] + rest);
        assert(parts[0] == all.take(n));
        assert forall|i: int| 0 < i < parts.len() implies #[trigger] parts[i] == rest[i - 1] by {}
        assert forall|i: int| 0 <= i < parts.len() implies (#[trigger] parts[i]).len() > 0 && rows::sorted(parts[i]) by {
            if i > 0 {
                assert(parts[i] == rest[i - 1]);
            }
        }
        assert forall|i: int, key: Seq<char>| #[trigger] part_has(parts, i, key) implies rows::to_map(all).contains_key(
            key,
        ) && rows::to_map(parts[i])[key] == rows::to_map(all)[key] by {
            if i > 0 {
                assert(part_has(rest, i - 1, key));
            }
        }
        assert forall|key: Seq<char>| #[trigger] rows::to_map(all).contains_key(key) implies exists|i: int|
            part_has(parts, i, key) by {
            if rows::to_map(all.take(n)).contains_key(key) {
                assert(part_has(parts, 0, key));
            } else {
                assert(rows::to_map(all.skip(n)).contains_key(key));
                let i = choose|i: int| part_has(rest, i, key);
                assert(parts[i + 1] == rest[i]);
                assert(part_has(parts, i + 1, key));
            }
        }
        assert forall|i: int, j: int, key: Seq<char>| #[trigger]
            part_has(parts, i, key) && i != j implies !#[trigger] part_has(parts, j, key) by {
            if part_has(parts, j, key) {
                if i > 0 {
                    assert(part_has(rest, i - 1, key));
                }
                if j > 0 {
                    assert(part_has(rest, j - 1, key));
                }
            }
        }
        assert forall|i: int, j: int| 0 <= i < j < parts.len() implies order::key_less(
            (#[trigger] parts[i]).last().0,
            (#[trigger] parts[j]).first().0,
        ) by {
            assert(parts[j] == rest[j - 1]);
            if i > 0 {
                assert(parts[i] == rest[i - 1]);
            } else {
                let key = rest[j - 1][0].0;
                rows::lemma_to_map(rest[j - 1]);
                assert(part_has(rest, j - 1, key));
                rows::lemma_to_map(all.skip(n));
                let m = choose|m: int| 0 <= m < all.skip(n).len() && #[trigger] all.skip(n)[m].0 == key;
                assert(order::key_less(all[n - 1].0, all[n + m].0));
            }
        }
        assert forall|i: int, m: int| 0 <= i < parts.len() && 1 <= m < parts[i].len() implies !model::parted(
            parts[i][m - 1].0,
            (#[trigger] parts[i][m]).0,
            kept,
        ) by {
            if i > 0 {
                assert(parts[i] == rest[i - 1]);
                assert(rest[i - 1][m] == parts[i][m]);
            } else {
                assert(!model::ends(all, threshold, kept, m));
            }
        }
    } else {
        assert(rows::to_map(all) =~= Changes::empty());
    }
}

// Recording new tables.

proof fn lemma_with_new_tables(contents: TocState, parts: Seq<Seq<RowView>>, level: LevelNumber)
    requires
        contents.next_id + parts.len() <= u64::MAX,
    ensures
        ({
            let first = contents.next_id;
            let next = toc::with_tables(contents, model::infos_for(parts, first, level));
            &&& next.next_id == first + parts.len()
            &&& forall|id: TableId| #[trigger]
                next.infos.contains_key(id) <==> contents.infos.contains_key(id) || first <= id < first + parts.len()
            &&& forall|id: TableId|
                first <= id < first + parts.len() ==> #[trigger] next.infos[id] == table::info_of(
                    parts[id - first],
                    id,
                    level,
                )
            &&& forall|id: TableId| id < first ==> #[trigger] next.infos[id] == contents.infos[id]
            &&& contents.infos.dom().finite() ==> next.infos.dom().finite()
        }),
    decreases parts.len(),
{
    let first = contents.next_id;
    let infos = model::infos_for(parts, first, level);
    if parts.len() > 0 {
        let fewer = parts.drop_last();
        lemma_with_new_tables(contents, fewer, level);
        assert(infos.drop_last() =~= model::infos_for(fewer, first, level));
        let before = toc::with_tables(contents, infos.drop_last());
        let next = toc::with_tables(contents, infos);
        let id = (first + parts.len() - 1) as u64;
        assert(infos.last() == table::info_of(parts.last(), id, level));
        assert(next == toc::with_table(before, infos.last()));
        assert(next.infos == before.infos.insert(id, infos.last()));
        assert forall|other: TableId| first <= other < first + parts.len() implies #[trigger] next.infos[other]
            == table::info_of(parts[other - first], other, level) by {
            if other != id {
                assert(before.infos[other] == table::info_of(fewer[other - first], other, level));
            }
        }
        assert forall|other: TableId| other < first implies #[trigger] next.infos[other] == contents.infos[other] by {
            assert(before.infos[other] == contents.infos[other]);
        }
    }
}

pub proof fn lemma_files_with(files: Map<TableId, Seq<u8>>, parts: Seq<Seq<RowView>>, first: TableId)
    requires
        first + parts.len() <= u64::MAX,
    ensures
        forall|id: TableId| #[trigger]
            model::files_with(files, parts, first).contains_key(id) <==> files.contains_key(id) || first <= id < first
                + parts.len(),
        forall|id: TableId|
            first <= id < first + parts.len() ==> #[trigger] model::files_with(files, parts, first)[id]
                == table::table_bytes(parts[id - first]),
        forall|id: TableId| id < first ==> #[trigger] model::files_with(files, parts, first)[id] == files[id],
    decreases parts.len(),
{
    if parts.len() > 0 {
        let fewer = parts.drop_last();
        lemma_files_with(files, fewer, first);
        let before = model::files_with(files, fewer, first);
        let after = model::files_with(files, parts, first);
        let id = (first + parts.len() - 1) as u64;
        assert(after == before.insert(id, table::table_bytes(parts.last())));
        assert forall|other: TableId| first <= other < first + parts.len() implies #[trigger] after[other]
            == table::table_bytes(parts[other - first]) by {
            if other != id {
                assert(before[other] == table::table_bytes(fewer[other - first]));
            }
        }
        assert forall|other: TableId| other < first implies #[trigger] after[other] == files[other] by {
            assert(before[other] == files[other]);
        }
    }
}

/// After rows were written to new tables: the tables that were not replaced are as before, and
/// the new ones have the rows.
pub open spec fn replaced(
    d: DiskState,
    next: DiskState,
    parts: Seq<Seq<RowView>>,
    level: LevelNumber,
    removals: Seq<TableId>,
) -> bool {
    let first = d.toc.next_id;
    &&& contents::numbered(next.toc)
    &&& contents::intact(next)
    &&& next.toc.next_id == first + parts.len()
    &&& forall|id: TableId| #[trigger]
        next.toc.infos.contains_key(id) <==> d.toc.infos.contains_key(id) && !removals.contains(id) || first <= id
            < first + parts.len()
    &&& forall|id: TableId|
        id < first && next.toc.infos.contains_key(id) ==> #[trigger] next.toc.infos[id] == d.toc.infos[id]
    &&& forall|id: TableId|
        id < first && next.toc.infos.contains_key(id) ==> #[trigger] contents::says(next, id) == contents::says(d, id)
    &&& forall|id: TableId|
        first <= id < first + parts.len() ==> #[trigger] next.toc.infos[id] == table::info_of(
            parts[id - first],
            id,
            level,
        )
    &&& forall|id: TableId|
        first <= id < first + parts.len() ==> #[trigger] contents::says(next, id) == rows::to_map(parts[id - first])
}

/// What recording new tables makes of the table of contents and of the files.
pub proof fn lemma_recorded(
    d: DiskState,
    parts: Seq<Seq<RowView>>,
    level: LevelNumber,
    removals: Seq<TableId>,
    next: DiskState,
)
    requires
        contents::numbered(d.toc),
        d.toc.next_id + parts.len() <= u64::MAX,
        next == model::recorded(
            (DiskState { files: model::files_with(d.files, parts, d.toc.next_id), ..d }),
            (EntryView { removals, additions: model::infos_for(parts, d.toc.next_id, level) }),
        ),
    ensures
        contents::numbered(next.toc),
        files_kept(d, next),
        next.toc.next_id == d.toc.next_id + parts.len(),
        forall|id: TableId| #[trigger]
            next.toc.infos.contains_key(id) <==> d.toc.infos.contains_key(id) && !removals.contains(id)
                || d.toc.next_id <= id < d.toc.next_id + parts.len(),
        forall|id: TableId|
            id < d.toc.next_id && next.toc.infos.contains_key(id) ==> #[trigger] next.toc.infos[id] == d.toc.infos[id],
        forall|id: TableId|
            d.toc.next_id <= id < d.toc.next_id + parts.len() ==> #[trigger] next.toc.infos[id] == table::info_of(
                parts[id - d.toc.next_id],
                id,
                level,
            ),
{
    let first = d.toc.next_id;
    let base = TocState { infos: d.toc.infos.remove_keys(removals.to_set()), next_id: first };
    lemma_with_new_tables(base, parts, level);
    lemma_files_with(d.files, parts, first);
    assert(next.toc == toc::with_tables(base, model::infos_for(parts, first, level)));
    assert(base.infos.dom().finite()) by {
        vstd::set_lib::lemma_set_subset_finite(d.toc.infos.dom(), base.infos.dom());
    }
    assert forall|id: TableId| #[trigger] next.toc.infos.contains_key(id) <==> d.toc.infos.contains_key(id)
        && !removals.contains(id) || first <= id < first + parts.len() by {
        assert(base.infos.contains_key(id) <==> d.toc.infos.contains_key(id) && !removals.contains(id)) by {
            assert(removals.to_set().contains(id) <==> removals.contains(id));
        }
    }
    assert forall|id: TableId| id < first && next.toc.infos.contains_key(id) implies #[trigger] next.toc.infos[id]
        == d.toc.infos[id] by {
        assert(base.infos.contains_key(id));
        assert(base.infos[id] == d.toc.infos[id]);
    }
    assert forall|id: TableId| #[trigger] next.toc.infos.contains_key(id) implies next.toc.infos[id].id == id && id
        < next.toc.next_id by {
        if first <= id < first + parts.len() {
            assert(next.toc.infos[id] == table::info_of(parts[id - first], id, level));
        } else {
            assert(d.toc.infos.contains_key(id));
        }
    }
}

/// Writing rows to new tables replaces the tables in `removals` by them.
pub proof fn lemma_replaced(
    d: DiskState,
    parts: Seq<Seq<RowView>>,
    level: LevelNumber,
    removals: Seq<TableId>,
    next: DiskState,
)
    requires
        contents::numbered(d.toc),
        contents::intact(d),
        d.toc.next_id + parts.len() <= u64::MAX,
        forall|i: int| 0 <= i < parts.len() ==> (#[trigger] parts[i]).len() > 0 && rows::sorted(parts[i]),
        next == model::recorded(
            (DiskState { files: model::files_with(d.files, parts, d.toc.next_id), ..d }),
            (EntryView { removals, additions: model::infos_for(parts, d.toc.next_id, level) }),
        ),
        files_fit(next),
    ensures
        replaced(d, next, parts, level, removals),
        files_kept(d, next),
{
    let first = d.toc.next_id;
    lemma_recorded(d, parts, level, removals, next);
    lemma_files_with(d.files, parts, first);
    assert forall|id: TableId| id < first && d.toc.infos.contains_key(id) implies model::rows_in(
        next.files,
        d.toc.infos[id],
    ) == model::rows_in(d.files, d.toc.infos[id]) by {
        assert(d.toc.infos[id].id == id);
        assert(next.files[id] == d.files[id]);
    }
    assert forall|id: TableId| first <= id < first + parts.len() implies model::rows_in(
        next.files,
        #[trigger] next.toc.infos[id],
    ) == Ok::<Seq<RowView>, Error>(parts[id - first]) by {
        let part = parts[id - first];
        assert(next.toc.infos[id] == table::info_of(part, id, level));
        assert(next.files[id] == table::table_bytes(part));
        assert(next.files.contains_key(id));
        table::lemma_table_round_trip(part, id, level);
    }
    assert forall|id: TableId| #[trigger] next.toc.infos.contains_key(id) implies model::rows_in(
        next.files,
        next.toc.infos[id],
    ) is Ok by {
        if !(first <= id < first + parts.len()) {
            assert(d.toc.infos.contains_key(id));
            assert(id < first);
            assert(model::rows_in(d.files, d.toc.infos[id]) is Ok);
        }
    }
}

/// Files that are held in memory are short enough for their lengths to be recorded.
pub proof fn lemma_directory_fits(contents: TocState, directory: Directory)
    ensures
        files_fit(model::disk_of(contents, directory)),
{
    let d = model::disk_of(contents, directory);
    assert forall|id: TableId| id < d.toc.next_id && #[trigger] d.files.contains_key(id) implies d.files[id].len()
        <= u64::MAX by {
        directory::lemma_file_len(directory.tables@, id);
    }
}

/// The table to which the rows of a memory store were written has those rows, is on level zero, and
/// has a higher number than all others. The other tables are as before.
pub proof fn lemma_written_row(d: DiskState, changes: Changes, next: DiskState)
    requires
        contents::numbered(d.toc),
        contents::intact(d),
        changes.dom().finite(),
        changes != Changes::empty(),
        model::written(d, changes, 0) == Ok::<DiskState, Error>(next),
        files_fit(next),
    ensures
        contents::numbered(next.toc),
        contents::intact(next),
        next.toc.infos.contains_key(d.toc.next_id),
        next.toc.infos[d.toc.next_id].level == 0,
        contents::says(next, d.toc.next_id) == changes,
        forall|id: TableId| #[trigger]
            next.toc.infos.contains_key(id) && id != d.toc.next_id ==> id < d.toc.next_id && next.toc.infos[id]
                == d.toc.infos[id] && contents::says(next, id) == contents::says(d, id),
        forall|id: TableId, key: Seq<char>|
            id != d.toc.next_id ==> #[trigger] contents::has_row(next, id, key) == contents::has_row(d, id, key),
{
    let new = d.toc.next_id;
    let all = rows::rows_of(changes);
    let parts = seq![all];
    lemma_written_parts(d, changes, 0, next);
    rows::lemma_rows_exist(changes);
    if all.len() == 0 {
        assert(changes =~= Changes::empty());
    }
    lemma_replaced(d, parts, 0, Seq::empty(), next);
    assert(contents::says(next, new) == rows::to_map(parts[new - d.toc.next_id]));
    assert(next.toc.infos[new].level == 0);
    assert forall|id: TableId| #[trigger] next.toc.infos.contains_key(id) && id != new implies id < new
        && next.toc.infos[id] == d.toc.infos[id] && contents::says(next, id) == contents::says(d, id) by {
        assert(d.toc.infos.contains_key(id));
    }
    assert forall|id: TableId, key: Seq<char>| id != new implies #[trigger] contents::has_row(next, id, key)
        == contents::has_row(d, id, key) by {
        assert(next.toc.infos.contains_key(id) <==> d.toc.infos.contains_key(id)) by {
            assert(!Seq::<TableId>::empty().contains(id));
        }
    }
}

/// Writing the rows of a memory store to a table of level zero leaves the other levels as they are.
pub proof fn lemma_written_apart(d: DiskState, changes: Changes, next: DiskState)
    requires
        contents::numbered(d.toc),
        contents::apart(d.toc.infos),
        model::written(d, changes, 0) == Ok::<DiskState, Error>(next),
    ensures
        contents::apart(next.toc.infos),
{
    if changes != Changes::empty() {
        let new = d.toc.next_id;
        let parts = seq![rows::rows_of(changes)];
        lemma_written_parts(d, changes, 0, next);
        lemma_recorded(d, parts, 0, Seq::empty(), next);
        assert(next.toc.infos[new] == table::info_of(parts[new - d.toc.next_id], new, 0));
        assert forall|a: TableId, b: TableId|
            a != b && #[trigger] next.toc.infos.contains_key(a) && #[trigger] next.toc.infos.contains_key(b)
                && next.toc.infos[a].level == next.toc.infos[b].level && next.toc.infos[a].level
                > 0 implies !next.toc.infos[a].overlaps(next.toc.infos[b]) by {
            assert(a != new && b != new);
            assert(d.toc.infos.contains_key(a) && d.toc.infos.contains_key(b));
        }
    }
}

/// After the rows of a memory store were written to a table of level zero, the tables say of the keys
/// of those rows what the rows say, and of others what they said before.
pub proof fn lemma_written(d: DiskState, changes: Changes, next: DiskState)
    requires
        contents::sound(d),
        changes.dom().finite(),
        model::written(d, changes, 0) == Ok::<DiskState, Error>(next),
        files_fit(next),
    ensures
        contents::sound(next),
        forall|key: Seq<char>| #[trigger]
            contents::disk_lookup(next, key) == if changes.contains_key(key) {
                Ok::<Option<Option<Seq<char>>>, Error>(Some(changes[key]))
            } else {
                contents::disk_lookup(d, key)
            },
{
    if changes != Changes::empty() {
        let new = d.toc.next_id;
        lemma_written_row(d, changes, next);
        lemma_written_apart(d, changes, next);
        assert forall|key: Seq<char>| #[trigger] contents::disk_lookup(next, key) == if changes.contains_key(key) {
            Ok::<Option<Option<Seq<char>>>, Error>(Some(changes[key]))
        } else {
            contents::disk_lookup(d, key)
        } by {
            assert(contents::has_row(next, new, key) == changes.contains_key(key));
            if changes.contains_key(key) {
                contents::lemma_foremost_decides(next, key, new);
            } else {
                match contents::lemma_disk_lookup(d, key) {
                    Some(a) => {
                        assert(contents::has_row(next, a, key));
                        assert forall|other: TableId| other != a && #[trigger] contents::has_row(
                            next,
                            other,
                            key,
                        ) implies toc::visited_before(next.toc.infos, true, a, other) by {
                            assert(contents::has_row(d, other, key));
                        }
                        contents::lemma_foremost_decides(next, key, a);
                    },
                    None => {
                        match contents::lemma_disk_lookup(next, key) {
                            Some(b) => {
                                assert(contents::has_row(d, b, key));
                            },
                            None => {},
                        }
                    },
                }
            }
        }
    }
}

/// A table written from a memory store is a new table with one part.
pub proof fn lemma_written_parts(d: DiskState, changes: Changes, level: LevelNumber, next: DiskState)
    requires
        changes != Changes::empty(),
        model::written(d, changes, level) == Ok::<DiskState, Error>(next),
    ensures
        d.toc.next_id + 1 <= u64::MAX,
        next == model::recorded(
            (DiskState { files: model::files_with(d.files, seq![rows::rows_of(changes)], d.toc.next_id), ..d }),
            (EntryView {
                removals: Seq::empty(),
                additions: model::infos_for(seq![rows::rows_of(changes)], d.toc.next_id, level),
            }),
        ),
{
    let id = d.toc.next_id;
    let all = rows::rows_of(changes);
    let parts = seq![all];
    reveal_with_fuel(model::files_with, 2);
    assert(parts.drop_last() =~= Seq::<Seq<RowView>>::empty());
    assert(model::files_with(d.files, parts, id) == d.files.insert(id, table::table_bytes(all)));
    assert(model::infos_for(parts, id, level) =~= seq![table::info_of(all, id, level)]);
}

// Releveling.

/// Tables of a level that can be merged into the next one: they come in the order in which they
/// are visited, and other tables of the level that have a row for the same key are visited before.
pub open spec fn mergeable(d: DiskState, level: LevelNumber, ids: Seq<TableId>) -> bool {
    &&& order::ordered(ids, |a: TableId, b: TableId| toc::visited_before(d.toc.infos, true, a, b))
    &&& forall|i: int|
        0 <= i < ids.len() ==> d.toc.infos.contains_key(#[trigger] ids[i]) && d.toc.infos[ids[i]].level == level
    &&& forall|a: TableId, b: TableId, key: Seq<char>|
        ids.contains(b) && !ids.contains(a) && d.toc.infos[a].level == level && #[trigger] contents::has_row(d, a, key)
            && #[trigger] contents::has_row(d, b, key) ==> toc::visited_before(d.toc.infos, true, a, b)
}

/// The tables of the next level that take part in a merge.
pub open spec fn lower_of(d: DiskState, level: LevelNumber, ids: Seq<TableId>) -> Seq<TableId> {
    model::overlapping(d.toc.infos, model::infos_of(d.toc.infos, ids), (level + 1) as u64)
}

/// The tables of the next level that take part are those that overlap one of the given tables.
pub proof fn lemma_lower_of(d: DiskState, level: LevelNumber, ids: Seq<TableId>)
    requires
        contents::numbered(d.toc),
    ensures
        forall|id: TableId| #[trigger]
            lower_of(d, level, ids).contains(id) <==> {
                &&& d.toc.infos.contains_key(id)
                &&& d.toc.infos[id].level == (level + 1) as u64
                &&& model::overlaps_any(d.toc.infos[id], model::infos_of(d.toc.infos, ids))
            },
{
    let next_level = (level + 1) as u64;
    let all = toc::ids_at(d.toc.infos, next_level);
    let others = model::infos_of(d.toc.infos, ids);
    let pred = |id: TableId| model::overlaps_any(d.toc.infos[id], others);
    toc::lemma_ids_at(d.toc.infos, next_level);
    assert forall|id: TableId| #[trigger] lower_of(d, level, ids).contains(id) <==> {
        &&& d.toc.infos.contains_key(id)
        &&& d.toc.infos[id].level == next_level
        &&& model::overlaps_any(d.toc.infos[id], others)
    } by {
        if all.filter(pred).contains(id) {
            all.lemma_filter_contains_rev(pred, id);
            let i = choose|i: int| 0 <= i < all.filter(pred).len() && all.filter(pred)[i] == id;
            all.lemma_filter_pred(pred, i);
        }
        if all.contains(id) && pred(id) {
            let i = choose|i: int| 0 <= i < all.len() && all[i] == id;
            all.lemma_filter_contains(pred, i);
        }
    }
}

/// A table of the next level that has a key in common with one of the merged tables takes part in
/// the merge.
proof fn lemma_shared_key(
    d: DiskState,
    level: LevelNumber,
    ids: Seq<TableId>,
    upper: TableId,
    lower: TableId,
    key: Seq<char>,
)
    requires
        contents::numbered(d.toc),
        contents::intact(d),
        ids.contains(upper),
        contents::has_row(d, upper, key),
        contents::has_row(d, lower, key),
        d.toc.infos[lower].level == (level + 1) as u64,
    ensures
        lower_of(d, level, ids).contains(lower),
{
    broadcast use order::group_key_order;

    contents::lemma_covers(d, upper, key);
    contents::lemma_covers(d, lower, key);
    lemma_lower_of(d, level, ids);
    let others = model::infos_of(d.toc.infos, ids);
    let i = choose|i: int| 0 <= i < ids.len() && ids[i] == upper;
    assert(others[i] == d.toc.infos[upper]);
    assert(d.toc.infos[lower].overlaps(others[i]));
}

/// The tables that take part in a merge, those of the upper level first.
pub open spec fn inputs_of(d: DiskState, level: LevelNumber, ids: Seq<TableId>) -> Seq<TableId> {
    ids + lower_of(d, level, ids)
}

/// The tables that take part are the given ones and those of the next level that overlap them.
pub proof fn lemma_inputs_contain(d: DiskState, level: LevelNumber, ids: Seq<TableId>)
    ensures
        forall|id: TableId| #[trigger]
            inputs_of(d, level, ids).contains(id) <==> ids.contains(id) || lower_of(d, level, ids).contains(id),
{
    let lower = lower_of(d, level, ids);
    let inputs = inputs_of(d, level, ids);
    assert forall|id: TableId| #[trigger] inputs.contains(id) <==> ids.contains(id) || lower.contains(id) by {
        if inputs.contains(id) {
            let i = choose|i: int| 0 <= i < inputs.len() && inputs[i] == id;
            if i < ids.len() {
                assert(ids[i] == id);
            } else {
                assert(lower[i - ids.len()] == id);
            }
        }
        if ids.contains(id) {
            let i = choose|i: int| 0 <= i < ids.len() && ids[i] == id;
            assert(inputs[i] == id);
        }
        if lower.contains(id) {
            let i = choose|i: int| 0 <= i < lower.len() && lower[i] == id;
            assert(inputs[ids.len() + i] == id);
        }
    }
}

/// What is recorded of the tables of the next level that do not take part in a merge.
pub open spec fn kept_of(d: DiskState, level: LevelNumber, ids: Seq<TableId>) -> Seq<InfoView> {
    model::clear_of(d.toc.infos, model::infos_of(d.toc.infos, ids), (level + 1) as u64)
}

proof fn lemma_kept_of(d: DiskState, level: LevelNumber, ids: Seq<TableId>, id: TableId)
    requires
        contents::numbered(d.toc),
        d.toc.infos.contains_key(id),
        d.toc.infos[id].level == (level + 1) as u64,
        !lower_of(d, level, ids).contains(id),
    ensures
        kept_of(d, level, ids).contains(d.toc.infos[id]),
{
    let next_level = (level + 1) as u64;
    let all = toc::ids_at(d.toc.infos, next_level);
    let others = model::infos_of(d.toc.infos, ids);
    let pred = |id: TableId| !model::overlaps_any(d.toc.infos[id], others);
    lemma_lower_of(d, level, ids);
    toc::lemma_ids_at(d.toc.infos, next_level);
    assert(all.contains(id));
    let i = choose|i: int| 0 <= i < all.len() && all[i] == id;
    all.lemma_filter_contains(pred, i);
    let n = choose|n: int| 0 <= n < all.filter(pred).len() && all.filter(pred)[n] == id;
    assert(kept_of(d, level, ids)[n] == d.toc.infos[id]);
}

/// What the tables that take part in a merge say together.
pub open spec fn merged(d: DiskState, level: LevelNumber, ids: Seq<TableId>) -> Changes {
    let inputs = inputs_of(d, level, ids);
    rows::overlay(Seq::new(inputs.len(), |i: int| contents::says(d, inputs[i])))
}

proof fn lemma_inputs(d: DiskState, level: LevelNumber, ids: Seq<TableId>)
    requires
        contents::numbered(d.toc),
        mergeable(d, level, ids),
        level < u64::MAX,
    ensures
        forall|id: TableId| #[trigger]
            inputs_of(d, level, ids).contains(id) <==> ids.contains(id) || lower_of(d, level, ids).contains(id),
        forall|id: TableId| #[trigger]
            inputs_of(d, level, ids).contains(id) ==> d.toc.infos.contains_key(id) && (d.toc.infos[id].level == level
                || d.toc.infos[id].level == level + 1),
{
    let lower = lower_of(d, level, ids);
    let inputs = inputs_of(d, level, ids);
    lemma_lower_of(d, level, ids);
    lemma_inputs_contain(d, level, ids);
    assert forall|id: TableId| #[trigger] inputs.contains(id) implies d.toc.infos.contains_key(id) && (
    d.toc.infos[id].level == level || d.toc.infos[id].level == level + 1) by {
        if ids.contains(id) {
            let i = choose|i: int| 0 <= i < ids.len() && ids[i] == id;
            assert(d.toc.infos.contains_key(ids[i]));
        }
    }
}

/// A key of what is merged comes from the first visited of the tables that take part and have it.
proof fn lemma_merged_from(d: DiskState, level: LevelNumber, ids: Seq<TableId>, key: Seq<char>) -> (from: TableId)
    requires
        contents::sound(d),
        mergeable(d, level, ids),
        level < u64::MAX,
        merged(d, level, ids).contains_key(key),
    ensures
        inputs_of(d, level, ids).contains(from),
        contents::has_row(d, from, key),
        merged(d, level, ids)[key] == contents::says(d, from)[key],
        forall|other: TableId|
            other != from && inputs_of(d, level, ids).contains(other) && #[trigger] contents::has_row(d, other, key)
                ==> toc::visited_before(d.toc.infos, true, from, other),
{
    let inputs = inputs_of(d, level, ids);
    let lower = lower_of(d, level, ids);
    let maps = Seq::new(inputs.len(), |i: int| contents::says(d, inputs[i]));
    let less = |a: TableId, b: TableId| toc::visited_before(d.toc.infos, true, a, b);
    contents::lemma_no_shared_keys(d);
    lemma_inputs(d, level, ids);
    lemma_lower_of(d, level, ids);
    let p = rows::lemma_overlay_frontmost(maps, key);
    let from = inputs[p];
    assert(inputs.contains(from));
    assert forall|other: TableId|
        other != from && inputs.contains(other) && #[trigger] contents::has_row(
            d,
            other,
            key,
        ) implies toc::visited_before(d.toc.infos, true, from, other) by {
        let q = choose|q: int| 0 <= q < inputs.len() && inputs[q] == other;
        assert(maps[q].contains_key(key));
        assert(p < q) by {
            if q < p {
                assert(!maps[q].contains_key(key));
            }
        }
        if q < ids.len() {
            assert(less(ids[p], ids[q]));
        } else {
            assert(lower.contains(other)) by {
                assert(lower[q - ids.len()] == other);
            }
            if p < ids.len() {
                assert(d.toc.infos.contains_key(ids[p]));
            } else {
                assert(lower.contains(from)) by {
                    assert(lower[p - ids.len()] == from);
                }
                assert(contents::has_row(d, from, key) && contents::has_row(d, other, key));
            }
        }
    }
    from
}

/// A key that one of the tables that take part has is in what is merged.
proof fn lemma_in_merged(d: DiskState, level: LevelNumber, ids: Seq<TableId>, id: TableId, key: Seq<char>)
    requires
        inputs_of(d, level, ids).contains(id),
        contents::has_row(d, id, key),
    ensures
        merged(d, level, ids).contains_key(key),
{
    let inputs = inputs_of(d, level, ids);
    let maps = Seq::new(inputs.len(), |i: int| contents::says(d, inputs[i]));
    let i = choose|i: int| 0 <= i < inputs.len() && inputs[i] == id;
    assert(maps[i].contains_key(key));
    rows::lemma_in_overlay(maps, i, key);
}

/// The tables that take part in a merge have been replaced by tables with the merged rows.
pub open spec fn is_merge(
    d: DiskState,
    next: DiskState,
    level: LevelNumber,
    ids: Seq<TableId>,
    parts: Seq<Seq<RowView>>,
) -> bool {
    &&& contents::sound(d)
    &&& mergeable(d, level, ids)
    &&& level < u64::MAX
    &&& replaced(d, next, parts, (level + 1) as u64, inputs_of(d, level, ids))
    &&& cut_from(parts, merged(d, level, ids), kept_of(d, level, ids))
}

/// Where a row of a new table or of one that was kept was before the merge.
proof fn lemma_row_before(
    d: DiskState,
    next: DiskState,
    level: LevelNumber,
    ids: Seq<TableId>,
    parts: Seq<Seq<RowView>>,
    id: TableId,
    key: Seq<char>,
) -> (from: TableId)
    requires
        is_merge(d, next, level, ids, parts),
        contents::has_row(next, id, key),
    ensures
        contents::has_row(d, from, key),
        id < d.toc.next_id ==> {
            &&& from == id
            &&& !inputs_of(d, level, ids).contains(id)
            &&& next.toc.infos[id] == d.toc.infos[id]
            &&& contents::says(next, id) == contents::says(d, id)
        },
        id >= d.toc.next_id ==> {
            &&& inputs_of(d, level, ids).contains(from)
            &&& next.toc.infos[id].level == level + 1
            &&& part_has(parts, id - d.toc.next_id, key)
        },
{
    if id < d.toc.next_id {
        assert(next.toc.infos.contains_key(id));
        assert(contents::says(next, id) == contents::says(d, id));
        id
    } else {
        assert(next.toc.infos.contains_key(id));
        assert(!d.toc.infos.contains_key(id));
        assert(contents::says(next, id) == rows::to_map(parts[id - d.toc.next_id]));
        assert(part_has(parts, id - d.toc.next_id, key));
        assert(next.toc.infos[id].level == (level + 1) as u64);
        lemma_merged_from(d, level, ids, key)
    }
}

/// A table that does not take part in a merge, on the level below, has no key in common with those
/// that do.
proof fn lemma_kept_apart(d: DiskState, level: LevelNumber, ids: Seq<TableId>, kept: TableId, from: TableId, key: Seq<char>)
    requires
        contents::sound(d),
        mergeable(d, level, ids),
        level < u64::MAX,
        !inputs_of(d, level, ids).contains(kept),
        inputs_of(d, level, ids).contains(from),
        contents::has_row(d, kept, key),
        contents::has_row(d, from, key),
    ensures
        d.toc.infos[kept].level != level + 1,
{
    contents::lemma_no_shared_keys(d);
    lemma_inputs(d, level, ids);
    lemma_lower_of(d, level, ids);
    if d.toc.infos[kept].level == level + 1 {
        if ids.contains(from) {
            lemma_shared_key(d, level, ids, from, kept, key);
        } else {
            assert(lower_of(d, level, ids).contains(from));
            assert(d.toc.infos[from].level == level + 1);
        }
    }
}

/// A merge changes nothing of what the tables say of a key.
proof fn lemma_merge_lookup(
    d: DiskState,
    next: DiskState,
    level: LevelNumber,
    ids: Seq<TableId>,
    parts: Seq<Seq<RowView>>,
    key: Seq<char>,
)
    requires
        is_merge(d, next, level, ids, parts),
    ensures
        contents::disk_lookup(next, key) == contents::disk_lookup(d, key),
{
    let first = d.toc.next_id;
    let inputs = inputs_of(d, level, ids);
    lemma_inputs(d, level, ids);
    lemma_lower_of(d, level, ids);
    match contents::lemma_disk_lookup(d, key) {
        Some(a) => {
            if inputs.contains(a) {
                lemma_in_merged(d, level, ids, a, key);
                let from = lemma_merged_from(d, level, ids, key);
                assert(from == a) by {
                    if from != a {
                        assert(contents::has_row(d, from, key) && contents::has_row(d, a, key));
                        assert(toc::visited_before(d.toc.infos, true, from, a));
                        assert(toc::visited_before(d.toc.infos, true, a, from));
                    }
                }
                let i = choose|i: int| part_has(parts, i, key);
                let b = (first + i) as u64;
                assert(contents::says(next, b) == rows::to_map(parts[i]));
                assert(next.toc.infos.contains_key(b));
                assert(contents::has_row(next, b, key));
                assert(next.toc.infos[b].level == level + 1);
                assert forall|other: TableId| other != b && #[trigger] contents::has_row(
                    next,
                    other,
                    key,
                ) implies toc::visited_before(next.toc.infos, true, b, other) by {
                    let c = lemma_row_before(d, next, level, ids, parts, other, key);
                    if other >= first {
                        assert(part_has(parts, other - first, key));
                    } else {
                        assert(other != a);
                        assert(contents::has_row(d, other, key));
                        assert(toc::visited_before(d.toc.infos, true, a, other));
                        lemma_kept_apart(d, level, ids, other, a, key);
                        if d.toc.infos[other].level == level {
                            assert(ids.contains(a));
                            assert(!ids.contains(other));
                            assert(toc::visited_before(d.toc.infos, true, other, a));
                        }
                    }
                }
                contents::lemma_foremost_decides(next, key, b);
            } else {
                assert(a < first);
                assert(next.toc.infos.contains_key(a));
                assert(contents::says(next, a) == contents::says(d, a));
                assert(next.toc.infos[a] == d.toc.infos[a]);
                assert forall|other: TableId| other != a && #[trigger] contents::has_row(
                    next,
                    other,
                    key,
                ) implies toc::visited_before(next.toc.infos, true, a, other) by {
                    let c = lemma_row_before(d, next, level, ids, parts, other, key);
                    assert(contents::has_row(d, c, key));
                    assert(toc::visited_before(d.toc.infos, true, a, c));
                    if other >= first {
                        lemma_kept_apart(d, level, ids, a, c, key);
                    }
                }
                contents::lemma_foremost_decides(next, key, a);
            }
        },
        None => {
            match contents::lemma_disk_lookup(next, key) {
                Some(b) => {
                    let c = lemma_row_before(d, next, level, ids, parts, b, key);
                    assert(contents::has_row(d, c, key));
                },
                None => {},
            }
        },
    }
}

/// The rows up to the `n`th come before a range that covers none of them and lies between no two.
proof fn lemma_before_range(part: Seq<RowView>, info: InfoView, kept: Seq<InfoView>, n: int)
    requires
        0 <= n < part.len(),
        kept.contains(info),
        forall|i: int| 0 <= i < part.len() ==> !info.covers((#[trigger] part[i]).0),
        forall|i: int| 1 <= i < part.len() ==> !model::parted(part[i - 1].0, (#[trigger] part[i]).0, kept),
        !order::key_less(info.biggest_key, part[0].0),
    ensures
        order::key_less(part[n].0, info.smallest_key),
    decreases n,
{
    assert(!info.covers(part[n].0));
    if n > 0 {
        lemma_before_range(part, info, kept, n - 1);
        assert(!model::parted(part[n - 1].0, part[n].0, kept));
        let i = choose|i: int| 0 <= i < kept.len() && kept[i] == info;
        assert(kept[i] == info);
    }
}

/// Reading tables together gives one map for each.
proof fn lemma_read_len(infos: Map<TableId, InfoView>, files: Map<TableId, Seq<u8>>, ids: Seq<TableId>)
    requires
        model::read_all(infos, files, ids) is Ok,
    ensures
        model::read_all(infos, files, ids)->Ok_0.len() == ids.len(),
    decreases ids.len(),
{
    if ids.len() > 0 {
        lemma_read_len(infos, files, ids.drop_last());
    }
}

/// The tables that were read together were read one by one.
pub proof fn lemma_read_each(infos: Map<TableId, InfoView>, files: Map<TableId, Seq<u8>>, ids: Seq<TableId>, i: int)
    requires
        model::read_all(infos, files, ids) is Ok,
        0 <= i < ids.len(),
    ensures
        model::rows_in(files, infos[ids[i]]) is Ok,
        model::read_all(infos, files, ids)->Ok_0[i] == rows::to_map(model::rows_in(files, infos[ids[i]])->Ok_0),
    decreases ids.len(),
{
    lemma_read_len(infos, files, ids.drop_last());
    if i < ids.len() - 1 {
        lemma_read_each(infos, files, ids.drop_last(), i);
    }
}

/// A table of the next level that does not take part in a merge covers no key that is merged.
proof fn lemma_kept_covers_none(
    d: DiskState,
    level: LevelNumber,
    ids: Seq<TableId>,
    kept: TableId,
    maps: Seq<Changes>,
    key: Seq<char>,
)
    requires
        contents::numbered(d.toc),
        contents::apart(d.toc.infos),
        level < u64::MAX,
        model::read_all(d.toc.infos, d.files, inputs_of(d, level, ids)) == Ok::<Seq<Changes>, Error>(maps),
        d.toc.infos.contains_key(kept),
        d.toc.infos[kept].level == level + 1,
        !lower_of(d, level, ids).contains(kept),
        rows::overlay(maps).contains_key(key),
    ensures
        !d.toc.infos[kept].covers(key),
{
    let inputs = inputs_of(d, level, ids);
    let lower = lower_of(d, level, ids);
    let others = model::infos_of(d.toc.infos, ids);
    lemma_lower_of(d, level, ids);
    let p = rows::lemma_overlay_frontmost(maps, key);
    lemma_read_len(d.toc.infos, d.files, inputs);
    lemma_read_each(d.toc.infos, d.files, inputs, p);
    contents::lemma_rows_covered(d.files, d.toc.infos[inputs[p]], key);
    if d.toc.infos[kept].covers(key) {
        contents::lemma_covered_by_both(d.toc.infos[kept], d.toc.infos[inputs[p]], key);
        if p < ids.len() {
            assert(others[p] == d.toc.infos[inputs[p]]);
            assert(model::overlaps_any(d.toc.infos[kept], others));
        } else {
            assert(lower[p - ids.len()] == inputs[p]);
            assert(lower.contains(inputs[p]));
        }
    }
}

/// A new table does not overlap a table of its level that was there before.
proof fn lemma_new_clear_of_kept(
    d: DiskState,
    level: LevelNumber,
    ids: Seq<TableId>,
    maps: Seq<Changes>,
    parts: Seq<Seq<RowView>>,
    i: int,
    new: TableId,
    kept: TableId,
)
    requires
        contents::numbered(d.toc),
        contents::apart(d.toc.infos),
        level < u64::MAX,
        model::read_all(d.toc.infos, d.files, inputs_of(d, level, ids)) == Ok::<Seq<Changes>, Error>(maps),
        cut_from(parts, rows::overlay(maps), kept_of(d, level, ids)),
        0 <= i < parts.len(),
        d.toc.infos.contains_key(kept),
        d.toc.infos[kept].level == level + 1,
        !lower_of(d, level, ids).contains(kept),
    ensures
        !table::info_of(parts[i], new, (level + 1) as u64).overlaps(d.toc.infos[kept]),
        !d.toc.infos[kept].overlaps(table::info_of(parts[i], new, (level + 1) as u64)),
{
    let part = parts[i];
    let info = d.toc.infos[kept];
    let fences = kept_of(d, level, ids);
    lemma_kept_of(d, level, ids, kept);
    rows::lemma_to_map(part);
    assert(part.len() > 0);
    assert forall|n: int| 0 <= n < part.len() implies !info.covers((#[trigger] part[n]).0) by {
        assert(part_has(parts, i, part[n].0));
        lemma_kept_covers_none(d, level, ids, kept, maps, part[n].0);
    }
    assert forall|n: int| 1 <= n < part.len() implies !model::parted(part[n - 1].0, (#[trigger] part[n]).0, fences) by {
        assert(parts[i][n] == part[n]);
    }
    if !order::key_less(info.biggest_key, part[0].0) {
        lemma_before_range(part, info, fences, part.len() - 1);
    }
}

/// The finite maps that tables were read as, and the rows of their overlay.
pub proof fn lemma_merged_rows(infos: Map<TableId, InfoView>, files: Map<TableId, Seq<u8>>, ids: Seq<TableId>)
    requires
        model::read_all(infos, files, ids) is Ok,
    ensures
        ({
            let all = rows::overlay(model::read_all(infos, files, ids)->Ok_0);
            rows::sorted(rows::rows_of(all)) && rows::to_map(rows::rows_of(all)) == all
        }),
{
    let maps = model::read_all(infos, files, ids)->Ok_0;
    lemma_read_len(infos, files, ids);
    assert forall|i: int| 0 <= i < maps.len() implies (#[trigger] maps[i]).dom().finite() by {
        lemma_read_each(infos, files, ids, i);
        rows::lemma_to_map(model::rows_in(files, infos[ids[i]])->Ok_0);
    }
    rows::lemma_overlay_finite(maps);
    rows::lemma_rows_exist(rows::overlay(maps));
}

/// Recording tables anew, on another level.
proof fn lemma_recorded_anew(infos: Map<TableId, InfoView>, base: TocState, ids: Seq<TableId>, level: LevelNumber)
    requires
        forall|i: int|
            0 <= i < ids.len() ==> infos.contains_key(#[trigger] ids[i]) && infos[ids[i]].id == ids[i] && ids[i]
                < base.next_id,
    ensures
        ({
            let next = toc::with_tables(base, model::on_level(model::infos_of(infos, ids), level));
            &&& next.next_id == base.next_id
            &&& forall|id: TableId| #[trigger]
                next.infos.contains_key(id) <==> base.infos.contains_key(id) || ids.contains(id)
            &&& forall|id: TableId|
                #![trigger next.infos[id]]
                next.infos.contains_key(id) ==> next.infos[id] == (if ids.contains(id) {
                    InfoView { level, ..infos[id] }
                } else {
                    base.infos[id]
                })
        }),
    decreases ids.len(),
{
    let all = model::on_level(model::infos_of(infos, ids), level);
    if ids.len() > 0 {
        let front = ids.drop_last();
        assert forall|i: int| 0 <= i < front.len() implies infos.contains_key(#[trigger] front[i]) && infos[front[i]].id
            == front[i] && front[i] < base.next_id by {
            assert(infos.contains_key(ids[i]));
        }
        lemma_recorded_anew(infos, base, front, level);
        assert(all.drop_last() =~= model::on_level(model::infos_of(infos, front), level));
        let last = ids[ids.len() - 1];
        assert(infos.contains_key(last));
        assert(all.last() == (InfoView { level, ..infos[last] }));
        assert forall|id: TableId| #[trigger] ids.contains(id) <==> front.contains(id) || id == last by {
            if ids.contains(id) && id != last {
                let i = choose|i: int| 0 <= i < ids.len() && ids[i] == id;
                assert(front[i] == id);
            }
            if front.contains(id) {
                let i = choose|i: int| 0 <= i < front.len() && front[i] == id;
                assert(ids[i] == id);
            }
        }
    }
}

/// The given tables stand on another level; all else is as before.
pub open spec fn moved(d: DiskState, next: DiskState, level: LevelNumber, ids: Seq<TableId>) -> bool {
    &&& next.files == d.files
    &&& next.toc.next_id == d.toc.next_id
    &&& next.toc.infos.dom() == d.toc.infos.dom()
    &&& forall|id: TableId| #[trigger]
        d.toc.infos.contains_key(id) ==> next.toc.infos[id] == (if ids.contains(id) {
            InfoView { level, ..d.toc.infos[id] }
        } else {
            d.toc.infos[id]
        })
}

/// Where no ranges overlap, releveling moves the tables to the next level: their numbers and files,
/// and all other tables, stay as they are.
pub proof fn lemma_relevel_without_overlap(d: DiskState, threshold: usize, level: LevelNumber, ids: Seq<TableId>)
    requires
        contents::numbered(d.toc),
        level < u64::MAX,
        forall|i: int| 0 <= i < ids.len() ==> d.toc.infos.contains_key(#[trigger] ids[i]),
        lower_of(d, level, ids).len() == 0,
        !model::self_overlaps(model::infos_of(d.toc.infos, ids)),
    ensures
        model::releveled(d, threshold, level, ids) is Ok,
        moved(d, model::releveled(d, threshold, level, ids)->Ok_0, (level + 1) as u64, ids),
{
    let infos = d.toc.infos;
    let base = TocState { infos: infos.remove_keys(ids.to_set()), next_id: d.toc.next_id };
    assert forall|i: int| 0 <= i < ids.len() implies infos.contains_key(#[trigger] ids[i]) && infos[ids[i]].id == ids[i]
        && ids[i] < base.next_id by {
        assert(infos.contains_key(ids[i]));
    }
    lemma_recorded_anew(infos, base, ids, (level + 1) as u64);
    let next = model::releveled(d, threshold, level, ids)->Ok_0.toc;
    assert(next == toc::with_tables(base, model::on_level(model::infos_of(infos, ids), (level + 1) as u64)));
    assert forall|id: TableId| #[trigger] next.infos.contains_key(id) <==> infos.contains_key(id) by {
        assert(ids.to_set().contains(id) <==> ids.contains(id));
        if ids.contains(id) {
            let i = choose|i: int| 0 <= i < ids.len() && ids[i] == id;
            assert(infos.contains_key(ids[i]));
        }
    }
    assert(next.infos.dom() =~= infos.dom());
    assert forall|id: TableId| #[trigger] infos.contains_key(id) implies next.infos[id] == (if ids.contains(id) {
        InfoView { level: (level + 1) as u64, ..infos[id] }
    } else {
        infos[id]
    }) by {
        assert(next.infos.contains_key(id));
        assert(ids.to_set().contains(id) <==> ids.contains(id));
    }
}

/// Moved tables overlap neither one another nor the tables that were on the level before.
proof fn lemma_moved_clear(d: DiskState, level: LevelNumber, ids: Seq<TableId>, a: TableId, b: TableId)
    requires
        contents::numbered(d.toc),
        lower_of(d, level, ids).len() == 0,
        !model::self_overlaps(model::infos_of(d.toc.infos, ids)),
        a != b,
        d.toc.infos.contains_key(b),
        ids.contains(a),
        ids.contains(b) || d.toc.infos[b].level == (level + 1) as u64,
    ensures
        !d.toc.infos[a].overlaps(d.toc.infos[b]),
        !d.toc.infos[b].overlaps(d.toc.infos[a]),
{
    let others = model::infos_of(d.toc.infos, ids);
    let i = choose|i: int| 0 <= i < ids.len() && ids[i] == a;
    assert(others[i] == d.toc.infos[a]);
    if d.toc.infos[a].overlaps(d.toc.infos[b]) {
        if ids.contains(b) {
            let j = choose|j: int| 0 <= j < ids.len() && ids[j] == b;
            assert(others[j] == d.toc.infos[b]);
            if i < j {
                assert(others[i].overlaps(others[j]));
            } else {
                assert(others[j].overlaps(others[i]));
            }
        } else {
            lemma_lower_of(d, level, ids);
            assert(d.toc.infos[b].overlaps(others[i]));
            assert(lower_of(d, level, ids).contains(b));
        }
    }
}

/// After a releveling, as before, the ranges of no two tables of a level above zero overlap.
pub proof fn lemma_relevel_apart(
    d: DiskState,
    threshold: usize,
    level: LevelNumber,
    ids: Seq<TableId>,
    next: DiskState,
)
    requires
        contents::numbered(d.toc),
        contents::apart(d.toc.infos),
        level < u64::MAX,
        forall|i: int| 0 <= i < ids.len() ==> d.toc.infos.contains_key(#[trigger] ids[i]),
        model::releveled(d, threshold, level, ids) == Ok::<DiskState, Error>(next),
    ensures
        contents::apart(next.toc.infos),
{
    let infos = d.toc.infos;
    let after = next.toc.infos;
    let first = d.toc.next_id;
    let lower = lower_of(d, level, ids);
    if lower.len() == 0 && !model::self_overlaps(model::infos_of(infos, ids)) {
        lemma_relevel_without_overlap(d, threshold, level, ids);
        assert forall|a: TableId, b: TableId|
            a != b && #[trigger] after.contains_key(a) && #[trigger] after.contains_key(b) && after[a].level
                == after[b].level && after[a].level > 0 implies !after[a].overlaps(after[b]) by {
            assert(after.dom().contains(a) && after.dom().contains(b));
            assert(infos.contains_key(a) && infos.contains_key(b));
            if ids.contains(a) {
                lemma_moved_clear(d, level, ids, a, b);
            } else if ids.contains(b) {
                lemma_moved_clear(d, level, ids, b, a);
            }
        }
    } else {
        let inputs = inputs_of(d, level, ids);
        let kept = kept_of(d, level, ids);
        let maps = model::read_all(infos, d.files, inputs)->Ok_0;
        let all = rows::rows_of(rows::overlay(maps));
        let parts = model::chunks(all, threshold, kept);
        let up = (level + 1) as u64;
        lemma_merged_rows(infos, d.files, inputs);
        lemma_chunks(all, threshold, kept);
        lemma_recorded(d, parts, up, inputs, next);
        assert forall|id: TableId| lower.contains(id) implies inputs.contains(id) by {
            let i = choose|i: int| 0 <= i < lower.len() && lower[i] == id;
            assert(inputs[ids.len() + i] == id);
        }
        assert forall|a: TableId, b: TableId|
            a != b && #[trigger] after.contains_key(a) && #[trigger] after.contains_key(b) && after[a].level
                == after[b].level && after[a].level > 0 implies !after[a].overlaps(after[b]) by {
            if a < first && b < first {
                assert(infos.contains_key(a) && infos.contains_key(b));
            } else if a < first {
                assert(after[b] == table::info_of(parts[b - first], b, up));
                lemma_new_clear_of_kept(d, level, ids, maps, parts, b - first, b, a);
            } else if b < first {
                assert(after[a] == table::info_of(parts[a - first], a, up));
                lemma_new_clear_of_kept(d, level, ids, maps, parts, a - first, a, b);
            } else {
                assert(after[a] == table::info_of(parts[a - first], a, up));
                assert(after[b] == table::info_of(parts[b - first], b, up));
                let x = parts[a - first];
                let y = parts[b - first];
                if a < b {
                    assert(order::key_less(x.last().0, y.first().0));
                } else {
                    assert(order::key_less(y.last().0, x.first().0));
                }
            }
        }
    }
}

/// Moving tables down changes nothing of what the tables say of a key.
proof fn lemma_move_lookup(d: DiskState, level: LevelNumber, ids: Seq<TableId>, next: DiskState, key: Seq<char>)
    requires
        contents::sound(d),
        mergeable(d, level, ids),
        level < u64::MAX,
        lower_of(d, level, ids).len() == 0,
        !model::self_overlaps(model::infos_of(d.toc.infos, ids)),
        moved(d, next, (level + 1) as u64, ids),
        contents::numbered(next.toc),
        contents::intact(next),
        forall|id: TableId| #[trigger] d.toc.infos.contains_key(id) ==> contents::says(next, id) == contents::says(d, id),
    ensures
        contents::disk_lookup(next, key) == contents::disk_lookup(d, key),
{
    assert forall|id: TableId| #[trigger] contents::has_row(next, id, key) == contents::has_row(d, id, key) by {
        assert(next.toc.infos.dom().contains(id) == d.toc.infos.dom().contains(id));
    }
    match contents::lemma_disk_lookup(d, key) {
        Some(a) => {
            assert(contents::has_row(next, a, key));
            assert forall|other: TableId| other != a && #[trigger] contents::has_row(
                next,
                other,
                key,
            ) implies toc::visited_before(next.toc.infos, true, a, other) by {
                assert(contents::has_row(d, other, key) && contents::has_row(d, a, key));
                assert(toc::visited_before(d.toc.infos, true, a, other));
                contents::lemma_covers(d, a, key);
                contents::lemma_covers(d, other, key);
                contents::lemma_covered_by_both(d.toc.infos[a], d.toc.infos[other], key);
                lemma_level_of(d, level, ids);
                if ids.contains(a) {
                    if ids.contains(other) || d.toc.infos[other].level == level + 1 {
                        lemma_moved_clear(d, level, ids, a, other);
                    } else if d.toc.infos[other].level == level {
                        assert(toc::visited_before(d.toc.infos, true, other, a));
                    }
                }
            }
            contents::lemma_foremost_decides(next, key, a);
        },
        None => {
            match contents::lemma_disk_lookup(next, key) {
                Some(b) => {
                    assert(contents::has_row(d, b, key));
                },
                None => {},
            }
        },
    }
}

proof fn lemma_level_of(d: DiskState, level: LevelNumber, ids: Seq<TableId>)
    requires
        mergeable(d, level, ids),
    ensures
        forall|id: TableId| #[trigger] ids.contains(id) ==> d.toc.infos[id].level == level,
{
    assert forall|id: TableId| #[trigger] ids.contains(id) implies d.toc.infos[id].level == level by {
        let i = choose|i: int| 0 <= i < ids.len() && ids[i] == id;
        assert(d.toc.infos.contains_key(ids[i]));
    }
}

/// A releveling: what the tables say of a key stays the same, and so does what holds of the tables.
pub proof fn lemma_releveled(
    d: DiskState,
    threshold: usize,
    level: LevelNumber,
    ids: Seq<TableId>,
    next: DiskState,
)
    requires
        contents::sound(d),
        mergeable(d, level, ids),
        level < u64::MAX,
        model::releveled(d, threshold, level, ids) == Ok::<DiskState, Error>(next),
        files_fit(next),
    ensures
        contents::sound(next),
        files_kept(d, next),
        forall|key: Seq<char>| #[trigger]
            contents::disk_lookup(next, key) == contents::disk_lookup(d, key),
{
    let uppers = model::infos_of(d.toc.infos, ids);
    let lower = lower_of(d, level, ids);
    lemma_relevel_apart(d, threshold, level, ids, next);
    if lower.len() == 0 && !model::self_overlaps(uppers) {
        lemma_relevel_without_overlap(d, threshold, level, ids);
        assert forall|id: TableId| #[trigger] d.toc.infos.contains_key(id) implies contents::says(next, id)
            == contents::says(d, id) && model::rows_in(next.files, next.toc.infos[id]) is Ok by {
            assert(model::rows_in(d.files, d.toc.infos[id]) is Ok);
            assert(model::rows_in(next.files, next.toc.infos[id]) == model::rows_in(d.files, d.toc.infos[id]));
        }
        assert forall|id: TableId| #[trigger] next.toc.infos.contains_key(id) implies model::rows_in(
            next.files,
            next.toc.infos[id],
        ) is Ok && next.toc.infos[id].id == id && id < next.toc.next_id by {
            assert(next.toc.infos.dom().contains(id));
            assert(d.toc.infos.contains_key(id));
        }
        assert forall|key: Seq<char>| #[trigger] contents::disk_lookup(next, key) == contents::disk_lookup(d, key) by {
            lemma_move_lookup(d, level, ids, next, key);
        }
    } else {
        let inputs = inputs_of(d, level, ids);
        lemma_inputs(d, level, ids);
        assert forall|i: int| 0 <= i < inputs.len() implies d.toc.infos.contains_key(#[trigger] inputs[i]) by {
            assert(inputs.contains(inputs[i]));
        }
        contents::lemma_read_all(d, inputs);
        lemma_merged_rows(d.toc.infos, d.files, inputs);
        let all = rows::rows_of(merged(d, level, ids));
        let kept = kept_of(d, level, ids);
        let parts = model::chunks(all, threshold, kept);
        lemma_chunks(all, threshold, kept);
        lemma_replaced(d, parts, (level + 1) as u64, inputs, next);
        assert(is_merge(d, next, level, ids, parts));
        assert forall|key: Seq<char>| #[trigger] contents::disk_lookup(next, key) == contents::disk_lookup(d, key) by {
            lemma_merge_lookup(d, next, level, ids, parts, key);
        }
    }
}

/// Releveling tables that can be read is refused only where no numbers are left.
pub proof fn lemma_relevel_refused(d: DiskState, threshold: usize, level: LevelNumber, ids: Seq<TableId>)
    requires
        contents::sound(d),
        mergeable(d, level, ids),
        level < u64::MAX,
    ensures
        model::releveled(d, threshold, level, ids) matches Err(e) ==> e == Error::IdsExhausted,
{
    let inputs = inputs_of(d, level, ids);
    lemma_inputs(d, level, ids);
    assert forall|i: int| 0 <= i < inputs.len() implies d.toc.infos.contains_key(#[trigger] inputs[i]) by {
        assert(inputs.contains(inputs[i]));
    }
    contents::lemma_read_all(d, inputs);
}

// Rebalancing.

/// The tables that a rebalance merges from level zero.
pub proof fn lemma_older_mergeable(d: DiskState)
    requires
        contents::numbered(d.toc),
        toc::ids_at(d.toc.infos, 0).len() > 0,
    ensures
        mergeable(d, 0, model::older_on_zero(d.toc.infos)),
{
    let infos = d.toc.infos;
    let list = toc::ids_at(infos, 0);
    let ids = model::older_on_zero(infos);
    let less = |a: TableId, b: TableId| toc::visited_before(infos, true, a, b);
    let below = |a: TableId, b: TableId| a < b;
    toc::lemma_ids_at(infos, 0);
    assert forall|i: int| 0 <= i < ids.len() implies infos.contains_key(#[trigger] ids[i]) && infos[ids[i]].level
        == 0 by {
        assert(ids[i] == list[list.len() - 2 - i]);
        assert(list.contains(ids[i]));
    }
    assert forall|i: int, j: int| 0 <= i < j < ids.len() implies #[trigger] less(ids[i], ids[j]) by {
        assert(infos.contains_key(ids[i]) && infos.contains_key(ids[j]));
        assert(below(list[list.len() - 2 - j], list[list.len() - 2 - i]));
    }
    assert forall|a: TableId, b: TableId, key: Seq<char>|
        ids.contains(b) && !ids.contains(a) && infos[a].level == 0 && #[trigger] contents::has_row(d, a, key)
            && #[trigger] contents::has_row(d, b, key) implies toc::visited_before(infos, true, a, b) by {
        assert(list.contains(a));
        let n = choose|n: int| 0 <= n < list.len() && list[n] == a;
        assert(n == list.len() - 1) by {
            if n < list.len() - 1 {
                assert(ids[list.len() - 2 - n] == a);
            }
        }
        let m = choose|m: int| 0 <= m < ids.len() && ids[m] == b;
        assert(infos.contains_key(ids[m]));
        assert(below(list[list.len() - 2 - m], list[n]));
    }
}

/// A table of a level above zero can be merged into the next one.
pub proof fn lemma_alone_mergeable(d: DiskState, level: LevelNumber, id: TableId)
    requires
        contents::sound(d),
        level > 0,
        d.toc.infos.contains_key(id),
        d.toc.infos[id].level == level,
    ensures
        mergeable(d, level, seq![id]),
{
    let ids = seq![id];
    contents::lemma_no_shared_keys(d);
    assert forall|a: TableId, b: TableId, key: Seq<char>|
        ids.contains(b) && !ids.contains(a) && d.toc.infos[a].level == level && #[trigger] contents::has_row(d, a, key)
            && #[trigger] contents::has_row(d, b, key) implies toc::visited_before(d.toc.infos, true, a, b) by {
        assert(b == id);
        assert(ids[0] == id);
        assert(a != b);
    }
}

pub proof fn lemma_least_exists(infos: Map<TableId, InfoView>, level: LevelNumber, n: int) -> (i: int)
    requires
        0 < n <= toc::ids_at(infos, level).len(),
    ensures
        0 <= i < n,
        forall|j: int|
            0 <= j < n ==> model::overlap_count(infos, level, toc::ids_at(infos, level)[i]) <= model::overlap_count(
                infos,
                level,
                #[trigger] toc::ids_at(infos, level)[j],
            ),
        forall|j: int|
            0 <= j < i ==> model::overlap_count(infos, level, toc::ids_at(infos, level)[i]) < model::overlap_count(
                infos,
                level,
                #[trigger] toc::ids_at(infos, level)[j],
            ),
    decreases n,
{
    let ids = toc::ids_at(infos, level);
    if n == 1 {
        0
    } else {
        let i = lemma_least_exists(infos, level, n - 1);
        if model::overlap_count(infos, level, ids[n - 1]) < model::overlap_count(infos, level, ids[i]) {
            n - 1
        } else {
            i
        }
    }
}

pub proof fn lemma_surplus(d: DiskState, level: LevelNumber)
    requires
        contents::numbered(d.toc),
        level > 0,
    ensures
        model::surplus(d.toc.infos, level) matches Some(id) ==> d.toc.infos.contains_key(id)
            && d.toc.infos[id].level == level,
{
    let infos = d.toc.infos;
    let ids = toc::ids_at(infos, level);
    toc::lemma_ids_at(infos, level);
    power::lemma_pow_positive(10, (level - 1) as nat);
    if ids.len() > model::level_limit(level) {
        let i = lemma_least_exists(infos, level, ids.len() as int);
        assert(model::is_least_overlapping(infos, level, i));
        model::lemma_least_overlapping(infos, level, i);
        assert(ids.contains(ids[i]));
    }
}

/// A releveling keeps the files of the tables numbered so far.
pub proof fn lemma_relevel_keeps(d: DiskState, threshold: usize, level: LevelNumber, ids: Seq<TableId>, next: DiskState)
    requires
        contents::numbered(d.toc),
        level < u64::MAX,
        forall|i: int| 0 <= i < ids.len() ==> d.toc.infos.contains_key(#[trigger] ids[i]),
        model::releveled(d, threshold, level, ids) == Ok::<DiskState, Error>(next),
    ensures
        contents::numbered(next.toc),
        files_kept(d, next),
{
    let lower = lower_of(d, level, ids);
    if lower.len() == 0 && !model::self_overlaps(model::infos_of(d.toc.infos, ids)) {
        lemma_relevel_without_overlap(d, threshold, level, ids);
        assert forall|id: TableId| #[trigger] next.toc.infos.contains_key(id) implies next.toc.infos[id].id == id && id
            < next.toc.next_id by {
            assert(next.toc.infos.dom().contains(id));
            assert(d.toc.infos.contains_key(id));
        }
    } else {
        let maps = model::read_all(d.toc.infos, d.files, ids + lower)->Ok_0;
        let kept = kept_of(d, level, ids);
        let parts = model::chunks(rows::rows_of(rows::overlay(maps)), threshold, kept);
        lemma_recorded(d, parts, (level + 1) as u64, ids + lower, next);
    }
}

/// What the levels give up keeps the files of the tables numbered so far.
proof fn lemma_settled_keeps(d: DiskState, threshold: usize, level: LevelNumber, top: LevelNumber, last: DiskState)
    requires
        contents::numbered(d.toc),
        level > 0,
        model::settled(d, threshold, level, top).0 == last,
    ensures
        contents::numbered(last.toc),
        files_kept(d, last),
    decreases top - level,
{
    if level < top {
        let up = (level + 1) as u64;
        lemma_surplus(d, level);
        match model::surplus(d.toc.infos, level) {
            None => {
                lemma_settled_keeps(d, threshold, up, top, last);
            },
            Some(id) => {
                if let Ok(next) = model::releveled(d, threshold, level, seq![id]) {
                    lemma_relevel_keeps(d, threshold, level, seq![id], next);
                    lemma_settled_keeps(next, threshold, up, top, last);
                }
            },
        }
    }
}

/// What each level below the highest gives up: what the tables say of a key stays the same, and so
/// does what holds of the tables.
proof fn lemma_settled(d: DiskState, threshold: usize, level: LevelNumber, top: LevelNumber, last: DiskState)
    requires
        contents::sound(d),
        level > 0,
        model::settled(d, threshold, level, top).0 == last,
        files_fit(last),
    ensures
        contents::sound(last),
        files_kept(d, last),
        forall|key: Seq<char>| #[trigger]
            contents::disk_lookup(last, key) == contents::disk_lookup(d, key),
    decreases top - level,
{
    if level < top {
        let up = (level + 1) as u64;
        lemma_surplus(d, level);
        match model::surplus(d.toc.infos, level) {
            None => {
                lemma_settled(d, threshold, up, top, last);
            },
            Some(id) => {
                lemma_alone_mergeable(d, level, id);
                if let Ok(next) = model::releveled(d, threshold, level, seq![id]) {
                    lemma_relevel_keeps(d, threshold, level, seq![id], next);
                    lemma_settled_keeps(next, threshold, up, top, last);
                    lemma_releveled(d, threshold, level, seq![id], next);
                    lemma_settled(next, threshold, up, top, last);
                    assert forall|key: Seq<char>| #[trigger]
                        contents::disk_lookup(last, key) == contents::disk_lookup(d, key) by {
                        assert(contents::disk_lookup(next, key) == contents::disk_lookup(d, key));
                    }
                }
            },
        }
    }
}

/// A rebalance, even one that fails: what the tables say of a key stays the same, and so does what
/// holds of the tables.
pub proof fn lemma_rebalanced(d: DiskState, threshold: usize, next: DiskState)
    requires
        contents::sound(d),
        model::rebalanced(d, threshold).0 == next,
        files_fit(next),
    ensures
        contents::sound(next),
        files_kept(d, next),
        forall|key: Seq<char>| #[trigger]
            contents::disk_lookup(next, key) == contents::disk_lookup(d, key),
{
    if toc::ids_at(d.toc.infos, 0).len() > 4 {
        lemma_older_mergeable(d);
        let older = model::older_on_zero(d.toc.infos);
        if model::releveled(d, threshold, 0, older) is Ok {
            lemma_releveled(d, threshold, 0, older, next);
        }
    } else {
        lemma_settled(d, threshold, 1, toc::max_level(d.toc.infos), next);
    }
}

/// A rebalance, even one that fails, keeps the files of the tables numbered so far.
pub proof fn lemma_rebalance_keeps(d: DiskState, threshold: usize, next: DiskState)
    requires
        contents::numbered(d.toc),
        model::rebalanced(d, threshold).0 == next,
    ensures
        contents::numbered(next.toc),
        files_kept(d, next),
{
    if toc::ids_at(d.toc.infos, 0).len() > 4 {
        lemma_older_mergeable(d);
        let older = model::older_on_zero(d.toc.infos);
        if model::releveled(d, threshold, 0, older) is Ok {
            lemma_relevel_keeps(d, threshold, 0, older, next);
        }
    } else {
        lemma_settled_keeps(d, threshold, 1, toc::max_level(d.toc.infos), next);
    }
}

} // verus!
