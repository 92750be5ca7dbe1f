//! What the tables of a store say together.
use crate::error::Error;
use crate::model;
use crate::model::DiskState;
use crate::order;
use crate::rows;
use crate::rows::Changes;
use crate::table::{InfoView, TableId};
use crate::toc;
use crate::toc::TocState;
use vstd::prelude::*;

verus! {

/// What a table that can be read says.
pub open spec fn says(d: DiskState, id: TableId) -> Changes {
    rows::to_map(model::rows_in(d.files, d.toc.infos[id])->Ok_0)
}

/// The table is listed and has a row for the key.
pub open spec fn has_row(d: DiskState, id: TableId, key: Seq<char>) -> bool {
    d.toc.infos.contains_key(id) && says(d, id).contains_key(key)
}

/// There are finitely many tables, known by their own numbers, all of which are below the next one.
pub open spec fn numbered(contents: TocState) -> bool {
    &&& contents.infos.dom().finite()
    &&& forall|id: TableId| #[trigger]
        contents.infos.contains_key(id) ==> contents.infos[id].id == id && id < contents.next_id
}

/// Each table can be read.
pub open spec fn intact(d: DiskState) -> bool {
    forall|id: TableId| #[trigger] d.toc.infos.contains_key(id) ==> model::rows_in(d.files, d.toc.infos[id]) is Ok
}

/// On no level above zero do the ranges of two tables overlap.
pub open spec fn apart(infos: Map<TableId, InfoView>) -> bool {
    forall|a: TableId, b: TableId|
        a != b && #[trigger] infos.contains_key(a) && #[trigger] infos.contains_key(b) && infos[a].level
            == infos[b].level && infos[a].level > 0 ==> !infos[a].overlaps(infos[b])
}

/// No two tables of a level above zero have a row for the same key.
pub open spec fn no_shared_keys(d: DiskState) -> bool {
    forall|a: TableId, b: TableId, key: Seq<char>|
        a != b && d.toc.infos[a].level == d.toc.infos[b].level && d.toc.infos[a].level > 0 && #[trigger] has_row(
            d,
            a,
            key,
        ) ==> !#[trigger] has_row(d, b, key)
}

/// The tables are as the operations of a store leave them.
pub open spec fn sound(d: DiskState) -> bool {
    numbered(d.toc) && intact(d) && apart(d.toc.infos)
}

/// What the tables say of the key.
pub open spec fn disk_lookup(d: DiskState, key: Seq<char>) -> Result<Option<Option<Seq<char>>>, Error> {
    model::lookup_in(d.toc.infos, d.files, toc::visits(d.toc.infos, true), key)
}

/// Of the tables that have a row for the key, this one is visited first.
pub open spec fn foremost(d: DiskState, key: Seq<char>, id: TableId) -> bool {
    &&& has_row(d, id, key)
    &&& forall|other: TableId|
        other != id && #[trigger] has_row(d, other, key) ==> toc::visited_before(d.toc.infos, true, id, other)
}

/// The file of a table has rows for keys in its range only.
pub proof fn lemma_rows_covered(files: Map<TableId, Seq<u8>>, info: InfoView, key: Seq<char>)
    requires
        model::rows_in(files, info) is Ok,
        rows::to_map(model::rows_in(files, info)->Ok_0).contains_key(key),
    ensures
        info.covers(key),
{
    broadcast use order::group_key_order;

    let found = model::rows_in(files, info)->Ok_0;
    rows::lemma_to_map(found);
    let i = choose|i: int| 0 <= i < found.len() && #[trigger] found[i].0 == key;
    if i > 0 {
        assert(order::key_less(found[0].0, found[i].0));
    }
    if i < found.len() - 1 {
        assert(order::key_less(found[i].0, found[found.len() - 1].0));
    }
}

/// A table has rows for keys in its range only.
pub proof fn lemma_covers(d: DiskState, id: TableId, key: Seq<char>)
    requires
        intact(d),
        has_row(d, id, key),
    ensures
        d.toc.infos[id].covers(key),
{
    assert(model::rows_in(d.files, d.toc.infos[id]) is Ok);
    lemma_rows_covered(d.files, d.toc.infos[id], key);
}

/// Tables that both cover a key overlap.
pub proof fn lemma_covered_by_both(a: InfoView, b: InfoView, key: Seq<char>)
    requires
        a.covers(key),
        b.covers(key),
    ensures
        a.overlaps(b),
{
    broadcast use order::group_key_order;

}

/// Where ranges do not overlap, no key is shared.
pub proof fn lemma_no_shared_keys(d: DiskState)
    requires
        intact(d),
        apart(d.toc.infos),
    ensures
        no_shared_keys(d),
{
    assert forall|a: TableId, b: TableId, key: Seq<char>|
        a != b && d.toc.infos[a].level == d.toc.infos[b].level && d.toc.infos[a].level > 0 && #[trigger] has_row(
            d,
            a,
            key,
        ) implies !#[trigger] has_row(d, b, key) by {
        if has_row(d, b, key) {
            lemma_covers(d, a, key);
            lemma_covers(d, b, key);
            lemma_covered_by_both(d.toc.infos[a], d.toc.infos[b], key);
        }
    }
}

/// The first of the given tables that has a row for the key decides. The result is its place, or
/// one below zero where there is none.
proof fn lemma_lookup_in(d: DiskState, ids: Seq<TableId>, key: Seq<char>) -> (at: int)
    requires
        intact(d),
        forall|i: int| 0 <= i < ids.len() ==> d.toc.infos.contains_key(#[trigger] ids[i]),
    ensures
        -1 <= at < ids.len(),
        at >= 0 ==> {
            &&& has_row(d, ids[at], key)
            &&& forall|j: int| 0 <= j < at ==> !has_row(d, #[trigger] ids[j], key)
            &&& model::lookup_in(d.toc.infos, d.files, ids, key) == Ok::<Option<Option<Seq<char>>>, Error>(
                Some(says(d, ids[at])[key]),
            )
        },
        at == -1 ==> {
            &&& forall|j: int| 0 <= j < ids.len() ==> !has_row(d, #[trigger] ids[j], key)
            &&& model::lookup_in(d.toc.infos, d.files, ids, key) == Ok::<Option<Option<Seq<char>>>, Error>(None)
        },
    decreases ids.len(),
{
    if ids.len() == 0 {
        -1
    } else {
        assert(d.toc.infos.contains_key(ids[0]));
        assert(model::rows_in(d.files, d.toc.infos[ids[0]]) is Ok);
        if has_row(d, ids[0], key) {
            lemma_covers(d, ids[0], key);
            0
        } else {
            let rest = ids.drop_first();
            assert forall|i: int| 0 <= i < rest.len() implies d.toc.infos.contains_key(#[trigger] rest[i]) by {
                assert(d.toc.infos.contains_key(ids[i + 1]));
            }
            let at = lemma_lookup_in(d, rest, key);
            assert(model::lookup_in(d.toc.infos, d.files, ids, key) == model::lookup_in(
                d.toc.infos,
                d.files,
                rest,
                key,
            ));
            if at >= 0 {
                assert forall|j: int| 0 <= j < at + 1 implies !has_row(d, #[trigger] ids[j], key) by {
                    if j > 0 {
                        assert(rest[j - 1] == ids[j]);
                    }
                }
                at + 1
            } else {
                assert forall|j: int| 0 <= j < ids.len() implies !has_row(d, #[trigger] ids[j], key) by {
                    if j > 0 {
                        assert(rest[j - 1] == ids[j]);
                    }
                }
                -1
            }
        }
    }
}

/// What the tables say of a key is what the first visited of those that have a row for it says.
pub proof fn lemma_disk_lookup(d: DiskState, key: Seq<char>) -> (found: Option<TableId>)
    requires
        numbered(d.toc),
        intact(d),
    ensures
        match found {
            Some(id) => foremost(d, key, id) && disk_lookup(d, key) == Ok::<Option<Option<Seq<char>>>, Error>(
                Some(says(d, id)[key]),
            ),
            None => (forall|id: TableId| !#[trigger] has_row(d, id, key)) && disk_lookup(d, key) == Ok::<
                Option<Option<Seq<char>>>,
                Error,
            >(None),
        },
{
    let ids = toc::visits(d.toc.infos, true);
    let less = |a: TableId, b: TableId| toc::visited_before(d.toc.infos, true, a, b);
    toc::lemma_visits_exist(d.toc.infos, true);
    assert forall|i: int| 0 <= i < ids.len() implies d.toc.infos.contains_key(#[trigger] ids[i]) by {
        assert(ids.contains(ids[i]));
    }
    let at = lemma_lookup_in(d, ids, key);
    if at >= 0 {
        assert forall|other: TableId| other != ids[at] && #[trigger] has_row(
            d,
            other,
            key,
        ) implies toc::visited_before(d.toc.infos, true, ids[at], other) by {
            assert(ids.contains(other));
            let j = choose|j: int| 0 <= j < ids.len() && ids[j] == other;
            assert(!(j < at));
            assert(less(ids[at], ids[j]));
        }
        Some(ids[at])
    } else {
        assert forall|id: TableId| !#[trigger] has_row(d, id, key) by {
            if has_row(d, id, key) {
                assert(ids.contains(id));
                let j = choose|j: int| 0 <= j < ids.len() && ids[j] == id;
                assert(!has_row(d, ids[j], key));
            }
        }
        None
    }
}

/// The foremost table decides what the tables say of a key.
pub proof fn lemma_foremost_decides(d: DiskState, key: Seq<char>, id: TableId)
    requires
        numbered(d.toc),
        intact(d),
        foremost(d, key, id),
    ensures
        disk_lookup(d, key) == Ok::<Option<Option<Seq<char>>>, Error>(Some(says(d, id)[key])),
{
    match lemma_disk_lookup(d, key) {
        Some(found) => {
            if found != id {
                assert(has_row(d, found, key) && has_row(d, id, key));
                assert(toc::visited_before(d.toc.infos, true, id, found));
                assert(toc::visited_before(d.toc.infos, true, found, id));
            }
        },
        None => {},
    }
}

/// Tables that can be read can be read together.
pub proof fn lemma_read_all(d: DiskState, ids: Seq<TableId>)
    requires
        intact(d),
        forall|i: int| 0 <= i < ids.len() ==> d.toc.infos.contains_key(#[trigger] ids[i]),
    ensures
        model::read_all(d.toc.infos, d.files, ids) == Ok::<Seq<Changes>, Error>(
            Seq::new(ids.len(), |i: int| says(d, ids[i])),
        ),
    decreases ids.len(),
{
    let maps = Seq::new(ids.len(), |i: int| says(d, ids[i]));
    if ids.len() == 0 {
        assert(maps =~= Seq::<Changes>::empty());
    } else {
        let front = ids.drop_last();
        assert forall|i: int| 0 <= i < front.len() implies d.toc.infos.contains_key(#[trigger] front[i]) by {
            assert(d.toc.infos.contains_key(ids[i]));
        }
        lemma_read_all(d, front);
        assert(d.toc.infos.contains_key(ids[ids.len() - 1]));
        assert(maps =~= Seq::new(front.len(), |i: int| says(d, front[i])).push(says(d, ids.last())));
    }
}

} // verus!
