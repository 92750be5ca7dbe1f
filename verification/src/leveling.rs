//! What moving tables down makes of the levels.
use crate::contents;
use crate::error::Error;
use crate::laws;
use crate::merging;
use crate::model;
use crate::model::DiskState;
use crate::order;
use crate::rows;
use crate::rows::RowView;
use crate::table;
use crate::table::{InfoView, LevelNumber, TableId};
use crate::toc;
use vstd::arithmetic::power;
use vstd::prelude::*;

verus! {

/// The tables of a level.
pub open spec fn tables_on(infos: Map<TableId, InfoView>, level: LevelNumber) -> Set<TableId> {
    infos.dom().filter(|id: TableId| infos[id].level == level)
}

/// The tables of a level whose ranges overlap that of a table.
pub open spec fn overlapped_on(infos: Map<TableId, InfoView>, level: LevelNumber, by: InfoView) -> Set<TableId> {
    infos.dom().filter(|id: TableId| infos[id].level == level && infos[id].overlaps(by))
}

proof fn lemma_distinct(list: Seq<TableId>)
    requires
        toc::ascending(list),
    ensures
        list.to_set().len() == list.len(),
{
    let below = |a: TableId, b: TableId| a < b;
    assert forall|i: int, j: int| 0 <= i < list.len() && 0 <= j < list.len() && i != j implies list[i] != list[j] by {
        if i < j {
            assert(below(list[i], list[j]));
        } else {
            assert(below(list[j], list[i]));
        }
    }
    list.unique_seq_to_set();
}

/// The list of a level's tables has each of them once.
proof fn lemma_count_on(infos: Map<TableId, InfoView>, level: LevelNumber)
    requires
        infos.dom().finite(),
    ensures
        toc::ids_at(infos, level).len() == tables_on(infos, level).len(),
{
    let list = toc::ids_at(infos, level);
    toc::lemma_ids_at(infos, level);
    lemma_distinct(list);
    assert forall|id: TableId| list.to_set().contains(id) <==> tables_on(infos, level).contains(id) by {
        assert(list.contains(id) <==> infos.contains_key(id) && infos[id].level == level);
    }
    assert(list.to_set() =~= tables_on(infos, level));
}

proof fn lemma_filter_ascending(list: Seq<TableId>, pred: spec_fn(TableId) -> bool)
    requires
        toc::ascending(list),
    ensures
        toc::ascending(list.filter(pred)),
        forall|id: TableId| #[trigger] list.filter(pred).contains(id) <==> list.contains(id) && pred(id),
    decreases list.len(),
{
    reveal(Seq::filter);
    let below = |a: TableId, b: TableId| a < b;
    if list.len() > 0 {
        let front = list.drop_last();
        let last = list.last();
        assert forall|i: int, j: int| 0 <= i < j < front.len() implies #[trigger] below(front[i], front[j]) by {
            assert(below(list[i], list[j]));
        }
        lemma_filter_ascending(front, pred);
        let part = front.filter(pred);
        let whole = list.filter(pred);
        assert(whole == if pred(last) { part.push(last) } else { part });
        assert forall|i: int, j: int| 0 <= i < j < whole.len() implies #[trigger] below(whole[i], whole[j]) by {
            if j < part.len() {
                assert(below(part[i], part[j]));
            } else {
                assert(part.contains(part[i]));
                let n = choose|n: int| 0 <= n < front.len() && front[n] == part[i];
                assert(below(list[n], list[list.len() - 1]));
            }
        }
        assert forall|id: TableId| #[trigger] whole.contains(id) <==> list.contains(id) && pred(id) by {
            if whole.contains(id) {
                let n = choose|n: int| 0 <= n < whole.len() && whole[n] == id;
                if n < part.len() {
                    assert(part.contains(id));
                    let m = choose|m: int| 0 <= m < front.len() && front[m] == id;
                    assert(list[m] == id);
                } else {
                    assert(list[list.len() - 1] == id);
                }
            }
            if list.contains(id) && pred(id) {
                let m = choose|m: int| 0 <= m < list.len() && list[m] == id;
                if m < front.len() {
                    assert(front[m] == id);
                    assert(part.contains(id));
                    let n = choose|n: int| 0 <= n < part.len() && part[n] == id;
                    assert(whole[n] == id);
                } else {
                    assert(whole[part.len() as int] == id);
                }
            }
        }
    }
}

proof fn lemma_overlap_count(infos: Map<TableId, InfoView>, level: LevelNumber, id: TableId)
    requires
        infos.dom().finite(),
    ensures
        model::overlap_count(infos, level, id) == overlapped_on(infos, (level + 1) as u64, infos[id]).len(),
{
    let up = (level + 1) as u64;
    let others = seq![infos[id]];
    let pred = |other: TableId| model::overlaps_any(infos[other], others);
    let list = toc::ids_at(infos, up);
    toc::lemma_ids_at(infos, up);
    lemma_filter_ascending(list, pred);
    lemma_distinct(list.filter(pred));
    assert forall|other: TableId| list.filter(pred).to_set().contains(other) <==> overlapped_on(
        infos,
        up,
        infos[id],
    ).contains(other) by {
        assert(list.filter(pred).contains(other) <==> list.contains(other) && pred(other));
        assert(list.contains(other) <==> infos.contains_key(other) && infos[other].level == up);
        if infos[other].overlaps(infos[id]) {
            assert(infos[other].overlaps(others[0]));
        }
    }
    assert(list.filter(pred).to_set() =~= overlapped_on(infos, up, infos[id]));
}

/// A level above zero gives up a table exactly where it has more than four times ten to the power of
/// one less than its number. It is one that overlaps the fewest tables of the next level, and of
/// several such the one with the lowest number.
pub proof fn law_surplus_overlaps_fewest(infos: Map<TableId, InfoView>, level: LevelNumber)
    requires
        infos.dom().finite(),
        1 <= level < u64::MAX,
    ensures
        match model::surplus(infos, level) {
            Some(id) => {
                &&& tables_on(infos, level).len() > 4 * power::pow(10, (level - 1) as nat)
                &&& infos.contains_key(id) && infos[id].level == level
                &&& forall|other: TableId|
                    #[trigger] infos.contains_key(other) && infos[other].level == level && other != id ==> {
                        let mine = overlapped_on(infos, (level + 1) as u64, infos[id]).len();
                        let theirs = overlapped_on(infos, (level + 1) as u64, infos[other]).len();
                        mine < theirs || mine == theirs && id < other
                    }
            },
            None => tables_on(infos, level).len() <= 4 * power::pow(10, (level - 1) as nat),
        },
{
    let ids = toc::ids_at(infos, level);
    let below = |a: TableId, b: TableId| a < b;
    lemma_count_on(infos, level);
    toc::lemma_ids_at(infos, level);
    power::lemma_pow_positive(10, (level - 1) as nat);
    if let Some(id) = model::surplus(infos, level) {
        let i = merging::lemma_least_exists(infos, level, ids.len() as int);
        assert(model::is_least_overlapping(infos, level, i));
        model::lemma_least_overlapping(infos, level, i);
        assert(id == ids[i]);
        assert(ids.contains(ids[i]));
        lemma_overlap_count(infos, level, id);
        assert forall|other: TableId|
            #[trigger] infos.contains_key(other) && infos[other].level == level && other != id implies {
            let mine = overlapped_on(infos, (level + 1) as u64, infos[id]).len();
            let theirs = overlapped_on(infos, (level + 1) as u64, infos[other]).len();
            mine < theirs || mine == theirs && id < other
        } by {
            assert(ids.contains(other));
            let j = choose|j: int| 0 <= j < ids.len() && ids[j] == other;
            lemma_overlap_count(infos, level, other);
            assert(model::overlap_count(infos, level, ids[i]) <= model::overlap_count(infos, level, ids[j]));
            if i < j {
                assert(below(ids[i], ids[j]));
            } else {
                assert(model::overlap_count(infos, level, ids[i]) < model::overlap_count(infos, level, ids[j]));
            }
        }
    }
}

/// Some of the given tables overlap one another, or one of the next level.
pub open spec fn something_overlaps(infos: Map<TableId, InfoView>, level: LevelNumber, ids: Seq<TableId>) -> bool {
    ||| exists|i: int, j: int|
        0 <= i < j < ids.len() && infos[#[trigger] ids[i]].overlaps(infos[#[trigger] ids[j]])
    ||| exists|id: TableId, i: int|
        #[trigger] infos.contains_key(id) && infos[id].level == level + 1 && 0 <= i < ids.len() && infos[id].overlaps(
            infos[#[trigger] ids[i]],
        )
}

proof fn lemma_something_overlaps(d: DiskState, level: LevelNumber, ids: Seq<TableId>)
    requires
        contents::numbered(d.toc),
        level < u64::MAX,
    ensures
        something_overlaps(d.toc.infos, level, ids) <==> merging::lower_of(d, level, ids).len() > 0
            || model::self_overlaps(model::infos_of(d.toc.infos, ids)),
{
    let infos = d.toc.infos;
    let lower = merging::lower_of(d, level, ids);
    let others = model::infos_of(infos, ids);
    merging::lemma_lower_of(d, level, ids);
    if something_overlaps(infos, level, ids) {
        if exists|i: int, j: int|
            0 <= i < j < ids.len() && infos[#[trigger] ids[i]].overlaps(infos[#[trigger] ids[j]]) {
            let (i, j) = choose|i: int, j: int|
                0 <= i < j < ids.len() && infos[#[trigger] ids[i]].overlaps(infos[#[trigger] ids[j]]);
            assert(others[i].overlaps(others[j]));
        } else {
            let (id, i) = choose|id: TableId, i: int|
                #[trigger] infos.contains_key(id) && infos[id].level == level + 1 && 0 <= i < ids.len()
                    && infos[id].overlaps(infos[#[trigger] ids[i]]);
            assert(infos[id].overlaps(others[i]));
            assert(lower.contains(id));
        }
    }
    if lower.len() > 0 {
        let id = lower[0];
        assert(lower.contains(id));
        let i = choose|i: int| 0 <= i < others.len() && infos[id].overlaps(#[trigger] others[i]);
        assert(infos.contains_key(id) && infos[id].overlaps(infos[ids[i]]));
    }
    if model::self_overlaps(others) {
        let (i, j) = choose|i: int, j: int|
            0 <= i < j < others.len() && (#[trigger] others[i]).overlaps(#[trigger] others[j]);
        assert(infos[ids[i]].overlaps(infos[ids[j]]));
    }
}

/// Releveling takes the given tables from their level, and leaves all other tables as they are but for
/// those of the next level that overlap one of the given ones, which are gone. What is new stands on the
/// next level.
pub proof fn law_relevel_changes_two_levels(
    d: DiskState,
    threshold: usize,
    level: LevelNumber,
    ids: Seq<TableId>,
    next: DiskState,
    id: TableId,
)
    requires
        contents::numbered(d.toc),
        level < u64::MAX,
        forall|i: int|
            0 <= i < ids.len() ==> d.toc.infos.contains_key(#[trigger] ids[i]) && d.toc.infos[ids[i]].level == level,
        model::releveled(d, threshold, level, ids) == Ok::<DiskState, Error>(next),
    ensures
        next.toc.infos.contains_key(id) && next.toc.infos[id].level == level <==> d.toc.infos.contains_key(id)
            && d.toc.infos[id].level == level && !ids.contains(id),
        next.toc.infos.contains_key(id) && next.toc.infos[id].level != level + 1 ==> d.toc.infos.contains_key(id)
            && next.toc.infos[id] == d.toc.infos[id],
        d.toc.infos.contains_key(id) && d.toc.infos[id].level != level && d.toc.infos[id].level != level + 1
            ==> next.toc.infos.contains_key(id) && next.toc.infos[id] == d.toc.infos[id],
        d.toc.infos.contains_key(id) && d.toc.infos[id].level == level + 1 ==> {
            &&& next.toc.infos.contains_key(id) <==> forall|i: int|
                0 <= i < ids.len() ==> !d.toc.infos[id].overlaps(d.toc.infos[#[trigger] ids[i]])
            &&& next.toc.infos.contains_key(id) ==> next.toc.infos[id] == d.toc.infos[id]
        },
{
    let infos = d.toc.infos;
    let up = (level + 1) as u64;
    let lower = merging::lower_of(d, level, ids);
    let others = model::infos_of(infos, ids);
    merging::lemma_lower_of(d, level, ids);
    assert(ids.contains(id) ==> infos.contains_key(id) && infos[id].level == level) by {
        if ids.contains(id) {
            let i = choose|i: int| 0 <= i < ids.len() && ids[i] == id;
            assert(infos.contains_key(ids[i]));
        }
    }
    assert(model::overlaps_any(infos[id], others) <==> !(forall|i: int|
        0 <= i < ids.len() ==> !infos[id].overlaps(infos[#[trigger] ids[i]]))) by {
        if model::overlaps_any(infos[id], others) {
            let i = choose|i: int| 0 <= i < others.len() && infos[id].overlaps(#[trigger] others[i]);
            assert(infos[id].overlaps(infos[ids[i]]));
        }
        if !(forall|i: int| 0 <= i < ids.len() ==> !infos[id].overlaps(infos[#[trigger] ids[i]])) {
            let i = choose|i: int| 0 <= i < ids.len() && infos[id].overlaps(infos[#[trigger] ids[i]]);
            assert(infos[id].overlaps(others[i]));
        }
    }
    if lower.len() == 0 && !model::self_overlaps(others) {
        merging::lemma_relevel_without_overlap(d, threshold, level, ids);
        assert(next.toc.infos.dom().contains(id) <==> infos.dom().contains(id));
        assert(!lower.contains(id));
    } else {
        let maps = model::read_all(infos, d.files, ids + lower)->Ok_0;
        let kept = merging::kept_of(d, level, ids);
        let parts = model::chunks(rows::rows_of(rows::overlay(maps)), threshold, kept);
        merging::lemma_recorded(d, parts, up, ids + lower, next);
        merging::lemma_inputs_contain(d, level, ids);
        assert(merging::inputs_of(d, level, ids).contains(id) <==> ids.contains(id) || lower.contains(id));
        if d.toc.next_id <= id && next.toc.infos.contains_key(id) {
            assert(next.toc.infos[id] == table::info_of(parts[id - d.toc.next_id], id, up));
            assert(!infos.contains_key(id));
        }
    }
}

/// Tables none of which overlaps another or one of the next level move to the next level as they are:
/// no number is used and no file is written.
pub proof fn law_tables_without_overlap_move_down(
    d: DiskState,
    threshold: usize,
    level: LevelNumber,
    ids: Seq<TableId>,
    id: TableId,
)
    requires
        contents::numbered(d.toc),
        level < u64::MAX,
        forall|i: int| 0 <= i < ids.len() ==> d.toc.infos.contains_key(#[trigger] ids[i]),
        !something_overlaps(d.toc.infos, level, ids),
    ensures
        model::releveled(d, threshold, level, ids) is Ok,
        ({
            let next = model::releveled(d, threshold, level, ids)->Ok_0;
            &&& next.files == d.files
            &&& next.toc.next_id == d.toc.next_id
            &&& next.toc.infos.contains_key(id) <==> d.toc.infos.contains_key(id)
            &&& ids.contains(id) ==> next.toc.infos[id] == (InfoView { level: (level + 1) as u64, ..d.toc.infos[id] })
            &&& d.toc.infos.contains_key(id) && !ids.contains(id) ==> next.toc.infos[id] == d.toc.infos[id]
        }),
{
    lemma_something_overlaps(d, level, ids);
    merging::lemma_relevel_without_overlap(d, threshold, level, ids);
    let next = model::releveled(d, threshold, level, ids)->Ok_0;
    assert(next.toc.infos.dom().contains(id) <==> d.toc.infos.dom().contains(id));
    if ids.contains(id) {
        let i = choose|i: int| 0 <= i < ids.len() && ids[i] == id;
        assert(d.toc.infos.contains_key(ids[i]));
    }
}

/// Where something overlaps, the given tables are gone after a releveling, and the tables that were
/// written in their place have the numbers from the next one on and stand on the next level.
pub proof fn law_overlapping_tables_are_rewritten(
    d: DiskState,
    threshold: usize,
    level: LevelNumber,
    ids: Seq<TableId>,
    next: DiskState,
    id: TableId,
)
    requires
        contents::numbered(d.toc),
        level < u64::MAX,
        forall|i: int| 0 <= i < ids.len() ==> d.toc.infos.contains_key(#[trigger] ids[i]),
        something_overlaps(d.toc.infos, level, ids),
        model::releveled(d, threshold, level, ids) == Ok::<DiskState, Error>(next),
    ensures
        ids.contains(id) ==> !next.toc.infos.contains_key(id),
        d.toc.next_id <= id < next.toc.next_id ==> next.toc.infos.contains_key(id) && next.toc.infos[id].level == level
            + 1,
        next.toc.infos.contains_key(id) ==> id < next.toc.next_id,
{
    let infos = d.toc.infos;
    let up = (level + 1) as u64;
    let lower = merging::lower_of(d, level, ids);
    lemma_something_overlaps(d, level, ids);
    let maps = model::read_all(infos, d.files, ids + lower)->Ok_0;
    let kept = merging::kept_of(d, level, ids);
    let parts = model::chunks(rows::rows_of(rows::overlay(maps)), threshold, kept);
    merging::lemma_recorded(d, parts, up, ids + lower, next);
    merging::lemma_inputs_contain(d, level, ids);
    if ids.contains(id) {
        let i = choose|i: int| 0 <= i < ids.len() && ids[i] == id;
        assert(infos.contains_key(ids[i]));
        assert(merging::inputs_of(d, level, ids).contains(id));
    }
}

proof fn lemma_chunk_sizes(all: Seq<RowView>, threshold: usize, kept: Seq<InfoView>)
    ensures
        ({
            let parts = model::chunks(all, threshold, kept);
            &&& forall|i: int|
                0 <= i < parts.len() ==> (#[trigger] parts[i]).len() > 0 && table::table_bytes(
                    parts[i].drop_last(),
                ).len() <= threshold
            &&& forall|i: int|
                0 <= i < parts.len() - 1 ==> table::table_bytes(#[trigger] parts[i]).len() > threshold
                    || model::parted(parts[i].last().0, parts[i + 1].first().0, kept)
            &&& all.len() > 0 ==> parts.len() > 0 && parts[0].len() > 0 && parts[0].first() == all[0]
        }),
    decreases all.len(),
{
    let parts = model::chunks(all, threshold, kept);
    if all.len() > 0 {
        model::lemma_cut_exists(all, threshold, kept);
        let n = model::cut(all, threshold, kept);
        let rest = model::chunks(all.skip(n), threshold, kept);
        lemma_chunk_sizes(all.skip(n), threshold, kept);
        assert(parts == seq![all.take(n)] + rest);
        assert(parts[0] == all.take(n));
        assert forall|i: int| 0 <= i < parts.len() implies (#[trigger] parts[i]).len() > 0 && table::table_bytes(
            parts[i].drop_last(),
        ).len() <= threshold by {
            if i > 0 {
                assert(parts[i] == rest[i - 1]);
            } else {
                assert(all.take(n).drop_last() =~= all.take(n - 1));
                if n > 1 {
                    assert(!model::ends(all, threshold, kept, n - 1));
                } else {
                    assert(all.take(0) =~= Seq::<RowView>::empty());
                    table::law_row_adds_to_the_file(Seq::empty(), Seq::empty(), None);
                }
            }
        }
        assert forall|i: int| 0 <= i < parts.len() - 1 implies table::table_bytes(#[trigger] parts[i]).len() > threshold
            || model::parted(parts[i].last().0, parts[i + 1].first().0, kept) by {
            assert(parts[i + 1] == rest[i]);
            if i > 0 {
                assert(parts[i] == rest[i - 1]);
            } else {
                assert(model::ends(all, threshold, kept, n));
                assert(rest.len() > 0);
                assert(all.skip(n).len() > 0);
                assert(rest[0].first() == all.skip(n)[0]);
            }
        }
    }
}

proof fn lemma_chunk_count(all: Seq<RowView>, threshold: usize, kept: Seq<InfoView>)
    ensures
        model::chunks(all, threshold, kept).len() <= all.len(),
    decreases all.len(),
{
    if all.len() > 0 {
        model::lemma_cut_exists(all, threshold, kept);
        let n = model::cut(all, threshold, kept);
        lemma_chunk_count(all.skip(n), threshold, kept);
    }
}

/// Tables that can be read can be releveled, as long as there is a number left for each row that they
/// have.
pub proof fn law_relevel_succeeds(d: DiskState, threshold: usize, level: LevelNumber, ids: Seq<TableId>)
    requires
        contents::sound(d),
        merging::mergeable(d, level, ids),
        level < u64::MAX,
        d.toc.next_id + rows::rows_of(merging::merged(d, level, ids)).len() <= u64::MAX,
    ensures
        model::releveled(d, threshold, level, ids) is Ok,
{
    let inputs = merging::inputs_of(d, level, ids);
    let kept = merging::kept_of(d, level, ids);
    merging::lemma_inputs_contain(d, level, ids);
    merging::lemma_lower_of(d, level, ids);
    assert forall|i: int| 0 <= i < inputs.len() implies d.toc.infos.contains_key(#[trigger] inputs[i]) by {
        assert(inputs.contains(inputs[i]));
        if ids.contains(inputs[i]) {
            let n = choose|n: int| 0 <= n < ids.len() && ids[n] == inputs[i];
            assert(d.toc.infos.contains_key(ids[n]));
        }
    }
    contents::lemma_read_all(d, inputs);
    lemma_chunk_count(rows::rows_of(merging::merged(d, level, ids)), threshold, kept);
}

/// Where something overlaps, releveling needs each table that takes part: the given ones and those of the
/// next level that overlap one of them. Where one of them cannot be read it fails with the error of one
/// that cannot, and otherwise it fails only where no numbers are left.
pub proof fn law_relevel_needs_its_tables(d: DiskState, threshold: usize, level: LevelNumber, ids: Seq<TableId>)
    requires
        contents::numbered(d.toc),
        level < u64::MAX,
        something_overlaps(d.toc.infos, level, ids),
    ensures
        ({
            let taking_part = |id: TableId|
                ids.contains(id) || d.toc.infos.contains_key(id) && d.toc.infos[id].level == level + 1 && exists|i: int|
                    0 <= i < ids.len() && d.toc.infos[id].overlaps(d.toc.infos[#[trigger] ids[i]]);
            let unreadable = |id: TableId| taking_part(id) && model::rows_in(d.files, d.toc.infos[id]) is Err;
            if exists|id: TableId| #[trigger] unreadable(id) {
                &&& model::releveled(d, threshold, level, ids) matches Err(e)
                &&& exists|id: TableId| #[trigger]
                    unreadable(id) && model::rows_in(d.files, d.toc.infos[id]) == Err::<Seq<RowView>, Error>(e)
            } else {
                model::releveled(d, threshold, level, ids) matches Err(e) ==> e == Error::IdsExhausted
            }
        }),
{
    let infos = d.toc.infos;
    let taking_part = |id: TableId|
        ids.contains(id) || infos.contains_key(id) && infos[id].level == level + 1 && exists|i: int|
            0 <= i < ids.len() && infos[id].overlaps(infos[#[trigger] ids[i]]);
    let unreadable = |id: TableId| taking_part(id) && model::rows_in(d.files, infos[id]) is Err;
    let others = model::infos_of(infos, ids);
    let lower = merging::lower_of(d, level, ids);
    let inputs = merging::inputs_of(d, level, ids);
    lemma_something_overlaps(d, level, ids);
    merging::lemma_inputs_contain(d, level, ids);
    merging::lemma_lower_of(d, level, ids);
    assert forall|id: TableId| #[trigger] inputs.contains(id) <==> taking_part(id) by {
        if lower.contains(id) {
            let i = choose|i: int| 0 <= i < others.len() && infos[id].overlaps(#[trigger] others[i]);
            assert(infos[id].overlaps(infos[ids[i]]));
        }
        if !ids.contains(id) && taking_part(id) {
            let i = choose|i: int| 0 <= i < ids.len() && infos[id].overlaps(infos[#[trigger] ids[i]]);
            assert(infos[id].overlaps(others[i]));
        }
    }
    if model::read_all(infos, d.files, inputs) is Err {
        laws::lemma_read_fails(d, inputs);
        let i = choose|i: int| {
            &&& 0 <= i < inputs.len()
            &&& model::rows_in(d.files, infos[#[trigger] inputs[i]]) == Err::<Seq<RowView>, Error>(
                model::read_all(infos, d.files, inputs)->Err_0,
            )
        };
        assert(inputs.contains(inputs[i]));
        assert(unreadable(inputs[i]));
    } else if exists|id: TableId| #[trigger] unreadable(id) {
        let id = choose|id: TableId| #[trigger] unreadable(id);
        assert(inputs.contains(id));
        let i = choose|i: int| 0 <= i < inputs.len() && inputs[i] == id;
        merging::lemma_read_each(infos, d.files, inputs, i);
    }
}

/// Where tables are merged, the first of the given ones that has a row for a key supersedes the others and
/// those of the next level: its row is in one of the new tables, also where it deletes the key.
#[verifier::spinoff_prover]
#[verifier::rlimit(40)]
pub proof fn law_front_table_wins_in_a_merge(
    d: DiskState,
    threshold: usize,
    level: LevelNumber,
    ids: Seq<TableId>,
    next: DiskState,
    key: Seq<char>,
    n: int,
) -> (id: TableId)
    requires
        contents::sound(d),
        level < u64::MAX,
        forall|i: int| 0 <= i < ids.len() ==> d.toc.infos.contains_key(#[trigger] ids[i]),
        something_overlaps(d.toc.infos, level, ids),
        model::releveled(d, threshold, level, ids) == Ok::<DiskState, Error>(next),
        merging::files_fit(next),
        0 <= n < ids.len(),
        contents::has_row(d, ids[n], key),
        forall|i: int| 0 <= i < n ==> !contents::has_row(d, #[trigger] ids[i], key),
    ensures
        d.toc.next_id <= id < next.toc.next_id,
        contents::has_row(next, id, key),
        contents::says(next, id)[key] == contents::says(d, ids[n])[key],
{
    let infos = d.toc.infos;
    let first = d.toc.next_id;
    let up = (level + 1) as u64;
    let lower = merging::lower_of(d, level, ids);
    let inputs = merging::inputs_of(d, level, ids);
    lemma_something_overlaps(d, level, ids);
    merging::lemma_inputs_contain(d, level, ids);
    merging::lemma_lower_of(d, level, ids);
    assert forall|i: int| 0 <= i < inputs.len() implies infos.contains_key(#[trigger] inputs[i]) by {
        assert(inputs.contains(inputs[i]));
        if ids.contains(inputs[i]) {
            let m = choose|m: int| 0 <= m < ids.len() && ids[m] == inputs[i];
            assert(infos.contains_key(ids[m]));
        }
    }
    contents::lemma_read_all(d, inputs);
    let maps = Seq::new(inputs.len(), |i: int| contents::says(d, inputs[i]));
    assert forall|j: int| 0 <= j < n implies !(#[trigger] maps[j]).contains_key(key) by {
        assert(inputs[j] == ids[j]);
        assert(!contents::has_row(d, ids[j], key));
    }
    assert(maps[n] == contents::says(d, ids[n]));
    rows::law_front_map_wins(maps, key);
    assert(maps[n].contains_key(key));
    assert(rows::overlay(maps).contains_key(key) && rows::overlay(maps)[key] == maps[n][key]);
    let kept = merging::kept_of(d, level, ids);
    let all = rows::rows_of(rows::overlay(maps));
    let parts = model::chunks(all, threshold, kept);
    merging::lemma_merged_rows(infos, d.files, inputs);
    merging::lemma_chunks(all, threshold, kept);
    merging::lemma_replaced(d, parts, up, inputs, next);
    let i = choose|i: int| merging::part_has(parts, i, key);
    let id = (first + i) as u64;
    assert(contents::says(next, id) == rows::to_map(parts[id - first]));
    assert(next.toc.infos.contains_key(id));
    id
}

/// The tables of a level that overlap one of the given ones, in the order of their numbers.
pub proof fn law_overlapping_tables(
    infos: Map<TableId, InfoView>,
    others: Seq<InfoView>,
    level: LevelNumber,
    id: TableId,
)
    requires
        infos.dom().finite(),
    ensures
        model::overlapping(infos, others, level).contains(id) <==> infos.contains_key(id) && infos[id].level == level
            && exists|i: int| 0 <= i < others.len() && infos[id].overlaps(#[trigger] others[i]),
        forall|i: int, j: int|
            0 <= i < j < model::overlapping(infos, others, level).len() ==> #[trigger] model::overlapping(
                infos,
                others,
                level,
            )[i] < #[trigger] model::overlapping(infos, others, level)[j],
{
    let pred = |id: TableId| model::overlaps_any(infos[id], others);
    let list = toc::ids_at(infos, level);
    let below = |a: TableId, b: TableId| a < b;
    toc::lemma_ids_at(infos, level);
    lemma_filter_ascending(list, pred);
    let found = list.filter(pred);
    assert(found.contains(id) <==> list.contains(id) && pred(id));
    assert forall|i: int, j: int| 0 <= i < j < found.len() implies #[trigger] found[i] < #[trigger] found[j] by {
        assert(below(found[i], found[j]));
    }
}

/// What parts two new tables is a table of the level that did not take part and is still there.
proof fn lemma_fence(
    d: DiskState,
    threshold: usize,
    level: LevelNumber,
    ids: Seq<TableId>,
    next: DiskState,
    a: Seq<char>,
    b: Seq<char>,
) -> (fence: TableId)
    requires
        contents::numbered(d.toc),
        level < u64::MAX,
        forall|i: int|
            0 <= i < ids.len() ==> d.toc.infos.contains_key(#[trigger] ids[i]) && d.toc.infos[ids[i]].level == level,
        model::releveled(d, threshold, level, ids) == Ok::<DiskState, Error>(next),
        model::parted(a, b, merging::kept_of(d, level, ids)),
    ensures
        d.toc.infos.contains_key(fence) && d.toc.infos[fence].level == level + 1,
        next.toc.infos.contains_key(fence),
        order::key_less(a, d.toc.infos[fence].smallest_key),
        order::key_less(d.toc.infos[fence].biggest_key, b),
{
    let infos = d.toc.infos;
    let up = (level + 1) as u64;
    let others = model::infos_of(infos, ids);
    let kept = merging::kept_of(d, level, ids);
    let i = choose|i: int|
        0 <= i < kept.len() && order::key_less(a, (#[trigger] kept[i]).smallest_key) && order::key_less(
            kept[i].biggest_key,
            b,
        );
    let pred = |other: TableId| !model::overlaps_any(infos[other], others);
    let list = toc::ids_at(infos, up);
    toc::lemma_ids_at(infos, up);
    lemma_filter_ascending(list, pred);
    let fence = list.filter(pred)[i];
    assert(list.filter(pred).contains(fence));
    assert(kept[i] == infos[fence]);
    assert(infos.contains_key(fence) && infos[fence].level == up);
    law_relevel_changes_two_levels(d, threshold, level, ids, next, fence);
    assert forall|j: int| 0 <= j < ids.len() implies !infos[fence].overlaps(infos[#[trigger] ids[j]]) by {
        assert(others[j] == infos[ids[j]]);
    }
    fence
}

/// A table that a merge writes has its last row only because it was within the threshold before: without
/// that row its file is at most as long as the threshold. It ends where it is beyond the threshold, or
/// before a table of the level that did not take part, or with the last row.
#[verifier::spinoff_prover]
#[verifier::rlimit(40)]
pub proof fn law_merged_tables_are_cut_at_the_threshold(
    d: DiskState,
    threshold: usize,
    level: LevelNumber,
    ids: Seq<TableId>,
    next: DiskState,
    id: TableId,
) -> (part: Seq<RowView>)
    requires
        contents::sound(d),
        merging::mergeable(d, level, ids),
        level < u64::MAX,
        model::releveled(d, threshold, level, ids) == Ok::<DiskState, Error>(next),
        merging::files_fit(next),
        d.toc.next_id <= id < next.toc.next_id,
    ensures
        model::rows_in(next.files, next.toc.infos[id]) == Ok::<Seq<RowView>, Error>(part),
        next.files[id] == table::table_bytes(part),
        part.len() > 0,
        table::table_bytes(part.drop_last()).len() <= threshold,
        id + 1 < next.toc.next_id ==> next.files[id].len() > threshold || exists|kept: TableId| {
            &&& #[trigger] d.toc.infos.contains_key(kept) && d.toc.infos[kept].level == level + 1
            &&& next.toc.infos.contains_key(kept)
            &&& order::key_less(part.last().0, d.toc.infos[kept].smallest_key)
            &&& order::key_less(d.toc.infos[kept].biggest_key, next.toc.infos[(id + 1) as u64].smallest_key)
        },
{
    let infos = d.toc.infos;
    let first = d.toc.next_id;
    let up = (level + 1) as u64;
    let lower = merging::lower_of(d, level, ids);
    let others = model::infos_of(infos, ids);
    assert forall|i: int| 0 <= i < ids.len() implies infos.contains_key(#[trigger] ids[i]) && infos[ids[i]].level
        == level by {}
    if lower.len() == 0 && !model::self_overlaps(others) {
        merging::lemma_relevel_without_overlap(d, threshold, level, ids);
    }
    let inputs = ids + lower;
    let maps = model::read_all(infos, d.files, inputs)->Ok_0;
    let kept = merging::kept_of(d, level, ids);
    let all = rows::rows_of(rows::overlay(maps));
    let parts = model::chunks(all, threshold, kept);
    merging::lemma_merged_rows(infos, d.files, inputs);
    merging::lemma_chunks(all, threshold, kept);
    lemma_chunk_sizes(all, threshold, kept);
    merging::lemma_replaced(d, parts, up, inputs, next);
    merging::lemma_files_with(d.files, parts, first);
    let n = id - first;
    let part = parts[n];
    assert(next.toc.infos[id] == table::info_of(part, id, up));
    assert(next.files[id] == table::table_bytes(part));
    assert(next.files.contains_key(id));
    table::lemma_table_round_trip(part, id, up);
    if id + 1 < next.toc.next_id && !(next.files[id].len() > threshold) {
        let after = (id + 1) as u64;
        assert(model::parted(parts[n].last().0, parts[n + 1].first().0, kept));
        let fence = lemma_fence(d, threshold, level, ids, next, parts[n].last().0, parts[n + 1].first().0);
        assert(next.toc.infos[after] == table::info_of(parts[after - first], after, up));
        assert(infos.contains_key(fence));
    }
    part
}

// Rebalancing.

/// Where level zero has more than four tables, a rebalance leaves on it the one with the highest number
/// alone. Levels above one stay as they are.
pub proof fn law_full_level_zero_keeps_the_newest(d: DiskState, threshold: usize, next: DiskState, id: TableId)
    requires
        contents::numbered(d.toc),
        tables_on(d.toc.infos, 0).len() > 4,
        model::rebalanced(d, threshold).0 == next,
        model::rebalanced(d, threshold).1 is Ok,
    ensures
        tables_on(next.toc.infos, 0).contains(id) <==> tables_on(d.toc.infos, 0).contains(id) && (forall|other: TableId|
            #[trigger] tables_on(d.toc.infos, 0).contains(other) ==> other <= id),
        next.toc.infos.contains_key(id) && next.toc.infos[id].level > 1 <==> d.toc.infos.contains_key(id)
            && d.toc.infos[id].level > 1,
        d.toc.infos.contains_key(id) && d.toc.infos[id].level > 1 ==> next.toc.infos[id] == d.toc.infos[id],
{
    let infos = d.toc.infos;
    let list = toc::ids_at(infos, 0);
    let older = model::older_on_zero(infos);
    let below = |a: TableId, b: TableId| a < b;
    lemma_count_on(infos, 0);
    toc::lemma_ids_at(infos, 0);
    merging::lemma_older_mergeable(d);
    law_relevel_changes_two_levels(d, threshold, 0, older, next, id);
    let newest = list[list.len() - 1];
    assert(list.contains(newest));
    assert forall|other: TableId| #[trigger] tables_on(infos, 0).contains(other) implies other <= newest by {
        assert(list.contains(other));
        let n = choose|n: int| 0 <= n < list.len() && list[n] == other;
        if n < list.len() - 1 {
            assert(below(list[n], list[list.len() - 1]));
        }
    }
    assert(tables_on(infos, 0).contains(newest));
    assert(older.contains(id) <==> tables_on(infos, 0).contains(id) && id != newest) by {
        if older.contains(id) {
            let n = choose|n: int| 0 <= n < older.len() && older[n] == id;
            let m = list.len() - 2 - n;
            assert(list[m] == id);
            assert(list.contains(id));
            assert(below(list[m], list[list.len() - 1]));
        }
        if tables_on(infos, 0).contains(id) && id != newest {
            assert(list.contains(id));
            let m = choose|m: int| 0 <= m < list.len() && list[m] == id;
            assert(older[list.len() - 2 - m] == id);
        }
    }
    assert(tables_on(next.toc.infos, 0).contains(id) <==> next.toc.infos.contains_key(id) && next.toc.infos[id].level
        == 0);
}

/// Where level zero has more than four tables, a rebalance fails where releveling all but the newest of
/// them fails, with the same error, and then nothing changes: so it does where two of them overlap and
/// one of the two cannot be read.
pub proof fn law_full_level_zero_reports_failure(
    d: DiskState,
    threshold: usize,
    newest: TableId,
    unreadable: TableId,
    other: TableId,
)
    requires
        contents::numbered(d.toc),
        tables_on(d.toc.infos, 0).len() > 4,
        tables_on(d.toc.infos, 0).contains(newest),
        tables_on(d.toc.infos, 0).contains(unreadable),
        tables_on(d.toc.infos, 0).contains(other),
        unreadable < newest,
        other < newest,
        unreadable != other,
        d.toc.infos[unreadable].overlaps(d.toc.infos[other]),
        model::rows_in(d.files, d.toc.infos[unreadable]) is Err,
    ensures
        model::rebalanced(d, threshold).0 == d,
        model::rebalanced(d, threshold).1 matches Err(e) && exists|id: TableId| #[trigger]
            d.toc.infos.contains_key(id) && model::rows_in(d.files, d.toc.infos[id]) == Err::<Seq<RowView>, Error>(e),
{
    let infos = d.toc.infos;
    let list = toc::ids_at(infos, 0);
    let older = model::older_on_zero(infos);
    lemma_count_on(infos, 0);
    toc::lemma_ids_at(infos, 0);
    merging::lemma_older_mergeable(d);
    lemma_older_has(infos, unreadable, newest);
    lemma_older_has(infos, other, newest);
    let i = choose|i: int| 0 <= i < older.len() && older[i] == unreadable;
    let j = choose|j: int| 0 <= j < older.len() && older[j] == other;
    assert(infos[older[i]].overlaps(infos[older[j]]) && infos[older[j]].overlaps(infos[older[i]]));
    assert(something_overlaps(infos, 0, older)) by {
        if i < j {
            assert(infos[older[i]].overlaps(infos[older[j]]));
        } else {
            assert(infos[older[j]].overlaps(infos[older[i]]));
        }
    }
    law_relevel_needs_its_tables(d, threshold, 0, older);
    let taking_part = |id: TableId|
        older.contains(id) || infos.contains_key(id) && infos[id].level == 0 + 1 && exists|i: int|
            0 <= i < older.len() && infos[id].overlaps(infos[#[trigger] older[i]]);
    let stuck = |id: TableId| taking_part(id) && model::rows_in(d.files, infos[id]) is Err;
    assert(stuck(unreadable));
    assert forall|id: TableId| #[trigger] stuck(id) implies infos.contains_key(id) by {
        if older.contains(id) {
            let n = choose|n: int| 0 <= n < older.len() && older[n] == id;
            assert(infos.contains_key(older[n]));
        }
    }
}

/// Each table of level zero but the newest is one of the older ones.
proof fn lemma_older_has(infos: Map<TableId, InfoView>, id: TableId, newer: TableId)
    requires
        infos.dom().finite(),
        infos.contains_key(id) && infos[id].level == 0,
        infos.contains_key(newer) && infos[newer].level == 0,
        id < newer,
    ensures
        model::older_on_zero(infos).contains(id),
{
    let list = toc::ids_at(infos, 0);
    let below = |a: TableId, b: TableId| a < b;
    toc::lemma_ids_at(infos, 0);
    assert(list.contains(id) && list.contains(newer));
    let m = choose|m: int| 0 <= m < list.len() && list[m] == id;
    let n = choose|n: int| 0 <= n < list.len() && list[n] == newer;
    if n < m {
        assert(below(list[n], list[m]));
    }
    assert(model::older_on_zero(infos)[list.len() - 2 - m] == id);
}

/// There is a highest level where there are tables.
proof fn lemma_max_level_exists(infos: Map<TableId, InfoView>, id: TableId)
    requires
        infos.dom().finite(),
        infos.contains_key(id),
    ensures
        toc::is_max_level(infos, toc::max_level(infos)),
{
    let list = toc::visits(infos, true);
    let less = |a: TableId, b: TableId| toc::visited_before(infos, true, a, b);
    toc::lemma_visits_exist(infos, true);
    assert(list.contains(id));
    let last = list[list.len() - 1];
    assert(list.contains(last));
    assert forall|other: TableId| #[trigger] infos.contains_key(other) implies infos[other].level <= infos[last].level by {
        assert(list.contains(other));
        let n = choose|n: int| 0 <= n < list.len() && list[n] == other;
        if n < list.len() - 1 {
            assert(less(list[n], list[list.len() - 1]));
        }
    }
    assert(infos.contains_key(last));
    toc::lemma_max_level(infos, infos[last].level);
}

/// Levels that do not have too many are passed over.
proof fn lemma_settled_skips(d: DiskState, threshold: usize, from: LevelNumber, to: LevelNumber, top: LevelNumber)
    requires
        contents::numbered(d.toc),
        1 <= from <= to <= top,
        forall|level: LevelNumber|
            from <= level < to ==> (#[trigger] tables_on(d.toc.infos, level)).len() <= 4 * power::pow(
                10,
                (level - 1) as nat,
            ),
    ensures
        model::settled(d, threshold, from, top) == model::settled(d, threshold, to, top),
    decreases to - from,
{
    if from < to {
        law_surplus_overlaps_fewest(d.toc.infos, from);
        assert(tables_on(d.toc.infos, from).len() <= 4 * power::pow(10, (from - 1) as nat));
        assert(model::surplus(d.toc.infos, from) is None);
        lemma_settled_skips(d, threshold, (from + 1) as u64, to, top);
    }
}

/// A rebalance changes nothing where level zero has at most four tables and no further level below the
/// highest has too many.
pub proof fn law_rebalance_rests(d: DiskState, threshold: usize, top: TableId)
    requires
        contents::numbered(d.toc),
        d.toc.infos.contains_key(top),
        forall|id: TableId| #[trigger] d.toc.infos.contains_key(id) ==> d.toc.infos[id].level <= d.toc.infos[top].level,
        tables_on(d.toc.infos, 0).len() <= 4,
        forall|level: LevelNumber|
            1 <= level < d.toc.infos[top].level ==> (#[trigger] tables_on(d.toc.infos, level)).len() <= 4 * power::pow(
                10,
                (level - 1) as nat,
            ),
    ensures
        model::rebalanced(d, threshold).0 == d,
        model::rebalanced(d, threshold).1 is Ok,
{
    let highest = d.toc.infos[top].level;
    lemma_count_on(d.toc.infos, 0);
    assert(toc::is_max_level(d.toc.infos, highest));
    toc::lemma_max_level(d.toc.infos, highest);
    if highest >= 1 {
        lemma_settled_skips(d, threshold, 1, highest, highest);
    }
}

/// What the levels from one on give up leaves those before it as they are.
proof fn lemma_settled_leaves_lower(
    d: DiskState,
    threshold: usize,
    level: LevelNumber,
    top: LevelNumber,
    last: DiskState,
    id: TableId,
)
    requires
        contents::numbered(d.toc),
        level > 0,
        model::settled(d, threshold, level, top).0 == last,
    ensures
        last.toc.infos.contains_key(id) && last.toc.infos[id].level < level <==> d.toc.infos.contains_key(id)
            && d.toc.infos[id].level < level,
        d.toc.infos.contains_key(id) && d.toc.infos[id].level < level ==> last.toc.infos[id] == d.toc.infos[id],
    decreases top - level,
{
    if level < top {
        let up = (level + 1) as u64;
        merging::lemma_surplus(d, level);
        match model::surplus(d.toc.infos, level) {
            None => {
                lemma_settled_leaves_lower(d, threshold, up, top, last, id);
            },
            Some(given) => {
                if let Ok(next) = model::releveled(d, threshold, level, seq![given]) {
                    merging::lemma_relevel_keeps(d, threshold, level, seq![given], next);
                    law_relevel_changes_two_levels(d, threshold, level, seq![given], next, id);
                    lemma_settled_leaves_lower(next, threshold, up, top, last, id);
                }
            },
        }
    }
}

/// Where level zero has at most four tables, the first further level that has too many and is below the
/// highest gives up one table: of those that overlap the fewest tables of the next level the one with
/// the lowest number. Its other tables, and the levels before it, stay as they are.
pub proof fn law_first_full_level_gives_up_one(
    d: DiskState,
    threshold: usize,
    next: DiskState,
    level: LevelNumber,
    higher: TableId,
    id: TableId,
) -> (given: TableId)
    requires
        contents::numbered(d.toc),
        tables_on(d.toc.infos, 0).len() <= 4,
        level >= 1,
        forall|before: LevelNumber|
            1 <= before < level ==> (#[trigger] tables_on(d.toc.infos, before)).len() <= 4 * power::pow(
                10,
                (before - 1) as nat,
            ),
        tables_on(d.toc.infos, level).len() > 4 * power::pow(10, (level - 1) as nat),
        d.toc.infos.contains_key(higher),
        d.toc.infos[higher].level > level,
        model::rebalanced(d, threshold).0 == next,
        model::rebalanced(d, threshold).1 is Ok,
    ensures
        d.toc.infos.contains_key(given) && d.toc.infos[given].level == level,
        forall|other: TableId|
            #[trigger] d.toc.infos.contains_key(other) && d.toc.infos[other].level == level && other != given ==> {
                let mine = overlapped_on(d.toc.infos, (level + 1) as u64, d.toc.infos[given]).len();
                let theirs = overlapped_on(d.toc.infos, (level + 1) as u64, d.toc.infos[other]).len();
                mine < theirs || mine == theirs && given < other
            },
        next.toc.infos.contains_key(id) && next.toc.infos[id].level <= level <==> d.toc.infos.contains_key(id)
            && d.toc.infos[id].level <= level && id != given,
        next.toc.infos.contains_key(id) && next.toc.infos[id].level <= level ==> next.toc.infos[id] == d.toc.infos[id],
{
    let infos = d.toc.infos;
    let top = toc::max_level(infos);
    let up = (level + 1) as u64;
    lemma_count_on(infos, 0);
    lemma_max_level_exists(infos, higher);
    lemma_settled_skips(d, threshold, 1, level, top);
    law_surplus_overlaps_fewest(infos, level);
    let given = model::surplus(infos, level)->Some_0;
    let middle = model::releveled(d, threshold, level, seq![given])->Ok_0;
    merging::lemma_relevel_keeps(d, threshold, level, seq![given], middle);
    law_relevel_changes_two_levels(d, threshold, level, seq![given], middle, id);
    lemma_settled_leaves_lower(middle, threshold, up, top, next, id);
    assert(seq![given].contains(id) <==> id == given) by {
        assert(seq![given][0] == given);
    }
    given
}

/// Where the table that the first full level has to give up overlaps one of the next level and cannot be
/// read, the rebalance fails with its error, and nothing changes.
pub proof fn law_full_level_reports_failure(
    d: DiskState,
    threshold: usize,
    level: LevelNumber,
    higher: TableId,
    given: TableId,
    below: TableId,
)
    requires
        contents::numbered(d.toc),
        tables_on(d.toc.infos, 0).len() <= 4,
        level >= 1,
        forall|before: LevelNumber|
            1 <= before < level ==> (#[trigger] tables_on(d.toc.infos, before)).len() <= 4 * power::pow(
                10,
                (before - 1) as nat,
            ),
        d.toc.infos.contains_key(higher),
        d.toc.infos[higher].level > level,
        model::surplus(d.toc.infos, level) == Some(given),
        d.toc.infos.contains_key(below),
        d.toc.infos[below].level == level + 1,
        d.toc.infos[below].overlaps(d.toc.infos[given]),
        model::rows_in(d.files, d.toc.infos[given]) is Err,
    ensures
        model::rebalanced(d, threshold).0 == d,
        model::rebalanced(d, threshold).1 == Err::<(), Error>(
            model::rows_in(d.files, d.toc.infos[given])->Err_0,
        ),
{
    let infos = d.toc.infos;
    let top = toc::max_level(infos);
    let ids = seq![given];
    let inputs = merging::inputs_of(d, level, ids);
    lemma_count_on(infos, 0);
    lemma_max_level_exists(infos, higher);
    lemma_settled_skips(d, threshold, 1, level, top);
    assert(infos.contains_key(below) && infos[below].overlaps(infos[ids[0]]));
    assert(something_overlaps(infos, level, ids));
    lemma_something_overlaps(d, level, ids);
    assert(inputs.take(1) =~= ids);
    assert(ids.drop_last() =~= Seq::<TableId>::empty());
    assert(model::read_all(infos, d.files, Seq::<TableId>::empty()) is Ok);
    assert(model::read_all(infos, d.files, ids) == Err::<Seq<rows::Changes>, Error>(
        model::rows_in(d.files, infos[given])->Err_0,
    ));
    model::lemma_read_all_stuck(infos, d.files, inputs, 1);
}

/// What the first full level has given up stays so, whether or not a level behind it fails to give up one
/// of its own.
pub proof fn law_what_was_given_up_stays_so(
    d: DiskState,
    threshold: usize,
    level: LevelNumber,
    higher: TableId,
    given: TableId,
    id: TableId,
)
    requires
        contents::numbered(d.toc),
        tables_on(d.toc.infos, 0).len() <= 4,
        level >= 1,
        forall|before: LevelNumber|
            1 <= before < level ==> (#[trigger] tables_on(d.toc.infos, before)).len() <= 4 * power::pow(
                10,
                (before - 1) as nat,
            ),
        d.toc.infos.contains_key(higher),
        d.toc.infos[higher].level > level,
        model::surplus(d.toc.infos, level) == Some(given),
        model::releveled(d, threshold, level, seq![given]) is Ok,
    ensures
        ({
            let next = model::rebalanced(d, threshold).0;
            &&& next.toc.infos.contains_key(id) && next.toc.infos[id].level <= level <==> d.toc.infos.contains_key(id)
                && d.toc.infos[id].level <= level && id != given
            &&& next.toc.infos.contains_key(id) && next.toc.infos[id].level <= level ==> next.toc.infos[id]
                == d.toc.infos[id]
        }),
{
    let infos = d.toc.infos;
    let top = toc::max_level(infos);
    let up = (level + 1) as u64;
    lemma_count_on(infos, 0);
    lemma_max_level_exists(infos, higher);
    lemma_settled_skips(d, threshold, 1, level, top);
    law_surplus_overlaps_fewest(infos, level);
    let middle = model::releveled(d, threshold, level, seq![given])->Ok_0;
    merging::lemma_relevel_keeps(d, threshold, level, seq![given], middle);
    law_relevel_changes_two_levels(d, threshold, level, seq![given], middle, id);
    lemma_settled_leaves_lower(middle, threshold, up, top, model::rebalanced(d, threshold).0, id);
    assert(seq![given].contains(id) <==> id == given) by {
        assert(seq![given][0] == given);
    }
}

/// The state in which a level is come to.
proof fn lemma_settled_reaches(
    d: DiskState,
    threshold: usize,
    from: LevelNumber,
    level: LevelNumber,
    top: LevelNumber,
) -> (middle: DiskState)
    requires
        contents::numbered(d.toc),
        1 <= from <= level <= top,
        model::settled(d, threshold, from, top).1 is Ok,
    ensures
        contents::numbered(middle.toc),
        model::settled(middle, threshold, level, top) == model::settled(d, threshold, from, top),
        forall|id: TableId| #[trigger]
            middle.toc.infos.contains_key(id) && middle.toc.infos[id].level > level ==> d.toc.infos.contains_key(id)
                && d.toc.infos[id] == middle.toc.infos[id],
        forall|id: TableId| #[trigger]
            d.toc.infos.contains_key(id) && d.toc.infos[id].level > level ==> middle.toc.infos.contains_key(id)
                && d.toc.infos[id] == middle.toc.infos[id],
        from == level || tables_on(middle.toc.infos, (level - 1) as u64).len() < 4 * power::pow(10, (level - 2) as nat)
            ==> {
            &&& forall|id: TableId| #[trigger]
                middle.toc.infos.contains_key(id) && middle.toc.infos[id].level == level
                    ==> d.toc.infos.contains_key(id) && d.toc.infos[id] == middle.toc.infos[id]
            &&& forall|id: TableId| #[trigger]
                d.toc.infos.contains_key(id) && d.toc.infos[id].level == level ==> middle.toc.infos.contains_key(id)
                    && d.toc.infos[id] == middle.toc.infos[id]
        },
    decreases level - from,
{
    if from == level {
        d
    } else {
        let below = (level - 1) as u64;
        let before = lemma_settled_reaches(d, threshold, from, below, top);
        law_surplus_overlaps_fewest(before.toc.infos, below);
        match model::surplus(before.toc.infos, below) {
            None => before,
            Some(given) => {
                let middle = model::releveled(before, threshold, below, seq![given])->Ok_0;
                merging::lemma_relevel_keeps(before, threshold, below, seq![given], middle);
                assert forall|id: TableId| true implies #[trigger] tables_on(middle.toc.infos, below).contains(id)
                    == tables_on(before.toc.infos, below).remove(given).contains(id) by {
                    law_relevel_changes_two_levels(before, threshold, below, seq![given], middle, id);
                    assert(seq![given].contains(id) <==> id == given) by {
                        assert(seq![given][0] == given);
                    }
                }
                assert(tables_on(middle.toc.infos, below) =~= tables_on(before.toc.infos, below).remove(given));
                assert(tables_on(before.toc.infos, below).finite()) by {
                    vstd::set_lib::lemma_set_subset_finite(before.toc.infos.dom(), tables_on(before.toc.infos, below));
                }
                assert forall|id: TableId| #[trigger]
                    middle.toc.infos.contains_key(id) && middle.toc.infos[id].level
                        > level implies d.toc.infos.contains_key(id) && d.toc.infos[id] == middle.toc.infos[id] by {
                    law_relevel_changes_two_levels(before, threshold, below, seq![given], middle, id);
                    assert(before.toc.infos.contains_key(id));
                }
                assert forall|id: TableId| #[trigger]
                    d.toc.infos.contains_key(id) && d.toc.infos[id].level > level implies middle.toc.infos.contains_key(
                    id,
                ) && d.toc.infos[id] == middle.toc.infos[id] by {
                    law_relevel_changes_two_levels(before, threshold, below, seq![given], middle, id);
                    assert(before.toc.infos.contains_key(id));
                }
                middle
            },
        }
    }
}

/// One rebalance settles all the levels. Where level zero has at most four tables, each further level
/// below the highest that is handed nothing by the level before gives up one table where it has too
/// many: of those that overlap the fewest tables of the next level the one with the lowest number. Its
/// other tables stay. Where it does not have too many all of them stay. A level has handed nothing down
/// where it is left with fewer tables than it may have.
pub proof fn law_each_full_level_gives_up_one(
    d: DiskState,
    threshold: usize,
    next: DiskState,
    level: LevelNumber,
    higher: TableId,
    id: TableId,
)
    requires
        contents::numbered(d.toc),
        tables_on(d.toc.infos, 0).len() <= 4,
        level >= 1,
        d.toc.infos.contains_key(higher),
        d.toc.infos[higher].level > level,
        model::rebalanced(d, threshold).0 == next,
        model::rebalanced(d, threshold).1 is Ok,
        level > 1 ==> tables_on(next.toc.infos, (level - 1) as u64).len() < 4 * power::pow(10, (level - 2) as nat),
    ensures
        next.toc.infos.contains_key(id) && next.toc.infos[id].level == level ==> d.toc.infos.contains_key(id)
            && d.toc.infos[id] == next.toc.infos[id],
        d.toc.infos.contains_key(id) && d.toc.infos[id].level == level ==> {
            let stays = next.toc.infos.contains_key(id) && next.toc.infos[id] == d.toc.infos[id];
            let fewest = forall|other: TableId|
                #[trigger] d.toc.infos.contains_key(other) && d.toc.infos[other].level == level && other != id ==> {
                    let mine = overlapped_on(d.toc.infos, (level + 1) as u64, d.toc.infos[id]).len();
                    let theirs = overlapped_on(d.toc.infos, (level + 1) as u64, d.toc.infos[other]).len();
                    mine < theirs || mine == theirs && id < other
                };
            stays <==> !(tables_on(d.toc.infos, level).len() > 4 * power::pow(10, (level - 1) as nat) && fewest)
        },
{
    let infos = d.toc.infos;
    let top = toc::max_level(infos);
    let up = (level + 1) as u64;
    lemma_count_on(infos, 0);
    lemma_max_level_exists(infos, higher);
    let middle = lemma_settled_reaches(d, threshold, 1, level, top);
    let there = middle.toc.infos;
    if level > 1 {
        let below = (level - 1) as u64;
        assert forall|x: TableId| true implies #[trigger] tables_on(there, below).contains(x) == tables_on(
            next.toc.infos,
            below,
        ).contains(x) by {
            lemma_settled_leaves_lower(middle, threshold, level, top, next, x);
        }
        assert(tables_on(there, below) =~= tables_on(next.toc.infos, below));
    }
    assert forall|x: TableId| true implies #[trigger] tables_on(there, level).contains(x) == tables_on(
        infos,
        level,
    ).contains(x) by {
        assert(there.contains_key(x) && there[x].level == level ==> infos.contains_key(x) && infos[x] == there[x]);
        assert(infos.contains_key(x) && infos[x].level == level ==> there.contains_key(x) && infos[x] == there[x]);
    }
    assert(tables_on(there, level) =~= tables_on(infos, level));
    assert forall|by: InfoView| true implies #[trigger] overlapped_on(there, up, by) == overlapped_on(infos, up, by) by {
        assert forall|x: TableId| overlapped_on(there, up, by).contains(x) <==> overlapped_on(infos, up, by).contains(
            x,
        ) by {
            assert(there.contains_key(x) && there[x].level == up ==> infos.contains_key(x) && infos[x] == there[x]);
            assert(infos.contains_key(x) && infos[x].level == up ==> there.contains_key(x) && infos[x] == there[x]);
        }
        assert(overlapped_on(there, up, by) =~= overlapped_on(infos, up, by));
    }
    law_surplus_overlaps_fewest(there, level);
    match model::surplus(there, level) {
        None => {
            lemma_settled_leaves_lower(middle, threshold, up, top, next, id);
        },
        Some(given) => {
            let after = model::releveled(middle, threshold, level, seq![given])->Ok_0;
            merging::lemma_relevel_keeps(middle, threshold, level, seq![given], after);
            law_relevel_changes_two_levels(middle, threshold, level, seq![given], after, id);
            lemma_settled_leaves_lower(after, threshold, up, top, next, id);
            assert(seq![given].contains(id) <==> id == given) by {
                assert(seq![given][0] == given);
            }
            if infos.contains_key(id) && infos[id].level == level && id != given {
                assert(there.contains_key(id) && there.contains_key(given));
                assert(infos.contains_key(given) && infos[given].level == level);
            }
            if id == given {
                assert forall|other: TableId|
                    #[trigger] infos.contains_key(other) && infos[other].level == level && other != id implies {
                    let mine = overlapped_on(infos, up, infos[id]).len();
                    let theirs = overlapped_on(infos, up, infos[other]).len();
                    mine < theirs || mine == theirs && id < other
                } by {
                    assert(there.contains_key(other));
                }
            }
        },
    }
}

} // verus!
