//! The table of contents: which tables there are, and on which level each stands.
//!
//! It is kept as a log. Each entry of the log takes tables away and adds others, and the table of
//! contents is what the entries amount to, one after the other.
use crate::order;
use crate::table::{InfoView, LevelNumber, TableId, TableInfo};
use vstd::prelude::*;

verus! {

/// The model of a table of contents: what is recorded of each table, and the number for the next.
pub struct TocState {
    pub infos: Map<TableId, InfoView>,
    pub next_id: TableId,
}

/// An entry of the log: the tables to take away and then the tables to add.
#[derive(Debug)]
pub struct Entry {
    pub removals: Vec<TableId>,
    pub additions: Vec<TableInfo>,
}

/// The model of an [`Entry`].
pub struct EntryView {
    pub removals: Seq<TableId>,
    pub additions: Seq<InfoView>,
}

/// The models of what is recorded of several tables.
pub open spec fn info_views(infos: Seq<TableInfo>) -> Seq<InfoView> {
    Seq::new(infos.len(), |i: int| infos[i]@)
}

impl View for Entry {
    type V = EntryView;

    open spec fn view(&self) -> EntryView {
        EntryView { removals: self.removals@, additions: info_views(self.additions@) }
    }
}

/// A table of contents that lists nothing.
pub open spec fn empty_toc() -> TocState {
    TocState { infos: Map::empty(), next_id: 0 }
}

/// The table of contents with one more table. A table that had the same number is replaced.
pub open spec fn with_table(toc: TocState, info: InfoView) -> TocState {
    TocState {
        infos: toc.infos.insert(info.id, info),
        next_id: if info.id < toc.next_id {
            toc.next_id
        } else {
            (info.id + 1) as u64
        },
    }
}

/// The table of contents with more tables.
pub open spec fn with_tables(toc: TocState, infos: Seq<InfoView>) -> TocState
    decreases infos.len(),
{
    if infos.len() == 0 {
        toc
    } else {
        with_table(with_tables(toc, infos.drop_last()), infos.last())
    }
}

/// The table of contents after an entry of its log.
pub open spec fn after_entry(toc: TocState, entry: EntryView) -> TocState {
    with_tables(
        TocState { infos: toc.infos.remove_keys(entry.removals.to_set()), next_id: toc.next_id },
        entry.additions,
    )
}

/// Numbers that increase strictly.
pub open spec fn ascending(ids: Seq<TableId>) -> bool {
    order::ordered(ids, |a: TableId, b: TableId| a < b)
}

/// The members of a set of numbers, in increasing order.
pub open spec fn id_list(ids: Set<TableId>) -> Seq<TableId> {
    choose|list: Seq<TableId>| ascending(list) && #[trigger] list.to_set() == ids
}

/// The tables of a level, in the order of their numbers.
pub open spec fn ids_at(infos: Map<TableId, InfoView>, level: LevelNumber) -> Seq<TableId> {
    id_list(infos.dom().filter(|id: TableId| infos[id].level == level))
}

/// The table `a` is visited before the table `b`: lower levels come first. On level zero, or on
/// every level where `newest_first` says so, the tables with higher numbers come first; on the
/// others, those with lower numbers.
pub open spec fn visited_before(infos: Map<TableId, InfoView>, newest_first: bool, a: TableId, b: TableId) -> bool {
    infos[a].level < infos[b].level || infos[a].level == infos[b].level && if newest_first || infos[a].level == 0 {
        a > b
    } else {
        a < b
    }
}

/// All the tables, in the order in which they are visited.
pub open spec fn visits(infos: Map<TableId, InfoView>, newest_first: bool) -> Seq<TableId> {
    choose|list: Seq<TableId>|
        order::ordered(list, |a: TableId, b: TableId| visited_before(infos, newest_first, a, b))
            && #[trigger] list.to_set() == infos.dom()
}

/// The highest level that has a table.
pub open spec fn is_max_level(infos: Map<TableId, InfoView>, level: LevelNumber) -> bool {
    &&& exists|id: TableId| #[trigger] infos.contains_key(id) && infos[id].level == level
    &&& forall|id: TableId| #[trigger] infos.contains_key(id) ==> infos[id].level <= level
}

/// The highest level that has a table, where there are tables.
pub open spec fn max_level(infos: Map<TableId, InfoView>) -> LevelNumber {
    choose|level: LevelNumber| is_max_level(infos, level)
}

/// After an entry the tables that it adds are listed as it says, of those with the same number the
/// last one, and so are the earlier tables that it neither takes away nor replaces. The next number is
/// beyond all that were added.
pub proof fn law_entry_takes_away_and_adds(contents: TocState, entry: EntryView, id: TableId)
    requires
        ids_bounded(entry.additions),
    ensures
        ({
            let next = after_entry(contents, entry);
            &&& forall|i: int|
                0 <= i < entry.additions.len() && (#[trigger] entry.additions[i]).id == id && (forall|j: int|
                    i < j < entry.additions.len() ==> (#[trigger] entry.additions[j]).id != id)
                    ==> next.infos.contains_key(id) && next.infos[id] == entry.additions[i]
            &&& (forall|i: int| 0 <= i < entry.additions.len() ==> (#[trigger] entry.additions[i]).id != id) ==> {
                &&& next.infos.contains_key(id) <==> contents.infos.contains_key(id) && !entry.removals.contains(id)
                &&& next.infos.contains_key(id) ==> next.infos[id] == contents.infos[id]
            }
            &&& next.next_id >= contents.next_id
            &&& forall|i: int| 0 <= i < entry.additions.len() ==> (#[trigger] entry.additions[i]).id < next.next_id
            &&& next.next_id == contents.next_id || exists|i: int|
                0 <= i < entry.additions.len() && (#[trigger] entry.additions[i]).id + 1 == next.next_id
        }),
{
    let base = TocState { infos: contents.infos.remove_keys(entry.removals.to_set()), next_id: contents.next_id };
    assert(entry.removals.to_set().contains(id) <==> entry.removals.contains(id));
    lemma_with_tables(base, entry.additions, id);
    lemma_next_number(base, entry.additions);
}

proof fn lemma_with_tables(base: TocState, added: Seq<InfoView>, id: TableId)
    ensures
        ({
            let next = with_tables(base, added);
            &&& forall|i: int|
                0 <= i < added.len() && (#[trigger] added[i]).id == id && (forall|j: int|
                    i < j < added.len() ==> (#[trigger] added[j]).id != id) ==> next.infos.contains_key(id)
                    && next.infos[id] == added[i]
            &&& (forall|i: int| 0 <= i < added.len() ==> (#[trigger] added[i]).id != id) ==> {
                &&& next.infos.contains_key(id) <==> base.infos.contains_key(id)
                &&& next.infos.contains_key(id) ==> next.infos[id] == base.infos[id]
            }
        }),
    decreases added.len(),
{
    if added.len() > 0 {
        let front = added.drop_last();
        let last = added[added.len() - 1];
        lemma_with_tables(base, front, id);
        let before = with_tables(base, front);
        let next = with_tables(base, added);
        assert(next == with_table(before, last));
        assert forall|i: int|
            0 <= i < added.len() && (#[trigger] added[i]).id == id && (forall|j: int|
                i < j < added.len() ==> (#[trigger] added[j]).id != id) implies next.infos.contains_key(id)
            && next.infos[id] == added[i] by {
            if i < front.len() {
                assert(added[added.len() - 1].id != id);
                assert(front[i].id == id);
                assert forall|j: int| i < j < front.len() implies (#[trigger] front[j]).id != id by {
                    assert(added[j].id != id);
                }
            }
        }
        if forall|i: int| 0 <= i < added.len() ==> (#[trigger] added[i]).id != id {
            assert forall|i: int| 0 <= i < front.len() implies (#[trigger] front[i]).id != id by {
                assert(added[i].id != id);
            }
        }
    }
}

proof fn lemma_next_number(base: TocState, added: Seq<InfoView>)
    requires
        ids_bounded(added),
    ensures
        ({
            let next = with_tables(base, added);
            &&& next.next_id >= base.next_id
            &&& forall|i: int| 0 <= i < added.len() ==> (#[trigger] added[i]).id < next.next_id
            &&& next.next_id == base.next_id || exists|i: int|
                0 <= i < added.len() && (#[trigger] added[i]).id + 1 == next.next_id
        }),
    decreases added.len(),
{
    if added.len() > 0 {
        let front = added.drop_last();
        let last = added[added.len() - 1];
        assert(last.id < u64::MAX);
        assert forall|i: int| 0 <= i < front.len() implies (#[trigger] front[i]).id < u64::MAX by {
            assert(added[i].id < u64::MAX);
        }
        lemma_next_number(base, front);
        let before = with_tables(base, front);
        let next = with_tables(base, added);
        assert(next == with_table(before, last));
        assert forall|i: int| 0 <= i < added.len() implies (#[trigger] added[i]).id < next.next_id by {
            if i < front.len() {
                assert(front[i].id < before.next_id);
            }
        }
        if next.next_id != base.next_id && last.id < before.next_id {
            let i = choose|i: int| 0 <= i < front.len() && (#[trigger] front[i]).id + 1 == before.next_id;
            assert(added[i].id + 1 == next.next_id);
        }
    }
}

/// There is one list of a set's members in increasing order.
pub proof fn lemma_id_list(list: Seq<TableId>)
    requires
        ascending(list),
    ensures
        id_list(list.to_set()) == list,
{
    let found = id_list(list.to_set());
    assert(ascending(found) && found.to_set() == list.to_set());
    assert forall|x: TableId| found.contains(x) <==> list.contains(x) by {
        assert(found.to_set().contains(x) <==> list.to_set().contains(x));
    }
    order::lemma_ordered_unique(found, list, |a: TableId, b: TableId| a < b);
}

/// There is one order in which all the tables are visited.
pub proof fn lemma_visits(infos: Map<TableId, InfoView>, newest_first: bool, list: Seq<TableId>)
    requires
        order::ordered(list, |a: TableId, b: TableId| visited_before(infos, newest_first, a, b)),
        list.to_set() == infos.dom(),
    ensures
        visits(infos, newest_first) == list,
{
    let less = |a: TableId, b: TableId| visited_before(infos, newest_first, a, b);
    let found = visits(infos, newest_first);
    assert(order::ordered(found, less) && found.to_set() == infos.dom());
    assert forall|x: TableId| found.contains(x) <==> list.contains(x) by {
        assert(found.to_set().contains(x) <==> list.to_set().contains(x));
    }
    order::lemma_ordered_unique(found, list, less);
}

/// The members of a finite set of numbers can be listed in increasing order.
pub proof fn lemma_id_list_exists(ids: Set<TableId>)
    requires
        ids.finite(),
    ensures
        ascending(id_list(ids)),
        id_list(ids).to_set() == ids,
{
    let list = order::lemma_order_exists(ids, |a: TableId, b: TableId| a < b);
    assert(ascending(list) && list.to_set() == ids);
}

/// The tables of a level are listed in the order of their numbers.
pub proof fn lemma_ids_at(infos: Map<TableId, InfoView>, level: LevelNumber)
    requires
        infos.dom().finite(),
    ensures
        ascending(ids_at(infos, level)),
        forall|id: TableId| #[trigger]
            ids_at(infos, level).contains(id) <==> infos.contains_key(id) && infos[id].level == level,
{
    let members = infos.dom().filter(|id: TableId| infos[id].level == level);
    lemma_id_list_exists(members);
    assert forall|id: TableId| #[trigger] ids_at(infos, level).contains(id) <==> infos.contains_key(id)
        && infos[id].level == level by {
        assert(ids_at(infos, level).to_set().contains(id) <==> members.contains(id));
    }
}

/// All the tables can be visited in order.
pub proof fn lemma_visits_exist(infos: Map<TableId, InfoView>, newest_first: bool)
    requires
        infos.dom().finite(),
    ensures
        order::ordered(
            visits(infos, newest_first),
            |a: TableId, b: TableId| visited_before(infos, newest_first, a, b),
        ),
        forall|id: TableId| #[trigger] visits(infos, newest_first).contains(id) <==> infos.contains_key(id),
{
    let less = |a: TableId, b: TableId| visited_before(infos, newest_first, a, b);
    let list = order::lemma_order_exists(infos.dom(), less);
    assert(order::ordered(list, less) && list.to_set() == infos.dom());
    let found = visits(infos, newest_first);
    assert(order::ordered(found, less) && found.to_set() == infos.dom());
    assert forall|id: TableId| #[trigger] found.contains(id) <==> infos.contains_key(id) by {
        assert(found.to_set().contains(id) <==> infos.dom().contains(id));
    }
}

/// The list of a level's tables has each of them once, and those with lower numbers come first.
pub proof fn law_tables_of_a_level(infos: Map<TableId, InfoView>, level: LevelNumber, i: int, j: int, id: TableId)
    requires
        infos.dom().finite(),
        0 <= i < j < ids_at(infos, level).len(),
    ensures
        ids_at(infos, level)[i] < ids_at(infos, level)[j],
        ids_at(infos, level).contains(id) <==> infos.contains_key(id) && infos[id].level == level,
{
    let below = |a: TableId, b: TableId| a < b;
    lemma_ids_at(infos, level);
    assert(below(ids_at(infos, level)[i], ids_at(infos, level)[j]));
}

/// All the tables are visited, each of them once. Those of lower levels come first, and of those of the
/// same level the ones with higher numbers where that level is zero or the newest are asked for first,
/// and otherwise the ones with lower numbers.
pub proof fn law_order_of_visits(infos: Map<TableId, InfoView>, newest_first: bool, i: int, j: int, id: TableId)
    requires
        infos.dom().finite(),
        0 <= i < j < visits(infos, newest_first).len(),
    ensures
        visits(infos, newest_first).contains(id) <==> infos.contains_key(id),
        ({
            let a = visits(infos, newest_first)[i];
            let b = visits(infos, newest_first)[j];
            &&& infos[a].level <= infos[b].level
            &&& infos[a].level == infos[b].level && (newest_first || infos[a].level == 0) ==> a > b
            &&& infos[a].level == infos[b].level && !newest_first && infos[a].level > 0 ==> a < b
        }),
{
    let less = |a: TableId, b: TableId| visited_before(infos, newest_first, a, b);
    lemma_visits_exist(infos, newest_first);
    assert(less(visits(infos, newest_first)[i], visits(infos, newest_first)[j]));
}

/// There is one highest level.
pub proof fn lemma_max_level(infos: Map<TableId, InfoView>, level: LevelNumber)
    requires
        is_max_level(infos, level),
    ensures
        max_level(infos) == level,
{
    let found = max_level(infos);
    assert(is_max_level(infos, found));
}

/// The added tables leave room for the number of the next one.
pub open spec fn ids_bounded(infos: Seq<InfoView>) -> bool {
    forall|i: int| 0 <= i < infos.len() ==> (#[trigger] infos[i]).id < u64::MAX
}

/// What is recorded of the tables, by their numbers.
pub open spec fn by_id(infos: Seq<InfoView>) -> Map<TableId, InfoView>
    decreases infos.len(),
{
    if infos.len() == 0 {
        Map::empty()
    } else {
        by_id(infos.drop_last()).insert(infos.last().id, infos.last())
    }
}

/// The numbers of the tables increase strictly.
pub open spec fn ids_ascend(infos: Seq<InfoView>) -> bool {
    forall|i: int, j: int| 0 <= i < j < infos.len() ==> (#[trigger] infos[i]).id < (#[trigger] infos[j]).id
}

proof fn lemma_by_id(infos: Seq<InfoView>)
    requires
        ids_ascend(infos),
    ensures
        forall|i: int|
            0 <= i < infos.len() ==> by_id(infos).contains_key((#[trigger] infos[i]).id) && by_id(infos)[infos[i].id]
                == infos[i],
        forall|id: TableId| #[trigger]
            by_id(infos).contains_key(id) ==> exists|i: int| 0 <= i < infos.len() && (#[trigger] infos[i]).id == id,
        by_id(infos).dom().finite(),
    decreases infos.len(),
{
    if infos.len() > 0 {
        let front = infos.drop_last();
        assert forall|i: int, j: int| 0 <= i < j < front.len() implies (#[trigger] front[i]).id < (
        #[trigger] front[j]).id by {
            assert(infos[i].id < infos[j].id);
        }
        lemma_by_id(front);
        assert forall|i: int| 0 <= i < infos.len() implies by_id(infos).contains_key((#[trigger] infos[i]).id)
            && by_id(infos)[infos[i].id] == infos[i] by {
            if i < front.len() {
                assert(front[i] == infos[i]);
                assert(infos[i].id < infos[infos.len() - 1].id);
            }
        }
        assert forall|id: TableId| #[trigger] by_id(infos).contains_key(id) implies exists|i: int|
            0 <= i < infos.len() && (#[trigger] infos[i]).id == id by {
            if id == infos.last().id {
                assert(infos[infos.len() - 1].id == id);
            } else {
                assert(by_id(front).contains_key(id));
                let i = choose|i: int| 0 <= i < front.len() && (#[trigger] front[i]).id == id;
                assert(infos[i].id == id);
            }
        }
    }
}

/// Putting in what is recorded of a table where its number belongs.
proof fn lemma_insert_by_id(before: Seq<InfoView>, at: int, info: InfoView)
    requires
        ids_ascend(before),
        0 <= at <= before.len(),
        forall|i: int| 0 <= i < at ==> (#[trigger] before[i]).id < info.id,
        forall|i: int| at <= i < before.len() ==> (#[trigger] before[i]).id > info.id,
    ensures
        ids_ascend(before.insert(at, info)),
        by_id(before.insert(at, info)) == by_id(before).insert(info.id, info),
{
    let after = before.insert(at, info);
    assert forall|i: int, j: int| 0 <= i < j < after.len() implies (#[trigger] after[i]).id < (#[trigger] after[j]).id by {
        if i != at && j != at {
            let i2 = if i < at { i } else { i - 1 };
            let j2 = if j < at { j } else { j - 1 };
            assert(before[i2].id < before[j2].id);
        } else if i == at {
            assert(after[j] == before[j - 1]);
        } else {
            assert(after[i] == before[i]);
        }
    }
    lemma_by_id(before);
    lemma_by_id(after);
    assert(after[at] == info);
    assert forall|k: TableId| by_id(after).contains_key(k) <==> by_id(before).insert(info.id, info).contains_key(k) by {
        if by_id(after).contains_key(k) && k != info.id {
            let i = choose|i: int| 0 <= i < after.len() && (#[trigger] after[i]).id == k;
            let i2 = if i < at { i } else { i - 1 };
            assert(before[i2] == after[i]);
        }
        if by_id(before).contains_key(k) {
            let i = choose|i: int| 0 <= i < before.len() && (#[trigger] before[i]).id == k;
            let i2 = if i < at { i } else { i + 1 };
            assert(after[i2] == before[i]);
        }
    }
    assert forall|k: TableId| by_id(after).contains_key(k) implies by_id(after)[k] == by_id(before).insert(
        info.id,
        info,
    )[k] by {
        if k != info.id {
            let i = choose|i: int| 0 <= i < after.len() && (#[trigger] after[i]).id == k;
            let i2 = if i < at { i } else { i - 1 };
            assert(before[i2] == after[i]);
        }
    }
    assert(by_id(after) =~= by_id(before).insert(info.id, info));
}

/// The table of contents.
pub struct TOC {
    pub table_infos: Vec<TableInfo>,
    pub next_table_id: TableId,
}

impl View for TOC {
    type V = TocState;

    open spec fn view(&self) -> TocState {
        TocState { infos: by_id(info_views(self.table_infos@)), next_id: self.next_table_id }
    }
}

impl TOC {
    /// The tables are listed in the order of their numbers, all of which are below the next one.
    pub open spec fn wf(self) -> bool {
        &&& ids_ascend(info_views(self.table_infos@))
        &&& forall|i: int| 0 <= i < self.table_infos.len() ==> (#[trigger] self.table_infos[i]).id < self.next_table_id
    }

    /// The listed tables are those of the model.
    pub proof fn lemma_listed(self)
        requires
            self.wf(),
        ensures
            forall|i: int|
                0 <= i < self.table_infos.len() ==> self@.infos.contains_key((#[trigger] self.table_infos[i]).id)
                    && self@.infos[self.table_infos[i].id] == self.table_infos[i]@,
            forall|id: TableId| #[trigger]
                self@.infos.contains_key(id) ==> id < self@.next_id && self@.infos[id].id == id && exists|i: int|
                    0 <= i < self.table_infos.len() && (#[trigger] self.table_infos[i]).id == id,
            self@.infos.dom().finite(),
    {
        let v = info_views(self.table_infos@);
        lemma_by_id(v);
        assert forall|i: int| 0 <= i < self.table_infos.len() implies self@.infos.contains_key(
            (#[trigger] self.table_infos[i]).id,
        ) && self@.infos[self.table_infos[i].id] == self.table_infos[i]@ by {
            assert(v[i] == self.table_infos[i]@);
        }
        assert forall|id: TableId| #[trigger] self@.infos.contains_key(id) implies id < self@.next_id
            && self@.infos[id].id == id && exists|i: int|
            0 <= i < self.table_infos.len() && (#[trigger] self.table_infos[i]).id == id by {
            let i = choose|i: int| 0 <= i < v.len() && (#[trigger] v[i]).id == id;
            assert(self.table_infos[i].id == id);
        }
    }

    /// The listed tables come in the order of their numbers.
    pub proof fn lemma_id_order(self)
        requires
            self.wf(),
        ensures
            id_list(self@.infos.dom()) == Seq::new(self.table_infos@.len(), |i: int| self.table_infos[i].id),
    {
        self.lemma_listed();
        let v = info_views(self.table_infos@);
        let ids = Seq::new(self.table_infos@.len(), |i: int| self.table_infos[i].id);
        assert forall|i: int, j: int| 0 <= i < j < ids.len() implies #[trigger] ids[i] < #[trigger] ids[j] by {
            assert(v[i].id < v[j].id);
        }
        assert(ids.to_set() =~= self@.infos.dom()) by {
            assert forall|id: TableId| ids.to_set().contains(id) <==> self@.infos.dom().contains(id) by {
                if ids.contains(id) {
                    let i = choose|i: int| 0 <= i < ids.len() && ids[i] == id;
                    assert(self@.infos.contains_key(self.table_infos[i].id));
                }
                if self@.infos.contains_key(id) {
                    let i = choose|i: int| 0 <= i < self.table_infos.len() && (#[trigger] self.table_infos[i]).id == id;
                    assert(ids[i] == id);
                }
            }
        }
        lemma_id_list(ids);
    }

    /// A table of contents that lists nothing.
    pub fn new() -> (toc: TOC)
        ensures
            toc.wf(),
            toc@ == empty_toc(),
    {
        let toc = TOC { table_infos: Vec::new(), next_table_id: 0 };
        assert(info_views(toc.table_infos@) =~= Seq::<InfoView>::empty());
        toc
    }

    /// How many of the listed tables have a number below `id`.
    fn position(&self, id: TableId) -> (at: usize)
        requires
            self.wf(),
        ensures
            at <= self.table_infos.len(),
            forall|i: int| 0 <= i < at ==> (#[trigger] self.table_infos[i]).id < id,
            forall|i: int| at <= i < self.table_infos.len() ==> (#[trigger] self.table_infos[i]).id >= id,
    {
        let ghost v = info_views(self.table_infos@);
        let mut low: usize = 0;
        let mut high: usize = self.table_infos.len();
        while low < high
            invariant
                self.wf(),
                v == info_views(self.table_infos@),
                low <= high <= self.table_infos.len(),
                forall|i: int| 0 <= i < low ==> (#[trigger] self.table_infos[i]).id < id,
                forall|i: int| high <= i < self.table_infos.len() ==> (#[trigger] self.table_infos[i]).id >= id,
            decreases high - low,
        {
            let mid: usize = low + (high - low) / 2;
            if self.table_infos[mid].id < id {
                assert forall|i: int| 0 <= i < mid + 1 implies (#[trigger] self.table_infos[i]).id < id by {
                    if i < mid {
                        assert(v[i].id < v[mid as int].id);
                    }
                }
                low = mid + 1;
            } else {
                assert forall|i: int| mid <= i < self.table_infos.len() implies (#[trigger] self.table_infos[i]).id
                    >= id by {
                    if mid < i {
                        assert(v[mid as int].id < v[i].id);
                    }
                }
                high = mid;
            }
        }
        low
    }

    /// What is recorded of a table.
    pub fn find(&self, id: TableId) -> (found: Option<&TableInfo>)
        requires
            self.wf(),
        ensures
            match found {
                Some(info) => self@.infos.contains_key(id) && self@.infos[id] == info@,
                None => !self@.infos.contains_key(id),
            },
    {
        proof {
            self.lemma_listed();
        }
        let at: usize = self.position(id);
        if at < self.table_infos.len() && self.table_infos[at].id == id {
            Some(&self.table_infos[at])
        } else {
            proof {
                if self@.infos.contains_key(id) {
                    let i = choose|i: int| 0 <= i < self.table_infos.len() && (#[trigger] self.table_infos[i]).id == id;
                    if at < i {
                        let v = info_views(self.table_infos@);
                        assert(v[at as int].id < v[i].id);
                    }
                }
            }
            None
        }
    }

    /// Takes a table away.
    fn remove(&mut self, id: TableId)
        requires
            old(self).wf(),
        ensures
            final(self).wf(),
            final(self)@ == (TocState { infos: old(self)@.infos.remove(id), next_id: old(self)@.next_id }),
    {
        let ghost before = info_views(self.table_infos@);
        proof {
            self.lemma_listed();
        }
        let at: usize = self.position(id);
        if at < self.table_infos.len() && self.table_infos[at].id == id {
            self.table_infos.remove(at);
            let ghost after = info_views(self.table_infos@);
            proof {
                assert(after =~= before.remove(at as int));
                assert(ids_ascend(after)) by {
                    assert forall|i: int, j: int| 0 <= i < j < after.len() implies (#[trigger] after[i]).id < (
                    #[trigger] after[j]).id by {
                        let i2 = if i < at { i } else { i + 1 };
                        let j2 = if j < at { j } else { j + 1 };
                        assert(before[i2].id < before[j2].id);
                    }
                }
                assert forall|i: int| 0 <= i < self.table_infos.len() implies (#[trigger] self.table_infos[i]).id
                    < self.next_table_id by {
                    let i2 = if i < at { i } else { i + 1 };
                    assert(old(self).table_infos[i2].id < self.next_table_id);
                }
                lemma_by_id(before);
                lemma_by_id(after);
                assert(by_id(after) =~= by_id(before).remove(id)) by {
                    assert forall|k: TableId| by_id(after).contains_key(k) <==> by_id(before).remove(
                        id,
                    ).contains_key(k) by {
                        if by_id(after).contains_key(k) {
                            let i = choose|i: int| 0 <= i < after.len() && (#[trigger] after[i]).id == k;
                            let i2 = if i < at { i } else { i + 1 };
                            assert(before[i2] == after[i]);
                            if i2 < at {
                                assert(before[i2].id < before[at as int].id);
                            } else {
                                assert(before[at as int].id < before[i2].id);
                            }
                        }
                        if by_id(before).contains_key(k) && k != id {
                            let i = choose|i: int| 0 <= i < before.len() && (#[trigger] before[i]).id == k;
                            let i2 = if i < at { i } else { i - 1 };
                            assert(after[i2] == before[i]);
                        }
                    }
                    assert forall|k: TableId| by_id(after).contains_key(k) implies by_id(after)[k] == by_id(
                        before,
                    ).remove(id)[k] by {
                        let i = choose|i: int| 0 <= i < after.len() && (#[trigger] after[i]).id == k;
                        let i2 = if i < at { i } else { i + 1 };
                        assert(before[i2] == after[i]);
                    }
                }
            }
        } else {
            proof {
                assert(!self@.infos.contains_key(id)) by {
                    if self@.infos.contains_key(id) {
                        let i = choose|i: int|
                            0 <= i < self.table_infos.len() && (#[trigger] self.table_infos[i]).id == id;
                        if at < i {
                            assert(before[at as int].id < before[i].id);
                        }
                    }
                }
                assert(self@.infos.remove(id) =~= self@.infos);
            }
        }
    }

    /// Adds a table, in place of any that had its number.
    fn add_table(&mut self, info: TableInfo)
        requires
            old(self).wf(),
            info.id < u64::MAX,
        ensures
            final(self).wf(),
            final(self)@ == with_table(old(self)@, info@),
    {
        let ghost whole = *self;
        let ghost id = info.id;
        let ghost view = info@;
        let next: TableId = if info.id < self.next_table_id {
            self.next_table_id
        } else {
            info.id + 1
        };
        self.remove(info.id);
        let ghost before = info_views(self.table_infos@);
        proof {
            self.lemma_listed();
        }
        let at: usize = self.position(info.id);
        proof {
            assert forall|i: int| 0 <= i < before.len() implies (#[trigger] before[i]).id != id by {
                assert(before[i] == self.table_infos[i]@);
            }
        }
        let ghost middle = *self;
        self.table_infos.insert(at, info);
        self.next_table_id = next;
        proof {
            assert forall|i: int| 0 <= i < at implies (#[trigger] before[i]).id < id by {
                assert(middle.table_infos[i].id < id);
            }
            assert forall|i: int| at <= i < before.len() implies (#[trigger] before[i]).id > id by {
                assert(middle.table_infos[i].id >= id);
            }
            lemma_insert_by_id(before, at as int, view);
            assert(info_views(self.table_infos@) =~= before.insert(at as int, view));
            assert forall|i: int| 0 <= i < self.table_infos.len() implies (#[trigger] self.table_infos[i]).id
                < self.next_table_id by {
                if i != at {
                    let i2 = if i < at { i } else { i - 1 };
                    assert(middle.table_infos[i2].id < middle.next_table_id);
                }
            }
            assert(self@.infos =~= whole@.infos.insert(id, view));
        }
    }

    /// Carries out an entry of the log.
    pub fn apply(&mut self, entry: &Entry)
        requires
            old(self).wf(),
            ids_bounded(entry@.additions),
        ensures
            final(self).wf(),
            final(self)@ == after_entry(old(self)@, entry@),
    {
        let ghost start = self@;
        let mut i: usize = 0;
        assert(start.infos.remove_keys(entry.removals@.take(0).to_set()) =~= start.infos);
        while i < entry.removals.len()
            invariant
                i <= entry.removals.len(),
                self.wf(),
                self@.next_id == start.next_id,
                self@.infos == start.infos.remove_keys(entry.removals@.take(i as int).to_set()),
            decreases entry.removals.len() - i,
        {
            self.remove(entry.removals[i]);
            proof {
                let done = entry.removals@.take(i as int);
                let more = entry.removals@.take(i + 1);
                assert(more =~= done.push(entry.removals[i as int]));
                assert(more.to_set() =~= done.to_set().insert(entry.removals[i as int])) by {
                    vstd::seq_lib::seq_to_set_is_finite(more);
                    broadcast use vstd::seq_lib::group_seq_properties;
                }
                assert(self@.infos =~= start.infos.remove_keys(more.to_set()));
            }
            i += 1;
        }
        assert(entry.removals@.take(i as int) =~= entry.removals@);
        let ghost middle = self@;
        let ghost adds = entry@.additions;
        let mut j: usize = 0;
        assert(adds.take(0) =~= Seq::<InfoView>::empty());
        while j < entry.additions.len()
            invariant
                j <= entry.additions.len(),
                adds == info_views(entry.additions@),
                ids_bounded(adds),
                self.wf(),
                self@ == with_tables(middle, adds.take(j as int)),
            decreases entry.additions.len() - j,
        {
            assert(adds[j as int] == entry.additions[j as int]@);
            assert(adds[j as int].id < u64::MAX);
            self.add_table(entry.additions[j].duplicate());
            proof {
                let more = adds.take(j + 1);
                assert(more.drop_last() =~= adds.take(j as int));
            }
            j += 1;
        }
        assert(adds.take(j as int) =~= adds);
    }

    /// The tables of a level, in the order of their numbers.
    pub fn ids_at(&self, level: LevelNumber) -> (ids: Vec<TableId>)
        requires
            self.wf(),
        ensures
            ids@ == ids_at(self@.infos, level),
            ascending(ids@),
            forall|id: TableId| ids@.contains(id) <==> self@.infos.contains_key(id) && self@.infos[id].level == level,
    {
        let ghost infos = self@.infos;
        proof {
            self.lemma_listed();
        }
        let mut ids: Vec<TableId> = Vec::new();
        let mut i: usize = 0;
        while i < self.table_infos.len()
            invariant
                self.wf(),
                i <= self.table_infos.len(),
                ascending(ids@),
                forall|j: int| 0 <= j < ids.len() && i < self.table_infos.len() ==> #[trigger] ids[j] < self.table_infos[i as int].id,
                forall|id: TableId|
                    ids@.contains(id) <==> exists|j: int|
                        0 <= j < i && (#[trigger] self.table_infos[j]).id == id && self.table_infos[j].level == level,
            decreases self.table_infos.len() - i,
        {
            let ghost v = info_views(self.table_infos@);
            let ghost before = ids@;
            if self.table_infos[i].level == level {
                ids.push(self.table_infos[i].id);
                assert(ids@[before.len() as int] == self.table_infos[i as int].id);
            }
            proof {
                if i + 1 < self.table_infos.len() {
                    assert(v[i as int].id < v[i + 1].id);
                }
                assert forall|id: TableId| ids@.contains(id) <==> exists|j: int|
                    0 <= j < i + 1 && (#[trigger] self.table_infos[j]).id == id && self.table_infos[j].level == level by {
                    if ids@.contains(id) {
                        let n = choose|n: int| 0 <= n < ids@.len() && ids@[n] == id;
                        if n < before.len() {
                            assert(before[n] == id);
                            assert(before.contains(id));
                        } else {
                            assert(self.table_infos[i as int].id == id);
                        }
                    }
                    if exists|j: int|
                        0 <= j < i + 1 && (#[trigger] self.table_infos[j]).id == id && self.table_infos[j].level
                            == level {
                        let j = choose|j: int|
                            0 <= j < i + 1 && (#[trigger] self.table_infos[j]).id == id && self.table_infos[j].level
                                == level;
                        if j < i {
                            assert(before.contains(id));
                            let n = choose|n: int| 0 <= n < before.len() && before[n] == id;
                            assert(ids@[n] == id);
                        }
                    }
                }
            }
            i += 1;
        }
        proof {
            let wanted = infos.dom().filter(|id: TableId| infos[id].level == level);
            assert forall|id: TableId| ids@.contains(id) <==> infos.contains_key(id) && infos[id].level == level by {
                if ids@.contains(id) {
                    let j = choose|j: int|
                        0 <= j < i && (#[trigger] self.table_infos[j]).id == id && self.table_infos[j].level == level;
                    assert(infos[self.table_infos[j].id] == self.table_infos[j]@);
                }
                if infos.contains_key(id) && infos[id].level == level {
                    let j = choose|j: int| 0 <= j < self.table_infos.len() && (#[trigger] self.table_infos[j]).id == id;
                    assert(infos[self.table_infos[j].id] == self.table_infos[j]@);
                }
            }
            assert(ids@.to_set() =~= wanted);
            lemma_id_list(ids@);
        }
        ids
    }

    /// The highest level that has a table.
    pub fn max_level(&self) -> (level: LevelNumber)
        requires
            self.wf(),
            self.table_infos.len() > 0,
        ensures
            is_max_level(self@.infos, level),
            level == max_level(self@.infos),
    {
        proof {
            self.lemma_listed();
        }
        let mut highest: LevelNumber = self.table_infos[0].level;
        let mut i: usize = 1;
        while i < self.table_infos.len()
            invariant
                1 <= i <= self.table_infos.len(),
                exists|j: int| 0 <= j < i && (#[trigger] self.table_infos[j]).level == highest,
                forall|j: int| 0 <= j < i ==> (#[trigger] self.table_infos[j]).level <= highest,
            decreases self.table_infos.len() - i,
        {
            if self.table_infos[i].level > highest {
                highest = self.table_infos[i].level;
            }
            i += 1;
        }
        proof {
            let infos = self@.infos;
            let j = choose|j: int| 0 <= j < i && (#[trigger] self.table_infos[j]).level == highest;
            assert(infos.contains_key(self.table_infos[j].id));
            assert forall|id: TableId| #[trigger] infos.contains_key(id) implies infos[id].level <= highest by {
                let n = choose|n: int| 0 <= n < self.table_infos.len() && (#[trigger] self.table_infos[n]).id == id;
                assert(infos[self.table_infos[n].id] == self.table_infos[n]@);
            }
            lemma_max_level(infos, highest);
        }
        highest
    }

    /// The lowest level, from `from` on, that has a table.
    fn next_level(&self, from: LevelNumber) -> (level: Option<LevelNumber>)
        requires
            self.wf(),
        ensures
            match level {
                Some(found) => {
                    &&& found >= from
                    &&& exists|id: TableId| #[trigger] self@.infos.contains_key(id) && self@.infos[id].level == found
                    &&& forall|id: TableId| #[trigger]
                        self@.infos.contains_key(id) && self@.infos[id].level >= from ==> self@.infos[id].level >= found
                },
                None => forall|id: TableId| #[trigger] self@.infos.contains_key(id) ==> self@.infos[id].level < from,
            },
    {
        proof {
            self.lemma_listed();
        }
        let mut lowest: Option<LevelNumber> = None;
        let mut i: usize = 0;
        while i < self.table_infos.len()
            invariant
                i <= self.table_infos.len(),
                match lowest {
                    Some(found) => {
                        &&& found >= from
                        &&& exists|j: int| 0 <= j < i && (#[trigger] self.table_infos[j]).level == found
                        &&& forall|j: int|
                            0 <= j < i && (#[trigger] self.table_infos[j]).level >= from ==> self.table_infos[j].level
                                >= found
                    },
                    None => forall|j: int| 0 <= j < i ==> (#[trigger] self.table_infos[j]).level < from,
                },
            decreases self.table_infos.len() - i,
        {
            let level: LevelNumber = self.table_infos[i].level;
            if level >= from {
                match lowest {
                    Some(found) => {
                        if level < found {
                            lowest = Some(level);
                        }
                    },
                    None => {
                        lowest = Some(level);
                    },
                }
            }
            i += 1;
        }
        proof {
            let infos = self@.infos;
            assert forall|id: TableId| #[trigger] infos.contains_key(id) implies exists|n: int|
                0 <= n < self.table_infos.len() && infos[id] == (#[trigger] self.table_infos[n])@ by {
                let n = choose|n: int| 0 <= n < self.table_infos.len() && (#[trigger] self.table_infos[n]).id == id;
                assert(infos[self.table_infos[n].id] == self.table_infos[n]@);
            }
            if let Some(found) = lowest {
                let n = choose|n: int| 0 <= n < self.table_infos.len() && (#[trigger] self.table_infos[n]).level == found;
                assert(infos.contains_key(self.table_infos[n].id));
                assert(infos[self.table_infos[n].id].level == found);
            }
        }
        lowest
    }

    /// All the tables, in the order in which they are visited.
    pub fn visits(&self, newest_first: bool) -> (ids: Vec<TableId>)
        requires
            self.wf(),
        ensures
            ids@ == visits(self@.infos, newest_first),
            order::ordered(ids@, |a: TableId, b: TableId| visited_before(self@.infos, newest_first, a, b)),
            forall|id: TableId| ids@.contains(id) <==> self@.infos.contains_key(id),
    {
        let ghost infos = self@.infos;
        let ghost less = |a: TableId, b: TableId| visited_before(infos, newest_first, a, b);
        let mut ids: Vec<TableId> = Vec::new();
        let mut from: LevelNumber = 0;
        let mut done: bool = false;
        while !done
            invariant
                self.wf(),
                infos == self@.infos,
                less == (|a: TableId, b: TableId| visited_before(infos, newest_first, a, b)),
                order::ordered(ids@, less),
                !done ==> forall|id: TableId|
                    ids@.contains(id) <==> infos.contains_key(id) && infos[id].level < from,
                done ==> forall|id: TableId| ids@.contains(id) <==> infos.contains_key(id),
            decreases (if done { 0int } else { u64::MAX - from + 1 }),
        {
            match self.next_level(from) {
                None => {
                    done = true;
                },
                Some(level) => {
                    let ghost before = ids@;
                    let mut on_level: Vec<TableId> = self.ids_at(level);
                    let ghost here = on_level@;
                    if newest_first || level == 0 {
                        reverse(&mut on_level);
                    }
                    let ghost added = on_level@;
                    ids.append(&mut on_level);
                    proof {
                        assert forall|id: TableId| added.contains(id) <==> here.contains(id) by {
                            if newest_first || level == 0 {
                                if added.contains(id) {
                                    let n = choose|n: int| 0 <= n < added.len() && added[n] == id;
                                    assert(here[here.len() - 1 - n] == id);
                                }
                                if here.contains(id) {
                                    let n = choose|n: int| 0 <= n < here.len() && here[n] == id;
                                    assert(added[here.len() - 1 - n] == id);
                                }
                            }
                        }
                        assert(ids@ == before + added);
                        let asc = |a: TableId, b: TableId| a < b;
                        assert forall|i: int, j: int| 0 <= i < j < ids@.len() implies #[trigger] less(ids@[i], ids@[j]) by {
                            if j < before.len() {
                                assert(less(before[i], before[j]));
                            } else if i < before.len() {
                                assert(before.contains(before[i]));
                                assert(added.contains(added[j - before.len()]));
                                assert(here.contains(ids@[j]));
                            } else {
                                let n = i - before.len();
                                let m = j - before.len();
                                assert(added.contains(added[n]) && added.contains(added[m]));
                                assert(here.contains(ids@[i]) && here.contains(ids@[j]));
                                if newest_first || level == 0 {
                                    assert(asc(here[here.len() - 1 - m], here[here.len() - 1 - n]));
                                } else {
                                    assert(asc(here[n], here[m]));
                                }
                            }
                        }
                        assert forall|id: TableId| ids@.contains(id) <==> infos.contains_key(id) && infos[id].level
                            <= level by {
                            if ids@.contains(id) {
                                let n = choose|n: int| 0 <= n < ids@.len() && ids@[n] == id;
                                if n < before.len() {
                                    assert(before.contains(before[n]));
                                } else {
                                    assert(added.contains(added[n - before.len()]));
                                }
                            }
                            if before.contains(id) {
                                let n = choose|n: int| 0 <= n < before.len() && before[n] == id;
                                assert(ids@[n] == id);
                            }
                            if added.contains(id) {
                                let n = choose|n: int| 0 <= n < added.len() && added[n] == id;
                                assert(ids@[before.len() + n] == id);
                            }
                        }
                    }
                    if level == u64::MAX {
                        done = true;
                    } else {
                        from = level + 1;
                    }
                },
            }
        }
        proof {
            assert(ids@.to_set() =~= infos.dom());
            lemma_visits(infos, newest_first, ids@);
        }
        ids
    }
}

/// Turns a list around.
fn reverse(ids: &mut Vec<TableId>)
    ensures
        final(ids)@ == old(ids)@.reverse(),
{
    let mut turned: Vec<TableId> = Vec::new();
    let mut i: usize = ids.len();
    while i > 0
        invariant
            i <= ids.len(),
            ids@ == old(ids)@,
            turned@ == ids@.skip(i as int).reverse(),
        decreases i,
    {
        i -= 1;
        turned.push(ids[i]);
        assert(turned@ =~= ids@.skip(i as int).reverse());
    }
    assert(ids@.skip(0) =~= ids@);
    *ids = turned;
}

} // verus!
