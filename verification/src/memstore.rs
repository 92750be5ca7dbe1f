//! The rows that have not been written to a table yet.
use crate::order;
use crate::order::Side;
use crate::rows;
use crate::rows::{Changes, Mutation, Row, RowView};
use vstd::prelude::*;
use vstd::utf8;

verus! {

/// What a row counts for in the memory usage: the bytes of its key and of its value, though never
/// more than a `usize` can say.
pub open spec fn row_usage(row: RowView) -> nat {
    let size = utf8::encode_utf8(row.0).len() + match row.1 {
        Some(value) => utf8::encode_utf8(value).len(),
        None => 0,
    };
    if size <= usize::MAX {
        size
    } else {
        usize::MAX as nat
    }
}

/// The memory usage of all the rows.
pub open spec fn usage(rows: Seq<RowView>) -> nat
    decreases rows.len(),
{
    if rows.len() == 0 {
        0
    } else {
        usage(rows.drop_last()) + row_usage(rows.last())
    }
}

/// Each row adds the bytes of its key and of the value that it sets to the memory usage, though never
/// more than a `usize` can say. Without rows there is none.
pub proof fn law_usage_counts_bytes(rows: Seq<RowView>, key: Seq<char>, mutation: Option<Seq<char>>)
    ensures
        usage(Seq::empty()) == 0,
        ({
            let size = utf8::encode_utf8(key).len() + (if mutation is Some {
                utf8::encode_utf8(mutation->Some_0).len()
            } else {
                0
            });
            usage(rows.push((key, mutation))) == usage(rows) + if size <= usize::MAX {
                size as int
            } else {
                usize::MAX as int
            }
        }),
{
    assert(rows.push((key, mutation)).drop_last() =~= rows);
}

proof fn lemma_usage_insert(rows: Seq<RowView>, at: int, row: RowView)
    requires
        0 <= at <= rows.len(),
    ensures
        usage(rows.insert(at, row)) == usage(rows) + row_usage(row),
    decreases rows.len(),
{
    let more = rows.insert(at, row);
    if at == rows.len() {
        assert(more.drop_last() =~= rows);
    } else {
        lemma_usage_insert(rows.drop_last(), at, row);
        assert(more.drop_last() =~= rows.drop_last().insert(at, row));
    }
}

proof fn lemma_usage_update(rows: Seq<RowView>, at: int, row: RowView)
    requires
        0 <= at < rows.len(),
    ensures
        usage(rows.update(at, row)) + row_usage(rows[at]) == usage(rows) + row_usage(row),
        row_usage(rows[at]) <= usage(rows),
    decreases rows.len(),
{
    let changed = rows.update(at, row);
    if at == rows.len() - 1 {
        assert(changed.drop_last() =~= rows.drop_last());
    } else {
        lemma_usage_update(rows.drop_last(), at, row);
        assert(changed.drop_last() =~= rows.drop_last().update(at, row));
    }
}

proof fn lemma_usage_bound(rows: Seq<RowView>)
    ensures
        usage(rows) <= rows.len() * usize::MAX,
    decreases rows.len(),
{
    if rows.len() > 0 {
        lemma_usage_bound(rows.drop_last());
        let n = (rows.len() - 1) as int;
        assert((n + 1) * usize::MAX == n * usize::MAX + usize::MAX) by (nonlinear_arith);
    }
}

proof fn lemma_usage_fits(rows: Seq<RowView>)
    requires
        rows.len() <= usize::MAX,
    ensures
        usage(rows) <= u128::MAX,
{
    lemma_usage_bound(rows);
    let n = rows.len() as int;
    let most = usize::MAX as int;
    assert(most <= 0xffff_ffff_ffff_ffff);
    assert(n * most <= 0xffff_ffff_ffff_ffff * 0xffff_ffff_ffff_ffff) by (nonlinear_arith)
        requires
            0 <= n <= most,
            most <= 0xffff_ffff_ffff_ffff,
    ;
}

/// What a row with this key and mutation counts for.
fn usage_of(key: &str, mutation: &Mutation) -> (size: usize)
    ensures
        size == row_usage((key@, mutation@)),
{
    let key_size: usize = key.as_bytes().len();
    let value_size: usize = match mutation {
        Mutation::Put(value) => value.as_str().as_bytes().len(),
        Mutation::Delete => 0,
    };
    if value_size <= usize::MAX - key_size {
        key_size + value_size
    } else {
        usize::MAX
    }
}

/// Rows in memory, sorted by their keys.
pub struct MemStore {
    pub entries: Vec<Row>,
    pub mem_usage: u128,
}

impl View for MemStore {
    type V = Changes;

    open spec fn view(&self) -> Changes {
        rows::to_map(rows::views(self.entries@))
    }
}

impl MemStore {
    /// The rows are sorted and their memory usage is known.
    pub open spec fn wf(self) -> bool {
        &&& rows::sorted(rows::views(self.entries@))
        &&& self.mem_usage == usage(rows::views(self.entries@))
    }

    /// The rows are those of the map, and so is the memory usage.
    pub proof fn lemma_rows(self)
        requires
            self.wf(),
        ensures
            rows::rows_of(self@) == rows::views(self.entries@),
            self.mem_usage == usage(rows::rows_of(self@)),
    {
        rows::lemma_rows_of(rows::views(self.entries@));
    }

    /// No rows.
    pub fn new() -> (store: MemStore)
        ensures
            store.wf(),
            store@ == Changes::empty(),
    {
        let store = MemStore { entries: Vec::new(), mem_usage: 0 };
        assert(rows::views(store.entries@) =~= Seq::<RowView>::empty());
        store
    }

    /// Whether there are no rows.
    pub fn is_empty(&self) -> (empty: bool)
        requires
            self.wf(),
        ensures
            empty == (self@ == Changes::empty()),
    {
        proof {
            rows::lemma_to_map(rows::views(self.entries@));
            if self.entries.len() > 0 {
                assert(self@.contains_key(rows::views(self.entries@)[0].0));
            } else {
                assert(self@ =~= Changes::empty());
            }
        }
        self.entries.len() == 0
    }

    /// What is to happen to `key`, if there is a row for it.
    pub fn lookup(&self, key: &str) -> (found: Option<&Mutation>)
        requires
            self.wf(),
        ensures
            match found {
                Some(mutation) => self@.contains_key(key@) && self@[key@] == mutation@,
                None => !self@.contains_key(key@),
            },
    {
        rows::find(&self.entries, key)
    }

    /// Puts in a row, in place of any that there was for its key.
    pub fn apply(&mut self, key: String, mutation: Mutation)
        requires
            old(self).wf(),
        ensures
            final(self).wf(),
            final(self)@ == old(self)@.insert(key@, mutation@),
    {
        broadcast use order::group_key_order;

        let ghost before = rows::views(self.entries@);
        let ghost row: RowView = (key@, mutation@);
        let added: usize = usage_of(key.as_str(), &mutation);
        let at: usize = rows::lower_bound(&self.entries, key.as_str());
        let present: bool = if at < self.entries.len() {
            match order::compare(self.entries[at].key.as_str(), key.as_str()) {
                Side::Same => true,
                _ => false,
            }
        } else {
            false
        };
        proof {
            rows::lemma_to_map(before);
            assert forall|i: int| 0 <= i < at implies order::key_less(#[trigger] before[i].0, key@) by {
                assert(order::key_less(self.entries[i].key@, key@));
            }
            assert forall|i: int| at <= i < before.len() implies !order::key_less(#[trigger] before[i].0, key@) by {
                assert(!order::key_less(self.entries[i].key@, key@));
            }
            if at < before.len() {
                assert(before[at as int].0 == self.entries[at as int].key@);
            }
        }
        if present {
            let removed: usize = usage_of(self.entries[at].key.as_str(), &self.entries[at].mutation);
            self.entries[at] = Row { key, mutation };
            let ghost after = rows::views(self.entries@);
            proof {
                assert(after =~= before.update(at as int, row));
                lemma_usage_update(before, at as int, row);
                lemma_usage_fits(after);
                rows::lemma_to_map(after);
                assert(rows::sorted(after));
                assert(rows::to_map(after) =~= rows::to_map(before).insert(row.0, row.1)) by {
                    assert forall|k: Seq<char>| rows::to_map(after).contains_key(k) <==> rows::to_map(before).insert(
                        row.0,
                        row.1,
                    ).contains_key(k) by {
                        if rows::to_map(after).contains_key(k) {
                            let i = choose|i: int| 0 <= i < after.len() && #[trigger] after[i].0 == k;
                            assert(before[i].0 == k);
                        }
                        if rows::to_map(before).contains_key(k) {
                            let i = choose|i: int| 0 <= i < before.len() && #[trigger] before[i].0 == k;
                            assert(after[i].0 == k);
                        }
                        assert(after[at as int].0 == row.0);
                    }
                    assert forall|k: Seq<char>| rows::to_map(after).contains_key(k) implies rows::to_map(after)[k]
                        == rows::to_map(before).insert(row.0, row.1)[k] by {
                        let i = choose|i: int| 0 <= i < after.len() && #[trigger] after[i].0 == k;
                        if i != at {
                            assert(before[i] == after[i]);
                            assert(before[i].0 != before[at as int].0);
                        }
                    }
                }
            }
            self.mem_usage = self.mem_usage - removed as u128 + added as u128;
        } else {
            self.entries.insert(at, Row { key, mutation });
            let ghost after = rows::views(self.entries@);
            proof {
                assert(after =~= before.insert(at as int, row));
                lemma_usage_insert(before, at as int, row);
                assert(self.entries.len() <= usize::MAX);
                lemma_usage_fits(after);
                assert forall|i: int, j: int| 0 <= i < j < after.len() implies order::key_less(
                    #[trigger] after[i].0,
                    #[trigger] after[j].0,
                ) by {
                    if i < at && at < j {
                        assert(after[i] == before[i] && after[j] == before[j - 1]);
                    } else if j < at {
                        assert(after[i] == before[i] && after[j] == before[j]);
                    } else if at < i {
                        assert(after[i] == before[i - 1] && after[j] == before[j - 1]);
                    } else if i == at {
                        assert(after[j] == before[j - 1]);
                        assert(!order::key_less(before[j - 1].0, key@));
                        assert(before[at as int].0 != key@);
                        if j - 1 > at {
                            assert(order::key_less(before[at as int].0, before[j - 1].0));
                        }
                    } else {
                        assert(after[i] == before[i]);
                    }
                }
                rows::lemma_to_map(after);
                assert(rows::to_map(after) =~= rows::to_map(before).insert(row.0, row.1)) by {
                    assert(after[at as int] == row);
                    assert forall|k: Seq<char>| rows::to_map(after).contains_key(k) <==> rows::to_map(before).insert(
                        row.0,
                        row.1,
                    ).contains_key(k) by {
                        if rows::to_map(after).contains_key(k) && k != row.0 {
                            let i = choose|i: int| 0 <= i < after.len() && #[trigger] after[i].0 == k;
                            assert(i != at);
                            let j = if i < at { i } else { i - 1 };
                            assert(before[j].0 == k);
                        }
                        if rows::to_map(before).contains_key(k) {
                            let i = choose|i: int| 0 <= i < before.len() && #[trigger] before[i].0 == k;
                            let j = if i < at { i } else { i + 1 };
                            assert(after[j].0 == k);
                        }
                    }
                    assert forall|k: Seq<char>| rows::to_map(after).contains_key(k) implies rows::to_map(after)[k]
                        == rows::to_map(before).insert(row.0, row.1)[k] by {
                        let i = choose|i: int| 0 <= i < after.len() && #[trigger] after[i].0 == k;
                        if i != at {
                            let j = if i < at { i } else { i - 1 };
                            assert(before[j] == after[i]);
                            assert(after[i].0 != after[at as int].0);
                        }
                    }
                }
            }
            self.mem_usage = self.mem_usage + added as u128;
        }
    }

    /// Puts in several rows, one after the other.
    pub fn apply_all(&mut self, all: &Vec<Row>)
        requires
            old(self).wf(),
        ensures
            final(self).wf(),
            final(self)@ == old(self)@.union_prefer_right(rows::to_map(rows::views(all@))),
    {
        let ghost v = rows::views(all@);
        let ghost start = self@;
        let mut i: usize = 0;
        proof {
            assert(v.take(0) =~= Seq::<RowView>::empty());
            assert(start.union_prefer_right(Changes::empty()) =~= start);
        }
        while i < all.len()
            invariant
                v == rows::views(all@),
                i <= all.len(),
                self.wf(),
                self@ == start.union_prefer_right(rows::to_map(v.take(i as int))),
            decreases all.len() - i,
        {
            self.apply(all[i].key.clone(), all[i].mutation.duplicate());
            proof {
                let more = v.take(i + 1);
                assert(more.drop_last() =~= v.take(i as int));
                assert(more.last() == all[i as int]@);
                assert(self@ =~= start.union_prefer_right(rows::to_map(more)));
            }
            i += 1;
        }
        assert(v.take(i as int) =~= v);
    }
}

} // verus!
