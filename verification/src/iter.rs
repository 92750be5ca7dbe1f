//! Walking through several sorted runs of rows at once.
use crate::interval;
use crate::interval::Bound;
use crate::order;
use crate::order::Side;
use crate::rows;
use crate::rows::{Changes, Mutation, Row, RowView};
use vstd::prelude::*;

verus! {

/// Where the rows of a run are.
pub enum Run<'a> {
    /// In a memory store.
    Memory(&'a Vec<Row>),
    /// Read from a table.
    Table(Vec<Row>),
}

impl<'a> Run<'a> {
    /// The rows of the run.
    pub open spec fn spec_rows(self) -> Seq<RowView> {
        match self {
            Run::Memory(entries) => rows::views(entries@),
            Run::Table(entries) => rows::views(entries@),
        }
    }

    /// The rows of the run.
    fn rows(&self) -> (all: &Vec<Row>)
        ensures
            rows::views(all@) == self.spec_rows(),
    {
        match self {
            Run::Memory(entries) => *entries,
            Run::Table(entries) => entries,
        }
    }
}

/// A run of rows, some of which may have been passed already.
pub struct Source<'a> {
    pub run: Run<'a>,
    pub pos: usize,
}

impl<'a> View for Source<'a> {
    type V = Changes;

    /// What is still to come.
    open spec fn view(&self) -> Changes {
        rows::to_map(self.run.spec_rows().skip(self.pos as int))
    }
}

impl<'a> Source<'a> {
    /// The rows are sorted, and no more of them were passed than there are.
    pub open spec fn wf(self) -> bool {
        &&& rows::sorted(self.run.spec_rows())
        &&& self.pos <= self.run.spec_rows().len()
    }

    /// The rows of a run from a lower end on.
    pub fn make(run: Run<'a>, lower: &Bound<String>) -> (source: Source<'a>)
        requires
            rows::sorted(run.spec_rows()),
        ensures
            source.wf(),
            source.run == run,
            source@ == interval::from_lower(rows::to_map(run.spec_rows()), *lower),
    {
        broadcast use order::group_key_order;

        let ghost all = run.spec_rows();
        let here: &Vec<Row> = run.rows();
        assert(here.len() == rows::views(here@).len());
        let pos: usize = match lower {
            Bound::Included(end) => rows::lower_bound(here, end.as_str()),
            Bound::Excluded(end) => {
                let at: usize = rows::lower_bound(here, end.as_str());
                if at < here.len() && !interval::above_lower_bound(here[at].key.as_str(), lower) {
                    at + 1
                } else {
                    at
                }
            },
            Bound::Unbounded => 0,
        };
        proof {
            assert forall|i: int| 0 <= i < all.len() implies (pos <= i <==> interval::above_lower(
                (#[trigger] all[i]).0,
                *lower,
            )) by {
                assert(here[i].key@ == all[i].0);
                if pos > 0 {
                    assert(here[pos - 1].key@ == all[pos - 1].0);
                    if i < pos - 1 {
                        assert(order::key_less(all[i].0, all[pos - 1].0));
                    }
                }
                if pos < all.len() {
                    assert(here[pos as int].key@ == all[pos as int].0);
                    if pos < i {
                        assert(order::key_less(all[pos as int].0, all[i].0));
                    }
                }
            }
            let rest = all.skip(pos as int);
            assert(rows::sorted(rest));
            rows::lemma_to_map(all);
            rows::lemma_to_map(rest);
            let narrowed = interval::from_lower(rows::to_map(all), *lower);
            assert forall|k: Seq<char>| rows::to_map(rest).contains_key(k) <==> narrowed.contains_key(k) by {
                if rows::to_map(rest).contains_key(k) {
                    let i = choose|i: int| 0 <= i < rest.len() && #[trigger] rest[i].0 == k;
                    assert(all[pos + i].0 == k);
                }
                if narrowed.contains_key(k) {
                    let i = choose|i: int| 0 <= i < all.len() && #[trigger] all[i].0 == k;
                    assert(rest[i - pos].0 == k);
                }
            }
            assert forall|k: Seq<char>| rows::to_map(rest).contains_key(k) implies rows::to_map(rest)[k]
                == narrowed[k] by {
                let i = choose|i: int| 0 <= i < rest.len() && #[trigger] rest[i].0 == k;
                assert(all[pos + i] == rest[i]);
            }
            assert(rows::to_map(rest) =~= narrowed);
        }
        Source { run, pos }
    }

    /// The next row, where there is one.
    pub open spec fn head(self) -> RowView {
        self.run.spec_rows()[self.pos as int]
    }

    /// The next row is the one with the smallest key of those that are still to come.
    proof fn lemma_head(self)
        requires
            self.wf(),
        ensures
            self.pos == self.run.spec_rows().len() ==> self@ == Changes::empty(),
            self.pos < self.run.spec_rows().len() ==> {
                &&& self@.contains_key(self.head().0)
                &&& self@[self.head().0] == self.head().1
                &&& forall|k: Seq<char>| #[trigger] self@.contains_key(k) ==> !order::key_less(k, self.head().0)
                &&& rows::to_map(self.run.spec_rows().skip(self.pos + 1)) == self@.remove(self.head().0)
            },
    {
        rows::lemma_head(self.run.spec_rows(), self.pos as int);
    }
}

/// `key` is the smallest key of the map.
pub open spec fn is_least(changes: Changes, key: Seq<char>) -> bool {
    &&& changes.contains_key(key)
    &&& forall|k: Seq<char>| #[trigger] changes.contains_key(k) ==> !order::key_less(k, key)
}

/// The smallest key of the map.
pub open spec fn least_key(changes: Changes) -> Seq<char> {
    choose|key: Seq<char>| is_least(changes, key)
}

/// There is one smallest key.
pub proof fn lemma_least_key(changes: Changes, key: Seq<char>)
    requires
        is_least(changes, key),
    ensures
        least_key(changes) == key,
{
    broadcast use order::group_key_order;

    let found = least_key(changes);
    assert(is_least(changes, found));
    assert(!order::key_less(found, key) && !order::key_less(key, found));
}

/// What the runs have still to come, one map for each.
pub open spec fn layers(sources: Seq<Source>) -> Seq<Changes> {
    Seq::new(sources.len(), |i: int| sources[i]@)
}

/// The maps, each without the keys below the lower end.
pub open spec fn narrowed(maps: Seq<Changes>, lower: Bound<String>) -> Seq<Changes> {
    Seq::new(maps.len(), |i: int| interval::from_lower(maps[i], lower))
}

/// Without a lower end nothing is left out.
pub proof fn lemma_narrowed_unbounded(maps: Seq<Changes>)
    ensures
        narrowed(maps, Bound::Unbounded) == maps,
{
    assert forall|i: int| 0 <= i < maps.len() implies #[trigger] narrowed(maps, Bound::Unbounded)[i] == maps[i] by {
        assert(interval::from_lower(maps[i], Bound::Unbounded) =~= maps[i]);
    }
    assert(narrowed(maps, Bound::Unbounded) =~= maps);
}

/// Leaving keys out of every layer leaves them out of the overlay.
pub proof fn lemma_overlay_narrowed(maps: Seq<Changes>, lower: Bound<String>)
    ensures
        rows::overlay(narrowed(maps, lower)) == interval::from_lower(rows::overlay(maps), lower),
    decreases maps.len(),
{
    if maps.len() > 0 {
        lemma_overlay_narrowed(maps.drop_first(), lower);
        assert(narrowed(maps, lower).drop_first() =~= narrowed(maps.drop_first(), lower));
    }
    assert(rows::overlay(narrowed(maps, lower)) =~= interval::from_lower(rows::overlay(maps), lower));
}

/// Taking a key out of every layer takes it out of their overlay.
proof fn lemma_overlay_remove(before: Seq<Changes>, after: Seq<Changes>, key: Seq<char>)
    requires
        before.len() == after.len(),
        forall|i: int| 0 <= i < before.len() ==> #[trigger] after[i] == before[i].remove(key),
    ensures
        rows::overlay(after) == rows::overlay(before).remove(key),
    decreases before.len(),
{
    if before.len() > 0 {
        let b = before.drop_first();
        let a = after.drop_first();
        assert forall|i: int| 0 <= i < b.len() implies #[trigger] a[i] == b[i].remove(key) by {
            assert(after[i + 1] == before[i + 1].remove(key));
        }
        lemma_overlay_remove(b, a, key);
        assert(after[0] == before[0].remove(key));
        assert(rows::overlay(after) =~= rows::overlay(before).remove(key));
    } else {
        assert(rows::overlay(after) =~= rows::overlay(before).remove(key));
    }
}

/// Walks through the rows of several runs in the order of their keys. Where several runs have a
/// key, the frontmost one counts.
pub struct MergeIterator<'a> {
    pub sources: Vec<Source<'a>>,
}

impl<'a> View for MergeIterator<'a> {
    type V = Changes;

    /// What is still to come.
    open spec fn view(&self) -> Changes {
        rows::overlay(layers(self.sources@))
    }
}

impl<'a> MergeIterator<'a> {
    /// Each run is sorted.
    pub open spec fn wf(self) -> bool {
        forall|i: int| 0 <= i < self.sources.len() ==> (#[trigger] self.sources[i]).wf()
    }

    /// There is an end to what is still to come.
    pub proof fn lemma_finite(self)
        ensures
            self@.dom().finite(),
    {
        let all = layers(self.sources@);
        assert forall|i: int| 0 <= i < all.len() implies (#[trigger] all[i]).dom().finite() by {
            rows::lemma_to_map(self.sources[i].run.spec_rows().skip(self.sources[i].pos as int));
        }
        rows::lemma_overlay_finite(all);
    }

    /// A walk through the given runs.
    pub fn make(sources: Vec<Source<'a>>) -> (iter: MergeIterator<'a>)
        requires
            forall|i: int| 0 <= i < sources.len() ==> (#[trigger] sources[i]).wf(),
        ensures
            iter.wf(),
            iter@ == rows::overlay(layers(sources@)),
    {
        MergeIterator { sources }
    }

    /// The frontmost run of those whose next row has the smallest key.
    fn least(&self) -> (least: Option<usize>)
        requires
            self.wf(),
        ensures
            match least {
                Some(at) => {
                    &&& at < self.sources.len()
                    &&& self.sources[at as int].pos < self.sources[at as int].run.spec_rows().len()
                    &&& is_least(self@, self.sources[at as int].head().0)
                    &&& self@[self.sources[at as int].head().0] == self.sources[at as int].head().1
                },
                None => self@ == Changes::empty(),
            },
    {
        let mut best: Option<usize> = None;
        let mut i: usize = 0;
        while i < self.sources.len()
            invariant
                self.wf(),
                i <= self.sources.len(),
                match best {
                    Some(at) => {
                        &&& at < i
                        &&& self.sources[at as int].pos < self.sources[at as int].run.spec_rows().len()
                        &&& forall|j: int|
                            0 <= j < i && (#[trigger] self.sources[j]).pos < self.sources[j].run.spec_rows().len()
                                ==> !order::key_less(self.sources[j].head().0, self.sources[at as int].head().0)
                        &&& forall|j: int|
                            0 <= j < at && (#[trigger] self.sources[j]).pos < self.sources[j].run.spec_rows().len()
                                ==> self.sources[j].head().0 != self.sources[at as int].head().0
                    },
                    None => forall|j: int|
                        0 <= j < i ==> (#[trigger] self.sources[j]).pos == self.sources[j].run.spec_rows().len(),
                },
            decreases self.sources.len() - i,
        {
            broadcast use order::group_key_order;

            assert(self.sources[i as int].wf());
            let pos: usize = self.sources[i].pos;
            let here: &Vec<Row> = self.sources[i].run.rows();
            assert(here.len() == rows::views(here@).len());
            if pos < here.len() {
                assert(here[pos as int].key@ == self.sources[i as int].head().0);
                match best {
                    Some(at) => {
                        let there: &Vec<Row> = self.sources[at].run.rows();
                        let there_pos: usize = self.sources[at].pos;
                        assert(there.len() == rows::views(there@).len());
                        assert(there[there_pos as int].key@ == self.sources[at as int].head().0);
                        match order::compare(here[pos].key.as_str(), there[there_pos].key.as_str()) {
                            Side::Before => {
                                best = Some(i);
                            },
                            _ => {},
                        }
                    },
                    None => {
                        best = Some(i);
                    },
                }
            }
            i += 1;
        }
        proof {
            broadcast use order::group_key_order;

            let all = layers(self.sources@);
            match best {
                Some(at) => {
                    let key = self.sources[at as int].head().0;
                    self.sources[at as int].lemma_head();
                    assert(all[at as int] == self.sources[at as int]@);
                    assert forall|j: int| 0 <= j < at implies !(#[trigger] all[j]).contains_key(key) by {
                        assert(all[j] == self.sources[j]@);
                        self.sources[j].lemma_head();
                        if all[j].contains_key(key) {
                            assert(!order::key_less(key, self.sources[j].head().0));
                        }
                    }
                    rows::lemma_overlay_at(all, key, at as int);
                    assert forall|k: Seq<char>| #[trigger] self@.contains_key(k) implies !order::key_less(k, key) by {
                        let j = rows::lemma_overlay_frontmost(all, k);
                        assert(all[j] == self.sources[j]@);
                        self.sources[j].lemma_head();
                    }
                },
                None => {
                    assert forall|k: Seq<char>| !self@.contains_key(k) by {
                        assert forall|j: int| 0 <= j < all.len() implies !(#[trigger] all[j]).contains_key(k) by {
                            assert(all[j] == self.sources[j]@);
                            self.sources[j].lemma_head();
                        }
                        rows::lemma_overlay_absent(all, k);
                    }
                    assert(self@ =~= Changes::empty());
                },
            }
        }
        best
    }

    /// The key of the next row.
    pub fn current_key(&self) -> (key: Option<&String>)
        requires
            self.wf(),
        ensures
            match key {
                Some(k) => is_least(self@, k@) && k@ == least_key(self@),
                None => self@ == Changes::empty(),
            },
    {
        match self.least() {
            Some(at) => {
                let pos: usize = self.sources[at].pos;
                let here: &Vec<Row> = self.sources[at].run.rows();
                assert(here.len() == rows::views(here@).len());
                assert(here[pos as int].key@ == self.sources[at as int].head().0);
                proof {
                    lemma_least_key(self@, here[pos as int].key@);
                }
                Some(&here[pos].key)
            },
            None => None,
        }
    }

    /// What the next row does to its key.
    pub fn current_value(&self) -> (mutation: Option<&Mutation>)
        requires
            self.wf(),
        ensures
            match mutation {
                Some(m) => is_least(self@, least_key(self@)) && m@ == self@[least_key(self@)],
                None => self@ == Changes::empty(),
            },
    {
        match self.least() {
            Some(at) => {
                let pos: usize = self.sources[at].pos;
                let here: &Vec<Row> = self.sources[at].run.rows();
                assert(here.len() == rows::views(here@).len());
                assert(here[pos as int]@ == self.sources[at as int].head());
                proof {
                    lemma_least_key(self@, here[pos as int].key@);
                }
                Some(&here[pos].mutation)
            },
            None => None,
        }
    }

    /// Passes the next row.
    pub fn step(&mut self)
        requires
            old(self).wf(),
        ensures
            final(self).wf(),
            old(self)@ == Changes::empty() ==> final(self)@ == old(self)@,
            old(self)@ != Changes::empty() ==> final(self)@ == old(self)@.remove(least_key(old(self)@)),
    {
        let key: String = match self.current_key() {
            Some(k) => k.clone(),
            None => {
                return;
            },
        };
        let ghost start = self.sources@;
        let mut i: usize = 0;
        while i < self.sources.len()
            invariant
                self.wf(),
                self.sources.len() == start.len(),
                i <= start.len(),
                is_least(rows::overlay(layers(start)), key@),
                forall|j: int| 0 <= j < start.len() ==> (#[trigger] start[j]).wf(),
                forall|j: int| i <= j < start.len() ==> self.sources[j] == #[trigger] start[j],
                forall|j: int| 0 <= j < i ==> (#[trigger] self.sources[j])@ == start[j]@.remove(key@),
            decreases self.sources.len() - i,
        {
            broadcast use order::group_key_order;

            let ghost all = layers(start);
            assert(start[i as int].wf());
            assert(self.sources[i as int] == start[i as int]);
            let pos: usize = self.sources[i].pos;
            let here: &Vec<Row> = self.sources[i].run.rows();
            assert(here.len() == rows::views(here@).len());
            proof {
                start[i as int].lemma_head();
                assert(all[i as int] == start[i as int]@);
            }
            let passed: bool = if pos < here.len() {
                assert(here[pos as int].key@ == start[i as int].head().0);
                match order::compare(here[pos].key.as_str(), key.as_str()) {
                    Side::Same => true,
                    _ => false,
                }
            } else {
                false
            };
            proof {
                if !passed {
                    assert(!start[i as int]@.contains_key(key@)) by {
                        if start[i as int]@.contains_key(key@) {
                            let head = start[i as int].head().0;
                            assert(order::key_less(head, key@));
                            assert(all[i as int].contains_key(head));
                            rows::lemma_in_overlay(all, i as int, head);
                            assert(rows::overlay(all).contains_key(head));
                        }
                    }
                    assert(start[i as int]@.remove(key@) =~= start[i as int]@);
                }
            }
            if passed {
                self.sources[i].pos = pos + 1;
            }
            i += 1;
        }
        proof {
            let before = layers(start);
            let after = layers(self.sources@);
            assert forall|j: int| 0 <= j < before.len() implies #[trigger] after[j] == before[j].remove(key@) by {
                assert(self.sources[j]@ == start[j]@.remove(key@));
            }
            lemma_overlay_remove(before, after, key@);
        }
    }
}

} // verus!
